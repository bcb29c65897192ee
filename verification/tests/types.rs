use bidirectional::algorithm::{
    apply_context, application_synthesizes_to, checks_against, instantiate_l, instantiate_r,
    literal_checks_against, literal_synthesizes_to, subtype, synthesizes_to, try_apply_context,
    try_application_synthesizes_to, try_checks_against, try_instantiate_r, try_subtype,
    try_synthesizes_to, State, TypeError,
};
use bidirectional::builders::{
    abs, lit_bool, lit_str, ty_bool, ty_existential, ty_forall, ty_fun, ty_str, ty_tuple, ty_var,
    var,
};
use bidirectional::context::{Ctx, CtxElem};
use bidirectional::syntax::{
    names_equal, names_read_same, occurs_in, str_eq, substitution, types_equal, Lit, LitType, Name,
    Type,
};

fn ex(i: usize) -> Type {
    Type::Exists(Name::Index(i))
}

fn state_at(k: usize) -> State {
    let mut s = State::default();
    for _ in 0..k {
        s.fresh_existential();
    }
    s
}

#[test]
fn names() {
    assert!(names_equal(Name::with_name("x"), Name::with_name("x")));
    assert!(!names_equal(Name::with_name("x"), Name::with_name("y")));
    // the algorithm tells a written `t0` from the generated name 0 ...
    assert!(!names_equal(Name::Index(0), Name::with_name("t0")));
    // ... while `==` reads a written `t<numeral>` as that generated name
    assert!(names_read_same(Name::Index(0), Name::with_name("t0")));
    assert!(names_read_same(Name::with_name("t12"), Name::Index(12)));
    assert!(!names_read_same(Name::Index(1), Name::with_name("t01")));
    assert!(!names_read_same(Name::Index(0), Name::with_name("0")));
    assert!(names_read_same(Name::with_name("x"), Name::with_name("x")));
    assert_eq!(Name::Index(7), Name::with_name("t7"));
    assert_ne!(Name::Index(7), Name::with_name("t8"));
    assert!(names_equal(Name::Index(3), Name::Index(3)));
    assert!(str_eq("αβ", "αβ"));
    assert!(!str_eq("ab", "abc"));
    assert_eq!(Name::with_name("x").render(), "tx");
    assert_eq!(Name::Index(1207).render(), "t1207");
}

#[test]
fn monotypes() {
    assert!(ty_fun(ty_bool(), ex(0)).is_monotype());
    assert!(!ty_forall("a", ty_var("a")).is_monotype());
    assert!(!ty_fun(ty_bool(), ty_forall("a", ty_var("a"))).is_monotype());
    // a quantifier inside a tuple makes a polytype too
    assert!(!ty_tuple(ty_forall("a", ty_var("a")), ty_bool()).is_monotype());
    assert!(ty_tuple(ex(1), ty_var("a")).is_monotype());
}

#[test]
fn occurrences() {
    let t = ty_fun(ex(1), ty_tuple(ty_var("a"), ty_bool()));
    assert!(occurs_in(Name::Index(1), &t));
    assert!(occurs_in(Name::with_name("a"), &t));
    assert!(!occurs_in(Name::Index(2), &t));
    // a bound name is not free
    assert!(!occurs_in(Name::with_name("a"), &ty_forall("a", ty_var("a"))));
}

#[test]
fn substitutions() {
    let t = ty_fun(ty_var("a"), ty_tuple(ty_var("a"), ty_var("b")));
    assert_eq!(
        substitution(&t, Name::with_name("a"), &ex(4)),
        ty_fun(ex(4), ty_tuple(ex(4), ty_var("b")))
    );
    // a name absent from the type: unchanged
    assert_eq!(substitution(&t, Name::with_name("c"), &ex(4)), t);
    // a binder of the same name hides the inner occurrences
    let s = ty_forall("a", ty_var("a"));
    assert_eq!(substitution(&s, Name::with_name("a"), &ex(4)), s);
    assert_eq!(
        substitution(&ty_forall("b", ty_var("a")), Name::with_name("a"), &ty_bool()),
        ty_forall("b", ty_bool())
    );
    assert!(types_equal(&t, &t.clone()));
    assert!(!types_equal(&t, &s));
}

#[test]
fn expressions_clone() {
    let e = bidirectional::builders::let_in("f", abs("x", var("x")), var("f"));
    assert_eq!(e.clone(), e);
}

#[test]
fn literals() {
    assert!(literal_checks_against(&Lit::Int(3), &LitType::Int));
    assert!(!literal_checks_against(&Lit::Int(3), &LitType::Bool));
    assert!(literal_checks_against(&Lit::Unit, &LitType::Unit));
    assert!(literal_checks_against(&Lit::Float(2.5f64.to_bits()), &LitType::Float));
    assert_eq!(literal_synthesizes_to(&Lit::Char('c')), LitType::Char);
    assert_eq!(literal_synthesizes_to(&Lit::String("s".to_string())), LitType::String);
    assert_eq!(LitType::Float.render(), "Float");
    assert_eq!(LitType::Unit.render(), "()");
}

#[test]
fn fresh_existentials_count_up() {
    let mut s = State::default();
    assert_eq!(s.fresh_existential(), Name::Index(0));
    assert_eq!(s.fresh_existential(), Name::Index(1));
    assert_eq!(s.fresh_existential(), Name::Index(2));
}

#[test]
fn applying_a_context() {
    let c = Ctx::default()
        .add(CtxElem::Exists(Name::Index(0)))
        .add(CtxElem::Solved(Name::Index(1), ty_fun(ex(0), ty_str())))
        .add(CtxElem::Solved(Name::Index(2), ex(1)));
    assert_eq!(
        apply_context(ty_tuple(ex(2), ty_bool()), &c),
        ty_tuple(ty_fun(ex(0), ty_str()), ty_bool())
    );
    // no fuel left for following two solutions
    assert_eq!(try_apply_context(ex(2), &c, 1), Err(TypeError::Exhausted));
    // a type with no solved existential comes back as it was
    let t = ty_forall("a", ty_fun(ty_var("a"), ex(0)));
    assert_eq!(try_apply_context(t.clone(), &c, 0), Ok(t));
}

#[test]
fn cyclic_context_runs_out_of_fuel() {
    let c = Ctx::default()
        .add(CtxElem::Solved(Name::Index(0), ex(1)))
        .add(CtxElem::Solved(Name::Index(1), ex(0)));
    assert_eq!(try_apply_context(ex(0), &c, 50), Err(TypeError::Exhausted));
}

#[test]
fn subtyping() {
    let c = Ctx::default().add(CtxElem::Var(Name::with_name("a")));
    let t = ty_fun(ty_var("a"), ty_tuple(ty_bool(), ty_str()));
    let mut s = State::default();
    assert_eq!(subtype(&mut s, &c, &t, &t), c.clone());
    assert_eq!(try_subtype(&mut s, &c, &ty_bool(), &ty_str(), 20), Err(TypeError::Rejected));
    // ∀b. b -> b <: Bool -> Bool: the marker and the existential are gone again
    let poly = ty_forall("b", ty_fun(ty_var("b"), ty_var("b")));
    let mono = ty_fun(ty_bool(), ty_bool());
    let r = subtype(&mut s, &Ctx::default(), &poly, &mono);
    assert_eq!(r.render(), "[]");
    assert_eq!(s.fresh_existential(), Name::Index(1));
    // Bool -> Bool is not more general than ∀b. b -> b
    assert_eq!(try_subtype(&mut s, &Ctx::default(), &mono, &poly, 20), Err(TypeError::Rejected));
    // domains are compared contravariantly: Bool -> Bool <: (∀a. a) -> Bool
    let mut s = State::default();
    let r = subtype(
        &mut s,
        &Ctx::default(),
        &mono,
        &ty_fun(ty_forall("a", ty_var("a")), ty_bool()),
    );
    assert_eq!(r, Ctx::default());
    assert_eq!(s.fresh_existential(), Name::Index(1));
    // components of pairs are compared in turn, each in the context the one
    // before left: the first solves t0^, which the second then no longer finds
    let c = Ctx::default().add(CtxElem::Exists(Name::Index(0)));
    let mut s = state_at(1);
    let r = subtype(
        &mut s,
        &c,
        &ty_tuple(ex(0), ty_str()),
        &ty_tuple(ty_bool(), ty_str()),
    );
    assert_eq!(r.render(), "[t0^: Bool]");
    assert_eq!(
        try_subtype(&mut s, &c, &ty_tuple(ex(0), ex(0)), &ty_tuple(ty_bool(), ty_bool()), 20),
        Err(TypeError::Rejected)
    );
    // no fuel
    assert_eq!(try_subtype(&mut s, &c, &t, &t, 0), Err(TypeError::Exhausted));
}

#[test]
fn occurs_check_rejects_circular_solutions() {
    let c = Ctx::default().add(CtxElem::Exists(Name::Index(0)));
    let mut s = state_at(1);
    assert_eq!(
        try_subtype(&mut s, &c, &ex(0), &ty_fun(ex(0), ty_bool()), 20),
        Err(TypeError::Rejected)
    );
}

#[test]
fn instantiation() {
    let c = Ctx::default()
        .add(CtxElem::Exists(Name::Index(0)))
        .add(CtxElem::Exists(Name::Index(1)));
    let mut s = state_at(2);
    // InstLSolve
    let r = instantiate_l(&mut s, &c, Name::Index(1), &ty_bool());
    assert_eq!(r.render(), "[t0^, t1^: Bool]");
    // InstLReach
    let r = instantiate_l(&mut s, &c, Name::Index(0), &ex(1));
    assert_eq!(r.render(), "[t0^, t1^: t0^]");
    // InstRArr
    let r = instantiate_r(&mut s, &c, &ty_fun(ty_bool(), ty_str()), Name::Index(0));
    assert_eq!(r.render(), "[t0^: (Bool -> String), t1^]");
    // an existential that is not in the context
    assert_eq!(
        try_instantiate_r(&mut s, &c, &ty_bool(), Name::Index(7), 10),
        Err(TypeError::Rejected)
    );
    // a quantifier inside a pair cannot be instantiated into an existential
    let mut s = state_at(2);
    let r = try_instantiate_r(
        &mut s,
        &c,
        &ty_tuple(ty_forall("a", ty_fun(ty_var("a"), ty_var("a"))), ty_bool()),
        Name::Index(1),
        10,
    );
    assert_eq!(r, Err(TypeError::Rejected));
    // InstRArr then InstRAllL: the marker of the quantifier is dropped again
    let c = Ctx::default().add(CtxElem::Exists(Name::Index(0)));
    let mut s = state_at(1);
    let r = instantiate_r(
        &mut s,
        &c,
        &ty_fun(ty_bool(), ty_forall("a", ty_var("a"))),
        Name::Index(0),
    );
    assert_eq!(apply_context(ex(0), &r), ty_fun(ty_bool(), ex(2)));
    assert_eq!(r.get_solved(Name::Index(2)), None);
    assert!(!r.contains(&CtxElem::Marker(Name::Index(3))));
    assert_eq!(s.fresh_existential(), Name::Index(4));
    // the existential must be declared before what solves it
    let c = Ctx::default()
        .add(CtxElem::Exists(Name::Index(0)))
        .add(CtxElem::Var(Name::with_name("a")));
    let mut s = state_at(1);
    assert_eq!(
        bidirectional::algorithm::try_instantiate_l(&mut s, &c, Name::Index(0), &ty_var("a"), 10),
        Err(TypeError::Rejected)
    );
}

#[test]
fn checking_and_synthesis() {
    let mut s = State::default();
    let c = Ctx::default();
    // λx.x checks against Bool -> Bool; the binding of x ends with the lambda
    let r = checks_against(&mut s, &c, &abs("x", var("x")), &ty_fun(ty_bool(), ty_bool()));
    assert_eq!(r.render(), "[]");
    // ∀I then ->I: the type variable and the binding are dropped again
    let r = checks_against(
        &mut s,
        &c,
        &abs("x", var("x")),
        &ty_forall("t", ty_fun(ty_var("t"), ty_var("t"))),
    );
    assert_eq!(r, Ctx::default());
    assert_eq!(s.fresh_existential(), Name::Index(0));
    // a literal against a wrong literal type
    assert_eq!(
        try_checks_against(&mut s, &c, &lit_bool(), &ty_str(), 50),
        Err(TypeError::Rejected)
    );
    // a type that is not well formed
    assert_eq!(
        try_checks_against(&mut s, &c, &lit_bool(), &ty_var("q"), 50),
        Err(TypeError::Rejected)
    );
    let (t, ctx) = synthesizes_to(&mut s, &c, &lit_str());
    assert_eq!(t, ty_str());
    assert_eq!(ctx.len(), 0);
    // ->I=>: two fresh existentials, the binding of x dropped afterwards
    let mut s = State::default();
    let (t, ctx) = synthesizes_to(&mut s, &c, &abs("x", var("x")));
    assert_eq!(t, ty_fun(ex(0), ex(1)));
    assert_eq!(apply_context(t, &ctx), ty_fun(ex(0), ex(0)));
    assert_eq!(ctx.get_annotation(Name::with_name("x")), None);
    assert_eq!(s.fresh_existential(), Name::Index(2));
    // application to a function type checks the argument
    let (t, _) = application_synthesizes_to(&mut s, &c, &ty_fun(ty_str(), ty_bool()), &lit_str());
    assert_eq!(t, ty_bool());
    assert_eq!(
        try_application_synthesizes_to(&mut s, &c, &ty_bool(), &lit_str(), 50),
        Err(TypeError::Rejected)
    );
    // a written existential name is rendered with the t prefix
    assert_eq!(ty_existential("q").render(), "tq^");
    assert_eq!(try_synthesizes_to(&mut s, &c, &lit_str(), 0), Err(TypeError::Exhausted));
}

#[test]
fn type_text() {
    let t = ty_forall("a", ty_fun(ty_var("a"), ty_tuple(ex(3), ty_bool())));
    assert_eq!(t.render(), "(∀ta. (ta -> t3^ × Bool))");
    assert_eq!(CtxElem::Marker(Name::Index(2)).render(), "<|t2");
    assert_eq!(CtxElem::Solved(Name::Index(2), ty_str()).render(), "t2^: String");
}
