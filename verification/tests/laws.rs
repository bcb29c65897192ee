use bidirectional::algorithm::{
    checks_against, instantiate_l, try_checks_against, try_subtype, try_synthesizes_to,
    subtype, State, TypeError,
};
use bidirectional::builders::{
    abs, application, id, let_in, lit_bool, lit_str, ty_bool, ty_forall, ty_fun, ty_str,
    ty_tuple, ty_var, tuple, var,
};
use bidirectional::context::{Ctx, CtxElem};
use bidirectional::syntax::{Name, Type};

fn state_at(k: usize) -> State {
    let mut s = State::default();
    for _ in 0..k {
        s.fresh_existential();
    }
    s
}

#[test]
fn result_does_not_depend_on_fuel() {
    let e = let_in(
        "newid",
        id(),
        tuple(
            application(var("newid"), lit_str()),
            application(var("newid"), lit_bool()),
        ),
    );
    let mut s1 = State::default();
    let mut s2 = State::default();
    let c = Ctx::default();
    let r1 = try_synthesizes_to(&mut s1, &c, &e, 40).unwrap();
    let r2 = try_synthesizes_to(&mut s2, &c, &e, 10000).unwrap();
    assert_eq!(r1.0, r2.0);
    assert_eq!(r1.1.render(), r2.1.render());
    assert_eq!(s1.fresh_existential(), s2.fresh_existential());
}

#[test]
fn generated_names_stay_below_the_counter() {
    let e = application(abs("x", tuple(var("x"), var("x"))), lit_str());
    let mut s = State::default();
    let (_, c) = try_synthesizes_to(&mut s, &Ctx::default(), &e, 100).unwrap();
    let next = match s.fresh_existential() {
        Name::Index(k) => k,
        Name::Name(_) => unreachable!(),
    };
    assert!(next > 0);
    for i in 0..c.len() {
        let n = match c.get(i) {
            CtxElem::Exists(x) | CtxElem::Solved(x, _) | CtxElem::Marker(x) => *x,
            CtxElem::Var(x) | CtxElem::TypedVar(x, _) => *x,
        };
        if let Name::Index(k) = n {
            assert!(k < next);
        }
    }
    // the next fresh name is in no entry of the context
    assert!(!c.contains(&CtxElem::Exists(Name::Index(next))));
}

#[test]
fn add_then_drop_keeps_the_added_element() {
    let c = Ctx::default().add(CtxElem::Var(Name::with_name("a")));
    let e = CtxElem::Marker(Name::Index(0));
    let d = c.add(e.clone());
    assert_eq!(d.drop(e).render(), d.render());
}

#[test]
fn add_then_drop_from_gives_back_the_context() {
    let c = Ctx::default()
        .add(CtxElem::Var(Name::with_name("a")))
        .add(CtxElem::Exists(Name::Index(3)));
    let e = CtxElem::Marker(Name::Index(0));
    assert_eq!(c.add(e.clone()).drop_from(e), c);
}

#[test]
fn split_parts_rejoin() {
    let c = Ctx::default()
        .add(CtxElem::Exists(Name::Index(0)))
        .add(CtxElem::Exists(Name::Index(1)))
        .add(CtxElem::Exists(Name::Index(2)));
    let (l, r) = c.split_at(CtxElem::Exists(Name::Index(1)));
    assert_eq!(l.len() + r.len(), c.len());
    assert_eq!(l.get(l.len() - 1), &CtxElem::Exists(Name::Index(1)));
    assert_eq!(r.get(0), &CtxElem::Exists(Name::Index(2)));
}

#[test]
fn solving_then_reading_gives_the_solution() {
    let c = Ctx::default().add(CtxElem::Exists(Name::Index(0)));
    let mut s = state_at(1);
    let d = instantiate_l(&mut s, &c, Name::Index(0), &ty_tuple(ty_str(), ty_bool()));
    assert_eq!(d.get_solved(Name::Index(0)), Some(&ty_tuple(ty_str(), ty_bool())));
    assert!(!d.has_existential(Name::Index(0)));
}

#[test]
fn literal_checks_exactly_against_its_own_type() {
    let mut s = State::default();
    let c = Ctx::default();
    assert_eq!(checks_against(&mut s, &c, &lit_str(), &ty_str()), c);
    assert_eq!(try_checks_against(&mut s, &c, &lit_str(), &ty_bool(), 5), Err(TypeError::Rejected));
    assert_eq!(
        try_checks_against(&mut s, &c, &lit_str(), &ty_fun(ty_str(), ty_str()), 5),
        Err(TypeError::Rejected)
    );
}

#[test]
fn subtyping_is_reflexive_on_monotypes_with_existentials() {
    let c = Ctx::default()
        .add(CtxElem::Exists(Name::Index(0)))
        .add(CtxElem::Var(Name::with_name("a")));
    let t = ty_fun(Type::Exists(Name::Index(0)), ty_tuple(ty_var("a"), ty_bool()));
    let mut s = state_at(1);
    assert_eq!(subtype(&mut s, &c, &t, &t), c);
    assert_eq!(s.fresh_existential(), Name::Index(1));
}

#[test]
fn subtyping_a_polytype_with_itself() {
    let t = ty_forall("a", ty_fun(ty_var("a"), ty_var("a")));
    let mut s = State::default();
    assert_eq!(subtype(&mut s, &Ctx::default(), &t, &t), Ctx::default());
    assert_eq!(s.fresh_existential(), Name::Index(1));
    let mut s = State::default();
    assert_eq!(try_subtype(&mut s, &Ctx::default(), &t, &t, 3), Err(TypeError::Exhausted));
}

#[test]
fn applying_a_context_twice_changes_nothing_more() {
    let c = Ctx::default()
        .add(CtxElem::Exists(Name::Index(0)))
        .add(CtxElem::Solved(Name::Index(1), ty_fun(Type::Exists(Name::Index(0)), ty_str())))
        .add(CtxElem::Solved(Name::Index(2), Type::Exists(Name::Index(1))));
    let t = ty_tuple(Type::Exists(Name::Index(2)), ty_forall("a", Type::Exists(Name::Index(1))));
    let once = bidirectional::algorithm::apply_context(t, &c);
    let twice = bidirectional::algorithm::apply_context(once.clone(), &c);
    assert_eq!(twice, once);
    assert_eq!(
        once,
        ty_tuple(
            ty_fun(Type::Exists(Name::Index(0)), ty_str()),
            ty_forall("a", ty_fun(Type::Exists(Name::Index(0)), ty_str()))
        )
    );
}

#[test]
fn synthesis_declares_only_old_or_generated_names() {
    let c = Ctx::default().add(CtxElem::Exists(Name::Index(0)));
    let mut s = state_at(5);
    let e = application(abs("x", var("x")), abs("y", var("y")));
    let (_, out) = bidirectional::algorithm::synthesizes_to(&mut s, &c, &e);
    let next = match s.fresh_existential() {
        Name::Index(k) => k,
        Name::Name(_) => unreachable!(),
    };
    for i in 0..out.len() {
        match out.get(i) {
            CtxElem::Exists(x) | CtxElem::Solved(x, _) | CtxElem::Marker(x) => match x {
                Name::Index(k) => assert!(*k == 0 || (5 <= *k && *k < next)),
                Name::Name(_) => panic!("a written name was declared"),
            },
            _ => {},
        }
    }
}

#[test]
fn subtyping_is_reflexive_with_solved_existentials() {
    let c = Ctx::default()
        .add(CtxElem::Exists(Name::Index(0)))
        .add(CtxElem::Var(Name::with_name("a")))
        .add(CtxElem::Solved(Name::Index(1), ty_fun(ty_bool(), Type::Exists(Name::Index(0)))));
    let t = ty_fun(
        Type::Exists(Name::Index(1)),
        ty_tuple(Type::Exists(Name::Index(1)), ty_var("a")),
    );
    let mut s = state_at(2);
    assert_eq!(subtype(&mut s, &c, &t, &t), c);
    assert_eq!(s.fresh_existential(), Name::Index(2));
}

#[test]
fn synthesis_keeps_well_formed_types_well_formed() {
    let c = Ctx::default()
        .add(CtxElem::Var(Name::with_name("a")))
        .add(CtxElem::Exists(Name::Index(0)))
        .add(CtxElem::TypedVar(Name::with_name("f"), ty_fun(Type::Exists(Name::Index(0)), ty_bool())));
    let mut s = state_at(1);
    let e = application(var("f"), abs("y", var("y")));
    let (t, out) = bidirectional::algorithm::synthesizes_to(&mut s, &c, &e);
    assert_eq!(t, ty_bool());
    assert!(bidirectional::context::is_well_formed(&out, &t));
    let (t, out2) = bidirectional::algorithm::synthesizes_to(&mut s, &c, &abs("z", var("z")));
    assert!(bidirectional::context::is_well_formed(&out2, &t));
    let kept = [ty_var("a"), Type::Exists(Name::Index(0)), ty_fun(Type::Exists(Name::Index(0)), ty_var("a"))];
    for t in kept.iter() {
        assert!(bidirectional::context::is_well_formed(&c, t));
        assert!(bidirectional::context::is_well_formed(&out, t));
    }
    // the binding of y is gone again, f is still there
    assert_eq!(out.get_annotation(Name::with_name("y")), None);
    assert!(out.get_annotation(Name::with_name("f")).is_some());
}
