use bidirectional::context::{is_well_formed, vector_of, Ctx, CtxElem};
use bidirectional::syntax::{Name, Type};
use bidirectional::builders::{ty_bool, ty_forall, ty_fun, ty_var};

fn ex(i: usize) -> CtxElem {
    CtxElem::Exists(Name::Index(i))
}

fn sample() -> Ctx {
    Ctx::default()
        .add(ex(0))
        .add(CtxElem::Var(Name::with_name("a")))
        .add(ex(1))
        .add(CtxElem::TypedVar(Name::with_name("x"), ty_bool()))
}

#[test]
fn add_appends_at_the_end() {
    let c = sample();
    assert_eq!(c.len(), 4);
    assert_eq!(c.get(0), &ex(0));
    assert_eq!(c.get(3), &CtxElem::TypedVar(Name::with_name("x"), ty_bool()));
    assert_eq!(c.render(), "[t0^, ta, t1^, tx: Bool]");
}

#[test]
fn split_at_keeps_the_element_on_the_left() {
    let c = sample();
    let (l, r) = c.split_at(CtxElem::Var(Name::with_name("a")));
    assert_eq!(l.render(), "[t0^, ta]");
    assert_eq!(r.render(), "[t1^, tx: Bool]");
}

#[test]
fn insert_in_place_replaces_the_element() {
    let c = sample();
    let ins = vector_of(&vec![
        ex(5),
        CtxElem::Solved(Name::Index(1), Type::Exists(Name::Index(5))),
    ]);
    assert_eq!(ins.len(), 2);
    let d = c.insert_in_place(ex(1), ins);
    assert_eq!(d.render(), "[t0^, ta, t5^, t1^: t5^, tx: Bool]");
    let e = c.insert_in_place(ex(0), vector_of(&vec![]));
    assert_eq!(e.render(), "[ta, t1^, tx: Bool]");
}

#[test]
fn drop_removes_what_follows() {
    let c = sample();
    assert_eq!(c.drop(ex(1)).render(), "[t0^, ta, t1^]");
    assert_eq!(c.drop(ex(0)).render(), "[t0^]");
}

#[test]
fn drop_from_removes_the_element_and_what_follows() {
    let c = sample();
    assert_eq!(c.drop_from(ex(1)).render(), "[t0^, ta]");
    assert_eq!(c.drop_from(ex(0)).render(), "[]");
    // a written name `t1` is not the generated existential 1 in a context
    assert!(!c.contains(&CtxElem::Exists(Name::with_name("t1"))));
}

#[test]
fn lookups() {
    let c = sample().add(CtxElem::Solved(Name::Index(0), ty_bool()));
    assert_eq!(c.get_solved(Name::Index(0)), Some(&ty_bool()));
    assert_eq!(c.get_solved(Name::Index(1)), None);
    assert!(c.has_existential(Name::Index(1)));
    assert!(!c.has_existential(Name::Index(2)));
    assert!(c.has_variable(Name::with_name("a")));
    assert!(!c.has_variable(Name::with_name("b")));
    assert_eq!(c.get_annotation(Name::with_name("x")), Some(&ty_bool()));
    assert_eq!(c.get_annotation(Name::with_name("a")), None);
    assert_eq!(c.position(&ex(1)), Some(2));
    assert!(!c.contains(&ex(7)));
}

#[test]
fn first_annotation_wins() {
    let c = Ctx::default()
        .add(CtxElem::TypedVar(Name::with_name("x"), ty_bool()))
        .add(CtxElem::TypedVar(Name::with_name("x"), ty_var("b")));
    assert_eq!(c.get_annotation(Name::with_name("x")), Some(&ty_bool()));
}

#[test]
fn clone_keeps_the_elements() {
    let c = sample();
    let d = c.clone();
    assert_eq!(d.render(), c.render());
    assert_eq!(d, c);
}

#[test]
fn well_formedness() {
    let c = sample();
    assert!(is_well_formed(&c, &ty_var("a")));
    assert!(!is_well_formed(&c, &ty_var("b")));
    assert!(is_well_formed(&c, &ty_forall("b", ty_fun(ty_var("b"), ty_var("a")))));
    assert!(is_well_formed(&c, &Type::Exists(Name::Index(1))));
    assert!(!is_well_formed(&c, &Type::Exists(Name::Index(3))));
    let solved = Ctx::default().add(CtxElem::Solved(Name::Index(3), ty_bool()));
    assert!(is_well_formed(&solved, &Type::Exists(Name::Index(3))));
    // weakening: adding elements keeps a type well formed
    let bigger = c.add(ex(9));
    assert!(is_well_formed(&bigger, &ty_var("a")));
}
