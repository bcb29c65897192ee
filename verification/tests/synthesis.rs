use bidirectional::algorithm::TypeError;
use bidirectional::builders::{
    abs, ann, application, id, let_in, lit_bool, lit_str, ty_bool, ty_existential, ty_forall,
    ty_fun, ty_str, ty_tuple, ty_var, tuple, var,
};
use bidirectional::syntax::{LitType, Name, Type};

/// "Test": String
#[test]
fn basic() {
    assert_eq!(lit_str().synth(), Type::Lit(LitType::String));
}

/// (λx.x) "Test": String
#[test]
fn application_string() {
    assert_eq!(application(abs("x", var("x")), lit_str()).synth(), ty_str());
}

/// (λx.x) true: bool
#[test]
fn application_bool() {
    assert_eq!(
        application(abs("x", var("x")), lit_bool()).synth(),
        ty_bool()
    );
}

/// λx.x: 't0->'t0
#[test]
fn lambda() {
    assert_eq!(
        abs("x", var("x")).synth(),
        ty_fun(ty_existential("t0"), ty_existential("t0"))
    );
}

/// (λx.x) "Test": String
#[test]
fn idunit() {
    assert_eq!(application(id(), lit_str()).synth(), ty_str());
}

/// ("Test" × true): (String × Bool)
#[test]
fn tuples() {
    assert_eq!(
        tuple(lit_str(), lit_bool()).synth(),
        ty_tuple(ty_str(), ty_bool())
    );
}

/// (λx.(x × x)) "Test": (String × String)
#[test]
fn tuples_in_lambda() {
    assert_eq!(
        application(abs("x", tuple(var("x"), var("x"))), lit_str()).synth(),
        ty_tuple(ty_str(), ty_str())
    );
}

/// ((λx.(x × (x × x))) "Test"): (String × (String × String))
#[test]
fn nested_tuples() {
    assert_eq!(
        application(
            abs("x", tuple(var("x"), tuple(var("x"), var("x")))),
            lit_str()
        )
        .synth(),
        ty_tuple(ty_str(), ty_tuple(ty_str(), ty_str()))
    );
}

/// ((λx.x) ("Test" × true)): (String × bool)
#[test]
fn tuples_in_fn() {
    assert_eq!(
        application(id(), tuple(lit_str(), lit_bool())).synth(),
        ty_tuple(ty_str(), ty_bool())
    );
}

/// (let newid = λx.x in ((newid "Test") × (newid true))): (String × bool)
#[test]
fn generalised_let() {
    assert_eq!(
        let_in(
            "newid",
            id(),
            tuple(
                application(var("newid"), lit_str()),
                application(var("newid"), lit_bool())
            )
        )
        .synth(),
        ty_tuple(ty_str(), ty_bool())
    );
}

/// (let a = true in id a): bool
#[test]
fn let_binding() {
    assert_eq!(
        let_in("a", lit_bool(), application(id(), var("a"))).synth(),
        ty_bool()
    );
}

/// ((let newid = λx.x in newid) "Test"): String
#[test]
fn let_fn() {
    assert_eq!(
        application(let_in("newid", abs("x", var("x")), var("newid")), lit_str()).synth(),
        ty_str()
    );
}

/// The argument and result of λx.x share the first generated existential.
#[test]
fn lambda_synthesizes_generated_existentials() {
    assert_eq!(
        abs("x", var("x")).try_synth(),
        Ok(ty_fun(
            Type::Exists(Name::Index(0)),
            Type::Exists(Name::Index(0))
        ))
    );
}

/// A variable bound by a lambda is out of scope after it.
#[test]
fn lambda_binder_does_not_escape() {
    assert_eq!(
        tuple(abs("x", var("x")), var("x")).try_synth(),
        Err(TypeError::Rejected)
    );
}

/// A polymorphic function on pairs used at a pair of booleans: the second
/// components are compared without the solution the first one gave, so the
/// existential it solved is no longer there to instantiate.
#[test]
fn polymorphic_pair_function_is_rejected() {
    let pair_t = ty_tuple(ty_var("t"), ty_var("t"));
    let pair_b = ty_tuple(ty_bool(), ty_bool());
    let e = let_in(
        "f",
        ann(abs("x", var("x")), ty_forall("t", ty_fun(pair_t.clone(), pair_t))),
        ann(var("f"), ty_fun(pair_b.clone(), pair_b.clone())),
    );
    let _ = pair_b;
    assert_eq!(e.try_synth(), Err(TypeError::Rejected));
}

/// Without the annotation the let-bound identity is monomorphic.
#[test]
fn unannotated_let_is_monomorphic() {
    assert_eq!(
        let_in(
            "newid",
            abs("x", var("x")),
            tuple(
                application(var("newid"), lit_str()),
                application(var("newid"), lit_bool())
            )
        )
        .try_synth(),
        Err(TypeError::Rejected)
    );
}

/// A literal cannot be applied.
#[test]
fn applying_a_literal_is_rejected() {
    assert_eq!(
        application(lit_bool(), lit_str()).try_synth(),
        Err(TypeError::Rejected)
    );
}

/// An unbound variable has no type.
#[test]
fn unbound_variable_is_rejected() {
    assert_eq!(var("y").try_synth(), Err(TypeError::Rejected));
}

/// An annotation must be well formed.
#[test]
fn ill_formed_annotation_is_rejected() {
    assert_eq!(ann(lit_bool(), ty_var("a")).try_synth(), Err(TypeError::Rejected));
}

/// A literal checks against its own type only.
#[test]
fn annotated_literal() {
    assert_eq!(ann(lit_bool(), ty_bool()).synth(), ty_bool());
    assert_eq!(ann(lit_bool(), ty_str()).try_synth(), Err(TypeError::Rejected));
}

/// A polymorphic annotation instantiates at application.
#[test]
fn polymorphic_annotation() {
    let e = ann(
        abs("x", var("x")),
        ty_forall("a", ty_fun(ty_var("a"), ty_var("a"))),
    );
    assert_eq!(
        e.synth(),
        ty_forall("a", ty_fun(ty_var("a"), ty_var("a")))
    );
}
