//! Short constructors for expressions and types.
use vstd::prelude::*;
use crate::syntax::{Name, Lit, Expr, LitType, Type};

verus! {

/// `e0 e1`
pub fn application(e0: Expr, e1: Expr) -> (r: Expr)
    ensures
        r == Expr::App(Box::new(e0), Box::new(e1)),
{
    Expr::App(Box::new(e0), Box::new(e1))
}

/// `let x = e0 in e1`
pub fn let_in(x: &'static str, e0: Expr, e1: Expr) -> (r: Expr)
    ensures
        r == Expr::Let(Name::Name(x), Box::new(e0), Box::new(e1)),
{
    Expr::Let(Name::with_name(x), Box::new(e0), Box::new(e1))
}

/// `λx.e`
pub fn abs(x: &'static str, e: Expr) -> (r: Expr)
    ensures
        r == Expr::Abs(Name::Name(x), Box::new(e)),
{
    Expr::Abs(Name::with_name(x), Box::new(e))
}

/// The variable `x`.
pub fn var(x: &'static str) -> (r: Expr)
    ensures
        r == Expr::Var(Name::Name(x)),
{
    Expr::Var(Name::with_name(x))
}

/// (λx.x): ∀t.t->t
pub fn id() -> (r: Expr)
    ensures
        r == Expr::Ann(
            Box::new(Expr::Abs(Name::Name("x"), Box::new(Expr::Var(Name::Name("x"))))),
            Type::Forall(
                Name::Name("t"),
                Box::new(Type::Fun(Box::new(Type::Var(Name::Name("t"))), Box::new(Type::Var(Name::Name("t"))))),
            ),
        ),
{
    ann(abs("x", var("x")), ty_forall("t", ty_fun(ty_var("t"), ty_var("t"))))
}

/// The string literal `"Test"`.
pub fn lit_str() -> (r: Expr)
    ensures
        r matches Expr::Lit(Lit::String(s)) && s@ == "Test"@,
{
    Expr::Lit(Lit::String(String::from_str("Test")))
}

/// The literal `true`.
pub fn lit_bool() -> (r: Expr)
    ensures
        r == Expr::Lit(Lit::Bool(true)),
{
    Expr::Lit(Lit::Bool(true))
}

/// `(e0 × e1)`
pub fn tuple(e0: Expr, e1: Expr) -> (r: Expr)
    ensures
        r == Expr::Tup(Box::new(e0), Box::new(e1)),
{
    Expr::Tup(Box::new(e0), Box::new(e1))
}

/// `(e: t)`
pub fn ann(e: Expr, t: Type) -> (r: Expr)
    ensures
        r == Expr::Ann(Box::new(e), t),
{
    Expr::Ann(Box::new(e), t)
}

/// `String`
pub fn ty_str() -> (r: Type)
    ensures
        r == Type::Lit(LitType::String),
{
    Type::Lit(LitType::String)
}

/// `Bool`
pub fn ty_bool() -> (r: Type)
    ensures
        r == Type::Lit(LitType::Bool),
{
    Type::Lit(LitType::Bool)
}

/// `t0 × t1`
pub fn ty_tuple(t0: Type, t1: Type) -> (r: Type)
    ensures
        r == Type::Tup(Box::new(t0), Box::new(t1)),
{
    Type::Tup(Box::new(t0), Box::new(t1))
}

/// `t0 -> t1`
pub fn ty_fun(t0: Type, t1: Type) -> (r: Type)
    ensures
        r == Type::Fun(Box::new(t0), Box::new(t1)),
{
    Type::Fun(Box::new(t0), Box::new(t1))
}

/// The existential named `ex`.
pub fn ty_existential(ex: &'static str) -> (r: Type)
    ensures
        r == Type::Exists(Name::Name(ex)),
{
    Type::Exists(Name::with_name(ex))
}

/// The type variable `x`.
pub fn ty_var(x: &'static str) -> (r: Type)
    ensures
        r == Type::Var(Name::Name(x)),
{
    Type::Var(Name::with_name(x))
}

/// `∀x.t`
pub fn ty_forall(x: &'static str, t: Type) -> (r: Type)
    ensures
        r == Type::Forall(Name::Name(x), Box::new(t)),
{
    Type::Forall(Name::with_name(x), Box::new(t))
}

} // verus!
