//! The algorithmic type system: checking and synthesis (Figure 11),
//! algorithmic subtyping (Figure 9), instantiation (Figure 10) and applying a
//! context to a type (Figure 8).
//!
//! Each judgment is stated as a spec function over the views of its inputs and
//! a budget `fuel` that bounds the nesting of rule applications. The functions
//! named `try_..` take the budget and return exactly what the spec function
//! gives: where no rule applies the result is `TypeError::Rejected`; where the
//! budget, the counter of fresh names or the length of a context would run out
//! it is `TypeError::Exhausted`. The functions without the prefix run with
//! `DEFAULT_FUEL` and require that the judgment derives, returning its
//! output.
use vstd::prelude::*;
use im_rc::Vector;
use crate::syntax::{Name, NameV, Lit, Expr, LitType, Type, TypeV, is_mono, occurs, subst, occurs_in, substitution, names_equal, type_view};
use crate::context::{CtxElem, CtxElemV, Ctx, ctx_insert, ctx_before, solved_in, annotation_in, wf, is_well_formed};
use crate::vector::{vector_contents, vector_new, vector_push_back};

verus! {

/// Why a judgment has no result.
#[derive(Debug, Clone, Copy, PartialEq, Eq, Structural)]
pub enum TypeError {
    /// No rule of the system applies.
    Rejected,
    /// The budget of nested rules, the counter of fresh existentials or the
    /// length of a context ran out.
    Exhausted,
}

/// The budget of nested rule applications given by the judgments that take
/// none: the largest `u64`, so that only a derivation deeper than any run
/// could build exhausts it.
pub const DEFAULT_FUEL: u64 = 0xffff_ffff_ffff_ffff;

/// The state is used to generate new existentials.
/// (In the paper mostly notated as α^ α1^ or β^)
/// It is passed around mutably everywhere
#[derive(Clone, Debug)]
pub struct State {
    existentials: usize,
}

impl View for State {
    type V = nat;

    /// The index of the next fresh existential.
    closed spec fn view(&self) -> nat {
        self.existentials as nat
    }
}

impl Default for State {
    fn default() -> (r: State)
        ensures
            r@ == 0,
    {
        State { existentials: 0 }
    }
}

impl State {
    /// Returns a fresh exitential
    pub fn fresh_existential(&mut self) -> (r: Name)
        requires
            old(self)@ < usize::MAX,
        ensures
            r == Name::Index(old(self)@ as usize),
            r@ == NameV::Index(old(self)@),
            final(self)@ == old(self)@ + 1,
    {
        let result = self.existentials;
        self.existentials += 1;
        Name::Index(result)
    }
}

/// The type of a literal.
pub open spec fn lit_type_of(e: Lit) -> LitType {
    match e {
        Lit::Char(_) => LitType::Char,
        Lit::String(_) => LitType::String,
        Lit::Int(_) => LitType::Int,
        Lit::Float(_) => LitType::Float,
        Lit::Bool(_) => LitType::Bool,
        Lit::Unit => LitType::Unit,
    }
}

/// Returns `true` if literal expression checks against literal type, else `false`:
/// exactly when the literal synthesizes to that type.
pub fn literal_checks_against(e: &Lit, t: &LitType) -> (r: bool)
    ensures
        r == (lit_type_of(*e) == *t),
{
    match (e, t) {
        (Lit::Char(_), LitType::Char) => true,
        (Lit::String(_), LitType::String) => true,
        (Lit::Int(_), LitType::Int) => true,
        (Lit::Float(_), LitType::Float) => true,
        (Lit::Bool(_), LitType::Bool) => true,
        (Lit::Unit, LitType::Unit) => true,
        _ => false,
    }
}

/// Synthesizes a type from a literal.
pub fn literal_synthesizes_to(e: &Lit) -> (r: LitType)
    ensures
        r == lit_type_of(*e),
{
    match e {
        Lit::Char(_) => LitType::Char,
        Lit::String(_) => LitType::String,
        Lit::Int(_) => LitType::Int,
        Lit::Float(_) => LitType::Float,
        Lit::Bool(_) => LitType::Bool,
        Lit::Unit => LitType::Unit,
    }
}

pub open spec fn exists_v(x: NameV) -> TypeV {
    TypeV::Exists(x)
}

/// Figure 8: `[c]t`, every solved existential of `t` replaced by its
/// solution, recursively. Each step through a solution uses one unit of fuel.
pub open spec fn apply_spec(fuel: nat, t: TypeV, c: Seq<CtxElemV>) -> Result<TypeV, TypeError>
    decreases fuel, t,
{
    match t {
        TypeV::Var(_) => Ok(t),
        TypeV::Lit(_) => Ok(t),
        TypeV::Exists(ex) => match solved_in(c, ex) {
            Some(t1) => if fuel == 0 {
                Err(TypeError::Exhausted)
            } else {
                apply_spec((fuel - 1) as nat, t1, c)
            },
            None => Ok(t),
        },
        TypeV::Fun(t0, t1) => match apply_spec(fuel, *t0, c) {
            Err(err) => Err(err),
            Ok(a) => match apply_spec(fuel, *t1, c) {
                Err(err) => Err(err),
                Ok(b) => Ok(TypeV::Fun(Box::new(a), Box::new(b))),
            },
        },
        TypeV::Forall(a, t0) => match apply_spec(fuel, *t0, c) {
            Err(err) => Err(err),
            Ok(b) => Ok(TypeV::Forall(a, Box::new(b))),
        },
        TypeV::Tup(t0, t1) => match apply_spec(fuel, *t0, c) {
            Err(err) => Err(err),
            Ok(a) => match apply_spec(fuel, *t1, c) {
                Err(err) => Err(err),
                Ok(b) => Ok(TypeV::Tup(Box::new(a), Box::new(b))),
            },
        },
    }
}

/// Figure 11, checking: `c ⊢ e ⇐ t ⊣ c'`, with `n` the next fresh index.
pub open spec fn check_spec(fuel: nat, n: nat, c: Seq<CtxElemV>, e: Expr, t: TypeV) -> Result<
    (Seq<CtxElemV>, nat),
    TypeError,
>
    decreases fuel,
{
    if fuel == 0 {
        Err(TypeError::Exhausted)
    } else if !wf(c, t) {
        Err(TypeError::Rejected)
    } else {
        let f = (fuel - 1) as nat;
        match (e, t) {
            // 1I
            (Expr::Lit(l), TypeV::Lit(lt)) => if lit_type_of(l) == lt {
                Ok((c, n))
            } else {
                Err(TypeError::Rejected)
            },
            // ->I
            (Expr::Abs(x, body), TypeV::Fun(t0, t1)) => {
                let elem = CtxElemV::TypedVar(x@, *t0);
                if c.len() >= usize::MAX {
                    Err(TypeError::Exhausted)
                } else {
                    match check_spec(f, n, c.push(elem), *body, *t1) {
                        Err(err) => Err(err),
                        Ok((c2, n2)) => if c2.contains(elem) {
                            Ok((ctx_before(c2, elem), n2))
                        } else {
                            Err(TypeError::Rejected)
                        },
                    }
                }
            },
            // ∀I
            (_, TypeV::Forall(a, t2)) => {
                let elem = CtxElemV::Var(a);
                if c.len() >= usize::MAX {
                    Err(TypeError::Exhausted)
                } else {
                    match check_spec(f, n, c.push(elem), e, *t2) {
                        Err(err) => Err(err),
                        Ok((c2, n2)) => if c2.contains(elem) {
                            Ok((ctx_before(c2, elem), n2))
                        } else {
                            Err(TypeError::Rejected)
                        },
                    }
                }
            },
            // xI
            (Expr::Tup(e0, e1), TypeV::Tup(t0, t1)) => match check_spec(f, n, c, *e0, *t0) {
                Err(err) => Err(err),
                Ok((c1, n1)) => check_spec(f, n1, c1, *e1, *t1),
            },
            // Sub
            _ => match synth_spec(f, n, c, e) {
                Err(err) => Err(err),
                Ok((t1, c1, n1)) => match apply_spec(f, t1, c1) {
                    Err(err) => Err(err),
                    Ok(t2) => match apply_spec(f, t, c1) {
                        Err(err) => Err(err),
                        Ok(t3) => subtype_spec(f, n1, c1, t2, t3),
                    },
                },
            },
        }
    }
}

/// Figure 11, synthesis: `c ⊢ e ⇒ t ⊣ c'`.
pub open spec fn synth_spec(fuel: nat, n: nat, c: Seq<CtxElemV>, e: Expr) -> Result<
    (TypeV, Seq<CtxElemV>, nat),
    TypeError,
>
    decreases fuel,
{
    if fuel == 0 {
        Err(TypeError::Exhausted)
    } else {
        let f = (fuel - 1) as nat;
        match e {
            // 1I=>
            Expr::Lit(l) => Ok((TypeV::Lit(lit_type_of(l)), c, n)),
            // Var
            Expr::Var(x) => match annotation_in(c, x@) {
                Some(t) => Ok((t, c, n)),
                None => Err(TypeError::Rejected),
            },
            // Anno
            Expr::Ann(e1, t) => if wf(c, t@) {
                match check_spec(f, n, c, *e1, t@) {
                    Err(err) => Err(err),
                    Ok((c1, n1)) => Ok((t@, c1, n1)),
                }
            } else {
                Err(TypeError::Rejected)
            },
            // ->I=>
            Expr::Abs(x, body) => if n + 2 > usize::MAX || c.len() + 3 > usize::MAX {
                Err(TypeError::Exhausted)
            } else {
                let ex0 = NameV::Index(n);
                let ex1 = NameV::Index(n + 1);
                let tv = CtxElemV::TypedVar(x@, exists_v(ex0));
                let c1 = c.push(CtxElemV::Exists(ex0)).push(CtxElemV::Exists(ex1)).push(tv);
                match check_spec(f, n + 2, c1, *body, exists_v(ex1)) {
                    Err(err) => Err(err),
                    Ok((c2, n2)) => if c2.contains(tv) {
                        Ok(
                            (
                                TypeV::Fun(Box::new(exists_v(ex0)), Box::new(exists_v(ex1))),
                                ctx_before(c2, tv),
                                n2,
                            ),
                        )
                    } else {
                        Err(TypeError::Rejected)
                    },
                }
            },
            // SynthProduct
            Expr::Tup(e0, e1) => match synth_spec(f, n, c, *e0) {
                Err(err) => Err(err),
                Ok((t1, c1, n1)) => match synth_spec(f, n1, c1, *e1) {
                    Err(err) => Err(err),
                    Ok((t2, c2, n2)) => Ok((TypeV::Tup(Box::new(t1), Box::new(t2)), c2, n2)),
                },
            },
            // Let
            Expr::Let(x, e0, e1) => match synth_spec(f, n, c, *e0) {
                Err(err) => Err(err),
                Ok((t0, c1, n1)) => if c1.len() >= usize::MAX {
                    Err(TypeError::Exhausted)
                } else {
                    let tv = CtxElemV::TypedVar(x@, t0);
                    match synth_spec(f, n1, c1.push(tv), *e1) {
                        Err(err) => Err(err),
                        Ok((t1, c3, n3)) => if c3.contains(tv) {
                            Ok((t1, ctx_insert(c3, tv, Seq::empty()), n3))
                        } else {
                            Err(TypeError::Rejected)
                        },
                    }
                },
            },
            // ->E
            Expr::App(e0, e1) => match synth_spec(f, n, c, *e0) {
                Err(err) => Err(err),
                Ok((t, c1, n1)) => match apply_spec(f, t, c1) {
                    Err(err) => Err(err),
                    Ok(ta) => app_synth_spec(f, n1, c1, ta, *e1),
                },
            },
        }
    }
}

/// Figure 11, application: `c ⊢ t • e ⇒⇒ t' ⊣ c'`.
pub open spec fn app_synth_spec(fuel: nat, n: nat, c: Seq<CtxElemV>, t: TypeV, e: Expr) -> Result<
    (TypeV, Seq<CtxElemV>, nat),
    TypeError,
>
    decreases fuel,
{
    if fuel == 0 {
        Err(TypeError::Exhausted)
    } else {
        let f = (fuel - 1) as nat;
        match t {
            // α^App
            TypeV::Exists(ex0) => if n + 2 > usize::MAX {
                Err(TypeError::Exhausted)
            } else {
                let ex1 = NameV::Index(n);
                let ex2 = NameV::Index(n + 1);
                if !c.contains(CtxElemV::Exists(ex0)) {
                    Err(TypeError::Rejected)
                } else if c.len() + 2 > usize::MAX {
                    Err(TypeError::Exhausted)
                } else {
                    let c1 = ctx_insert(
                        c,
                        CtxElemV::Exists(ex0),
                        seq![
                            CtxElemV::Exists(ex2),
                            CtxElemV::Exists(ex1),
                            CtxElemV::Solved(ex0, TypeV::Fun(Box::new(exists_v(ex1)), Box::new(exists_v(ex2)))),
                        ],
                    );
                    match check_spec(f, n + 2, c1, e, exists_v(ex1)) {
                        Err(err) => Err(err),
                        Ok((c2, n2)) => Ok((exists_v(ex2), c2, n2)),
                    }
                }
            },
            // ∀App
            TypeV::Forall(a0, t0) => if n + 1 > usize::MAX || c.len() >= usize::MAX {
                Err(TypeError::Exhausted)
            } else {
                let ex0 = NameV::Index(n);
                app_synth_spec(
                    f,
                    n + 1,
                    c.push(CtxElemV::Exists(ex0)),
                    subst(*t0, a0, exists_v(ex0)),
                    e,
                )
            },
            // ->App
            TypeV::Fun(t0, t1) => match check_spec(f, n, c, e, *t0) {
                Err(err) => Err(err),
                Ok((c1, n1)) => Ok((*t1, c1, n1)),
            },
            _ => Err(TypeError::Rejected),
        }
    }
}

/// Figure 9: `c ⊢ t0 <: t1 ⊣ c'`.
pub open spec fn subtype_spec(fuel: nat, n: nat, c: Seq<CtxElemV>, t0: TypeV, t1: TypeV) -> Result<
    (Seq<CtxElemV>, nat),
    TypeError,
>
    decreases fuel,
{
    if fuel == 0 {
        Err(TypeError::Exhausted)
    } else if !wf(c, t0) || !wf(c, t1) {
        Err(TypeError::Rejected)
    } else {
        let f = (fuel - 1) as nat;
        match (t0, t1) {
            // <:Unit
            (TypeV::Lit(a), TypeV::Lit(b)) => if a == b {
                Ok((c, n))
            } else {
                Err(TypeError::Rejected)
            },
            // <:Var
            (TypeV::Var(a0), TypeV::Var(a1)) => if a0 == a1 {
                Ok((c, n))
            } else {
                Err(TypeError::Rejected)
            },
            // <:Exvar
            (TypeV::Exists(ex0), TypeV::Exists(ex1)) if ex0 == ex1 => Ok((c, n)),
            // <:->
            (TypeV::Fun(ta1, ta2), TypeV::Fun(tb1, tb2)) => match subtype_spec(f, n, c, *tb1, *ta1) {
                Err(err) => Err(err),
                Ok((c1, n1)) => match apply_spec(f, *ta2, c1) {
                    Err(err) => Err(err),
                    Ok(a2) => match apply_spec(f, *tb2, c1) {
                        Err(err) => Err(err),
                        Ok(b2) => subtype_spec(f, n1, c1, a2, b2),
                    },
                },
            },
            // SubProduct
            (TypeV::Tup(ta1, ta2), TypeV::Tup(tb1, tb2)) => match subtype_spec(f, n, c, *ta1, *tb1) {
                Err(err) => Err(err),
                Ok((c1, n1)) => subtype_spec(f, n1, c1, *ta2, *tb2),
            },
            // <:∀R
            (_, TypeV::Forall(a, t2)) => if c.len() >= usize::MAX {
                Err(TypeError::Exhausted)
            } else {
                match subtype_spec(f, n, c.push(CtxElemV::Var(a)), t0, *t2) {
                    Err(err) => Err(err),
                    Ok((c2, n2)) => if c2.contains(CtxElemV::Var(a)) {
                        Ok((ctx_before(c2, CtxElemV::Var(a)), n2))
                    } else {
                        Err(TypeError::Rejected)
                    },
                }
            },
            // <:∀L
            (TypeV::Forall(a, t2), _) => if n + 1 > usize::MAX || c.len() + 2 > usize::MAX {
                Err(TypeError::Exhausted)
            } else {
                let ex0 = NameV::Index(n);
                let c1 = c.push(CtxElemV::Marker(ex0)).push(CtxElemV::Exists(ex0));
                match subtype_spec(f, n + 1, c1, subst(*t2, a, exists_v(ex0)), t1) {
                    Err(err) => Err(err),
                    Ok((c2, n2)) => if c2.contains(CtxElemV::Marker(ex0)) {
                        Ok((ctx_before(c2, CtxElemV::Marker(ex0)), n2))
                    } else {
                        Err(TypeError::Rejected)
                    },
                }
            },
            // <:InstantiateL
            (TypeV::Exists(ex0), _) => if !occurs(ex0, t1) {
                inst_l_spec(f, n, c, ex0, t1)
            } else {
                Err(TypeError::Rejected)
            },
            // <:InstantiateR
            (_, TypeV::Exists(ex0)) => if !occurs(ex0, t0) {
                inst_r_spec(f, n, c, t0, ex0)
            } else {
                Err(TypeError::Rejected)
            },
            _ => Err(TypeError::Rejected),
        }
    }
}

/// The context with `ex` solved to `t` in place.
pub open spec fn solve(c: Seq<CtxElemV>, ex: NameV, t: TypeV) -> Seq<CtxElemV> {
    ctx_insert(c, CtxElemV::Exists(ex), seq![CtxElemV::Solved(ex, t)])
}

/// The context with `ex0` solved to `ex1 op ex2` (a function type when
/// `fun`, else a tuple type), the fresh `ex2` and `ex1` placed before it.
pub open spec fn articulate(c: Seq<CtxElemV>, ex0: NameV, ex1: NameV, ex2: NameV, fun: bool) -> Seq<CtxElemV> {
    let t = if fun {
        TypeV::Fun(Box::new(exists_v(ex1)), Box::new(exists_v(ex2)))
    } else {
        TypeV::Tup(Box::new(exists_v(ex1)), Box::new(exists_v(ex2)))
    };
    ctx_insert(
        c,
        CtxElemV::Exists(ex0),
        seq![CtxElemV::Exists(ex2), CtxElemV::Exists(ex1), CtxElemV::Solved(ex0, t)],
    )
}

/// Figure 10: `c ⊢ ex0 :=< t ⊣ c'`.
pub open spec fn inst_l_spec(fuel: nat, n: nat, c: Seq<CtxElemV>, ex0: NameV, t: TypeV) -> Result<
    (Seq<CtxElemV>, nat),
    TypeError,
>
    decreases fuel,
{
    if fuel == 0 {
        Err(TypeError::Exhausted)
    } else if !c.contains(CtxElemV::Exists(ex0)) {
        Err(TypeError::Rejected)
    } else if is_mono(t) && wf(ctx_before(c, CtxElemV::Exists(ex0)), t) {
        // InstLSolve
        Ok((solve(c, ex0, t), n))
    } else {
        let f = (fuel - 1) as nat;
        match t {
            // InstLArr
            TypeV::Fun(t1, t2) => if n + 2 > usize::MAX || c.len() + 2 > usize::MAX {
                Err(TypeError::Exhausted)
            } else {
                let ex1 = NameV::Index(n);
                let ex2 = NameV::Index(n + 1);
                match inst_r_spec(f, n + 2, articulate(c, ex0, ex1, ex2, true), *t1, ex1) {
                    Err(err) => Err(err),
                    Ok((c2, n2)) => match apply_spec(f, *t2, c2) {
                        Err(err) => Err(err),
                        Ok(t3) => inst_l_spec(f, n2, c2, ex2, t3),
                    },
                }
            },
            // InstLAllR
            TypeV::Forall(a, t1) => if c.len() >= usize::MAX {
                Err(TypeError::Exhausted)
            } else {
                match inst_l_spec(f, n, c.push(CtxElemV::Var(a)), ex0, *t1) {
                    Err(err) => Err(err),
                    Ok((c1, n1)) => if c1.contains(CtxElemV::Var(a)) {
                        Ok((ctx_before(c1, CtxElemV::Var(a)), n1))
                    } else {
                        Err(TypeError::Rejected)
                    },
                }
            },
            // InstLReach
            TypeV::Exists(ex1) => if c.contains(CtxElemV::Exists(ex1)) {
                Ok((solve(c, ex1, exists_v(ex0)), n))
            } else {
                Err(TypeError::Rejected)
            },
            _ => Err(TypeError::Rejected),
        }
    }
}

/// Figure 10: `c ⊢ t =<: ex0 ⊣ c'`.
pub open spec fn inst_r_spec(fuel: nat, n: nat, c: Seq<CtxElemV>, t: TypeV, ex0: NameV) -> Result<
    (Seq<CtxElemV>, nat),
    TypeError,
>
    decreases fuel,
{
    if fuel == 0 {
        Err(TypeError::Exhausted)
    } else if !c.contains(CtxElemV::Exists(ex0)) {
        Err(TypeError::Rejected)
    } else if is_mono(t) && wf(ctx_before(c, CtxElemV::Exists(ex0)), t) {
        // InstRSolve
        Ok((solve(c, ex0, t), n))
    } else {
        let f = (fuel - 1) as nat;
        match t {
            // InstRArr
            TypeV::Fun(t0, t1) => if n + 2 > usize::MAX || c.len() + 2 > usize::MAX {
                Err(TypeError::Exhausted)
            } else {
                let ex1 = NameV::Index(n);
                let ex2 = NameV::Index(n + 1);
                match inst_l_spec(f, n + 2, articulate(c, ex0, ex1, ex2, true), ex1, *t0) {
                    Err(err) => Err(err),
                    Ok((c2, n2)) => match apply_spec(f, *t1, c2) {
                        Err(err) => Err(err),
                        Ok(t3) => inst_r_spec(f, n2, c2, t3, ex2),
                    },
                }
            },
            // InstRAllL
            TypeV::Forall(a, t1) => if n + 1 > usize::MAX || c.len() + 2 > usize::MAX {
                Err(TypeError::Exhausted)
            } else {
                let ex1 = NameV::Index(n);
                let c1 = c.push(CtxElemV::Marker(ex1)).push(CtxElemV::Exists(ex1));
                match inst_r_spec(f, n + 1, c1, subst(*t1, a, exists_v(ex1)), ex0) {
                    Err(err) => Err(err),
                    Ok((c2, n2)) => if c2.contains(CtxElemV::Marker(ex1)) {
                        Ok((ctx_before(c2, CtxElemV::Marker(ex1)), n2))
                    } else {
                        Err(TypeError::Rejected)
                    },
                }
            },
            // InstRProd
            TypeV::Tup(t0, t1) => if n + 2 > usize::MAX || c.len() + 2 > usize::MAX {
                Err(TypeError::Exhausted)
            } else {
                let ex1 = NameV::Index(n);
                let ex2 = NameV::Index(n + 1);
                match inst_l_spec(f, n + 2, articulate(c, ex0, ex1, ex2, false), ex1, *t0) {
                    Err(err) => Err(err),
                    Ok((c2, n2)) => match apply_spec(f, *t1, c2) {
                        Err(err) => Err(err),
                        Ok(t3) => inst_r_spec(f, n2, c2, t3, ex2),
                    },
                }
            },
            // InstRReach
            TypeV::Exists(ex1) => if c.contains(CtxElemV::Exists(ex1)) {
                Ok((solve(c, ex1, exists_v(ex0)), n))
            } else {
                Err(TypeError::Rejected)
            },
            _ => Err(TypeError::Rejected),
        }
    }
}

/// The view of a judgment's executable result that yields a context.
pub open spec fn ctx_outcome(r: Result<Ctx, TypeError>, n: nat) -> Result<(Seq<CtxElemV>, nat), TypeError> {
    match r {
        Ok(c) => Ok((c@, n)),
        Err(err) => Err(err),
    }
}

/// The view of a judgment's executable result that yields a type and a context.
pub open spec fn typed_outcome(r: Result<(Type, Ctx), TypeError>, n: nat) -> Result<
    (TypeV, Seq<CtxElemV>, nat),
    TypeError,
> {
    match r {
        Ok((t, c)) => Ok((t@, c@, n)),
        Err(err) => Err(err),
    }
}

/// The view of an executable result that yields a type.
pub open spec fn type_outcome(r: Result<Type, TypeError>) -> Result<TypeV, TypeError> {
    match r {
        Ok(t) => Ok(t@),
        Err(err) => Err(err),
    }
}

fn no_inserts() -> (v: Vector<CtxElem>)
    ensures
        vector_contents(v).len() == 0,
        vector_contents(v).map_values(|e: CtxElem| e@) == Seq::<CtxElemV>::empty(),
{
    let v = vector_new();
    assert(vector_contents(v).map_values(|e: CtxElem| e@) =~= Seq::<CtxElemV>::empty());
    v
}

fn one_insert(a: CtxElem) -> (v: Vector<CtxElem>)
    ensures
        vector_contents(v).len() == 1,
        vector_contents(v).map_values(|e: CtxElem| e@) == seq![a@],
{
    let mut v = vector_new();
    vector_push_back(&mut v, a);
    assert(vector_contents(v).map_values(|e: CtxElem| e@) =~= seq![a@]);
    v
}

fn three_inserts(a: CtxElem, b: CtxElem, c: CtxElem) -> (v: Vector<CtxElem>)
    ensures
        vector_contents(v).len() == 3,
        vector_contents(v).map_values(|e: CtxElem| e@) == seq![a@, b@, c@],
{
    let mut v = vector_new();
    vector_push_back(&mut v, a);
    vector_push_back(&mut v, b);
    vector_push_back(&mut v, c);
    assert(vector_contents(v).map_values(|e: CtxElem| e@) =~= seq![a@, b@, c@]);
    v
}

/// Figure 8: applies the solutions of `ctx` to `t`, following at most `fuel`
/// solutions in a row.
pub fn try_apply_context(t: Type, ctx: &Ctx, fuel: u64) -> (r: Result<Type, TypeError>)
    ensures
        type_outcome(r) == apply_spec(fuel as nat, t@, ctx@),
    decreases fuel, t,
{
    match t {
        Type::Var(_) => Ok(t),
        Type::Lit(_) => Ok(t),
        Type::Exists(ex) => {
            match ctx.get_solved(ex) {
                Some(t1) => {
                    if fuel == 0 {
                        Err(TypeError::Exhausted)
                    } else {
                        try_apply_context(t1.duplicate(), ctx, fuel - 1)
                    }
                },
                None => Ok(t),
            }
        },
        Type::Fun(t0, t1) => {
            let a = match try_apply_context(*t0, ctx, fuel) {
                Ok(a) => a,
                Err(err) => return Err(err),
            };
            let b = match try_apply_context(*t1, ctx, fuel) {
                Ok(b) => b,
                Err(err) => return Err(err),
            };
            Ok(Type::Fun(Box::new(a), Box::new(b)))
        },
        Type::Forall(a, t0) => {
            let b = match try_apply_context(*t0, ctx, fuel) {
                Ok(b) => b,
                Err(err) => return Err(err),
            };
            Ok(Type::Forall(a, Box::new(b)))
        },
        Type::Tup(t0, t1) => {
            let a = match try_apply_context(*t0, ctx, fuel) {
                Ok(a) => a,
                Err(err) => return Err(err),
            };
            let b = match try_apply_context(*t1, ctx, fuel) {
                Ok(b) => b,
                Err(err) => return Err(err),
            };
            Ok(Type::Tup(Box::new(a), Box::new(b)))
        },
    }
}

/// Figure 9: algorithmic subtyping `ctx0 ⊢ t0 <: t1 ⊣ ctx'` within the
/// budget `fuel`.
#[verifier::rlimit(40)]
#[verifier::spinoff_prover]
pub fn try_subtype(state: &mut State, ctx0: &Ctx, t0: &Type, t1: &Type, fuel: u64) -> (r: Result<Ctx, TypeError>)
    ensures
        ctx_outcome(r, final(state)@) == subtype_spec(
            fuel as nat,
            old(state)@,
            ctx0@,
            t0@,
            t1@,
        ),
    decreases fuel,
{
    if fuel == 0 {
        return Err(TypeError::Exhausted);
    }
    if !is_well_formed(ctx0, t0) || !is_well_formed(ctx0, t1) {
        return Err(TypeError::Rejected);
    }
    let f = fuel - 1;
    match (t0, t1) {
        // <:Unit
        (Type::Lit(a), Type::Lit(b)) => {
            if *a == *b {
                Ok(ctx0.clone())
            } else {
                Err(TypeError::Rejected)
            }
        },
        // <:Var
        (Type::Var(a0), Type::Var(a1)) => {
            if names_equal(*a0, *a1) {
                Ok(ctx0.clone())
            } else {
                Err(TypeError::Rejected)
            }
        },
        // <:Exvar
        (Type::Exists(ex0), Type::Exists(ex1)) if names_equal(*ex0, *ex1) => Ok(ctx0.clone()),
        // <:->
        (Type::Fun(ta1, ta2), Type::Fun(tb1, tb2)) => {
            let ctx1 = match try_subtype(state, ctx0, tb1, ta1, f) {
                Ok(c) => c,
                Err(err) => return Err(err),
            };
            let a2 = match try_apply_context((**ta2).duplicate(), &ctx1, f) {
                Ok(t) => t,
                Err(err) => return Err(err),
            };
            let b2 = match try_apply_context((**tb2).duplicate(), &ctx1, f) {
                Ok(t) => t,
                Err(err) => return Err(err),
            };
            try_subtype(state, &ctx1, &a2, &b2, f)
        },
        // SubProduct
        (Type::Tup(ta1, ta2), Type::Tup(tb1, tb2)) => {
            let ctx1 = match try_subtype(state, ctx0, ta1, tb1, f) {
                Ok(c) => c,
                Err(err) => return Err(err),
            };
            try_subtype(state, &ctx1, ta2, tb2, f)
        },
        // <:∀R
        (_, Type::Forall(a, t2)) => {
            if ctx0.len() >= usize::MAX {
                return Err(TypeError::Exhausted);
            }
            let ctx1 = ctx0.add(CtxElem::Var(*a));
            let ctx2 = match try_subtype(state, &ctx1, t0, t2, f) {
                Ok(c) => c,
                Err(err) => return Err(err),
            };
            let var = CtxElem::Var(*a);
            if !ctx2.contains(&var) {
                return Err(TypeError::Rejected);
            }
            Ok(ctx2.drop_from(var))
        },
        // <:∀L
        (Type::Forall(a, t2), _) => {
            if state.existentials >= usize::MAX || ctx0.len() > usize::MAX - 2 {
                return Err(TypeError::Exhausted);
            }
            let ex0 = state.fresh_existential();
            let ctx1 = ctx0.add(CtxElem::Marker(ex0)).add(CtxElem::Exists(ex0));
            let t3 = substitution(t2, *a, &Type::Exists(ex0));
            let ctx2 = match try_subtype(state, &ctx1, &t3, t1, f) {
                Ok(c) => c,
                Err(err) => return Err(err),
            };
            let marker = CtxElem::Marker(ex0);
            if !ctx2.contains(&marker) {
                return Err(TypeError::Rejected);
            }
            Ok(ctx2.drop_from(marker))
        },
        // <:InstantiateL
        (Type::Exists(ex0), _) => {
            if !occurs_in(*ex0, t1) {
                try_instantiate_l(state, ctx0, *ex0, t1, f)
            } else {
                Err(TypeError::Rejected)
            }
        },
        // <:InstantiateR
        (_, Type::Exists(ex0)) => {
            if !occurs_in(*ex0, t0) {
                try_instantiate_r(state, ctx0, t0, *ex0, f)
            } else {
                Err(TypeError::Rejected)
            }
        },
        _ => Err(TypeError::Rejected),
    }
}

/// Figure 10: instantiation `ctx0 ⊢ ex0 :=< t ⊣ ctx'` within the budget
/// `fuel`.
pub fn try_instantiate_l(state: &mut State, ctx0: &Ctx, ex0: Name, t: &Type, fuel: u64) -> (r: Result<Ctx, TypeError>)
    ensures
        ctx_outcome(r, final(state)@) == inst_l_spec(
            fuel as nat,
            old(state)@,
            ctx0@,
            ex0@,
            t@,
        ),
    decreases fuel,
{
    if fuel == 0 {
        return Err(TypeError::Exhausted);
    }
    let ex_elem = CtxElem::Exists(ex0);
    if !ctx0.contains(&ex_elem) {
        return Err(TypeError::Rejected);
    }
    // InstLSolve
    let left = ctx0.drop_from(ex_elem.duplicate());
    if t.is_monotype() && is_well_formed(&left, t) {
        return Ok(ctx0.insert_in_place(ex_elem, one_insert(CtxElem::Solved(ex0, t.duplicate()))));
    }
    let f = fuel - 1;
    match t {
        // InstLArr
        Type::Fun(t1, t2) => {
            if state.existentials >= usize::MAX - 1 || ctx0.len() > usize::MAX - 2 {
                return Err(TypeError::Exhausted);
            }
            let ex1 = state.fresh_existential();
            let ex2 = state.fresh_existential();
            let ctx1 = ctx0.insert_in_place(
                ex_elem,
                three_inserts(
                    CtxElem::Exists(ex2),
                    CtxElem::Exists(ex1),
                    CtxElem::Solved(ex0, Type::Fun(Box::new(Type::Exists(ex1)), Box::new(Type::Exists(ex2)))),
                ),
            );
            assert(ctx1@ == articulate(ctx0@, ex0@, ex1@, ex2@, true)) by {
                reveal_with_fuel(type_view, 2);
            }
            let ctx2 = match try_instantiate_r(state, &ctx1, t1, ex1, f) {
                Ok(c) => c,
                Err(err) => return Err(err),
            };
            let t3 = match try_apply_context((**t2).duplicate(), &ctx2, f) {
                Ok(t) => t,
                Err(err) => return Err(err),
            };
            try_instantiate_l(state, &ctx2, ex2, &t3, f)
        },
        // InstLAllR
        Type::Forall(a, t1) => {
            if ctx0.len() >= usize::MAX {
                return Err(TypeError::Exhausted);
            }
            let ctx1 = match try_instantiate_l(state, &ctx0.add(CtxElem::Var(*a)), ex0, t1, f) {
                Ok(c) => c,
                Err(err) => return Err(err),
            };
            let var = CtxElem::Var(*a);
            if !ctx1.contains(&var) {
                return Err(TypeError::Rejected);
            }
            Ok(ctx1.drop_from(var))
        },
        // InstLReach
        Type::Exists(ex1) => {
            let e1 = CtxElem::Exists(*ex1);
            if !ctx0.contains(&e1) {
                return Err(TypeError::Rejected);
            }
            Ok(ctx0.insert_in_place(e1, one_insert(CtxElem::Solved(*ex1, Type::Exists(ex0)))))
        },
        _ => Err(TypeError::Rejected),
    }
}

/// Figure 10: instantiation `ctx0 ⊢ t =<: ex0 ⊣ ctx'` within the budget
/// `fuel`.
pub fn try_instantiate_r(state: &mut State, ctx0: &Ctx, t: &Type, ex0: Name, fuel: u64) -> (r: Result<Ctx, TypeError>)
    ensures
        ctx_outcome(r, final(state)@) == inst_r_spec(
            fuel as nat,
            old(state)@,
            ctx0@,
            t@,
            ex0@,
        ),
    decreases fuel,
{
    if fuel == 0 {
        return Err(TypeError::Exhausted);
    }
    let ex_elem = CtxElem::Exists(ex0);
    if !ctx0.contains(&ex_elem) {
        return Err(TypeError::Rejected);
    }
    // InstRSolve
    let left = ctx0.drop_from(ex_elem.duplicate());
    if t.is_monotype() && is_well_formed(&left, t) {
        return Ok(ctx0.insert_in_place(ex_elem, one_insert(CtxElem::Solved(ex0, t.duplicate()))));
    }
    let f = fuel - 1;
    match t {
        // InstRArr
        Type::Fun(t0, t1) => {
            if state.existentials >= usize::MAX - 1 || ctx0.len() > usize::MAX - 2 {
                return Err(TypeError::Exhausted);
            }
            let ex1 = state.fresh_existential();
            let ex2 = state.fresh_existential();
            let ctx1 = ctx0.insert_in_place(
                ex_elem,
                three_inserts(
                    CtxElem::Exists(ex2),
                    CtxElem::Exists(ex1),
                    CtxElem::Solved(ex0, Type::Fun(Box::new(Type::Exists(ex1)), Box::new(Type::Exists(ex2)))),
                ),
            );
            assert(ctx1@ == articulate(ctx0@, ex0@, ex1@, ex2@, true)) by {
                reveal_with_fuel(type_view, 2);
            }
            let ctx2 = match try_instantiate_l(state, &ctx1, ex1, t0, f) {
                Ok(c) => c,
                Err(err) => return Err(err),
            };
            let t3 = match try_apply_context((**t1).duplicate(), &ctx2, f) {
                Ok(t) => t,
                Err(err) => return Err(err),
            };
            try_instantiate_r(state, &ctx2, &t3, ex2, f)
        },
        // InstRAllL
        Type::Forall(a, t1) => {
            if state.existentials >= usize::MAX || ctx0.len() > usize::MAX - 2 {
                return Err(TypeError::Exhausted);
            }
            let ex1 = state.fresh_existential();
            let ctx1 = ctx0.add(CtxElem::Marker(ex1)).add(CtxElem::Exists(ex1));
            let t3 = substitution(t1, *a, &Type::Exists(ex1));
            let ctx2 = match try_instantiate_r(state, &ctx1, &t3, ex0, f) {
                Ok(c) => c,
                Err(err) => return Err(err),
            };
            let marker = CtxElem::Marker(ex1);
            if !ctx2.contains(&marker) {
                return Err(TypeError::Rejected);
            }
            Ok(ctx2.drop_from(marker))
        },
        // InstRProd
        Type::Tup(t0, t1) => {
            if state.existentials >= usize::MAX - 1 || ctx0.len() > usize::MAX - 2 {
                return Err(TypeError::Exhausted);
            }
            let ex1 = state.fresh_existential();
            let ex2 = state.fresh_existential();
            let ctx1 = ctx0.insert_in_place(
                ex_elem,
                three_inserts(
                    CtxElem::Exists(ex2),
                    CtxElem::Exists(ex1),
                    CtxElem::Solved(ex0, Type::Tup(Box::new(Type::Exists(ex1)), Box::new(Type::Exists(ex2)))),
                ),
            );
            assert(ctx1@ == articulate(ctx0@, ex0@, ex1@, ex2@, false)) by {
                reveal_with_fuel(type_view, 2);
            }
            let ctx2 = match try_instantiate_l(state, &ctx1, ex1, t0, f) {
                Ok(c) => c,
                Err(err) => return Err(err),
            };
            let t3 = match try_apply_context((**t1).duplicate(), &ctx2, f) {
                Ok(t) => t,
                Err(err) => return Err(err),
            };
            try_instantiate_r(state, &ctx2, &t3, ex2, f)
        },
        // InstRReach
        Type::Exists(ex1) => {
            let e1 = CtxElem::Exists(*ex1);
            if !ctx0.contains(&e1) {
                return Err(TypeError::Rejected);
            }
            Ok(ctx0.insert_in_place(e1, one_insert(CtxElem::Solved(*ex1, Type::Exists(ex0)))))
        },
        _ => Err(TypeError::Rejected),
    }
}

/// Figure 11: checking `ctx0 ⊢ e ⇐ t ⊣ ctx'` within the budget `fuel`.
#[verifier::rlimit(40)]
#[verifier::spinoff_prover]
pub fn try_checks_against(state: &mut State, ctx0: &Ctx, e: &Expr, t: &Type, fuel: u64) -> (r: Result<Ctx, TypeError>)
    ensures
        ctx_outcome(r, final(state)@) == check_spec(
            fuel as nat,
            old(state)@,
            ctx0@,
            *e,
            t@,
        ),
    decreases fuel,
{
    if fuel == 0 {
        return Err(TypeError::Exhausted);
    }
    if !is_well_formed(ctx0, t) {
        return Err(TypeError::Rejected);
    }
    let f = fuel - 1;
    match (e, t) {
        // 1I
        (Expr::Lit(l), Type::Lit(lt)) => {
            if literal_checks_against(l, lt) {
                Ok(ctx0.clone())
            } else {
                Err(TypeError::Rejected)
            }
        },
        // ->I
        (Expr::Abs(x, body), Type::Fun(t0, t1)) => {
            if ctx0.len() >= usize::MAX {
                return Err(TypeError::Exhausted);
            }
            let elem = CtxElem::TypedVar(*x, (**t0).duplicate());
            let ctx1 = ctx0.add(elem.duplicate());
            let ctx2 = match try_checks_against(state, &ctx1, body, t1, f) {
                Ok(c) => c,
                Err(err) => return Err(err),
            };
            if !ctx2.contains(&elem) {
                return Err(TypeError::Rejected);
            }
            Ok(ctx2.drop_from(elem))
        },
        // ∀I
        (_, Type::Forall(a, t2)) => {
            if ctx0.len() >= usize::MAX {
                return Err(TypeError::Exhausted);
            }
            let elem = CtxElem::Var(*a);
            let ctx1 = ctx0.add(elem.duplicate());
            let ctx2 = match try_checks_against(state, &ctx1, e, t2, f) {
                Ok(c) => c,
                Err(err) => return Err(err),
            };
            if !ctx2.contains(&elem) {
                return Err(TypeError::Rejected);
            }
            Ok(ctx2.drop_from(elem))
        },
        // xI
        (Expr::Tup(e0, e1), Type::Tup(t0, t1)) => {
            let ctx1 = match try_checks_against(state, ctx0, e0, t0, f) {
                Ok(c) => c,
                Err(err) => return Err(err),
            };
            try_checks_against(state, &ctx1, e1, t1, f)
        },
        // Sub
        _ => {
            let (t1, ctx1) = match try_synthesizes_to(state, ctx0, e, f) {
                Ok(p) => p,
                Err(err) => return Err(err),
            };
            let t2 = match try_apply_context(t1, &ctx1, f) {
                Ok(t) => t,
                Err(err) => return Err(err),
            };
            let t3 = match try_apply_context(t.duplicate(), &ctx1, f) {
                Ok(t) => t,
                Err(err) => return Err(err),
            };
            try_subtype(state, &ctx1, &t2, &t3, f)
        },
    }
}

/// Figure 11: synthesis `ctx0 ⊢ e ⇒ t ⊣ ctx'` within the budget `fuel`.
#[verifier::rlimit(100)]
#[verifier::spinoff_prover]
pub fn try_synthesizes_to(state: &mut State, ctx0: &Ctx, e: &Expr, fuel: u64) -> (r: Result<(Type, Ctx), TypeError>)
    ensures
        typed_outcome(r, final(state)@) == synth_spec(
            fuel as nat,
            old(state)@,
            ctx0@,
            *e,
        ),
    decreases fuel,
{
    if fuel == 0 {
        return Err(TypeError::Exhausted);
    }
    let f = fuel - 1;
    match e {
        // 1I=>
        Expr::Lit(l) => Ok((Type::Lit(literal_synthesizes_to(l)), ctx0.clone())),
        // Var
        Expr::Var(x) => {
            match ctx0.get_annotation(*x) {
                Some(t) => Ok((t.duplicate(), ctx0.clone())),
                None => Err(TypeError::Rejected),
            }
        },
        // Anno
        Expr::Ann(e1, t) => {
            if !is_well_formed(ctx0, t) {
                return Err(TypeError::Rejected);
            }
            let ctx1 = match try_checks_against(state, ctx0, e1, t, f) {
                Ok(c) => c,
                Err(err) => return Err(err),
            };
            Ok((t.duplicate(), ctx1))
        },
        // ->I=>
        Expr::Abs(x, body) => {
            if state.existentials >= usize::MAX - 1 || ctx0.len() > usize::MAX - 3 {
                return Err(TypeError::Exhausted);
            }
            let ex0 = state.fresh_existential();
            let ex1 = state.fresh_existential();
            let tv = CtxElem::TypedVar(*x, Type::Exists(ex0));
            let ctx1 = ctx0.add(CtxElem::Exists(ex0)).add(CtxElem::Exists(ex1)).add(tv.duplicate());
            let ctx2 = match try_checks_against(state, &ctx1, body, &Type::Exists(ex1), f) {
                Ok(c) => c,
                Err(err) => return Err(err),
            };
            if !ctx2.contains(&tv) {
                return Err(TypeError::Rejected);
            }
            let ctx3 = ctx2.drop_from(tv);
            let ty = Type::Fun(Box::new(Type::Exists(ex0)), Box::new(Type::Exists(ex1)));
            assert(ty@ == TypeV::Fun(Box::new(exists_v(ex0@)), Box::new(exists_v(ex1@)))) by {
                reveal_with_fuel(type_view, 2);
            }
            Ok((ty, ctx3))
        },
        // SynthProduct
        Expr::Tup(e0, e1) => {
            let (t1, ctx1) = match try_synthesizes_to(state, ctx0, e0, f) {
                Ok(p) => p,
                Err(err) => return Err(err),
            };
            let (t2, ctx2) = match try_synthesizes_to(state, &ctx1, e1, f) {
                Ok(p) => p,
                Err(err) => return Err(err),
            };
            Ok((Type::Tup(Box::new(t1), Box::new(t2)), ctx2))
        },
        // Let
        Expr::Let(x, e0, e1) => {
            let (t0, ctx1) = match try_synthesizes_to(state, ctx0, e0, f) {
                Ok(p) => p,
                Err(err) => return Err(err),
            };
            if ctx1.len() >= usize::MAX {
                return Err(TypeError::Exhausted);
            }
            let tv = CtxElem::TypedVar(*x, t0);
            let ctx2 = ctx1.add(tv.duplicate());
            let (t1, ctx3) = match try_synthesizes_to(state, &ctx2, e1, f) {
                Ok(p) => p,
                Err(err) => return Err(err),
            };
            if !ctx3.contains(&tv) {
                return Err(TypeError::Rejected);
            }
            let ctx4 = ctx3.insert_in_place(tv, no_inserts());
            Ok((t1, ctx4))
        },
        // ->E
        Expr::App(e0, e1) => {
            let (t, ctx1) = match try_synthesizes_to(state, ctx0, e0, f) {
                Ok(p) => p,
                Err(err) => return Err(err),
            };
            let ta = match try_apply_context(t, &ctx1, f) {
                Ok(t) => t,
                Err(err) => return Err(err),
            };
            try_application_synthesizes_to(state, &ctx1, &ta, e1, f)
        },
    }
}

/// Figure 11: application `ctx0 ⊢ t • e ⇒⇒ t' ⊣ ctx'` within the budget
/// `fuel`.
#[verifier::rlimit(40)]
#[verifier::spinoff_prover]
pub fn try_application_synthesizes_to(state: &mut State, ctx0: &Ctx, t: &Type, e: &Expr, fuel: u64) -> (r: Result<
    (Type, Ctx),
    TypeError,
>)
    ensures
        typed_outcome(r, final(state)@) == app_synth_spec(
            fuel as nat,
            old(state)@,
            ctx0@,
            t@,
            *e,
        ),
    decreases fuel,
{
    if fuel == 0 {
        return Err(TypeError::Exhausted);
    }
    let f = fuel - 1;
    match t {
        // α^App
        Type::Exists(ex0) => {
            if state.existentials >= usize::MAX - 1 {
                return Err(TypeError::Exhausted);
            }
            let ex1 = state.fresh_existential();
            let ex2 = state.fresh_existential();
            let e0 = CtxElem::Exists(*ex0);
            if !ctx0.contains(&e0) {
                return Err(TypeError::Rejected);
            }
            if ctx0.len() > usize::MAX - 2 {
                return Err(TypeError::Exhausted);
            }
            let ctx1 = ctx0.insert_in_place(
                e0,
                three_inserts(
                    CtxElem::Exists(ex2),
                    CtxElem::Exists(ex1),
                    CtxElem::Solved(*ex0, Type::Fun(Box::new(Type::Exists(ex1)), Box::new(Type::Exists(ex2)))),
                ),
            );
            assert(ctx1@ == articulate(ctx0@, ex0@, ex1@, ex2@, true)) by {
                reveal_with_fuel(type_view, 2);
            }
            let ctx2 = match try_checks_against(state, &ctx1, e, &Type::Exists(ex1), f) {
                Ok(c) => c,
                Err(err) => return Err(err),
            };
            Ok((Type::Exists(ex2), ctx2))
        },
        // ∀App
        Type::Forall(a0, t0) => {
            if state.existentials >= usize::MAX || ctx0.len() >= usize::MAX {
                return Err(TypeError::Exhausted);
            }
            let ex0 = state.fresh_existential();
            let ctx1 = ctx0.add(CtxElem::Exists(ex0));
            let t1 = substitution(t0, *a0, &Type::Exists(ex0));
            try_application_synthesizes_to(state, &ctx1, &t1, e, f)
        },
        // ->App
        Type::Fun(t0, t1) => {
            let ctx1 = match try_checks_against(state, ctx0, e, t0, f) {
                Ok(c) => c,
                Err(err) => return Err(err),
            };
            Ok(((**t1).duplicate(), ctx1))
        },
        _ => Err(TypeError::Rejected),
    }
}

/// The type synthesized for a closed expression, with the final context applied.
pub open spec fn synth_closed(e: Expr) -> Result<TypeV, TypeError> {
    match synth_spec(DEFAULT_FUEL as nat, 0, Seq::empty(), e) {
        Err(err) => Err(err),
        Ok((t, c, n)) => apply_spec(DEFAULT_FUEL as nat, t, c),
    }
}

impl Expr {
    /// Synthesizes the type of a closed expression in the empty context and
    /// applies the resulting context to it, or says why it has none.
    pub fn try_synth(self) -> (r: Result<Type, TypeError>)
        ensures
            type_outcome(r) == synth_closed(self),
    {
        let mut state = State::default();
        let ctx = Ctx::default();
        let (t, ctx) = match try_synthesizes_to(&mut state, &ctx, &self, DEFAULT_FUEL) {
            Ok(p) => p,
            Err(err) => return Err(err),
        };
        try_apply_context(t, &ctx, DEFAULT_FUEL)
    }

    /// The type of a closed expression that synthesizes: synthesis in the
    /// empty context, with the resulting context applied to the type.
    pub fn synth(self) -> (r: Type)
        requires
            synth_closed(self) is Ok,
        ensures
            synth_closed(self) == Ok::<TypeV, TypeError>(r@),
    {
        match self.try_synth() {
            Ok(t) => t,
            Err(_) => {
                proof {
                    assert(false);
                }
                Type::Lit(LitType::Unit)
            },
        }
    }
}

/// Figure 8: applies the solutions of `ctx` to `t`, where following them
/// ends.
pub fn apply_context(t: Type, ctx: &Ctx) -> (r: Type)
    requires
        apply_spec(DEFAULT_FUEL as nat, t@, ctx@) is Ok,
    ensures
        apply_spec(DEFAULT_FUEL as nat, t@, ctx@) == Ok::<TypeV, TypeError>(r@),
{
    match try_apply_context(t, ctx, DEFAULT_FUEL) {
        Ok(r) => r,
        Err(_) => {
            proof {
                assert(false);
            }
            Type::Lit(LitType::Unit)
        },
    }
}

/// Figure 9: algorithmic subtyping `ctx0 ⊢ t0 <: t1 ⊣ ctx'`, on inputs where
/// it derives.
pub fn subtype(state: &mut State, ctx0: &Ctx, t0: &Type, t1: &Type) -> (r: Ctx)
    requires
        subtype_spec(DEFAULT_FUEL as nat, old(state)@, ctx0@, t0@, t1@) is Ok,
    ensures
        subtype_spec(DEFAULT_FUEL as nat, old(state)@, ctx0@, t0@, t1@) == Ok::<
            (Seq<CtxElemV>, nat),
            TypeError,
        >((r@, final(state)@)),
{
    match try_subtype(state, ctx0, t0, t1, DEFAULT_FUEL) {
        Ok(c) => c,
        Err(_) => {
            proof {
                assert(false);
            }
            Ctx::new()
        },
    }
}

/// Figure 10: instantiation `ctx0 ⊢ ex0 :=< t ⊣ ctx'`, on inputs where it
/// derives.
pub fn instantiate_l(state: &mut State, ctx0: &Ctx, ex0: Name, t: &Type) -> (r: Ctx)
    requires
        inst_l_spec(DEFAULT_FUEL as nat, old(state)@, ctx0@, ex0@, t@) is Ok,
    ensures
        inst_l_spec(DEFAULT_FUEL as nat, old(state)@, ctx0@, ex0@, t@) == Ok::<
            (Seq<CtxElemV>, nat),
            TypeError,
        >((r@, final(state)@)),
{
    match try_instantiate_l(state, ctx0, ex0, t, DEFAULT_FUEL) {
        Ok(c) => c,
        Err(_) => {
            proof {
                assert(false);
            }
            Ctx::new()
        },
    }
}

/// Figure 10: instantiation `ctx0 ⊢ t =<: ex0 ⊣ ctx'`, on inputs where it
/// derives.
pub fn instantiate_r(state: &mut State, ctx0: &Ctx, t: &Type, ex0: Name) -> (r: Ctx)
    requires
        inst_r_spec(DEFAULT_FUEL as nat, old(state)@, ctx0@, t@, ex0@) is Ok,
    ensures
        inst_r_spec(DEFAULT_FUEL as nat, old(state)@, ctx0@, t@, ex0@) == Ok::<
            (Seq<CtxElemV>, nat),
            TypeError,
        >((r@, final(state)@)),
{
    match try_instantiate_r(state, ctx0, t, ex0, DEFAULT_FUEL) {
        Ok(c) => c,
        Err(_) => {
            proof {
                assert(false);
            }
            Ctx::new()
        },
    }
}

/// Figure 11: checking `ctx0 ⊢ e ⇐ t ⊣ ctx'`, on inputs where it derives.
pub fn checks_against(state: &mut State, ctx0: &Ctx, e: &Expr, t: &Type) -> (r: Ctx)
    requires
        check_spec(DEFAULT_FUEL as nat, old(state)@, ctx0@, *e, t@) is Ok,
    ensures
        check_spec(DEFAULT_FUEL as nat, old(state)@, ctx0@, *e, t@) == Ok::<
            (Seq<CtxElemV>, nat),
            TypeError,
        >((r@, final(state)@)),
{
    match try_checks_against(state, ctx0, e, t, DEFAULT_FUEL) {
        Ok(c) => c,
        Err(_) => {
            proof {
                assert(false);
            }
            Ctx::new()
        },
    }
}

/// Figure 11: synthesis `ctx0 ⊢ e ⇒ t ⊣ ctx'`, on inputs where it derives.
pub fn synthesizes_to(state: &mut State, ctx0: &Ctx, e: &Expr) -> (r: (Type, Ctx))
    requires
        synth_spec(DEFAULT_FUEL as nat, old(state)@, ctx0@, *e) is Ok,
    ensures
        synth_spec(DEFAULT_FUEL as nat, old(state)@, ctx0@, *e) == Ok::<
            (TypeV, Seq<CtxElemV>, nat),
            TypeError,
        >((r.0@, r.1@, final(state)@)),
{
    match try_synthesizes_to(state, ctx0, e, DEFAULT_FUEL) {
        Ok(p) => p,
        Err(_) => {
            proof {
                assert(false);
            }
            (Type::Lit(LitType::Unit), Ctx::new())
        },
    }
}

/// Figure 11: application `ctx0 ⊢ t • e ⇒⇒ t' ⊣ ctx'`, on inputs where it
/// derives.
pub fn application_synthesizes_to(state: &mut State, ctx0: &Ctx, t: &Type, e: &Expr) -> (r: (Type, Ctx))
    requires
        app_synth_spec(DEFAULT_FUEL as nat, old(state)@, ctx0@, t@, *e) is Ok,
    ensures
        app_synth_spec(DEFAULT_FUEL as nat, old(state)@, ctx0@, t@, *e) == Ok::<
            (TypeV, Seq<CtxElemV>, nat),
            TypeError,
        >((r.0@, r.1@, final(state)@)),
{
    match try_application_synthesizes_to(state, ctx0, t, e, DEFAULT_FUEL) {
        Ok(p) => p,
        Err(_) => {
            proof {
                assert(false);
            }
            (Type::Lit(LitType::Unit), Ctx::new())
        },
    }
}

} // verus!
