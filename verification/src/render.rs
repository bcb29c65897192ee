//! Text forms of names, types, context elements and contexts.
use vstd::prelude::*;
use crate::syntax::{Name, LitType, Type, decimal, write_decimal};
use crate::context::{CtxElem, Ctx};

verus! {

/// `t` followed by the index or the written name.
pub open spec fn name_text(x: Name) -> Seq<char> {
    match x {
        Name::Index(i) => "t"@ + decimal(i as nat),
        Name::Name(s) => "t"@ + s@,
    }
}

pub open spec fn lit_type_text(l: LitType) -> Seq<char> {
    match l {
        LitType::Unit => "()"@,
        LitType::Char => "Char"@,
        LitType::String => "String"@,
        LitType::Int => "Int"@,
        LitType::Float => "Float"@,
        LitType::Bool => "Bool"@,
    }
}

pub open spec fn type_text(t: Type) -> Seq<char>
    decreases t,
{
    match t {
        Type::Lit(l) => lit_type_text(l),
        Type::Var(x) => name_text(x),
        Type::Exists(x) => name_text(x) + "^"@,
        Type::Forall(a, b) => "(∀"@ + name_text(a) + ". "@ + type_text(*b) + ")"@,
        Type::Fun(a, b) => "("@ + type_text(*a) + " -> "@ + type_text(*b) + ")"@,
        Type::Tup(a, b) => type_text(*a) + " × "@ + type_text(*b),
    }
}

pub open spec fn elem_text(e: CtxElem) -> Seq<char> {
    match e {
        CtxElem::Var(x) => name_text(x),
        CtxElem::Exists(x) => name_text(x) + "^"@,
        CtxElem::Solved(x, t) => name_text(x) + "^: "@ + type_text(t),
        CtxElem::Marker(x) => "<|"@ + name_text(x),
        CtxElem::TypedVar(x, t) => name_text(x) + ": "@ + type_text(t),
    }
}

/// The elements' texts separated by `", "`.
pub open spec fn elems_text(c: Seq<CtxElem>) -> Seq<char>
    decreases c.len(),
{
    if c.len() == 0 {
        Seq::empty()
    } else if c.len() == 1 {
        elem_text(c[0])
    } else {
        elems_text(c.drop_last()) + ", "@ + elem_text(c.last())
    }
}

pub open spec fn ctx_text(c: Seq<CtxElem>) -> Seq<char> {
    "["@ + elems_text(c) + "]"@
}

fn write_name(out: &mut String, x: Name)
    ensures
        final(out)@ == old(out)@ + name_text(x),
{
    out.append("t");
    match x {
        Name::Index(i) => write_decimal(out, i),
        Name::Name(s) => out.append(s),
    }
    assert(final(out)@ =~= old(out)@ + name_text(x));
}

fn write_lit_type(out: &mut String, l: LitType)
    ensures
        final(out)@ == old(out)@ + lit_type_text(l),
{
    match l {
        LitType::Unit => out.append("()"),
        LitType::Char => out.append("Char"),
        LitType::String => out.append("String"),
        LitType::Int => out.append("Int"),
        LitType::Float => out.append("Float"),
        LitType::Bool => out.append("Bool"),
    }
}

fn write_type(out: &mut String, t: &Type)
    ensures
        final(out)@ == old(out)@ + type_text(*t),
    decreases t,
{
    let ghost start = out@;
    match t {
        Type::Lit(l) => write_lit_type(out, *l),
        Type::Var(x) => write_name(out, *x),
        Type::Exists(x) => {
            write_name(out, *x);
            out.append("^");
        },
        Type::Forall(a, b) => {
            out.append("(∀");
            write_name(out, *a);
            out.append(". ");
            write_type(out, b);
            out.append(")");
        },
        Type::Fun(a, b) => {
            out.append("(");
            write_type(out, a);
            out.append(" -> ");
            write_type(out, b);
            out.append(")");
        },
        Type::Tup(a, b) => {
            write_type(out, a);
            out.append(" × ");
            write_type(out, b);
        },
    }
    assert(out@ =~= start + type_text(*t));
}

fn write_elem(out: &mut String, e: &CtxElem)
    ensures
        final(out)@ == old(out)@ + elem_text(*e),
{
    let ghost start = out@;
    match e {
        CtxElem::Var(x) => write_name(out, *x),
        CtxElem::Exists(x) => {
            write_name(out, *x);
            out.append("^");
        },
        CtxElem::Solved(x, t) => {
            write_name(out, *x);
            out.append("^: ");
            write_type(out, t);
        },
        CtxElem::Marker(x) => {
            out.append("<|");
            write_name(out, *x);
        },
        CtxElem::TypedVar(x, t) => {
            write_name(out, *x);
            out.append(": ");
            write_type(out, t);
        },
    }
    assert(out@ =~= start + elem_text(*e));
}

impl Name {
    /// The text of the name: `t` followed by its index or written name.
    pub fn render(&self) -> (r: String)
        ensures
            r@ == name_text(*self),
    {
        let mut out = String::new();
        write_name(&mut out, *self);
        assert(out@ =~= name_text(*self));
        out
    }
}

impl LitType {
    /// The text of a literal type.
    pub fn render(&self) -> (r: String)
        ensures
            r@ == lit_type_text(*self),
    {
        let mut out = String::new();
        write_lit_type(&mut out, *self);
        assert(out@ =~= lit_type_text(*self));
        out
    }
}

impl Type {
    /// The text of a type.
    pub fn render(&self) -> (r: String)
        ensures
            r@ == type_text(*self),
    {
        let mut out = String::new();
        write_type(&mut out, self);
        assert(out@ =~= type_text(*self));
        out
    }
}

impl CtxElem {
    /// The text of a context element.
    pub fn render(&self) -> (r: String)
        ensures
            r@ == elem_text(*self),
    {
        let mut out = String::new();
        write_elem(&mut out, self);
        assert(out@ =~= elem_text(*self));
        out
    }
}

impl Ctx {
    /// The text of a context: its elements between brackets, separated by
    /// commas.
    pub fn render(&self) -> (r: String)
        ensures
            r@ == ctx_text(self.entries()),
    {
        let mut out = String::new();
        out.append("[");
        let n = self.len();
        let mut i: usize = 0;
        while i < n
            invariant
                n == self.entries().len(),
                n == self@.len(),
                i <= n,
                out@ == "["@ + elems_text(self.entries().take(i as int)),
            decreases n - i,
        {
            let ghost before = out@;
            if i > 0 {
                out.append(", ");
            }
            write_elem(&mut out, self.get(i));
            proof {
                let s = self.entries().take(i + 1);
                assert(s.drop_last() =~= self.entries().take(i as int));
                assert(s.last() == self.entries()[i as int]);
                if i == 0 {
                    assert(self.entries().take(0) =~= Seq::<CtxElem>::empty());
                    assert(s.len() == 1);
                    assert(s[0] == self.entries()[0]);
                }
                assert(out@ =~= "["@ + elems_text(s));
            }
            i += 1;
        }
        out.append("]");
        assert(self.entries().take(n as int) =~= self.entries());
        assert(out@ =~= ctx_text(self.entries()));
        out
    }
}

} // verus!
