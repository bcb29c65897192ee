//! Names, literals, expressions and types of the source language, with their
//! mathematical views and the structural operations on types.
use vstd::prelude::*;

verus! {

/// A variable name: either a generated index (existentials) or a name written
/// in the program.
#[derive(Clone, Copy, Debug)]
pub enum Name {
    Index(usize),
    Name(&'static str),
}

/// The mathematical value of a name: the algorithm treats two names as the
/// same exactly when their views are equal (`==` compares what they read as,
/// see `same_reading`).
pub ghost enum NameV {
    Index(nat),
    Named(Seq<char>),
}

/// The decimal digit `d` as a character.
pub open spec fn digit_char(d: nat) -> char {
    if d == 0 {
        '0'
    } else if d == 1 {
        '1'
    } else if d == 2 {
        '2'
    } else if d == 3 {
        '3'
    } else if d == 4 {
        '4'
    } else if d == 5 {
        '5'
    } else if d == 6 {
        '6'
    } else if d == 7 {
        '7'
    } else if d == 8 {
        '8'
    } else {
        '9'
    }
}

/// The value of a decimal digit character (any other character counts as 9).
pub open spec fn digit_value(c: char) -> nat {
    if c == '0' {
        0
    } else if c == '1' {
        1
    } else if c == '2' {
        2
    } else if c == '3' {
        3
    } else if c == '4' {
        4
    } else if c == '5' {
        5
    } else if c == '6' {
        6
    } else if c == '7' {
        7
    } else if c == '8' {
        8
    } else {
        9
    }
}

/// The decimal numeral of `n`, without leading zeros.
pub open spec fn decimal(n: nat) -> Seq<char>
    decreases n,
{
    if n < 10 {
        seq![digit_char(n)]
    } else {
        decimal(n / 10).push(digit_char(n % 10))
    }
}

/// The number that a string of decimal digits denotes.
pub open spec fn parse_decimal(s: Seq<char>) -> nat
    decreases s.len(),
{
    if s.len() == 0 {
        0
    } else {
        parse_decimal(s.drop_last()) * 10 + digit_value(s.last())
    }
}

/// The index of the generated name that a written name reads as: `t`
/// followed by a decimal numeral without leading zeros is how the generated
/// name of that index is written (see `Name::render`).
pub open spec fn written_index(s: Seq<char>) -> Option<nat> {
    if s.len() >= 1 && s[0] == 't' && s.drop_first() == decimal(parse_decimal(s.drop_first())) {
        Some(parse_decimal(s.drop_first()))
    } else {
        None
    }
}

impl View for Name {
    type V = NameV;

    open spec fn view(&self) -> NameV {
        match self {
            Name::Index(i) => NameV::Index(*i as nat),
            Name::Name(s) => NameV::Named(s@),
        }
    }
}

/// What a name reads as: a written name `t<numeral>` reads as the generated
/// name of that index; every other name reads as itself.
pub open spec fn reading(x: NameV) -> NameV {
    match x {
        NameV::Named(s) => match written_index(s) {
            Some(i) => NameV::Index(i),
            None => x,
        },
        NameV::Index(_) => x,
    }
}

/// Two names are equal under `==` when they read the same.
pub open spec fn same_reading(a: NameV, b: NameV) -> bool {
    reading(a) == reading(b)
}

/// Reading a numeral back gives the number it was written for.
pub proof fn lemma_parse_decimal(n: nat)
    ensures
        parse_decimal(decimal(n)) == n,
        decimal(n).len() >= 1,
    decreases n,
{
    if n >= 10 {
        lemma_parse_decimal(n / 10);
        assert(decimal(n).drop_last() =~= decimal(n / 10));
        assert(decimal(n).last() == digit_char(n % 10));
        assert(digit_value(digit_char(n % 10)) == n % 10);
        assert((n / 10) * 10 + n % 10 == n);
        assert(parse_decimal(decimal(n)) == parse_decimal(decimal(n / 10)) * 10 + n % 10);
    } else {
        assert(seq![digit_char(n)].drop_last() =~= Seq::<char>::empty());
        assert(parse_decimal(Seq::<char>::empty()) == 0);
        assert(digit_value(digit_char(n)) == n);
    }
}

/// A written name reads as the generated name of index `i` exactly when it
/// is `t` followed by the numeral of `i`.
pub proof fn lemma_written_index(s: Seq<char>, i: nat)
    ensures
        (written_index(s) == Some(i)) == (s == seq!['t'] + decimal(i)),
{
    lemma_parse_decimal(i);
    if s == seq!['t'] + decimal(i) {
        assert(s.drop_first() =~= decimal(i));
    }
    if written_index(s) == Some(i) {
        assert(s =~= seq!['t'] + s.drop_first());
    }
}

impl Name {
    /// A name written in the program.
    pub fn with_name(n: &'static str) -> (r: Name)
        ensures
            r == Name::Name(n),
    {
        Name::Name(n)
    }
}

/// Compares two string slices character by character.
pub fn str_eq(a: &str, b: &str) -> (r: bool)
    ensures
        r == (a@ == b@),
{
    let n = a.unicode_len();
    let m = b.unicode_len();
    if n != m {
        return false;
    }
    let mut i: usize = 0;
    while i < n
        invariant
            i <= n,
            n == a@.len(),
            m == b@.len(),
            n == m,
            forall|j: int| 0 <= j < i ==> a@[j] == b@[j],
        decreases n - i,
    {
        if a.get_char(i) != b.get_char(i) {
            return false;
        }
        i += 1;
    }
    assert(a@ =~= b@);
    true
}

/// The digit `d` as a string.
pub(crate) fn digit(d: usize) -> (r: &'static str)
    requires
        d < 10,
    ensures
        r@ == seq![digit_char(d as nat)],
{
    if d == 0 {
        proof { reveal_strlit("0"); }
        "0"
    } else if d == 1 {
        proof { reveal_strlit("1"); }
        "1"
    } else if d == 2 {
        proof { reveal_strlit("2"); }
        "2"
    } else if d == 3 {
        proof { reveal_strlit("3"); }
        "3"
    } else if d == 4 {
        proof { reveal_strlit("4"); }
        "4"
    } else if d == 5 {
        proof { reveal_strlit("5"); }
        "5"
    } else if d == 6 {
        proof { reveal_strlit("6"); }
        "6"
    } else if d == 7 {
        proof { reveal_strlit("7"); }
        "7"
    } else if d == 8 {
        proof { reveal_strlit("8"); }
        "8"
    } else {
        proof { reveal_strlit("9"); }
        "9"
    }
}

/// Appends the decimal numeral of `n`.
pub(crate) fn write_decimal(out: &mut String, n: usize)
    ensures
        final(out)@ == old(out)@ + decimal(n as nat),
    decreases n,
{
    if n >= 10 {
        write_decimal(out, n / 10);
    }
    out.append(digit(n % 10));
    assert(final(out)@ =~= old(out)@ + decimal(n as nat));
}

/// Whether the written name `s` reads `t` followed by the numeral of `i`.
fn writes_index(i: usize, s: &str) -> (r: bool)
    ensures
        r == (s@ == seq!['t'] + decimal(i as nat)),
{
    proof {
        reveal_strlit("t");
        assert("t"@ =~= seq!['t']);
    }
    let mut out = String::from_str("t");
    write_decimal(&mut out, i);
    str_eq(out.as_str(), s)
}

/// Identity of names, as the algorithm compares them: the same index, or the
/// same written string.
pub fn names_equal(a: Name, b: Name) -> (r: bool)
    ensures
        r == (a@ == b@),
{
    match (a, b) {
        (Name::Index(i), Name::Index(j)) => i == j,
        (Name::Name(s), Name::Name(t)) => str_eq(s, t),
        _ => false,
    }
}

/// Whether two names read the same (the equality `==` gives names).
pub fn names_read_same(a: Name, b: Name) -> (r: bool)
    ensures
        r == same_reading(a@, b@),
{
    match (a, b) {
        (Name::Index(i), Name::Index(j)) => i == j,
        (Name::Name(s), Name::Name(t)) => {
            proof {
                if same_reading(a@, b@) {
                    if written_index(s@) is Some {
                        assert(s@ =~= seq!['t'] + s@.drop_first());
                        assert(t@ =~= seq!['t'] + t@.drop_first());
                    }
                }
            }
            str_eq(s, t)
        },
        (Name::Index(i), Name::Name(s)) => {
            proof { lemma_written_index(s@, i as nat); }
            writes_index(i, s)
        },
        (Name::Name(s), Name::Index(i)) => {
            proof { lemma_written_index(s@, i as nat); }
            writes_index(i, s)
        },
    }
}

impl PartialEq for Name {
    fn eq(&self, other: &Self) -> (r: bool) {
        names_read_same(*self, *other)
    }
}

impl vstd::std_specs::cmp::PartialEqSpecImpl for Name {
    open spec fn obeys_eq_spec() -> bool {
        true
    }

    open spec fn eq_spec(&self, other: &Self) -> bool {
        same_reading(self@, other@)
    }
}

impl Eq for Name {}

/// Literal expressions. A floating-point literal is held as the bit pattern
/// of its IEEE 754 double value.
#[derive(Clone, Debug, PartialEq)]
pub enum Lit {
    Char(char),
    String(String),
    Int(isize),
    Float(u64),
    Bool(bool),
    Unit,
}

/// Expressions (Figure 6 of the bidirectional typing paper, with let and tuples).
#[derive(Debug, PartialEq)]
pub enum Expr {
    /// Variable
    Var(Name),
    /// Literal
    Lit(Lit),
    /// Abstraction
    Abs(Name, Box<Expr>),
    /// Application
    App(Box<Expr>, Box<Expr>),
    /// Let expression
    Let(Name, Box<Expr>, Box<Expr>),
    /// Type annotation
    Ann(Box<Expr>, Type),
    /// Tuple
    Tup(Box<Expr>, Box<Expr>),
}

impl Expr {
    /// A copy of the expression.
    pub fn duplicate(&self) -> (r: Expr)
        decreases self,
    {
        match self {
            Expr::Var(x) => Expr::Var(*x),
            Expr::Lit(l) => Expr::Lit(l.clone()),
            Expr::Abs(x, b) => Expr::Abs(*x, Box::new((**b).duplicate())),
            Expr::App(a, b) => Expr::App(Box::new((**a).duplicate()), Box::new((**b).duplicate())),
            Expr::Let(x, a, b) => Expr::Let(*x, Box::new((**a).duplicate()), Box::new((**b).duplicate())),
            Expr::Ann(a, t) => Expr::Ann(Box::new((**a).duplicate()), t.duplicate()),
            Expr::Tup(a, b) => Expr::Tup(Box::new((**a).duplicate()), Box::new((**b).duplicate())),
        }
    }
}

impl Clone for Expr {
    fn clone(&self) -> (r: Expr) {
        self.duplicate()
    }
}

/// Types of literals.
#[derive(Clone, Copy, Debug, PartialEq, Eq, Structural)]
pub enum LitType {
    Unit,
    Char,
    String,
    Int,
    Float,
    Bool,
}

/// Types (Figure 6).
#[derive(Debug, PartialEq, Eq)]
pub enum Type {
    /// Literal type
    Lit(LitType),
    /// Type variable
    Var(Name),
    /// Existential type
    Exists(Name),
    /// Forall quantifier
    Forall(Name, Box<Type>),
    /// Function type
    Fun(Box<Type>, Box<Type>),
    /// Tuple type
    Tup(Box<Type>, Box<Type>),
}

/// The mathematical value of a type: the same tree with names replaced by
/// their views.
pub ghost enum TypeV {
    Lit(LitType),
    Var(NameV),
    Exists(NameV),
    Forall(NameV, Box<TypeV>),
    Fun(Box<TypeV>, Box<TypeV>),
    Tup(Box<TypeV>, Box<TypeV>),
}

pub open spec fn type_view(t: Type) -> TypeV
    decreases t,
{
    match t {
        Type::Lit(l) => TypeV::Lit(l),
        Type::Var(x) => TypeV::Var(x@),
        Type::Exists(x) => TypeV::Exists(x@),
        Type::Forall(a, b) => TypeV::Forall(a@, Box::new(type_view(*b))),
        Type::Fun(a, b) => TypeV::Fun(Box::new(type_view(*a)), Box::new(type_view(*b))),
        Type::Tup(a, b) => TypeV::Tup(Box::new(type_view(*a)), Box::new(type_view(*b))),
    }
}

impl View for Type {
    type V = TypeV;

    open spec fn view(&self) -> TypeV {
        type_view(*self)
    }
}

/// A monotype holds no quantifier.
pub open spec fn is_mono(t: TypeV) -> bool
    decreases t,
{
    match t {
        TypeV::Forall(..) => false,
        TypeV::Fun(a, b) => is_mono(*a) && is_mono(*b),
        TypeV::Tup(a, b) => is_mono(*a) && is_mono(*b),
        _ => true,
    }
}

/// `x` occurs free in `t`, as a type variable or as an existential.
pub open spec fn occurs(x: NameV, t: TypeV) -> bool
    decreases t,
{
    match t {
        TypeV::Lit(_) => false,
        TypeV::Var(a) => x == a,
        TypeV::Exists(a) => x == a,
        TypeV::Forall(a, b) => x != a && occurs(x, *b),
        TypeV::Fun(a, b) => occurs(x, *a) || occurs(x, *b),
        TypeV::Tup(a, b) => occurs(x, *a) || occurs(x, *b),
    }
}

/// `[r/x]t`: every free occurrence of `x` in `t` replaced by `r`.
pub open spec fn subst(t: TypeV, x: NameV, r: TypeV) -> TypeV
    decreases t,
{
    match t {
        TypeV::Lit(_) => t,
        TypeV::Var(a) => if x == a { r } else { t },
        TypeV::Exists(a) => if x == a { r } else { t },
        TypeV::Forall(a, b) => if x == a { t } else { TypeV::Forall(a, Box::new(subst(*b, x, r))) },
        TypeV::Fun(a, b) => TypeV::Fun(Box::new(subst(*a, x, r)), Box::new(subst(*b, x, r))),
        TypeV::Tup(a, b) => TypeV::Tup(Box::new(subst(*a, x, r)), Box::new(subst(*b, x, r))),
    }
}

impl Type {
    /// A copy of the type, equal to it.
    pub fn duplicate(&self) -> (r: Type)
        ensures
            r == *self,
            r@ == self@,
        decreases self,
    {
        match self {
            Type::Lit(l) => Type::Lit(*l),
            Type::Var(x) => Type::Var(*x),
            Type::Exists(x) => Type::Exists(*x),
            Type::Forall(a, b) => Type::Forall(*a, Box::new((**b).duplicate())),
            Type::Fun(a, b) => Type::Fun(Box::new((**a).duplicate()), Box::new((**b).duplicate())),
            Type::Tup(a, b) => Type::Tup(Box::new((**a).duplicate()), Box::new((**b).duplicate())),
        }
    }

    /// Whether the type is a monotype.
    pub fn is_monotype(&self) -> (r: bool)
        ensures
            r == is_mono(self@),
        decreases self,
    {
        match self {
            Type::Forall(..) => false,
            Type::Fun(t1, t2) => (**t1).is_monotype() && (**t2).is_monotype(),
            Type::Tup(t1, t2) => (**t1).is_monotype() && (**t2).is_monotype(),
            _ => true,
        }
    }
}

impl Clone for Type {
    fn clone(&self) -> (r: Type)
        ensures
            r == *self,
    {
        self.duplicate()
    }
}

/// Equality of types by their views.
pub fn types_equal(a: &Type, b: &Type) -> (r: bool)
    ensures
        r == (a@ == b@),
    decreases a,
{
    match (a, b) {
        (Type::Lit(x), Type::Lit(y)) => *x == *y,
        (Type::Var(x), Type::Var(y)) => names_equal(*x, *y),
        (Type::Exists(x), Type::Exists(y)) => names_equal(*x, *y),
        (Type::Forall(x, s), Type::Forall(y, t)) => names_equal(*x, *y) && types_equal(s, t),
        (Type::Fun(s0, s1), Type::Fun(t0, t1)) => types_equal(s0, t0) && types_equal(s1, t1),
        (Type::Tup(s0, s1), Type::Tup(t0, t1)) => types_equal(s0, t0) && types_equal(s1, t1),
        _ => false,
    }
}

/// Checks whether `x` occurs free in `a` (the FV test of the instantiation
/// rules, used to reject circular solutions).
pub fn occurs_in(x: Name, a: &Type) -> (r: bool)
    ensures
        r == occurs(x@, a@),
    decreases a,
{
    match a {
        Type::Lit(_) => false,
        Type::Var(a) => names_equal(x, *a),
        Type::Fun(t1, t2) => occurs_in(x, t1) || occurs_in(x, t2),
        Type::Forall(a, t) => {
            if names_equal(x, *a) {
                return false;
            }
            occurs_in(x, t)
        },
        Type::Exists(ex) => names_equal(x, *ex),
        Type::Tup(t0, t1) => occurs_in(x, t0) || occurs_in(x, t1),
    }
}

/// `[tr/xr]t`: replaces every free occurrence of `xr` in `t` with `tr`.
pub fn substitution(t: &Type, xr: Name, tr: &Type) -> (r: Type)
    ensures
        r@ == subst(t@, xr@, tr@),
    decreases t,
{
    match t {
        Type::Lit(_) => t.duplicate(),
        Type::Var(x) => {
            if names_equal(xr, *x) {
                tr.duplicate()
            } else {
                t.duplicate()
            }
        },
        Type::Forall(a, t2) => {
            if names_equal(xr, *a) {
                t.duplicate()
            } else {
                Type::Forall(*a, Box::new(substitution(t2, xr, tr)))
            }
        },
        Type::Exists(ex) => {
            if names_equal(xr, *ex) {
                tr.duplicate()
            } else {
                t.duplicate()
            }
        },
        Type::Tup(t0, t1) => Type::Tup(
            Box::new(substitution(t0, xr, tr)),
            Box::new(substitution(t1, xr, tr)),
        ),
        Type::Fun(t0, t1) => Type::Fun(
            Box::new(substitution(t0, xr, tr)),
            Box::new(substitution(t1, xr, tr)),
        ),
    }
}

} // verus!
