# bidirectional

A type checker for a small lambda calculus with higher-rank polymorphism,
literals, tuples and `let`, following the algorithmic system of Dunfield and
Krishnaswami, "Complete and Easy Bidirectional Typechecking for Higher-Rank
Polymorphism". The library is written in Verus and proved against its
contracts.

Layout of `src/`:

- `syntax.rs`: names, literals, expressions and types, their views, and the
  structural operations on types (monotypes, free occurrences, substitution).
- `vector.rs`: the `im_rc::Vector` that holds a context, with the contracts of
  the methods used.
- `context.rs`: ordered contexts and well-formedness of types.
- `algorithm.rs`: applying a context, checking, synthesis, application,
  subtyping and instantiation. Each `try_..` function takes a budget (`fuel`)
  that bounds the nesting of rules and returns exactly what a spec function
  over views gives: running out of the budget, of fresh names or of context
  length gives `TypeError::Exhausted`, and an input no rule accepts gives
  `TypeError::Rejected`. The functions without the prefix run with the
  largest budget and require that the judgment derives.
- `render.rs`: text forms of names, types and contexts.
- `builders.rs`: short constructors for expressions and types.
- `laws.rs`, `freshness.rs`, `extension.rs`: proved properties (substitution,
  well-formedness weakening, context operations, idempotence of applying a
  context, reflexivity of subtyping, independence of the fuel, freshness of
  generated existentials, and, for programs without quantifiers, that
  synthesis gives a well-formed type and keeps well-formed types well
  formed).

`app/` holds what stays outside the verified library: the text of literals and
expressions, which may be floating-point numbers.
