# bidir

A verified implementation of bidirectional type checking for higher-rank
polymorphism, after Dunfield and Krishnaswami's algorithmic system, with the
token kinds of a System F front end.

- `src/types.rs`: types, expressions, context elements and typing errors;
  monotypes, free existential variables, substitution.
- `src/context.rs`: the ordered typing context and its operations (lookups,
  splitting, splicing, scopes, well-formedness, applying solutions).
- `src/semantics.rs`: the algorithmic judgments as functions of a context
  state, bounded by fuel; `Done` runs are the algorithm's answers.
- `src/algorithm.rs`: subtyping, instantiation, synthesis and checking on a
  mutable context, each proved to give exactly the answer of its judgment.
- `src/bounded.rs`: entry points that take a fuel bound and answer `None`
  when it runs out, for callers that cannot show termination.
- `src/laws.rs`: properties proved of every input (fresh variables stay
  fresh, scopes restore the context, applying a context is idempotent and
  keeps monotypes, subtyping is reflexive on monotypes, ...).
- `src/deep_fresh.rs`: every variable named anywhere in the context, and in
  a synthesized type, stays below the fresh-variable counter.
- `src/extension.rs`: each judgment extends its context: declared variables
  stay declared or become solved, solutions stay, binders keep their order.
- `src/syntax.rs`: tokens.
- `app/main.rs`: types the composition combinator and prints the result.
