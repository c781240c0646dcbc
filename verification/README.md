# sage_ir

The inference layers of the sage type checker, and the helpers its trait
solver builds on, verified with Verus. The solver's driver, name
resolution and expression checking are not part of this crate.

- `src/version.rs`: the version tree that scopes inference transactions and
  owns inference variables.
- `src/ty.rs`, `src/skeleton.rs`: the interning type store, and the split of
  a type into its skeleton and children.
- `src/egraph.rs`: the versioned union-find over types (find, union,
  bounds, universes, dependents, rebuild, commit and discard of versions).
  Each version keeps its parents, bounds, universe ceilings and dependents
  as append-only logs in `Vec`s, where the latest entry for a key wins;
  these stand in for hash maps keyed by types and variables, whose
  contents the contracts could not otherwise speak of.
- `src/unify.rs`: structural unification inside transactions, with the
  occurs check and universe checks.
- `src/goal.rs`, `src/solve.rs`, `src/boundary.rs`: solver goals and their
  store, validation of canonical queries and substitutions, and the checks
  that nothing proof-local crosses a query boundary.
- `src/merge.rs`, `src/anti_unify.rs`, `src/copier.rs`: directional matching
  of answers, anti-unification of ambiguous answers, and copying of types
  between stores.
- `src/obligations.rs`, `src/runtime.rs`: pending obligations and the task
  bookkeeping of the inference runtime.
- `app/`: the executor around the runtime bookkeeping, in ordinary Rust.

`tests/` exercises the library from outside.
