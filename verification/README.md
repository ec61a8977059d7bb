# ctl-model

Computation Tree Logic (CTL) model checking on Kripke structures, written in
Verus: the library's functions carry `requires`/`ensures` contracts that Verus
proves.

The meaning of a formula is defined by paths (`src/semantics.rs`): the states
satisfying `EG φ` are those with an infinite path through φ-states, and so on.
The checker (`src/checker.rs`) computes these sets by iterative fixpoints and
is proved to return exactly them, together with a report of how many rounds
each fixpoint ran. Witnesses and counterexamples (`src/witness.rs`,
`src/counterexample.rs`) are proved to be paths of the structure with the
stated shape; the breadth-first ones are proved shortest, and of the shortest
the one that takes the successor listed first where paths part.

Layout:

- `src/kripke.rs`: Kripke structures, their builder and validation.
- `src/formula.rs`: the formula syntax, its notation and size.
- `src/semantics.rs`: the path semantics and the facts the fixpoints rest on.
- `src/checker.rs`: the model checker.
- `src/complexity.rs`: the per-operator round counts and their report.
- `src/witness.rs`, `src/counterexample.rs`, `src/paths.rs`: evidence paths.
- `src/laws.rs`: dualities, fixpoint characterizations and other laws.
- `src/stateset.rs`, `src/text.rs`: state-set and decimal-text helpers.
- `tests/`: executable tests.
- `app/`: serde-enabled copies of the data types and their `Display` forms.
