# catgraph_applied

Applied category theory over free props, verified with Verus.

- `src/rig.rs` — rigs (`Zero`, `One`, `Rig`), the Boolean rig, and
  `Checked<T>`, the overflow-detecting rig whose poison `⊥` is absorbing.
- `src/prop/` — free-prop expressions, arities, braidings from permutations,
  and Λ-colored well-formedness (`colored.rs`).
- `src/prop/presentation/` — presentations and their deciders: the content
  cospan of an expression and its canonical key (`content.rs`), the
  string-diagram normal form (`smc_nf.rs`), congruence closure (`kb.rs`),
  canonical readback and display (`display.rs`), and cost-guided convex
  double-pushout rewriting (`rewrite.rs`).
- `src/temperley_lieb.rs` — perfect matchings and the non-crossing test.
- `app/` — the floating-point rigs and the sampled rig-axiom check, which
  the verifier does not reason about.
- `tests/` — executable tests against the library.
