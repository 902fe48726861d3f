# linfa-clustering (K-Modes)

K-Modes clustering of categorical data, written in Verus. The functions of
the library carry contracts that Verus proves; the few calls into std,
`rand_xoshiro` and `linfa` go through trusted wrappers whose contracts state
what those crates document.

- `src/model.rs` — the mathematics the contracts speak of: matching
  dissimilarity, nearest mode, category counts, modes, the cost `P(W, Q)`, and
  the laws proved of them.
- `src/matrix.rs` — the row-major table of observations and modes.
- `src/freq.rs` — per-cluster category counts.
- `src/init.rs` — the Cao, Huang, random and precomputed initializations.
- `src/run.rs` — what one run does, step by step: the starting state, the
  move of one point (with the refill of an emptied cluster), a sweep, a run.
- `src/algorithm.rs` — the incremental K-Modes loop, proved to follow
  `run.rs`, `fit`, prediction and the fitted model.
- `src/hyperparams.rs`, `src/errors.rs` — the parameter builder, its checks and
  the error types.
- `src/element.rs`, `src/rng.rs` — what an element type and a random source
  must provide, with the trusted calls into std and `rand_xoshiro`.
- `app/` — plain Rust around the library: `ndarray` arrays and `linfa`
  datasets and traits, `thiserror` errors and `serde` forms of the model.
