# sparse_sim

A sparse state simulator for quantum programs, with its contracts and laws
proved by Verus.

- `src/` is the library. `sim.rs` holds the simulator, `model.rs` and `steps.rs`
  say what each operation does, and `bits.rs` and `fxmap.rs` are the only places
  that call other crates.
- The laws are the public proof functions whose names begin with `law_`, in
  `flushing.rs`, `bookkeeping.rs`, `labels.rs`, `applied.rs`, `laws.rs`,
  `controlled_laws.rs`, `restoring.rs`, `amplitudes.rs`, `sparsity.rs`,
  `operations.rs`, `measuring.rs`, `normalization.rs` and `readout.rs`. The
  algebra of the gates is in `gates.rs`.
- The library is generic over its arithmetic (`arith.rs`) and takes the random
  samples that measurements need as arguments. `app/` runs it on floating point
  numbers with a random number generator.
