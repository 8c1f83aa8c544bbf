# tuonelang

The data-level core of the tuonelang toolchain, written in Verus and proved
against its contracts.

- `src/text.rs`, `src/assoc.rs`, `src/toml.rs` — character-level helpers,
  sorted association lists, and the TOML subset the package files use.
- `src/manifest.rs`, `src/lockfile.rs`, `src/edit.rs`, `src/scaffold.rs` —
  `tdg.toml` and `tdg.lock`: reading, canonical writing, and editing.
- `src/readback.rs`, `src/lock_readback.rs` — the round trips: reading a
  canonical manifest or lockfile text gives back what was written.
- `src/resolve.rs` — dependency resolution over loaded packages, module
  checksums, and drift detection. The SHA-256 digest itself comes from the
  `sha2` crate rather than a hand-written compression function: the checksum
  must be the standard SHA-256, and a widely used implementation of the
  standard is the one to trust. The library trusts `sha2` for the 32 digest
  bytes (a named result of the input bytes) and proves the hex rendering and
  everything built on it.
- `src/mir.rs`, `src/opt.rs`, `src/opt/` — the MIR vocabulary and the
  optimizer: the constant-folding pass (integer, boolean and character
  operations folded here; float results taken from the host), copy
  propagation, unreachable-block removal, dead-store and dead-local removal
  with dense renumbering, and the pipeline's pass order and fixed-point rule.
- `src/types.rs`, `src/type_checks.rs` — the verifier's type model (types,
  the table of interned types, struct and enum shapes and function types)
  and its checks: places and projections, callees, assignments, string and
  heap operations, effects and heap mutations; which types are `Copy`.
- `src/mir_verify.rs` — the verifier over whole functions and programs:
  signature, block targets, every place and operand with the type checks,
  then the data flow.
- `src/structural.rs`, `src/dataflow.rs` — the structural checks of a MIR
  body and the definite-initialization analysis (greatest fixed point of the
  flow equations) with the use-after-move / use-before-init check.
- `src/ownership.rs`, `src/literal.rs` — place overlap, borrow modes, and
  literal decoding.
- `app/` — what stays outside the proofs: loading packages from disk, the
  IEEE 754 arithmetic of float constant folding, and the optimization loop
  that interleaves it with the verified passes.
- `tests/` — the test suite.
