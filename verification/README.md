# lattica_prover

The verifier of STARK proofs over the Goldilocks field, natively and as a constraint system of its own: the fused
verifier, whose proof shows that an inner proof is accepted, alone or many at a time with their statements folded to a
root. Around it stand the pieces that both share: the field and its quadratic extension, the Poseidon2 permutation and
its sponge, the transcript, the low-degree test, constraint expressions, and lookup arguments.

- `src/` is the verified library. `field`, `ring`, `poly`, `prime`, `bits`, `poseidon` and `transcript` are the ground;
  `expr`, `symbolic`, `emit` and `fingerprint` hold constraint expressions; `fri` and `stark` verify proofs; `lookup`
  proves and verifies lookup arguments; `gadgets` are the parts of the fused verifier as systems of their own, and `monolith` is the
  fused verifier with its layout, constraints and traces, what the constraints mean, and what of them a built trace
  satisfies.
- `app/` is ordinary Rust: the commitment scheme of `p3`, the conversion of its proofs, and drivers.
- `tests/` runs the library against `p3`.

What the fused verifier is for is stated in `monolith/complete.rs` (on the instance of every accepted proof all constraints
vanish on all row pairs) and in `monolith/sound.rs` and `monolith/hashed.rs` (what a trace on which they vanish shows of
the transcript, the query indices, the reduced openings, the folds, the leaves and the paths). `monolith/satisfied.rs`
states of every shape, hiding or with a lookup argument too, that a built trace whose data agree satisfies the system.
For many instances at a time the same stands in `monolith/aggregated.rs` (accepted proofs give a trace that satisfies the
system with the root of their statements) and in `monolith/rooted.rs` (a satisfying trace folds the statements that its
instances show to its root).

What the lookup argument is for is stated in `lookup/argument.rs` (the aux columns of a trace satisfy the constraints of its
lookups, and none but those do), in `lookup/balance.rs` (a balanced trace has terminal zero), in `lookup/imbalance.rs` (a
trace that is not balanced has it for few challenges only), in `lookup/exact.rs` (the quotient of an honest prover is
exact) and in `lookup/honest.rs` (the proof of a balanced trace is accepted). They rest on `poly`, polynomials over the
extension, and on `stark/subgroup.rs`, the polynomial that vanishes on the trace domain.
