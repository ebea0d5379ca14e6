# eyvara

A lattice-based verifiable random function from Module-LWE (Fiat-Shamir with
aborts, Dilithium-style commitment, challenge, response and hint), with its
arithmetic, sampling, evaluation and verification proved in Verus.

## Layout

- `src/params.rs`: the two sealed parameter sets and the facts they satisfy.
- `src/ntt.rs`: Montgomery reduction, centered reduction, the forward and inverse
  number-theoretic transforms, and their laws (each undoes the other up to the
  Montgomery factor; both are linear).
- `src/negacyclic.rs`: the transform turns the negacyclic product in
  `Z_q[X]/(X^256 + 1)` into the coefficient-wise product; a sparse ternary
  challenge times a short polynomial stays short.
- `src/poly.rs`: polynomial and vector arithmetic, rounding into high and low
  bits, hints, norms, encodings and the samplers.
- `src/challenge.rs`, `src/hash.rs`: SHAKE-256 and the challenge polynomial.
- `src/keygen.rs`, `src/eval.rs`, `src/verify.rs`: key generation, evaluation
  and verification, with their exact contracts and the laws that tie them
  together (honest proofs verify, verification never answers `Ok(false)`, and a proof
  binds its input to one output: two outputs that verify under one key with
  the same input and proof are equal).
- `app/`: random-number-generator front end, `Display` for the error type and
  serializable copies of the public types.
- `tests/`: executable tests of the library.
