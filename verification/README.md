# crrust_math

Arithmetic in the ring of integers modulo `p`, for moduli `2 <= p < 2^62`,
written in Verus and verified.

- `src/zq.rs` — `Modulus`: construction with its precomputed constants,
  addition, subtraction, negation, multiplication (Barrett, Shoup
  and NFLlib variants), lazy and full reductions, vector versions of each,
  exponentiation, inversion and random vectors.
- `src/barrett.rs` — the arithmetic behind Barrett's and Shoup's quotient
  estimates.
- `src/nfl.rs` — the NFLlib condition on a modulus and the bounds of the
  optimized reduction it allows.
- `src/prime.rs` — primality, Euclid's lemma, the binomial theorem and
  Fermat's little theorem.
- `src/laws.rs` — laws relating the operations to one another.
- `src/foreign.rs` — the calls into `num-bigint`, `primal-check`, `rand` and
  `rand_chacha`, with the contracts that the rest of the proof relies on.

The tests under `tests/` exercise the
compiled library.
