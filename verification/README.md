# tiny_zk_stark

A small STARK over the BabyBear field (p = 15 * 2^27 + 1), verified with Verus:
a Fibonacci computation is turned into an execution trace, its constraints are
combined into one composition polynomial, and FRI proves that polynomial's
evaluations close to low degree.

## Layout

- `src/field_babybear.rs`: the prime field, its roots of unity and byte encodings.
- `src/field_laws.rs`: the multiplicative group: 31 generates it (so p is prime and
  every nonzero element is invertible), and the root of unity of order 2^l has order
  exactly 2^l.
- `src/fft.rs`, `src/fft_laws.rs`: the number-theoretic transform, and the laws that
  the inverse transform undoes the forward one and that transforms turn products
  into pointwise products.
- `src/poly.rs`, `src/poly_laws.rs`: coefficient-vector polynomials (evaluation,
  sums, products, long division, Lagrange interpolation) and the uniqueness of
  division, the factor theorem.
- `src/poly_ring.rs`: products of polynomials are commutative and associative, and a
  polynomial vanishing at distinct powers of a root is divisible by their linear
  factors.
- `src/domain.rs`: evaluation domains (two-power subgroups and their cosets).
- `src/merkle_tree_fp.rs`: Merkle trees over field elements, with the law that an
  authentication path produced for a leaf leads back to the root.
- `src/poseidon2.rs`: the Poseidon2 permutation and the hash built on it.
- `src/poseidon2_laws.rs`: the permutation is injective (so a permutation) for the
  S-box `x^7` and an invertible internal matrix.
- `src/poseidon2_babybear.rs`: the internal diagonals of the BabyBear instances of
  widths 16 and 24, the proof that their internal matrices are invertible, and so
  that those permutations are injective.
- `src/air.rs`: the Fibonacci AIR: trace, constraint polynomials and constraint
  values, their agreement at single points and over the extension domain with the
  constraint quotient polynomials, and the law that an honest trace meets every
  constraint.
- `src/composition.rs`: the random linear combination of the constraints.
- `src/fri.rs`: the FRI prover and verifier, with the law that honest proofs are
  accepted.
- `app/main.rs`: proves and verifies the sixteenth Fibonacci number.
- `tests/`: tests over the public functions.
