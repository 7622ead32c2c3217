# poly_commit

Polynomial commitment schemes for multilinear polynomials, verified with
Verus: KZG, HyperKZG and HyperBiKZG over BN254 (group operations and
pairings by `halo2curves`), the Orion scheme's expander code and its
subset-sum lookup tables, and the raw scheme.

Layout:

- `src/field.rs`, `src/m31.rs`, `src/gf2.rs`, `src/fr.rs`: prime fields,
  each element specified by its integer value modulo the characteristic.
- `src/group.rs`: points of the BN254 groups and the pairing.
- `src/univariate.rs`, `src/multilinear.rs`: univariate polynomials in
  coefficient form (evaluation, division, Lagrange interpolation) and
  multilinear extensions of evaluation tables.
- `src/hyper_kzg.rs`: the field-level part of HyperKZG: folding, the local
  evaluations at `beta`, `-beta` and `beta^2`, their aggregation, and the
  exact divisions of the opening.
- `src/kzg.rs`: KZG and HyperKZG commitments, openings and verification,
  bivariate KZG, batching and the pairing accumulator.
- `src/hyper_bikzg.rs`: HyperBiKZG, the opening of a polynomial shared among
  parties, and its verifier.
- `src/orion/`: the expander code, evaluation-shape planning, lookup tables,
  the committed codeword matrix and the verifier's checks.
- `src/raw.rs`: the raw commitment scheme.
- `app/`: the error type with its messages and the code parameters with
  floating-point rates.

Group elements are held by their coordinates; what a curve operation or the
pairing returns is named by a spec function of its arguments, with the group
laws stated for multiples of the generators. A transcript is described by
what it has taken in, each challenge being a function of that history. The
laws that relate several functions are public proof functions beside them.
