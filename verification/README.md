# extrinsic-shuffler

Seed-driven reordering of the extrinsics of a block, verified with Verus.

- `src/bytes.rs`: little-endian reading of seed bytes.
- `src/rng.rs`: the xoshiro256 generator (`rotl`, `Xoshiro256PlusPlus`).
- `src/fisher_yates.rs`: the in-place shuffle driven by the generator.
- `src/occurrences.rs`: counting and locating elements of sequences.
- `src/shuffle.rs`: the block shuffle that keeps each signer's extrinsics
  in order, with its laws.
- `src/seed.rs`: the decisions around reading the seed: errors, signer
  reports, and the run that applies the inherents first.
- `app/lib.rs`: the runtime-API calls that feed the library.
