# divans (verified core)

Adaptive probability models and cross-command bookkeeping of a
context-mixing compression codec, written in Verus.

- `src/probability.rs`: the binary model `CDF2`, the 16-symbol model trait
  `CDF16` with its two models `BlendCDF16` (fixed-point mixing toward a
  target, `mul_blend`) and `FrequentistCDF16` (counting), and the generator
  `simple_rand`.
- `src/codec/interface.rs`: `CrossCommandBookKeeping` (context maps with a
  move-to-front list, recent distances and the distance cache, the two
  distance mnemonic schemes, block-type lists, recent literals and
  commands), `CrossCommandState`, and small helpers.
- `app/lib.rs`: brotli status codes for the bookkeeping's outcomes and a
  floating-point view of a model.
- `tests/`: the tests, run against the compiled library.
