# bn254_msm

Verified helpers around the BN254 curve: scalars written out as 254-bit
strings and packed into bytes, G1 points with their little- and big-endian byte
encodings, scalar and multi-scalar multiplication, bit access on scalars, and
the integer lattice whose reduction decomposes a pair of scalars.

- `src/` is the library, verified with Verus. Curve arithmetic (addition,
  scalar multiplication, equality, the curve check, reduction of bytes modulo
  the base field order) is done by `ark-bn254`/`ark-ec`/`ark-ff` behind a few
  trusted wrappers in `src/curve.rs`; everything else is proved.
- `app/` holds what Verus does not see: serde encodings, conversions from and
  to the arkworks types, a rayon-parallel multi-scalar multiplication, and the
  lattice reduction itself (`lll-rs` over `rug` integers).
- `tests/` runs the library against the real curve crates.
