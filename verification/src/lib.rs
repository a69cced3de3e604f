//! Verified bit, byte and limb logic around BN254 curve points and scalars.

pub mod limbs;
pub mod scalar;
pub mod curve;
pub mod utils;
