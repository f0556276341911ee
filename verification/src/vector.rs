//! The carrier of 3D vector values inside the verified core.
//!
//! Vector coordinates are IEEE 754 single-precision values. Their
//! arithmetic — rotation, projection, normalization — is floating point and
//! lives outside this crate; here a vector is carried opaquely as the bit
//! patterns of its three components, which convert to and from numbers
//! one-for-one.

use vstd::prelude::*;

verus! {

/// The bit pattern of the single-precision value zero.
pub const F32_ZERO_BITS: u32 = 0x0000_0000;

/// The bit pattern of the single-precision value one.
pub const F32_ONE_BITS: u32 = 0x3F80_0000;

/// The bit pattern of the single-precision value minus one.
pub const F32_NEG_ONE_BITS: u32 = 0xBF80_0000;

/// A 3D vector as the bit patterns of its three single-precision
/// components.
#[derive(Clone, Copy, PartialEq, Eq, Structural, Debug)]
pub struct Vec3Bits {
    /// The bit pattern of the x-component.
    pub x: u32,
    /// The bit pattern of the y-component.
    pub y: u32,
    /// The bit pattern of the z-component.
    pub z: u32,
}

impl Vec3Bits {
    /// Builds a vector from its three components' bit patterns.
    pub fn new(x: u32, y: u32, z: u32) -> (v: Vec3Bits)
        ensures
            v == (Vec3Bits { x, y, z }),
    {
        Vec3Bits { x, y, z }
    }

    /// The zero vector.
    pub open spec fn zero() -> Vec3Bits {
        Vec3Bits { x: F32_ZERO_BITS, y: F32_ZERO_BITS, z: F32_ZERO_BITS }
    }

    /// The all-ones vector, the unit scale.
    pub open spec fn unit() -> Vec3Bits {
        Vec3Bits { x: F32_ONE_BITS, y: F32_ONE_BITS, z: F32_ONE_BITS }
    }
}

} // verus!
