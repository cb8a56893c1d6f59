use vstd::prelude::*;

verus! {

/// A real number carried by its IEEE 754 binary64 encoding.
///
/// The library never computes with the number; it checks properties of the
/// encoding and hands it to the tensor backend, which decodes it.
#[derive(Clone, Copy, Debug)]
pub struct Binary64 {
    /// The encoding: sign bit, eleven exponent bits, fifty-two fraction bits.
    pub bits: u64,
}

/// Encoding of the smallest exponent field value that marks infinity or NaN.
pub const EXPONENT_ALL_ONES: u64 = 0x7ff0_0000_0000_0000u64;

/// Encoding of `1.0`.
pub const ONE_BITS: u64 = 0x3ff0_0000_0000_0000u64;

/// Encoding of negative infinity.
pub const NEG_INFINITY_BITS: u64 = 0xfff0_0000_0000_0000u64;

impl Binary64 {
    /// Wraps an encoding.
    pub fn from_bits(bits: u64) -> (r: Self)
        ensures
            r.bits == bits,
    {
        Binary64 { bits }
    }

    /// The number one.
    pub fn one() -> (r: Self)
        ensures
            r.bits == ONE_BITS,
    {
        Binary64 { bits: ONE_BITS }
    }

    /// Negative infinity.
    pub fn negative_infinity() -> (r: Self)
        ensures
            r.bits == NEG_INFINITY_BITS,
    {
        Binary64 { bits: NEG_INFINITY_BITS }
    }

    /// The encoding stands for a number that is finite and greater than zero:
    /// the sign bit is clear, the exponent field is not all ones (which
    /// would mean infinity or NaN), and the encoding is not that of `+0.0`.
    pub open spec fn positive_finite(self) -> bool {
        0 < self.bits < EXPONENT_ALL_ONES
    }

    /// Tests [`Binary64::positive_finite`].
    pub fn is_positive_finite(&self) -> (r: bool)
        ensures
            r == self.positive_finite(),
    {
        0 < self.bits && self.bits < EXPONENT_ALL_ONES
    }
}

} // verus!
