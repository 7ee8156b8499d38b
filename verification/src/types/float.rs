use vstd::prelude::*;

verus! {

/// An eight-bit floating-point value, held as its raw bits: one sign
/// bit, four exponent bits, three mantissa bits.  Conversions to and
/// from the machine's wide floating-point formats live with the callers
/// that use them; this type carries the stored bits exactly.
#[derive(Clone, Copy, Debug, PartialEq, Eq, Structural)]
pub struct Fp8(pub(crate) u8);

impl Fp8 {
    /// The stored bits.
    pub open(crate) spec fn bits(self) -> u8 {
        self.0
    }

    /// A value from raw bits, e.g. from storage.
    pub fn from_bits(bits: u8) -> (r: Fp8)
        ensures
            r.bits() == bits,
    {
        Fp8(bits)
    }

    /// The raw bits, e.g. for storage.
    pub fn to_bits(self) -> (r: u8)
        ensures
            r == self.bits(),
    {
        self.0
    }
}

} // verus!
