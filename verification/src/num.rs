//! Bounded integer types.
use vstd::prelude::*;

verus! {

/// Represents an integer from 0 to 2^31 - 1.
///
/// The sign bit of the underlying 32-bit integer is always zero.
#[derive(Clone, Copy, Debug, PartialEq, Eq, Structural, Hash)]
pub struct U31(u32);

impl U31 {
    /// The largest value, 2^31 - 1.
    pub open spec fn spec_max() -> u32 {
        0x7fff_ffff
    }

    /// Type invariant of [`U31`]: the value never exceeds 2^31 - 1.
    #[verifier::type_invariant]
    pub closed spec fn inv(self) -> bool {
        self.0 <= Self::spec_max()
    }

    /// The value held.
    pub closed spec fn value(self) -> u32 {
        self.0
    }

    /// Returns the largest value, 2^31 - 1.
    pub fn max_value() -> (r: Self)
        ensures
            r.value() == Self::spec_max(),
    {
        U31(0x7fff_ffff)
    }

    /// Creates a value if `x` is no more than 2^31 - 1.
    pub fn new(x: u32) -> (r: Option<Self>)
        ensures
            r is Some <==> x <= Self::spec_max(),
            r matches Some(v) ==> v.value() == x,
    {
        if x <= 0x7fff_ffff {
            Some(U31(x))
        } else {
            None
        }
    }

    /// Returns the value.
    pub fn get(self) -> (r: u32)
        ensures
            r == self.value(),
            r <= Self::spec_max(),
    {
        proof {
            use_type_invariant(&self);
        }
        self.0
    }
}

} // verus!
