//! The scalar values the composite polynomial is built from.
//!
//! The concrete commitment field belongs to the opaque curve backend; the
//! polynomial builder's bookkeeping needs only a ring with an exact
//! arithmetic model.  A scalar here is a 64-bit word with wrap-around
//! arithmetic: addition and multiplication modulo `2^64`.

use vstd::arithmetic::div_mod::{lemma_mod_bound, lemma_small_mod};
use vstd::arithmetic::mul::lemma_mul_upper_bound;
use vstd::prelude::*;

verus! {

/// A polynomial coefficient or evaluation value.
#[derive(Clone, Copy, PartialEq, Eq, Structural, Debug)]
pub struct Scalar(pub u64);

/// Scalar addition: modulo `2^64`.
pub open spec fn spec_scalar_add(a: Scalar, b: Scalar) -> Scalar {
    Scalar(((a.0 + b.0) % 0x1_0000_0000_0000_0000) as u64)
}

/// Scalar multiplication: modulo `2^64`.
pub open spec fn spec_scalar_mul(a: Scalar, b: Scalar) -> Scalar {
    Scalar(((a.0 * b.0) % 0x1_0000_0000_0000_0000) as u64)
}

/// The additive identity.
pub open spec fn spec_scalar_zero() -> Scalar {
    Scalar(0)
}

/// The multiplicative identity.
pub open spec fn spec_scalar_one() -> Scalar {
    Scalar(1)
}

impl Scalar {
    /// The additive identity.
    pub fn zero() -> (r: Scalar)
        ensures
            r == spec_scalar_zero(),
    {
        Scalar(0)
    }

    /// The multiplicative identity.
    pub fn one() -> (r: Scalar)
        ensures
            r == spec_scalar_one(),
    {
        Scalar(1)
    }

    /// Wrap-around addition.
    pub fn add(self, other: Scalar) -> (r: Scalar)
        ensures
            r == spec_scalar_add(self, other),
    {
        let s: u128 = ((self.0 as u128) + (other.0 as u128)) % 0x1_0000_0000_0000_0000u128;
        proof {
            lemma_mod_bound((self.0 + other.0) as int, 0x1_0000_0000_0000_0000);
        }
        Scalar(s as u64)
    }

    /// Wrap-around multiplication.
    pub fn mul(self, other: Scalar) -> (r: Scalar)
        ensures
            r == spec_scalar_mul(self, other),
    {
        proof {
            lemma_mul_upper_bound(
                self.0 as int,
                0xFFFF_FFFF_FFFF_FFFF,
                other.0 as int,
                0xFFFF_FFFF_FFFF_FFFF,
            );
        }
        let s: u128 = ((self.0 as u128) * (other.0 as u128)) % 0x1_0000_0000_0000_0000u128;
        proof {
            lemma_mod_bound((self.0 * other.0) as int, 0x1_0000_0000_0000_0000);
        }
        Scalar(s as u64)
    }
}

/// Multiplying by the one scalar changes nothing.
pub proof fn lemma_scalar_mul_one(a: Scalar)
    ensures
        spec_scalar_mul(a, spec_scalar_one()) == a,
{
    lemma_small_mod(a.0 as nat, 0x1_0000_0000_0000_0000);
}

} // verus!
