//! The closed set of committable column kinds.
//!
//! A column owns a sequence of fixed-width values and knows its own byte
//! width, signedness and minimum value.  Every consumer matches exhaustively
//! on the enum, so a new kind cannot be silently skipped.

use crate::offset_to_bytes::{le_bytes, limbs_value};
use vstd::prelude::*;

verus! {

/// The precision of a `Decimal75` column: the count of significant decimal
/// digits, between 1 and 75.
#[derive(Clone, Copy, PartialEq, Eq, Structural, Debug)]
pub struct Precision(pub u8);

impl Precision {
    /// `Some` exactly when `value` is a representable decimal precision.
    pub fn new(value: u8) -> (r: Option<Precision>)
        ensures
            r == if 1 <= value && value <= 75 {
                Some(Precision(value))
            } else {
                None::<Precision>
            },
    {
        if 1 <= value && value <= 75 {
            Some(Precision(value))
        } else {
            None
        }
    }
}

/// The resolution of a timestamp column.
#[derive(Clone, Copy, PartialEq, Eq, Structural, Debug)]
pub enum PoSQLTimeUnit {
    Second,
    Millisecond,
    Microsecond,
    Nanosecond,
}

/// The time zone a timestamp column was recorded in, as an offset in seconds
/// from UTC.
#[derive(Clone, Copy, PartialEq, Eq, Structural, Debug)]
pub enum PoSQLTimeZone {
    Utc,
    FixedOffset(i32),
}

/// A typed column of data ready to be committed to.
///
/// The wide 4x64-bit kinds (`Decimal75`, `Scalar`, `VarChar`) carry
/// already-unsigned field-element limbs; the signed integer kinds and the
/// timestamp kind go through the sign-bias transform when encoded.
pub enum CommittableColumn {
    SmallInt(Vec<i16>),
    Int(Vec<i32>),
    BigInt(Vec<i64>),
    Int128(Vec<i128>),
    Decimal75(Precision, i8, Vec<[u64; 4]>),
    Scalar(Vec<[u64; 4]>),
    VarChar(Vec<[u64; 4]>),
    Boolean(Vec<bool>),
    TimestampTZ(PoSQLTimeUnit, PoSQLTimeZone, Vec<i64>),
}

impl CommittableColumn {
    /// The number of logical elements the column holds.
    pub open spec fn spec_len(&self) -> nat {
        match self {
            CommittableColumn::SmallInt(v) => v@.len(),
            CommittableColumn::Int(v) => v@.len(),
            CommittableColumn::BigInt(v) => v@.len(),
            CommittableColumn::Int128(v) => v@.len(),
            CommittableColumn::Decimal75(_, _, v) => v@.len(),
            CommittableColumn::Scalar(v) => v@.len(),
            CommittableColumn::VarChar(v) => v@.len(),
            CommittableColumn::Boolean(v) => v@.len(),
            CommittableColumn::TimestampTZ(_, _, v) => v@.len(),
        }
    }

    /// The byte width of one encoded element.
    pub open spec fn spec_byte_size(&self) -> nat {
        match self {
            CommittableColumn::SmallInt(_) => 2,
            CommittableColumn::Int(_) => 4,
            CommittableColumn::BigInt(_) => 8,
            CommittableColumn::Int128(_) => 16,
            CommittableColumn::Decimal75(_, _, _) => 32,
            CommittableColumn::Scalar(_) => 32,
            CommittableColumn::VarChar(_) => 32,
            CommittableColumn::Boolean(_) => 1,
            CommittableColumn::TimestampTZ(_, _, _) => 8,
        }
    }

    /// Whether the column's elements are sign-biased when encoded, and hence
    /// whether the column receives offset-plane bytes.
    pub open spec fn spec_is_signed(&self) -> bool {
        match self {
            CommittableColumn::SmallInt(_) => true,
            CommittableColumn::Int(_) => true,
            CommittableColumn::BigInt(_) => true,
            CommittableColumn::Int128(_) => true,
            CommittableColumn::Decimal75(_, _, _) => false,
            CommittableColumn::Scalar(_) => false,
            CommittableColumn::VarChar(_) => false,
            CommittableColumn::Boolean(_) => false,
            CommittableColumn::TimestampTZ(_, _, _) => true,
        }
    }

    /// The minimum value of the column's domain: what an encoded zero stands
    /// for.
    pub open spec fn spec_min_value(&self) -> int {
        match self {
            CommittableColumn::SmallInt(_) => i16::MIN as int,
            CommittableColumn::Int(_) => i32::MIN as int,
            CommittableColumn::BigInt(_) => i64::MIN as int,
            CommittableColumn::Int128(_) => i128::MIN as int,
            CommittableColumn::Decimal75(_, _, _) => 0,
            CommittableColumn::Scalar(_) => 0,
            CommittableColumn::VarChar(_) => 0,
            CommittableColumn::Boolean(_) => 0,
            CommittableColumn::TimestampTZ(_, _, _) => i64::MIN as int,
        }
    }

    /// The sign-biased unsigned value of element `i`: the element minus the
    /// domain minimum.
    pub open spec fn spec_shifted_element(&self, i: int) -> nat {
        match self {
            CommittableColumn::SmallInt(v) => (v@[i] - i16::MIN) as nat,
            CommittableColumn::Int(v) => (v@[i] - i32::MIN) as nat,
            CommittableColumn::BigInt(v) => (v@[i] - i64::MIN) as nat,
            CommittableColumn::Int128(v) => (v@[i] - i128::MIN) as nat,
            CommittableColumn::Decimal75(_, _, v) => limbs_value(v@[i]@),
            CommittableColumn::Scalar(v) => limbs_value(v@[i]@),
            CommittableColumn::VarChar(v) => limbs_value(v@[i]@),
            CommittableColumn::Boolean(v) => if v@[i] {
                1nat
            } else {
                0nat
            },
            CommittableColumn::TimestampTZ(_, _, v) => (v@[i] - i64::MIN) as nat,
        }
    }

    /// The encoded bytes of element `i`: the sign-biased value, little-endian,
    /// exactly `spec_byte_size` bytes.
    pub open spec fn spec_encoded_element(&self, i: int) -> Seq<u8> {
        le_bytes(self.spec_shifted_element(i), self.spec_byte_size())
    }

    /// The number of logical elements the column holds.
    pub fn len(&self) -> (r: usize)
        ensures
            r == self.spec_len(),
    {
        match self {
            CommittableColumn::SmallInt(v) => v.len(),
            CommittableColumn::Int(v) => v.len(),
            CommittableColumn::BigInt(v) => v.len(),
            CommittableColumn::Int128(v) => v.len(),
            CommittableColumn::Decimal75(_, _, v) => v.len(),
            CommittableColumn::Scalar(v) => v.len(),
            CommittableColumn::VarChar(v) => v.len(),
            CommittableColumn::Boolean(v) => v.len(),
            CommittableColumn::TimestampTZ(_, _, v) => v.len(),
        }
    }

    /// Whether the column is empty.
    pub fn is_empty(&self) -> (r: bool)
        ensures
            r == (self.spec_len() == 0),
    {
        self.len() == 0
    }
}

} // verus!
