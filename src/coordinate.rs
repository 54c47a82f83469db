//! Encoded coordinates, stored in the narrowest unsigned width that holds them.

use vstd::prelude::*;

verus! {

/// An encoded coordinate: a tick index on one axis.
///
/// `from_u64` picks the smallest variant whose range holds the value.
#[derive(Clone, Copy, Debug)]
pub enum Coordinate {
    /// Values in `[0, 2^8)`.
    CoordinateU8(u8),
    /// Values in `[2^8, 2^16)`.
    CoordinateU16(u16),
    /// Values in `[2^16, 2^32)`.
    CoordinateU32(u32),
    /// Values in `[2^32, 2^64)`.
    CoordinateU64(u64),
}

impl Coordinate {
    /// The value held, whatever the variant.
    pub open spec fn value(self) -> u64 {
        match self {
            Coordinate::CoordinateU8(v) => v as u64,
            Coordinate::CoordinateU16(v) => v as u64,
            Coordinate::CoordinateU32(v) => v as u64,
            Coordinate::CoordinateU64(v) => v,
        }
    }

    /// The variant is the narrowest one that can hold the value.
    pub open spec fn is_narrowest(self) -> bool {
        match self {
            Coordinate::CoordinateU8(_) => true,
            Coordinate::CoordinateU16(v) => v > u8::MAX,
            Coordinate::CoordinateU32(v) => v > u16::MAX,
            Coordinate::CoordinateU64(v) => v > u32::MAX,
        }
    }

    /// Store `v` in the narrowest variant that holds it.
    pub fn from_u64(v: u64) -> (r: Coordinate)
        ensures
            r.value() == v,
            r.is_narrowest(),
    {
        if v <= u8::MAX as u64 {
            Coordinate::CoordinateU8(v as u8)
        } else if v <= u16::MAX as u64 {
            Coordinate::CoordinateU16(v as u16)
        } else if v <= u32::MAX as u64 {
            Coordinate::CoordinateU32(v as u32)
        } else {
            Coordinate::CoordinateU64(v)
        }
    }

    /// The value as a `u64`.
    pub fn u64(&self) -> (r: u64)
        ensures
            r == self.value(),
    {
        match *self {
            Coordinate::CoordinateU8(v) => v as u64,
            Coordinate::CoordinateU16(v) => v as u64,
            Coordinate::CoordinateU32(v) => v as u64,
            Coordinate::CoordinateU64(v) => v,
        }
    }

    /// The value as a `usize`.
    pub fn as_usize(&self) -> (r: usize)
        requires
            self.value() <= usize::MAX,
        ensures
            r as int == self.value() as int,
    {
        self.u64() as usize
    }

    /// Sum of two coordinates, in the narrowest variant.
    pub fn add(self, rhs: Coordinate) -> (r: Coordinate)
        requires
            self.value() + rhs.value() <= u64::MAX,
        ensures
            r.value() == self.value() + rhs.value(),
            r.is_narrowest(),
    {
        Coordinate::from_u64(self.u64() + rhs.u64())
    }

    /// Difference of two coordinates, floored at zero: encoded values are
    /// never negative.
    pub fn sub(self, rhs: Coordinate) -> (r: Coordinate)
        ensures
            r.value() == (if self.value() < rhs.value() {
                0
            } else {
                self.value() - rhs.value()
            }),
            r.is_narrowest(),
    {
        let l = self.u64();
        let r = rhs.u64();
        let d: u64 = if l < r {
            0
        } else {
            l - r
        };
        Coordinate::from_u64(d)
    }

    /// Product of two coordinates, in the narrowest variant.
    pub fn mul(self, rhs: Coordinate) -> (r: Coordinate)
        requires
            self.value() * rhs.value() <= u64::MAX,
        ensures
            r.value() == self.value() * rhs.value(),
            r.is_narrowest(),
    {
        Coordinate::from_u64(self.u64() * rhs.u64())
    }

    /// Two coordinates are equal when their values are, whatever the variants.
    pub fn same_value(&self, other: &Coordinate) -> (r: bool)
        ensures
            r == (self.value() == other.value()),
    {
        self.u64() == other.u64()
    }
}

} // verus!
