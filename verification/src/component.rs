//! The storage types a colour component can have, and how each is carried to
//! and from the normalized range from 0 to 1.
use vstd::prelude::*;
use crate::arith::{truncated, lemma_converted_back};
use crate::binary32::{Binary32, binary32, lemma_decode32_holds};
use crate::binary64::{Binary64, binary64};
use crate::rounding::Value;

verus! {

/// A storage type for colour components. Every component can be carried to a
/// binary64 datum in the range from 0 to 1, and back.
pub trait Component: Copy {
    /// The normalized value that the component stands for.
    spec fn normalized(self) -> Value;

    /// Whether `c` is what the normalized value `x` is stored as.
    spec fn stored_as(x: Value, c: Self) -> bool;

    /// Carries the component to the normalized range.
    fn to_normalized(self) -> (r: Binary64)
        ensures
            r@ == self.normalized(),
    ;

    /// Stores a normalized value. Nothing checks that it lies between 0 and 1.
    fn from_normalized(x: Binary64) -> (r: Self)
        ensures
            Self::stored_as(x@, r),
    ;
}

/// The normalized value of `v` on a scale from 0 to `max`: the two whole
/// numbers are rounded to binary64, then divided.
pub open spec fn fraction_of(v: nat, max: nat) -> Value {
    binary64().quotient(binary64().of_nat(v), binary64().of_nat(max))
}

/// What `x` is stored as on a scale from 0 to `max`: `x` times `max`
/// rounded to binary64, cut towards zero and held within the scale.
pub open spec fn scaled_to(x: Value, max: nat) -> nat {
    truncated(binary64().product(x, binary64().of_nat(max)), max)
}

/// `v / max` in binary64.
pub fn to_fraction(v: u64, max: u64) -> (r: Binary64)
    ensures
        r@ == fraction_of(v as nat, max as nat),
{
    Binary64::from_u64(v).div(Binary64::from_u64(max))
}

/// `x * max` in binary64, cut to a whole number of the scale.
pub fn from_fraction(x: Binary64, max: u64) -> (r: u64)
    ensures
        r == scaled_to(x@, max as nat),
        r <= max,
{
    x.mul(Binary64::from_u64(max)).to_u64(max)
}

impl Component for Binary64 {
    open spec fn normalized(self) -> Value {
        self@
    }

    open spec fn stored_as(x: Value, c: Binary64) -> bool {
        c@ == x
    }

    fn to_normalized(self) -> (r: Binary64) {
        self
    }

    fn from_normalized(x: Binary64) -> (r: Binary64) {
        x
    }
}

impl Component for Binary32 {
    open spec fn normalized(self) -> Value {
        binary64().converted(self@)
    }

    open spec fn stored_as(x: Value, c: Binary32) -> bool {
        c@ == binary32().converted(x)
    }

    fn to_normalized(self) -> (r: Binary64) {
        self.to_binary64()
    }

    fn from_normalized(x: Binary64) -> (r: Binary32) {
        Binary32::from_binary64(x)
    }
}

impl Component for u8 {
    open spec fn normalized(self) -> Value {
        fraction_of(self as nat, u8::MAX as nat)
    }

    open spec fn stored_as(x: Value, c: u8) -> bool {
        c == scaled_to(x, u8::MAX as nat)
    }

    fn to_normalized(self) -> (r: Binary64) {
        to_fraction(self as u64, u8::MAX as u64)
    }

    fn from_normalized(x: Binary64) -> (r: u8) {
        from_fraction(x, u8::MAX as u64) as u8
    }
}

impl Component for u16 {
    open spec fn normalized(self) -> Value {
        fraction_of(self as nat, u16::MAX as nat)
    }

    open spec fn stored_as(x: Value, c: u16) -> bool {
        c == scaled_to(x, u16::MAX as nat)
    }

    fn to_normalized(self) -> (r: Binary64) {
        to_fraction(self as u64, u16::MAX as u64)
    }

    fn from_normalized(x: Binary64) -> (r: u16) {
        from_fraction(x, u16::MAX as u64) as u16
    }
}

impl Component for u32 {
    open spec fn normalized(self) -> Value {
        fraction_of(self as nat, u32::MAX as nat)
    }

    open spec fn stored_as(x: Value, c: u32) -> bool {
        c == scaled_to(x, u32::MAX as nat)
    }

    fn to_normalized(self) -> (r: Binary64) {
        to_fraction(self as u64, u32::MAX as u64)
    }

    fn from_normalized(x: Binary64) -> (r: u32) {
        from_fraction(x, u32::MAX as u64) as u32
    }
}

impl Component for u64 {
    open spec fn normalized(self) -> Value {
        fraction_of(self as nat, u64::MAX as nat)
    }

    open spec fn stored_as(x: Value, c: u64) -> bool {
        c == scaled_to(x, u64::MAX as nat)
    }

    fn to_normalized(self) -> (r: Binary64) {
        to_fraction(self, u64::MAX)
    }

    fn from_normalized(x: Binary64) -> (r: u64) {
        from_fraction(x, u64::MAX)
    }
}

impl Component for usize {
    open spec fn normalized(self) -> Value {
        fraction_of(self as nat, usize::MAX as nat)
    }

    open spec fn stored_as(x: Value, c: usize) -> bool {
        c == scaled_to(x, usize::MAX as nat)
    }

    fn to_normalized(self) -> (r: Binary64) {
        to_fraction(self as u64, usize::MAX as u64)
    }

    fn from_normalized(x: Binary64) -> (r: usize) {
        from_fraction(x, usize::MAX as u64) as usize
    }
}

/// A binary64 component that is normalized and stored again is the same
/// value.
pub proof fn lemma_binary64_comes_back(v: Binary64)
    ensures
        Binary64::stored_as(v.normalized(), v),
{
}

/// A binary32 component that is normalized and stored again is the same
/// value: binary64 holds every binary32 value exactly.
pub proof fn lemma_binary32_comes_back(v: Binary32)
    ensures
        Binary32::stored_as(v.normalized(), v),
{
    lemma_decode32_holds(v.bits);
    lemma_converted_back(binary32(), binary64(), v@);
}

} // verus!
