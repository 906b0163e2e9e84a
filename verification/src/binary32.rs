//! IEEE 754 binary32 data as bit patterns, and their conversion to and from
//! binary64.
use vstd::prelude::*;
use vstd::arithmetic::power2::*;
use crate::binary64::{Binary64, binary64, QUIET_NAN};
use crate::rounding::{Format, Parts, Value};

verus! {

pub open spec fn spec_binary32() -> Format {
    Format { prec: 24, emin: (-149i32), emax: 104 }
}

/// The binary32 format: 24 mantissa bits, last-bit exponents from -149 to 104.
#[verifier::when_used_as_spec(spec_binary32)]
pub fn binary32() -> (f: Format)
    ensures
        f == spec_binary32(),
{
    Format { prec: 24, emin: -149, emax: 104 }
}

/// An IEEE 754 binary32 datum, held as its bit pattern.
#[derive(Clone, Copy, Debug)]
pub struct Binary32 {
    pub bits: u32,
}

/// What the bit pattern `bits` stands for: the top bit is the sign, the next
/// eight the exponent field, the last 23 the fraction.
pub open spec fn decode32(bits: u32) -> Value {
    let neg = bits >= 0x8000_0000;
    let field = (bits / 0x80_0000) % 0x100;
    let frac = bits % 0x80_0000;
    if field == 0xff {
        if frac == 0 {
            Value::Inf { neg }
        } else {
            Value::Nan
        }
    } else if field == 0 {
        Value::Fin { neg, mant: frac as nat, exp: -149 }
    } else {
        Value::Fin { neg, mant: (frac + 0x80_0000) as nat, exp: field - 150 }
    }
}

impl View for Binary32 {
    type V = Value;

    open spec fn view(&self) -> Value {
        decode32(self.bits)
    }
}

/// The bit pattern that every operation gives for not-a-number: quiet, with
/// an empty payload.
pub const QUIET_NAN32: u32 = 0x7fc0_0000;

/// Every bit pattern stands for a value of the format.
pub proof fn lemma_decode32_holds(bits: u32)
    ensures
        binary32().wf(),
        binary32().holds(decode32(bits)),
{
    lemma2_to64();
}

/// Two bit patterns for the same value, other than not-a-number, are the
/// same pattern: what a datum stands for pins its bits.
pub proof fn lemma_decode32_injective(a: u32, b: u32)
    requires
        decode32(a) == decode32(b),
        !(decode32(a) is Nan),
    ensures
        a == b,
{
    let fa = (a / 0x80_0000) % 0x100;
    let fb = (b / 0x80_0000) % 0x100;
    assert(fa == fb);
    assert(a % 0x80_0000 == b % 0x80_0000);
    assert((a >= 0x8000_0000) == (b >= 0x8000_0000));
}

impl Binary32 {
    pub fn from_bits(bits: u32) -> (r: Binary32)
        ensures
            r.bits == bits,
    {
        Binary32 { bits }
    }

    pub fn to_bits(self) -> (r: u32)
        ensures
            r == self.bits,
    {
        self.bits
    }

    /// Takes the datum apart.
    pub fn unpack(self) -> (r: Parts)
        ensures
            r@ == self@,
            binary32().holds(r@),
    {
        proof {
            lemma_decode32_holds(self.bits);
        }
        let neg: bool = self.bits >= 0x8000_0000;
        let field: u32 = (self.bits / 0x80_0000) % 0x100;
        let frac: u32 = self.bits % 0x80_0000;
        if field == 0xff {
            if frac == 0 {
                Parts::Inf { neg }
            } else {
                Parts::Nan
            }
        } else if field == 0 {
            Parts::Fin { neg, mant: frac as u64, exp: -149 }
        } else {
            Parts::Fin { neg, mant: (frac + 0x80_0000) as u64, exp: field as i32 - 150 }
        }
    }

    /// Puts a value of the format together. Not-a-number gets the quiet
    /// pattern with an empty payload.
    pub fn pack(p: Parts) -> (r: Binary32)
        requires
            binary32().holds(p@),
        ensures
            r@ == p@,
            r@ is Nan ==> r.bits == QUIET_NAN32,
    {
        proof {
            lemma2_to64();
        }
        match p {
            Parts::Nan => Binary32 { bits: QUIET_NAN32 },
            Parts::Inf { neg } => if neg {
                Binary32 { bits: 0xff80_0000 }
            } else {
                Binary32 { bits: 0x7f80_0000 }
            },
            Parts::Fin { neg, mant, exp } => {
                let sign: u32 = if neg {
                    0x8000_0000
                } else {
                    0
                };
                if mant < 0x80_0000 {
                    Binary32 { bits: sign + mant as u32 }
                } else {
                    let field: u32 = (exp + 150) as u32;
                    Binary32 { bits: sign + field * 0x80_0000 + (mant as u32 - 0x80_0000) }
                }
            },
        }
    }

    /// The same value in binary64.
    pub fn to_binary64(self) -> (r: Binary64)
        ensures
            r@ == binary64().converted(self@),
            r@ is Nan ==> r.bits == QUIET_NAN,
    {
        Binary64::pack(binary64().convert(&binary32(), self.unpack()))
    }

    /// The value of `x` rounded to binary32.
    pub fn from_binary64(x: Binary64) -> (r: Binary32)
        ensures
            r@ == binary32().converted(x@),
            r@ is Nan ==> r.bits == QUIET_NAN32,
    {
        Binary32::pack(binary32().convert(&binary64(), x.unpack()))
    }
}

} // verus!
