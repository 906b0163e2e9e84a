//! IEEE 754 binary64 data as bit patterns, with their arithmetic.
use vstd::prelude::*;
use vstd::arithmetic::power2::*;
use crate::arith::{minimum, maximum, truncated};
use crate::rounding::{Format, Parts, Value};

verus! {

/// The binary64 format: 53 mantissa bits, last-bit exponents from -1074 to 971.
pub open spec fn spec_binary64() -> Format {
    Format { prec: 53, emin: (-1074i32), emax: 971 }
}

/// The binary64 format: 53 mantissa bits, last-bit exponents from -1074 to 971.
#[verifier::when_used_as_spec(spec_binary64)]
pub fn binary64() -> (f: Format)
    ensures
        f == spec_binary64(),
{
    Format { prec: 53, emin: -1074, emax: 971 }
}

/// An IEEE 754 binary64 datum, held as its bit pattern.
#[derive(Clone, Copy, Debug)]
pub struct Binary64 {
    pub bits: u64,
}

/// What the bit pattern `bits` stands for: the top bit is the sign, the next
/// eleven the exponent field, the last 52 the fraction.
pub open spec fn decode64(bits: u64) -> Value {
    let neg = bits >= 0x8000_0000_0000_0000;
    let field = (bits / 0x10_0000_0000_0000) % 0x800;
    let frac = bits % 0x10_0000_0000_0000;
    if field == 0x7ff {
        if frac == 0 {
            Value::Inf { neg }
        } else {
            Value::Nan
        }
    } else if field == 0 {
        Value::Fin { neg, mant: frac as nat, exp: -1074 }
    } else {
        Value::Fin { neg, mant: (frac + 0x10_0000_0000_0000) as nat, exp: field - 1075 }
    }
}

impl View for Binary64 {
    type V = Value;

    open spec fn view(&self) -> Value {
        decode64(self.bits)
    }
}

/// The bit pattern that every operation gives for not-a-number: quiet, with
/// an empty payload.
pub const QUIET_NAN: u64 = 0x7ff8_0000_0000_0000;

/// Every bit pattern stands for a value of the format.
pub proof fn lemma_decode64_holds(bits: u64)
    ensures
        binary64().wf(),
        binary64().holds(decode64(bits)),
{
    lemma2_to64_rest();
}

/// Two bit patterns for the same value, other than not-a-number, are the
/// same pattern: what a datum stands for pins its bits.
pub proof fn lemma_decode64_injective(a: u64, b: u64)
    requires
        decode64(a) == decode64(b),
        !(decode64(a) is Nan),
    ensures
        a == b,
{
    let fa = (a / 0x10_0000_0000_0000) % 0x800;
    let fb = (b / 0x10_0000_0000_0000) % 0x800;
    assert(fa == fb);
    assert(a % 0x10_0000_0000_0000 == b % 0x10_0000_0000_0000);
    assert((a >= 0x8000_0000_0000_0000) == (b >= 0x8000_0000_0000_0000));
}

impl Binary64 {
    pub fn from_bits(bits: u64) -> (r: Binary64)
        ensures
            r.bits == bits,
    {
        Binary64 { bits }
    }

    pub fn to_bits(self) -> (r: u64)
        ensures
            r == self.bits,
    {
        self.bits
    }

    /// Takes the datum apart.
    pub fn unpack(self) -> (r: Parts)
        ensures
            r@ == self@,
            binary64().holds(r@),
    {
        proof {
            lemma_decode64_holds(self.bits);
        }
        let neg: bool = self.bits >= 0x8000_0000_0000_0000;
        let field: u64 = (self.bits / 0x10_0000_0000_0000) % 0x800;
        let frac: u64 = self.bits % 0x10_0000_0000_0000;
        if field == 0x7ff {
            if frac == 0 {
                Parts::Inf { neg }
            } else {
                Parts::Nan
            }
        } else if field == 0 {
            Parts::Fin { neg, mant: frac, exp: -1074 }
        } else {
            Parts::Fin { neg, mant: frac + 0x10_0000_0000_0000, exp: field as i32 - 1075 }
        }
    }

    /// Puts a value of the format together. Not-a-number gets the quiet
    /// pattern with an empty payload.
    pub fn pack(p: Parts) -> (r: Binary64)
        requires
            binary64().holds(p@),
        ensures
            r@ == p@,
            r@ is Nan ==> r.bits == QUIET_NAN,
    {
        proof {
            lemma2_to64_rest();
        }
        match p {
            Parts::Nan => Binary64 { bits: QUIET_NAN },
            Parts::Inf { neg } => if neg {
                Binary64 { bits: 0xfff0_0000_0000_0000 }
            } else {
                Binary64 { bits: 0x7ff0_0000_0000_0000 }
            },
            Parts::Fin { neg, mant, exp } => {
                let sign: u64 = if neg {
                    0x8000_0000_0000_0000
                } else {
                    0
                };
                if mant < 0x10_0000_0000_0000 {
                    Binary64 { bits: sign + mant }
                } else {
                    let field: u64 = (exp as i64 + 1075) as u64;
                    Binary64 { bits: sign + field * 0x10_0000_0000_0000 + (mant - 0x10_0000_0000_0000) }
                }
            },
        }
    }

    /// The whole number `v`, rounded to the format.
    pub fn from_u64(v: u64) -> (r: Binary64)
        ensures
            r@ == binary64().of_nat(v as nat),
            r@ is Nan ==> r.bits == QUIET_NAN,
    {
        Binary64::pack(binary64().of_u64(v))
    }

    /// The datum cut to a whole number towards zero and held within
    /// `0..=max`; not-a-number gives 0.
    pub fn to_u64(self, max: u64) -> (r: u64)
        ensures
            r == truncated(self@, max as nat),
            r <= max,
    {
        binary64().to_u64(self.unpack(), max)
    }

    pub fn add(self, other: Binary64) -> (r: Binary64)
        ensures
            r@ == binary64().sum(self@, other@),
            r@ is Nan ==> r.bits == QUIET_NAN,
    {
        Binary64::pack(binary64().add(self.unpack(), other.unpack()))
    }

    pub fn sub(self, other: Binary64) -> (r: Binary64)
        ensures
            r@ == binary64().difference(self@, other@),
            r@ is Nan ==> r.bits == QUIET_NAN,
    {
        Binary64::pack(binary64().sub(self.unpack(), other.unpack()))
    }

    pub fn mul(self, other: Binary64) -> (r: Binary64)
        ensures
            r@ == binary64().product(self@, other@),
            r@ is Nan ==> r.bits == QUIET_NAN,
    {
        Binary64::pack(binary64().mul(self.unpack(), other.unpack()))
    }

    pub fn div(self, other: Binary64) -> (r: Binary64)
        ensures
            r@ == binary64().quotient(self@, other@),
            r@ is Nan ==> r.bits == QUIET_NAN,
    {
        Binary64::pack(binary64().div(self.unpack(), other.unpack()))
    }

    /// The smaller of the two, passing over a not-a-number.
    pub fn min(self, other: Binary64) -> (r: Binary64)
        ensures
            r@ == minimum(self@, other@),
            r@ is Nan ==> r.bits == QUIET_NAN,
    {
        Binary64::pack(binary64().min(self.unpack(), other.unpack()))
    }

    /// The larger of the two, passing over a not-a-number.
    pub fn max(self, other: Binary64) -> (r: Binary64)
        ensures
            r@ == maximum(self@, other@),
            r@ is Nan ==> r.bits == QUIET_NAN,
    {
        Binary64::pack(binary64().max(self.unpack(), other.unpack()))
    }

    pub fn is_nan(self) -> (r: bool)
        ensures
            r == self@.is_nan(),
    {
        match self.unpack() {
            Parts::Nan => true,
            _ => false,
        }
    }
}

} // verus!
