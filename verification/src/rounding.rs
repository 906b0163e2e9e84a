//! Binary floating-point formats, the values they hold, and rounding of an
//! exact quantity to the nearest value of a format, ties to the even mantissa.
use vstd::prelude::*;
use vstd::arithmetic::power2::*;
use vstd::arithmetic::div_mod::{lemma_fundamental_div_mod, lemma_mod_bound};
use crate::quantity::{
    Quantity, pow2_or_one, lemma_units_step, lemma_units_refine, lemma_units_coarser,
};

verus! {

/// A binary floating-point format: the number of mantissa bits, and the least
/// and greatest exponent that the last mantissa bit can have.
#[derive(Clone, Copy)]
pub struct Format {
    pub prec: u32,
    pub emin: i32,
    pub emax: i32,
}

/// What a floating-point datum stands for. A finite one is
/// `mant * 2^exp`, negated where `neg` holds; zero keeps its sign.
pub enum Value {
    Nan,
    Inf { neg: bool },
    Fin { neg: bool, mant: nat, exp: int },
}

/// A floating-point datum taken apart.
#[derive(Clone, Copy)]
pub enum Parts {
    Nan,
    Inf { neg: bool },
    Fin { neg: bool, mant: u64, exp: i32 },
}

impl View for Parts {
    type V = Value;

    open spec fn view(&self) -> Value {
        match *self {
            Parts::Nan => Value::Nan,
            Parts::Inf { neg } => Value::Inf { neg },
            Parts::Fin { neg, mant, exp } => Value::Fin { neg, mant: mant as nat, exp: exp as int },
        }
    }
}

/// The mantissa that `g` half-units round to: half of `g`, and one more where
/// `g` lies above the middle between two mantissas, or in the middle with the
/// lower mantissa odd. `whole` says that nothing is left beyond the half-units.
pub open spec fn nearest_even(g: nat, whole: bool) -> nat {
    if g % 2 == 1 && (!whole || (g / 2) % 2 == 1) {
        g / 2 + 1
    } else {
        g / 2
    }
}

impl Format {
    pub open spec fn wf(self) -> bool {
        &&& 2 <= self.prec <= 53
        &&& -2000 <= self.emin <= self.emax <= 2000
    }

    /// Whether `v` is a value of this format in its one normal form: the
    /// mantissa fills all its bits unless the exponent is the least one.
    pub open spec fn holds(self, v: Value) -> bool {
        match v {
            Value::Fin { neg, mant, exp } => {
                &&& mant < pow2(self.prec as nat)
                &&& self.emin <= exp <= self.emax
                &&& (exp == self.emin || mant >= pow2((self.prec - 1) as nat))
            },
            _ => true,
        }
    }

    /// Whether `2^t` is the spacing of this format's values around `q`.
    pub open spec fn is_quantum(self, q: Quantity, t: int) -> bool {
        &&& t >= self.emin
        &&& q.units(t) < pow2(self.prec as nat)
        &&& (t == self.emin || q.units(t) >= pow2((self.prec - 1) as nat))
    }

    /// The exponent of the spacing of this format's values around `q`.
    pub open spec fn quantum(self, q: Quantity) -> int {
        choose|t: int| self.is_quantum(q, t)
    }

    /// The value with mantissa `m` at exponent `t`, where `m` may have reached
    /// `2^prec` by rounding up; infinity where that is beyond the format.
    pub open spec fn finite_or_inf(self, neg: bool, m: nat, t: int) -> Value {
        if m == pow2(self.prec as nat) {
            if t + 1 > self.emax {
                Value::Inf { neg }
            } else {
                Value::Fin { neg, mant: pow2((self.prec - 1) as nat), exp: t + 1 }
            }
        } else if t > self.emax {
            Value::Inf { neg }
        } else {
            Value::Fin { neg, mant: m, exp: t }
        }
    }

    /// The quantity `q`, with sign `neg`, rounded to the nearest value of this
    /// format, a tie going to the even mantissa.
    pub open spec fn rounded(self, neg: bool, q: Quantity) -> Value {
        let t = self.quantum(q);
        self.finite_or_inf(neg, nearest_even(q.units(t - 1), q.exact(t - 1)), t)
    }

    /// A quantity has one spacing only.
    pub proof fn lemma_quantum_unique(self, q: Quantity, t1: int, t2: int)
        requires
            self.wf(),
            q.den > 0,
            self.is_quantum(q, t1),
            self.is_quantum(q, t2),
        ensures
            t1 == t2,
    {
        if t1 <= t2 {
            self.lemma_quantum_ordered(q, t1, t2);
        } else {
            self.lemma_quantum_ordered(q, t2, t1);
        }
    }

    /// Of two spacings of one quantity the second is not the larger: the
    /// count at the smaller would be at least twice a full mantissa.
    proof fn lemma_quantum_ordered(self, q: Quantity, t1: int, t2: int)
        requires
            self.wf(),
            q.den > 0,
            self.is_quantum(q, t1),
            self.is_quantum(q, t2),
            t1 <= t2,
        ensures
            t1 == t2,
    {
        if t1 < t2 {
            let k = (t2 - t1) as nat;
            lemma_units_coarser(q, t1, k);
            lemma_pow2_strictly_increases(0, k);
            lemma2_to64();
            lemma_pow2_unfold(self.prec as nat);
            let a = q.units(t2) as int;
            let h = pow2((self.prec - 1) as nat) as int;
            assert(pow2(k) * a >= 2 * h) by (nonlinear_arith)
                requires
                    pow2(k) >= 2,
                    a >= h,
                    h >= 0,
            ;
        }
    }

    /// Bounds on the mantissa range of a well-formed format.
    pub proof fn lemma_prec_bounds(self)
        requires
            self.wf(),
        ensures
            pow2(self.prec as nat) == 2 * pow2((self.prec - 1) as nat),
            pow2((self.prec - 1) as nat) >= 2,
            pow2(self.prec as nat) <= 0x20_0000_0000_0000,
    {
        lemma2_to64();
        lemma2_to64_rest();
        lemma_pow2_unfold(self.prec as nat);
        if self.prec > 2 {
            lemma_pow2_strictly_increases(1, (self.prec - 1) as nat);
        }
        if self.prec < 53 {
            lemma_pow2_strictly_increases(self.prec as nat, 53);
        }
    }

    /// An exponent that is a spacing of the quantity is the spacing.
    pub proof fn lemma_quantum_is(self, q: Quantity, t: int)
        requires
            self.wf(),
            q.den > 0,
            self.is_quantum(q, t),
        ensures
            self.quantum(q) == t,
    {
        self.lemma_quantum_unique(q, t, self.quantum(q));
    }

    /// Every quantity has a spacing: from the least exponent on, the counts
    /// halve until one fits the mantissa.
    pub proof fn lemma_quantum_exists(self, q: Quantity)
        requires
            self.wf(),
            q.den > 0,
        ensures
            self.is_quantum(q, self.quantum(q)),
    {
        let t = self.lemma_quantum_from(q, self.emin as int);
        assert(self.is_quantum(q, t));
    }

    proof fn lemma_quantum_from(self, q: Quantity, t: int) -> (r: int)
        requires
            self.wf(),
            q.den > 0,
            t >= self.emin,
            t == self.emin || q.units(t) >= pow2((self.prec - 1) as nat),
        ensures
            self.is_quantum(q, r),
        decreases q.units(t),
    {
        self.lemma_prec_bounds();
        if q.units(t) >= pow2(self.prec as nat) {
            lemma_units_step(q, t);
            self.lemma_quantum_from(q, t + 1)
        } else {
            t
        }
    }

    /// Rounding gives the count of units at the spacing of the quantity, or
    /// one more; the count itself where it is exact.
    pub proof fn lemma_rounded_bracket(self, neg: bool, q: Quantity, t: int)
        requires
            self.wf(),
            q.den > 0,
            self.is_quantum(q, t),
        ensures
            ({
                let m = nearest_even(q.units(t - 1), q.exact(t - 1));
                &&& self.rounded(neg, q) == self.finite_or_inf(neg, m, t)
                &&& q.units(t) <= m <= q.units(t) + 1
                &&& q.exact(t) ==> m == q.units(t)
            }),
    {
        self.lemma_quantum_is(q, t);
        lemma_units_step(q, t - 1);
    }

    /// Rounding goes to the nearest: the mantissa `m` that a quantity `n / d`
    /// units of its spacing gets is within half a unit of it, and where it
    /// is exactly half a unit away it is even.
    pub proof fn lemma_rounded_nearest(self, q: Quantity, t: int)
        requires
            self.wf(),
            q.den > 0,
            self.is_quantum(q, t),
        ensures
            ({
                let m = nearest_even(q.units(t - 1), q.exact(t - 1));
                let n = q.numer_at(t);
                let d = q.denom_at(t);
                &&& d > 0
                &&& d * (2 * m - 1) <= 2 * n <= d * (2 * m + 1)
                &&& (2 * n == d * (2 * m - 1) || 2 * n == d * (2 * m + 1)) ==> m % 2 == 0
            }),
    {
        let n = q.numer_at(t) as int;
        let d = q.denom_at(t) as int;
        let n1 = q.numer_at(t - 1) as int;
        let d1 = q.denom_at(t - 1) as int;
        let g = q.units(t - 1) as int;
        let m = nearest_even(q.units(t - 1), q.exact(t - 1)) as int;
        lemma2_to64();
        // the count of half units is the whole part of 2 * n / d
        if t - 1 >= q.exp {
            let p = pow2_or_one(t - 1 - q.exp) as int;
            if t - 1 > q.exp {
                lemma_pow2_pos((t - 1 - q.exp) as nat);
            }
            lemma_pow2_unfold((t - q.exp) as nat);
            assert(d1 > 0 && d == 2 * d1) by (nonlinear_arith)
                requires
                    d1 == q.den * p,
                    d == q.den * (2 * p),
                    q.den > 0,
                    p > 0,
            ;
            assert(n1 == n);
        } else {
            let p = pow2_or_one(q.exp - t) as int;
            lemma_pow2_unfold((q.exp - t + 1) as nat);
            assert(d == q.den && d1 == q.den) by (nonlinear_arith)
                requires
                    d == q.den * 1,
                    d1 == q.den * 1,
            ;
            assert(n1 == 2 * n) by (nonlinear_arith)
                requires
                    n1 == q.num * (2 * p),
                    n == q.num * p,
            ;
        }
        lemma_fundamental_div_mod(n1, d1);
        lemma_mod_bound(n1, d1);
        assert(d * g <= 2 * n < d * (g + 1) && (q.exact(t - 1) <==> 2 * n == d * g))
            by (nonlinear_arith)
            requires
                n1 == d1 * g + n1 % d1,
                0 <= n1 % d1 < d1,
                q.exact(t - 1) <==> n1 % d1 == 0,
                (d == 2 * d1 && n1 == n) || (d == d1 && n1 == 2 * n),
        ;
        assert(d * (2 * m - 1) <= 2 * n <= d * (2 * m + 1) && ((2 * n == d * (2 * m - 1) || 2 * n
            == d * (2 * m + 1)) ==> m % 2 == 0)) by (nonlinear_arith)
            requires
                d > 0,
                d * g <= 2 * n < d * (g + 1),
                q.exact(t - 1) <==> 2 * n == d * g,
                g >= 0,
                g % 2 == 0 ==> m == g / 2,
                g % 2 == 1 && (!q.exact(t - 1) || (g / 2) % 2 == 1) ==> m == g / 2 + 1,
                g % 2 == 1 && q.exact(t - 1) && (g / 2) % 2 == 0 ==> m == g / 2,
        ;
    }

    /// A mantissa that rounding up may have filled, at an exponent below the
    /// greatest, is a value of the format in normal form with the same size.
    pub proof fn lemma_finite_parts(self, neg: bool, m: nat, t: int)
        requires
            self.wf(),
            m <= pow2(self.prec as nat),
            self.emin <= t < self.emax,
            t == self.emin || m >= pow2((self.prec - 1) as nat),
        ensures
            ({
                let r = self.finite_or_inf(neg, m, t);
                &&& r is Fin
                &&& self.holds(r)
                &&& r->Fin_neg == neg
                &&& (r->Fin_exp == t && r->Fin_mant == m) || (r->Fin_exp == t + 1 && 2
                    * r->Fin_mant == m)
            }),
    {
        self.lemma_prec_bounds();
    }

    /// A quantity that is a value of the format rounds to itself.
    pub proof fn lemma_rounded_exact(self, neg: bool, q: Quantity, m: nat, e: int)
        requires
            self.wf(),
            q.den > 0,
            self.holds(Value::Fin { neg, mant: m, exp: e }),
            q.units(e) == m,
            q.exact(e),
        ensures
            self.rounded(neg, q) == (Value::Fin { neg, mant: m, exp: e }),
    {
        self.lemma_quantum_is(q, e);
        lemma_units_refine(q, e);
    }
}

/// `2^a` is at most `2^b` where `a` is at most `b`.
pub proof fn lemma_pow2_le(a: nat, b: nat)
    requires
        a <= b,
    ensures
        pow2(a) <= pow2(b),
{
    if a < b {
        lemma_pow2_strictly_increases(a, b);
    }
}

/// `m * 2^e` holds `m` units `2^e`, exactly.
pub proof fn lemma_dyadic_units(m: nat, e: int)
    ensures
        Quantity::dyadic(m, e).units(e) == m,
        Quantity::dyadic(m, e).exact(e),
{
    let q = Quantity::dyadic(m, e);
    assert(q.numer_at(e) == m) by (nonlinear_arith)
        requires
            q.numer_at(e) == m * 1,
    ;
    assert(q.denom_at(e) == 1);
}

/// `2^k` as a machine integer.
pub(crate) fn pow2_u128(k: u32) -> (r: u128)
    requires
        k <= 126,
    ensures
        r == pow2(k as nat),
        0 < r <= 0x4000_0000_0000_0000_0000_0000_0000_0000u128,
{
    let mut r: u128 = 1;
    let mut i: u32 = 0;
    proof {
        lemma2_to64();
    }
    while i < k
        invariant
            i <= k <= 126,
            r == pow2(i as nat),
            0 < r,
            r * pow2((126 - i) as nat) == pow2(126),
        decreases k - i,
    {
        proof {
            lemma_pow2_unfold((i + 1) as nat);
            lemma_pow2_unfold((126 - i) as nat);
            lemma_pow2_pos((125 - i) as nat);
            lemma_pow2_126();
            let p = pow2((125 - i) as nat) as int;
            assert(r * (2 * p) == (2 * r) * p && (p >= 1 ==> 2 * r <= (2 * r) * p))
                by (nonlinear_arith)
                requires
                    r > 0,
            ;
        }
        r = r * 2;
        i = i + 1;
    }
    proof {
        lemma_pow2_126();
        lemma_pow2_pos((126 - i) as nat);
        let p = pow2((126 - i) as nat) as int;
        assert(r <= r * p) by (nonlinear_arith)
            requires
                r > 0,
                p >= 1,
        ;
    }
    r
}

pub proof fn lemma_pow2_126()
    ensures
        pow2(126) == 0x4000_0000_0000_0000_0000_0000_0000_0000,
{
    lemma2_to64();
    lemma_pow2_adds(64, 62);
    lemma2_to64_rest();
}

/// Rounds to `fmt` the quantity `q` of sign `neg`, of which the caller hands
/// in the count `m` of units `2^e` and whether anything is left over
/// (`sticky`). Where something is left over, `m` must have at least two bits
/// more than the format's mantissa.
pub(crate) fn round(fmt: &Format, neg: bool, m: u128, e: i64, sticky: bool, Ghost(q): Ghost<Quantity>) -> (r:
    Parts)
    requires
        fmt.wf(),
        q.den > 0,
        m == q.units(e as int),
        sticky == !q.exact(e as int),
        sticky ==> m >= pow2((fmt.prec + 1) as nat),
        -8000 <= e <= 8000,
    ensures
        r@ == fmt.rounded(neg, q),
        fmt.holds(r@),
{
    let full: u128 = pow2_u128(fmt.prec);
    let top: u128 = pow2_u128(fmt.prec + 1);
    let low: i64 = fmt.emin as i64 - 1;
    let mut m: u128 = m;
    let mut e: i64 = e;
    let mut sticky: bool = sticky;
    let ghost mut width: nat = 128;
    proof {
        lemma_pow2_unfold((fmt.prec + 1) as nat);
        lemma_pow2_unfold(fmt.prec as nat);
        lemma_pow2_pos(fmt.prec as nat);
        lemma_pow2_126();
        lemma_pow2_unfold(127);
        lemma_pow2_unfold(128);
    }
    while m >= top || e < low
        invariant
            fmt.wf(),
            q.den > 0,
            m == q.units(e as int),
            sticky == !q.exact(e as int),
            sticky ==> (m >= full || e <= low),
            m < pow2(width),
            width <= 128,
            -8000 <= e,
            e <= low || e + width <= 8128,
            low == fmt.emin - 1,
            full == pow2(fmt.prec as nat),
            full >= 1,
            top == 2 * full,
        decreases m + (if e < low { low - e } else { 0 }),
    {
        proof {
            lemma_units_step(q, e as int);
            lemma2_to64();
            if width > 0 {
                lemma_pow2_unfold(width);
                width = (width - 1) as nat;
            }
        }
        if m % 2 == 1 {
            sticky = true;
        }
        m = m / 2;
        e = e + 1;
        if m == 0 && e < low {
            // nothing is left to shift out: jump to the least unit
            proof {
                lemma_units_zero(q, e as int, low as int);
            }
            e = low;
        }
    }
    while m < full && e > low
        invariant
            fmt.wf(),
            q.den > 0,
            m == q.units(e as int),
            sticky == !q.exact(e as int),
            sticky ==> (m >= full || e <= low),
            m < top,
            low <= e <= 8200,
            low == fmt.emin - 1,
            full == pow2(fmt.prec as nat),
            top == 2 * full,
        decreases e - low,
    {
        proof {
            lemma_units_refine(q, e as int);
        }
        m = m * 2;
        e = e - 1;
    }
    let t: i64 = e + 1;
    let half: u128 = m / 2;
    let up: bool = m % 2 == 1 && (sticky || half % 2 == 1);
    let mant: u128 = if up {
        half + 1
    } else {
        half
    };
    proof {
        lemma_units_step(q, e as int);
        fmt.lemma_quantum_is(q, t as int);
        lemma2_to64();
        lemma2_to64_rest();
        lemma_pow2_strictly_increases(fmt.prec as nat, 54);
        assert(mant == nearest_even(q.units(t - 1), q.exact(t - 1)));
    }
    if mant == full {
        if t + 1 > fmt.emax as i64 {
            Parts::Inf { neg }
        } else {
            Parts::Fin { neg, mant: (full / 2) as u64, exp: (t + 1) as i32 }
        }
    } else if t > fmt.emax as i64 {
        Parts::Inf { neg }
    } else {
        Parts::Fin { neg, mant: mant as u64, exp: t as i32 }
    }
}

/// A quantity with no whole unit `2^e` has none of a larger unit, and is
/// inexact in the larger unit where it is in the smaller.
pub proof fn lemma_units_zero(q: Quantity, e: int, f: int)
    requires
        q.den > 0,
        q.units(e) == 0,
        e <= f,
    ensures
        q.units(f) == 0,
        q.exact(f) == q.exact(e),
    decreases f - e,
{
    if e < f {
        lemma_units_step(q, e);
        lemma_units_zero(q, e + 1, f);
    }
}

} // verus!
