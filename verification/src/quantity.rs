//! Exact non-negative quantities and how many binary units they hold.
use vstd::prelude::*;
use vstd::arithmetic::div_mod::*;
use vstd::arithmetic::power2::*;

verus! {

/// The non-negative quantity `num / den * 2^exp`, held exactly.
pub struct Quantity {
    pub num: nat,
    pub den: nat,
    pub exp: int,
}

/// `2^k` where `k` is positive, and 1 where it is not.
pub open spec fn pow2_or_one(k: int) -> nat {
    if k > 0 {
        pow2(k as nat)
    } else {
        1
    }
}

impl Quantity {
    /// The quantity `m * 2^e`.
    pub open spec fn dyadic(m: nat, e: int) -> Quantity {
        Quantity { num: m, den: 1, exp: e }
    }

    /// Numerator of the quantity counted in units of `2^e`.
    pub open spec fn numer_at(self, e: int) -> nat {
        self.num * pow2_or_one(self.exp - e)
    }

    /// Denominator of the quantity counted in units of `2^e`.
    pub open spec fn denom_at(self, e: int) -> nat {
        self.den * pow2_or_one(e - self.exp)
    }

    /// The number of whole units `2^e` in the quantity: `floor(q / 2^e)`.
    pub open spec fn units(self, e: int) -> nat {
        (self.numer_at(e) / self.denom_at(e)) as nat
    }

    /// Whether the quantity is a whole number of units `2^e`.
    pub open spec fn exact(self, e: int) -> bool {
        self.numer_at(e) % self.denom_at(e) == 0
    }
}

proof fn lemma_pow2_or_one_step(k: int)
    requires
        k >= 0,
    ensures
        pow2_or_one(k + 1) == 2 * pow2_or_one(k),
        pow2_or_one(k) > 0,
{
    lemma_pow2_unfold((k + 1) as nat);
    lemma_pow2_pos(k as nat);
    lemma2_to64();
}

/// Doubling the unit halves the count, rounding down; the count in the larger
/// unit is exact when the count in the smaller one is exact and even.
pub proof fn lemma_units_step(q: Quantity, e: int)
    requires
        q.den > 0,
    ensures
        q.units(e + 1) == q.units(e) / 2,
        q.exact(e + 1) <==> (q.exact(e) && q.units(e) % 2 == 0),
{
    let x = q.numer_at(e) as int;
    let d = q.denom_at(e) as int;
    if e >= q.exp {
        let p = pow2_or_one(e - q.exp) as int;
        lemma_pow2_or_one_step(e - q.exp);
        assert(d > 0) by (nonlinear_arith)
            requires
                d == q.den * p,
                q.den > 0,
                p > 0,
        ;
        assert(q.denom_at(e + 1) == d * 2) by (nonlinear_arith)
            requires
                d == q.den * p,
                q.denom_at(e + 1) == q.den * (2 * p),
        ;
        assert(q.numer_at(e + 1) == x);
        lemma_div_denominator(x, d, 2);
        lemma_breakdown(x, d, 2);
        assert(d * ((x / d) % 2) == 0 <==> (x / d) % 2 == 0) by (nonlinear_arith)
            requires
                d > 0,
                0 <= (x / d) % 2 < 2,
        ;
    } else {
        let p = pow2_or_one(q.exp - e - 1) as int;
        lemma_pow2_or_one_step(q.exp - e - 1);
        let y = q.numer_at(e + 1) as int;
        assert(d == q.den) by (nonlinear_arith)
            requires
                d == q.den * 1,
        ;
        assert(q.denom_at(e + 1) == d) by (nonlinear_arith)
            requires
                q.denom_at(e + 1) == q.den * 1,
                d == q.den,
        ;
        assert(x == 2 * y) by (nonlinear_arith)
            requires
                x == q.num * (2 * p),
                y == q.num * p,
        ;
        lemma_div_denominator(x, d, 2);
        lemma_div_multiples_vanish_quotient(2, y, d);
        assert(d * 2 == 2 * d);
        lemma_breakdown(x, d, 2);
        lemma_truncate_middle(y, 2, d);
        assert(d * ((x / d) % 2) == 0 <==> (x / d) % 2 == 0) by (nonlinear_arith)
            requires
                d > 0,
                0 <= (x / d) % 2 < 2,
        ;
    }
}

/// A count that is exact stays exact, and doubles, when the unit is halved.
pub proof fn lemma_units_refine(q: Quantity, e: int)
    requires
        q.den > 0,
        q.exact(e),
    ensures
        q.exact(e - 1),
        q.units(e - 1) == 2 * q.units(e),
{
    lemma_units_step(q, e - 1);
}

/// A count is at least `2^k` times the count in units `2^k` times as large.
pub proof fn lemma_units_coarser(q: Quantity, e: int, k: nat)
    requires
        q.den > 0,
    ensures
        q.units(e) >= pow2(k) * q.units(e + k),
    decreases k,
{
    lemma2_to64();
    if k > 0 {
        lemma_units_coarser(q, e, (k - 1) as nat);
        lemma_units_step(q, e + k - 1);
        lemma_pow2_unfold(k);
        let a = q.units(e + k - 1) as int;
        let b = q.units(e + k) as int;
        let p = pow2((k - 1) as nat) as int;
        assert(pow2(k) * b <= p * a) by (nonlinear_arith)
            requires
                pow2(k) == 2 * p,
                2 * b <= a,
                p >= 0,
        ;
    } else {
        assert(pow2(0) * q.units(e) == q.units(e)) by (nonlinear_arith)
            requires
                pow2(0) == 1,
        ;
    }
}

/// A count is less than `2^k` times the next count in units `2^k` times as
/// large.
pub proof fn lemma_units_finer(q: Quantity, e: int, k: nat)
    requires
        q.den > 0,
    ensures
        q.units(e) < pow2(k) * (q.units(e + k) + 1),
    decreases k,
{
    lemma2_to64();
    if k > 0 {
        lemma_units_finer(q, e, (k - 1) as nat);
        lemma_units_step(q, e + k - 1);
        lemma_pow2_unfold(k);
        let a = q.units(e + k - 1) as int;
        let b = q.units(e + k) as int;
        let p = pow2((k - 1) as nat) as int;
        assert(p * (a + 1) <= pow2(k) * (b + 1)) by (nonlinear_arith)
            requires
                pow2(k) == 2 * p,
                a + 1 <= 2 * (b + 1),
                p >= 0,
        ;
    } else {
        assert(pow2(0) * (q.units(e) + 1) == q.units(e) + 1) by (nonlinear_arith)
            requires
                pow2(0) == 1,
        ;
    }
}

} // verus!
