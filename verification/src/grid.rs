//! Values on a binary grid: the whole multiples of `2^-res`. Sums and
//! differences of such values are exact, which settles what the conversions
//! do to colours whose channels lie on a grid.
use vstd::prelude::*;
use vstd::arithmetic::div_mod::*;
use vstd::arithmetic::power2::*;
use crate::arith::{
    lift, lemma_lift, lemma_dyadic_rescaled, lemma_quotient_of_zero, lemma_minimum_maximum_self,
    lemma_product_zero, lemma_zero_sums, maximum, minimum,
};
use crate::binary64::{binary64};
use crate::color::{Channels, one, two, ryb_of_rgb, rgb_of_ryb};
use crate::quantity::Quantity;
use crate::rounding::{Format, Value, lemma_pow2_le};

verus! {

/// The binary64 value `k * 2^-res`.
pub open spec fn grid(k: nat, res: nat) -> Value {
    if k == 0 {
        binary64().zero(false)
    } else {
        let l = lift(k, pow2(52));
        Value::Fin { neg: false, mant: k * pow2(l), exp: -(res as int) - l }
    }
}

/// Whether `v` is the binary64 value `k * 2^-res`.
pub open spec fn on_grid(v: Value, k: nat, res: nat) -> bool {
    &&& v is Fin
    &&& !v->Fin_neg
    &&& binary64().holds(v)
    &&& v->Fin_exp <= -(res as int)
    &&& v->Fin_mant == k * pow2((-(res as int) - v->Fin_exp) as nat)
}

pub proof fn lemma_grid_on_grid(k: nat, res: nat)
    requires
        res <= 51,
        k < pow2(53),
    ensures
        on_grid(grid(k, res), k, res),
{
    lemma2_to64_rest();
    if k == 0 {
        assert(0 * pow2((1074 - res) as nat) == 0) by (nonlinear_arith);
    } else {
        lemma_lift(k, pow2(52));
        let l = lift(k, pow2(52));
        if l >= 53 {
            lemma_pow2_le(53, l);
            assert(k * pow2(l) >= pow2(l)) by (nonlinear_arith)
                requires
                    k >= 1,
                    pow2(l) >= 0,
            ;
        }
    }
}

/// One is `2^res` steps of the grid.
pub proof fn lemma_one_on_grid(res: nat)
    requires
        res <= 51,
    ensures
        on_grid(one(), pow2(res), res),
{
    lemma2_to64_rest();
    lemma_pow2_adds(res, (52 - res) as nat);
}

/// The quantity `s * 2^n * 2^e`, with `n + e` equal to `-res`, is a value:
/// rounding gives `s` steps of the grid.
proof fn lemma_rounded_multiple(s: nat, n: nat, e: int, res: nat)
    requires
        0 < s < pow2(53),
        res <= 51,
        n + e == -(res as int),
    ensures
        binary64().rounded(false, Quantity::dyadic(s * pow2(n), e)) == grid(s, res),
{
    let f = binary64();
    lemma2_to64_rest();
    lemma_grid_on_grid(s, res);
    let l = lift(s, pow2(52));
    let m = s * pow2(l);
    let t = -(res as int) - l;
    if l <= n {
        let k = (n - l) as nat;
        lemma_dyadic_rescaled(m, t, k);
        lemma_pow2_adds(l, k);
        assert(m * pow2(k) == s * pow2(n)) by (nonlinear_arith)
            requires
                m == s * pow2(l),
                pow2(n) == pow2(l) * pow2(k),
        ;
    } else {
        let k = (l - n) as nat;
        lemma_dyadic_rescaled(s * pow2(n), e, k);
        lemma_pow2_adds(n, k);
        assert(s * pow2(n) * pow2(k) == m) by (nonlinear_arith)
            requires
                m == s * pow2(l),
                pow2(l) == pow2(n) * pow2(k),
        ;
    }
    f.lemma_rounded_exact(false, Quantity::dyadic(s * pow2(n), e), m, t);
}

/// The mantissa of a grid value, shifted to the smaller exponent `e` of two,
/// is its number of steps times `2^(-res - e)`.
proof fn lemma_grid_aligned(v: Value, k: nat, res: nat, e: int)
    requires
        on_grid(v, k, res),
        e <= v->Fin_exp,
    ensures
        v->Fin_mant * pow2((v->Fin_exp - e) as nat) == k * pow2((-(res as int) - e) as nat),
{
    let up = (-(res as int) - v->Fin_exp) as nat;
    let by = (v->Fin_exp - e) as nat;
    lemma_pow2_adds(up, by);
    assert(k * pow2(up) * pow2(by) == k * pow2(up + by)) by (nonlinear_arith)
        requires
            pow2(up + by) == pow2(up) * pow2(by),
    ;
}

/// The sum of two grid values is the grid value of the sum of their steps.
pub proof fn lemma_grid_sum(a: Value, ka: nat, b: Value, kb: nat, res: nat)
    requires
        on_grid(a, ka, res),
        on_grid(b, kb, res),
        res <= 51,
        ka + kb < pow2(53),
    ensures
        binary64().sum(a, b) == grid(ka + kb, res),
{
    reveal(Format::sum);
    let e = if a->Fin_exp <= b->Fin_exp {
        a->Fin_exp
    } else {
        b->Fin_exp
    };
    let n = (-(res as int) - e) as nat;
    lemma_grid_aligned(a, ka, res, e);
    lemma_grid_aligned(b, kb, res, e);
    lemma_pow2_pos(n);
    let x = ka * pow2(n) + kb * pow2(n);
    assert(x == (ka + kb) * pow2(n) && (ka + kb > 0 ==> x > 0) && (ka + kb == 0 ==> x == 0))
        by (nonlinear_arith)
        requires
            x == ka * pow2(n) + kb * pow2(n),
            pow2(n) > 0,
    ;
    if ka + kb > 0 {
        lemma_rounded_multiple(ka + kb, n, e, res);
    }
}

/// The difference of two grid values, the larger first, is the grid value
/// of the difference of their steps.
pub proof fn lemma_grid_difference(a: Value, ka: nat, b: Value, kb: nat, res: nat)
    requires
        on_grid(a, ka, res),
        on_grid(b, kb, res),
        res <= 51,
        kb <= ka,
    ensures
        binary64().difference(a, b) == grid((ka - kb) as nat, res),
{
    reveal(Format::sum);
    lemma2_to64_rest();
    let e = if a->Fin_exp <= b->Fin_exp {
        a->Fin_exp
    } else {
        b->Fin_exp
    };
    let n = (-(res as int) - e) as nat;
    lemma_grid_aligned(a, ka, res, e);
    lemma_grid_aligned(b, kb, res, e);
    lemma_pow2_pos(n);
    let x = ka * pow2(n) - kb * pow2(n);
    assert(x == (ka - kb) * pow2(n) && (ka > kb ==> x > 0) && (ka == kb ==> x == 0))
        by (nonlinear_arith)
        requires
            x == ka * pow2(n) - kb * pow2(n),
            pow2(n) > 0,
            kb <= ka,
    ;
    // the steps of a value are no more than its mantissa
    let up = (-(res as int) - a->Fin_exp) as nat;
    lemma_pow2_pos(up);
    assert(ka <= ka * pow2(up)) by (nonlinear_arith)
        requires
            pow2(up) >= 1,
    ;
    if ka > kb {
        lemma_rounded_multiple((ka - kb) as nat, n, e, res);
    }
}

/// One grid value lies below another where it has fewer steps.
pub proof fn lemma_grid_below(a: Value, ka: nat, b: Value, kb: nat, res: nat)
    requires
        on_grid(a, ka, res),
        on_grid(b, kb, res),
    ensures
        a.below(b) == (ka < kb),
{
    reveal(Value::below);
    let e = if a->Fin_exp <= b->Fin_exp {
        a->Fin_exp
    } else {
        b->Fin_exp
    };
    let n = (-(res as int) - e) as nat;
    lemma_grid_aligned(a, ka, res, e);
    lemma_grid_aligned(b, kb, res, e);
    lemma_pow2_pos(n);
    assert((ka * pow2(n) < kb * pow2(n)) == (ka < kb)) by (nonlinear_arith)
        requires
            pow2(n) > 0,
    ;
}

/// A value other than zero, divided by itself, is one.
pub proof fn lemma_quotient_self(v: Value)
    requires
        v is Fin,
        binary64().holds(v),
        v->Fin_mant > 0,
    ensures
        binary64().quotient(v, v) == one(),
{
    let f = binary64();
    reveal(Format::quotient);
    lemma2_to64_rest();
    let m = v->Fin_mant;
    let q = Quantity { num: m, den: m, exp: 0 };
    assert(q.numer_at(-52) == m * pow2(52));
    assert(q.denom_at(-52) == m) by (nonlinear_arith)
        requires
            q.denom_at(-52) == m * 1,
    ;
    lemma_fundamental_div_mod_converse((m * pow2(52)) as int, m as int, pow2(52) as int, 0);
    f.lemma_rounded_exact(false, q, pow2(52), -52);
}

/// A value that is not negative, divided by one, is itself.
pub proof fn lemma_quotient_by_one(v: Value)
    requires
        v is Fin,
        !v->Fin_neg,
        binary64().holds(v),
    ensures
        binary64().quotient(v, one()) == v,
{
    let f = binary64();
    reveal(Format::quotient);
    lemma2_to64_rest();
    let m = v->Fin_mant;
    let e = v->Fin_exp;
    if m == 0 {
        lemma_quotient_of_zero(f, one());
    } else {
        let q = Quantity { num: m, den: pow2(52), exp: e + 52 };
        assert(q.numer_at(e) == m * pow2(52));
        assert(q.denom_at(e) == pow2(52)) by (nonlinear_arith)
            requires
                q.denom_at(e) == pow2(52) * 1,
        ;
        lemma_fundamental_div_mod_converse((m * pow2(52)) as int, pow2(52) as int, m as int, 0);
        f.lemma_rounded_exact(false, q, m, e);
    }
}

/// The colour with `hi` steps in its first channel and `lo` steps in the
/// other two.
pub open spec fn reddish(hi: nat, lo: nat, res: nat) -> Channels {
    Channels { first: grid(hi, res), second: grid(lo, res), third: grid(lo, res) }
}

/// What both transforms need of the channels of a reddish colour on a grid:
/// the white is the lower channel, the black is what the higher channel
/// lacks to one, and the difference of the two is all that is left.
proof fn lemma_reddish_parts(hi: nat, lo: nat, res: nat)
    requires
        res <= 51,
        lo < hi <= pow2(res),
    ensures
        minimum(minimum(grid(hi, res), grid(lo, res)), grid(lo, res)) == grid(lo, res),
        binary64().difference(grid(hi, res), grid(lo, res)) == grid((hi - lo) as nat, res),
        binary64().difference(grid(lo, res), grid(lo, res)) == grid(0, res),
        binary64().difference(one(), grid(hi, res)) == grid((pow2(res) - hi) as nat, res),
        binary64().difference(one(), grid(lo, res)) == grid((pow2(res) - lo) as nat, res),
        binary64().difference(one(), grid(0, res)) == grid(pow2(res), res),
        binary64().quotient(grid((hi - lo) as nat, res), grid((hi - lo) as nat, res)) == one(),
        binary64().quotient(grid((hi - lo) as nat, res), one()) == grid((hi - lo) as nat, res),
        binary64().quotient(grid(0, res), one()) == grid(0, res),
        binary64().sum(grid((hi - lo) as nat, res), grid((pow2(res) - hi) as nat, res)) == grid(
            (pow2(res) - lo) as nat,
            res,
        ),
        binary64().sum(grid(0, res), grid((pow2(res) - hi) as nat, res)) == grid(
            (pow2(res) - hi) as nat,
            res,
        ),
{
    let f = binary64();
    let top = pow2(res);
    let d = (hi - lo) as nat;
    lemma2_to64_rest();
    lemma_pow2_le(res, 51);
    lemma_grid_on_grid(hi, res);
    lemma_grid_on_grid(lo, res);
    lemma_grid_on_grid(0, res);
    lemma_grid_on_grid(d, res);
    lemma_grid_on_grid((top - hi) as nat, res);
    lemma_one_on_grid(res);
    reveal(minimum);
    lemma_grid_below(grid(lo, res), lo, grid(hi, res), hi, res);
    lemma_minimum_maximum_self(grid(lo, res));
    lemma_grid_difference(grid(hi, res), hi, grid(lo, res), lo, res);
    lemma_grid_difference(grid(lo, res), lo, grid(lo, res), lo, res);
    lemma_grid_difference(one(), top, grid(hi, res), hi, res);
    lemma_grid_difference(one(), top, grid(lo, res), lo, res);
    lemma_grid_difference(one(), top, grid(0, res), 0, res);
    lemma_lift(d, pow2(52));
    lemma_quotient_self(grid(d, res));
    lemma_quotient_by_one(grid(d, res));
    lemma_quotient_by_one(grid(0, res));
    lemma_grid_sum(grid(d, res), d, grid((top - hi) as nat, res), (top - hi) as nat, res);
    lemma_grid_sum(grid(0, res), 0, grid((top - hi) as nat, res), (top - hi) as nat, res);
}

/// How the grid values that the transforms meet compare: zero is the
/// smaller beside the difference of the channels, and the black of the
/// higher channel is the smallest black.
proof fn lemma_reddish_order(hi: nat, lo: nat, res: nat)
    requires
        res <= 51,
        lo < hi <= pow2(res),
    ensures
        minimum(grid((hi - lo) as nat, res), grid(0, res)) == grid(0, res),
        minimum(grid(0, res), grid(0, res)) == grid(0, res),
        maximum(maximum(grid((hi - lo) as nat, res), grid(0, res)), grid(0, res)) == grid(
            (hi - lo) as nat,
            res,
        ),
        minimum(
            minimum(grid((pow2(res) - hi) as nat, res), grid((pow2(res) - lo) as nat, res)),
            grid((pow2(res) - lo) as nat, res),
        ) == grid((pow2(res) - hi) as nat, res),
        minimum(
            minimum(grid((pow2(res) - hi) as nat, res), grid((pow2(res) - lo) as nat, res)),
            grid(pow2(res), res),
        ) == grid((pow2(res) - hi) as nat, res),
{
    let top = pow2(res);
    let d = (hi - lo) as nat;
    let bh = (top - hi) as nat;
    let bl = (top - lo) as nat;
    lemma2_to64_rest();
    lemma_pow2_le(res, 51);
    lemma_grid_on_grid(0, res);
    lemma_grid_on_grid(d, res);
    lemma_grid_on_grid(bh, res);
    lemma_grid_on_grid(bl, res);
    lemma_grid_on_grid(top, res);
    reveal(minimum);
    reveal(maximum);
    lemma_grid_below(grid(0, res), 0, grid(d, res), d, res);
    lemma_grid_below(grid(d, res), d, grid(0, res), 0, res);
    lemma_grid_below(grid(0, res), 0, grid(0, res), 0, res);
    lemma_grid_below(grid(bl, res), bl, grid(bh, res), bh, res);
    lemma_grid_below(grid(top, res), top, grid(bh, res), bh, res);
}

/// Both transforms take a reddish colour on a grid, whose first channel is
/// the larger and whose other two are equal, to the reddish colour with the
/// channels taken from one and exchanged. Every step is exact.
pub proof fn lemma_reddish_converted(hi: nat, lo: nat, res: nat)
    requires
        res <= 51,
        lo < hi <= pow2(res),
    ensures
        ryb_of_rgb(reddish(hi, lo, res)) == reddish(
            (pow2(res) - lo) as nat,
            (pow2(res) - hi) as nat,
            res,
        ),
        rgb_of_ryb(reddish(hi, lo, res)) == reddish(
            (pow2(res) - lo) as nat,
            (pow2(res) - hi) as nat,
            res,
        ),
{
    let f = binary64();
    lemma_reddish_parts(hi, lo, res);
    lemma_reddish_order(hi, lo, res);
    lemma2_to64_rest();
    lemma_pow2_le(res, 51);
    lemma_zero_sums(f);
    lemma_quotient_of_zero(f, two());
    lemma_product_zero(f, two());
    lemma_grid_on_grid((hi - lo) as nat, res);
    lemma_grid_on_grid(0, res);
    lemma_grid_sum(grid((hi - lo) as nat, res), (hi - lo) as nat, grid(0, res), 0, res);
    lemma_grid_difference(grid((hi - lo) as nat, res), (hi - lo) as nat, grid(0, res), 0, res);
}

/// A reddish colour on a grid comes back from either transform followed by
/// the other as it was.
pub proof fn lemma_reddish_comes_back(hi: nat, lo: nat, res: nat)
    requires
        res <= 51,
        lo < hi <= pow2(res),
    ensures
        rgb_of_ryb(ryb_of_rgb(reddish(hi, lo, res))) == reddish(hi, lo, res),
        ryb_of_rgb(rgb_of_ryb(reddish(hi, lo, res))) == reddish(hi, lo, res),
{
    lemma_reddish_converted(hi, lo, res);
    lemma_reddish_converted((pow2(res) - lo) as nat, (pow2(res) - hi) as nat, res);
}

} // verus!
