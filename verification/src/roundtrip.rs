//! How close a whole-number component comes back to itself after it has been
//! normalized and stored again.
use vstd::prelude::*;
use vstd::arithmetic::div_mod::*;
use vstd::arithmetic::power2::*;
use crate::arith::{
    lift, lemma_lift, lemma_dyadic_rescaled, lemma_quotient_of_zero, lemma_rounded_zero, truncated,
};
use crate::binary64::{binary64};
use crate::component::{Component, fraction_of, scaled_to};
use crate::quantity::{Quantity, lemma_units_coarser, lemma_units_finer};
use crate::rounding::{Format, Value, lemma_dyadic_units, lemma_pow2_le, nearest_even};

verus! {

/// A whole number with at most `prec` bits is a value of the format: its
/// mantissa is the number shifted up to fill the mantissa.
pub proof fn lemma_of_nat_exact(f: Format, v: nat)
    requires
        f.wf(),
        0 < v < pow2(f.prec as nat),
        f.emin + f.prec <= 1,
        0 <= f.emax,
    ensures
        ({
            let k = lift(v, pow2((f.prec - 1) as nat));
            &&& f.of_nat(v) == (Value::Fin { neg: false, mant: v * pow2(k), exp: -(k as int) })
            &&& k < f.prec
            &&& pow2((f.prec - 1) as nat) <= v * pow2(k) < pow2(f.prec as nat)
        }),
{
    f.lemma_prec_bounds();
    let top = pow2((f.prec - 1) as nat);
    lemma_lift(v, top);
    let k = lift(v, top);
    if k >= f.prec {
        lemma_pow2_le(f.prec as nat, k);
        assert(v * pow2(k) >= pow2(k)) by (nonlinear_arith)
            requires
                v >= 1,
                pow2(k) >= 0,
        ;
    }
    lemma_dyadic_rescaled(v, 0, k);
    f.lemma_rounded_exact(false, Quantity::dyadic(v, 0), v * pow2(k), -(k as int));
}

/// The quotient of two positive binary64 values with full mantissas `a` and
/// `b` is finite, and its mantissa `m`, counted at the exponent
/// `ea - eb - s`, is within one of `a * 2^s / b`. Here `s` is 52 where `a` is
/// at least `b`, and 53 where it is less.
proof fn lemma_quotient_bracket(a: nat, ea: int, b: nat, eb: int)
    requires
        pow2(52) <= a < pow2(53),
        pow2(52) <= b < pow2(53),
        -200 <= ea <= 200,
        -200 <= eb <= 200,
    ensures
        ({
            let f = binary64();
            let s: nat = if a >= b {
                52
            } else {
                53
            };
            let t = ea - eb - s;
            let y = f.quotient(
                Value::Fin { neg: false, mant: a, exp: ea },
                Value::Fin { neg: false, mant: b, exp: eb },
            );
            let m = if y->Fin_exp == t {
                y->Fin_mant
            } else {
                2 * y->Fin_mant
            };
            &&& y is Fin
            &&& f.holds(y)
            &&& !y->Fin_neg
            &&& t <= y->Fin_exp <= t + 1
            &&& a * pow2(s) - b < b * m <= a * pow2(s) + b
        }),
{
    let f = binary64();
    let s: nat = if a >= b {
        52
    } else {
        53
    };
    let t = ea - eb - s;
    let q = Quantity { num: a, den: b, exp: ea - eb };
    reveal(Format::quotient);
    lemma2_to64_rest();
    lemma_pow2_pos(s);
    let x = (a * pow2(s)) as int;
    assert(q.numer_at(t) == x);
    assert(q.denom_at(t) == b) by (nonlinear_arith)
        requires
            q.denom_at(t) == b * 1,
    ;
    let m1 = x / (b as int);
    // the count at this exponent fills the mantissa
    assert(b * pow2(52) <= x && x < b * pow2(53)) by (nonlinear_arith)
        requires
            x == a * pow2(s),
            pow2(53) == 2 * pow2(52),
            pow2(52) > 0,
            a >= b ==> s == 52,
            a < b ==> s == 53,
            s == 52 || s == 53,
            pow2(52) <= a < pow2(53),
            pow2(52) <= b < pow2(53),
    ;
    lemma_div_is_ordered((b * pow2(52)) as int, x, b as int);
    lemma_div_multiples_vanish(pow2(52) as int, b as int);
    lemma_multiply_divide_lt(x, b as int, pow2(53) as int);
    lemma_fundamental_div_mod(x, b as int);
    lemma_mod_bound(x, b as int);
    assert(f.is_quantum(q, t));
    f.lemma_rounded_bracket(false, q, t);
    let up = nearest_even(q.units(t - 1), q.exact(t - 1));
    f.lemma_finite_parts(false, up, t);
    assert(b * up == b * m1 || b * up == b * m1 + b) by (nonlinear_arith)
        requires
            up == m1 || up == m1 + 1,
    ;
}

proof fn lemma_pow2_72()
    ensures
        pow2(72) == 0x100_0000_0000_0000_0000,
{
    lemma2_to64();
    lemma_pow2_adds(64, 8);
}

/// Where the exact product of two positive binary64 values is within `b` of
/// the whole number `v`, counted in units `2^ef` fine enough, the product
/// rounded and cut to a whole number is `v` or one less.
proof fn lemma_product_truncated(my: nat, ty: int, b: nat, eb: int, v: nat, ef: int, max: nat)
    requires
        binary64().holds(Value::Fin { neg: false, mant: my, exp: ty }),
        binary64().holds(Value::Fin { neg: false, mant: b, exp: eb }),
        ty + eb - 1 <= ef <= ty + eb,
        -200 <= ef <= -72,
        1 <= v < 0x1_0000_0000,
        v <= max,
        v * pow2((-ef) as nat) - b < my * b * pow2((ty + eb - ef) as nat) <= v * pow2(
            (-ef) as nat,
        ) + b,
    ensures
        v - 1 <= truncated(
            binary64().product(
                Value::Fin { neg: false, mant: my, exp: ty },
                Value::Fin { neg: false, mant: b, exp: eb },
            ),
            max,
        ) <= v,
{
    let f = binary64();
    let p = Quantity::dyadic(my * b, ty + eb);
    let w = pow2((-ef) as nat) as int;
    let fine = (my * b * pow2((ty + eb - ef) as nat)) as int;
    reveal(Format::product);
    reveal(truncated);
    lemma2_to64();
    lemma2_to64_rest();
    lemma_pow2_72();
    lemma_pow2_le(72, (-ef) as nat);
    lemma_dyadic_rescaled(my * b, ty + eb, (ty + eb - ef) as nat);
    assert(p.units(ef) == fine);
    assert(fine > 0x20_0000_0000_0000) by (nonlinear_arith)
        requires
            fine > v * w - b,
            v >= 1,
            w >= 0x100_0000_0000_0000_0000,
            b < 0x20_0000_0000_0000,
    ;
    f.lemma_quantum_exists(p);
    let t = f.quantum(p);
    let m = p.units(t) as int;
    if t <= ef {
        lemma_units_coarser(p, t, (ef - t) as nat);
        lemma_pow2_pos((ef - t) as nat);
        assert(pow2((ef - t) as nat) * fine >= fine) by (nonlinear_arith)
            requires
                pow2((ef - t) as nat) >= 1,
                fine >= 0,
        ;
    }
    assert(t > ef);
    let d = pow2((t - ef) as nat) as int;
    lemma_pow2_pos((t - ef) as nat);
    lemma_units_coarser(p, ef, (t - ef) as nat);
    lemma_units_finer(p, ef, (t - ef) as nat);
    assert(d * m <= fine < d * (m + 1));
    // the spacing of the product is at most 2^-20
    assert(d * 0x8_0000 < w) by (nonlinear_arith)
        requires
            d * m <= fine,
            fine <= v * w + b,
            v < 0x1_0000_0000,
            b < 0x20_0000_0000_0000,
            w >= 0x100_0000_0000_0000_0000,
            m >= 0x10_0000_0000_0000,
            d >= 0,
    ;
    if t - ef + 19 >= -ef {
        lemma_pow2_le((-ef) as nat, (t - ef + 19) as nat);
        lemma_pow2_adds((t - ef) as nat, 19);
    }
    assert(t <= -20);
    lemma_pow2_adds((t - ef) as nat, 20);
    lemma_pow2_le((t - ef + 20) as nat, (-ef) as nat);
    assert(d * 0x10_0000 <= w);
    f.lemma_rounded_bracket(false, p, t);
    let up = nearest_even(p.units(t - 1), p.exact(t - 1));
    f.lemma_finite_parts(false, up, t);
    let z = f.rounded(false, p);
    let mz = z->Fin_mant;
    let tz = z->Fin_exp;
    let whole = Quantity::dyadic(mz, tz).units(0) as int;
    // the rounded product in fine units lies strictly between v - 1 and v + 1
    let zf = (up * d) as int;
    assert((v - 1) * w < zf < (v + 1) * w) by (nonlinear_arith)
        requires
            zf == up * d,
            up == m || up == m + 1,
            d * m <= fine < d * (m + 1),
            v * w - b < fine <= v * w + b,
            d * 0x10_0000 <= w,
            b < 0x20_0000_0000_0000,
            w >= 0x100_0000_0000_0000_0000,
            d > 0,
    ;
    // cutting it to a whole number divides by one in fine units
    let g = pow2((-tz) as nat) as int;
    let h = pow2((tz - ef) as nat) as int;
    lemma_pow2_pos((-tz) as nat);
    lemma_pow2_pos((tz - ef) as nat);
    lemma_pow2_adds((-tz) as nat, (tz - ef) as nat);
    assert(w == g * h);
    if tz == t {
        assert(zf == mz * h);
    } else {
        lemma_pow2_unfold((tz - ef) as nat);
        assert(zf == mz * h) by (nonlinear_arith)
            requires
                zf == up * d,
                up == 2 * mz,
                h == 2 * d,
        ;
    }
    assert(Quantity::dyadic(mz, tz).numer_at(0) == mz) by (nonlinear_arith)
        requires
            Quantity::dyadic(mz, tz).numer_at(0) == mz * 1,
    ;
    assert(Quantity::dyadic(mz, tz).denom_at(0) == g);
    assert(whole == mz as int / g);
    lemma_div_multiples_vanish_quotient(h, mz as int, g);
    assert(h * mz == zf && h * g == w) by (nonlinear_arith)
        requires
            zf == mz * h,
            w == g * h,
    ;
    assert(whole == zf / w);
    lemma_div_is_ordered((v - 1) * w, zf, w);
    lemma_div_multiples_vanish(v - 1, w);
    assert(((v - 1) * w) / w == v - 1) by (nonlinear_arith)
        requires
            (w * (v - 1)) / w == v - 1,
    ;
    assert(zf < w * (v + 1)) by (nonlinear_arith)
        requires
            zf < (v + 1) * w,
    ;
    lemma_multiply_divide_lt(zf, w, (v + 1) as int);
}

/// A whole number `v` on a scale from 0 to `max`, with `max` below `2^32`,
/// that is normalized and stored again comes back as `v` or as `v - 1`.
pub proof fn lemma_whole_comes_back(v: nat, max: nat)
    requires
        0 < max <= 0xffff_ffff,
        v <= max,
    ensures
        v - 1 <= scaled_to(fraction_of(v, max), max) <= v,
{
    let f = binary64();
    lemma2_to64();
    lemma2_to64_rest();
    lemma_of_nat_exact(f, max);
    let j = lift(max, pow2(52));
    let b = max * pow2(j);
    let big = Value::Fin { neg: false, mant: b, exp: -(j as int) };
    if v == 0 {
        reveal(Format::product);
        reveal(truncated);
        lemma_rounded_zero(f, false, Quantity::dyadic(0, 0));
        lemma_quotient_of_zero(f, big);
        assert(0 * b == 0) by (nonlinear_arith);
        lemma_rounded_zero(f, false, Quantity::dyadic(0, f.emin - j));
        let o = Quantity::dyadic(0, f.emin as int);
        assert(o.numer_at(0) == 0) by (nonlinear_arith)
            requires
                o.numer_at(0) == 0 * 1,
        ;
        lemma_pow2_pos(1074);
        lemma_basic_div(0, o.denom_at(0) as int);
    } else {
        lemma_of_nat_exact(f, v);
        let k = lift(v, pow2(52));
        let a = v * pow2(k);
        if k <= 20 {
            lemma_pow2_le(k, 20);
            assert(v * pow2(k) < 0x1_0000_0000 * 0x10_0000) by (nonlinear_arith)
                requires
                    v < 0x1_0000_0000,
                    pow2(k) <= 0x10_0000,
            ;
        }
        let s: nat = if a >= b {
            52
        } else {
            53
        };
        let t = j - k - s;
        lemma_quotient_bracket(a, -(k as int), b, -(j as int));
        let y = fraction_of(v, max);
        let my = y->Fin_mant;
        let ty = y->Fin_exp;
        let ef = -(k as int) - s;
        lemma_pow2_adds(k, s);
        assert(v * pow2((-ef) as nat) == a * pow2(s)) by (nonlinear_arith)
            requires
                pow2((-ef) as nat) == pow2(k) * pow2(s),
                a == v * pow2(k),
        ;
        if ty == t {
            assert(my * b * pow2(0) == b * my) by (nonlinear_arith)
                requires
                    pow2(0) == 1,
            ;
        } else {
            assert(my * b * pow2(1) == b * (2 * my)) by (nonlinear_arith)
                requires
                    pow2(1) == 2,
            ;
        }
        lemma_product_truncated(my, ty, b, -(j as int), v, ef, max);
    }
}

/// An 8-bit component comes back within one.
pub proof fn lemma_u8_comes_back(v: u8, c: u8)
    requires
        u8::stored_as(v.normalized(), c),
    ensures
        v - 1 <= c <= v,
{
    lemma_whole_comes_back(v as nat, u8::MAX as nat);
}

/// A 16-bit component comes back within one.
pub proof fn lemma_u16_comes_back(v: u16, c: u16)
    requires
        u16::stored_as(v.normalized(), c),
    ensures
        v - 1 <= c <= v,
{
    lemma_whole_comes_back(v as nat, u16::MAX as nat);
}

/// A 32-bit component comes back within one.
pub proof fn lemma_u32_comes_back(v: u32, c: u32)
    requires
        u32::stored_as(v.normalized(), c),
    ensures
        v - 1 <= c <= v,
{
    lemma_whole_comes_back(v as nat, u32::MAX as nat);
}

/// The greatest 64-bit whole number rounds up to `2^64`.
proof fn lemma_of_nat_widest()
    ensures
        binary64().of_nat(u64::MAX as nat) == (Value::Fin {
            neg: false,
            mant: 0x10_0000_0000_0000,
            exp: 12,
        }),
{
    let f = binary64();
    let q = Quantity::dyadic(u64::MAX as nat, 0);
    lemma2_to64();
    lemma2_to64_rest();
    assert(q.numer_at(11) == u64::MAX && q.numer_at(10) == u64::MAX) by (nonlinear_arith)
        requires
            q.numer_at(11) == u64::MAX * 1,
            q.numer_at(10) == u64::MAX * 1,
    ;
    assert(q.denom_at(11) == 2048 && q.denom_at(10) == 1024);
    assert(q.units(11) == 0x1f_ffff_ffff_ffff);
    assert(q.units(10) == 0x3f_ffff_ffff_ffff);
    assert(f.is_quantum(q, 11));
    f.lemma_quantum_is(q, 11);
}

/// Dividing a positive value with a full mantissa by `2^64`, and multiplying
/// the quotient by `2^64`, gives the value back: both steps are exact.
proof fn lemma_scale_by_widest(a: nat, e: int)
    requires
        pow2(52) <= a < pow2(53),
        -200 <= e <= 200,
    ensures
        ({
            let f = binary64();
            let v = Value::Fin { neg: false, mant: a, exp: e };
            let w = Value::Fin { neg: false, mant: 0x10_0000_0000_0000, exp: 12 };
            f.product(f.quotient(v, w), w) == v
        }),
{
    let f = binary64();
    reveal(Format::quotient);
    reveal(Format::product);
    lemma2_to64();
    lemma2_to64_rest();
    let h = pow2(52);
    let q = Quantity { num: a, den: h, exp: e - 12 };
    assert(q.numer_at(e - 64) == a * h);
    assert(q.denom_at(e - 64) == h) by (nonlinear_arith)
        requires
            q.denom_at(e - 64) == h * 1,
    ;
    lemma_fundamental_div_mod_converse((a * h) as int, h as int, a as int, 0);
    f.lemma_rounded_exact(false, q, a, e - 64);
    lemma_dyadic_rescaled(a, e, 52);
    f.lemma_rounded_exact(false, Quantity::dyadic(a * h, e - 64 + 12), a, e);
}

/// A whole number on the 64-bit scale that is normalized and stored again
/// comes back as its rounding to binary64, held within the scale: itself
/// where it has at most 53 bits.
pub proof fn lemma_wide_comes_back(v: nat)
    requires
        v <= u64::MAX,
    ensures
        scaled_to(fraction_of(v, u64::MAX as nat), u64::MAX as nat) == truncated(
            binary64().of_nat(v),
            u64::MAX as nat,
        ),
        v < pow2(53) ==> scaled_to(fraction_of(v, u64::MAX as nat), u64::MAX as nat) == v,
{
    let f = binary64();
    let max = u64::MAX as nat;
    let w = Value::Fin { neg: false, mant: 0x10_0000_0000_0000, exp: 12 };
    lemma2_to64();
    lemma2_to64_rest();
    lemma_of_nat_widest();
    if v == 0 {
        reveal(Format::product);
        lemma_rounded_zero(f, false, Quantity::dyadic(0, 0));
        lemma_quotient_of_zero(f, w);
        assert(0 * 0x10_0000_0000_0000 == 0) by (nonlinear_arith);
        lemma_rounded_zero(f, false, Quantity::dyadic(0, f.emin + 12));
        reveal(truncated);
        let o = Quantity::dyadic(0, f.emin as int);
        assert(o.numer_at(0) == 0) by (nonlinear_arith)
            requires
                o.numer_at(0) == 0 * 1,
        ;
        lemma_pow2_pos(1074);
        lemma_basic_div(0, o.denom_at(0) as int);
    } else {
        let q = Quantity::dyadic(v, 0);
        f.lemma_quantum_exists(q);
        let t = f.quantum(q);
        // a whole number has its last mantissa bit at 2^-52 or above
        if t <= -53 {
            lemma_pow2_le(53, (-t) as nat);
            assert(q.numer_at(t) == v * pow2((-t) as nat));
            assert(q.denom_at(t) == 1);
            assert(v * pow2((-t) as nat) >= pow2((-t) as nat)) by (nonlinear_arith)
                requires
                    v >= 1,
                    pow2((-t) as nat) >= 0,
            ;
            assert(q.numer_at(t) / q.denom_at(t) == q.numer_at(t)) by (nonlinear_arith)
                requires
                    q.denom_at(t) == 1,
            ;
            assert(q.units(t) == v * pow2((-t) as nat));
            assert(f.is_quantum(q, t));
            assert(q.units(t) < pow2(53));
        }
        assert(t >= -52);
        if t > 11 {
            lemma_units_coarser(q, 0, t as nat);
            lemma_pow2_le(12, t as nat);
            lemma_dyadic_units(v, 0);
            assert(pow2(t as nat) * q.units(t) >= 0x1000 * 0x10_0000_0000_0000)
                by (nonlinear_arith)
                requires
                    pow2(t as nat) >= 0x1000,
                    q.units(t) >= 0x10_0000_0000_0000,
            ;
        }
        f.lemma_rounded_bracket(false, q, t);
        f.lemma_finite_parts(false, nearest_even(q.units(t - 1), q.exact(t - 1)), t);
        let a = f.of_nat(v);
        lemma_scale_by_widest(a->Fin_mant, a->Fin_exp);
    }
    if 0 < v < pow2(53) {
        reveal(truncated);
        lemma_of_nat_exact(f, v);
        lemma_dyadic_rescaled(v, 0, lift(v, pow2(52)));
    }
}

/// A 64-bit component comes back as its rounding to binary64, held within
/// the scale: itself where it has at most 53 bits.
pub proof fn lemma_u64_comes_back(v: u64, c: u64)
    requires
        u64::stored_as(v.normalized(), c),
    ensures
        c == truncated(binary64().of_nat(v as nat), u64::MAX as nat),
        v < 0x20_0000_0000_0000 ==> c == v,
{
    lemma2_to64_rest();
    lemma_wide_comes_back(v as nat);
}

/// A pointer-sized component with at most 53 bits comes back within one.
pub proof fn lemma_usize_comes_back(v: usize, c: usize)
    requires
        usize::stored_as(v.normalized(), c),
        v < 0x20_0000_0000_0000,
    ensures
        v - 1 <= c <= v,
{
    lemma2_to64_rest();
    if usize::MAX <= 0xffff_ffff {
        lemma_whole_comes_back(v as nat, usize::MAX as nat);
    } else {
        assert(usize::MAX == u64::MAX);
        lemma_wide_comes_back(v as nat);
    }
}

} // verus!
