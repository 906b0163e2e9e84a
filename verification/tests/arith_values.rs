use ryb::arith::negate;
use ryb::binary32::{binary32, Binary32};
use ryb::binary64::{binary64, Binary64, QUIET_NAN};
use ryb::rounding::Parts;

fn soft(x: f64) -> Binary64 {
    Binary64::from_bits(x.to_bits())
}

fn two_to(e: i32) -> f64 {
    2.0f64.powi(e)
}

#[test]
fn sums_round_ties_to_even() {
    // halfway between 1 and the next value: the even mantissa is 1
    assert_eq!(soft(1.0).add(soft(two_to(-53))).to_bits(), 1.0f64.to_bits());
    // halfway between two values of which the upper has the even mantissa
    let odd = 1.0 + two_to(-52);
    assert_eq!(soft(odd).add(soft(two_to(-53))).to_bits(), (1.0 + two_to(-51)).to_bits());
    // a little past the half rounds up
    let past = two_to(-53) + two_to(-80);
    assert_eq!(soft(1.0).add(soft(past)).to_bits(), odd.to_bits());
    // a term far below the last bit only tips a power of two downwards
    assert_eq!(soft(1.0).add(soft(two_to(-200))).to_bits(), 1.0f64.to_bits());
    assert_eq!(soft(1.0).sub(soft(two_to(-200))).to_bits(), 1.0f64.to_bits());
    assert_eq!(soft(1.0).sub(soft(two_to(-54))).to_bits(), (1.0 - two_to(-54)).to_bits());
}

#[test]
fn decimal_fractions_have_known_bits() {
    assert_eq!(soft(0.1).add(soft(0.2)).to_bits(), 0x3fd3_3333_3333_3334);
    assert_eq!(soft(1.0).div(soft(3.0)).to_bits(), 0x3fd5_5555_5555_5555);
    assert_eq!(soft(2.0).div(soft(3.0)).to_bits(), 0x3fe5_5555_5555_5555);
    assert_eq!(soft(0.1).mul(soft(3.0)).to_bits(), 0x3fd3_3333_3333_3334);
    assert_eq!(soft(1.0).div(soft(10.0)).to_bits(), 0x3fb9_9999_9999_999a);
}

#[test]
fn results_overflow_to_infinity() {
    let inf = f64::INFINITY.to_bits();
    assert_eq!(soft(f64::MAX).add(soft(f64::MAX)).to_bits(), inf);
    assert_eq!(soft(f64::MAX).mul(soft(2.0)).to_bits(), inf);
    assert_eq!(soft(f64::MAX).div(soft(0.5)).to_bits(), inf);
    assert_eq!(soft(f64::MIN).sub(soft(f64::MAX)).to_bits(), f64::NEG_INFINITY.to_bits());
    assert_eq!(soft(1.0).div(soft(0.0)).to_bits(), inf);
    assert_eq!(soft(-1.0).div(soft(0.0)).to_bits(), f64::NEG_INFINITY.to_bits());
    // the largest value plus less than half its last bit stays
    assert_eq!(soft(f64::MAX).add(soft(two_to(969))).to_bits(), f64::MAX.to_bits());
    assert_eq!(soft(f64::MAX).add(soft(two_to(970))).to_bits(), inf);
}

#[test]
fn results_underflow_through_the_subnormals() {
    assert_eq!(soft(f64::MIN_POSITIVE).div(soft(2.0)).to_bits(), 0x0008_0000_0000_0000);
    assert_eq!(Binary64::from_bits(1).div(soft(2.0)).to_bits(), 0);
    assert_eq!(Binary64::from_bits(3).div(soft(2.0)).to_bits(), 2);
    assert_eq!(Binary64::from_bits(5).div(soft(2.0)).to_bits(), 2);
    assert_eq!(Binary64::from_bits(1).mul(soft(0.75)).to_bits(), 1);
    assert_eq!(Binary64::from_bits(1).mul(soft(-0.25)).to_bits(), 0x8000_0000_0000_0000);
    assert_eq!(Binary64::from_bits(1).add(Binary64::from_bits(1)).to_bits(), 2);
    assert_eq!(
        Binary64::from_bits(0x000f_ffff_ffff_ffff).add(Binary64::from_bits(1)).to_bits(),
        0x0010_0000_0000_0000
    );
}

#[test]
fn zeros_keep_their_signs() {
    let plus = 0.0f64.to_bits();
    let minus = (-0.0f64).to_bits();
    assert_eq!(soft(1.0).sub(soft(1.0)).to_bits(), plus);
    assert_eq!(soft(-1.0).add(soft(1.0)).to_bits(), plus);
    assert_eq!(soft(-0.0).add(soft(-0.0)).to_bits(), minus);
    assert_eq!(soft(-0.0).add(soft(0.0)).to_bits(), plus);
    assert_eq!(soft(-0.0).sub(soft(0.0)).to_bits(), minus);
    assert_eq!(soft(0.0).mul(soft(-1.0)).to_bits(), minus);
    assert_eq!(soft(-0.0).div(soft(-3.0)).to_bits(), plus);
    assert_eq!(soft(1.0).div(soft(f64::NEG_INFINITY)).to_bits(), minus);
}

#[test]
fn operations_without_a_result_give_the_quiet_pattern() {
    assert_eq!(soft(0.0).div(soft(0.0)).to_bits(), QUIET_NAN);
    assert_eq!(soft(f64::INFINITY).sub(soft(f64::INFINITY)).to_bits(), QUIET_NAN);
    assert_eq!(soft(f64::INFINITY).add(soft(f64::NEG_INFINITY)).to_bits(), QUIET_NAN);
    assert_eq!(soft(f64::INFINITY).mul(soft(0.0)).to_bits(), QUIET_NAN);
    assert_eq!(soft(f64::INFINITY).div(soft(f64::INFINITY)).to_bits(), QUIET_NAN);
    assert_eq!(Binary64::from_bits(0x7ff0_0000_0000_0001).add(soft(1.0)).to_bits(), QUIET_NAN);
    assert_eq!(soft(1.0).mul(Binary64::from_bits(0xfff8_0000_0000_0123)).to_bits(), QUIET_NAN);
    assert!(soft(f64::NAN).is_nan());
    assert!(Binary64::from_bits(0xfff0_0000_0000_0001).is_nan());
    assert!(!soft(f64::INFINITY).is_nan());
    assert!(!soft(0.0).is_nan());
}

#[test]
fn smaller_and_larger_pass_over_what_is_not_a_number() {
    assert_eq!(soft(1.0).min(soft(2.0)).to_bits(), 1.0f64.to_bits());
    assert_eq!(soft(2.0).min(soft(1.0)).to_bits(), 1.0f64.to_bits());
    assert_eq!(soft(1.0).max(soft(2.0)).to_bits(), 2.0f64.to_bits());
    assert_eq!(soft(-1.0).max(soft(-2.0)).to_bits(), (-1.0f64).to_bits());
    assert_eq!(soft(f64::NAN).min(soft(2.0)).to_bits(), 2.0f64.to_bits());
    assert_eq!(soft(2.0).min(soft(f64::NAN)).to_bits(), 2.0f64.to_bits());
    assert_eq!(soft(f64::NAN).max(soft(-2.0)).to_bits(), (-2.0f64).to_bits());
    assert_eq!(soft(f64::NAN).max(soft(f64::NAN)).to_bits(), QUIET_NAN);
    assert_eq!(soft(f64::NEG_INFINITY).min(soft(f64::MIN)).to_bits(), f64::NEG_INFINITY.to_bits());
    assert_eq!(soft(f64::INFINITY).max(soft(f64::MAX)).to_bits(), f64::INFINITY.to_bits());
    // neither zero is below the other: the first is returned
    assert_eq!(soft(0.0).min(soft(-0.0)).to_bits(), 0.0f64.to_bits());
    assert_eq!(soft(-0.0).min(soft(0.0)).to_bits(), (-0.0f64).to_bits());
    assert_eq!(soft(0.0).max(soft(-0.0)).to_bits(), 0.0f64.to_bits());
    assert_eq!(soft(-0.0).max(soft(0.0)).to_bits(), (-0.0f64).to_bits());
}

#[test]
fn whole_numbers_convert_both_ways() {
    assert_eq!(Binary64::from_u64(0).to_bits(), 0.0f64.to_bits());
    assert_eq!(Binary64::from_u64(1).to_bits(), 1.0f64.to_bits());
    assert_eq!(Binary64::from_u64(255).to_bits(), 255.0f64.to_bits());
    assert_eq!(Binary64::from_u64(u64::MAX).to_bits(), two_to(64).to_bits());
    assert_eq!(Binary64::from_u64((1 << 53) + 1).to_bits(), two_to(53).to_bits());
    assert_eq!(Binary64::from_u64((1 << 53) + 3).to_bits(), (two_to(53) + 4.0).to_bits());
    assert_eq!(soft(3.99).to_u64(255), 3);
    assert_eq!(soft(255.5).to_u64(255), 255);
    assert_eq!(soft(256.0).to_u64(255), 255);
    assert_eq!(soft(-3.99).to_u64(255), 0);
    assert_eq!(soft(0.999).to_u64(255), 0);
    assert_eq!(soft(two_to(64)).to_u64(u64::MAX), u64::MAX);
    assert_eq!(soft(two_to(63)).to_u64(u64::MAX), 1 << 63);
    assert_eq!(soft(two_to(-1074)).to_u64(u64::MAX), 0);
    assert_eq!(soft(f64::NAN).to_u64(7), 0);
    assert_eq!(soft(f64::INFINITY).to_u64(7), 7);
    assert_eq!(soft(f64::NEG_INFINITY).to_u64(7), 0);
}

#[test]
fn data_come_apart_into_sign_mantissa_and_exponent() {
    match soft(1.0).unpack() {
        Parts::Fin { neg, mant, exp } => {
            assert!(!neg);
            assert_eq!(mant, 1 << 52);
            assert_eq!(exp, -52);
        },
        _ => panic!("1 is finite"),
    }
    match soft(-0.75).unpack() {
        Parts::Fin { neg, mant, exp } => {
            assert!(neg);
            assert_eq!(mant, 3 << 51);
            assert_eq!(exp, -53);
        },
        _ => panic!("-0.75 is finite"),
    }
    match Binary64::from_bits(5).unpack() {
        Parts::Fin { neg, mant, exp } => {
            assert!(!neg);
            assert_eq!(mant, 5);
            assert_eq!(exp, -1074);
        },
        _ => panic!("a subnormal is finite"),
    }
    assert!(matches!(soft(f64::NEG_INFINITY).unpack(), Parts::Inf { neg: true }));
    assert!(matches!(soft(f64::NAN).unpack(), Parts::Nan));
    match Binary32::from_bits(1.5f32.to_bits()).unpack() {
        Parts::Fin { neg, mant, exp } => {
            assert!(!neg);
            assert_eq!(mant, 3 << 22);
            assert_eq!(exp, -23);
        },
        _ => panic!("1.5 is finite"),
    }
}

#[test]
fn formats_work_on_parts() {
    let f = binary64();
    let one = soft(1.0).unpack();
    let three = soft(3.0).unpack();
    assert_eq!(Binary64::pack(f.add(one, three)).to_bits(), 4.0f64.to_bits());
    assert_eq!(Binary64::pack(f.sub(one, three)).to_bits(), (-2.0f64).to_bits());
    assert_eq!(Binary64::pack(f.mul(three, three)).to_bits(), 9.0f64.to_bits());
    assert_eq!(Binary64::pack(f.div(three, one)).to_bits(), 3.0f64.to_bits());
    assert_eq!(Binary64::pack(negate(three)).to_bits(), (-3.0f64).to_bits());
    assert_eq!(Binary64::pack(f.min(one, three)).to_bits(), 1.0f64.to_bits());
    assert_eq!(Binary64::pack(f.max(one, three)).to_bits(), 3.0f64.to_bits());
    assert_eq!(Binary64::pack(f.of_u64(12)).to_bits(), 12.0f64.to_bits());
    assert_eq!(f.to_u64(three, 2), 2);
    assert!(f.below(one, three));
    assert!(!f.below(three, one));
    assert!(!f.below(one, one));
    assert!(f.below(negate(three), negate(one)));
    assert!(f.below(negate(one), one));
    assert!(!f.below(soft(0.0).unpack(), soft(-0.0).unpack()));
    assert!(!f.below(soft(-0.0).unpack(), soft(0.0).unpack()));
    assert!(!f.below(soft(f64::NAN).unpack(), one));
    assert!(!f.below(one, soft(f64::NAN).unpack()));
    assert!(f.below(soft(f64::NEG_INFINITY).unpack(), soft(f64::MIN).unpack()));
    assert!(f.below(soft(f64::MAX).unpack(), soft(f64::INFINITY).unpack()));
    assert!(f.below(Binary64::from_bits(1).unpack(), soft(f64::MIN_POSITIVE).unpack()));
    // binary32 arithmetic rounds to 24 bits
    let g = binary32();
    let a = Binary32::from_bits(1.0f32.to_bits()).unpack();
    let b = Binary32::from_bits(3.0f32.to_bits()).unpack();
    assert_eq!(Binary32::pack(g.div(a, b)).to_bits(), (1.0f32 / 3.0f32).to_bits());
    assert_eq!(Binary32::pack(g.add(a, Binary32::from_bits(2.0f32.powi(-24).to_bits()).unpack())).to_bits(), 1.0f32.to_bits());
    assert_eq!(Binary32::pack(g.convert(&f, soft(0.1).unpack())).to_bits(), 0.1f32.to_bits());
}
