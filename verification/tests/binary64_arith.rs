use ryb::binary64::Binary64;

fn soft(x: f64) -> Binary64 {
    Binary64::from_bits(x.to_bits())
}

fn hard(x: Binary64) -> f64 {
    f64::from_bits(x.to_bits())
}

fn same(got: Binary64, want: f64) -> bool {
    if want.is_nan() {
        hard(got).is_nan()
    } else {
        got.to_bits() == want.to_bits()
    }
}

struct Lcg(u64);

impl Lcg {
    fn next(&mut self) -> u64 {
        self.0 = self.0.wrapping_mul(6364136223846793005).wrapping_add(1442695040888963407);
        let hi = self.0 >> 32;
        self.0 = self.0.wrapping_mul(6364136223846793005).wrapping_add(1442695040888963407);
        (hi << 32) | (self.0 >> 32)
    }
}

fn corner_values() -> Vec<f64> {
    vec![
        0.0,
        -0.0,
        1.0,
        -1.0,
        2.0,
        0.5,
        1.5,
        3.0,
        0.1,
        0.2,
        0.3,
        1.0 / 3.0,
        255.0,
        65535.0,
        4294967295.0,
        18446744073709551615.0,
        f64::MAX,
        f64::MIN,
        f64::MIN_POSITIVE,
        f64::MIN_POSITIVE / 2.0,
        f64::from_bits(1),
        f64::from_bits(2),
        f64::from_bits(3),
        f64::from_bits(0x000f_ffff_ffff_ffff),
        f64::from_bits(0x0010_0000_0000_0001),
        f64::from_bits(0x7fef_ffff_ffff_fffe),
        f64::EPSILON,
        1.0 + f64::EPSILON,
        1.0 - f64::EPSILON / 2.0,
        9007199254740992.0,
        9007199254740993.0,
        9007199254740994.0,
        1e300,
        1e-300,
        -1e300,
        -1e-300,
        f64::INFINITY,
        f64::NEG_INFINITY,
        f64::NAN,
    ]
}

fn check_pair(x: f64, y: f64) {
    let a = soft(x);
    let b = soft(y);
    assert!(same(a.add(b), x + y), "{:e} + {:e}: {:e}", x, y, hard(a.add(b)));
    assert!(same(a.sub(b), x - y), "{:e} - {:e}: {:e}", x, y, hard(a.sub(b)));
    assert!(same(a.mul(b), x * y), "{:e} * {:e}: {:e}", x, y, hard(a.mul(b)));
    assert!(same(a.div(b), x / y), "{:e} / {:e}: {:e}", x, y, hard(a.div(b)));
    if x != y || x.is_nan() || y.is_nan() {
        assert!(same(a.min(b), x.min(y)), "min({:e}, {:e})", x, y);
        assert!(same(a.max(b), x.max(y)), "max({:e}, {:e})", x, y);
    } else {
        assert!(hard(a.min(b)) == x);
        assert!(hard(a.max(b)) == x);
    }
}

#[test]
fn corner_values_agree_with_hardware() {
    let vals = corner_values();
    for &x in vals.iter() {
        for &y in vals.iter() {
            check_pair(x, y);
        }
    }
}

#[test]
fn random_bit_patterns_agree_with_hardware() {
    let mut g = Lcg(0x9e3779b97f4a7c15);
    for _ in 0..20000 {
        let x = f64::from_bits(g.next());
        let y = f64::from_bits(g.next());
        check_pair(x, y);
    }
}

#[test]
fn random_near_exponents_agree_with_hardware() {
    let mut g = Lcg(12345);
    for _ in 0..20000 {
        let a = g.next();
        let b = g.next();
        let shift = (g.next() % 140) as i64 - 70;
        let ea = ((a >> 52) & 0x7ff) as i64;
        let eb = (ea + shift).clamp(0, 0x7fe) as u64;
        let b = (b & 0x800f_ffff_ffff_ffff) | (eb << 52);
        check_pair(f64::from_bits(a), f64::from_bits(b));
    }
}

#[test]
fn random_subnormals_agree_with_hardware() {
    let mut g = Lcg(777);
    for _ in 0..20000 {
        let a = g.next() & 0x803f_ffff_ffff_ffff;
        let b = g.next() & 0x803f_ffff_ffff_ffff;
        check_pair(f64::from_bits(a), f64::from_bits(b));
        let c = (g.next() & 0x800f_ffff_ffff_ffff) | (0x3ff << 52);
        check_pair(f64::from_bits(a), f64::from_bits(c));
        let d = (g.next() & 0x800f_ffff_ffff_ffff) | (0x7fe << 52);
        check_pair(f64::from_bits(d), f64::from_bits(c));
    }
}

#[test]
fn whole_numbers_round_as_hardware_does() {
    let mut g = Lcg(42);
    for _ in 0..20000 {
        let v = g.next() >> (g.next() % 64);
        assert_eq!(Binary64::from_u64(v).to_bits(), (v as f64).to_bits());
    }
    for v in [0u64, 1, 255, 65535, u32::MAX as u64, u64::MAX, u64::MAX - 1, 1 << 53, (1 << 53) + 1] {
        assert_eq!(Binary64::from_u64(v).to_bits(), (v as f64).to_bits());
    }
}

#[test]
fn truncation_saturates_as_hardware_does() {
    let mut g = Lcg(4242);
    for _ in 0..20000 {
        let x = f64::from_bits(g.next());
        assert_eq!(soft(x).to_u64(u8::MAX as u64), (x as u8) as u64);
        assert_eq!(soft(x).to_u64(u64::MAX), x as u64);
        let y = (g.next() >> 11) as f64 / 1024.0 * if g.next() % 2 == 0 { 1.0 } else { -1.0 };
        assert_eq!(soft(y).to_u64(u16::MAX as u64), (y as u16) as u64);
        assert_eq!(soft(y).to_u64(u32::MAX as u64), (y as u32) as u64);
        assert_eq!(soft(y).to_u64(u64::MAX), y as u64);
    }
    for x in corner_values() {
        assert_eq!(soft(x).to_u64(u8::MAX as u64), (x as u8) as u64);
        assert_eq!(soft(x).to_u64(u32::MAX as u64), (x as u32) as u64);
        assert_eq!(soft(x).to_u64(u64::MAX), x as u64);
    }
}
