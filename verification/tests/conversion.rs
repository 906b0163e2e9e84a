use ryb::binary32::Binary32;
use ryb::binary64::Binary64;
use ryb::color::{mix, Rgb, Ryb};
use ryb::component::Component;

fn soft(x: f64) -> Binary64 {
    Binary64::from_bits(x.to_bits())
}

fn hard(x: Binary64) -> f64 {
    f64::from_bits(x.to_bits())
}

fn soft32(x: f32) -> Binary32 {
    Binary32::from_bits(x.to_bits())
}

fn hard32(x: Binary32) -> f32 {
    f32::from_bits(x.to_bits())
}

fn same(got: f64, want: f64) -> bool {
    (got.is_nan() && want.is_nan()) || got.to_bits() == want.to_bits()
}

struct Lcg(u64);

impl Lcg {
    fn next(&mut self) -> u64 {
        self.0 = self.0.wrapping_mul(6364136223846793005).wrapping_add(1442695040888963407);
        let hi = self.0 >> 32;
        self.0 = self.0.wrapping_mul(6364136223846793005).wrapping_add(1442695040888963407);
        (hi << 32) | (self.0 >> 32)
    }

    fn unit(&mut self) -> f64 {
        (self.next() >> 11) as f64 / 9007199254740992.0
    }
}

/// The forward transform in the machine's own floating point.
fn hardware_ryb(c: [f64; 3]) -> [f64; 3] {
    let [r0, g0, b0] = c;
    let iw = r0.min(g0).min(b0);
    let r = r0 - iw;
    let g = g0 - iw;
    let b = b0 - iw;
    let red = r - r.min(g);
    let yellow = (g + r.min(g)) / 2.0;
    let blue = (b + g - r.min(g)) / 2.0;
    let n = red.max(yellow).max(blue) / r.max(g).max(b);
    let ib = (1.0 - r0).min(1.0 - g0).min(1.0 - b0);
    [red / n + ib, yellow / n + ib, blue / n + ib]
}

/// The inverse transform in the machine's own floating point.
fn hardware_rgb(c: [f64; 3]) -> [f64; 3] {
    let [r0, y0, b0] = c;
    let iw = r0.min(y0).min(b0);
    let r = r0 - iw;
    let y = y0 - iw;
    let b = b0 - iw;
    let red = r + y - y.min(b);
    let green = y + 2.0 * y.min(b);
    let blue = 2.0 * (b - y.min(b));
    let n = r.max(y).max(b) / red.max(green).max(blue);
    let ib = (1.0 - r0).min(1.0 - y0).min(1.0 - b);
    [red / n + ib, green / n + ib, blue / n + ib]
}

fn ryb_f64(c: [f64; 3]) -> [f64; 3] {
    let out = Ryb::new_rgb(Rgb::new([soft(c[0]), soft(c[1]), soft(c[2])]));
    [hard(out.0[0]), hard(out.0[1]), hard(out.0[2])]
}

fn rgb_f64(c: [f64; 3]) -> [f64; 3] {
    let out = Ryb::new([soft(c[0]), soft(c[1]), soft(c[2])]).rgb();
    [hard(out.0[0]), hard(out.0[1]), hard(out.0[2])]
}

fn close(a: [f64; 3], b: [f64; 3], tol: f64) -> bool {
    (0..3).all(|i| (a[i] - b[i]).abs() <= tol)
}

#[test]
fn binary64_conversions_agree_with_hardware() {
    let mut g = Lcg(2024);
    for _ in 0..4000 {
        let c = [g.unit(), g.unit(), g.unit()];
        let got = ryb_f64(c);
        let want = hardware_ryb(c);
        let back = rgb_f64(c);
        let want_back = hardware_rgb(c);
        for i in 0..3 {
            assert!(same(got[i], want[i]), "{:?}: {:?} / {:?}", c, got, want);
            assert!(same(back[i], want_back[i]), "{:?}: {:?} / {:?}", c, back, want_back);
        }
    }
}

#[test]
fn binary64_conversions_agree_on_a_grid() {
    for i in 0..=8 {
        for j in 0..=8 {
            for k in 0..=8 {
                let c = [i as f64 / 8.0, j as f64 / 8.0, k as f64 / 8.0];
                let got = ryb_f64(c);
                let want = hardware_ryb(c);
                let back = rgb_f64(c);
                let want_back = hardware_rgb(c);
                for x in 0..3 {
                    assert!(same(got[x], want[x]), "{:?}: {:?} / {:?}", c, got, want);
                    assert!(same(back[x], want_back[x]), "{:?}", c);
                }
            }
        }
    }
}

#[test]
fn out_of_range_channels_pass_through_unchecked() {
    let c = [1.5, 0.25, 3.0];
    let got = ryb_f64(c);
    let want = hardware_ryb(c);
    let back = rgb_f64(c);
    let want_back = hardware_rgb(c);
    for i in 0..3 {
        assert!(same(got[i], want[i]));
        assert!(same(back[i], want_back[i]));
    }
    assert!(got.iter().any(|x| *x < 0.0 || *x > 1.0));
}

#[test]
fn u8_conversions_agree_with_hardware() {
    let mut g = Lcg(8);
    for n in 0..6000 {
        let bits = g.next();
        let v = if n < 4096 {
            [(n % 16) as u8 * 17, (n / 16 % 16) as u8 * 17, (n / 256) as u8 * 17]
        } else {
            [bits as u8, (bits >> 8) as u8, (bits >> 16) as u8]
        };
        let c = [v[0] as f64 / 255.0, v[1] as f64 / 255.0, v[2] as f64 / 255.0];
        let want = hardware_ryb(c);
        let got = Ryb::new_rgb(Rgb::new(v));
        let want_back = hardware_rgb(c);
        let back = Ryb::new(v).rgb();
        for i in 0..3 {
            assert_eq!(got.0[i], (want[i] * 255.0) as u8, "{:?}", v);
            assert_eq!(back.0[i], (want_back[i] * 255.0) as u8, "{:?}", v);
        }
    }
}

#[test]
fn u16_conversions_agree_with_hardware() {
    let mut g = Lcg(16);
    for _ in 0..3000 {
        let bits = g.next();
        let v = [bits as u16, (bits >> 16) as u16, (bits >> 32) as u16];
        let m = u16::MAX as f64;
        let c = [v[0] as f64 / m, v[1] as f64 / m, v[2] as f64 / m];
        let want = hardware_ryb(c);
        let got = Ryb::new_rgb(Rgb::new(v));
        let want_back = hardware_rgb(c);
        let back = Ryb::new(v).rgb();
        for i in 0..3 {
            assert_eq!(got.0[i], (want[i] * m) as u16, "{:?}", v);
            assert_eq!(back.0[i], (want_back[i] * m) as u16, "{:?}", v);
        }
    }
}

#[test]
fn u32_conversions_agree_with_hardware() {
    let mut g = Lcg(32);
    for _ in 0..3000 {
        let v = [g.next() as u32, g.next() as u32, g.next() as u32];
        let m = u32::MAX as f64;
        let c = [v[0] as f64 / m, v[1] as f64 / m, v[2] as f64 / m];
        let want = hardware_ryb(c);
        let got = Ryb::new_rgb(Rgb::new(v));
        let want_back = hardware_rgb(c);
        let back = Ryb::new(v).rgb();
        for i in 0..3 {
            assert_eq!(got.0[i], (want[i] * m) as u32, "{:?}", v);
            assert_eq!(back.0[i], (want_back[i] * m) as u32, "{:?}", v);
        }
    }
}

#[test]
fn u64_conversions_agree_with_hardware() {
    let mut g = Lcg(64);
    for _ in 0..3000 {
        let v = [g.next(), g.next(), g.next()];
        let m = u64::MAX as f64;
        let c = [v[0] as f64 / m, v[1] as f64 / m, v[2] as f64 / m];
        let want = hardware_ryb(c);
        let got = Ryb::new_rgb(Rgb::new(v));
        let want_back = hardware_rgb(c);
        let back = Ryb::new(v).rgb();
        for i in 0..3 {
            assert_eq!(got.0[i], (want[i] * m) as u64, "{:?}", v);
            assert_eq!(back.0[i], (want_back[i] * m) as u64, "{:?}", v);
        }
    }
}

#[test]
fn usize_conversions_agree_with_hardware() {
    let mut g = Lcg(640);
    for _ in 0..3000 {
        let v = [g.next() as usize, g.next() as usize, g.next() as usize];
        let m = usize::MAX as f64;
        let c = [v[0] as f64 / m, v[1] as f64 / m, v[2] as f64 / m];
        let want = hardware_ryb(c);
        let got = Ryb::new_rgb(Rgb::new(v));
        let want_back = hardware_rgb(c);
        let back = Ryb::new(v).rgb();
        for i in 0..3 {
            assert_eq!(got.0[i], (want[i] * m) as usize, "{:?}", v);
            assert_eq!(back.0[i], (want_back[i] * m) as usize, "{:?}", v);
        }
    }
}

#[test]
fn binary32_conversions_agree_with_hardware() {
    let mut g = Lcg(3232);
    for _ in 0..3000 {
        let v = [g.unit() as f32, g.unit() as f32, g.unit() as f32];
        let c = [v[0] as f64, v[1] as f64, v[2] as f64];
        let want = hardware_ryb(c);
        let got = Ryb::new_rgb(Rgb::new([soft32(v[0]), soft32(v[1]), soft32(v[2])]));
        let want_back = hardware_rgb(c);
        let back = Ryb::new([soft32(v[0]), soft32(v[1]), soft32(v[2])]).rgb();
        for i in 0..3 {
            let w = want[i] as f32;
            let wb = want_back[i] as f32;
            let x = hard32(got.0[i]);
            let xb = hard32(back.0[i]);
            assert!((x.is_nan() && w.is_nan()) || x.to_bits() == w.to_bits(), "{:?}", v);
            assert!((xb.is_nan() && wb.is_nan()) || xb.to_bits() == wb.to_bits(), "{:?}", v);
        }
    }
}

#[test]
fn binary32_widens_and_narrows_as_hardware_does() {
    let mut g = Lcg(323232);
    for _ in 0..20000 {
        let x = f32::from_bits(g.next() as u32);
        let wide = hard(soft32(x).to_binary64());
        assert!(same(wide, x as f64));
        let y = f64::from_bits(g.next());
        let narrow = hard32(Binary32::from_binary64(soft(y)));
        let want = y as f32;
        assert!((narrow.is_nan() && want.is_nan()) || narrow.to_bits() == want.to_bits());
        let z = g.unit() * 1e-38;
        let narrow = hard32(Binary32::from_binary64(soft(z)));
        assert_eq!(narrow.to_bits(), (z as f32).to_bits());
    }
    for y in [0.0, -0.0, 1.0, 3.4028235e38, 3.4028236e38, 1e39, -1e39, 1e-45, 7e-46, 1e-46, f64::INFINITY] {
        let narrow = hard32(Binary32::from_binary64(soft(y)));
        assert_eq!(narrow.to_bits(), (y as f32).to_bits(), "{:e}", y);
    }
}

#[test]
fn pure_red_keeps_its_channels_in_both_models() {
    assert_eq!(ryb_f64([1.0, 0.0, 0.0]), [1.0, 0.0, 0.0]);
    assert_eq!(rgb_f64([1.0, 0.0, 0.0]), [1.0, 0.0, 0.0]);
    let red = Ryb::<Binary64>::red().rgb();
    assert_eq!([hard(red.0[0]), hard(red.0[1]), hard(red.0[2])], [1.0, 0.0, 0.0]);
}

#[test]
fn named_colours_have_their_channels() {
    let ch = |c: Ryb<Binary64>| [hard(c.0[0]), hard(c.0[1]), hard(c.0[2])];
    assert_eq!(ch(Ryb::<Binary64>::black()), [1.0, 1.0, 1.0]);
    assert_eq!(ch(Ryb::<Binary64>::blue()), [0.0, 0.0, 1.0]);
    assert_eq!(ch(Ryb::<Binary64>::cyan()), [0.0, 0.5, 1.0]);
    assert_eq!(ch(Ryb::<Binary64>::green()), [0.0, 1.0, 1.0]);
    assert_eq!(ch(Ryb::<Binary64>::purple()), [1.0, 0.0, 0.5]);
    assert_eq!(ch(Ryb::<Binary64>::red()), [1.0, 0.0, 0.0]);
    assert_eq!(ch(Ryb::<Binary64>::white()), [0.0, 0.0, 0.0]);
    assert_eq!(ch(Ryb::<Binary64>::yellow()), [0.0, 1.0, 0.0]);
}

#[test]
fn named_primaries_convert_to_known_colours() {
    // yellow pigment alone is red and green light in equal parts
    assert_eq!(rgb_f64([0.0, 1.0, 0.0]), [1.0, 1.0, 0.0]);
    // blue pigment alone: blue light 2 after the decomposition, and the scale
    // factor 1 / 2 divides it once more
    assert_eq!(rgb_f64([0.0, 0.0, 1.0]), [0.0, 0.0, 4.0]);
    assert_eq!(hardware_rgb([0.0, 0.0, 1.0]), [0.0, 0.0, 4.0]);
    let green = Ryb::<Binary64>::green().rgb();
    assert_eq!([hard(green.0[0]), hard(green.0[1]), hard(green.0[2])], hardware_rgb([0.0, 1.0, 1.0]));
}

#[test]
fn white_pigment_has_no_hue_to_scale() {
    // no pigment: nothing is left once the common part is removed
    let white = Ryb::<Binary64>::white().rgb();
    assert!(white.0.iter().all(|c| c.is_nan()));
    let black = Ryb::<Binary64>::black().rgb();
    assert!(black.0.iter().all(|c| c.is_nan()));
}

#[test]
fn white_light_divides_zero_by_zero() {
    let got = ryb_f64([1.0, 1.0, 1.0]);
    assert!(got.iter().all(|x| x.is_nan()), "{:?}", got);
    let want = hardware_ryb([1.0, 1.0, 1.0]);
    assert!(want.iter().all(|x| x.is_nan()));
}

#[test]
fn black_light_divides_zero_by_zero() {
    let got = ryb_f64([0.0, 0.0, 0.0]);
    assert!(got[0].is_nan() && got[1].is_nan() && got[2].is_nan(), "{:?}", got);
    let back = rgb_f64([0.0, 0.0, 0.0]);
    assert!(back[0].is_nan() && back[1].is_nan() && back[2].is_nan(), "{:?}", back);
}

#[test]
fn greys_in_whole_numbers_come_out_as_zero() {
    // not-a-number is stored as 0 in a whole-number component
    assert_eq!(Ryb::new_rgb(Rgb::new([0u8, 0, 0])).0, [0, 0, 0]);
    assert_eq!(Ryb::new_rgb(Rgb::new([255u8, 255, 255])).0, [0, 0, 0]);
    assert_eq!(Ryb::new_rgb(Rgb::new([77u16, 77, 77])).0, [0, 0, 0]);
    assert_eq!(Ryb::new([9u32, 9, 9]).rgb().0, [0, 0, 0]);
}

#[test]
fn eight_bit_red_survives_the_round_trip() {
    let ryb = Ryb::new_rgb(Rgb::new([255u8, 0, 0]));
    assert_eq!(ryb.0, [255, 0, 0]);
    let rgb = ryb.rgb();
    assert_eq!(rgb.0, [255, 0, 0]);
}

#[test]
fn reddish_colours_survive_the_round_trip() {
    let x = [0.75, 0.25, 0.25];
    assert!(close(ryb_f64(rgb_f64(x)), x, 1e-6));
    assert!(close(rgb_f64(ryb_f64(x)), x, 1e-6));
    let mut g = Lcg(1);
    for _ in 0..500 {
        let low = g.unit() * 0.5;
        let x = [low + g.unit() * 0.5, low, low];
        if x[0] > low {
            assert!(close(rgb_f64(ryb_f64(x)), x, 1e-6), "{:?}", x);
        }
    }
}

#[test]
fn other_colours_do_not_survive_the_round_trip() {
    // the inverse scales by the largest channel after the decomposition over
    // the largest before it
    let x = [0.5, 0.3, 0.2];
    let ryb = ryb_f64(x);
    assert!(close(ryb, [0.8, 0.65, 0.5], 1e-12), "{:?}", ryb);
    let back = rgb_f64(ryb);
    assert!(close(back, [0.875, 0.425, 0.2], 1e-12), "{:?}", back);
    assert!(!close(back, x, 1e-6));
}

#[test]
fn forward_transform_gives_exact_channels() {
    // white 0.25 off, (0.5, 0.25, 0) left: red 0.25, yellow 0.25, blue 0,
    // scaled by 0.5 / 0.25, black 0.25 added
    assert_eq!(ryb_f64([0.75, 0.5, 0.25]), [0.75, 0.75, 0.25]);
    // white 0.25 off, (0, 0.5, 0.25) left: red 0, yellow 0.25, blue 0.375
    // scaled by 0.5 / 0.375
    let got = ryb_f64([0.25, 0.75, 0.5]);
    assert_eq!(got, [0.0 / 0.75 + 0.25, 0.25 / 0.75 + 0.25, 0.375 / 0.75 + 0.25]);
}

#[test]
fn inverse_transform_gives_exact_channels() {
    // white 0.25 off, (0.5, 0.25, 0) left: red 0.75, green 0.25, blue 0,
    // scale factor 0.5 / 0.75, black min(0.25, 0.5, 1)
    let n = 0.5 / 0.75;
    assert_eq!(rgb_f64([0.75, 0.5, 0.25]), [0.75 / n + 0.25, 0.25 / n + 0.25, 0.0 / n + 0.25]);
    // the black comes from the blue with the white taken off: (0, 0.5, 1)
    // has white 0, black min(1, 0.5, 1 - 1)
    assert_eq!(rgb_f64([0.0, 0.5, 1.0]), hardware_rgb([0.0, 0.5, 1.0]));
    // (0.5, 0.5, 1): white 0.5 off, blue 0.5 left, black min(0.5, 0.5, 1 - 0.5)
    // where the blue as given would make it 0
    assert_eq!(rgb_f64([0.5, 0.5, 1.0]), [0.5, 0.5, 2.5]);
}

#[test]
fn components_normalize_and_come_back() {
    for v in 0..=u8::MAX {
        assert_eq!(hard(v.to_normalized()), v as f64 / 255.0);
        assert_eq!(<u8 as Component>::from_normalized(v.to_normalized()), v);
    }
    for v in 0..=u16::MAX {
        assert_eq!(<u16 as Component>::from_normalized(v.to_normalized()), v);
    }
    let mut g = Lcg(99);
    for _ in 0..20000 {
        let v = g.next() as u32;
        let back = <u32 as Component>::from_normalized(v.to_normalized());
        assert!(back == v || back + 1 == v, "{} {}", v, back);
        let f = f32::from_bits(g.next() as u32);
        let back = hard32(<Binary32 as Component>::from_normalized(soft32(f).to_normalized()));
        assert!((f.is_nan() && back.is_nan()) || f.to_bits() == back.to_bits());
        let d = g.next();
        let back = <Binary64 as Component>::from_normalized(Binary64::from_bits(d).to_normalized());
        assert_eq!(back.to_bits(), d);
    }
}

#[test]
fn wide_whole_numbers_lose_their_low_bits() {
    let v: u64 = (1 << 63) + 1023;
    assert_eq!(<u64 as Component>::from_normalized(v.to_normalized()), 1 << 63);
    assert_eq!(<u64 as Component>::from_normalized(u64::MAX.to_normalized()), u64::MAX);
    assert_eq!(hard(u64::MAX.to_normalized()), 1.0);
}

#[test]
fn storing_truncates_and_saturates() {
    assert_eq!(<u8 as Component>::from_normalized(soft(0.5)), 127);
    assert_eq!(<u8 as Component>::from_normalized(soft(0.999)), 254);
    assert_eq!(<u8 as Component>::from_normalized(soft(1.0)), 255);
    assert_eq!(<u8 as Component>::from_normalized(soft(2.0)), 255);
    assert_eq!(<u8 as Component>::from_normalized(soft(-0.5)), 0);
    assert_eq!(<u8 as Component>::from_normalized(soft(f64::NAN)), 0);
    assert_eq!(<u8 as Component>::from_normalized(soft(f64::INFINITY)), 255);
    assert_eq!(<u16 as Component>::from_normalized(soft(0.5)), 32767);
    assert_eq!(<u32 as Component>::from_normalized(soft(0.5)), 2147483647);
    assert_eq!(<u64 as Component>::from_normalized(soft(0.5)), 1 << 63);
    assert_eq!(<usize as Component>::from_normalized(soft(1.0)), usize::MAX);
    assert_eq!(hard(128u8.to_normalized()), 128.0 / 255.0);
    assert_eq!(hard(1u16.to_normalized()), 1.0 / 65535.0);
    assert_eq!(hard(usize::MAX.to_normalized()), 1.0);
}

#[test]
fn mix_is_the_weighted_mean() {
    let red = Ryb::new([soft(1.0), soft(0.0), soft(0.0)]);
    let yellow = Ryb::new([soft(0.0), soft(1.0), soft(0.0)]);
    let m = mix(vec![(soft(1.0), red), (soft(1.0), yellow)]);
    assert_eq!([hard(m.0[0]), hard(m.0[1]), hard(m.0[2])], [0.5, 0.5, 0.0]);
    let m = mix(vec![(soft(3.0), red), (soft(1.0), yellow)]);
    assert_eq!([hard(m.0[0]), hard(m.0[1]), hard(m.0[2])], [0.75, 0.25, 0.0]);
    let m = mix(vec![(soft(0.25), yellow)]);
    assert_eq!([hard(m.0[0]), hard(m.0[1]), hard(m.0[2])], [0.0, 1.0, 0.0]);
    let m = mix(vec![(255u8, Ryb::new([255u8, 0, 0])), (255u8, Ryb::new([0u8, 255, 0]))]);
    assert_eq!(m.0, [127, 127, 0]);
    // weights 1 and 85 / 255: the means are 150, 100 and 100 but for the
    // rounding of each step, and storing cuts off what is below a whole
    let m = mix(vec![(255u8, Ryb::new([200u8, 100, 50])), (85u8, Ryb::new([0u8, 100, 250]))]);
    let w = [255.0 / 255.0, 85.0 / 255.0];
    let c = [[200.0 / 255.0, 100.0 / 255.0, 50.0 / 255.0], [0.0 / 255.0, 100.0 / 255.0, 250.0 / 255.0]];
    let mut want = [0u8; 3];
    for ch in 0..3 {
        let total = 0.0 + w[0] * c[0][ch] + w[1] * c[1][ch];
        let weight = 0.0 + w[0] + w[1];
        want[ch] = (total / weight * 255.0) as u8;
    }
    assert_eq!(m.0, want);
    assert_eq!(m.0[0], 150);
    assert!(m.0[1] == 99 || m.0[1] == 100);
}

#[test]
fn mix_agrees_with_hardware() {
    let mut g = Lcg(31337);
    for _ in 0..1000 {
        let n = (g.next() % 5) as usize + 1;
        let mut colors = Vec::new();
        let mut total = [0.0f64; 3];
        let mut weight = 0.0f64;
        for _ in 0..n {
            let w = g.unit();
            let c = [g.unit(), g.unit(), g.unit()];
            weight = weight + w;
            for ch in 0..3 {
                total[ch] = total[ch] + w * c[ch];
            }
            colors.push((soft(w), Ryb::new([soft(c[0]), soft(c[1]), soft(c[2])])));
        }
        let m = mix(colors);
        for ch in 0..3 {
            assert!(same(hard(m.0[ch]), total[ch] / weight));
        }
    }
}

#[test]
fn mix_of_nothing_divides_zero_by_zero() {
    let m = mix::<Binary64>(Vec::new());
    assert!(m.0.iter().all(|c| c.is_nan()));
    let m = mix::<u8>(Vec::new());
    assert_eq!(m.0, [0, 0, 0]);
    let m = mix(vec![(soft(0.0), Ryb::new([soft(1.0), soft(0.5), soft(0.0)]))]);
    assert!(m.0[0].is_nan() && m.0[1].is_nan() && m.0[2].is_nan());
}

#[test]
fn bit_patterns_come_apart_and_together() {
    let mut g = Lcg(5);
    for _ in 0..20000 {
        let b = g.next();
        let x = Binary64::from_bits(b);
        if !x.is_nan() {
            assert_eq!(Binary64::pack(x.unpack()).to_bits(), b);
        } else {
            assert!(f64::from_bits(b).is_nan());
            assert_eq!(Binary64::pack(x.unpack()).to_bits(), 0x7ff8_0000_0000_0000);
        }
        let b = g.next() as u32;
        let x = Binary32::from_bits(b);
        if !f32::from_bits(b).is_nan() {
            assert_eq!(Binary32::pack(x.unpack()).to_bits(), b);
        } else {
            assert_eq!(Binary32::pack(x.unpack()).to_bits(), 0x7fc0_0000);
        }
    }
}

#[test]
fn reddish_colours_on_a_grid_convert_exactly() {
    // 0.75 and 0.25 are 3 and 1 steps of a quarter
    assert_eq!(ryb_f64([0.75, 0.25, 0.25]), [0.75, 0.25, 0.25]);
    assert_eq!(rgb_f64([0.75, 0.25, 0.25]), [0.75, 0.25, 0.25]);
    // 4 and 1 steps of an eighth go to 7 and 4 steps
    assert_eq!(ryb_f64([0.5, 0.125, 0.125]), [0.875, 0.5, 0.5]);
    assert_eq!(rgb_f64([0.5, 0.125, 0.125]), [0.875, 0.5, 0.5]);
    assert_eq!(rgb_f64([0.875, 0.5, 0.5]), [0.5, 0.125, 0.125]);
    for hi in 1..=64u32 {
        for lo in 0..hi {
            let x = [hi as f64 / 64.0, lo as f64 / 64.0, lo as f64 / 64.0];
            let y = [(64 - lo) as f64 / 64.0, (64 - hi) as f64 / 64.0, (64 - hi) as f64 / 64.0];
            assert_eq!(ryb_f64(x), y);
            assert_eq!(rgb_f64(x), y);
            assert_eq!(rgb_f64(ryb_f64(x)), x);
            assert_eq!(ryb_f64(rgb_f64(x)), x);
        }
    }
    // on the finest grid
    let step = 2.0f64.powi(-51);
    let x = [1.0 - step, 3.0 * step, 3.0 * step];
    assert_eq!(ryb_f64(x), [1.0 - 3.0 * step, step, step]);
    assert_eq!(rgb_f64(ryb_f64(x)), x);
}
