//! Colours in the additive RGB model and in the subtractive red-yellow-blue
//! model, and the conversion between the two.
use vstd::prelude::*;
use vstd::arithmetic::power2::lemma2_to64_rest;
use crate::arith::{
    minimum, maximum, lemma_minimum_maximum_self, lemma_difference_self, lemma_zero_sums,
    lemma_quotient_of_zero, lemma_product_zero, lemma_nan_absorbs,
};
use crate::binary64::{Binary64, binary64};
use crate::component::Component;
use crate::rounding::Value;

verus! {

/// A colour in the additive model: red, green and blue components.
#[derive(Clone, Copy, Debug)]
pub struct Rgb<T>(pub [T; 3]);

/// A colour in the subtractive model: red, yellow and blue components.
#[derive(Clone, Copy, Debug)]
pub struct Ryb<T>(pub [T; 3]);

/// Three normalized channels.
pub struct Channels {
    pub first: Value,
    pub second: Value,
    pub third: Value,
}

pub open spec fn zero() -> Value {
    Value::Fin { neg: false, mant: 0, exp: -1074 }
}

pub open spec fn half() -> Value {
    Value::Fin { neg: false, mant: 0x10_0000_0000_0000, exp: -53 }
}

pub open spec fn one() -> Value {
    Value::Fin { neg: false, mant: 0x10_0000_0000_0000, exp: -52 }
}

pub open spec fn two() -> Value {
    Value::Fin { neg: false, mant: 0x10_0000_0000_0000, exp: -51 }
}

/// The normalized channels of three stored components.
pub open spec fn normalized_channels<T: Component>(v: [T; 3]) -> Channels {
    Channels { first: v[0].normalized(), second: v[1].normalized(), third: v[2].normalized() }
}

/// Whether `v` stores the three channels.
pub open spec fn channels_stored_as<T: Component>(x: Channels, v: [T; 3]) -> bool {
    &&& T::stored_as(x.first, v[0])
    &&& T::stored_as(x.second, v[1])
    &&& T::stored_as(x.third, v[2])
}

/// The red-yellow-blue channels of a colour given by its normalized red,
/// green and blue. The white that the three share is taken off, the rest is
/// decomposed and scaled so that its largest channel is as large as before,
/// and the black of the colour is added to every channel. Each step is a
/// binary64 operation. A grey has nothing left after the white is taken off,
/// and divides zero by zero.
pub open spec fn ryb_of_rgb(c: Channels) -> Channels {
    let f = binary64();
    let white = minimum(minimum(c.first, c.second), c.third);
    let r = f.difference(c.first, white);
    let g = f.difference(c.second, white);
    let b = f.difference(c.third, white);
    let low = minimum(r, g);
    let red = f.difference(r, low);
    let yellow = f.quotient(f.sum(g, low), two());
    let blue = f.quotient(f.difference(f.sum(b, g), low), two());
    let n = f.quotient(maximum(maximum(red, yellow), blue), maximum(maximum(r, g), b));
    let black = minimum(
        minimum(f.difference(one(), c.first), f.difference(one(), c.second)),
        f.difference(one(), c.third),
    );
    Channels {
        first: f.sum(f.quotient(red, n), black),
        second: f.sum(f.quotient(yellow, n), black),
        third: f.sum(f.quotient(blue, n), black),
    }
}

/// The red, green and blue channels of a colour given by its normalized red,
/// yellow and blue. The steps are those of [`ryb_of_rgb`] with the
/// decomposition turned round, but for two things: the scale factor is the
/// largest channel before the decomposition over the largest after it, and the
/// black is taken from the blue that has the white already taken off.
pub open spec fn rgb_of_ryb(c: Channels) -> Channels {
    let f = binary64();
    let white = minimum(minimum(c.first, c.second), c.third);
    let r = f.difference(c.first, white);
    let y = f.difference(c.second, white);
    let b = f.difference(c.third, white);
    let low = minimum(y, b);
    let red = f.difference(f.sum(r, y), low);
    let green = f.sum(y, f.product(two(), low));
    let blue = f.product(two(), f.difference(b, low));
    let n = f.quotient(maximum(maximum(r, y), b), maximum(maximum(red, green), blue));
    let black = minimum(
        minimum(f.difference(one(), c.first), f.difference(one(), c.second)),
        f.difference(one(), b),
    );
    Channels {
        first: f.sum(f.quotient(red, n), black),
        second: f.sum(f.quotient(green, n), black),
        third: f.sum(f.quotient(blue, n), black),
    }
}

pub fn binary_one() -> (r: Binary64)
    ensures
        r@ == one(),
{
    Binary64 { bits: 0x3ff0_0000_0000_0000 }
}

pub fn binary_two() -> (r: Binary64)
    ensures
        r@ == two(),
{
    Binary64 { bits: 0x4000_0000_0000_0000 }
}

pub fn binary_half() -> (r: Binary64)
    ensures
        r@ == half(),
{
    Binary64 { bits: 0x3fe0_0000_0000_0000 }
}

pub fn binary_zero() -> (r: Binary64)
    ensures
        r@ == zero(),
{
    Binary64 { bits: 0 }
}

impl<T: Component> Rgb<T> {
    /// A colour from its red, green and blue components.
    pub fn new(v: [T; 3]) -> (r: Rgb<T>)
        ensures
            r.0 == v,
    {
        Rgb(v)
    }
}

impl<T: Component> Ryb<T> {
    /// A colour from its red, yellow and blue components.
    pub fn new(v: [T; 3]) -> (r: Ryb<T>)
        ensures
            r.0 == v,
    {
        Ryb(v)
    }

    /// The colour `rgb` in the red-yellow-blue model: its components are
    /// normalized, transformed as [`ryb_of_rgb`] says, and stored again.
    /// Nothing is clamped. A grey has no hue to scale: every channel of the
    /// result is then not a number, which a whole-number component stores
    /// as 0.
    pub fn new_rgb(rgb: Rgb<T>) -> (r: Ryb<T>)
        ensures
            channels_stored_as(ryb_of_rgb(normalized_channels(rgb.0)), r.0),
    {
        let r0: Binary64 = rgb.0[0].to_normalized();
        let g0: Binary64 = rgb.0[1].to_normalized();
        let b0: Binary64 = rgb.0[2].to_normalized();
        let white: Binary64 = r0.min(g0).min(b0);
        let r: Binary64 = r0.sub(white);
        let g: Binary64 = g0.sub(white);
        let b: Binary64 = b0.sub(white);
        let low: Binary64 = r.min(g);
        let red: Binary64 = r.sub(low);
        let yellow: Binary64 = g.add(low).div(binary_two());
        let blue: Binary64 = b.add(g).sub(low).div(binary_two());
        let n: Binary64 = red.max(yellow).max(blue).div(r.max(g).max(b));
        let one: Binary64 = binary_one();
        let black: Binary64 = one.sub(r0).min(one.sub(g0)).min(one.sub(b0));
        Ryb(
            [
                T::from_normalized(red.div(n).add(black)),
                T::from_normalized(yellow.div(n).add(black)),
                T::from_normalized(blue.div(n).add(black)),
            ],
        )
    }

    /// The colour in the additive model: its components are normalized,
    /// transformed as [`rgb_of_ryb`] says, and stored again. Nothing is
    /// clamped, and a grey gives not-a-number in every channel.
    pub fn rgb(&self) -> (r: Rgb<T>)
        ensures
            channels_stored_as(rgb_of_ryb(normalized_channels(self.0)), r.0),
    {
        let r0: Binary64 = self.0[0].to_normalized();
        let y0: Binary64 = self.0[1].to_normalized();
        let b0: Binary64 = self.0[2].to_normalized();
        let white: Binary64 = r0.min(y0).min(b0);
        let r: Binary64 = r0.sub(white);
        let y: Binary64 = y0.sub(white);
        let b: Binary64 = b0.sub(white);
        let low: Binary64 = y.min(b);
        let two: Binary64 = binary_two();
        let red: Binary64 = r.add(y).sub(low);
        let green: Binary64 = y.add(two.mul(low));
        let blue: Binary64 = two.mul(b.sub(low));
        let n: Binary64 = r.max(y).max(b).div(red.max(green).max(blue));
        let one: Binary64 = binary_one();
        let black: Binary64 = one.sub(r0).min(one.sub(y0)).min(one.sub(b));
        Rgb(
            [
                T::from_normalized(red.div(n).add(black)),
                T::from_normalized(green.div(n).add(black)),
                T::from_normalized(blue.div(n).add(black)),
            ],
        )
    }
}

/// A colour of the red-yellow-blue model from three binary64 data.
fn palette(red: Binary64, yellow: Binary64, blue: Binary64) -> (r: Ryb<Binary64>)
    ensures
        normalized_channels(r.0) == (Channels { first: red@, second: yellow@, third: blue@ }),
{
    Ryb([red, yellow, blue])
}

impl Ryb<Binary64> {
    /// All three pigments at full strength.
    pub fn black() -> (r: Ryb<Binary64>)
        ensures
            normalized_channels(r.0) == (Channels { first: one(), second: one(), third: one() }),
    {
        palette(binary_one(), binary_one(), binary_one())
    }

    pub fn blue() -> (r: Ryb<Binary64>)
        ensures
            normalized_channels(r.0) == (Channels { first: zero(), second: zero(), third: one() }),
    {
        palette(binary_zero(), binary_zero(), binary_one())
    }

    pub fn cyan() -> (r: Ryb<Binary64>)
        ensures
            normalized_channels(r.0) == (Channels { first: zero(), second: half(), third: one() }),
    {
        palette(binary_zero(), binary_half(), binary_one())
    }

    pub fn green() -> (r: Ryb<Binary64>)
        ensures
            normalized_channels(r.0) == (Channels { first: zero(), second: one(), third: one() }),
    {
        palette(binary_zero(), binary_one(), binary_one())
    }

    pub fn purple() -> (r: Ryb<Binary64>)
        ensures
            normalized_channels(r.0) == (Channels { first: one(), second: zero(), third: half() }),
    {
        palette(binary_one(), binary_zero(), binary_half())
    }

    pub fn red() -> (r: Ryb<Binary64>)
        ensures
            normalized_channels(r.0) == (Channels { first: one(), second: zero(), third: zero() }),
    {
        palette(binary_one(), binary_zero(), binary_zero())
    }

    /// No pigment at all.
    pub fn white() -> (r: Ryb<Binary64>)
        ensures
            normalized_channels(r.0) == (Channels {
                first: zero(),
                second: zero(),
                third: zero(),
            }),
    {
        palette(binary_zero(), binary_zero(), binary_zero())
    }

    pub fn yellow() -> (r: Ryb<Binary64>)
        ensures
            normalized_channels(r.0) == (Channels { first: zero(), second: one(), third: zero() }),
    {
        palette(binary_zero(), binary_one(), binary_zero())
    }
}

/// The sum of the first `n` normalized weights, added up in order from zero.
pub open spec fn weight_total<T: Component>(s: Seq<(T, Ryb<T>)>, n: nat) -> Value
    decreases n,
{
    if n == 0 {
        zero()
    } else {
        binary64().sum(weight_total(s, (n - 1) as nat), s[n - 1].0.normalized())
    }
}

/// The sum over the first `n` colours of weight times channel `ch`, added up
/// in order from zero.
pub open spec fn channel_total<T: Component>(s: Seq<(T, Ryb<T>)>, ch: int, n: nat) -> Value
    decreases n,
{
    if n == 0 {
        zero()
    } else {
        binary64().sum(
            channel_total(s, ch, (n - 1) as nat),
            binary64().product(s[n - 1].0.normalized(), s[n - 1].1.0[ch].normalized()),
        )
    }
}

/// The weighted mean of each channel: the weighted total over the total
/// weight. With no colours, or weights that add up to zero, this divides by
/// zero.
pub open spec fn weighted_mean<T: Component>(s: Seq<(T, Ryb<T>)>) -> Channels {
    let w = weight_total(s, s.len());
    Channels {
        first: binary64().quotient(channel_total(s, 0, s.len()), w),
        second: binary64().quotient(channel_total(s, 1, s.len()), w),
        third: binary64().quotient(channel_total(s, 2, s.len()), w),
    }
}

/// Mixes weighted colours: each channel of the result is the mean of that
/// channel over the colours, weighted by the normalized weights, which need
/// not add up to one.
pub fn mix<T: Component>(colors: Vec<(T, Ryb<T>)>) -> (r: Ryb<T>)
    ensures
        channels_stored_as(weighted_mean(colors@), r.0),
{
    let mut weight: Binary64 = binary_zero();
    let mut red: Binary64 = binary_zero();
    let mut yellow: Binary64 = binary_zero();
    let mut blue: Binary64 = binary_zero();
    let mut i: usize = 0;
    while i < colors.len()
        invariant
            i <= colors.len(),
            weight@ == weight_total(colors@, i as nat),
            red@ == channel_total(colors@, 0, i as nat),
            yellow@ == channel_total(colors@, 1, i as nat),
            blue@ == channel_total(colors@, 2, i as nat),
        decreases colors.len() - i,
    {
        let w: Binary64 = colors[i].0.to_normalized();
        let c: [T; 3] = colors[i].1.0;
        weight = weight.add(w);
        red = red.add(w.mul(c[0].to_normalized()));
        yellow = yellow.add(w.mul(c[1].to_normalized()));
        blue = blue.add(w.mul(c[2].to_normalized()));
        i = i + 1;
    }
    Ryb(
        [
            T::from_normalized(red.div(weight)),
            T::from_normalized(yellow.div(weight)),
            T::from_normalized(blue.div(weight)),
        ],
    )
}

/// Three channels that are not numbers.
pub open spec fn no_channels() -> Channels {
    Channels { first: Value::Nan, second: Value::Nan, third: Value::Nan }
}

/// A grey, with three equal channels, has no hue: both transforms divide zero
/// by zero, and every channel of the result is not a number. Black and white
/// are greys.
pub proof fn lemma_grey_has_no_hue(v: Value)
    ensures
        ryb_of_rgb(Channels { first: v, second: v, third: v }) == no_channels(),
        rgb_of_ryb(Channels { first: v, second: v, third: v }) == no_channels(),
{
    let f = binary64();
    let o = f.zero(false);
    lemma_minimum_maximum_self(v);
    lemma_difference_self(f, v);
    lemma2_to64_rest();
    if v is Fin {
        lemma_minimum_maximum_self(o);
        lemma_zero_sums(f);
        lemma_quotient_of_zero(f, two());
        lemma_product_zero(f, two());
        lemma_nan_absorbs(f, o);
        let black = minimum(
            minimum(f.difference(one(), v), f.difference(one(), v)),
            f.difference(one(), v),
        );
        lemma_nan_absorbs(f, black);
        let black_of_blue = minimum(
            minimum(f.difference(one(), v), f.difference(one(), v)),
            f.difference(one(), o),
        );
        lemma_nan_absorbs(f, black_of_blue);
    } else {
        let n = Value::Nan;
        lemma_minimum_maximum_self(n);
        lemma_nan_absorbs(f, n);
        lemma_nan_absorbs(f, two());
        let black = minimum(
            minimum(f.difference(one(), v), f.difference(one(), v)),
            f.difference(one(), v),
        );
        lemma_nan_absorbs(f, black);
        let black_of_blue = minimum(
            minimum(f.difference(one(), v), f.difference(one(), v)),
            f.difference(one(), n),
        );
        lemma_nan_absorbs(f, black_of_blue);
    }
}

} // verus!
