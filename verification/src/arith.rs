//! The arithmetic of a binary floating-point format: each operation is the
//! exact result rounded to the format.
use vstd::prelude::*;
use vstd::arithmetic::div_mod::*;
use vstd::arithmetic::power2::*;
use crate::quantity::{Quantity, pow2_or_one};
use crate::rounding::{Format, Parts, Value, round, pow2_u128, lemma_pow2_le, lemma_dyadic_units};

verus! {

/// The integer `m`, negated where `neg` holds.
pub open spec fn signed(neg: bool, m: nat) -> int {
    if neg {
        -(m as int)
    } else {
        m as int
    }
}

/// The distance of `x` from zero.
pub open spec fn magnitude(x: int) -> nat {
    if x < 0 {
        (-x) as nat
    } else {
        x as nat
    }
}

impl Value {
    pub open spec fn is_nan(self) -> bool {
        self is Nan
    }

    pub open spec fn is_zero(self) -> bool {
        self matches Value::Fin { mant, .. } && mant == 0
    }

    /// The same value with the opposite sign; not-a-number stays.
    pub open spec fn negated(self) -> Value {
        match self {
            Value::Nan => Value::Nan,
            Value::Inf { neg } => Value::Inf { neg: !neg },
            Value::Fin { neg, mant, exp } => Value::Fin { neg: !neg, mant, exp },
        }
    }

    /// Whether `self` lies strictly below `other` on the number line. The two
    /// zeros are equal; not-a-number is below nothing and nothing is below it.
    #[verifier::opaque]
    pub open spec fn below(self, other: Value) -> bool {
        match (self, other) {
            (Value::Nan, _) => false,
            (_, Value::Nan) => false,
            (Value::Inf { neg: na }, Value::Inf { neg: nb }) => na && !nb,
            (Value::Inf { neg }, Value::Fin { .. }) => neg,
            (Value::Fin { .. }, Value::Inf { neg }) => !neg,
            (
                Value::Fin { neg: na, mant: ma, exp: ea },
                Value::Fin { neg: nb, mant: mb, exp: eb },
            ) => {
                let e = if ea <= eb {
                    ea
                } else {
                    eb
                };
                signed(na, ma * pow2((ea - e) as nat)) < signed(nb, mb * pow2((eb - e) as nat))
            },
        }
    }
}

impl Format {
    /// Zero of the given sign.
    pub open spec fn zero(self, neg: bool) -> Value {
        Value::Fin { neg, mant: 0, exp: self.emin as int }
    }

    /// `a + b`: the exact sum, rounded. An exact zero is negative only where
    /// both terms are.
    #[verifier::opaque]
    pub open spec fn sum(self, a: Value, b: Value) -> Value {
        match (a, b) {
            (Value::Nan, _) => Value::Nan,
            (_, Value::Nan) => Value::Nan,
            (Value::Inf { neg: na }, Value::Inf { neg: nb }) => if na == nb {
                a
            } else {
                Value::Nan
            },
            (Value::Inf { .. }, Value::Fin { .. }) => a,
            (Value::Fin { .. }, Value::Inf { .. }) => b,
            (
                Value::Fin { neg: na, mant: ma, exp: ea },
                Value::Fin { neg: nb, mant: mb, exp: eb },
            ) => {
                let e = if ea <= eb {
                    ea
                } else {
                    eb
                };
                let x = signed(na, ma * pow2((ea - e) as nat)) + signed(
                    nb,
                    mb * pow2((eb - e) as nat),
                );
                if x == 0 {
                    self.zero(na && nb)
                } else {
                    self.rounded(x < 0, Quantity::dyadic(magnitude(x), e))
                }
            },
        }
    }

    /// `a - b`: the sum of `a` and the negated `b`.
    pub open spec fn difference(self, a: Value, b: Value) -> Value {
        self.sum(a, b.negated())
    }

    /// `a * b`: the exact product, rounded.
    #[verifier::opaque]
    pub open spec fn product(self, a: Value, b: Value) -> Value {
        match (a, b) {
            (Value::Nan, _) => Value::Nan,
            (_, Value::Nan) => Value::Nan,
            (Value::Inf { neg: na }, Value::Inf { neg: nb }) => Value::Inf { neg: na != nb },
            (Value::Inf { neg: na }, Value::Fin { neg: nb, mant, .. }) => if mant == 0 {
                Value::Nan
            } else {
                Value::Inf { neg: na != nb }
            },
            (Value::Fin { neg: na, mant, .. }, Value::Inf { neg: nb }) => if mant == 0 {
                Value::Nan
            } else {
                Value::Inf { neg: na != nb }
            },
            (
                Value::Fin { neg: na, mant: ma, exp: ea },
                Value::Fin { neg: nb, mant: mb, exp: eb },
            ) => self.rounded(na != nb, Quantity::dyadic(ma * mb, ea + eb)),
        }
    }

    /// `a / b`: the exact quotient, rounded. Zero by zero and infinity by
    /// infinity are not numbers; anything else by zero is infinite.
    #[verifier::opaque]
    pub open spec fn quotient(self, a: Value, b: Value) -> Value {
        match (a, b) {
            (Value::Nan, _) => Value::Nan,
            (_, Value::Nan) => Value::Nan,
            (Value::Inf { .. }, Value::Inf { .. }) => Value::Nan,
            (Value::Inf { neg: na }, Value::Fin { neg: nb, .. }) => Value::Inf { neg: na != nb },
            (Value::Fin { neg: na, .. }, Value::Inf { neg: nb }) => self.zero(na != nb),
            (
                Value::Fin { neg: na, mant: ma, exp: ea },
                Value::Fin { neg: nb, mant: mb, exp: eb },
            ) => if mb == 0 {
                if ma == 0 {
                    Value::Nan
                } else {
                    Value::Inf { neg: na != nb }
                }
            } else {
                self.rounded(na != nb, Quantity { num: ma, den: mb, exp: ea - eb })
            },
        }
    }

    /// The whole number `v`, rounded.
    pub open spec fn of_nat(self, v: nat) -> Value {
        self.rounded(false, Quantity::dyadic(v, 0))
    }

    /// A value of any format, rounded to this one.
    pub open spec fn converted(self, v: Value) -> Value {
        match v {
            Value::Fin { neg, mant, exp } => self.rounded(neg, Quantity::dyadic(mant, exp)),
            _ => v,
        }
    }
}

/// The smaller of two values. Where one is not a number the other is
/// returned; where neither is below the other, the first.
#[verifier::opaque]
pub open spec fn minimum(a: Value, b: Value) -> Value {
    if a is Nan {
        b
    } else if b.below(a) {
        b
    } else {
        a
    }
}

/// The larger of two values. Where one is not a number the other is
/// returned; where neither is below the other, the first.
#[verifier::opaque]
pub open spec fn maximum(a: Value, b: Value) -> Value {
    if a is Nan {
        b
    } else if a.below(b) {
        b
    } else {
        a
    }
}

/// `v` cut to a whole number towards zero and held within `0..=max`;
/// not-a-number gives 0.
#[verifier::opaque]
pub open spec fn truncated(v: Value, max: nat) -> nat {
    match v {
        Value::Nan => 0,
        Value::Inf { neg } => if neg {
            0
        } else {
            max
        },
        Value::Fin { neg, mant, exp } => {
            let w = Quantity::dyadic(mant, exp).units(0);
            if neg {
                0
            } else if w > max {
                max
            } else {
                w
            }
        },
    }
}

pub fn negate(a: Parts) -> (r: Parts)
    ensures
        r@ == a@.negated(),
{
    match a {
        Parts::Nan => Parts::Nan,
        Parts::Inf { neg } => Parts::Inf { neg: !neg },
        Parts::Fin { neg, mant, exp } => Parts::Fin { neg: !neg, mant, exp },
    }
}

impl Format {
    /// Adds two finite values, the first with the exponent that is not smaller.
    fn add_finite(&self, nh: bool, mh: u64, eh: i32, nl: bool, ml: u64, el: i32) -> (r: Parts)
        requires
            self.wf(),
            self.holds(Value::Fin { neg: nh, mant: mh as nat, exp: eh as int }),
            self.holds(Value::Fin { neg: nl, mant: ml as nat, exp: el as int }),
            eh >= el,
        ensures
            r@ == self.sum(
                Value::Fin { neg: nh, mant: mh as nat, exp: eh as int },
                Value::Fin { neg: nl, mant: ml as nat, exp: el as int },
            ),
            self.holds(r@),
    {
        proof {
            reveal(Format::sum);
        }
        let d: i64 = eh as i64 - el as i64;
        let ghost pd = pow2(d as nat);
        let ghost x = signed(nh, mh as nat * pd) + signed(nl, ml as nat * pow2(0));
        proof {
            self.lemma_prec_bounds();
            lemma2_to64();
            lemma2_to64_rest();
            lemma_pow2_pos(d as nat);
            assert(ml as nat * pow2(0) == ml) by (nonlinear_arith)
                requires
                    pow2(0) == 1,
            ;
            assert(mh as nat * pd >= 0) by (nonlinear_arith)
                requires
                    pd > 0,
            ;
        }
        if d <= 64 {
            let p: u128 = pow2_u128(d as u32);
            proof {
                lemma_pow2_le(d as nat, 64);
                assert(mh * p <= 0x20_0000_0000_0000 * 0x1_0000_0000_0000_0000) by (nonlinear_arith)
                    requires
                        mh <= 0x20_0000_0000_0000,
                        p <= 0x1_0000_0000_0000_0000,
                ;
            }
            let h: u128 = (mh as u128) * p;
            let l: u128 = ml as u128;
            if nh == nl {
                let m: u128 = h + l;
                proof {
                    lemma_dyadic_units(m as nat, el as int);
                }
                if m == 0 {
                    Parts::Fin { neg: nh, mant: 0, exp: self.emin }
                } else {
                    round(self, nh, m, el as i64, false, Ghost(Quantity::dyadic(m as nat, el as int)))
                }
            } else if h >= l {
                let m: u128 = h - l;
                proof {
                    lemma_dyadic_units(m as nat, el as int);
                }
                if m == 0 {
                    Parts::Fin { neg: false, mant: 0, exp: self.emin }
                } else {
                    round(self, nh, m, el as i64, false, Ghost(Quantity::dyadic(m as nat, el as int)))
                }
            } else {
                let m: u128 = l - h;
                proof {
                    lemma_dyadic_units(m as nat, el as int);
                }
                round(self, nl, m, el as i64, false, Ghost(Quantity::dyadic(m as nat, el as int)))
            }
        } else {
            // The smaller term lies far below the last bit of the larger one: it
            // can only tip the rounding.
            let ghost q = Quantity::dyadic(magnitude(x), el as int);
            let ghost unit = pow2((d - 3) as nat);
            proof {
                lemma_pow2_adds(3, (d - 3) as nat);
                lemma_pow2_le(53, (d - 3) as nat);
                lemma_pow2_pos((d - 3) as nat);
                assert(mh as nat * pd == (mh * 8) * unit) by (nonlinear_arith)
                    requires
                        pd == 8 * unit,
                ;
                assert(q.numer_at(eh - 3) == magnitude(x)) by (nonlinear_arith)
                    requires
                        q.numer_at(eh - 3) == magnitude(x) * 1,
                ;
                assert(q.denom_at(eh - 3) == unit);
                assert((mh * 8) * unit >= 8 * unit) by (nonlinear_arith)
                    requires
                        mh >= 1,
                        unit > 0,
                ;
            }
            if ml == 0 {
                proof {
                    lemma_dyadic_units(mh as nat, eh as int);
                    let qh = Quantity::dyadic(mh as nat, eh as int);
                    assert(q.numer_at(eh as int) == mh * pd) by (nonlinear_arith)
                        requires
                            q.numer_at(eh as int) == (mh * pd) * 1,
                    ;
                    assert(q.denom_at(eh as int) == pd);
                    lemma_fundamental_div_mod_converse(mh * pd, pd as int, mh as int, 0);
                }
                round(self, nh, mh as u128, eh as i64, false, Ghost(q))
            } else if nh == nl {
                let m: u128 = (mh as u128) * 8;
                proof {
                    assert(magnitude(x) == m * unit + ml);
                    lemma_fundamental_div_mod_converse(
                        magnitude(x) as int,
                        unit as int,
                        m as int,
                        ml as int,
                    );
                }
                round(self, nh, m, eh as i64 - 3, true, Ghost(q))
            } else {
                let m: u128 = (mh as u128) * 8 - 1;
                proof {
                    assert(magnitude(x) == m * unit + (unit - ml)) by (nonlinear_arith)
                        requires
                            magnitude(x) == (mh * 8) * unit - ml,
                            m == mh * 8 - 1,
                    ;
                    lemma_fundamental_div_mod_converse(
                        magnitude(x) as int,
                        unit as int,
                        m as int,
                        unit - ml,
                    );
                }
                round(self, nh, m, eh as i64 - 3, true, Ghost(q))
            }
        }
    }

    pub fn add(&self, a: Parts, b: Parts) -> (r: Parts)
        requires
            self.wf(),
            self.holds(a@),
            self.holds(b@),
        ensures
            r@ == self.sum(a@, b@),
            self.holds(r@),
    {
        proof {
            reveal(Format::sum);
        }
        match (a, b) {
            (Parts::Nan, _) => Parts::Nan,
            (_, Parts::Nan) => Parts::Nan,
            (Parts::Inf { neg: na }, Parts::Inf { neg: nb }) => if na == nb {
                a
            } else {
                Parts::Nan
            },
            (Parts::Inf { .. }, Parts::Fin { .. }) => a,
            (Parts::Fin { .. }, Parts::Inf { .. }) => b,
            (Parts::Fin { neg: na, mant: ma, exp: ea }, Parts::Fin { neg: nb, mant: mb, exp: eb }) => {
                if ea >= eb {
                    self.add_finite(na, ma, ea, nb, mb, eb)
                } else {
                    self.add_finite(nb, mb, eb, na, ma, ea)
                }
            },
        }
    }

    pub fn sub(&self, a: Parts, b: Parts) -> (r: Parts)
        requires
            self.wf(),
            self.holds(a@),
            self.holds(b@),
        ensures
            r@ == self.difference(a@, b@),
            self.holds(r@),
    {
        self.add(a, negate(b))
    }

    pub fn mul(&self, a: Parts, b: Parts) -> (r: Parts)
        requires
            self.wf(),
            self.holds(a@),
            self.holds(b@),
        ensures
            r@ == self.product(a@, b@),
            self.holds(r@),
    {
        proof {
            reveal(Format::product);
        }
        match (a, b) {
            (Parts::Nan, _) => Parts::Nan,
            (_, Parts::Nan) => Parts::Nan,
            (Parts::Inf { neg: na }, Parts::Inf { neg: nb }) => Parts::Inf { neg: na != nb },
            (Parts::Inf { neg: na }, Parts::Fin { neg: nb, mant, .. }) => if mant == 0 {
                Parts::Nan
            } else {
                Parts::Inf { neg: na != nb }
            },
            (Parts::Fin { neg: na, mant, .. }, Parts::Inf { neg: nb }) => if mant == 0 {
                Parts::Nan
            } else {
                Parts::Inf { neg: na != nb }
            },
            (
                Parts::Fin { neg: na, mant: ma, exp: ea },
                Parts::Fin { neg: nb, mant: mb, exp: eb },
            ) => {
                proof {
                    self.lemma_prec_bounds();
                    assert(ma * mb <= 0x20_0000_0000_0000 * 0x20_0000_0000_0000)
                        by (nonlinear_arith)
                        requires
                            ma <= 0x20_0000_0000_0000,
                            mb <= 0x20_0000_0000_0000,
                    ;
                }
                let m: u128 = (ma as u128) * (mb as u128);
                let e: i64 = ea as i64 + eb as i64;
                proof {
                    lemma_dyadic_units(m as nat, e as int);
                }
                round(self, na != nb, m, e, false, Ghost(Quantity::dyadic(m as nat, e as int)))
            },
        }
    }

    pub fn div(&self, a: Parts, b: Parts) -> (r: Parts)
        requires
            self.wf(),
            self.holds(a@),
            self.holds(b@),
        ensures
            r@ == self.quotient(a@, b@),
            self.holds(r@),
    {
        proof {
            reveal(Format::quotient);
        }
        match (a, b) {
            (Parts::Nan, _) => Parts::Nan,
            (_, Parts::Nan) => Parts::Nan,
            (Parts::Inf { .. }, Parts::Inf { .. }) => Parts::Nan,
            (Parts::Inf { neg: na }, Parts::Fin { neg: nb, .. }) => Parts::Inf { neg: na != nb },
            (Parts::Fin { neg: na, .. }, Parts::Inf { neg: nb }) => Parts::Fin {
                neg: na != nb,
                mant: 0,
                exp: self.emin,
            },
            (
                Parts::Fin { neg: na, mant: ma, exp: ea },
                Parts::Fin { neg: nb, mant: mb, exp: eb },
            ) => {
                if mb == 0 {
                    if ma == 0 {
                        Parts::Nan
                    } else {
                        Parts::Inf { neg: na != nb }
                    }
                } else {
                    self.div_finite(na != nb, ma, ea, mb, eb)
                }
            },
        }
    }

    /// Divides `ma * 2^ea` by `mb * 2^eb`: the dividend is first shifted up
    /// so that the whole part of the quotient has bits to spare.
    fn div_finite(&self, neg: bool, ma: u64, ea: i32, mb: u64, eb: i32) -> (r: Parts)
        requires
            self.wf(),
            ma < pow2(self.prec as nat),
            0 < mb < pow2(self.prec as nat),
            self.emin <= ea <= self.emax,
            self.emin <= eb <= self.emax,
        ensures
            r@ == self.rounded(neg, Quantity { num: ma as nat, den: mb as nat, exp: ea - eb }),
            self.holds(r@),
    {
        let ghost q = Quantity { num: ma as nat, den: mb as nat, exp: ea - eb };
        let mut n: u64 = ma;
        let mut j: i64 = 0;
        proof {
            self.lemma_prec_bounds();
            lemma2_to64();
            lemma2_to64_rest();
            assert(ma == ma * pow2(0)) by (nonlinear_arith)
                requires
                    pow2(0) == 1,
            ;
        }
        while 0 < n && n < 0x8000_0000_0000_0000
            invariant
                n == ma * pow2(j as nat),
                0 <= j <= 63,
            decreases 64 - j,
        {
            proof {
                lemma_pow2_unfold((j + 1) as nat);
                lemma2_to64_rest();
                if j >= 63 {
                    lemma_pow2_le(63, j as nat);
                }
                assert(n >= pow2(j as nat) && ma * (2 * pow2(j as nat)) == 2 * n)
                    by (nonlinear_arith)
                    requires
                        n == ma * pow2(j as nat),
                        n > 0,
                        pow2(j as nat) > 0,
                ;
            }
            n = n * 2;
            j = j + 1;
        }
        let wide: u128 = (n as u128) * 0x1_0000_0000_0000_0000;
        let m: u128 = wide / (mb as u128);
        let sticky: bool = wide % (mb as u128) != 0;
        let e: i64 = ea as i64 - eb as i64 - j - 64;
        proof {
            lemma_pow2_adds(j as nat, 64);
            assert(q.numer_at(e as int) == wide) by (nonlinear_arith)
                requires
                    q.numer_at(e as int) == ma * pow2((j + 64) as nat),
                    pow2((j + 64) as nat) == pow2(j as nat) * 0x1_0000_0000_0000_0000,
                    wide == (ma * pow2(j as nat)) * 0x1_0000_0000_0000_0000,
            ;
            assert(q.denom_at(e as int) == mb) by (nonlinear_arith)
                requires
                    q.denom_at(e as int) == mb * 1,
            ;
            if n > 0 {
                // the quotient is at least 2^127 / 2^53
                lemma_pow2_le((self.prec + 1) as nat, 54);
                lemma2_to64_rest();
                assert(n >= 0x8000_0000_0000_0000);
                assert(wide / (mb as u128) >= 0x40_0000_0000_0000) by (nonlinear_arith)
                    requires
                        wide >= 0x8000_0000_0000_0000 * 0x1_0000_0000_0000_0000,
                        0 < mb <= 0x20_0000_0000_0000,
                ;
            } else {
                lemma_small_mod(0, mb as nat);
            }
        }
        round(self, neg, m, e, sticky, Ghost(q))
    }

    /// The whole number `v` as a value of the format.
    pub fn of_u64(&self, v: u64) -> (r: Parts)
        requires
            self.wf(),
        ensures
            r@ == self.of_nat(v as nat),
            self.holds(r@),
    {
        proof {
            lemma_dyadic_units(v as nat, 0);
        }
        round(self, false, v as u128, 0, false, Ghost(Quantity::dyadic(v as nat, 0)))
    }

    /// A value of another format as a value of this one.
    pub fn convert(&self, from: &Format, a: Parts) -> (r: Parts)
        requires
            self.wf(),
            from.wf(),
            from.holds(a@),
        ensures
            r@ == self.converted(a@),
            self.holds(r@),
    {
        match a {
            Parts::Nan => Parts::Nan,
            Parts::Inf { neg } => Parts::Inf { neg },
            Parts::Fin { neg, mant, exp } => {
                proof {
                    lemma_dyadic_units(mant as nat, exp as int);
                }
                round(
                    self,
                    neg,
                    mant as u128,
                    exp as i64,
                    false,
                    Ghost(Quantity::dyadic(mant as nat, exp as int)),
                )
            },
        }
    }

    /// Whether `ma * 2^ea` is less than `mb * 2^eb`, both in normal form.
    fn magnitude_below(&self, ma: u64, ea: i32, mb: u64, eb: i32) -> (r: bool)
        requires
            self.wf(),
            self.holds(Value::Fin { neg: false, mant: ma as nat, exp: ea as int }),
            self.holds(Value::Fin { neg: false, mant: mb as nat, exp: eb as int }),
        ensures
            r == ({
                let e = if ea <= eb {
                    ea as int
                } else {
                    eb as int
                };
                ma * pow2((ea - e) as nat) < mb * pow2((eb - e) as nat)
            }),
    {
        proof {
            self.lemma_prec_bounds();
            lemma2_to64();
            let h = pow2((self.prec - 1) as nat);
            if ea < eb {
                let p = pow2((eb - ea) as nat);
                lemma_pow2_le(1, (eb - ea) as nat);
                assert(ma * pow2(0) < mb * p) by (nonlinear_arith)
                    requires
                        pow2(0) == 1,
                        ma < 2 * h,
                        mb >= h,
                        p >= 2,
                ;
            } else if ea > eb {
                let p = pow2((ea - eb) as nat);
                lemma_pow2_le(1, (ea - eb) as nat);
                assert(ma * p >= mb * pow2(0)) by (nonlinear_arith)
                    requires
                        pow2(0) == 1,
                        mb < 2 * h,
                        ma >= h,
                        p >= 2,
                ;
            } else {
                assert(ma * pow2(0) == ma && mb * pow2(0) == mb) by (nonlinear_arith)
                    requires
                        pow2(0) == 1,
                ;
            }
        }
        if ea == eb {
            ma < mb
        } else {
            ea < eb
        }
    }

    /// Whether `a` lies strictly below `b`.
    pub fn below(&self, a: Parts, b: Parts) -> (r: bool)
        requires
            self.wf(),
            self.holds(a@),
            self.holds(b@),
        ensures
            r == a@.below(b@),
    {
        proof {
            reveal(Value::below);
        }
        match (a, b) {
            (Parts::Nan, _) => false,
            (_, Parts::Nan) => false,
            (Parts::Inf { neg: na }, Parts::Inf { neg: nb }) => na && !nb,
            (Parts::Inf { neg }, Parts::Fin { .. }) => neg,
            (Parts::Fin { .. }, Parts::Inf { neg }) => !neg,
            (
                Parts::Fin { neg: na, mant: ma, exp: ea },
                Parts::Fin { neg: nb, mant: mb, exp: eb },
            ) => {
                proof {
                    let e = if ea <= eb {
                        ea as int
                    } else {
                        eb as int
                    };
                    lemma_pow2_pos((ea - e) as nat);
                    lemma_pow2_pos((eb - e) as nat);
                    let pa = pow2((ea - e) as nat);
                    let pb = pow2((eb - e) as nat);
                    assert((ma * pa == 0 <==> ma == 0) && (mb * pb == 0 <==> mb == 0) && ma * pa
                        >= 0 && mb * pb >= 0) by (nonlinear_arith)
                        requires
                            pa > 0,
                            pb > 0,
                    ;
                }
                if na {
                    if nb {
                        self.magnitude_below(mb, eb, ma, ea)
                    } else {
                        ma != 0 || mb != 0
                    }
                } else {
                    if nb {
                        false
                    } else {
                        self.magnitude_below(ma, ea, mb, eb)
                    }
                }
            },
        }
    }

    pub fn min(&self, a: Parts, b: Parts) -> (r: Parts)
        requires
            self.wf(),
            self.holds(a@),
            self.holds(b@),
        ensures
            r@ == minimum(a@, b@),
            self.holds(r@),
    {
        proof {
            reveal(minimum);
        }
        match a {
            Parts::Nan => b,
            _ => if self.below(b, a) {
                b
            } else {
                a
            },
        }
    }

    pub fn max(&self, a: Parts, b: Parts) -> (r: Parts)
        requires
            self.wf(),
            self.holds(a@),
            self.holds(b@),
        ensures
            r@ == maximum(a@, b@),
            self.holds(r@),
    {
        proof {
            reveal(maximum);
        }
        match a {
            Parts::Nan => b,
            _ => if self.below(a, b) {
                b
            } else {
                a
            },
        }
    }

    /// `a` cut to a whole number towards zero, held within `0..=max`.
    pub fn to_u64(&self, a: Parts, max: u64) -> (r: u64)
        requires
            self.wf(),
            self.holds(a@),
        ensures
            r == truncated(a@, max as nat),
            r <= max,
    {
        proof {
            reveal(truncated);
        }
        match a {
            Parts::Nan => 0,
            Parts::Inf { neg } => if neg {
                0
            } else {
                max
            },
            Parts::Fin { neg, mant, exp } => {
                let ghost q = Quantity::dyadic(mant as nat, exp as int);
                proof {
                    self.lemma_prec_bounds();
                    lemma2_to64();
                    lemma2_to64_rest();
                }
                if neg || mant == 0 {
                    proof {
                        if mant == 0 {
                            assert(q.numer_at(0) == 0) by (nonlinear_arith)
                                requires
                                    q.numer_at(0) == 0 * pow2_or_one(exp as int),
                            ;
                            if exp < 0 {
                                lemma_pow2_pos((-exp) as nat);
                            }
                            lemma_basic_div(0, q.denom_at(0) as int);
                        }
                    }
                    0
                } else if exp >= 0 {
                    proof {
                        assert(q.denom_at(0) == 1);
                    }
                    if exp >= 64 {
                        proof {
                            lemma_pow2_le(64, exp as nat);
                            assert(q.numer_at(0) >= 0x1_0000_0000_0000_0000) by (nonlinear_arith)
                                requires
                                    q.numer_at(0) == mant * pow2_or_one(exp as int),
                                    mant >= 1,
                                    pow2_or_one(exp as int) >= 0x1_0000_0000_0000_0000,
                            ;
                        }
                        max
                    } else {
                        let p: u128 = pow2_u128(exp as u32);
                        proof {
                            lemma_pow2_le(exp as nat, 63);
                            assert(pow2_or_one(exp as int) == p);
                            assert(mant * p <= 0x20_0000_0000_0000 * 0x8000_0000_0000_0000)
                                by (nonlinear_arith)
                                requires
                                    mant <= 0x20_0000_0000_0000,
                                    p <= 0x8000_0000_0000_0000,
                            ;
                        }
                        let w: u128 = (mant as u128) * p;
                        if w > max as u128 {
                            max
                        } else {
                            w as u64
                        }
                    }
                } else {
                    proof {
                        assert(q.numer_at(0) == mant) by (nonlinear_arith)
                            requires
                                q.numer_at(0) == mant * 1,
                        ;
                    }
                    if exp <= -64 {
                        proof {
                            lemma_pow2_le(64, (-exp) as nat);
                            assert(q.denom_at(0) == pow2((-exp) as nat));
                            lemma_basic_div(mant as int, q.denom_at(0) as int);
                        }
                        0
                    } else {
                        let p: u128 = pow2_u128((-exp) as u32);
                        proof {
                            assert(q.denom_at(0) == p);
                        }
                        let w: u64 = ((mant as u128) / p) as u64;
                        if w > max {
                            max
                        } else {
                            w
                        }
                    }
                }
            },
        }
    }
}

/// A quantity that is zero rounds to zero of the given sign.
pub proof fn lemma_rounded_zero(f: Format, neg: bool, q: Quantity)
    requires
        f.wf(),
        q.num == 0,
        q.den > 0,
    ensures
        f.rounded(neg, q) == f.zero(neg),
{
    let e = f.emin as int;
    assert(q.numer_at(e) == 0) by (nonlinear_arith)
        requires
            q.numer_at(e) == 0 * pow2_or_one(q.exp - e),
    ;
    if e - q.exp > 0 {
        lemma_pow2_pos((e - q.exp) as nat);
    }
    assert(q.denom_at(e) > 0) by (nonlinear_arith)
        requires
            q.denom_at(e) == q.den * pow2_or_one(e - q.exp),
            q.den > 0,
            pow2_or_one(e - q.exp) > 0,
    ;
    lemma_basic_div(0, q.denom_at(e) as int);
    lemma_small_mod(0, q.denom_at(e));
    lemma_pow2_pos(f.prec as nat);
    f.lemma_rounded_exact(neg, q, 0, e);
}

/// A value less itself is zero, or not a number where the value is not finite.
pub proof fn lemma_difference_self(f: Format, v: Value)
    ensures
        f.difference(v, v) == (if v is Fin {
            f.zero(false)
        } else {
            Value::Nan
        }),
{
    reveal(Format::sum);
}

/// Zero plus zero and zero less zero, both positive, are positive zero.
pub proof fn lemma_zero_sums(f: Format)
    ensures
        f.sum(f.zero(false), f.zero(false)) == f.zero(false),
        f.difference(f.zero(false), f.zero(false)) == f.zero(false),
{
    reveal(Format::sum);
    lemma2_to64();
    assert(0 * pow2(0) == 0) by (nonlinear_arith);
}

/// The product of a finite value and zero is zero.
pub proof fn lemma_product_zero(f: Format, v: Value)
    requires
        f.wf(),
        v is Fin,
    ensures
        f.product(v, f.zero(false)) == f.zero(v->Fin_neg),
{
    reveal(Format::product);
    let m = v->Fin_mant;
    assert(m * 0 == 0) by (nonlinear_arith);
    lemma_rounded_zero(f, v->Fin_neg, Quantity::dyadic(0, v->Fin_exp + f.emin));
}

/// Zero over a finite value other than zero is zero.
pub proof fn lemma_quotient_of_zero(f: Format, v: Value)
    requires
        f.wf(),
        v is Fin,
        !v.is_zero(),
    ensures
        f.quotient(f.zero(false), v) == f.zero(v->Fin_neg),
{
    reveal(Format::quotient);
    lemma_rounded_zero(
        f,
        v->Fin_neg,
        Quantity { num: 0, den: v->Fin_mant, exp: f.emin - v->Fin_exp },
    );
}

/// Not-a-number goes through every operation.
pub proof fn lemma_nan_absorbs(f: Format, v: Value)
    ensures
        f.sum(Value::Nan, v) == Value::Nan,
        f.sum(v, Value::Nan) == Value::Nan,
        f.difference(Value::Nan, v) == Value::Nan,
        f.difference(v, Value::Nan) == Value::Nan,
        f.product(Value::Nan, v) == Value::Nan,
        f.product(v, Value::Nan) == Value::Nan,
        f.quotient(Value::Nan, v) == Value::Nan,
        f.quotient(v, Value::Nan) == Value::Nan,
        f.quotient(f.zero(false), f.zero(false)) == Value::Nan,
{
    reveal(Format::sum);
    reveal(Format::product);
    reveal(Format::quotient);
}

/// The smaller and the larger of a value and itself is that value.
pub proof fn lemma_minimum_maximum_self(v: Value)
    ensures
        minimum(v, v) == v,
        maximum(v, v) == v,
{
    reveal(minimum);
    reveal(maximum);
    reveal(Value::below);
}

/// By how many bits a mantissa `m` is to be shifted up to reach `top`.
pub open spec fn lift(m: nat, top: nat) -> nat
    decreases (if m < top { top - m } else { 0 }),
{
    if m == 0 || m >= top {
        0
    } else {
        1 + lift(2 * m, top)
    }
}

/// Shifted up by `lift`, a mantissa below `2 * top` lies between `top` and
/// `2 * top`.
pub proof fn lemma_lift(m: nat, top: nat)
    requires
        0 < m < 2 * top,
    ensures
        top <= m * pow2(lift(m, top)) < 2 * top,
    decreases (if m < top { top - m } else { 0 }),
{
    lemma2_to64();
    if m >= top {
        assert(m * pow2(0) == m) by (nonlinear_arith)
            requires
                pow2(0) == 1,
        ;
    } else {
        lemma_lift(2 * m, top);
        let k = lift(2 * m, top);
        lemma_pow2_unfold(k + 1);
        assert(m * (2 * pow2(k)) == (2 * m) * pow2(k)) by (nonlinear_arith);
    }
}

/// `m * 2^e` counted in units `2^(e - k)` is `m * 2^k`, and counted back in
/// units `2^e` it is `m`; both counts are exact.
pub proof fn lemma_dyadic_rescaled(m: nat, e: int, k: nat)
    ensures
        Quantity::dyadic(m, e).units(e - k) == m * pow2(k),
        Quantity::dyadic(m, e).exact(e - k),
        Quantity::dyadic(m * pow2(k), e - k).units(e) == m,
        Quantity::dyadic(m * pow2(k), e - k).exact(e),
{
    lemma2_to64();
    lemma_pow2_pos(k);
    let p = pow2(k);
    let q = Quantity::dyadic(m, e);
    let r = Quantity::dyadic(m * p, e - k);
    assert(pow2_or_one(k as int) == p);
    assert(q.denom_at(e - k) == 1);
    assert(r.numer_at(e) == m * p) by (nonlinear_arith)
        requires
            r.numer_at(e) == (m * p) * 1,
    ;
    assert(r.denom_at(e) == p);
    lemma_fundamental_div_mod_converse((m * p) as int, p as int, m as int, 0);
}

/// A value of format `a` that is converted to a format `b` holding all values
/// of `a`, and back, is unchanged.
pub proof fn lemma_converted_back(a: Format, b: Format, v: Value)
    requires
        a.wf(),
        b.wf(),
        a.holds(v),
        a.prec <= b.prec,
        b.emin + b.prec <= a.emin + 1,
        a.emax <= b.emax,
    ensures
        a.converted(b.converted(v)) == v,
        b.holds(b.converted(v)),
{
    match v {
        Value::Fin { neg, mant, exp } => {
            a.lemma_prec_bounds();
            b.lemma_prec_bounds();
            if mant == 0 {
                lemma_rounded_zero(b, neg, Quantity::dyadic(0, exp));
                lemma_rounded_zero(a, neg, Quantity::dyadic(0, b.emin as int));
                lemma_pow2_pos(b.prec as nat);
            } else {
                let top = pow2((b.prec - 1) as nat);
                lemma_pow2_le(a.prec as nat, b.prec as nat);
                lemma_lift(mant, top);
                let k = lift(mant, top);
                let wide = mant * pow2(k);
                if k >= b.prec {
                    lemma_pow2_le(b.prec as nat, k);
                    assert(mant * pow2(k) >= pow2(k)) by (nonlinear_arith)
                        requires
                            mant >= 1,
                            pow2(k) >= 0,
                    ;
                }
                lemma_dyadic_rescaled(mant, exp, k);
                b.lemma_rounded_exact(neg, Quantity::dyadic(mant, exp), wide, exp - k);
                a.lemma_rounded_exact(neg, Quantity::dyadic(wide, exp - k), mant, exp);
            }
        },
        _ => {},
    }
}

} // verus!
