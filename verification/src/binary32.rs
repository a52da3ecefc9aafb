//! IEEE 754 binary32 numbers as bit patterns, with exact arithmetic on them.
//!
//! Every finite binary32 number, and the half of every such number, is a
//! whole multiple of `2^-150`. That quantity is called a tick here. Sums and
//! differences are taken in ticks, so nothing is rounded before a bound is
//! floored or ceiled.

use vstd::prelude::*;
use vstd::arithmetic::div_mod::{
    lemma_div_is_ordered,
    lemma_fundamental_div_mod,
    lemma_fundamental_div_mod_converse,
    lemma_mod_bound,
};
use vstd::arithmetic::power2::{
    lemma2_to64,
    lemma2_to64_rest,
    lemma_pow2_adds,
    lemma_pow2_pos,
    lemma_pow2_strictly_increases,
    pow2,
};

verus! {

/// Ticks in one unit: `2^150`.
pub open spec fn ticks_per_unit() -> int {
    pow2(150) as int
}

/// The greatest whole number of units not above `t` ticks.
pub open spec fn floor_units(t: int) -> int {
    t / ticks_per_unit()
}

/// The least whole number of units not below `t` ticks.
pub open spec fn ceil_units(t: int) -> int {
    -((-t) / ticks_per_unit())
}

/// `v` saturated to `0 ..= 65535`.
pub open spec fn clamp16(v: int) -> u16 {
    if v < 0 {
        0
    } else if v > 65535 {
        65535
    } else {
        v as u16
    }
}

/// Whether the sign bit of the pattern is set.
pub open spec fn is_negative(b: u32) -> bool {
    b >= 0x8000_0000
}

/// The eight exponent bits of the pattern.
pub open spec fn exponent_field(b: u32) -> nat {
    (b / 0x80_0000 % 0x100) as nat
}

/// The twenty-three fraction bits of the pattern.
pub open spec fn fraction_field(b: u32) -> nat {
    (b % 0x80_0000) as nat
}

/// Whether the pattern is a NaN.
pub open spec fn is_nan(b: u32) -> bool {
    exponent_field(b) == 255 && fraction_field(b) != 0
}

/// Whether the pattern is an infinity.
pub open spec fn is_infinite(b: u32) -> bool {
    exponent_field(b) == 255 && fraction_field(b) == 0
}

/// The significand of a finite pattern as a whole number: the fraction bits,
/// with the implicit leading bit unless the number is subnormal.
pub open spec fn significand(b: u32) -> nat {
    if exponent_field(b) == 0 {
        fraction_field(b)
    } else {
        fraction_field(b) + 0x80_0000
    }
}

/// The power of two by which the significand of a finite pattern is
/// multiplied to give the number in units of `2^-149`.
pub open spec fn scale(b: u32) -> nat {
    if exponent_field(b) == 0 {
        0
    } else {
        (exponent_field(b) - 1) as nat
    }
}

/// The significand of a finite pattern with the sign of the number.
pub open spec fn signed_significand(b: u32) -> int {
    if is_negative(b) {
        -(significand(b) as int)
    } else {
        significand(b) as int
    }
}

/// A binary32 number, or the sum of two: not a number, an infinity, or a
/// whole number of ticks.
pub ghost enum Number {
    Nan,
    Infinite { negative: bool },
    Finite { ticks: int },
}

impl Number {
    /// The number with its sign flipped.
    pub open spec fn neg(self) -> Number {
        match self {
            Number::Nan => Number::Nan,
            Number::Infinite { negative } => Number::Infinite { negative: !negative },
            Number::Finite { ticks } => Number::Finite { ticks: -ticks },
        }
    }

    /// The exact sum. Infinities of opposite sign have none.
    pub open spec fn plus(self, other: Number) -> Number {
        match (self, other) {
            (Number::Nan, _) => Number::Nan,
            (_, Number::Nan) => Number::Nan,
            (Number::Infinite { negative: n1 }, Number::Infinite { negative: n2 }) => if n1 == n2 {
                self
            } else {
                Number::Nan
            },
            (Number::Infinite { .. }, Number::Finite { .. }) => self,
            (Number::Finite { .. }, Number::Infinite { .. }) => other,
            (Number::Finite { ticks: t1 }, Number::Finite { ticks: t2 }) => Number::Finite {
                ticks: t1 + t2,
            },
        }
    }

    /// The exact difference.
    pub open spec fn minus(self, other: Number) -> Number {
        self.plus(other.neg())
    }

    /// Whether `self` is less than `other`. Nothing is less than a NaN, and
    /// a NaN is less than nothing.
    pub open spec fn lt(self, other: Number) -> bool {
        match (self, other) {
            (Number::Nan, _) => false,
            (_, Number::Nan) => false,
            (Number::Infinite { negative: n1 }, Number::Infinite { negative: n2 }) => n1 && !n2,
            (Number::Infinite { negative }, Number::Finite { .. }) => negative,
            (Number::Finite { .. }, Number::Infinite { negative }) => !negative,
            (Number::Finite { ticks: t1 }, Number::Finite { ticks: t2 }) => t1 < t2,
        }
    }

    /// The number rounded down to a whole unit and saturated to
    /// `0 ..= 65535`; a NaN gives 0.
    pub open spec fn floor_clamped(self) -> u16 {
        match self {
            Number::Nan => 0,
            Number::Infinite { negative } => if negative {
                0
            } else {
                65535
            },
            Number::Finite { ticks } => clamp16(floor_units(ticks)),
        }
    }

    /// The number rounded up to a whole unit and saturated to `0 ..= 65535`;
    /// a NaN gives 0.
    pub open spec fn ceil_clamped(self) -> u16 {
        match self {
            Number::Nan => 0,
            Number::Infinite { negative } => if negative {
                0
            } else {
                65535
            },
            Number::Finite { ticks } => clamp16(ceil_units(ticks)),
        }
    }
}

/// The number that the pattern `b` stands for. A finite one is its signed
/// significand times `2^(scale - 149)`, which is `2^(scale + 1)` ticks.
pub open spec fn number(b: u32) -> Number {
    if is_nan(b) {
        Number::Nan
    } else if is_infinite(b) {
        Number::Infinite { negative: is_negative(b) }
    } else {
        Number::Finite { ticks: signed_significand(b) * pow2(scale(b) + 1) }
    }
}

/// Half the number that the pattern `b` stands for.
pub open spec fn half(b: u32) -> Number {
    if is_nan(b) {
        Number::Nan
    } else if is_infinite(b) {
        Number::Infinite { negative: is_negative(b) }
    } else {
        Number::Finite { ticks: signed_significand(b) * pow2(scale(b)) }
    }
}

/// The pattern `b` with its sign bit cleared.
pub open spec fn magnitude(b: u32) -> u32 {
    if is_negative(b) {
        (b - 0x8000_0000) as u32
    } else {
        b
    }
}

/// Whole units in `d * 2^e` ticks: a product where `e` reaches the tick
/// exponent, a quotient below it.
pub proof fn lemma_scaled_units(d: int, e: nat)
    ensures
        e >= 150 ==> floor_units(d * pow2(e)) == d * pow2((e - 150) as nat),
        e < 150 ==> floor_units(d * pow2(e)) == d / (pow2((150 - e) as nat) as int),
{
    let unit = pow2(150) as int;
    lemma_pow2_pos(150);
    if e >= 150 {
        let k = (e - 150) as nat;
        let pk = pow2(k) as int;
        lemma_pow2_adds(150, k);
        assert(d * (unit * pk) == (d * pk) * unit + 0) by (nonlinear_arith);
        lemma_fundamental_div_mod_converse(d * pow2(e), unit, d * pk, 0);
    } else {
        let k = (150 - e) as nat;
        let p = pow2(k) as int;
        let u = pow2(e) as int;
        lemma_pow2_adds(e, k);
        lemma_pow2_pos(k);
        lemma_pow2_pos(e);
        let q = d / p;
        let r = d % p;
        lemma_fundamental_div_mod(d, p);
        lemma_mod_bound(d, p);
        assert(d * u == q * (u * p) + r * u) by (nonlinear_arith)
            requires
                d == p * q + r,
        ;
        assert(0 <= r * u < u * p) by (nonlinear_arith)
            requires
                0 <= r < p,
                0 < u,
        ;
        lemma_fundamental_div_mod_converse(d * u, unit, q, r * u);
    }
}

/// `2^k` for a `k` below 63.
fn power_of_two(k: u32) -> (p: u64)
    requires
        k < 63,
    ensures
        p == pow2(k as nat),
        0 < p <= 0x4000_0000_0000_0000,
{
    proof {
        lemma2_to64();
        lemma2_to64_rest();
        lemma_pow2_pos(k as nat);
        if k < 62 {
            lemma_pow2_strictly_increases(k as nat, 62);
        }
        vstd::bits::lemma_u64_shl_is_mul(1, k as u64);
    }
    1u64 << (k as u64)
}

/// Whole units in `d * 2^e` ticks, rounded down and saturated.
fn floor_scaled(d: i64, e: u32) -> (r: u16)
    requires
        -0x2_0000_0000_0000 < d < 0x2_0000_0000_0000,
        e <= 255,
    ensures
        r == clamp16(floor_units(d * pow2(e as nat))),
{
    proof {
        lemma_scaled_units(d as int, e as nat);
        lemma2_to64();
        lemma2_to64_rest();
    }
    if d <= 0 {
        proof {
            lemma_nonpositive_units(d as int, e as nat);
        }
        0
    } else if e >= 150 {
        let k = e - 150;
        if k >= 16 || d >= 65535 {
            proof {
                lemma_pow2_pos(k as nat);
                if k >= 16 {
                    if k > 16 {
                        lemma_pow2_strictly_increases(16, k as nat);
                    }
                }
                assert(d * pow2(k as nat) >= 65535) by (nonlinear_arith)
                    requires
                        d >= 1,
                        pow2(k as nat) >= 1,
                        d >= 65535 || pow2(k as nat) >= 65536,
                ;
            }
            65535
        } else {
            let p = power_of_two(k);
            proof {
                lemma_pow2_strictly_increases(k as nat, 16);
                assert(d * p < 0x1_0000_0000) by (nonlinear_arith)
                    requires
                        0 < d < 65535,
                        0 < p < 65536,
                ;
            }
            let v = (d as u64) * p;
            if v >= 65535 {
                65535
            } else {
                v as u16
            }
        }
    } else {
        let k = 150 - e;
        if k >= 49 {
            proof {
                if k > 49 {
                    lemma_pow2_strictly_increases(49, k as nat);
                }
                vstd::arithmetic::div_mod::lemma_basic_div(d as int, pow2(k as nat) as int);
            }
            0
        } else {
            let p = power_of_two(k);
            let q = (d as u64) / p;
            if q >= 65535 {
                65535
            } else {
                q as u16
            }
        }
    }
}

/// Whole units in `d * 2^e` ticks, rounded up and saturated.
fn ceil_scaled(d: i64, e: u32) -> (r: u16)
    requires
        -0x2_0000_0000_0000 < d < 0x2_0000_0000_0000,
        e <= 255,
    ensures
        r == clamp16(ceil_units(d * pow2(e as nat))),
{
    proof {
        lemma_scaled_units(-(d as int), e as nat);
        lemma2_to64();
        lemma2_to64_rest();
        assert(-(d * pow2(e as nat)) == (-(d as int)) * pow2(e as nat)) by (nonlinear_arith);
    }
    if d <= 0 {
        proof {
            lemma_pow2_pos(e as nat);
            lemma_pow2_pos(150);
            assert((-(d as int)) * pow2(e as nat) >= 0) by (nonlinear_arith)
                requires
                    d <= 0,
                    pow2(e as nat) > 0,
            ;
            lemma_div_is_ordered(0, (-(d as int)) * pow2(e as nat), ticks_per_unit());
        }
        0
    } else if e >= 150 {
        proof {
            let k = (e - 150) as nat;
            lemma_scaled_units(d as int, e as nat);
            assert(-((-(d as int)) * pow2(k)) == d * pow2(k)) by (nonlinear_arith);
        }
        floor_scaled(d, e)
    } else {
        let k = 150 - e;
        if k >= 49 {
            proof {
                if k > 49 {
                    lemma_pow2_strictly_increases(49, k as nat);
                }
                let p = pow2(k as nat) as int;
                assert(-(d as int) == (-1) * p + (p - d)) by (nonlinear_arith);
                lemma_fundamental_div_mod_converse(-(d as int), p, -1, p - d);
            }
            1
        } else {
            let p = power_of_two(k);
            let q = (d as u64) / p;
            let rem = (d as u64) % p;
            proof {
                let pi = p as int;
                lemma_fundamental_div_mod(d as int, pi);
                assert(pi * (d as int / pi) == q * pi) by (nonlinear_arith)
                    requires
                        q == d as int / pi,
                ;
                if rem == 0 {
                    assert(-(d as int) == (-(q as int)) * pi + 0) by (nonlinear_arith)
                        requires
                            d == q * pi,
                    ;
                    lemma_fundamental_div_mod_converse(-(d as int), pi, -(q as int), 0);
                } else {
                    assert(-(d as int) == (-(q as int) - 1) * pi + (pi - rem)) by (nonlinear_arith)
                        requires
                            d == q * pi + rem,
                    ;
                    lemma_fundamental_div_mod_converse(
                        -(d as int),
                        pi,
                        -(q as int) - 1,
                        pi - rem,
                    );
                }
            }
            let up = if rem == 0 {
                q
            } else {
                q + 1
            };
            if up >= 65535 {
                65535
            } else {
                up as u16
            }
        }
    }
}

/// A quantity of ticks that is not positive has no positive floor.
proof fn lemma_nonpositive_units(d: int, e: nat)
    requires
        d <= 0,
    ensures
        floor_units(d * pow2(e)) <= 0,
{
    lemma_pow2_pos(e);
    lemma_pow2_pos(150);
    assert(d * pow2(e) <= 0) by (nonlinear_arith)
        requires
            d <= 0,
            pow2(e) > 0,
    ;
    lemma_div_is_ordered(d * pow2(e), 0, ticks_per_unit());
}

/// Two quantities of ticks that no bound can tell apart: they round down to
/// the same saturated value, round up to the same saturated value, and have
/// the same sign.
pub open spec fn same_bounds(t1: int, t2: int) -> bool {
    &&& clamp16(floor_units(t1)) == clamp16(floor_units(t2))
    &&& clamp16(ceil_units(t1)) == clamp16(ceil_units(t2))
    &&& (t1 < 0 <==> t2 < 0)
    &&& (t1 > 0 <==> t2 > 0)
}

/// Dividing by `a` and then by `b` is dividing by `a * b`.
proof fn lemma_div_div(x: int, a: int, b: int)
    requires
        a > 0,
        b > 0,
    ensures
        a * b > 0,
        (x / a) / b == x / (a * b),
{
    let q = x / a;
    let r = x % a;
    lemma_fundamental_div_mod(x, a);
    lemma_mod_bound(x, a);
    let q2 = q / b;
    let r2 = q % b;
    lemma_fundamental_div_mod(q, b);
    lemma_mod_bound(q, b);
    assert(x == q2 * (a * b) + (r2 * a + r)) by (nonlinear_arith)
        requires
            x == a * q + r,
            q == b * q2 + r2,
    ;
    assert(0 <= r2 * a + r < a * b) by (nonlinear_arith)
        requires
            0 <= r < a,
            0 <= r2 < b,
    ;
    lemma_fundamental_div_mod_converse(x, a * b, q2, r2 * a + r);
}

/// The quotient of `m * u + r` by `u * c`, for a remainder `r` below `u`,
/// is that of `m` by `c`.
proof fn lemma_between_multiples(t: int, m: int, u: int, r: int, c: int)
    requires
        u > 0,
        c > 0,
        0 <= r < u,
        t == m * u + r,
    ensures
        t / (u * c) == m / c,
{
    lemma_fundamental_div_mod_converse(t, u, m, r);
    lemma_div_div(t, u, c);
}

/// A quantity of at least `n` units rounds to at least `n` either way, and
/// one of at most `-n` units to at most `-n`.
proof fn lemma_units_bound(t: int, n: int)
    ensures
        t >= n * ticks_per_unit() ==> floor_units(t) >= n && ceil_units(t) >= n,
        t <= -n * ticks_per_unit() ==> floor_units(t) <= -n && ceil_units(t) <= -n,
{
    let unit = ticks_per_unit();
    lemma_pow2_pos(150);
    lemma_fundamental_div_mod_converse(n * unit, unit, n, 0);
    lemma_fundamental_div_mod_converse(-n * unit, unit, -n, 0);
    assert(-(n * unit) == -n * unit) by (nonlinear_arith);
    if t >= n * unit {
        lemma_div_is_ordered(n * unit, t, unit);
        lemma_div_is_ordered(-t, -n * unit, unit);
    }
    if t <= -n * unit {
        lemma_div_is_ordered(t, -n * unit, unit);
        lemma_div_is_ordered(n * unit, -t, unit);
    }
}

/// Beside a number with a full significand, a nonzero number of less than
/// half its last place can be replaced by exactly half that last place
/// without changing any bound.
proof fn lemma_sticky(m: int, he: nat, y: int)
    requires
        m >= 0x80_0000 || m <= -0x80_0000,
        25 <= he <= 254,
        -pow2((he - 1) as nat) < y < pow2((he - 1) as nat),
    ensures
        same_bounds(
            (2 * m + (if y > 0 {
                1int
            } else if y < 0 {
                -1int
            } else {
                0int
            })) * pow2((he - 1) as nat),
            m * pow2(he) + y,
        ),
{
    let h = pow2((he - 1) as nat) as int;
    let u = pow2(he) as int;
    let unit = ticks_per_unit();
    let s = if y > 0 {
        1int
    } else if y < 0 {
        -1int
    } else {
        0int
    };
    lemma_pow2_pos((he - 1) as nat);
    lemma_pow2_pos(150);
    lemma_pow2_adds((he - 1) as nat, 1);
    lemma2_to64();
    assert(u == 2 * h);
    let t = m * u + y;
    let t2 = (2 * m + s) * h;
    assert(t2 == m * u + s * h) by (nonlinear_arith)
        requires
            u == 2 * h,
            t2 == (2 * m + s) * h,
    ;
    if y == 0 {
        assert(t2 == t);
    } else if he >= 151 {
        let k = (he - 151) as nat;
        lemma_pow2_adds(150, k);
        lemma_pow2_pos(k);
        assert(h == unit * pow2(k));
        if m > 0 {
            assert(t >= 0xff_ffff * unit && t2 >= 0xff_ffff * unit) by (nonlinear_arith)
                requires
                    t == m * u + y,
                    t2 == m * u + s * h,
                    u == 2 * h,
                    -h < y < h,
                    -1 <= s <= 1,
                    m >= 0x80_0000,
                    h == unit * pow2(k),
                    pow2(k) >= 1,
                    unit > 0,
            ;
            lemma_units_bound(t, 0xff_ffff);
            lemma_units_bound(t2, 0xff_ffff);
        } else {
            assert(t <= -0xff_ffff * unit && t2 <= -0xff_ffff * unit) by (nonlinear_arith)
                requires
                    t == m * u + y,
                    t2 == m * u + s * h,
                    u == 2 * h,
                    -h < y < h,
                    -1 <= s <= 1,
                    m <= -0x80_0000,
                    h == unit * pow2(k),
                    pow2(k) >= 1,
                    unit > 0,
            ;
            lemma_units_bound(t, 0xff_ffff);
            lemma_units_bound(t2, 0xff_ffff);
        }
    } else {
        let c = pow2((150 - he) as nat) as int;
        lemma_pow2_adds(he, (150 - he) as nat);
        lemma_pow2_pos((150 - he) as nat);
        assert(unit == u * c);
        assert((m > 0 ==> t > 0 && t2 > 0) && (m < 0 ==> t < 0 && t2 < 0)) by (nonlinear_arith)
            requires
                t == m * u + y,
                t2 == m * u + s * h,
                u == 2 * h,
                -h < y < h,
                -1 <= s <= 1,
                h > 0,
        ;
        if y > 0 {
            lemma_between_multiples(t, m, u, y, c);
            lemma_between_multiples(t2, m, u, h, c);
            assert(-t == (-m - 1) * u + (u - y)) by (nonlinear_arith)
                requires
                    t == m * u + y,
            ;
            assert(-t2 == (-m - 1) * u + (u - h)) by (nonlinear_arith)
                requires
                    t2 == m * u + s * h,
                    s == 1,
            ;
            lemma_between_multiples(-t, -m - 1, u, u - y, c);
            lemma_between_multiples(-t2, -m - 1, u, u - h, c);
        } else {
            assert(t == (m - 1) * u + (u + y)) by (nonlinear_arith)
                requires
                    t == m * u + y,
            ;
            assert(t2 == (m - 1) * u + (u - h)) by (nonlinear_arith)
                requires
                    t2 == m * u + s * h,
                    s == -1,
            ;
            lemma_between_multiples(t, m - 1, u, u + y, c);
            lemma_between_multiples(t2, m - 1, u, u - h, c);
            assert(-t == (-m) * u + (-y)) by (nonlinear_arith)
                requires
                    t == m * u + y,
            ;
            assert(-t2 == (-m) * u + h) by (nonlinear_arith)
                requires
                    t2 == m * u + s * h,
                    s == -1,
            ;
            lemma_between_multiples(-t, -m, u, -y, c);
            lemma_between_multiples(-t2, -m, u, h, c);
        }
    }
}

/// A finite quantity in ticks: a sign, a whole mantissa and a power of two.
#[derive(Clone, Copy, Debug)]
pub struct Dyadic {
    pub negative: bool,
    pub mantissa: u32,
    pub exponent: u32,
}

impl Dyadic {
    /// The mantissa with the sign of the quantity.
    pub open spec fn signed(self) -> int {
        if self.negative {
            -(self.mantissa as int)
        } else {
            self.mantissa as int
        }
    }

    /// The quantity, in ticks.
    pub open spec fn ticks(self) -> int {
        self.signed() * pow2(self.exponent as nat)
    }

    /// The mantissa has at most 24 bits, and all of them unless the exponent
    /// is one of the two lowest.
    pub open spec fn wf(self) -> bool {
        &&& self.mantissa < 0x100_0000
        &&& self.exponent <= 254
        &&& self.exponent >= 2 ==> self.mantissa >= 0x80_0000
    }
}

/// A bit pattern taken apart, or the half of one.
#[derive(Clone, Copy, Debug)]
pub enum Decoded {
    Nan,
    Infinite { negative: bool },
    Finite(Dyadic),
}

impl View for Decoded {
    type V = Number;

    open spec fn view(&self) -> Number {
        match *self {
            Decoded::Nan => Number::Nan,
            Decoded::Infinite { negative } => Number::Infinite { negative },
            Decoded::Finite(d) => Number::Finite { ticks: d.ticks() },
        }
    }
}

impl Decoded {
    /// A finite value holds a well-formed quantity.
    pub open spec fn wf(self) -> bool {
        self matches Decoded::Finite(d) ==> d.wf()
    }

    /// The value with its sign flipped.
    pub fn negated(self) -> (r: Decoded)
        requires
            self.wf(),
        ensures
            r.wf(),
            r@ == self@.neg(),
    {
        match self {
            Decoded::Nan => Decoded::Nan,
            Decoded::Infinite { negative } => Decoded::Infinite { negative: !negative },
            Decoded::Finite(d) => {
                let flipped = Dyadic {
                    negative: !d.negative,
                    mantissa: d.mantissa,
                    exponent: d.exponent,
                };
                proof {
                    assert(flipped.signed() * pow2(d.exponent as nat) == -(d.signed() * pow2(
                        d.exponent as nat,
                    ))) by (nonlinear_arith)
                        requires
                            flipped.signed() == -d.signed(),
                    ;
                }
                Decoded::Finite(flipped)
            },
        }
    }
}

/// Takes the pattern `b` apart: with `halved` the result is half the number
/// that `b` stands for, which costs one step of the exponent and no bit of
/// the significand.
fn take_apart(b: u32, halved: bool) -> (r: Decoded)
    ensures
        r.wf(),
        r@ == (if halved {
            half(b)
        } else {
            number(b)
        }),
{
    let negative = b >= 0x8000_0000;
    let e = b / 0x80_0000 % 0x100;
    let f = b % 0x80_0000;
    if e == 255 {
        if f != 0 {
            Decoded::Nan
        } else {
            Decoded::Infinite { negative }
        }
    } else {
        let mantissa = if e == 0 {
            f
        } else {
            f + 0x80_0000
        };
        let scale = if e == 0 {
            0
        } else {
            e - 1
        };
        let exponent = if halved {
            scale
        } else {
            scale + 1
        };
        Decoded::Finite(Dyadic { negative, mantissa, exponent })
    }
}

/// Takes the pattern `b` apart.
pub fn decode(b: u32) -> (r: Decoded)
    ensures
        r.wf(),
        r@ == number(b),
{
    take_apart(b, false)
}

/// Takes the pattern `b` apart and halves the number.
pub fn decode_half(b: u32) -> (r: Decoded)
    ensures
        r.wf(),
        r@ == half(b),
{
    take_apart(b, true)
}

/// The sum of two quantities as a whole number `d` of `2^e` ticks that no
/// bound can tell from the exact sum. Where the exponents are close the
/// smaller is aligned to the larger and the sum is exact; where they are far
/// apart the smaller quantity acts only through its sign.
fn sum_parts(x: Dyadic, y: Dyadic) -> (r: (i64, u32))
    requires
        x.wf(),
        y.wf(),
    ensures
        -0x2_0000_0000_0000 < r.0 < 0x2_0000_0000_0000,
        r.1 <= 255,
        same_bounds(r.0 * pow2(r.1 as nat), x.ticks() + y.ticks()),
{
    let (hi, lo) = if x.exponent >= y.exponent {
        (x, y)
    } else {
        (y, x)
    };
    let gap = hi.exponent - lo.exponent;
    let hm: i64 = if hi.negative {
        -(hi.mantissa as i64)
    } else {
        hi.mantissa as i64
    };
    let lm: i64 = if lo.negative {
        -(lo.mantissa as i64)
    } else {
        lo.mantissa as i64
    };
    proof {
        lemma2_to64();
    }
    if gap <= 24 {
        let p = power_of_two(gap);
        proof {
            if gap < 24 {
                lemma_pow2_strictly_increases(gap as nat, 24);
            }
            lemma_pow2_adds(gap as nat, lo.exponent as nat);
            assert(-0x1_0000_0000_0000 < hm * p < 0x1_0000_0000_0000) by (nonlinear_arith)
                requires
                    -0x100_0000 < hm < 0x100_0000,
                    0 < p <= 0x100_0000,
            ;
            let u = pow2(lo.exponent as nat) as int;
            assert((hm * p + lm) * u == hm * (p * u) + lm * u) by (nonlinear_arith);
        }
        (hm * (p as i64) + lm, lo.exponent)
    } else {
        let s: i64 = if lm > 0 {
            1
        } else if lm < 0 {
            -1
        } else {
            0
        };
        proof {
            let h = pow2((hi.exponent - 1) as nat) as int;
            let u = pow2(lo.exponent as nat) as int;
            lemma_pow2_adds(24, lo.exponent as nat);
            lemma_pow2_pos(lo.exponent as nat);
            if lo.exponent + 24 < hi.exponent - 1 {
                lemma_pow2_strictly_increases((lo.exponent + 24) as nat, (hi.exponent - 1) as nat);
            }
            assert(-h < lm * u < h && (lm > 0 ==> lm * u > 0) && (lm < 0 ==> lm * u < 0) && (lm
                == 0 ==> lm * u == 0)) by (nonlinear_arith)
                requires
                    -0x100_0000 < lm < 0x100_0000,
                    0 < u,
                    0x100_0000 * u <= h,
            ;
            lemma_sticky(hm as int, hi.exponent as nat, lm * u);
        }
        (2 * hm + s, hi.exponent - 1)
    }
}

/// The exact sum of `a` and `b`, rounded down to a whole unit and saturated
/// to `0 ..= 65535`.
pub fn floor_sum(a: Decoded, b: Decoded) -> (r: u16)
    requires
        a.wf(),
        b.wf(),
    ensures
        r == a@.plus(b@).floor_clamped(),
{
    match (a, b) {
        (Decoded::Nan, _) => 0,
        (_, Decoded::Nan) => 0,
        (Decoded::Infinite { negative: n1 }, Decoded::Infinite { negative: n2 }) => {
            if n1 == n2 && !n1 {
                65535
            } else {
                0
            }
        },
        (Decoded::Infinite { negative }, Decoded::Finite(_)) => if negative {
            0
        } else {
            65535
        },
        (Decoded::Finite(_), Decoded::Infinite { negative }) => if negative {
            0
        } else {
            65535
        },
        (Decoded::Finite(x), Decoded::Finite(y)) => {
            let (d, e) = sum_parts(x, y);
            floor_scaled(d, e)
        },
    }
}

/// The exact sum of `a` and `b`, rounded up to a whole unit and saturated to
/// `0 ..= 65535`.
pub fn ceil_sum(a: Decoded, b: Decoded) -> (r: u16)
    requires
        a.wf(),
        b.wf(),
    ensures
        r == a@.plus(b@).ceil_clamped(),
{
    match (a, b) {
        (Decoded::Nan, _) => 0,
        (_, Decoded::Nan) => 0,
        (Decoded::Infinite { negative: n1 }, Decoded::Infinite { negative: n2 }) => {
            if n1 == n2 && !n1 {
                65535
            } else {
                0
            }
        },
        (Decoded::Infinite { negative }, Decoded::Finite(_)) => if negative {
            0
        } else {
            65535
        },
        (Decoded::Finite(_), Decoded::Infinite { negative }) => if negative {
            0
        } else {
            65535
        },
        (Decoded::Finite(x), Decoded::Finite(y)) => {
            let (d, e) = sum_parts(x, y);
            ceil_scaled(d, e)
        },
    }
}

/// Whether the number of pattern `a` is less than that of pattern `b`.
pub fn less(a: u32, b: u32) -> (r: bool)
    ensures
        r == number(a).lt(number(b)),
{
    match (decode(a), decode(b).negated()) {
        (Decoded::Nan, _) => false,
        (_, Decoded::Nan) => false,
        (Decoded::Infinite { negative: n1 }, Decoded::Infinite { negative: n2 }) => n1 && n2,
        (Decoded::Infinite { negative }, Decoded::Finite(_)) => negative,
        (Decoded::Finite(_), Decoded::Infinite { negative }) => negative,
        (Decoded::Finite(x), Decoded::Finite(y)) => {
            let (d, e) = sum_parts(x, y);
            proof {
                lemma_pow2_pos(e as nat);
                assert(d < 0 <==> d * pow2(e as nat) < 0) by (nonlinear_arith)
                    requires
                        pow2(e as nat) > 0,
                ;
            }
            d < 0
        },
    }
}

/// `a` rounded down to a whole unit and saturated to `0 ..= 65535`.
pub fn floor_of(a: Decoded) -> (r: u16)
    requires
        a.wf(),
    ensures
        r == a@.floor_clamped(),
{
    match a {
        Decoded::Nan => 0,
        Decoded::Infinite { negative } => if negative {
            0
        } else {
            65535
        },
        Decoded::Finite(x) => {
            let d: i64 = if x.negative {
                -(x.mantissa as i64)
            } else {
                x.mantissa as i64
            };
            floor_scaled(d, x.exponent)
        },
    }
}

/// `a` rounded up to a whole unit and saturated to `0 ..= 65535`.
pub fn ceil_of(a: Decoded) -> (r: u16)
    requires
        a.wf(),
    ensures
        r == a@.ceil_clamped(),
{
    match a {
        Decoded::Nan => 0,
        Decoded::Infinite { negative } => if negative {
            0
        } else {
            65535
        },
        Decoded::Finite(x) => {
            let d: i64 = if x.negative {
                -(x.mantissa as i64)
            } else {
                x.mantissa as i64
            };
            ceil_scaled(d, x.exponent)
        },
    }
}

/// Whether the pattern `b` is a NaN.
pub fn is_nan_pattern(b: u32) -> (r: bool)
    ensures
        r == is_nan(b),
{
    b / 0x80_0000 % 0x100 == 255 && b % 0x80_0000 != 0
}

/// The pattern `b` with its sign bit cleared.
pub fn magnitude_of(b: u32) -> (r: u32)
    ensures
        r == magnitude(b),
{
    if b >= 0x8000_0000 {
        b - 0x8000_0000
    } else {
        b
    }
}

/// The lesser of two patterns by their numbers; a NaN yields to the other
/// pattern, and of two equal numbers the first stays.
pub open spec fn lesser(a: u32, b: u32) -> u32 {
    if is_nan(a) {
        b
    } else if is_nan(b) {
        a
    } else if number(b).lt(number(a)) {
        b
    } else {
        a
    }
}

/// The greater of two patterns by their numbers; a NaN yields to the other
/// pattern, and of two equal numbers the first stays.
pub open spec fn greater(a: u32, b: u32) -> u32 {
    if is_nan(a) {
        b
    } else if is_nan(b) {
        a
    } else if number(a).lt(number(b)) {
        b
    } else {
        a
    }
}

/// The lesser of two patterns.
pub fn lesser_of(a: u32, b: u32) -> (r: u32)
    ensures
        r == lesser(a, b),
{
    if is_nan_pattern(a) {
        b
    } else if is_nan_pattern(b) {
        a
    } else if less(b, a) {
        b
    } else {
        a
    }
}

/// The greater of two patterns.
pub fn greater_of(a: u32, b: u32) -> (r: u32)
    ensures
        r == greater(a, b),
{
    if is_nan_pattern(a) {
        b
    } else if is_nan_pattern(b) {
        a
    } else if less(a, b) {
        b
    } else {
        a
    }
}

} // verus!
