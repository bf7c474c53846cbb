//! Fixed-point decimal numbers with nine fractional digits.

use vstd::prelude::*;

verus! {

/// How many units make up one: a unit is 10^-9.
pub const SCALE: i128 = 1_000_000_000;

/// The square of [`SCALE`]: the product of two numbers counts units of 10^-18.
pub const SCALE_SQUARED: i128 = 1_000_000_000_000_000_000;

/// `v` brought into the range of a number: out-of-range values stick to the
/// nearest bound.
pub open spec fn saturate(v: int) -> int {
    if v < i128::MIN {
        i128::MIN as int
    } else if v > i128::MAX {
        i128::MAX as int
    } else {
        v
    }
}

/// `n / d` rounded to the nearest integer, halves away from zero.
pub open spec fn round_half_away(n: int, d: int) -> int
    recommends
        d > 0,
{
    if n >= 0 {
        (n + d / 2) / d
    } else {
        -((-n + d / 2) / d)
    }
}

/// Precision snapping of a value given in units of 10^-18, to units of 10^-9.
///
/// The value is split into its nearest whole number and the residual; the
/// residual is rounded to nine decimal digits and the two are put together
/// again.
pub open spec fn snap(p: int) -> int {
    let whole = round_half_away(p, SCALE_SQUARED as int);
    whole * SCALE + round_half_away(p - whole * SCALE_SQUARED, SCALE as int)
}

/// A decimal number with nine fractional digits, held as a count of units of
/// 10^-9. `Decimal { nanos: 1_500_000_000 }` is 1.5.
#[derive(Clone, Copy, Debug, PartialEq, Eq, Structural)]
pub struct Decimal {
    pub nanos: i128,
}

impl View for Decimal {
    type V = int;

    /// The number as its count of units of 10^-9.
    open spec fn view(&self) -> int {
        self.nanos as int
    }
}

/// The absolute value of `v`.
pub open spec fn magnitude(v: int) -> int {
    if v < 0 {
        -v
    } else {
        v
    }
}

/// Snapping, for a value that is not negative and comes in two parts: `q`
/// units of 10^-9 and `r` units of 10^-18 on top. The rest `r` rounds the
/// count to the nearest; a rest of exactly half a unit rounds it away from
/// the nearest whole number.
pub proof fn lemma_snap_parts(q: int, r: int)
    requires
        q >= 0,
        0 <= r < SCALE,
    ensures
        snap(q * SCALE + r) == q + if r > SCALE / 2 || (r == SCALE / 2 && q % (SCALE as int)
            < SCALE / 2) {
            1int
        } else {
            0int
        },
{
    let w = q / (SCALE as int);
    let f = q % (SCALE as int);
    let p = q * SCALE + r;
    assert(p == w * SCALE_SQUARED + (f * SCALE + r)) by (nonlinear_arith)
        requires
            q == w * SCALE + f,
            p == q * SCALE + r,
            SCALE_SQUARED == SCALE * SCALE,
    ;
    assert(0 <= f * SCALE + r < SCALE_SQUARED);
    let whole = round_half_away(p, SCALE_SQUARED as int);
    if f < SCALE / 2 {
        assert(whole == w) by {
            vstd::arithmetic::div_mod::lemma_div_multiples_vanish_fancy(
                w,
                f * SCALE + r + SCALE_SQUARED / 2,
                SCALE_SQUARED as int,
            );
            assert(SCALE_SQUARED * w == w * SCALE_SQUARED) by (nonlinear_arith);
        }
        assert(p - whole * SCALE_SQUARED == f * SCALE + r);
        assert(w * SCALE + f == q);
    } else {
        assert(whole == w + 1) by {
            vstd::arithmetic::div_mod::lemma_div_multiples_vanish_fancy(
                w + 1,
                f * SCALE + r - SCALE_SQUARED / 2,
                SCALE_SQUARED as int,
            );
            assert(SCALE_SQUARED * (w + 1) == w * SCALE_SQUARED + SCALE_SQUARED)
                by (nonlinear_arith);
        }
        assert(p - whole * SCALE_SQUARED == f * SCALE + r - SCALE_SQUARED) by (nonlinear_arith)
            requires
                whole == w + 1,
                p == w * SCALE_SQUARED + (f * SCALE + r),
        ;
        assert((w + 1) * SCALE == w * SCALE + SCALE) by (nonlinear_arith);
    }
}

/// Snapping treats a value and its opposite alike.
pub proof fn lemma_snap_odd(p: int)
    ensures
        snap(-p) == -snap(p),
{
    let whole = round_half_away(p, SCALE_SQUARED as int);
    assert(round_half_away(-p, SCALE_SQUARED as int) == -whole);
    assert(-p - (-whole) * SCALE_SQUARED == -(p - whole * SCALE_SQUARED)) by (nonlinear_arith);
    assert((-whole) * SCALE == -(whole * SCALE)) by (nonlinear_arith);
}

/// The absolute value of `n`.
pub fn magnitude_of(n: i128) -> (m: u128)
    ensures
        m == magnitude(n as int),
{
    if n == i128::MIN {
        0x8000_0000_0000_0000_0000_0000_0000_0000
    } else if n < 0 {
        (-n) as u128
    } else {
        n as u128
    }
}

/// The number of the given sign and absolute value, brought into the range.
/// The absolute value is `exact`; it is handed over as `m` unless it is too
/// great to be held.
fn bounded(negative: bool, m: Option<u128>, Ghost(exact): Ghost<int>) -> (r: Decimal)
    requires
        match m {
            Some(v) => v == exact,
            None => exact > u128::MAX,
        },
    ensures
        r@ == saturate(
            if negative {
                -exact
            } else {
                exact
            },
        ),
{
    match m {
        Some(v) => {
            if negative {
                if v >= 0x8000_0000_0000_0000_0000_0000_0000_0000 {
                    Decimal { nanos: i128::MIN }
                } else {
                    Decimal { nanos: -(v as i128) }
                }
            } else if v > i128::MAX as u128 {
                Decimal { nanos: i128::MAX }
            } else {
                Decimal { nanos: v as i128 }
            }
        },
        None => {
            if negative {
                Decimal { nanos: i128::MIN }
            } else {
                Decimal { nanos: i128::MAX }
            }
        },
    }
}

/// `a + b`, or nothing where the sum is too great to be held; `exact` is
/// what `a` stands for.
fn add_part(a: Option<u128>, b: u128, Ghost(exact): Ghost<int>) -> (r: Option<u128>)
    requires
        match a {
            Some(v) => v == exact,
            None => exact > u128::MAX,
        },
    ensures
        match r {
            Some(v) => v == exact + b,
            None => exact + b > u128::MAX,
        },
{
    match a {
        Some(v) => v.checked_add(b),
        None => None,
    }
}

impl Decimal {
    /// The sum of two numbers. It is exact unless it leaves the range, where
    /// it sticks to the nearest bound.
    pub open spec fn sum(self, other: Decimal) -> Decimal {
        Decimal { nanos: saturate(self@ + other@) as i128 }
    }

    /// The product of two numbers, snapped to nine fractional digits, and
    /// brought into the range.
    pub open spec fn product(self, other: Decimal) -> Decimal {
        Decimal { nanos: saturate(snap(self@ * other@)) as i128 }
    }

    /// The number with its sign turned; the lower bound of the range turns
    /// into the upper bound.
    pub open spec fn opposite(self) -> Decimal {
        Decimal { nanos: saturate(-self@) as i128 }
    }

    /// The number of `n` units of 10^-9.
    pub fn from_nanos(n: i128) -> (r: Decimal)
        ensures
            r@ == n,
    {
        Decimal { nanos: n }
    }

    /// The count of units of 10^-9.
    pub fn nanos(&self) -> (n: i128)
        ensures
            n == self@,
    {
        self.nanos
    }

    /// Whether the number is zero.
    pub fn is_zero(&self) -> (b: bool)
        ensures
            b == (self@ == 0),
    {
        self.nanos == 0
    }

    /// Adds two numbers.
    pub fn plus(self, other: Decimal) -> (r: Decimal)
        ensures
            r == self.sum(other),
    {
        match self.nanos.checked_add(other.nanos) {
            Some(v) => Decimal { nanos: v },
            None => if self.nanos < 0 {
                Decimal { nanos: i128::MIN }
            } else {
                Decimal { nanos: i128::MAX }
            },
        }
    }

    /// Turns the sign of a number.
    pub fn negated(self) -> (r: Decimal)
        ensures
            r == self.opposite(),
    {
        if self.nanos == i128::MIN {
            Decimal { nanos: i128::MAX }
        } else {
            Decimal { nanos: -self.nanos }
        }
    }

    /// Multiplies two numbers.
    pub fn times(self, other: Decimal) -> (r: Decimal)
        ensures
            r == self.product(other),
    {
        let negative = (self.nanos < 0) != (other.nanos < 0);
        let a = magnitude_of(self.nanos);
        let b = magnitude_of(other.nanos);
        // each absolute value in two parts: whole numbers and units
        let ah: u128 = a / 1_000_000_000;
        let al: u128 = a % 1_000_000_000;
        let bh: u128 = b / 1_000_000_000;
        let bl: u128 = b % 1_000_000_000;
        let ghost exact = a as int * b as int;
        let ghost high = ah as int * bh as int * SCALE;
        proof {
            assert(ah * bl <= a && al * bh <= b && al * bl < SCALE_SQUARED && ah * bh >= 0)
                by (nonlinear_arith)
                requires
                    a == ah * 1_000_000_000 + al,
                    b == bh * 1_000_000_000 + bl,
                    al < 1_000_000_000,
                    bl < 1_000_000_000,
            ;
        }
        let low: u128 = al * bl;
        let rest: u128 = low % 1_000_000_000;
        let ghost count = high + ah * bl + al * bh + low / 1_000_000_000;
        proof {
            assert(exact == count * SCALE + rest) by (nonlinear_arith)
                requires
                    exact == a as int * b as int,
                    a == ah * SCALE + al,
                    b == bh * SCALE + bl,
                    low == al * bl,
                    low == (low / 1_000_000_000) * SCALE + rest,
                    count == ah as int * bh as int * SCALE + ah * bl + al * bh + low
                        / 1_000_000_000,
            ;
            assert(count >= 0);
            lemma_snap_parts(count, rest as int);
            lemma_snap_odd(exact);
            assert(self@ * other@ == if negative {
                -exact
            } else {
                exact
            }) by (nonlinear_arith)
                requires
                    a == magnitude(self@),
                    b == magnitude(other@),
                    exact == a as int * b as int,
                    negative == ((self@ < 0) != (other@ < 0)),
            ;
        }
        let wholes: Option<u128> = match ah.checked_mul(bh) {
            Some(t) => {
                proof {
                    assert(t * SCALE == high);
                }
                t.checked_mul(1_000_000_000)
            },
            None => {
                proof {
                    assert(high > u128::MAX) by (nonlinear_arith)
                        requires
                            high == ah as int * bh as int * SCALE,
                            ah as int * bh as int > u128::MAX,
                    ;
                }
                None
            },
        };
        let first = add_part(wholes, ah * bl, Ghost(high));
        let second = add_part(first, al * bh, Ghost(high + ah * bl));
        let third = add_part(second, low / 1_000_000_000, Ghost(high + ah * bl + al * bh));
        let up: u128 = match third {
            Some(q) => if rest > 500_000_000 || (rest == 500_000_000 && q % 1_000_000_000
                < 500_000_000) {
                1
            } else {
                0
            },
            None => 0,
        };
        let snapped = add_part(third, up, Ghost(count));
        proof {
            if third is Some {
                assert(count + up == snap(exact));
            } else {
                assert(snap(exact) >= count);
            }
        }
        match snapped {
            Some(v) => bounded(negative, Some(v), Ghost(snap(exact))),
            None => {
                proof {
                    assert(snap(exact) > u128::MAX);
                }
                bounded(negative, None, Ghost(snap(exact)))
            },
        }
    }
}

} // verus!
