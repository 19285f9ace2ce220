//! What a bit pattern stands for, and rounding to the nearest one.

use vstd::arithmetic::power2::*;
use vstd::prelude::*;

verus! {

/// A single precision number, by its bit pattern: the sign bit, eight bits of
/// exponent and twenty-three bits of fraction.
#[derive(Clone, Copy, Debug, PartialEq, Eq, Structural)]
pub struct Binary32 {
    pub bits: u32,
}

/// The pattern of positive infinity; every larger magnitude is a NaN.
pub const INFINITE: u32 = 0x7f80_0000;

/// The sign bit.
pub const SIGN: u32 = 0x8000_0000;

/// The one NaN that arithmetic yields.
pub const NOT_A_NUMBER: u32 = 0x7fc0_0000;

/// The magnitude whose pattern is `r`, counted in units of `2^-149`, the
/// smallest positive number. Patterns from [`INFINITE`] up go on as if the
/// exponent had no bound.
pub open spec fn units(r: int) -> int {
    let e = r / 0x80_0000;
    let f = r % 0x80_0000;
    if e <= 0 {
        f
    } else {
        (0x80_0000 + f) * pow2((e - 1) as nat)
    }
}

/// The distance in units from the magnitude `r` to the next larger one.
pub open spec fn ulp(r: int) -> int {
    let e = r / 0x80_0000;
    if e <= 1 {
        1
    } else {
        pow2((e - 1) as nat) as int
    }
}

/// `r` is the pattern of the magnitude nearest to `n / d` units; of two equally
/// near ones it is the even pattern, and above the largest finite magnitude it
/// is infinity.
pub open spec fn near(n: int, d: int, r: int) -> bool {
    &&& 0 <= r <= INFINITE
    &&& r > 0 ==> (units(r - 1) + units(r)) * d <= 2 * n
    &&& r > 0 && (units(r - 1) + units(r)) * d == 2 * n ==> r % 2 == 0
    &&& r < INFINITE ==> 2 * n <= (units(r) + units(r + 1)) * d
    &&& r < INFINITE && 2 * n == (units(r) + units(r + 1)) * d ==> r % 2 == 0
}

/// `r` is the pattern of the magnitude nearest to the square root of `n` units
/// squared, with ties and overflow as in [`near`].
pub open spec fn near_root(n: int, r: int) -> bool {
    let low = units(r - 1) + units(r);
    let high = units(r) + units(r + 1);
    &&& 0 <= r <= INFINITE
    &&& r > 0 ==> low * low <= 4 * n
    &&& r > 0 && low * low == 4 * n ==> r % 2 == 0
    &&& r < INFINITE ==> 4 * n <= high * high
    &&& r < INFINITE && 4 * n == high * high ==> r % 2 == 0
}

/// The pattern of the magnitude nearest to `n / d` units, ties to even.
pub open spec fn nearest(n: int, d: int) -> int {
    choose|r: int| near(n, d, r)
}

/// The pattern of the magnitude nearest to the square root of `n` units
/// squared, ties to even.
pub open spec fn nearest_root(n: int) -> int {
    choose|r: int| near_root(n, r)
}

/// The number of magnitude pattern `r` with the given sign.
pub open spec fn signed(negative: bool, r: int) -> Binary32 {
    Binary32 { bits: if negative { (r + SIGN) as u32 } else { r as u32 } }
}

impl Binary32 {
    pub open spec fn is_negative(self) -> bool {
        self.bits >= SIGN
    }

    /// The pattern without its sign bit.
    pub open spec fn magnitude(self) -> int {
        if self.bits >= SIGN {
            self.bits - SIGN
        } else {
            self.bits as int
        }
    }

    pub open spec fn is_nan_spec(self) -> bool {
        self.magnitude() > INFINITE
    }

    pub open spec fn is_infinite_spec(self) -> bool {
        self.magnitude() == INFINITE
    }

    pub open spec fn is_finite_spec(self) -> bool {
        self.magnitude() < INFINITE
    }

    /// The value of a finite number in units of `2^-149`.
    pub open spec fn value(self) -> int {
        if self.is_negative() {
            -units(self.magnitude())
        } else {
            units(self.magnitude())
        }
    }

    /// Where the number stands in the numeric order; both zeros stand at 0.
    pub open spec fn rank(self) -> int {
        if self.is_negative() {
            -self.magnitude()
        } else {
            self.magnitude()
        }
    }
}

pub proof fn lemma_units_step(r: int)
    requires
        r >= 0,
    ensures
        units(r + 1) == units(r) + ulp(r),
        ulp(r) > 0,
        units(r) >= 0,
{
    let e = r / 0x80_0000;
    let f = r % 0x80_0000;
    assert(r == e * 0x80_0000 + f);
    if f + 1 < 0x80_0000 {
        assert((r + 1) / 0x80_0000 == e);
        assert((r + 1) % 0x80_0000 == f + 1);
    } else {
        assert((r + 1) / 0x80_0000 == e + 1);
        assert((r + 1) % 0x80_0000 == 0);
    }
    lemma2_to64();
    if e >= 1 {
        let p = pow2((e - 1) as nat) as int;
        lemma_pow2_pos((e - 1) as nat);
        lemma_pow2_unfold(e as nat);
        assert((0x80_0000 + f + 1) * p == (0x80_0000 + f) * p + p) by (nonlinear_arith);
        assert((0x80_0000 + f) * p >= 0) by (nonlinear_arith)
            requires
                p > 0,
                f >= 0,
        ;
        if f + 1 == 0x80_0000 {
            assert(0x80_0000 * (2 * p) == (0x80_0000 + f + 1) * p) by (nonlinear_arith)
                requires
                    f + 1 == 0x80_0000,
            ;
        }
    }
}

pub proof fn lemma_units_increase(a: int, b: int)
    requires
        0 <= a < b,
    ensures
        units(a) + ulp(a) <= units(b),
        units(a) < units(b),
        0 <= units(a),
    decreases b - a,
{
    lemma_units_step(b - 1);
    lemma_units_step(a);
    if a < b - 1 {
        lemma_units_increase(a, b - 1);
    }
}

pub proof fn lemma_near_unique(n: int, d: int, r1: int, r2: int)
    requires
        d > 0,
        near(n, d, r1),
        near(n, d, r2),
    ensures
        r1 == r2,
{
    lemma_near_not_below(n, d, r1, r2);
    lemma_near_not_below(n, d, r2, r1);
}

proof fn lemma_near_not_below(n: int, d: int, r1: int, r2: int)
    requires
        d > 0,
        near(n, d, r1),
        near(n, d, r2),
    ensures
        r1 >= r2,
{
    lemma_units_step(r1);
    if r1 + 1 < r2 {
        lemma_units_increase(r1, r2 - 1);
        lemma_units_increase(r1 + 1, r2);
        let x = units(r1) + units(r1 + 1);
        let y = units(r2 - 1) + units(r2);
        assert(x * d < y * d) by (nonlinear_arith)
            requires
                x < y,
                d > 0,
        ;
    }
}

pub proof fn lemma_near_root_unique(n: int, r1: int, r2: int)
    requires
        near_root(n, r1),
        near_root(n, r2),
    ensures
        r1 == r2,
{
    lemma_near_root_not_below(n, r1, r2);
    lemma_near_root_not_below(n, r2, r1);
}

proof fn lemma_near_root_not_below(n: int, r1: int, r2: int)
    requires
        near_root(n, r1),
        near_root(n, r2),
    ensures
        r1 >= r2,
{
    lemma_units_step(r1);
    if r1 + 1 < r2 {
        lemma_units_increase(r1, r2 - 1);
        lemma_units_increase(r1 + 1, r2);
        let x = units(r1) + units(r1 + 1);
        let y = units(r2 - 1) + units(r2);
        assert(x * x < y * y) by (nonlinear_arith)
            requires
                0 <= x < y,
        ;
    }
}

/// Rounding a magnitude that has a pattern gives that pattern.
pub proof fn lemma_nearest_exact(r: int, d: int)
    requires
        0 <= r <= INFINITE,
        d > 0,
    ensures
        near(units(r) * d, d, r),
        nearest(units(r) * d, d) == r,
{
    lemma_units_step(r);
    let u = units(r);
    let up = units(r + 1);
    assert(2 * (u * d) < (u + up) * d) by (nonlinear_arith)
        requires
            u < up,
            d > 0,
    ;
    if r > 0 {
        lemma_units_step(r - 1);
        let down = units(r - 1);
        assert((down + u) * d < 2 * (u * d)) by (nonlinear_arith)
            requires
                down < u,
                d > 0,
        ;
    }
    assert(near(u * d, d, r));
    lemma_near_unique(u * d, d, r, nearest(u * d, d));
}

pub proof fn lemma_nearest_is(n: int, d: int, r: int)
    requires
        d > 0,
        near(n, d, r),
    ensures
        nearest(n, d) == r,
{
    lemma_near_unique(n, d, r, nearest(n, d));
}

} // verus!
