//! Addition, subtraction and multiplication.

use vstd::arithmetic::power2::*;
use vstd::prelude::*;

use crate::binary32::pattern;
use crate::binary32::pattern::{Binary32, INFINITE, NOT_A_NUMBER, SIGN};
use crate::binary32::round;

verus! {

pub open spec fn nan() -> Binary32 {
    Binary32 { bits: NOT_A_NUMBER }
}

/// The exact amount `q * 2^t` units, or something strictly above it and below
/// the next multiple when `sticky`, is `n / d` units.
pub open spec fn amounts_to(q: int, sticky: bool, t: int, n: int, d: int) -> bool {
    let one = pow2(400) as int;
    let step = pow2((t + 400) as nat) as int;
    if sticky {
        (q * step) * d < n * one < ((q + 1) * step) * d
    } else {
        (q * step) * d == n * one
    }
}

pub proof fn lemma_rounds_near(q: int, sticky: bool, t: int, r: int, n: int, d: int)
    requires
        d > 0,
        r <= INFINITE,
        round::rounds(q, sticky, t, r),
        amounts_to(q, sticky, t, n, d),
    ensures
        pattern::near(n, d, r),
        pattern::nearest(n, d) == r,
{
    let one = pow2(400) as int;
    let step = pow2((t + 400) as nat) as int;
    lemma_pow2_pos(400);
    let low = pattern::units(r - 1) + pattern::units(r);
    let high = pattern::units(r) + pattern::units(r + 1);
    let x = q * step;
    let y = (q + 1) * step;
    if r > 0 {
        assert(low * d <= 2 * n && (low * d == 2 * n ==> !sticky && low * one == 2 * x)) by (nonlinear_arith)
            requires
                low * one <= 2 * x,
                x * d <= n * one,
                sticky ==> x * d < n * one,
                one > 0,
                d > 0,
        ;
    }
    if r < INFINITE {
        if sticky {
            assert(2 * n < high * d) by (nonlinear_arith)
                requires
                    2 * y <= high * one,
                    n * one < y * d,
                    one > 0,
                    d > 0,
            ;
        } else {
            assert(2 * n <= high * d && (2 * n == high * d ==> 2 * x == high * one)) by (nonlinear_arith)
                requires
                    2 * x <= high * one,
                    n * one == x * d,
                    one > 0,
                    d > 0,
            ;
        }
    }
    assert(pattern::near(n, d, r));
    pattern::lemma_nearest_is(n, d, r);
}

/// A finite magnitude as a whole number of at most twenty-four bits and a
/// binary exponent.
pub(crate) fn parts(magnitude: u32) -> (p: (u64, i32))
    requires
        magnitude < INFINITE,
    ensures
        pattern::units(magnitude as int) == p.0 * pow2(p.1 as nat),
        p.0 < 0x100_0000,
        0 <= p.1 <= 253,
        p.1 > 0 ==> p.0 >= 0x80_0000,
        p.0 == 0 <==> magnitude == 0,
        p.1 == if magnitude / 0x80_0000 <= 1 { 0int } else { magnitude / 0x80_0000 - 1 },
{
    let e: u32 = magnitude / 0x80_0000;
    let f: u32 = magnitude % 0x80_0000;
    proof {
        lemma2_to64();
        assert(f * pow2(0) == f) by (nonlinear_arith)
            requires
                pow2(0) == 1,
        ;
    }
    if e == 0 {
        (f as u64, 0)
    } else {
        (0x80_0000 + f as u64, e as i32 - 1)
    }
}

impl Binary32 {
    /// The product, rounded to nearest.
    #[verifier::opaque]
    pub open spec fn times_spec(self, other: Binary32) -> Binary32 {
        let negative = self.is_negative() != other.is_negative();
        if self.is_nan_spec() || other.is_nan_spec() {
            nan()
        } else if self.is_infinite_spec() || other.is_infinite_spec() {
            if self.magnitude() == 0 || other.magnitude() == 0 {
                nan()
            } else {
                pattern::signed(negative, INFINITE as int)
            }
        } else {
            let product = pattern::units(self.magnitude()) * pattern::units(other.magnitude());
            pattern::signed(negative, pattern::nearest(product, pow2(149) as int))
        }
    }

    #[verifier::when_used_as_spec(times_spec)]
    pub fn times(self, other: Binary32) -> (r: Binary32)
        ensures
            r == self.times_spec(other),
    {
        let a: u32 = self.unsigned();
        let b: u32 = other.unsigned();
        let negative: bool = self.signum() != other.signum();
        proof {
            reveal(Binary32::times_spec);
        }
        if a > INFINITE || b > INFINITE {
            return Binary32 { bits: NOT_A_NUMBER };
        }
        if a == INFINITE || b == INFINITE {
            if a == 0 || b == 0 {
                return Binary32 { bits: NOT_A_NUMBER };
            }
            return with_sign(negative, INFINITE);
        }
        let (ma, sa) = parts(a);
        let (mb, sb) = parts(b);
        proof {
            assert(ma * mb < 0x1_0000_0000_0000) by (nonlinear_arith)
                requires
                    ma < 0x100_0000,
                    mb < 0x100_0000,
            ;
        }
        let q: u64 = ma * mb;
        let t: i32 = sa + sb - 149;
        let r: u32 = round::round_scaled(q, false, t);
        proof {
            let n = pattern::units(a as int) * pattern::units(b as int);
            let d = pow2(149) as int;
            lemma_pow2_pos(149);
            lemma_pow2_adds(sa as nat, sb as nat);
            lemma_pow2_adds((sa + sb) as nat, 400);
            lemma_pow2_adds((t + 400) as nat, 149);
            let pa = pow2(sa as nat) as int;
            let pb = pow2(sb as nat) as int;
            let one = pow2(400) as int;
            let step = pow2((t + 400) as nat) as int;
            assert((q * step) * d == n * one) by (nonlinear_arith)
                requires
                    n == (ma * pa) * (mb * pb),
                    q == ma * mb,
                    (pa * pb) * one == step * d,
            ;
            lemma_rounds_near(q as int, false, t as int, r as int, n, d);
        }
        with_sign(negative, r)
    }

    /// The same number with the other sign.
    pub open spec fn negated_spec(self) -> Binary32 {
        pattern::signed(!self.is_negative(), self.magnitude())
    }

    #[verifier::when_used_as_spec(negated_spec)]
    pub fn negated(self) -> (r: Binary32)
        ensures
            r == self.negated_spec(),
    {
        with_sign(!self.signum(), self.unsigned())
    }

    /// The sum, rounded to nearest. An exact zero is positive unless both terms
    /// are negative.
    #[verifier::opaque]
    pub open spec fn plus_spec(self, other: Binary32) -> Binary32 {
        if self.is_nan_spec() || other.is_nan_spec() {
            nan()
        } else if self.is_infinite_spec() {
            if other.is_infinite_spec() && self.is_negative() != other.is_negative() {
                nan()
            } else {
                self
            }
        } else if other.is_infinite_spec() {
            other
        } else {
            let sum = self.value() + other.value();
            if sum == 0 {
                pattern::signed(self.is_negative() && other.is_negative(), 0)
            } else if sum < 0 {
                pattern::signed(true, pattern::nearest(-sum, 1))
            } else {
                pattern::signed(false, pattern::nearest(sum, 1))
            }
        }
    }

    #[verifier::when_used_as_spec(plus_spec)]
    pub fn plus(self, other: Binary32) -> (r: Binary32)
        ensures
            r == self.plus_spec(other),
    {
        let a: u32 = self.unsigned();
        let b: u32 = other.unsigned();
        proof {
            reveal(Binary32::plus_spec);
        }
        if a > INFINITE || b > INFINITE {
            return Binary32 { bits: NOT_A_NUMBER };
        }
        if a == INFINITE {
            if b == INFINITE && self.signum() != other.signum() {
                return Binary32 { bits: NOT_A_NUMBER };
            }
            return self;
        }
        if b == INFINITE {
            return other;
        }
        if a >= b {
            larger_plus(self, other)
        } else {
            larger_plus(other, self)
        }
    }

    /// The difference, rounded to nearest.
    pub open spec fn minus_spec(self, other: Binary32) -> Binary32 {
        self.plus_spec(other.negated_spec())
    }

    #[verifier::when_used_as_spec(minus_spec)]
    pub fn minus(self, other: Binary32) -> (r: Binary32)
        ensures
            r == self.minus_spec(other),
    {
        self.plus(other.negated())
    }

    /// The pattern without its sign bit.
    pub fn unsigned(self) -> (r: u32)
        ensures
            r == self.magnitude(),
            r < SIGN,
    {
        if self.bits >= SIGN {
            self.bits - SIGN
        } else {
            self.bits
        }
    }

    /// Whether the sign bit is set.
    pub fn signum(self) -> (r: bool)
        ensures
            r == self.is_negative(),
    {
        self.bits >= SIGN
    }
}

/// The smaller term `mb * 2^sb` units of a sum, counted in the steps of the
/// larger one: whole steps, and whether something is left over.
fn aligned(mb: u64, sa: i32, sb: i32) -> (p: (u64, bool))
    requires
        mb < 0x100_0000,
        0 <= sb <= sa <= 253,
    ensures
        ({
            let step = pow2((sa + 368) as nat) as int;
            let amount = mb * pow2((sb + 400) as nat);
            &&& p.0 * step <= amount < (p.0 + 1) * step
            &&& p.1 <==> p.0 * step < amount
        }),
        p.1 ==> sa - sb > 32 && p.0 < 0x100_0000,
        p.0 < 0x100_0000_0000_0000,
{
    let diff: i32 = sa - sb;
    let ghost step = pow2((sa + 368) as nat) as int;
    let ghost small = pow2((sb + 400) as nat) as int;
    proof {
        lemma_pow2_pos((sa + 368) as nat);
        lemma_pow2_pos((sb + 400) as nat);
        lemma2_to64();
        lemma2_to64_rest();
    }
    if diff <= 32 {
        let up: u64 = (32 - diff) as u64;
        proof {
            lemma_pow2_adds((sa + 368) as nat, up as nat);
            round::lemma_pow2_increases(up as nat, 32);
            let g = pow2(up as nat) as int;
            assert(mb * g < 0x100_0000_0000_0000) by (nonlinear_arith)
                requires
                    0 <= mb < 0x100_0000,
                    0 < g <= 0x1_0000_0000,
            ;
            vstd::bits::lemma_u64_shl_is_mul(mb, up);
            assert((mb * g) * step == mb * small) by (nonlinear_arith)
                requires
                    step * g == small,
            ;
            assert((mb * g + 1) * step == (mb * g) * step + step) by (nonlinear_arith);
        }
        let whole: u64 = mb << up;
        (whole, false)
    } else {
        let down: u64 = (diff - 32) as u64;
        proof {
            lemma_pow2_adds((sb + 400) as nat, down as nat);
            assert(small * pow2(down as nat) == step);
        }
        if down >= 24 {
            proof {
                round::lemma_pow2_increases(24, down as nat);
                let g = pow2(down as nat) as int;
                assert(mb * small < 1 * step && mb * small >= 0 && (mb > 0 <==> mb * small > 0))
                    by (nonlinear_arith)
                    requires
                        0 <= mb < 0x100_0000,
                        0x100_0000 <= g,
                        small * g == step,
                        small > 0,
                ;
                assert(0 * step == 0);
                assert((0 + 1) * step == step);
            }
            (0, mb != 0)
        } else {
            let unit: u64 = 1u64 << down;
            proof {
                vstd::bits::lemma_u64_pow2_no_overflow(down as nat);
                vstd::bits::lemma_u64_shl_is_mul(1, down);
            }
            let whole: u64 = mb / unit;
            let rest: u64 = mb % unit;
            proof {
                vstd::arithmetic::div_mod::lemma_fundamental_div_mod(mb as int, unit as int);
                assert(whole <= mb) by (nonlinear_arith)
                    requires
                        mb == unit * whole + rest,
                        unit >= 1,
                        rest >= 0,
                        whole >= 0,
                ;
                assert(whole * step + rest * small == mb * small) by (nonlinear_arith)
                    requires
                        mb == unit * whole + rest,
                        small * unit == step,
                ;
                assert(0 <= rest * small < step && (rest > 0 <==> rest * small > 0)) by (nonlinear_arith)
                    requires
                        0 <= rest < unit,
                        small * unit == step,
                        small > 0,
                ;
                assert((whole + 1) * step == whole * step + step) by (nonlinear_arith);
            }
            (whole, rest != 0)
        }
    }
}

/// The sum of two finite numbers, the first of which is no smaller.
fn larger_plus(x: Binary32, y: Binary32) -> (r: Binary32)
    requires
        x.is_finite_spec(),
        y.is_finite_spec(),
        x.magnitude() >= y.magnitude(),
    ensures
        r == x.plus_spec(y),
        r == y.plus_spec(x),
{
    let a: u32 = x.unsigned();
    let b: u32 = y.unsigned();
    let (ma, sa) = parts(a);
    let (mb, sb) = parts(b);
    proof {
        if a > b {
            pattern::lemma_units_increase(b as int, a as int);
        }
        assert(sb <= sa);
        reveal(Binary32::plus_spec);
    }
    let (whole, sticky) = aligned(mb, sa, sb);
    let ghost one = pow2(400) as int;
    let ghost step = pow2((sa + 368) as nat) as int;
    let ghost ua = pattern::units(a as int);
    let ghost ub = pattern::units(b as int);
    proof {
        lemma2_to64();
        lemma2_to64_rest();
        lemma_pow2_pos(400);
        lemma_pow2_pos((sa + 368) as nat);
        lemma_pow2_adds(sa as nat, 400);
        lemma_pow2_adds(sb as nat, 400);
        lemma_pow2_adds((sa + 368) as nat, 32);
        vstd::bits::lemma_u64_shl_is_mul(ma, 32);
        let pa = pow2(sa as nat) as int;
        let pb = pow2(sb as nat) as int;
        assert((ma * 0x1_0000_0000) * step == ua * one) by (nonlinear_arith)
            requires
                ua == ma * pa,
                pa * one == step * 0x1_0000_0000,
        ;
        assert(mb * pow2((sb + 400) as nat) == ub * one) by (nonlinear_arith)
            requires
                ub == mb * pb,
                pb * one == pow2((sb + 400) as nat),
        ;
    }
    let high: u64 = ma << 32u64;
    assert(high * step == ua * one);
    if x.signum() == y.signum() {
        let q: u64 = high + whole;
        let r: u32 = round::round_scaled(q, sticky, sa - 32);
        proof {
            let n = ua + ub;
            assert(q * step == high * step + whole * step) by (nonlinear_arith)
                requires
                    q == high + whole,
            ;
            assert((q + 1) * step == high * step + (whole + 1) * step) by (nonlinear_arith)
                requires
                    q == high + whole,
            ;
            assert(n * one == ua * one + ub * one) by (nonlinear_arith)
                requires
                    n == ua + ub,
            ;
            assert(amounts_to(q as int, sticky, sa - 32, n, 1));
            lemma_rounds_near(q as int, sticky, sa - 32, r as int, n, 1);
            lemma_zero_magnitude(a as int);
            lemma_zero_magnitude(b as int);
            if n == 0 {
                pattern::lemma_nearest_exact(0, 1);
            }
        }
        with_sign(x.signum(), r)
    } else {
        proof {
            if !sticky {
                assert(high >= whole) by (nonlinear_arith)
                    requires
                        high * step == ua * one,
                        whole * step <= ub * one,
                        whole * step >= ub * one,
                        ua >= ub,
                        one > 0,
                        step > 0,
                ;
            }
        }
        let q: u64 = if sticky {
            high - whole - 1
        } else {
            high - whole
        };
        let r: u32 = round::round_scaled(q, sticky, sa - 32);
        proof {
            let n = ua - ub;
            assert((high - whole) * step == high * step - whole * step) by (nonlinear_arith);
            assert((high - whole - 1) * step == high * step - (whole + 1) * step) by (nonlinear_arith);
            assert(n * one == ua * one - ub * one) by (nonlinear_arith)
                requires
                    n == ua - ub,
            ;
            assert(amounts_to(q as int, sticky, sa - 32, n, 1));
            lemma_rounds_near(q as int, sticky, sa - 32, r as int, n, 1);
            if n == 0 {
                pattern::lemma_nearest_exact(0, 1);
            }
        }
        if r == 0 {
            Binary32 { bits: 0 }
        } else {
            with_sign(x.signum(), r)
        }
    }
}

/// Only the zero pattern stands for zero.
pub proof fn lemma_zero_magnitude(r: int)
    requires
        r >= 0,
    ensures
        pattern::units(r) == 0 <==> r == 0,
        pattern::units(r) >= 0,
{
    pattern::lemma_units_step(r);
    if r > 0 {
        pattern::lemma_units_increase(0, r);
    }
}


pub(crate) fn with_sign(negative: bool, magnitude: u32) -> (r: Binary32)
    requires
        magnitude < SIGN,
    ensures
        r == pattern::signed(negative, magnitude as int),
{
    if negative {
        Binary32 { bits: magnitude + SIGN }
    } else {
        Binary32 { bits: magnitude }
    }
}

} // verus!
