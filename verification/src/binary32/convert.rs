//! Conversion from and to integers, and rounding to a whole number.

use vstd::arithmetic::power2::*;
use vstd::prelude::*;

use crate::binary32::arith;
use crate::binary32::pattern;
use crate::binary32::pattern::{Binary32, INFINITE, NOT_A_NUMBER};
use crate::binary32::round;

verus! {

/// The number nearest to a whole number.
pub open spec fn of_int(k: int) -> Binary32 {
    if k < 0 {
        pattern::signed(true, pattern::nearest(-k * pow2(149), 1))
    } else {
        pattern::signed(false, pattern::nearest(k * pow2(149), 1))
    }
}

/// `k` held between `low` and `high`.
pub open spec fn saturated(k: int, low: int, high: int) -> int {
    if k < low {
        low
    } else if k > high {
        high
    } else {
        k
    }
}

fn round_whole(k: u64) -> (r: u32)
    ensures
        r <= INFINITE,
        r == pattern::nearest(k * pow2(149), 1),
{
    let r: u32 = round::round_scaled(k, false, 149);
    proof {
        let one = pow2(400) as int;
        let n = k * pow2(149);
        lemma_pow2_adds(149, 400);
        assert((k * pow2(549)) * 1 == n * one) by (nonlinear_arith)
            requires
                n == k * pow2(149),
                pow2(549) == pow2(149) * one,
        ;
        arith::lemma_rounds_near(k as int, false, 149, r as int, n, 1);
    }
    r
}

/// A finite magnitude below `2^24` as its whole part, whether the rest is at
/// least one half, and whether there is a rest.
fn split(magnitude: u32) -> (p: (u64, bool, bool))
    requires
        magnitude < 0x4b80_0000,
    ensures
        ({
            let u = pattern::units(magnitude as int);
            let one = pow2(149) as int;
            &&& p.0 == u / one
            &&& p.0 < 0x100_0000
            &&& p.1 <==> 2 * (u % one) >= one
            &&& p.2 <==> u % one != 0
        }),
{
    let (m, s) = arith::parts(magnitude);
    let ghost u = pattern::units(magnitude as int);
    let ghost one = pow2(149) as int;
    let ghost p = pow2(s as nat) as int;
    proof {
        lemma2_to64();
        lemma2_to64_rest();
        lemma_pow2_pos(s as nat);
        lemma_pow2_pos(149);
    }
    if s == 149 {
        proof {
            vstd::arithmetic::div_mod::lemma_fundamental_div_mod_converse(u, one, m as int, 0);
        }
        return (m, false, false);
    }
    let down: i32 = 149 - s;
    if down >= 26 {
        proof {
            lemma_pow2_adds(s as nat, down as nat);
            round::lemma_pow2_increases(26, down as nat);
            let g = pow2(down as nat) as int;
            assert(4 * u < one && 0 <= u && (u == 0 <==> m == 0)) by (nonlinear_arith)
                requires
                    u == m * p,
                    0 <= m < 0x100_0000,
                    g >= 0x400_0000,
                    one == p * g,
                    p > 0,
            ;
            vstd::arithmetic::div_mod::lemma_fundamental_div_mod_converse(u, one, 0, u);
        }
        return (0, false, m != 0);
    }
    let d: u64 = 1u64 << (down as u64);
    proof {
        vstd::bits::lemma_u64_pow2_no_overflow(down as nat);
        vstd::bits::lemma_u64_shl_is_mul(1, down as u64);
        round::lemma_pow2_increases(down as nat, 25);
        lemma_pow2_adds(s as nat, down as nat);
    }
    let whole: u64 = m / d;
    let rest: u64 = m % d;
    proof {
        vstd::arithmetic::div_mod::lemma_fundamental_div_mod(m as int, d as int);
        assert(whole <= m) by (nonlinear_arith)
            requires
                m == d * whole + rest,
                d >= 1,
                rest >= 0,
                whole >= 0,
        ;
        assert(u == whole * one + rest * p && 0 <= rest * p < one) by (nonlinear_arith)
            requires
                u == m * p,
                m == d * whole + rest,
                0 <= rest < d,
                one == p * d,
                p > 0,
        ;
        vstd::arithmetic::div_mod::lemma_fundamental_div_mod_converse(
            u,
            one,
            whole as int,
            rest * p,
        );
        assert(2 * (rest * p) >= one <==> 2 * rest >= d) by (nonlinear_arith)
            requires
                one == p * d,
                p > 0,
        ;
        assert(rest * p != 0 <==> rest != 0) by (nonlinear_arith)
            requires
                p > 0,
        ;
    }
    (whole, 2 * rest >= d, rest != 0)
}

proof fn lemma_whole_magnitude(r: int)
    requires
        0x4b00_0000 <= r < INFINITE,
    ensures
        pattern::units(r) % (pow2(149) as int) == 0,
        (pattern::units(r) / (pow2(149) as int)) * pow2(149) == pattern::units(r),
{
    let e = r / 0x80_0000;
    let one = pow2(149) as int;
    lemma_pow2_pos(149);
    lemma_pow2_adds(149, (e - 150) as nat);
    let k = (0x80_0000 + r % 0x80_0000) * pow2((e - 150) as nat);
    assert(pattern::units(r) == k * one) by (nonlinear_arith)
        requires
            pattern::units(r) == (0x80_0000 + r % 0x80_0000) * pow2((e - 1) as nat),
            pow2((e - 1) as nat) == one * pow2((e - 150) as nat),
            k == (0x80_0000 + r % 0x80_0000) * pow2((e - 150) as nat),
    ;
    vstd::arithmetic::div_mod::lemma_fundamental_div_mod_converse(pattern::units(r), one, k, 0);
}

impl Binary32 {
    pub open spec fn of_u64_spec(k: u64) -> Binary32 {
        of_int(k as int)
    }

    /// The number nearest to `k`.
    #[verifier::when_used_as_spec(of_u64_spec)]
    pub fn of_u64(k: u64) -> (r: Binary32)
        ensures
            r == Binary32::of_u64_spec(k),
    {
        arith::with_sign(false, round_whole(k))
    }

    pub open spec fn of_u32_spec(k: u32) -> Binary32 {
        of_int(k as int)
    }

    /// The number nearest to `k`.
    #[verifier::when_used_as_spec(of_u32_spec)]
    pub fn of_u32(k: u32) -> (r: Binary32)
        ensures
            r == Binary32::of_u32_spec(k),
    {
        arith::with_sign(false, round_whole(k as u64))
    }

    pub open spec fn of_i32_spec(k: i32) -> Binary32 {
        of_int(k as int)
    }

    /// The number nearest to `k`.
    #[verifier::when_used_as_spec(of_i32_spec)]
    pub fn of_i32(k: i32) -> (r: Binary32)
        ensures
            r == Binary32::of_i32_spec(k),
    {
        if k < 0 {
            arith::with_sign(true, round_whole((-(k as i64)) as u64))
        } else {
            arith::with_sign(false, round_whole(k as u64))
        }
    }

    /// The largest whole number that is not above it.
    pub open spec fn floor_spec(self) -> Binary32 {
        let one = pow2(149) as int;
        let u = pattern::units(self.magnitude());
        if self.is_nan_spec() {
            arith::nan()
        } else if self.is_infinite_spec() {
            self
        } else if self.is_negative() {
            pattern::signed(true, pattern::nearest(((u + one - 1) / one) * one, 1))
        } else {
            pattern::signed(false, pattern::nearest((u / one) * one, 1))
        }
    }

    #[verifier::when_used_as_spec(floor_spec)]
    pub fn floor(self) -> (r: Binary32)
        ensures
            r == self.floor_spec(),
    {
        self.to_whole(self.signum(), false)
    }

    /// The smallest whole number that is not below it.
    pub open spec fn ceil_spec(self) -> Binary32 {
        let one = pow2(149) as int;
        let u = pattern::units(self.magnitude());
        if self.is_nan_spec() {
            arith::nan()
        } else if self.is_infinite_spec() {
            self
        } else if self.is_negative() {
            pattern::signed(true, pattern::nearest((u / one) * one, 1))
        } else {
            pattern::signed(false, pattern::nearest(((u + one - 1) / one) * one, 1))
        }
    }

    #[verifier::when_used_as_spec(ceil_spec)]
    pub fn ceil(self) -> (r: Binary32)
        ensures
            r == self.ceil_spec(),
    {
        self.to_whole(!self.signum(), false)
    }

    /// The nearest whole number, halves away from zero.
    pub open spec fn round_spec(self) -> Binary32 {
        let one = pow2(149) as int;
        let u = pattern::units(self.magnitude());
        if self.is_nan_spec() {
            arith::nan()
        } else if self.is_infinite_spec() {
            self
        } else {
            pattern::signed(
                self.is_negative(),
                pattern::nearest(((2 * u + one) / (2 * one)) * one, 1),
            )
        }
    }

    #[verifier::when_used_as_spec(round_spec)]
    pub fn round(self) -> (r: Binary32)
        ensures
            r == self.round_spec(),
    {
        self.to_whole(false, true)
    }

    /// The magnitude rounded to a whole number: to the nearest one, away from
    /// zero or towards zero.
    fn to_whole(self, away: bool, nearest: bool) -> (r: Binary32)
        ensures
            self.is_nan_spec() ==> r == arith::nan(),
            self.is_infinite_spec() ==> r == self,
            self.is_finite_spec() ==> ({
                let one = pow2(149) as int;
                let u = pattern::units(self.magnitude());
                let k = if nearest {
                    (2 * u + one) / (2 * one)
                } else if away {
                    (u + one - 1) / one
                } else {
                    u / one
                };
                r == pattern::signed(self.is_negative(), pattern::nearest(k * one, 1))
            }),
    {
        let a: u32 = self.unsigned();
        if a > INFINITE {
            return Binary32 { bits: NOT_A_NUMBER };
        }
        if a == INFINITE {
            return self;
        }
        let ghost one = pow2(149) as int;
        let ghost u = pattern::units(a as int);
        proof {
            lemma_pow2_pos(149);
            arith::lemma_zero_magnitude(a as int);
            lemma_roundings(u, one);
        }
        if a >= 0x4b00_0000 {
            proof {
                lemma_whole_magnitude(a as int);
                pattern::lemma_nearest_exact(a as int, 1);
            }
            return self;
        }
        let (whole, half, rest) = split(a);
        let k: u64 = if (nearest && half) || (!nearest && away && rest) {
            whole + 1
        } else {
            whole
        };
        arith::with_sign(self.signum(), round_whole(k))
    }

    /// The whole part held between the bounds of a type; a NaN becomes 0.
    pub open spec fn saturating(self, low: int, high: int) -> int {
        let whole = pattern::units(self.magnitude()) / (pow2(149) as int);
        if self.is_nan_spec() {
            0
        } else if self.is_infinite_spec() {
            if self.is_negative() {
                low
            } else {
                high
            }
        } else if self.is_negative() {
            saturated(-whole, low, high)
        } else {
            saturated(whole, low, high)
        }
    }

    /// The whole part of the magnitude.
    fn whole(self) -> (r: u64)
        requires
            self.is_finite_spec(),
        ensures
            r == saturated(
                pattern::units(self.magnitude()) / (pow2(149) as int),
                0,
                u64::MAX as int,
            ),
    {
        let a: u32 = self.unsigned();
        let ghost u = pattern::units(a as int);
        let ghost one = pow2(149) as int;
        proof {
            lemma2_to64();
            lemma2_to64_rest();
            lemma_pow2_pos(149);
            arith::lemma_zero_magnitude(a as int);
            vstd::arithmetic::div_mod::lemma_div_pos_is_pos(u, one);
        }
        if a < 0x4b80_0000 {
            let (whole, half, rest) = split(a);
            return whole;
        }
        let (m, s) = arith::parts(a);
        let up: i32 = s - 149;
        let ghost g = pow2(up as nat) as int;
        proof {
            lemma_pow2_adds(149, up as nat);
            assert(u == (m * g) * one) by (nonlinear_arith)
                requires
                    u == m * pow2(s as nat),
                    pow2(s as nat) == one * g,
            ;
            vstd::arithmetic::div_mod::lemma_fundamental_div_mod_converse(u, one, m * g, 0);
        }
        if up > 40 {
            proof {
                round::lemma_pow2_increases(41, up as nat);
                assert(m * g >= 0x1_0000_0000_0000_0000) by (nonlinear_arith)
                    requires
                        m >= 0x80_0000,
                        g >= 0x200_0000_0000,
                ;
            }
            u64::MAX
        } else {
            proof {
                round::lemma_pow2_increases(up as nat, 40);
                assert(0 <= m * g <= 0xffff_ffff_ffff_ffff) by (nonlinear_arith)
                    requires
                        0 <= m < 0x100_0000,
                        0 < g <= 0x100_0000_0000,
                ;
                vstd::bits::lemma_u64_shl_is_mul(m, up as u64);
            }
            m << (up as u64)
        }
    }

    pub open spec fn to_i32_spec(self) -> i32 {
        self.saturating(i32::MIN as int, i32::MAX as int) as i32
    }

    /// Cut to a whole number, held in range.
    #[verifier::when_used_as_spec(to_i32_spec)]
    pub fn to_i32(self) -> (r: i32)
        ensures
            r == self.to_i32_spec(),
            r as int == self.saturating(i32::MIN as int, i32::MAX as int),
    {
        let a: u32 = self.unsigned();
        if a > INFINITE {
            return 0;
        }
        if a == INFINITE {
            return if self.signum() { i32::MIN } else { i32::MAX };
        }
        proof {
            lemma_pow2_pos(149);
            arith::lemma_zero_magnitude(a as int);
            vstd::arithmetic::div_mod::lemma_div_pos_is_pos(
                pattern::units(a as int),
                pow2(149) as int,
            );
        }
        let w: u64 = self.whole();
        if self.signum() {
            if w >= 0x8000_0000 {
                i32::MIN
            } else {
                -(w as i32)
            }
        } else if w >= 0x7fff_ffff {
            i32::MAX
        } else {
            w as i32
        }
    }

    pub open spec fn to_u32_spec(self) -> u32 {
        self.saturating(0, u32::MAX as int) as u32
    }

    /// Cut to a whole number, held in range.
    #[verifier::when_used_as_spec(to_u32_spec)]
    pub fn to_u32(self) -> (r: u32)
        ensures
            r == self.to_u32_spec(),
            r as int == self.saturating(0, u32::MAX as int),
    {
        let w: u64 = self.to_u64();
        if w >= 0xffff_ffff {
            u32::MAX
        } else {
            w as u32
        }
    }

    pub open spec fn to_u8_spec(self) -> u8 {
        self.saturating(0, u8::MAX as int) as u8
    }

    /// Cut to a whole number, held in range.
    #[verifier::when_used_as_spec(to_u8_spec)]
    pub fn to_u8(self) -> (r: u8)
        ensures
            r == self.to_u8_spec(),
            r as int == self.saturating(0, u8::MAX as int),
    {
        let w: u64 = self.to_u64();
        if w >= 255 {
            255
        } else {
            w as u8
        }
    }

    pub open spec fn to_u64_spec(self) -> u64 {
        self.saturating(0, u64::MAX as int) as u64
    }

    /// Cut to a whole number, held in range.
    #[verifier::when_used_as_spec(to_u64_spec)]
    pub fn to_u64(self) -> (r: u64)
        ensures
            r == self.to_u64_spec(),
            r as int == self.saturating(0, u64::MAX as int),
    {
        let a: u32 = self.unsigned();
        if a > INFINITE {
            return 0;
        }
        if a == INFINITE {
            return if self.signum() { 0 } else { u64::MAX };
        }
        proof {
            lemma_pow2_pos(149);
            arith::lemma_zero_magnitude(a as int);
            vstd::arithmetic::div_mod::lemma_div_pos_is_pos(
                pattern::units(a as int),
                pow2(149) as int,
            );
        }
        if self.signum() {
            0
        } else {
            self.whole()
        }
    }
}

/// Rounding up and to nearest from the whole part and the rest.
proof fn lemma_roundings(u: int, one: int)
    requires
        u >= 0,
        one > 0,
    ensures
        (u + one - 1) / one == if u % one == 0 {
            u / one
        } else {
            u / one + 1
        },
        (2 * u + one) / (2 * one) == if 2 * (u % one) >= one {
            u / one + 1
        } else {
            u / one
        },
        u / one >= 0,
{
    let w = u / one;
    let f = u % one;
    vstd::arithmetic::div_mod::lemma_fundamental_div_mod(u, one);
    vstd::arithmetic::div_mod::lemma_mod_bound(u, one);
    vstd::arithmetic::div_mod::lemma_div_pos_is_pos(u, one);
    assert(one * w == w * one && one * (w + 1) == one * w + one && w * (2 * one) == 2 * (one * w)
        && (w + 1) * (2 * one) == 2 * (one * w) + 2 * one && (w + 1) * one == one * w + one)
        by (nonlinear_arith);
    if f == 0 {
        vstd::arithmetic::div_mod::lemma_fundamental_div_mod_converse(u + one - 1, one, w, one - 1);
    } else {
        vstd::arithmetic::div_mod::lemma_fundamental_div_mod_converse(
            u + one - 1,
            one,
            w + 1,
            f - 1,
        );
    }
    if 2 * f >= one {
        vstd::arithmetic::div_mod::lemma_fundamental_div_mod_converse(
            2 * u + one,
            2 * one,
            w + 1,
            2 * f - one,
        );
    } else {
        vstd::arithmetic::div_mod::lemma_fundamental_div_mod_converse(
            2 * u + one,
            2 * one,
            w,
            2 * f + one,
        );
    }
}

} // verus!
