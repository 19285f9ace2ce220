//! Rounding an integer with a binary exponent to the nearest pattern.

use vstd::arithmetic::power2::*;
use vstd::prelude::*;

use crate::binary32::pattern;

verus! {

/// `q` units scaled by `2^t`, or something strictly between that and the next
/// multiple when `sticky`, rounds to the pattern `r`: both halfway points next
/// to `r` are on the right side of it. Everything is scaled by `2^400` so that
/// the powers are whole.
pub open spec fn rounds(q: int, sticky: bool, t: int, r: int) -> bool {
    let one = pow2(400) as int;
    let step = pow2((t + 400) as nat) as int;
    let low = (pattern::units(r - 1) + pattern::units(r)) * one;
    let high = (pattern::units(r) + pattern::units(r + 1)) * one;
    let top = if sticky { q + 1 } else { q };
    &&& 0 <= r
    &&& r > 0 ==> low <= 2 * (q * step)
    &&& r > 0 && !sticky && low == 2 * (q * step) ==> r % 2 == 0
    &&& r < pattern::INFINITE ==> 2 * (top * step) <= high
    &&& r < pattern::INFINITE && !sticky && 2 * (q * step) == high ==> r % 2 == 0
}

pub proof fn lemma_bit_length(m: u64)
    ensures
        m > 0 ==> pow2((63 - vstd::std_specs::bits::u64_leading_zeros(m)) as nat) <= m,
        m < pow2((64 - vstd::std_specs::bits::u64_leading_zeros(m)) as nat),
        0 <= vstd::std_specs::bits::u64_leading_zeros(m) <= 64,
        m > 0 ==> vstd::std_specs::bits::u64_leading_zeros(m) < 64,
    decreases m,
{
    reveal(vstd::std_specs::bits::u64_leading_zeros);
    lemma2_to64();
    lemma2_to64_rest();
    if m > 0 {
        lemma_bit_length(m / 2);
        let z = vstd::std_specs::bits::u64_leading_zeros(m);
        if m / 2 > 0 {
            lemma_pow2_unfold((63 - z) as nat);
        }
        lemma_pow2_unfold((64 - z) as nat);
    }
}

/// `r = s * 2^23 + mant` is the pattern of `mant * 2^s` units.
pub proof fn lemma_compose(s: int, mant: int)
    requires
        s >= 0,
        s > 0 ==> 0x80_0000 <= mant,
        0 <= mant <= 0x100_0000,
    ensures
        ({
            let r = s * 0x80_0000 + mant;
            &&& r >= 0
            &&& pattern::units(r) == mant * pow2(s as nat)
            &&& pattern::units(r + 1) >= (mant + 1) * pow2(s as nat)
            &&& r > 0 ==> pattern::units(r) > pattern::units(r - 1)
            &&& r > 0 && (mant > 0x80_0000 || s == 0) ==> pattern::units(r - 1) == (mant - 1)
                * pow2(s as nat)
            &&& r % 2 == mant % 2
        }),
{
    let r = s * 0x80_0000 + mant;
    let p = pow2(s as nat) as int;
    lemma_pow2_pos(s as nat);
    lemma2_to64();
    lemma_pow2_unfold((s + 1) as nat);
    pattern::lemma_units_step(r);
    if mant == 0x100_0000 {
        assert(r / 0x80_0000 == s + 2);
        assert(r % 0x80_0000 == 0);
        assert(0x80_0000 * (2 * p) == mant * p) by (nonlinear_arith)
            requires
                mant == 0x100_0000,
        ;
        assert((mant + 1) * p == mant * p + p) by (nonlinear_arith);
    } else if mant >= 0x80_0000 {
        assert(r / 0x80_0000 == s + 1);
        assert(r % 0x80_0000 == mant - 0x80_0000);
        assert((mant + 1) * p == mant * p + p) by (nonlinear_arith);
    } else {
        assert(s == 0);
        assert(p == 1);
        assert(r == mant);
    }
    if r > 0 {
        pattern::lemma_units_step(r - 1);
        if mant > 0x80_0000 {
            assert((r - 1) / 0x80_0000 == s + 1);
            assert((r - 1) % 0x80_0000 == mant - 1 - 0x80_0000);
        } else if s == 0 {
            assert((r - 1) / 0x80_0000 == 0 || r - 1 == 0x80_0000);
        }
    }
}

/// The two halfway points next to `mant * 2^s` units, against `q * 2^t`.
proof fn lemma_rounds_between(q: int, sticky: bool, t: int, s: int, h: int, mant: int)
    requires
        -400 <= t <= 400,
        s >= 0,
        s >= t,
        2 * h == pow2((s - t) as nat),
        h >= 0,
        s > 0 ==> 0x80_0000 <= mant,
        0 <= mant <= 0x100_0000,
        (2 * mant - 1) * h <= q,
        !sticky && (2 * mant - 1) * h == q ==> mant % 2 == 0,
        s > 0 && mant == 0x80_0000 ==> 2 * mant * h <= q,
        (if sticky { q + 1 } else { q }) <= (2 * mant + 1) * h,
        !sticky && q == (2 * mant + 1) * h ==> mant % 2 == 0,
    ensures
        rounds(q, sticky, t, s * 0x80_0000 + mant),
{
    let r = s * 0x80_0000 + mant;
    let one = pow2(400) as int;
    let step = pow2((t + 400) as nat) as int;
    let p = pow2(s as nat) as int;
    lemma_compose(s, mant);
    lemma_pow2_pos(400);
    lemma_pow2_pos((t + 400) as nat);
    lemma_pow2_pos((s - t) as nat);
    lemma_pow2_adds(s as nat, 400);
    lemma_pow2_adds((t + 400) as nat, (s - t) as nat);
    assert(p * one == step * (2 * h));
    let top = if sticky { q + 1 } else { q };
    let high = (pattern::units(r) + pattern::units(r + 1)) * one;
    let low = (pattern::units(r - 1) + pattern::units(r)) * one;
    let wide = (2 * mant + 1) * h;
    assert(high >= 2 * (wide * step)) by (nonlinear_arith)
        requires
            high == (pattern::units(r) + pattern::units(r + 1)) * one,
            pattern::units(r) == mant * p,
            pattern::units(r + 1) >= (mant + 1) * p,
            p * one == step * (2 * h),
            wide == (2 * mant + 1) * h,
            one > 0,
    ;
    assert(2 * (top * step) <= 2 * (wide * step)) by (nonlinear_arith)
        requires
            top <= wide,
            step > 0,
    ;
    if !sticky && q < wide {
        assert(2 * (q * step) < 2 * (wide * step)) by (nonlinear_arith)
            requires
                q < wide,
                step > 0,
        ;
    }
    if r > 0 {
        if mant > 0x80_0000 || s == 0 {
            let narrow = (2 * mant - 1) * h;
            assert(low == 2 * (narrow * step)) by (nonlinear_arith)
                requires
                    low == (pattern::units(r - 1) + pattern::units(r)) * one,
                    pattern::units(r) == mant * p,
                    pattern::units(r - 1) == (mant - 1) * p,
                    p * one == step * (2 * h),
                    narrow == (2 * mant - 1) * h,
            ;
            assert(2 * (narrow * step) <= 2 * (q * step)) by (nonlinear_arith)
                requires
                    narrow <= q,
                    step > 0,
            ;
            if narrow < q {
                assert(2 * (narrow * step) < 2 * (q * step)) by (nonlinear_arith)
                    requires
                        narrow < q,
                        step > 0,
                ;
            }
        } else {
            let exact = 2 * mant * h;
            assert(low < 2 * (mant * p) * one) by (nonlinear_arith)
                requires
                    low == (pattern::units(r - 1) + pattern::units(r)) * one,
                    pattern::units(r) == mant * p,
                    pattern::units(r - 1) < pattern::units(r),
                    one > 0,
            ;
            assert(2 * (mant * p) * one == 2 * (exact * step)) by (nonlinear_arith)
                requires
                    p * one == step * (2 * h),
                    exact == 2 * mant * h,
            ;
            assert(2 * (exact * step) <= 2 * (q * step)) by (nonlinear_arith)
                requires
                    exact <= q,
                    step > 0,
            ;
        }
    }
}

/// A whole number of units that has a pattern.
proof fn lemma_rounds_exact(q: int, t: int, s: int, mant: int)
    requires
        -400 <= t <= 400,
        0 <= s <= t,
        mant == q * pow2((t - s) as nat),
        s > 0 ==> 0x80_0000 <= mant,
        0 <= mant <= 0x100_0000,
    ensures
        rounds(q, false, t, s * 0x80_0000 + mant),
{
    let r = s * 0x80_0000 + mant;
    let one = pow2(400) as int;
    let step = pow2((t + 400) as nat) as int;
    let p = pow2(s as nat) as int;
    let g = pow2((t - s) as nat) as int;
    lemma_compose(s, mant);
    lemma_pow2_pos(400);
    lemma_pow2_adds(s as nat, 400);
    lemma_pow2_adds((s + 400) as nat, (t - s) as nat);
    assert(pattern::units(r) * one == q * step) by (nonlinear_arith)
        requires
            pattern::units(r) == mant * p,
            mant == q * g,
            step == (p * one) * g,
    ;
    pattern::lemma_units_step(r);
    let u = pattern::units(r);
    let up = pattern::units(r + 1);
    assert(2 * (u * one) < (u + up) * one) by (nonlinear_arith)
        requires
            u < up,
            one > 0,
    ;
    if r > 0 {
        let down = pattern::units(r - 1);
        assert((down + u) * one < 2 * (u * one)) by (nonlinear_arith)
            requires
                down < u,
                one > 0,
        ;
    }
}

/// Beyond the largest finite magnitude everything rounds to infinity.
proof fn lemma_rounds_overflow(q: int, sticky: bool, t: int, r: int)
    requires
        rounds(q, sticky, t, r),
        r >= pattern::INFINITE,
    ensures
        rounds(q, sticky, t, pattern::INFINITE as int),
{
    let inf = pattern::INFINITE as int;
    let one = pow2(400) as int;
    lemma_pow2_pos(400);
    if r > inf {
        pattern::lemma_units_increase(inf, r);
        pattern::lemma_units_increase(inf - 1, r - 1);
        let x = pattern::units(inf - 1) + pattern::units(inf);
        let y = pattern::units(r - 1) + pattern::units(r);
        assert(x * one < y * one) by (nonlinear_arith)
            requires
                x < y,
                one > 0,
        ;
    }
}

/// Rounds `q * 2^t` units to the nearest pattern, ties to even. With `sticky`
/// the amount lies strictly between `q` and `q + 1` times `2^t`.
pub(crate) fn round_scaled(q: u64, sticky: bool, t: i32) -> (r: u32)
    requires
        -400 <= t <= 400,
        sticky ==> q >= 0x100_0000,
        q < 0x8000_0000_0000_0000 || t >= 0,
    ensures
        r <= pattern::INFINITE,
        rounds(q as int, sticky, t as int, r as int),
{
    proof {
        lemma_bit_length(q);
        lemma2_to64();
        lemma2_to64_rest();
    }
    if q == 0 {
        proof {
            let step = pow2((t + 400) as nat) as int;
            assert(0 * step == 0);
            pattern::lemma_units_step(0);
            lemma_pow2_pos(400);
            assert((0int + 1) * pow2(400) > 0);
        }
        return 0;
    }
    let len: i32 = 64 - (q.leading_zeros() as i32);
    let s: i32 = if len + t >= 24 {
        len + t - 24
    } else {
        0
    };
    let wide: u64;
    if s <= t {
        let up: u64 = (t - s) as u64;
        proof {
            lemma_pow2_adds(len as nat, up as nat);
            lemma_pow2_adds((len - 1) as nat, up as nat);
            lemma_small_product(q as int, len as int, up as int);
            if s > 0 {
                assert(up + len == 24);
            } else {
                lemma_pow2_increases((len + up) as nat, 24);
            }
            vstd::bits::lemma_u64_shl_is_mul(q, up);
        }
        let mant: u64 = q << up;
        wide = (s as u64) * 0x80_0000 + mant;
        proof {
            lemma_rounds_exact(q as int, t as int, s as int, mant as int);
        }
    } else if s - t >= 64 {
        wide = 0;
        proof {
            lemma_rounds_to_nothing(q as int, t as int);
        }
    } else {
        let down: u64 = (s - t) as u64;
        let mant: u64 = q >> down;
        let half: u64 = 1u64 << (down - 1);
        proof {
            vstd::bits::lemma_u64_shr_is_div(q, down);
            vstd::bits::lemma_u64_pow2_no_overflow((down - 1) as nat);
            vstd::bits::lemma_u64_shl_is_mul(1, (down - 1) as u64);
            lemma_pow2_unfold(down as nat);
            lemma_quotient(q as int, half as int, len as int, down as int);
        }
        let rem: u64 = q - mant * half * 2;
        let up: bool = rem > half || (rem == half && (sticky || mant % 2 == 1));
        let rounded: u64 = if up {
            mant + 1
        } else {
            mant
        };
        wide = (s as u64) * 0x80_0000 + rounded;
        proof {
            lemma_half_choice(q as int, sticky, half as int, mant as int, rem as int, rounded as int);
            lemma_rounds_between(q as int, sticky, t as int, s as int, half as int, rounded as int);
        }
    }
    if wide >= pattern::INFINITE as u64 {
        proof {
            lemma_rounds_overflow(q as int, sticky, t as int, wide as int);
        }
        pattern::INFINITE
    } else {
        wide as u32
    }
}

pub proof fn lemma_pow2_increases(a: nat, b: nat)
    requires
        a <= b,
    ensures
        pow2(a) <= pow2(b),
{
    if a < b {
        lemma_pow2_strictly_increases(a, b);
    }
}

pub proof fn lemma_small_product(q: int, len: int, up: int)
    requires
        len >= 1,
        up >= 0,
        pow2((len - 1) as nat) <= q < pow2(len as nat),
    ensures
        pow2((len - 1 + up) as nat) <= q * pow2(up as nat) < pow2((len + up) as nat),
{
    let g = pow2(up as nat) as int;
    lemma_pow2_pos(up as nat);
    lemma_pow2_adds(len as nat, up as nat);
    lemma_pow2_adds((len - 1) as nat, up as nat);
    let a = pow2((len - 1) as nat) as int;
    let b = pow2(len as nat) as int;
    assert(a * g <= q * g && q * g < b * g) by (nonlinear_arith)
        requires
            a <= q < b,
            g > 0,
    ;
}

/// Dropping `down` bits of a number of `len` bits.
proof fn lemma_quotient(q: int, half: int, len: int, down: int)
    requires
        1 <= len <= 64,
        1 <= down < 64,
        2 * half == pow2(down as nat),
        pow2((len - 1) as nat) <= q < pow2(len as nat),
        len - down <= 24,
    ensures
        ({
            let mant = q / (2 * half);
            &&& 0 <= mant * half * 2 <= q
            &&& q - mant * half * 2 < 2 * half
            &&& 0 <= mant < 0x100_0000
            &&& len - down == 24 ==> 0x80_0000 <= mant
            &&& 0 <= mant * half <= q
            &&& half > 0
        }),
{
    let d = 2 * half;
    let mant = q / d;
    lemma_pow2_pos(down as nat);
    vstd::arithmetic::div_mod::lemma_fundamental_div_mod(q, d);
    vstd::arithmetic::div_mod::lemma_mod_bound(q, d);
    vstd::arithmetic::div_mod::lemma_div_pos_is_pos(q, d);
    assert(mant * half * 2 == d * mant) by (nonlinear_arith)
        requires
            d == 2 * half,
    ;
    assert(0 <= mant * half) by (nonlinear_arith)
        requires
            0 <= mant,
            0 < half,
    ;
    lemma2_to64();
    lemma_pow2_adds(24, down as nat);
    lemma_pow2_increases(len as nat, (24 + down) as nat);
    assert(mant < 0x100_0000) by (nonlinear_arith)
        requires
            d * mant <= q,
            q < 0x100_0000 * d,
            d > 0,
    ;
    if len - down == 24 {
        lemma_pow2_adds(23, down as nat);
        assert(0x80_0000 <= mant) by (nonlinear_arith)
            requires
                q < d * mant + d,
                0x80_0000 * d <= q,
                d > 0,
        ;
    }
}

/// Rounding half up or to even picks the right neighbour.
proof fn lemma_half_choice(q: int, sticky: bool, half: int, mant: int, rem: int, rounded: int)
    requires
        half > 0,
        mant >= 0,
        rem == q - mant * half * 2,
        0 <= rem < 2 * half,
        rounded == if rem > half || (rem == half && (sticky || mant % 2 == 1)) {
            mant + 1
        } else {
            mant
        },
    ensures
        (2 * rounded - 1) * half <= q,
        !sticky && (2 * rounded - 1) * half == q ==> rounded % 2 == 0,
        rounded == mant ==> 2 * rounded * half <= q,
        (if sticky { q + 1 } else { q }) <= (2 * rounded + 1) * half,
        !sticky && q == (2 * rounded + 1) * half ==> rounded % 2 == 0,
{
    let base = mant * half * 2;
    assert((2 * mant - 1) * half == base - half) by (nonlinear_arith)
        requires
            base == mant * half * 2,
    ;
    assert((2 * mant + 1) * half == base + half) by (nonlinear_arith)
        requires
            base == mant * half * 2,
    ;
    assert((2 * (mant + 1) - 1) * half == base + half) by (nonlinear_arith)
        requires
            base == mant * half * 2,
    ;
    assert((2 * (mant + 1) + 1) * half == base + 3 * half) by (nonlinear_arith)
        requires
            base == mant * half * 2,
    ;
    assert(2 * mant * half == base) by (nonlinear_arith)
        requires
            base == mant * half * 2,
    ;
}

/// Less than half a unit rounds to zero.
proof fn lemma_rounds_to_nothing(q: int, t: int)
    requires
        -400 <= t <= -64,
        0 <= q < 0x8000_0000_0000_0000,
    ensures
        rounds(q, false, t, 0),
        rounds(q, true, t, 0),
{
    let step = pow2((t + 400) as nat) as int;
    lemma_pow2_pos((t + 400) as nat);
    lemma2_to64();
    lemma2_to64_rest();
    lemma_pow2_adds((t + 400) as nat, 64);
    lemma_pow2_increases((t + 464) as nat, 400);
    pattern::lemma_units_step(0);
    assert(2 * ((q + 1) * step) <= step * 0x1_0000_0000_0000_0000) by (nonlinear_arith)
        requires
            q + 1 <= 0x8000_0000_0000_0000,
            step > 0,
    ;
    assert(2 * (q * step) < step * 0x1_0000_0000_0000_0000) by (nonlinear_arith)
        requires
            q < 0x8000_0000_0000_0000,
            step > 0,
    ;
}

} // verus!
