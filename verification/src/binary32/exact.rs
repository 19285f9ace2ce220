//! When results are exact, and how rounding keeps order.

use vstd::arithmetic::power2::*;
use vstd::prelude::*;

use crate::binary32::arith;
use crate::binary32::convert;
use crate::binary32::pattern;
use crate::binary32::pattern::{Binary32, INFINITE};
use crate::binary32::round;

verus! {

/// A whole number of at most twenty-four bits times a power of two has a
/// pattern.
pub proof fn pattern_for(m: int, s: int) -> (r: int)
    requires
        0 <= m <= 0x100_0000,
        0 <= s <= 252,
    ensures
        0 <= r < INFINITE,
        pattern::units(r) == m * pow2(s as nat),
    decreases s,
{
    if m >= 0x80_0000 || s == 0 {
        round::lemma_compose(s, m);
        s * 0x80_0000 + m
    } else {
        lemma_pow2_unfold(s as nat);
        assert((2 * m) * pow2((s - 1) as nat) == m * pow2(s as nat)) by (nonlinear_arith)
            requires
                pow2(s as nat) == 2 * pow2((s - 1) as nat),
        ;
        pattern_for(2 * m, s - 1)
    }
}

/// The largest pattern whose magnitude is at most `n / d` units.
proof fn pattern_below(n: int, d: int, r: int) -> (q: int)
    requires
        d > 0,
        n >= 0,
        0 <= r,
        n < pattern::units(r + 1) * d,
    ensures
        0 <= q <= r,
        pattern::units(q) * d <= n < pattern::units(q + 1) * d,
    decreases r,
{
    if pattern::units(r) * d <= n {
        r
    } else {
        assert(pattern::units(0) == 0);
        assert(0 * d == 0);
        pattern_below(n, d, r - 1)
    }
}

/// Every amount has a nearest pattern.
pub proof fn lemma_nearest_total(n: int, d: int)
    requires
        d > 0,
        n >= 0,
    ensures
        pattern::near(n, d, pattern::nearest(n, d)),
        0 <= pattern::nearest(n, d) <= INFINITE,
{
    let inf = INFINITE as int;
    let top = pattern::units(inf);
    if top * d <= n {
        pattern::lemma_units_step(inf - 1);
        let below = pattern::units(inf - 1);
        assert((below + top) * d <= 2 * n && (below + top) * d != 2 * n) by (nonlinear_arith)
            requires
                below < top,
                top * d <= n,
                d > 0,
        ;
        assert(pattern::near(n, d, inf));
    } else {
        let q = pattern_below(n, d, inf - 1);
        pattern::lemma_units_step(q);
        let u = pattern::units(q);
        let up = pattern::units(q + 1);
        assert((u + up) * d == u * d + up * d) by (nonlinear_arith);
        let mid = (u + up) * d;
        if 2 * n < mid || (2 * n == mid && q % 2 == 0) {
            if q > 0 {
                pattern::lemma_units_step(q - 1);
                let down = pattern::units(q - 1);
                assert((down + u) * d < 2 * (u * d)) by (nonlinear_arith)
                    requires
                        down < u,
                        d > 0,
                ;
            }
            assert(pattern::near(n, d, q));
        } else {
            pattern::lemma_units_step(q + 1);
            let more = pattern::units(q + 2);
            assert(2 * (up * d) < (up + more) * d) by (nonlinear_arith)
                requires
                    up < more,
                    d > 0,
            ;
            assert(pattern::near(n, d, q + 1));
        }
    }
}

/// Rounding keeps the order with a magnitude that has a pattern.
pub proof fn lemma_nearest_keeps_order(n: int, d: int, r: int)
    requires
        d > 0,
        n >= 0,
        0 <= r <= INFINITE,
    ensures
        n <= pattern::units(r) * d ==> pattern::nearest(n, d) <= r,
        n >= pattern::units(r) * d ==> pattern::nearest(n, d) >= r,
{
    lemma_nearest_total(n, d);
    let q = pattern::nearest(n, d);
    let u = pattern::units(r);
    if q > r && n <= u * d {
        pattern::lemma_units_increase(r, q);
        if r < q - 1 {
            pattern::lemma_units_increase(r, q - 1);
        }
        let a = pattern::units(q - 1);
        let b = pattern::units(q);
        assert((a + b) * d > 2 * (u * d)) by (nonlinear_arith)
            requires
                a >= u,
                b > u,
                d > 0,
        ;
    }
    if q < r && n >= u * d {
        pattern::lemma_units_increase(q, r);
        if q + 1 < r {
            pattern::lemma_units_increase(q + 1, r);
        }
        let a = pattern::units(q);
        let b = pattern::units(q + 1);
        assert((a + b) * d < 2 * (u * d)) by (nonlinear_arith)
            requires
                a < u,
                b <= u,
                d > 0,
        ;
    }
}

/// Whole numbers of up to twenty-four bits convert exactly.
pub proof fn lemma_of_int_exact(k: int)
    requires
        -0x100_0000 <= k <= 0x100_0000,
    ensures
        convert::of_int(k).is_finite_spec(),
        convert::of_int(k).value() == k * pow2(149),
{
    let n = if k < 0 {
        -k
    } else {
        k
    };
    let r = pattern_for(n, 149);
    pattern::lemma_nearest_exact(r, 1);
    assert((-k) * pow2(149) == -(k * pow2(149))) by (nonlinear_arith);
}

/// The values of one and of one half.
pub proof fn lemma_one_and_half()
    ensures
        Binary32::one().is_finite_spec(),
        Binary32::one().value() == pow2(149),
        Binary32::half().is_finite_spec(),
        Binary32::half().value() == pow2(148),
{
    lemma2_to64();
    lemma_pow2_adds(23, 126);
    lemma_pow2_adds(23, 125);
}

/// A sum that has a pattern is exact.
pub proof fn lemma_plus_exact(a: Binary32, b: Binary32, m: int, s: int)
    requires
        a.is_finite_spec(),
        b.is_finite_spec(),
        -0x100_0000 <= m <= 0x100_0000,
        0 <= s <= 252,
        a.value() + b.value() == m * pow2(s as nat),
    ensures
        a.plus(b).is_finite_spec(),
        a.plus(b).value() == a.value() + b.value(),
{
    reveal(Binary32::plus_spec);
    let n = if m < 0 {
        -m
    } else {
        m
    };
    let r = pattern_for(n, s);
    pattern::lemma_nearest_exact(r, 1);
    assert((-m) * pow2(s as nat) == -(m * pow2(s as nat))) by (nonlinear_arith);
    assert(pattern::units(0) == 0);
}

/// Rounding a sum keeps its order with any number.
pub proof fn lemma_plus_keeps_order(a: Binary32, b: Binary32, r: Binary32)
    requires
        a.is_finite_spec(),
        b.is_finite_spec(),
        r.is_finite_spec(),
    ensures
        !a.plus(b).is_nan_spec(),
        a.value() + b.value() <= r.value() ==> a.plus(b).le(r),
        a.value() + b.value() >= r.value() ==> a.plus(b).ge(r),
{
    reveal(Binary32::plus_spec);
    let sum = a.value() + b.value();
    let m = r.magnitude();
    arith::lemma_zero_magnitude(m);
    if sum > 0 {
        lemma_nearest_keeps_order(sum, 1, m);
        lemma_nearest_total(sum, 1);
    } else if sum < 0 {
        lemma_nearest_keeps_order(-sum, 1, m);
        lemma_nearest_total(-sum, 1);
    }
}

/// The sign changes the value's sign.
pub proof fn lemma_negated(a: Binary32)
    ensures
        a.negated().magnitude() == a.magnitude(),
        a.negated().value() == -a.value(),
        a.negated().rank() == -a.rank(),
        a.negated().is_nan_spec() == a.is_nan_spec(),
{
}

/// A product that has a pattern is exact.
pub proof fn lemma_times_exact(a: Binary32, b: Binary32, m: int, s: int)
    requires
        a.is_finite_spec(),
        b.is_finite_spec(),
        -0x100_0000 <= m <= 0x100_0000,
        0 <= s <= 252,
        a.value() * b.value() == (m * pow2(s as nat)) * pow2(149),
    ensures
        a.times(b).is_finite_spec(),
        a.times(b).value() == m * pow2(s as nat),
{
    reveal(Binary32::times_spec);
    let one = pow2(149) as int;
    let p = pow2(s as nat) as int;
    lemma_pow2_pos(149);
    lemma_pow2_pos(s as nat);
    let ua = pattern::units(a.magnitude());
    let ub = pattern::units(b.magnitude());
    arith::lemma_zero_magnitude(a.magnitude());
    arith::lemma_zero_magnitude(b.magnitude());
    let n = if m < 0 {
        -m
    } else {
        m
    };
    let negative = a.is_negative() != b.is_negative();
    assert((-ua) * ub == -(ua * ub) && ua * (-ub) == -(ua * ub) && (-ua) * (-ub) == ua * ub
        && 0 <= ua * ub) by (nonlinear_arith)
        requires
            ua >= 0,
            ub >= 0,
    ;
    assert(((-m) * p) * one == -((m * p) * one) && (-m) * p == -(m * p)) by (nonlinear_arith);
    assert(m > 0 ==> (m * p) * one > 0) by (nonlinear_arith)
        requires
            p > 0,
            one > 0,
    ;
    assert(m < 0 ==> (m * p) * one < 0) by (nonlinear_arith)
        requires
            p > 0,
            one > 0,
    ;
    assert(m == 0 ==> (m * p) * one == 0) by (nonlinear_arith);
    assert(ua * ub == (n * p) * one);
    let r = pattern_for(n, s);
    pattern::lemma_nearest_exact(r, one);
    if m == 0 {
        assert(n * p == 0) by (nonlinear_arith)
            requires
                n == 0,
        ;
        assert(r == 0) by {
            arith::lemma_zero_magnitude(r);
        }
    }
}

/// Cutting a whole number to a whole number.
pub proof fn lemma_to_i32_exact(a: Binary32, k: int)
    requires
        a.is_finite_spec(),
        i32::MIN <= k <= i32::MAX,
        a.value() == k * pow2(149),
    ensures
        a.to_i32() == k,
{
    let one = pow2(149) as int;
    lemma_pow2_pos(149);
    arith::lemma_zero_magnitude(a.magnitude());
    let n = if k < 0 {
        -k
    } else {
        k
    };
    assert((-k) * one == -(k * one)) by (nonlinear_arith);
    assert(k > 0 ==> k * one > 0) by (nonlinear_arith)
        requires
            one > 0,
    ;
    assert(k < 0 ==> k * one < 0) by (nonlinear_arith)
        requires
            one > 0,
    ;
    assert(pattern::units(a.magnitude()) == n * one);
    vstd::arithmetic::div_mod::lemma_fundamental_div_mod_converse(n * one, one, n, 0);
}

/// Cutting to a whole number keeps the order.
pub proof fn lemma_to_i32_keeps_order(a: Binary32, b: Binary32)
    requires
        a.le(b),
    ensures
        a.to_i32() <= b.to_i32(),
{
    let one = pow2(149) as int;
    lemma_pow2_pos(149);
    arith::lemma_zero_magnitude(a.magnitude());
    arith::lemma_zero_magnitude(b.magnitude());
    let ua = pattern::units(a.magnitude());
    let ub = pattern::units(b.magnitude());
    vstd::arithmetic::div_mod::lemma_div_pos_is_pos(ua, one);
    vstd::arithmetic::div_mod::lemma_div_pos_is_pos(ub, one);
    if a.magnitude() < b.magnitude() {
        pattern::lemma_units_increase(a.magnitude(), b.magnitude());
        vstd::arithmetic::div_mod::lemma_div_is_ordered(ua, ub, one);
    } else {
        if b.magnitude() < a.magnitude() {
            pattern::lemma_units_increase(b.magnitude(), a.magnitude());
        }
        vstd::arithmetic::div_mod::lemma_div_is_ordered(ub, ua, one);
    }
    if a.magnitude() == 0 {
        vstd::arithmetic::div_mod::lemma_div_of0(one);
    }
    if b.magnitude() == 0 {
        vstd::arithmetic::div_mod::lemma_div_of0(one);
    }
}

/// What is held at or above zero cuts to a number at or above zero.
pub proof fn lemma_max_zero_to_i32(a: Binary32)
    ensures
        a.max(Binary32::zero()).to_i32() >= 0,
        !a.max(Binary32::zero()).is_nan_spec(),
{
    let z = Binary32::zero();
    let r = a.max(z);
    assert(z.le(r));
    lemma_to_i32_keeps_order(z, r);
    assert(pattern::units(0) == 0);
    assert(0 * pow2(149) == 0) by (nonlinear_arith);
    lemma_to_i32_exact(z, 0);
}

/// A share of at most an eighth of a whole number of up to 32 bits, rounded,
/// has the number's sign and at most 28 bits.
pub proof fn lemma_share(k: int, share: Binary32)
    requires
        i32::MIN <= k <= i32::MAX,
        share.is_finite_spec(),
        !share.is_negative(),
        pattern::units(share.magnitude()) <= pow2(146),
    ensures
        k >= 0 ==> 0 <= share.times(convert::of_int(k)).round().to_i32() <= 0x1000_0000,
        k < 0 ==> -0x1000_0000 <= share.times(convert::of_int(k)).round().to_i32() <= 0,
{
    reveal(Binary32::times_spec);
    lemma2_to64();
    let n = if k < 0 {
        -k
    } else {
        k
    };
    let one = pow2(149) as int;
    let a = convert::of_int(k);
    let c = share.magnitude();
    lemma_pow2_pos(149);
    lemma_pow2_pos(146);
    // The number itself is at most 2^31.
    let top = pattern_for(1, 180);
    lemma_pow2_adds(31, 149);
    assert(0 <= n * one <= 1 * pow2(180)) by (nonlinear_arith)
        requires
            0 <= n <= 0x8000_0000,
            pow2(180) == 0x8000_0000 * one,
            one > 0,
    ;
    lemma_nearest_keeps_order(n * one, 1, top);
    lemma_nearest_total(n * one, 1);
    let m = a.magnitude();
    assert(-k * one == n * one || k * one == n * one);
    assert(0 <= m <= top);
    if m < top {
        pattern::lemma_units_increase(m, top);
    }
    arith::lemma_zero_magnitude(m);
    arith::lemma_zero_magnitude(c);
    let ua = pattern::units(m);
    let uc = pattern::units(c);
    // The product is at most 2^28.
    let limit = pattern_for(1, 177);
    lemma_pow2_adds(28, 149);
    lemma_pow2_adds(180, 146);
    lemma_pow2_adds(177, 149);
    assert(0 <= uc * ua && 0 <= ua * uc && uc * ua <= pow2(180) * pow2(146)) by (nonlinear_arith)
        requires
            0 <= ua <= pow2(180),
            0 <= uc <= pow2(146),
    ;
    assert(pattern::units(limit) * one == pow2(177) * one);
    lemma_nearest_keeps_order(uc * ua, one, limit);
    lemma_nearest_total(uc * ua, one);
    let product = share.times(a);
    let y = product.magnitude();
    assert(product.is_finite_spec());
    assert(0 <= y <= limit);
    if y < limit {
        pattern::lemma_units_increase(y, limit);
    }
    arith::lemma_zero_magnitude(y);
    let u = pattern::units(y);
    // Rounded, too.
    let whole = (2 * u + one) / (2 * one);
    vstd::arithmetic::div_mod::lemma_div_pos_is_pos(2 * u + one, 2 * one);
    assert(2 * u + one < 0x1000_0001 * (2 * one)) by (nonlinear_arith)
        requires
            u <= 0x1000_0000 * one,
            one > 0,
    ;
    vstd::arithmetic::div_mod::lemma_div_by_multiple_is_strongly_ordered(
        2 * u + one,
        0x1000_0001 * (2 * one),
        0x1000_0001,
        2 * one,
    );
    vstd::arithmetic::div_mod::lemma_div_multiples_vanish(0x1000_0001, 2 * one);
    assert(0x1000_0001 * (2 * one) == (2 * one) * 0x1000_0001) by (nonlinear_arith);
    assert(0 <= whole <= 0x1000_0000);
    assert(0 <= whole * one <= 0x1000_0000 * one) by (nonlinear_arith)
        requires
            0 <= whole <= 0x1000_0000,
            one > 0,
    ;
    lemma_nearest_keeps_order(whole * one, 1, limit);
    lemma_nearest_total(whole * one, 1);
    let z = pattern::nearest(whole * one, 1);
    if z < limit {
        pattern::lemma_units_increase(z, limit);
    }
    arith::lemma_zero_magnitude(z);
    vstd::arithmetic::div_mod::lemma_div_is_ordered(pattern::units(z), 0x1000_0000 * one, one);
    vstd::arithmetic::div_mod::lemma_div_multiples_vanish(0x1000_0000, one);
    vstd::arithmetic::div_mod::lemma_div_pos_is_pos(pattern::units(z), one);
    assert(0x1000_0000 * one == one * 0x1000_0000) by (nonlinear_arith);
}

/// The whole part of a number between zero and a whole number.
pub proof fn lemma_floor_within(x: Binary32, k: int)
    requires
        0 <= k <= 0x100_0000,
        !x.lt(Binary32::zero()),
        !x.gt(convert::of_int(k)),
    ensures
        0 <= x.floor().to_u32() <= k,
        0 <= x.floor().saturating(0, u32::MAX as int) <= k,
{
    let one = pow2(149) as int;
    lemma_pow2_pos(149);
    if x.is_nan_spec() {
        assert(arith::nan().is_nan_spec());
    } else {
        let m = x.magnitude();
        let top = convert::of_int(k);
        lemma_of_int_exact(k);
        arith::lemma_zero_magnitude(m);
        arith::lemma_zero_magnitude(top.magnitude());
        assert(k * one >= 0) by (nonlinear_arith)
            requires
                k >= 0,
                one > 0,
        ;
        if m < top.magnitude() {
            pattern::lemma_units_increase(m, top.magnitude());
        }
        let u = pattern::units(m);
        assert(0 <= u <= k * one);
        let w = u / one;
        vstd::arithmetic::div_mod::lemma_div_pos_is_pos(u, one);
        vstd::arithmetic::div_mod::lemma_div_is_ordered(u, k * one, one);
        vstd::arithmetic::div_mod::lemma_div_multiples_vanish(k, one);
        assert(k * one == one * k) by (nonlinear_arith);
        let r = pattern_for(w, 149);
        pattern::lemma_nearest_exact(r, 1);
        vstd::arithmetic::div_mod::lemma_fundamental_div_mod_converse(w * one, one, w, 0);
        if x.is_negative() {
            assert(m == 0);
            vstd::arithmetic::div_mod::lemma_fundamental_div_mod_converse(
                one - 1,
                one,
                0,
                one - 1,
            );
        }
    }
}

/// Rounding keeps the order of amounts.
pub proof fn lemma_nearest_monotone(a: int, b: int, d: int)
    requires
        d > 0,
        0 <= a <= b,
    ensures
        pattern::nearest(a, d) <= pattern::nearest(b, d),
{
    lemma_nearest_total(a, d);
    lemma_nearest_total(b, d);
    let p = pattern::nearest(a, d);
    let q = pattern::nearest(b, d);
    if p > q {
        pattern::lemma_units_step(q);
        if q + 1 < p {
            pattern::lemma_units_increase(q, p - 1);
            pattern::lemma_units_increase(q + 1, p);
        }
        let low = pattern::units(p - 1) + pattern::units(p);
        let high = pattern::units(q) + pattern::units(q + 1);
        assert(high * d <= low * d && (high < low ==> high * d < low * d)) by (nonlinear_arith)
            requires
                high <= low,
                d > 0,
        ;
    }
}

/// Multiplying a number that is not negative by two shares keeps their order.
pub proof fn lemma_times_keeps_order(a: Binary32, b: Binary32, c: Binary32)
    requires
        !a.is_nan_spec(),
        !a.is_negative(),
        b.is_finite_spec(),
        c.is_finite_spec(),
        !b.is_negative(),
        !c.is_negative(),
        0 < b.magnitude() < c.magnitude(),
    ensures
        a.times(b).le(a.times(c)),
{
    reveal(Binary32::times_spec);
    lemma_pow2_pos(149);
    if a.is_finite_spec() {
        let one = pow2(149) as int;
        let ua = pattern::units(a.magnitude());
        let ub = pattern::units(b.magnitude());
        let uc = pattern::units(c.magnitude());
        arith::lemma_zero_magnitude(a.magnitude());
        pattern::lemma_units_increase(b.magnitude(), c.magnitude());
        assert(0 <= ua * ub <= ua * uc) by (nonlinear_arith)
            requires
                0 <= ua,
                0 <= ub <= uc,
        ;
        lemma_nearest_monotone(ua * ub, ua * uc, one);
        lemma_nearest_total(ua * ub, one);
        lemma_nearest_total(ua * uc, one);
    }
}

/// Whole numbers of 32 bits convert to finite numbers that are not negative,
/// and those from 1 up to numbers from 1 up.
pub proof fn lemma_of_u32(k: int)
    requires
        0 <= k <= u32::MAX,
    ensures
        convert::of_int(k).is_finite_spec(),
        !convert::of_int(k).is_negative(),
        k >= 1 ==> convert::of_int(k).magnitude() >= 0x3f80_0000,
{
    let one = pow2(149) as int;
    lemma2_to64();
    lemma_pow2_pos(149);
    lemma_pow2_adds(32, 149);
    lemma_one_and_half();
    let top = pattern_for(1, 181);
    assert(0 <= k * one <= 1 * pow2(181)) by (nonlinear_arith)
        requires
            0 <= k <= 0x1_0000_0000,
            one > 0,
            pow2(181) == 0x1_0000_0000 * one,
    ;
    lemma_nearest_keeps_order(k * one, 1, top);
    lemma_nearest_total(k * one, 1);
    if k >= 1 {
        assert(k * one >= one) by (nonlinear_arith)
            requires
                k >= 1,
                one > 0,
        ;
        lemma_nearest_keeps_order(k * one, 1, 0x3f80_0000);
    }
}

/// What is held at or above one cuts to a number at or above one.
pub proof fn lemma_max_one_to_u32(a: Binary32)
    ensures
        a.max(Binary32::one()).to_u32() >= 1,
{
    let r = a.max(Binary32::one());
    let one = pow2(149) as int;
    lemma_pow2_pos(149);
    lemma_one_and_half();
    if r.is_finite_spec() {
        let m = r.magnitude();
        assert(m >= 0x3f80_0000);
        if m > 0x3f80_0000 {
            pattern::lemma_units_increase(0x3f80_0000, m);
        }
        vstd::arithmetic::div_mod::lemma_div_is_ordered(one, pattern::units(m), one);
        vstd::arithmetic::div_mod::lemma_div_by_self(one);
    }
}

/// The quotient of two numbers that are not negative is not negative.
pub proof fn lemma_quotient_not_negative(a: Binary32, b: Binary32)
    requires
        a.is_finite_spec(),
        b.is_finite_spec(),
        !a.is_negative(),
        !b.is_negative(),
        a.magnitude() > 0,
    ensures
        !a.over(b).is_nan_spec(),
        !a.over(b).is_negative(),
{
    reveal(Binary32::over_spec);
    lemma_pow2_pos(149);
    arith::lemma_zero_magnitude(a.magnitude());
    arith::lemma_zero_magnitude(b.magnitude());
    if b.magnitude() > 0 {
        let n = pattern::units(a.magnitude()) * pow2(149);
        assert(0 <= n) by (nonlinear_arith)
            requires
                n == pattern::units(a.magnitude()) * pow2(149),
                pattern::units(a.magnitude()) >= 0,
                pow2(149) > 0,
        ;
        lemma_nearest_total(n, pattern::units(b.magnitude()));
    }
}

/// A finite number less itself is zero.
pub proof fn lemma_difference_of_equals(a: Binary32)
    requires
        a.is_finite_spec(),
    ensures
        a.minus(a).magnitude() == 0,
        a.minus(a).is_finite_spec(),
        a.minus(a).value() == 0,
{
    reveal(Binary32::plus_spec);
    lemma_negated(a);
    assert(pattern::units(0) == 0);
}

/// Zero times a finite number is zero.
pub proof fn lemma_zero_times(a: Binary32, b: Binary32)
    requires
        a.magnitude() == 0,
        b.is_finite_spec(),
    ensures
        a.times(b).magnitude() == 0,
        a.times(b).is_finite_spec(),
        a.times(b).value() == 0,
{
    reveal(Binary32::times_spec);
    let one = pow2(149) as int;
    lemma_pow2_pos(149);
    assert(pattern::units(0) == 0);
    assert(0 * pattern::units(b.magnitude()) == 0) by (nonlinear_arith);
    assert(0 * one == 0) by (nonlinear_arith);
    pattern::lemma_nearest_exact(0, one);
}

/// One times a finite number is that number.
pub proof fn lemma_one_times(a: Binary32)
    requires
        a.is_finite_spec(),
    ensures
        Binary32::one().times(a) == a,
        a.times(Binary32::one()) == a,
{
    reveal(Binary32::times_spec);
    lemma_one_and_half();
    lemma_pow2_pos(149);
    let m = a.magnitude();
    pattern::lemma_nearest_exact(m, pow2(149) as int);
    assert(pow2(149) * pattern::units(m) == pattern::units(m) * pow2(149)) by (nonlinear_arith);
}

/// Zero over a finite number that is not zero is zero.
pub proof fn lemma_zero_over(a: Binary32, b: Binary32)
    requires
        a.magnitude() == 0,
        b.is_finite_spec(),
        b.magnitude() != 0,
    ensures
        a.over(b).magnitude() == 0,
        a.over(b).is_finite_spec(),
        a.over(b).value() == 0,
{
    reveal(Binary32::over_spec);
    let d = pattern::units(b.magnitude());
    arith::lemma_zero_magnitude(b.magnitude());
    assert(pattern::units(0) == 0);
    assert(0 * pow2(149) == 0 && 0 * d == 0) by (nonlinear_arith);
    pattern::lemma_nearest_exact(0, d);
}

/// Adding zero changes no finite number.
pub proof fn lemma_plus_zero(a: Binary32, zero: Binary32)
    requires
        a.is_finite_spec(),
        zero.magnitude() == 0,
    ensures
        a.plus(zero).same(a),
{
    assert(pattern::units(0) == 0);
    lemma_plus_keeps_order(a, zero, a);
}

/// A whole number of up to twenty-four bits stays when it is rounded.
pub proof fn lemma_round_whole(k: int)
    requires
        0 <= k <= 0x100_0000,
    ensures
        convert::of_int(k).round() == convert::of_int(k),
        convert::of_int(k).to_u32() == k,
{
    let one = pow2(149) as int;
    lemma_pow2_pos(149);
    lemma_of_u32(k);
    lemma_of_int_exact(k);
    let u = pattern::units(convert::of_int(k).magnitude());
    assert(u == k * one);
    assert(2 * (k * one) + one == k * (2 * one) + one) by (nonlinear_arith);
    vstd::arithmetic::div_mod::lemma_fundamental_div_mod_converse(2 * u + one, 2 * one, k, one);
    vstd::arithmetic::div_mod::lemma_fundamental_div_mod_converse(u, one, k, 0);
}

/// Rounded down or up to a whole number, a number that is not below zero is a
/// whole number of up to twenty-four bits or at least 2^24.
pub proof fn lemma_whole_or_large(x: Binary32) -> (k: (int, int))
    requires
        x.is_finite_spec(),
        !x.is_negative(),
    ensures
        ({
            let f = x.floor();
            let c = x.ceil();
            &&& k.0 >= 0
            &&& k.1 >= 0
            &&& !f.is_nan_spec() && !f.is_negative()
            &&& !c.is_nan_spec() && !c.is_negative()
            &&& k.0 <= 0x100_0000 ==> f.is_finite_spec() && f.value() == k.0 * pow2(149)
            &&& k.1 <= 0x100_0000 ==> c.is_finite_spec() && c.value() == k.1 * pow2(149)
            &&& k.0 >= 0x100_0000 ==> f.ge(convert::of_int(0x100_0000))
            &&& k.1 >= 0x100_0000 ==> c.ge(convert::of_int(0x100_0000))
            &&& k.0 == pattern::units(x.magnitude()) / (pow2(149) as int)
            &&& k.1 == (pattern::units(x.magnitude()) + pow2(149) - 1) / (pow2(149) as int)
        }),
{
    let one = pow2(149) as int;
    lemma_pow2_pos(149);
    arith::lemma_zero_magnitude(x.magnitude());
    let u = pattern::units(x.magnitude());
    let down = u / one;
    let up = (u + one - 1) / one;
    vstd::arithmetic::div_mod::lemma_div_pos_is_pos(u, one);
    vstd::arithmetic::div_mod::lemma_div_pos_is_pos(u + one - 1, one);
    lemma_whole_pattern(down);
    lemma_whole_pattern(up);
    (down, up)
}

/// The pattern nearest to a whole number.
proof fn lemma_whole_pattern(k: int)
    requires
        k >= 0,
    ensures
        ({
            let f = pattern::signed(false, pattern::nearest(k * pow2(149), 1));
            &&& !f.is_nan_spec() && !f.is_negative()
            &&& k <= 0x100_0000 ==> f.is_finite_spec() && f.value() == k * pow2(149)
            &&& k >= 0x100_0000 ==> f.ge(convert::of_int(0x100_0000))
        }),
{
    let one = pow2(149) as int;
    lemma_pow2_pos(149);
    assert(0 <= k * one) by (nonlinear_arith)
        requires
            k >= 0,
            one > 0,
    ;
    lemma_nearest_total(k * one, 1);
    if k <= 0x100_0000 {
        let r = pattern_for(k, 149);
        pattern::lemma_nearest_exact(r, 1);
    }
    if k >= 0x100_0000 {
        lemma_of_int_exact(0x100_0000);
        lemma_of_u32(0x100_0000);
        let top = convert::of_int(0x100_0000).magnitude();
        assert(0x100_0000 * one <= k * one) by (nonlinear_arith)
            requires
                k >= 0x100_0000,
                one > 0,
        ;
        lemma_nearest_keeps_order(k * one, 1, top);
    }
}

/// Cutting a number that is not above zero gives zero.
pub proof fn lemma_not_above_zero_to_u32(a: Binary32)
    requires
        a.le(Binary32::zero()),
    ensures
        a.to_u32() == 0,
{
    lemma_pow2_pos(149);
    if a.magnitude() == 0 {
        assert(pattern::units(0) == 0);
        vstd::arithmetic::div_mod::lemma_div_of0(pow2(149) as int);
    } else {
        arith::lemma_zero_magnitude(a.magnitude());
        vstd::arithmetic::div_mod::lemma_div_pos_is_pos(
            pattern::units(a.magnitude()),
            pow2(149) as int,
        );
    }
}

/// Cutting a whole number that is not negative.
pub proof fn lemma_to_u32_exact(a: Binary32, k: int)
    requires
        a.is_finite_spec(),
        0 <= k <= u32::MAX,
        a.value() == k * pow2(149),
    ensures
        a.to_u32() == k,
{
    let one = pow2(149) as int;
    lemma_pow2_pos(149);
    arith::lemma_zero_magnitude(a.magnitude());
    assert(0 <= k * one) by (nonlinear_arith)
        requires
            k >= 0,
            one > 0,
    ;
    if a.is_negative() {
        assert(k == 0) by (nonlinear_arith)
            requires
                k * one <= 0,
                k >= 0,
                one > 0,
        ;
        vstd::arithmetic::div_mod::lemma_div_of0(one);
    } else {
        vstd::arithmetic::div_mod::lemma_fundamental_div_mod_converse(k * one, one, k, 0);
    }
}

/// A negative number rounded down is not above zero.
pub proof fn lemma_negative_floor(x: Binary32)
    requires
        x.is_finite_spec(),
        x.is_negative(),
    ensures
        x.floor().le(Binary32::zero()),
        x.magnitude() > 0 ==> x.floor().lt(Binary32::zero()),
{
    let one = pow2(149) as int;
    lemma_pow2_pos(149);
    arith::lemma_zero_magnitude(x.magnitude());
    let u = pattern::units(x.magnitude());
    let up = (u + one - 1) / one;
    vstd::arithmetic::div_mod::lemma_div_pos_is_pos(u + one - 1, one);
    assert(0 <= up * one) by (nonlinear_arith)
        requires
            up >= 0,
            one > 0,
    ;
    lemma_nearest_total(up * one, 1);
    if x.magnitude() > 0 {
        vstd::arithmetic::div_mod::lemma_div_is_ordered(one, u + one - 1, one);
        vstd::arithmetic::div_mod::lemma_div_by_self(one);
        lemma_one_and_half();
        assert(one <= up * one) by (nonlinear_arith)
            requires
                up >= 1,
                one > 0,
        ;
        lemma_nearest_keeps_order(up * one, 1, 0x3f80_0000);
    }
}

/// A negative number rounded up is not above zero.
pub proof fn lemma_negative_ceil(x: Binary32)
    requires
        x.is_finite_spec(),
        x.is_negative(),
    ensures
        x.ceil().le(Binary32::zero()),
{
    let one = pow2(149) as int;
    lemma_pow2_pos(149);
    arith::lemma_zero_magnitude(x.magnitude());
    let u = pattern::units(x.magnitude());
    vstd::arithmetic::div_mod::lemma_div_pos_is_pos(u, one);
    assert(0 <= (u / one) * one) by (nonlinear_arith)
        requires
            u / one >= 0,
            one > 0,
    ;
    lemma_nearest_total((u / one) * one, 1);
}

/// Rounding an amount of at least two units adds at most a third.
pub proof fn lemma_adds_a_third(n: int)
    requires
        n >= 2,
        pattern::nearest(n, 1) < INFINITE,
    ensures
        3 * pattern::units(pattern::nearest(n, 1)) <= 4 * n,
{
    let q = pattern::nearest(n, 1);
    lemma_nearest_total(n, 1);
    assert(pattern::units(2) == 2);
    lemma_nearest_keeps_order(n, 1, 2);
    let r = q - 1;
    pattern::lemma_units_step(r);
    let e = r / 0x80_0000;
    let f = r % 0x80_0000;
    if e >= 2 {
        let g = pow2((e - 1) as nat) as int;
        lemma_pow2_pos((e - 1) as nat);
        assert(g <= (0x80_0000 + f) * g) by (nonlinear_arith)
            requires
                g > 0,
                f >= 0,
        ;
    } else if e == 1 {
        lemma2_to64();
        assert((0x80_0000 + f) * 1 >= 1);
    }
    assert(pattern::ulp(r) <= pattern::units(r));
}

/// Three times a share of at most an eighth of a whole number, rounded, is no
/// more than the number.
pub proof fn lemma_share_is_a_third(k: int, share: Binary32)
    requires
        0 <= k <= i32::MAX,
        share.is_finite_spec(),
        !share.is_negative(),
        pattern::units(share.magnitude()) <= pow2(146),
    ensures
        3 * share.times(convert::of_int(k)).round().to_i32() <= k,
{
    lemma_share(k, share);
    reveal(Binary32::times_spec);
    let one = pow2(149) as int;
    let a = convert::of_int(k);
    let m = a.magnitude();
    let c = share.magnitude();
    let ua = pattern::units(m);
    let uc = pattern::units(c);
    lemma2_to64();
    lemma_pow2_pos(149);
    lemma_of_u32(k);
    arith::lemma_zero_magnitude(c);
    arith::lemma_zero_magnitude(m);
    if k == 0 {
        assert(0 * one == 0);
        lemma_of_int_exact(0);
        assert(uc * 0 == 0);
        lemma_zero_times(a, share);
        assert(0 * uc == 0);
        pattern::lemma_nearest_exact(0, one);
        assert(share.times(a).magnitude() == 0);
        assert(pattern::units(0) == 0);
        vstd::arithmetic::div_mod::lemma_fundamental_div_mod_converse(one, 2 * one, 0, one);
        pattern::lemma_nearest_exact(0, 1);
        vstd::arithmetic::div_mod::lemma_div_of0(one);
    } else {
        // An eighth of the number has a pattern.
        let eighth = m - 0x180_0000;
        let e = m / 0x80_0000;
        let f = m % 0x80_0000;
        assert(eighth / 0x80_0000 == e - 3 && eighth % 0x80_0000 == f);
        lemma_pow2_adds(3, (e - 4) as nat);
        let g = pow2((e - 4) as nat) as int;
        assert((0x80_0000 + f) * (8 * g) == 8 * ((0x80_0000 + f) * g)) by (nonlinear_arith);
        assert(ua == 8 * pattern::units(eighth));
        lemma_pow2_adds(3, 146);
        let p146 = pow2(146) as int;
        let ue = pattern::units(eighth);
        assert(0 <= uc * ua && uc * ua <= ue * one) by (nonlinear_arith)
            requires
                0 <= uc <= p146,
                ua == 8 * ue,
                one == 8 * p146,
                0 <= ua,
        ;
        lemma_nearest_keeps_order(uc * ua, one, eighth);
        lemma_nearest_total(uc * ua, one);
        let y = share.times(a).magnitude();
        assert(y == pattern::nearest(uc * ua, one));
        if y < eighth {
            pattern::lemma_units_increase(y, eighth);
        }
        arith::lemma_zero_magnitude(y);
        let u = pattern::units(y);
        assert(8 * u <= ua);
        let whole = (2 * u + one) / (2 * one);
        vstd::arithmetic::div_mod::lemma_div_pos_is_pos(2 * u + one, 2 * one);
        vstd::arithmetic::div_mod::lemma_fundamental_div_mod(2 * u + one, 2 * one);
        vstd::arithmetic::div_mod::lemma_mod_bound(2 * u + one, 2 * one);
        let z = pattern::nearest(whole * one, 1);
        assert((2 * one) * whole == 2 * (whole * one) && 0 <= whole * one) by (nonlinear_arith)
            requires
                whole >= 0,
                one > 0,
        ;
        assert(2 * (whole * one) <= 2 * u + one);
        lemma_nearest_total(whole * one, 1);
        arith::lemma_zero_magnitude(z);
        let uz = pattern::units(z);
        assert(3 * uz <= k * one) by {
            if k <= 0x100_0000 {
                lemma_of_int_exact(k);
                assert(ua == k * one);
                assert(8 * (whole * one) <= k * one + 4 * one);
                assert(whole <= k) by (nonlinear_arith)
                    requires
                        8 * (whole * one) <= k * one + 4 * one,
                        k >= 1,
                        one > 0,
                ;
                assert(3 * whole <= k) by (nonlinear_arith)
                    requires
                        8 * (whole * one) <= k * one + 4 * one,
                        k >= 1,
                        one > 0,
                        whole >= 0,
                ;
                let r = pattern_for(whole, 149);
                pattern::lemma_nearest_exact(r, 1);
                assert(uz == whole * one);
                assert(3 * (whole * one) <= k * one) by (nonlinear_arith)
                    requires
                        3 * whole <= k,
                        one > 0,
                ;
            } else {
                assert(one >= 2) by {
                    lemma_pow2_unfold(149);
                    lemma_pow2_pos(148);
                }
                assert(k * one >= 0x100_0000 * one) by (nonlinear_arith)
                    requires
                        k >= 0x100_0000,
                        one > 0,
                ;
                lemma_nearest_total(k * one, 1);
                assert(m == pattern::nearest(k * one, 1));
                lemma_adds_a_third(k * one);
                assert(3 * ua <= 4 * (k * one));
                assert(24 * (whole * one) <= 4 * (k * one) + 12 * one);
                let top = pattern_for(1, 181);
                lemma_pow2_adds(32, 149);
                if whole >= 1 {
                    assert(whole * one >= one) by (nonlinear_arith)
                        requires
                            whole >= 1,
                            one > 0,
                    ;
                    assert(whole * one <= pow2(181)) by (nonlinear_arith)
                        requires
                            24 * (whole * one) <= 4 * (k * one) + 12 * one,
                            k <= 0x7fff_ffff,
                            pow2(181) == 0x1_0000_0000 * one,
                            one > 0,
                    ;
                    lemma_nearest_keeps_order(whole * one, 1, top);
                    lemma_adds_a_third(whole * one);
                } else {
                    assert(whole * one == 0) by (nonlinear_arith)
                        requires
                            whole == 0,
                    ;
                    assert(pattern::units(0) == 0);
                    pattern::lemma_nearest_exact(0, 1);
                }
            }
        }
        let t = uz / one;
        vstd::arithmetic::div_mod::lemma_fundamental_div_mod(uz, one);
        vstd::arithmetic::div_mod::lemma_mod_bound(uz, one);
        vstd::arithmetic::div_mod::lemma_div_pos_is_pos(uz, one);
        assert(3 * t <= k) by (nonlinear_arith)
            requires
                one * t <= uz,
                3 * uz <= k * one,
                one > 0,
        ;
    }
}

/// From a normal magnitude on, the next one is close by.
pub proof fn lemma_step_is_small(q: int)
    requires
        q > 0x80_0000,
    ensures
        0x80_0000 * (pattern::units(q) - pattern::units(q - 1)) <= pattern::units(q - 1),
        0 <= pattern::units(q - 1) < pattern::units(q),
{
    let r = q - 1;
    let e = r / 0x80_0000;
    let f = r % 0x80_0000;
    pattern::lemma_units_step(r);
    assert(e >= 1);
    if e == 1 {
        lemma2_to64();
        assert((0x80_0000 + f) * 1 >= 0x80_0000);
    } else {
        let g = pow2((e - 1) as nat) as int;
        lemma_pow2_pos((e - 1) as nat);
        assert(0x80_0000 * g <= (0x80_0000 + f) * g) by (nonlinear_arith)
            requires
                g > 0,
                f >= 0,
        ;
    }
}

/// Rounding moves an amount by no more than its part of 2^-24, or by a unit.
pub proof fn lemma_nearest_close(n: int, d: int)
    requires
        d > 0,
        n >= 0,
        pattern::nearest(n, d) < INFINITE,
    ensures
        ({
            let a = pattern::units(pattern::nearest(n, d)) * d;
            &&& 0x100_0000 * (a - n) <= n + 0x100_0000 * d
            &&& 0x100_0000 * (n - a) <= n + 0x100_0000 * d
            &&& pattern::nearest(n, d) > 0x80_0000 ==> 0x100_0000 * (a - n) <= n
            &&& pattern::nearest(n, d) > 0x80_0000 ==> 0x100_0000 * (n - a) <= n
        }),
{
    let q = pattern::nearest(n, d);
    lemma_nearest_total(n, d);
    let u = pattern::units(q);
    let w = pattern::units(q + 1);
    let v = pattern::units(q - 1);
    let a = u * d;
    let b = v * d;
    let c = w * d;
    pattern::lemma_units_step(q);
    assert((v + u) * d == b + a && (u + w) * d == a + c) by (nonlinear_arith)
        requires
            a == u * d,
            b == v * d,
            c == w * d,
    ;
    if q > 0x80_0000 {
        lemma_step_is_small(q);
        lemma_step_is_small(q + 1);
        assert(0x80_0000 * (a - b) <= b && 0x80_0000 * (c - a) <= a && b <= a && 0 <= b && 0 <= d)
            by (nonlinear_arith)
            requires
                a == u * d,
                b == v * d,
                c == w * d,
                0x80_0000 * (u - v) <= v,
                0x80_0000 * (w - u) <= u,
                0 <= v < u,
                d > 0,
        ;
    } else {
        assert(q / 0x80_0000 <= 1);
        assert(c == a + d) by (nonlinear_arith)
            requires
                a == u * d,
                c == w * d,
                w == u + 1,
        ;
        if q > 0 {
            pattern::lemma_units_step(q - 1);
            assert(a == b + d) by (nonlinear_arith)
                requires
                    a == u * d,
                    b == v * d,
                    u == v + 1,
            ;
        } else {
            assert(pattern::units(0) == 0);
            assert(a == 0) by (nonlinear_arith)
                requires
                    a == u * d,
                    u == 0,
            ;
        }
    }
}

/// Rounding a sum moves it by no more than its part of 2^-24, or by a unit.
pub proof fn lemma_plus_close(a: Binary32, b: Binary32)
    requires
        a.is_finite_spec(),
        b.is_finite_spec(),
        a.plus(b).is_finite_spec(),
    ensures
        ({
            let sum = a.value() + b.value();
            let size = if sum < 0 {
                -sum
            } else {
                sum
            };
            let got = a.plus(b).value();
            &&& 0x100_0000 * (got - sum) <= size + 0x100_0000
            &&& 0x100_0000 * (sum - got) <= size + 0x100_0000
        }),
{
    reveal(Binary32::plus_spec);
    let sum = a.value() + b.value();
    assert(pattern::units(0) == 0);
    if sum > 0 {
        lemma_nearest_total(sum, 1);
        lemma_nearest_close(sum, 1);
    } else if sum < 0 {
        lemma_nearest_total(-sum, 1);
        lemma_nearest_close(-sum, 1);
    }
}

/// Half of a number that is not among the smallest is exact.
pub proof fn lemma_halved(a: Binary32)
    requires
        a.is_finite_spec(),
        !a.is_negative(),
        a.magnitude() >= 0x100_0000,
    ensures
        a.times(Binary32::half()).is_finite_spec(),
        !a.times(Binary32::half()).is_negative(),
        2 * a.times(Binary32::half()).value() == a.value(),
{
    reveal(Binary32::times_spec);
    let one = pow2(149) as int;
    let half = pow2(148) as int;
    lemma_one_and_half();
    lemma_pow2_pos(149);
    lemma_pow2_unfold(149);
    let m = a.magnitude();
    let r = m - 0x80_0000;
    let e = m / 0x80_0000;
    let f = m % 0x80_0000;
    assert(r / 0x80_0000 == e - 1 && r % 0x80_0000 == f);
    lemma_pow2_unfold((e - 1) as nat);
    let g = pow2((e - 2) as nat) as int;
    assert((0x80_0000 + f) * (2 * g) == 2 * ((0x80_0000 + f) * g)) by (nonlinear_arith);
    let u = pattern::units(m);
    let v = pattern::units(r);
    assert(u == 2 * v);
    assert(u * half == v * one) by (nonlinear_arith)
        requires
            u == 2 * v,
            one == 2 * half,
    ;
    pattern::lemma_nearest_exact(r, one);
}

} // verus!
