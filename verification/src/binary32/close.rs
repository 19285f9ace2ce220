//! How far rounded results may be from exact ones.
//!
//! Values count in units of `2^-149`, so that `2^149` stands for one. A result
//! is off by no more than `2^-24` of the exact one, or by one unit.

use vstd::arithmetic::power2::*;
use vstd::prelude::*;

use crate::binary32::arith;
use crate::binary32::convert;
use crate::binary32::exact;
use crate::binary32::order;
use crate::binary32::pattern;
use crate::binary32::pattern::{Binary32, INFINITE};

verus! {

/// One part in `2^24`.
pub const FINE: u32 = 0x100_0000;

/// The value of one.
pub open spec fn one() -> int {
    pow2(149) as int
}

/// The largest value that the laws speak of, `2^101`.
pub open spec fn ample() -> int {
    pow2(250) as int
}

/// A number without its sign.
pub open spec fn size(v: int) -> int {
    if v < 0 {
        -v
    } else {
        v
    }
}

/// A finite number of at most `2^101`.
pub open spec fn is_ample(a: Binary32) -> bool {
    a.is_finite_spec() && size(a.value()) <= ample()
}

/// `got` differs from `exact` by at most `slack` parts in `2^24`.
pub open spec fn off(got: int, exact: int, slack: int) -> bool {
    FINE * size(got - exact) <= slack
}

pub proof fn lemma_one()
    ensures
        one() >= 0x1_0000_0000_0000_0000,
        ample() >= 0x1_0000_0000_0000_0000 * one(),
        Binary32::one().value() == one(),
        Binary32::one().is_finite_spec(),
        Binary32::zero().value() == 0,
{
    lemma2_to64();
    lemma_pow2_adds(64, 85);
    lemma_pow2_adds(64, 186);
    lemma_pow2_adds(37, 149);
    lemma_pow2_pos(85);
    lemma_pow2_pos(149);
    lemma_pow2_pos(37);
    exact::lemma_one_and_half();
    assert(pattern::units(0) == 0);
    let u = one();
    assert(u >= 0x1_0000_0000_0000_0000) by (nonlinear_arith)
        requires
            u == 0x1_0000_0000_0000_0000 * pow2(85),
            pow2(85) >= 1,
    ;
    assert(0x1_0000_0000_0000_0000 * pow2(186) >= 0x1_0000_0000_0000_0000 * u) by (nonlinear_arith)
        requires
            pow2(186) == pow2(37) * u,
            pow2(37) >= 1,
            u > 0,
    ;
}

/// The size of a product is that of the sizes.
pub proof fn lemma_size_of_product(a: int, b: int)
    ensures
        size(a * b) == size(a) * size(b),
{
    assert((-a) * b == -(a * b) && a * (-b) == -(a * b) && (-a) * (-b) == a * b)
        by (nonlinear_arith);
    assert(a >= 0 && b >= 0 ==> a * b >= 0) by (nonlinear_arith);
    assert(a >= 0 && b < 0 ==> a * b <= 0) by (nonlinear_arith);
    assert(a < 0 && b >= 0 ==> a * b <= 0) by (nonlinear_arith);
    assert(a < 0 && b < 0 ==> a * b >= 0) by (nonlinear_arith);
}

/// An amount of at most `2^102` has a finite nearest pattern.
proof fn lemma_nearest_finite(n: int, d: int)
    requires
        d > 0,
        0 <= n <= (2 * ample()) * d,
    ensures
        0 <= pattern::nearest(n, d) < INFINITE,
        pattern::near(n, d, pattern::nearest(n, d)),
{
    let top = exact::pattern_for(1, 251);
    lemma_pow2_unfold(251);
    exact::lemma_nearest_total(n, d);
    exact::lemma_nearest_keeps_order(n, d, top);
}

/// The value of a number of given sign and pattern.
proof fn lemma_signed(negative: bool, r: int)
    requires
        0 <= r < INFINITE,
    ensures
        ({
            let f = pattern::signed(negative, r);
            &&& f.is_finite_spec()
            &&& f.magnitude() == r
            &&& f.value() == if negative {
                -pattern::units(r)
            } else {
                pattern::units(r)
            }
        }),
{
}

/// A sum is off by no more than a part of it.
pub proof fn lemma_sum(a: Binary32, b: Binary32)
    requires
        a.is_finite_spec(),
        b.is_finite_spec(),
        size(a.value() + b.value()) <= 2 * ample(),
    ensures
        a.plus(b).is_finite_spec(),
        off(a.plus(b).value(), a.value() + b.value(), size(a.value() + b.value()) + FINE),
{
    reveal(Binary32::plus_spec);
    let sum = a.value() + b.value();
    assert(pattern::units(0) == 0);
    if sum > 0 {
        lemma_nearest_finite(sum, 1);
        exact::lemma_nearest_close(sum, 1);
    } else if sum < 0 {
        lemma_nearest_finite(-sum, 1);
        exact::lemma_nearest_close(-sum, 1);
    }
}

/// A difference is off by no more than a part of it.
pub proof fn lemma_difference(a: Binary32, b: Binary32)
    requires
        a.is_finite_spec(),
        b.is_finite_spec(),
        size(a.value() - b.value()) <= 2 * ample(),
    ensures
        a.minus(b).is_finite_spec(),
        off(a.minus(b).value(), a.value() - b.value(), size(a.value() - b.value()) + FINE),
{
    exact::lemma_negated(b);
    lemma_sum(a, b.negated());
}

/// A product is off by no more than a part of it.
pub proof fn lemma_product(a: Binary32, b: Binary32)
    requires
        a.is_finite_spec(),
        b.is_finite_spec(),
        size(a.value() * b.value()) <= (2 * ample()) * one(),
    ensures
        a.times(b).is_finite_spec(),
        off(
            a.times(b).value() * one(),
            a.value() * b.value(),
            size(a.value() * b.value()) + FINE * one(),
        ),
{
    reveal(Binary32::times_spec);
    lemma_pow2_pos(149);
    let ua = pattern::units(a.magnitude());
    let ub = pattern::units(b.magnitude());
    arith::lemma_zero_magnitude(a.magnitude());
    arith::lemma_zero_magnitude(b.magnitude());
    lemma_size_of_product(a.value(), b.value());
    assert(ua >= 0 && ub >= 0);
    assert(size(a.value()) == ua && size(b.value()) == ub);
    let n = ua * ub;
    assert(n >= 0) by (nonlinear_arith)
        requires
            n == ua * ub,
            ua >= 0,
            ub >= 0,
    ;
    lemma_nearest_finite(n, one());
    exact::lemma_nearest_close(n, one());
    let q = pattern::nearest(n, one());
    let negative = a.is_negative() != b.is_negative();
    lemma_signed(negative, q);
    let got = a.times(b).value();
    assert((-ua) * ub == -n && ua * (-ub) == -n && (-ua) * (-ub) == n) by (nonlinear_arith)
        requires
            n == ua * ub,
    ;
    let v = pattern::units(q);
    assert((-v) * one() == -(v * one())) by (nonlinear_arith);
}

/// A quotient is off by no more than a part of it.
pub proof fn lemma_quotient(a: Binary32, b: Binary32)
    requires
        a.is_finite_spec(),
        b.is_finite_spec(),
        b.value() != 0,
        size(a.value()) * one() <= (2 * ample()) * size(b.value()),
    ensures
        a.over(b).is_finite_spec(),
        off(
            a.over(b).value() * b.value(),
            a.value() * one(),
            size(a.value()) * one() + FINE * size(b.value()),
        ),
{
    reveal(Binary32::over_spec);
    lemma_pow2_pos(149);
    let ua = pattern::units(a.magnitude());
    let ub = pattern::units(b.magnitude());
    arith::lemma_zero_magnitude(a.magnitude());
    arith::lemma_zero_magnitude(b.magnitude());
    assert(ua >= 0 && ub > 0);
    assert(size(a.value()) == ua && size(b.value()) == ub);
    let n = ua * one();
    assert(n >= 0) by (nonlinear_arith)
        requires
            n == ua * one(),
            ua >= 0,
            one() > 0,
    ;
    lemma_nearest_finite(n, ub);
    exact::lemma_nearest_close(n, ub);
    let q = pattern::nearest(n, ub);
    let negative = a.is_negative() != b.is_negative();
    lemma_signed(negative, q);
    let v = pattern::units(q);
    assert((-v) * ub == -(v * ub) && v * (-ub) == -(v * ub) && (-v) * (-ub) == v * ub)
        by (nonlinear_arith);
    assert((-ua) * one() == -n) by (nonlinear_arith)
        requires
            n == ua * one(),
    ;
}

/// Every amount has a nearest root.
proof fn lemma_root_total(n: int, r: int)
    requires
        n >= 0,
        0 <= r < INFINITE,
        n <= pattern::units(r) * pattern::units(r),
    ensures
        pattern::near_root(n, pattern::nearest_root(n)),
        0 <= pattern::nearest_root(n) <= r,
    decreases r,
{
    pattern::lemma_units_step(r);
    let u = pattern::units(r);
    let up = pattern::units(r + 1);
    assert(4 * n < (u + up) * (u + up)) by (nonlinear_arith)
        requires
            n <= u * u,
            0 <= u < up,
    ;
    if r == 0 {
        assert(pattern::near_root(n, 0));
        pattern::lemma_near_root_unique(n, 0, pattern::nearest_root(n));
    } else {
        pattern::lemma_units_step(r - 1);
        let down = pattern::units(r - 1);
        if n <= down * down {
            lemma_root_total(n, r - 1);
        } else {
            let mid = down + u;
            if mid * mid < 4 * n || (mid * mid == 4 * n && r % 2 == 0) {
                assert(pattern::near_root(n, r));
                pattern::lemma_near_root_unique(n, r, pattern::nearest_root(n));
            } else {
                if r > 1 {
                    pattern::lemma_units_step(r - 2);
                    let less = pattern::units(r - 2);
                    assert((less + down) * (less + down) < 4 * n) by (nonlinear_arith)
                        requires
                            down * down < n,
                            0 <= less < down,
                    ;
                }
                assert(pattern::near_root(n, r - 1));
                pattern::lemma_near_root_unique(n, r - 1, pattern::nearest_root(n));
            }
        }
    }
}

/// A root squared is off by no more than a few parts.
pub proof fn lemma_root(a: Binary32)
    requires
        a.is_finite_spec(),
        0 <= a.value() <= 2 * ample(),
    ensures
        a.sqrt().is_finite_spec(),
        a.sqrt().value() >= 0,
        off(
            a.sqrt().value() * a.sqrt().value(),
            a.value() * one(),
            4 * (a.value() * one()) + FINE * one(),
        ),
{
    reveal(Binary32::sqrt_spec);
    lemma_one();
    arith::lemma_zero_magnitude(a.magnitude());
    assert(pattern::units(0) == 0);
    if a.magnitude() == 0 {
        assert(a.value() == 0);
        assert(a.sqrt() == a);
        assert(0 * one() == 0 && 0 * 0 == 0) by (nonlinear_arith);
    } else {
        assert(!a.is_negative());
        let n = a.value() * one();
        let top = exact::pattern_for(1, 251);
        lemma_pow2_unfold(251);
        let t = pattern::units(top);
        lemma_pow2_pos(250);
        assert(n <= t * t) by (nonlinear_arith)
            requires
                n == a.value() * one(),
                0 <= a.value() <= t,
                0 < one() <= t,
        ;
        assert(n >= one()) by (nonlinear_arith)
            requires
                n == a.value() * one(),
                a.value() >= 1,
                one() > 0,
        ;
        lemma_root_total(n, top);
        let q = pattern::nearest_root(n);
        lemma_signed(false, q);
        lemma_root_is_close(n, q);
    }
}

/// A nearest root squared.
proof fn lemma_root_is_close(n: int, q: int)
    requires
        pattern::near_root(n, q),
        q < INFINITE,
        n >= one(),
    ensures
        off(
            pattern::units(q) * pattern::units(q),
            n,
            4 * n + FINE * one(),
        ),
        pattern::units(q) >= 0,
{
    let u = pattern::units(q);
    let w = pattern::units(q + 1);
    let v = pattern::units(q - 1);
    pattern::lemma_units_step(q);
    lemma_one();
    lemma2_to64();
    // A root of at least 2^74 units is normal.
    let low = 0x200_0000int;
    assert(pattern::units(low) == 0x80_0000 * pow2(3));
    if q < low {
        pattern::lemma_units_increase(q, low);
        pattern::lemma_units_increase(q, q + 1);
        if q + 1 < low {
            pattern::lemma_units_increase(q + 1, low);
        }
        assert((u + w) * (u + w) <= 4 * (0x400_0000 * 0x400_0000)) by (nonlinear_arith)
            requires
                0 <= u <= 0x400_0000,
                0 <= w <= 0x400_0000,
        ;
        assert(false);
    }
    exact::lemma_step_is_small(q);
    exact::lemma_step_is_small(q + 1);
    let e = 0x80_0000int;
    assert(FINE * (u * u - n) <= 4 * n) by (nonlinear_arith)
        requires
            (v + u) * (v + u) <= 4 * n,
            e * (u - v) <= v,
            0 <= v < u,
            e == 0x80_0000,
    ;
    assert(FINE * (n - u * u) <= 4 * n) by (nonlinear_arith)
        requires
            4 * n <= (u + w) * (u + w),
            e * (w - u) <= u,
            0 <= u < w,
            e == 0x80_0000,
            u >= e,
    ;
}

/// What is off stays off in proportion.
pub proof fn lemma_scaled(got: int, exact: int, slack: int, k: int)
    requires
        off(got, exact, slack),
    ensures
        off(got * k, exact * k, slack * size(k)),
{
    lemma_size_of_product(got - exact, k);
    assert((got - exact) * k == got * k - exact * k) by (nonlinear_arith);
    let d = size(got - exact);
    let m = size(k);
    assert(FINE * (d * m) <= slack * m) by (nonlinear_arith)
        requires
            FINE * d <= slack,
            m >= 0,
    ;
}

/// A square is not below zero.
pub proof fn lemma_square(a: Binary32)
    requires
        a.is_finite_spec(),
        size(a.value() * a.value()) <= (2 * ample()) * one(),
    ensures
        a.times(a).value() >= 0,
{
    lemma_product(a, a);
    reveal(Binary32::times_spec);
    lemma_pow2_pos(149);
    arith::lemma_zero_magnitude(a.times(a).magnitude());
    let u = pattern::units(a.magnitude());
    assert(u * u >= 0) by (nonlinear_arith);
    exact::lemma_nearest_total(u * u, one());
}

/// A product plus a number: `a * b + c`.
pub proof fn lemma_product_plus(a: Binary32, b: Binary32, c: Binary32)
    requires
        a.is_finite_spec(),
        b.is_finite_spec(),
        c.is_finite_spec(),
        4 * size(a.value() * b.value()) <= ample() * one(),
        size(c.value()) <= ample(),
    ensures
        a.times(b).plus(c).is_finite_spec(),
        off(
            a.times(b).plus(c).value() * one(),
            a.value() * b.value() + c.value() * one(),
            3 * size(a.value() * b.value()) + size(c.value()) * one() + 3 * (FINE * one()),
        ),
{
    let u = one();
    let e = FINE as int;
    let ab = a.value() * b.value();
    lemma_one();
    assert(ample() * u >= 0) by (nonlinear_arith)
        requires
            ample() >= 0,
            u >= 0,
    ;
    assert((2 * ample()) * u == 2 * (ample() * u)) by (nonlinear_arith);
    lemma_product(a, b);
    let p = a.times(b).value();
    let pu = p * u;
    lemma_size_of_product(p, u);
    assert(size(p) <= ample()) by (nonlinear_arith)
        requires
            e * size(pu - ab) <= size(ab) + e * u,
            size(pu) == size(p) * u,
            4 * size(ab) <= ample() * u,
            size(pu) <= size(ab) + size(pu - ab),
            ample() >= 4,
            u > 0,
            e == 0x100_0000,
            size(ab) >= 0,
    ;
    lemma_sum(a.times(b), c);
    let s = a.times(b).plus(c).value();
    let sum = p + c.value();
    lemma_scaled(s, sum, size(sum) + e, u);
    assert((size(sum) + e) * u == size(sum) * u + e * u) by (nonlinear_arith);
    lemma_size_of_product(sum, u);
    assert(sum * u == pu + c.value() * u) by (nonlinear_arith)
        requires
            sum == p + c.value(),
            pu == p * u,
    ;
    lemma_size_of_product(c.value(), u);
    assert(size(u) == u);
}

/// A difference times a number: `(a - b) * c`.
pub proof fn lemma_difference_times(a: Binary32, b: Binary32, c: Binary32)
    requires
        a.is_finite_spec(),
        b.is_finite_spec(),
        c.is_finite_spec(),
        size(a.value() - b.value()) <= ample(),
        size(c.value()) <= ample(),
        4 * (size(a.value() - b.value()) * size(c.value())) <= ample() * one(),
    ensures
        a.minus(b).is_finite_spec(),
        a.minus(b).times(c).is_finite_spec(),
        size(a.minus(b).times(c).value()) <= 2 * ample(),
        off(
            a.minus(b).times(c).value() * one(),
            (a.value() - b.value()) * c.value(),
            3 * (size(a.value() - b.value()) * size(c.value())) + 2 * (FINE * size(c.value()))
                + FINE * one(),
        ),
{
    let u = one();
    let e = FINE as int;
    let t = a.value() - b.value();
    let z = c.value();
    lemma_one();
    lemma_difference(a, b);
    let d = a.minus(b).value();
    lemma_scaled(d, t, size(t) + e, z);
    assert((size(t) + e) * size(z) == size(t) * size(z) + e * size(z)) by (nonlinear_arith);
    lemma_size_of_product(t, z);
    lemma_size_of_product(d, z);
    let tz = size(t) * size(z);
    assert(size(d * z) <= 2 * tz + size(z));
    assert(ample() <= ample() * u) by (nonlinear_arith)
        requires
            u >= 1,
            ample() >= 0,
    ;
    assert((2 * ample()) * u == 2 * (ample() * u)) by (nonlinear_arith);
    lemma_product(a.minus(b), c);
    let p = a.minus(b).times(c).value();
    lemma_size_of_product(p, u);
    assert(size(p) <= 2 * ample()) by (nonlinear_arith)
        requires
            size(p) * u <= 2 * (2 * tz + size(z)) + u,
            4 * tz <= ample() * u,
            size(z) <= ample(),
            ample() >= 4,
            u >= 16,
            size(z) >= 0,
    ;
}

/// How long a way is: its length squared is about the sum of the squares.
pub proof fn lemma_length(x: Binary32, y: Binary32)
    requires
        x.is_finite_spec(),
        y.is_finite_spec(),
        8 * (x.value() * x.value() + y.value() * y.value()) <= ample() * one(),
    ensures
        ({
            let len = x.times(x).plus(y.times(y)).sqrt();
            let q = x.value() * x.value() + y.value() * y.value();
            &&& len.is_finite_spec()
            &&& len.value() >= 0
            &&& off(len.value() * len.value(), q, 19 * q + 5 * (FINE * one()))
        }),
{
    let u = one();
    let e = FINE as int;
    let xx = x.value() * x.value();
    let yy = y.value() * y.value();
    lemma_one();
    assert(xx >= 0 && yy >= 0) by (nonlinear_arith)
        requires
            xx == x.value() * x.value(),
            yy == y.value() * y.value(),
    ;
    assert((2 * ample()) * u == 2 * (ample() * u)) by (nonlinear_arith);
    lemma_product(x, x);
    lemma_product(y, y);
    lemma_square(x);
    lemma_square(y);
    let p = x.times(x);
    let r = y.times(y);
    let pu = p.value() * u;
    let ru = r.value() * u;
    assert(p.value() <= ample() && r.value() <= ample()) by (nonlinear_arith)
        requires
            p.value() * u <= 2 * xx + u,
            r.value() * u <= 2 * yy + u,
            8 * (xx + yy) <= ample() * u,
            xx >= 0,
            yy >= 0,
            u > 0,
            ample() >= 4,
    ;
    lemma_sum(p, r);
    let s = p.plus(r);
    let both = p.value() + r.value();
    assert(s.value() >= 0) by {
        exact::lemma_plus_keeps_order(p, r, Binary32::zero());
        order::lemma_order_of_values(Binary32::zero(), s);
    }
    lemma_scaled(s.value(), both, both + e, u);
    assert((both + e) * u == both * u + e * u && both * u == pu + ru) by (nonlinear_arith)
        requires
            both == p.value() + r.value(),
            pu == p.value() * u,
            ru == r.value() * u,
    ;
    assert(s.value() <= 2 * ample()) by (nonlinear_arith)
        requires
            e * (s.value() - both) <= both + e,
            both * u <= 2 * (xx + yy) + 2 * u,
            8 * (xx + yy) <= ample() * u,
            u > 0,
            e == 0x100_0000,
            ample() >= 16,
    ;
    lemma_root(s);
}

/// A number plus a quotient of a difference: `f + (a - b) / z`, less `f`, times
/// `z` is about `a - b`.
pub proof fn lemma_plus_quotient(f: Binary32, a: Binary32, b: Binary32, z: Binary32)
    requires
        f.is_finite_spec(),
        a.is_finite_spec(),
        b.is_finite_spec(),
        z.is_finite_spec(),
        z.value() != 0,
        size(f.value()) <= ample(),
        size(a.value() - b.value()) <= ample(),
        8 * (size(a.value() - b.value()) * one()) <= ample() * size(z.value()),
    ensures
        ({
            let w = f.plus(a.minus(b).over(z));
            let d = a.value() - b.value();
            &&& a.minus(b).over(z).is_finite_spec()
            &&& size(a.minus(b).over(z).value()) <= ample()
            &&& w.is_finite_spec()
            &&& off(
                (w.value() - f.value()) * z.value(),
                d * one(),
                size(f.value()) * size(z.value()) + 7 * (size(d) * one()) + 3 * (FINE * size(
                    z.value(),
                )) + 2 * (FINE * one()),
            )
        }),
{
    let u = one();
    let e = FINE as int;
    let d = a.value() - b.value();
    let zz = z.value();
    let m = size(zz);
    lemma_one();
    lemma_difference(a, b);
    let dd = a.minus(b).value();
    assert(size(dd) <= 2 * size(d) + 1);
    assert(size(dd) * u <= (2 * ample()) * m) by (nonlinear_arith)
        requires
            size(dd) <= 2 * size(d) + 1,
            8 * (size(d) * u) <= ample() * m,
            u <= ample(),
            m >= 1,
            u >= 0,
    ;
    lemma_quotient(a.minus(b), z);
    let q = a.minus(b).over(z);
    lemma_scaled(dd, d, size(d) + e, u);
    assert((size(d) + e) * u == size(d) * u + e * u) by (nonlinear_arith);
    lemma_size_of_product(q.value(), zz);
    lemma_size_of_product(dd, u);
    let qz = q.value() * zz;
    assert(size(qz) <= 2 * (size(dd) * u) + m);
    assert(size(q.value()) <= ample()) by (nonlinear_arith)
        requires
            size(q.value()) * m <= 2 * (size(dd) * u) + m,
            size(dd) <= 2 * size(d) + 1,
            8 * (size(d) * u) <= ample() * m,
            4 * u + 4 <= ample(),
            m >= 1,
            u >= 0,
    ;
    lemma_sum(f, q);
    let w = f.plus(q).value();
    let sum = f.value() + q.value();
    lemma_scaled(w, sum, size(sum) + e, zz);
    assert((size(sum) + e) * m == size(sum) * m + e * m) by (nonlinear_arith);
    assert(size(sum) * m <= size(f.value()) * m + size(q.value()) * m) by (nonlinear_arith)
        requires
            size(sum) <= size(f.value()) + size(q.value()),
            m >= 0,
    ;
    assert(w * zz - sum * zz == (w - f.value()) * zz - qz) by (nonlinear_arith)
        requires
            sum == f.value() + q.value(),
            qz == q.value() * zz,
    ;
    assert(size(dd) * u <= 2 * (size(d) * u) + u) by (nonlinear_arith)
        requires
            size(dd) <= 2 * size(d) + 1,
            u >= 0,
    ;
}

/// A number less a quotient, `f - d / z`: what was taken off times `z` is about
/// `d`.
pub proof fn lemma_minus_quotient(f: Binary32, d: Binary32, z: Binary32)
    requires
        f.is_finite_spec(),
        d.is_finite_spec(),
        z.is_finite_spec(),
        z.value() != 0,
        size(f.value()) <= ample(),
        4 * (size(d.value()) * one()) <= ample() * size(z.value()),
    ensures
        f.minus(d.over(z)).is_finite_spec(),
        d.over(z).is_finite_spec(),
        size(d.over(z).value()) <= ample(),
        off(
            (f.value() - f.minus(d.over(z)).value()) * z.value(),
            d.value() * one(),
            size(f.value()) * size(z.value()) + 3 * (size(d.value()) * one()) + 3 * (FINE * size(
                z.value(),
            )),
        ),
{
    let u = one();
    let e = FINE as int;
    let dd = d.value();
    let zz = z.value();
    let m = size(zz);
    lemma_one();
    assert(size(dd) * u <= (2 * ample()) * m) by (nonlinear_arith)
        requires
            4 * (size(dd) * u) <= ample() * m,
            size(dd) >= 0,
            u >= 0,
    ;
    lemma_quotient(d, z);
    let q = d.over(z);
    lemma_size_of_product(q.value(), zz);
    lemma_size_of_product(dd, u);
    let qz = q.value() * zz;
    assert(size(qz) <= 2 * (size(dd) * u) + m);
    assert(size(q.value()) <= ample()) by (nonlinear_arith)
        requires
            size(q.value()) * m <= 2 * (size(dd) * u) + m,
            4 * (size(dd) * u) <= ample() * m,
            ample() >= 4,
            m >= 1,
    ;
    lemma_difference(f, q);
    let w = f.minus(q).value();
    let sum = f.value() - q.value();
    lemma_scaled(w, sum, size(sum) + e, zz);
    assert((size(sum) + e) * m == size(sum) * m + e * m) by (nonlinear_arith);
    assert(size(sum) * m <= size(f.value()) * m + size(q.value()) * m) by (nonlinear_arith)
        requires
            size(sum) <= size(f.value()) + size(q.value()),
            m >= 0,
    ;
    assert(sum * zz - w * zz == (f.value() - w) * zz - qz) by (nonlinear_arith)
        requires
            sum == f.value() - q.value(),
            qz == q.value() * zz,
    ;
}

/// A common factor is left out.
pub proof fn lemma_cancelled(got: int, exact: int, slack: int, u: int)
    requires
        off(got * u, exact * u, slack * u),
        u > 0,
    ensures
        off(got, exact, slack),
{
    lemma_size_of_product(got - exact, u);
    assert((got - exact) * u == got * u - exact * u) by (nonlinear_arith);
    let d = size(got - exact);
    assert(FINE * d <= slack) by (nonlinear_arith)
        requires
            FINE * (d * u) <= slack * u,
            u > 0,
            FINE == 0x100_0000,
    ;
}

/// Two errors add up.
pub proof fn lemma_chained(got: int, middle: int, exact: int, a: int, b: int)
    requires
        off(got, middle, a),
        off(middle, exact, b),
    ensures
        off(got, exact, a + b),
{
}

/// The sum of numbers that come to at most `m`.
pub proof fn lemma_sum_within(a: Binary32, b: Binary32, m: int)
    requires
        a.is_finite_spec(),
        b.is_finite_spec(),
        0 <= m <= 0x80_0000,
        size(a.value()) + size(b.value()) <= m * one(),
    ensures
        a.plus(b).is_finite_spec(),
        off(a.plus(b).value(), a.value() + b.value(), (m + 1) * one()),
        size(a.plus(b).value()) <= (m + 1) * one(),
{
    let u = one();
    lemma_one();
    assert((m + 1) * u == m * u + u && m * u <= 0x80_0000 * u) by (nonlinear_arith)
        requires
            m <= 0x80_0000,
            u > 0,
    ;
    lemma_sum(a, b);
}

/// The difference of numbers that come to at most `m`.
pub proof fn lemma_difference_within(a: Binary32, b: Binary32, m: int)
    requires
        a.is_finite_spec(),
        b.is_finite_spec(),
        0 <= m <= 0x80_0000,
        size(a.value()) + size(b.value()) <= m * one(),
    ensures
        a.minus(b).is_finite_spec(),
        off(a.minus(b).value(), a.value() - b.value(), (m + 1) * one()),
        size(a.minus(b).value()) <= (m + 1) * one(),
{
    exact::lemma_negated(b);
    lemma_sum_within(a, b.negated(), m);
}

/// The product of numbers of at most `m` and `n`.
pub proof fn lemma_product_within(a: Binary32, b: Binary32, m: int, n: int)
    requires
        a.is_finite_spec(),
        b.is_finite_spec(),
        0 <= m,
        0 <= n,
        m * n <= 0x80_0000,
        size(a.value()) <= m * one(),
        size(b.value()) <= n * one(),
    ensures
        a.times(b).is_finite_spec(),
        off(a.times(b).value() * one(), a.value() * b.value(), (m * n + 1) * (one() * one())),
        size(a.times(b).value()) <= (m * n + 1) * one(),
{
    let u = one();
    let e = FINE as int;
    let x = size(a.value());
    let y = size(b.value());
    lemma_one();
    lemma_size_of_product(a.value(), b.value());
    let k = m * n;
    assert(x * y <= k * (u * u)) by (nonlinear_arith)
        requires
            0 <= x <= m * u,
            0 <= y <= n * u,
            k == m * n,
            0 <= m,
            0 <= n,
            u > 0,
    ;
    assert(k * (u * u) <= (0x80_0000 * u) * u && 0x80_0000 * u <= 2 * ample())
        by (nonlinear_arith)
        requires
            k <= 0x80_0000,
            u > 0,
            ample() >= 0x1_0000_0000_0000_0000 * u,
    ;
    assert((0x80_0000 * u) * u <= (2 * ample()) * u) by (nonlinear_arith)
        requires
            0x80_0000 * u <= 2 * ample(),
            u > 0,
    ;
    lemma_product(a, b);
    let r = a.times(b).value();
    assert(e * u <= u * u && (k + 1) * (u * u) == k * (u * u) + u * u) by (nonlinear_arith)
        requires
            e == 0x100_0000,
            u >= 0x1_0000_0000_0000_0000,
    ;
    assert(size(r * u) == size(r) * u) by {
        lemma_size_of_product(r, u);
    }
    assert(e * (size(r) * u) <= e * (k * (u * u)) + (k + 1) * (u * u));
    let s = size(r);
    assert(k * (u * u) == (k * u) * u && (k + 1) * (u * u) == ((k + 1) * u) * u) by (nonlinear_arith);
    assert(e * s <= e * (k * u) + (k + 1) * u) by (nonlinear_arith)
        requires
            e * (s * u) <= e * ((k * u) * u) + ((k + 1) * u) * u,
            u > 0,
    ;
    assert((k + 1) * u <= e * u && (k + 1) * u == k * u + u) by (nonlinear_arith)
        requires
            k + 1 <= e,
            u > 0,
    ;
}

/// The sum of two products, of numbers of at most `m` and `n`.
pub proof fn lemma_two_products(
    a: Binary32,
    u: Binary32,
    b: Binary32,
    v: Binary32,
    m: int,
    n: int,
)
    requires
        a.is_finite_spec(),
        b.is_finite_spec(),
        u.is_finite_spec(),
        v.is_finite_spec(),
        0 <= m,
        0 <= n,
        m * n <= 0x10_0000,
        size(a.value()) <= m * one(),
        size(b.value()) <= m * one(),
        size(u.value()) <= n * one(),
        size(v.value()) <= n * one(),
    ensures
        a.times(u).plus(b.times(v)).is_finite_spec(),
        off(
            a.times(u).plus(b.times(v)).value() * one(),
            a.value() * u.value() + b.value() * v.value(),
            (5 * (m * n) + 5) * (one() * one()),
        ),
        size(a.times(u).plus(b.times(v)).value()) <= (2 * (m * n) + 3) * one(),
{
    let w = one();
    let k = m * n;
    assert(0 <= k) by (nonlinear_arith)
        requires
            0 <= m,
            0 <= n,
            k == m * n,
    ;
    lemma_one();
    lemma_product_within(a, u, m, n);
    lemma_product_within(b, v, m, n);
    let p = a.times(u);
    let q = b.times(v);
    assert(2 * ((k + 1) * w) == (2 * k + 2) * w) by (nonlinear_arith);
    lemma_sum_within(p, q, 2 * k + 2);
    let r = p.plus(q).value();
    lemma_scaled(r, p.value() + q.value(), (2 * k + 3) * w, w);
    assert(((2 * k + 3) * w) * w == (2 * k + 3) * (w * w) && (p.value() + q.value()) * w
        == p.value() * w + q.value() * w && (5 * k + 5) * (w * w) == (2 * k + 3) * (w * w) + 2 * ((k
        + 1) * (w * w)) + k * (w * w) && k * (w * w) >= 0) by (nonlinear_arith)
        requires
            k >= 0,
    ;
}

/// An error in one factor.
pub proof fn lemma_off_times(got: int, exact: int, slack: int, k: int, m: int)
    requires
        off(got, exact, slack),
        size(k) <= m,
        slack >= 0,
    ensures
        off(got * k, exact * k, slack * m),
{
    lemma_scaled(got, exact, slack, k);
    assert(slack * size(k) <= slack * m) by (nonlinear_arith)
        requires
            size(k) <= m,
            slack >= 0,
    ;
}

/// Half of a whole number of pixels, at a scale.
pub proof fn lemma_half_width(n: int, s: Binary32)
    requires
        0 <= n <= 0x100_0000,
        s.is_finite_spec(),
        0 <= s.value(),
        0x100_0000 * s.value() <= ample(),
    ensures
        ({
            let r = convert::of_int(n).times(Binary32::half()).times(s);
            &&& r.is_finite_spec()
            &&& off(2 * r.value(), n * s.value(), n * s.value() + 2 * FINE)
        }),
{
    let u = one();
    let half = pow2(148) as int;
    let v = s.value();
    lemma_one();
    exact::lemma_one_and_half();
    exact::lemma_of_int_exact(n);
    lemma_pow2_unfold(149);
    assert((n * u) * half == (n * half) * u) by (nonlinear_arith);
    exact::lemma_times_exact(convert::of_int(n), Binary32::half(), n, 148);
    let h = convert::of_int(n).times(Binary32::half());
    let w = n * half;
    assert(w * v >= 0 && 2 * (w * v) == (n * v) * u && w * v <= (2 * ample()) * u && n * v >= 0)
        by (nonlinear_arith)
        requires
            w == n * half,
            u == 2 * half,
            half > 0,
            0 <= n <= 0x100_0000,
            0 <= v,
            0x100_0000 * v <= ample(),
    ;
    lemma_product(h, s);
    let r = h.times(s).value();
    assert((2 * r) * u == 2 * (r * u) && (n * v + 2 * FINE) * u == (n * v) * u + 2 * (FINE * u))
        by (nonlinear_arith);
    lemma_cancelled(2 * r, n * v, n * v + 2 * FINE, u);
}

/// The nearest whole number of a number that is not negative.
pub proof fn lemma_rounded(g: Binary32) -> (k: int)
    requires
        g.is_finite_spec(),
        !g.is_negative(),
        g.value() <= 0x80_0000 * one(),
    ensures
        0 <= k <= 0x80_0001,
        g.round().is_finite_spec(),
        g.round().value() == k * one(),
        2 * g.value() - one() <= 2 * (k * one()) <= 2 * g.value() + one(),
{
    let u = one();
    let v = g.value();
    lemma_one();
    crate::binary32::arith::lemma_zero_magnitude(g.magnitude());
    let n = 2 * v + u;
    let d = 2 * u;
    let k = n / d;
    vstd::arithmetic::div_mod::lemma_fundamental_div_mod(n, d);
    vstd::arithmetic::div_mod::lemma_mod_bound(n, d);
    assert(d * k == 2 * (k * u)) by (nonlinear_arith)
        requires
            d == 2 * u,
    ;
    assert(0 <= k <= 0x80_0001) by (nonlinear_arith)
        requires
            d * k <= n,
            n < d * k + d,
            n <= 0x100_0001 * u,
            n >= 0,
            d == 2 * u,
            u > 0,
    ;
    let r = exact::pattern_for(k, 149);
    pattern::lemma_nearest_exact(r, 1);
    assert(k * u == pattern::units(r) * 1);
    k
}

/// The nearest whole number.
pub proof fn lemma_nearest_whole(g: Binary32) -> (k: int)
    requires
        g.is_finite_spec(),
        size(g.value()) <= 0x80_0000 * one(),
    ensures
        -0x80_0001 <= k <= 0x80_0001,
        g.round().is_finite_spec(),
        g.round().value() == k * one(),
        g.round().to_i32() == k,
        2 * g.value() - one() <= 2 * (k * one()) <= 2 * g.value() + one(),
{
    let u = one();
    let v = size(g.value());
    lemma_one();
    crate::binary32::arith::lemma_zero_magnitude(g.magnitude());
    let n = 2 * v + u;
    let d = 2 * u;
    let q = n / d;
    vstd::arithmetic::div_mod::lemma_fundamental_div_mod(n, d);
    vstd::arithmetic::div_mod::lemma_mod_bound(n, d);
    assert(d * q == 2 * (q * u) && (-q) * u == -(q * u)) by (nonlinear_arith)
        requires
            d == 2 * u,
    ;
    assert(0 <= q <= 0x80_0001) by (nonlinear_arith)
        requires
            d * q <= n,
            n < d * q + d,
            n <= 0x100_0001 * u,
            n >= 0,
            d == 2 * u,
            u > 0,
    ;
    let r = exact::pattern_for(q, 149);
    pattern::lemma_nearest_exact(r, 1);
    assert(q * u == pattern::units(r) * 1);
    assert(pattern::units(g.magnitude()) == v);
    let k = if g.is_negative() {
        -q
    } else {
        q
    };
    exact::lemma_to_i32_exact(g.round(), k);
    k
}

} // verus!
