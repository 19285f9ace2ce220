//! How far from the middle of a search a hit lies.

use vstd::arithmetic::power2::*;
use vstd::prelude::*;

use crate::binary32::arith;
use crate::binary32::convert;
use crate::binary32::exact;
use crate::binary32::order;
use crate::binary32::pattern;
use crate::binary32::Binary32;
use crate::config::MatchingConfig;
use crate::locator::correlate;
use crate::locator::search;

verus! {

/// The distance of two values.
pub open spec fn apart(a: int, b: int) -> int {
    if a < b {
        b - a
    } else {
        a - b
    }
}

/// A window starts no farther below the middle than the search and half a
/// template go, but for the cut to a whole pixel and for rounding.
proof fn lemma_start_is_near(cx: Binary32, search: Binary32, reach: Binary32, n: int)
    requires
        cx.is_finite_spec(),
        search.is_finite_spec(),
        reach.is_finite_spec(),
        search.ge(Binary32::zero()),
        reach.ge(Binary32::zero()),
        1 <= n <= 0x100_0000,
        2 * reach.value() <= n * pow2(149),
        ({
            let x0 = cx.minus(search).minus(reach).floor().max(Binary32::zero());
            x0.is_finite_spec() && x0.value() < n * pow2(149)
        }),
    ensures
        ({
            let x0 = cx.minus(search).minus(reach).floor().max(Binary32::zero());
            let exact = cx.value() - search.value() - reach.value();
            0x100_0000 * (exact - pow2(149) - x0.value()) <= 3 * (n * pow2(149))
        }),
{
    let one = pow2(149) as int;
    let side = n * one;
    let zero = Binary32::zero();
    let r = cx.minus(search);
    let s = r.minus(reach);
    let x0 = s.floor().max(zero);
    let t = cx.value() - search.value();
    let h = reach.value();
    lemma_pow2_pos(149);
    lemma2_to64();
    lemma_pow2_adds(64, 85);
    lemma_pow2_pos(85);
    assert(one >= 0x1_0000_0000_0000_0000) by (nonlinear_arith)
        requires
            one == 0x1_0000_0000_0000_0000 * pow2(85),
            pow2(85) >= 1,
    ;
    assert(side >= one) by (nonlinear_arith)
        requires
            side == n * one,
            n >= 1,
            one > 0,
    ;
    assert(zero.value() == 0);
    exact::lemma_negated(search);
    exact::lemma_negated(reach);
    order::lemma_order_of_values(zero, reach);
    order::lemma_order_of_values(zero, search);
    exact::lemma_of_int_exact(n);
    exact::lemma_of_u32(n);
    if !x0.is_negative() {
        arith::lemma_zero_magnitude(x0.magnitude());
    }
    order::lemma_order_of_values(zero, x0);
    assert(x0.ge(zero));
    if t - h > 0 {
        exact::lemma_plus_keeps_order(cx, search.negated(), zero);
        if r.is_infinite_spec() {
            reveal(Binary32::plus_spec);
            assert(s == r);
            assert(false);
        }
        // The first difference is not large.
        if r.value() - h >= side {
            exact::lemma_plus_keeps_order(r, reach.negated(), convert::of_int(n));
            lemma_floor_of_large(s, n);
            assert(false);
        }
        exact::lemma_plus_close(cx, search.negated());
        order::lemma_order_of_values(zero, r);
        if r.value() - h > 0 {
            exact::lemma_plus_keeps_order(r, reach.negated(), zero);
            exact::lemma_plus_keeps_order(r, reach.negated(), convert::of_int(n));
            exact::lemma_plus_close(r, reach.negated());
            exact::lemma_of_int_exact(0x100_0000);
            exact::lemma_of_u32(0x100_0000);
            assert(side <= 0x100_0000 * one) by (nonlinear_arith)
                requires
                    side == n * one,
                    n <= 0x100_0000,
                    one > 0,
            ;
            order::lemma_order_of_values(convert::of_int(n), convert::of_int(0x100_0000));
            lemma_floor_is_near(s);
        }
    }
}

/// A number of at least a whole number cuts to no less.
proof fn lemma_floor_of_large(s: Binary32, n: int)
    requires
        0 <= n <= 0x100_0000,
        s.ge(convert::of_int(n)),
        !s.is_nan_spec(),
    ensures
        s.floor().max(Binary32::zero()).is_finite_spec() ==> s.floor().max(
            Binary32::zero(),
        ).value() >= n * pow2(149),
{
    let one = pow2(149) as int;
    lemma_pow2_pos(149);
    exact::lemma_of_int_exact(n);
    exact::lemma_of_u32(n);
    let zero = Binary32::zero();
    assert(zero.value() == 0);
    if s.is_infinite_spec() {
    } else {
        order::lemma_order_of_values(convert::of_int(n), s);
        assert(n * one >= 0) by (nonlinear_arith)
            requires
                n >= 0,
                one > 0,
        ;
        let z = s.floor().max(zero);
        if s.is_negative() {
            arith::lemma_zero_magnitude(s.magnitude());
            assert(n * one == 0);
            if z.is_finite_spec() {
                order::lemma_order_of_values(zero, z);
                exact::lemma_negative_floor(s);
            }
        } else {
            let k = exact::lemma_whole_or_large(s);
            let u = pattern::units(s.magnitude());
            vstd::arithmetic::div_mod::lemma_div_is_ordered(n * one, u, one);
            vstd::arithmetic::div_mod::lemma_div_multiples_vanish(n, one);
            assert(n * one == one * n) by (nonlinear_arith);
            assert(k.0 >= n);
            let f = s.floor();
            if k.0 <= 0x100_0000 {
                assert(k.0 * one >= n * one) by (nonlinear_arith)
                    requires
                        k.0 >= n,
                        one > 0,
                ;
                order::lemma_order_of_values(zero, f);
            } else if f.is_finite_spec() {
                exact::lemma_of_int_exact(0x100_0000);
                exact::lemma_of_u32(0x100_0000);
                order::lemma_order_of_values(convert::of_int(0x100_0000), f);
                assert(0x100_0000 * one >= n * one) by (nonlinear_arith)
                    requires
                        0x100_0000 >= n,
                        one > 0,
                ;
                order::lemma_order_of_values(zero, f);
            }
        }
    }
}

/// A number that is not below zero, cut to a whole number, loses less than one.
proof fn lemma_floor_is_near(s: Binary32)
    requires
        s.is_finite_spec(),
        s.ge(Binary32::zero()),
        s.le(convert::of_int(0x100_0000)),
    ensures
        s.floor().max(Binary32::zero()).is_finite_spec(),
        s.value() - pow2(149) <= s.floor().max(Binary32::zero()).value(),
{
    let one = pow2(149) as int;
    let zero = Binary32::zero();
    lemma_pow2_pos(149);
    assert(zero.value() == 0);
    exact::lemma_of_int_exact(0x100_0000);
    exact::lemma_of_u32(0x100_0000);
    order::lemma_order_of_values(s, convert::of_int(0x100_0000));
    if s.is_negative() {
        arith::lemma_zero_magnitude(s.magnitude());
        exact::lemma_negative_floor(s);
        assert(pattern::units(0) == 0);
        vstd::arithmetic::div_mod::lemma_fundamental_div_mod_converse(one - 1, one, 0, one - 1);
        assert(0 * one == 0) by (nonlinear_arith);
        pattern::lemma_nearest_exact(0, 1);
        let z = s.floor().max(zero);
        order::lemma_order_of_values(zero, z);
    } else {
        let k = exact::lemma_whole_or_large(s);
        let u = pattern::units(s.magnitude());
        arith::lemma_zero_magnitude(s.magnitude());
        vstd::arithmetic::div_mod::lemma_fundamental_div_mod(u, one);
        vstd::arithmetic::div_mod::lemma_mod_bound(u, one);
        assert(one * k.0 == k.0 * one) by (nonlinear_arith);
        assert(k.0 <= 0x100_0000) by (nonlinear_arith)
            requires
                k.0 * one <= u,
                u <= 0x100_0000 * one,
                one > 0,
        ;
        order::lemma_order_of_values(zero, s.floor());
    }
}

/// A window ends no farther above the middle than the search and half a template
/// go, but for the cut to a whole pixel and for rounding.
proof fn lemma_end_is_near(cx: Binary32, search: Binary32, reach: Binary32, n: int)
    requires
        cx.is_finite_spec(),
        search.is_finite_spec(),
        reach.is_finite_spec(),
        search.ge(Binary32::zero()),
        reach.ge(Binary32::zero()),
        1 <= n <= 0x100_0000,
        2 * reach.value() <= n * pow2(149),
        ({
            let x1 = cx.plus(search).plus(reach).ceil().min(convert::of_int(n));
            x1.is_finite_spec() && x1.value() > 0
        }),
    ensures
        ({
            let x1 = cx.plus(search).plus(reach).ceil().min(convert::of_int(n));
            let exact = cx.value() + search.value() + reach.value();
            0x100_0000 * (x1.value() - exact - pow2(149)) <= 3 * (n * pow2(149))
        }),
{
    let one = pow2(149) as int;
    let side = n * one;
    let zero = Binary32::zero();
    let last = convert::of_int(n);
    let r = cx.plus(search);
    let s = r.plus(reach);
    let x1 = s.ceil().min(last);
    let t = cx.value() + search.value();
    let h = reach.value();
    lemma_pow2_pos(149);
    lemma2_to64();
    lemma_pow2_adds(64, 85);
    lemma_pow2_pos(85);
    assert(one >= 0x1_0000_0000_0000_0000) by (nonlinear_arith)
        requires
            one == 0x1_0000_0000_0000_0000 * pow2(85),
            pow2(85) >= 1,
    ;
    assert(side >= one) by (nonlinear_arith)
        requires
            side == n * one,
            n >= 1,
            one > 0,
    ;
    assert(zero.value() == 0);
    order::lemma_order_of_values(zero, reach);
    order::lemma_order_of_values(zero, search);
    exact::lemma_of_int_exact(n);
    exact::lemma_of_u32(n);
    order::lemma_order_of_values(x1, last);
    order::lemma_order_of_values(zero, x1);
    assert(x1.value() <= side);
    if t + h < side {
        exact::lemma_plus_keeps_order(cx, search, cx);
        exact::lemma_plus_keeps_order(cx, search, last);
        assert(r.is_finite_spec());
        order::lemma_order_of_values(r, last);
        exact::lemma_plus_close(cx, search);
        if r.value() + h <= 0 {
            exact::lemma_plus_keeps_order(r, reach, zero);
            lemma_ceil_not_above_zero(s);
            assert(false);
        }
        exact::lemma_plus_keeps_order(r, reach, zero);
        let big = Binary32::of_bits(0x4c00_0000);
        lemma_pow2_unfold(151);
        lemma_pow2_unfold(150);
        assert(big.value() == 0x200_0000 * one) by {
            assert(0x4c00_0000int / 0x80_0000 == 152 && 0x4c00_0000int % 0x80_0000 == 0);
            assert(0x80_0000 * (4 * one) == 0x200_0000 * one) by (nonlinear_arith);
        }
        assert(side <= 0x100_0000 * one) by (nonlinear_arith)
            requires
                side == n * one,
                n <= 0x100_0000,
                one > 0,
        ;
        exact::lemma_plus_keeps_order(r, reach, big);
        assert(s.is_finite_spec());
        exact::lemma_plus_close(r, reach);
        lemma_ceil_is_near(s, n);
    }
}

proof fn lemma_ceil_not_above_zero(s: Binary32)
    requires
        s.le(Binary32::zero()),
    ensures
        s.ceil().le(Binary32::zero()),
{
    let one = pow2(149) as int;
    lemma_pow2_pos(149);
    if s.is_finite_spec() {
        if s.is_negative() {
            exact::lemma_negative_ceil(s);
        } else {
            assert(s.magnitude() == 0);
            assert(pattern::units(0) == 0);
            vstd::arithmetic::div_mod::lemma_fundamental_div_mod_converse(
                one - 1,
                one,
                0,
                one - 1,
            );
            assert(0 * one == 0) by (nonlinear_arith);
            pattern::lemma_nearest_exact(0, 1);
        }
    }
}

/// A number that is not below zero, raised to a whole number, gains less than
/// one.
proof fn lemma_ceil_is_near(s: Binary32, n: int)
    requires
        s.is_finite_spec(),
        s.ge(Binary32::zero()),
        1 <= n <= 0x100_0000,
        s.ceil().min(convert::of_int(n)).is_finite_spec(),
    ensures
        s.ceil().min(convert::of_int(n)).value() <= s.value() + pow2(149),
{
    let one = pow2(149) as int;
    let last = convert::of_int(n);
    let x1 = s.ceil().min(last);
    let zero = Binary32::zero();
    lemma_pow2_pos(149);
    assert(zero.value() == 0);
    exact::lemma_of_int_exact(n);
    exact::lemma_of_u32(n);
    arith::lemma_zero_magnitude(s.magnitude());
    if s.is_negative() {
        assert(s.magnitude() == 0);
        assert(s.value() == 0);
        lemma_ceil_not_above_zero(s);
        order::lemma_order_of_values(x1, zero);
    } else {
        let k = exact::lemma_whole_or_large(s);
        let u = pattern::units(s.magnitude());
        vstd::arithmetic::div_mod::lemma_fundamental_div_mod(u + one - 1, one);
        vstd::arithmetic::div_mod::lemma_mod_bound(u + one - 1, one);
        assert(one * k.1 == k.1 * one) by (nonlinear_arith);
        if k.1 <= 0x100_0000 {
            order::lemma_order_of_values(x1, s.ceil());
        } else {
            order::lemma_order_of_values(x1, last);
            assert(n * one <= (k.1 - 1) * one && (k.1 - 1) * one == k.1 * one - one)
                by (nonlinear_arith)
                requires
                    n <= k.1 - 1,
                    one > 0,
            ;
        }
    }
}

/// What the size at which a window is searched says of the pixels of the
/// template: `len` map pixels are searched as `tw`, and a template of `w_diam`
/// map pixels as `diam`.
pub proof fn lemma_pixels_of_the_template(w_diam: Binary32, len: int, tw: int, diam: int)
    requires
        w_diam.gt(Binary32::zero()),
        w_diam.le(convert::of_int(len)),
        1 <= len <= 0x100_0000,
        3 <= diam < tw <= 0x80_0000,
        tw == convert::of_int(len).over(w_diam.over(convert::of_int(diam))).round().to_u32(),
    ensures
        ({
            let f = w_diam.over(convert::of_int(diam)).value();
            let u = convert::of_int(len).over(convert::of_int(tw)).value();
            let w = w_diam.value();
            &&& w_diam.is_finite_spec()
            &&& w_diam.magnitude() >= 0x100_0000
            &&& 0 <= f
            &&& 0x100_0000 * (f * diam) <= 0x100_0001 * w
            &&& 100 * u <= 113 * f
            &&& 2 * (0x100_0000 * (diam * u)) >= 2 * (0x100_0000 * w) - 6 * w - 0x100_0000 * f
            &&& is_searched_at(len, tw, w, diam)
        }),
{
    let one = pow2(149) as int;
    let all = len * one;
    let fw = w_diam.over(convert::of_int(diam));
    let g = convert::of_int(len).over(fw);
    lemma_pow2_pos(149);
    lemma2_to64();
    exact::lemma_of_int_exact(len);
    exact::lemma_of_u32(len);
    exact::lemma_of_int_exact(diam);
    exact::lemma_of_u32(diam);
    exact::lemma_of_int_exact(tw);
    exact::lemma_of_u32(tw);
    assert(w_diam.is_finite_spec() && !w_diam.is_negative());
    order::lemma_order_of_values(w_diam, convert::of_int(len));
    let w = w_diam.value();
    arith::lemma_zero_magnitude(w_diam.magnitude());
    // Map pixels to a pixel of the template.
    lemma_pixel(w_diam, diam);
    let f = fw.value();
    assert(fw.is_finite_spec() && !fw.is_negative());
    // Not few.
    lemma_pixel_is_not_small(fw, len, tw);
    let least = 0x3300_0000int;
    lemma_pow2_adds(23, 101);
    assert(pattern::units(least) == pow2(124));
    if fw.magnitude() < least {
        pattern::lemma_units_increase(fw.magnitude(), least);
        assert(false);
    }
    assert(0x100_0000 * (f * diam - w) <= w && 0x100_0000 * (w - f * diam) <= w);
    // The template is not small either.
    lemma_pow2_pos(124);
    assert(f * diam >= 3 * f) by (nonlinear_arith)
        requires
            diam >= 3,
            f >= 0,
    ;
    assert(w >= pow2(124));
    lemma_pow2_adds(64, 60);
    lemma_pow2_pos(60);
    assert(pow2(124) >= 0x1_0000_0000_0000_0000) by (nonlinear_arith)
        requires
            pow2(124) == 0x1_0000_0000_0000_0000 * pow2(60),
            pow2(60) >= 1,
    ;
    assert(pattern::units(0x100_0000) == 0x100_0000) by {
        assert(0x100_0000int / 0x80_0000 == 2 && 0x100_0000int % 0x80_0000 == 0);
        assert(0x80_0000 * pow2(1) == 0x100_0000);
    }
    if w_diam.magnitude() < 0x100_0000 {
        pattern::lemma_units_increase(w_diam.magnitude(), 0x100_0000);
        assert(false);
    }
    // The size at which the window is searched.
    lemma_searched_size(fw, len, tw);
    let gv = g.value();
    // Map pixels to a pixel of the window.
    assert(Binary32::zero().value() == 0);
    search::lemma_scaled_place(Binary32::zero(), len, tw);
    let u = convert::of_int(len).over(convert::of_int(tw)).value();
    lemma_two_pixels(one, all, gv, f, u, w, tw, diam);
    lemma_nearest_size(one, len, gv, f, w, tw, diam);
}

/// Putting the size together.
proof fn lemma_nearest_size(one: int, len: int, g: int, f: int, w: int, tw: int, diam: int)
    requires
        one == pow2(149),
        one > 0,
        len > 0,
        f >= 0,
        w >= 0,
        3 <= diam < tw,
        2 * (one * tw) <= 2 * g + one,
        2 * g + one < 2 * (one * tw) + 2 * one,
        0x100_0000 * (g * f - (len * one) * one) <= (len * one) * one,
        0x100_0000 * ((len * one) * one - g * f) <= (len * one) * one,
        0x100_0000 * (f * diam - w) <= w,
        0x100_0000 * (w - f * diam) <= w,
    ensures
        is_searched_at(len, tw, w, diam),
{
    let e = 0x100_0000int;
    let all = len * one;
    // Pixels of the window, each of the template's size.
    let a = 2 * (one * tw) - 2 * g;
    assert(-(one * f) <= a * f <= one * f) by (nonlinear_arith)
        requires
            -one <= a <= one,
            f >= 0,
    ;
    assert(a * f == (2 * (tw * f)) * one - 2 * (g * f)) by (nonlinear_arith)
        requires
            a == 2 * (one * tw) - 2 * g,
    ;
    let x = tw * f;
    assert(e * (2 * x - 2 * all - f) <= 2 * all && e * (2 * all - 2 * x - f) <= 2 * all)
        by (nonlinear_arith)
        requires
            -(one * f) <= (2 * x) * one - 2 * (g * f) <= one * f,
            e * (g * f - all * one) <= all * one,
            e * (all * one - g * f) <= all * one,
            one > 0,
            e == 0x100_0000,
    ;
    // All of the template.
    let fd = f * diam;
    let xd = tw * fd;
    let ad = all * diam;
    assert(e * (2 * xd - 2 * ad - fd) <= 2 * ad && e * (2 * ad - 2 * xd - fd) <= 2 * ad)
        by (nonlinear_arith)
        requires
            e * (2 * x - 2 * all - f) <= 2 * all,
            e * (2 * all - 2 * x - f) <= 2 * all,
            x == tw * f,
            fd == f * diam,
            xd == tw * fd,
            ad == all * diam,
            diam > 0,
    ;
    let tww = tw * w;
    assert(e * (xd - tww) <= tww && e * (tww - xd) <= tww) by (nonlinear_arith)
        requires
            e * (fd - w) <= w,
            e * (w - fd) <= w,
            xd == tw * fd,
            tww == tw * w,
            tw > 0,
    ;
    assert(ad == (len * diam) * one) by (nonlinear_arith)
        requires
            ad == all * diam,
            all == len * one,
    ;
}

/// A window of `len` map pixels is searched at `tw` pixels: as many as make the
/// width `w` of the template on the map into `diam` of them, to the nearest whole
/// number and but for rounding.
pub open spec fn is_searched_at(len: int, tw: int, w: int, diam: int) -> bool {
    let want = (len * diam) * pow2(149);
    0x100_0000 * apart(2 * (tw * w), 2 * want) <= 0x100_0001 * w + 2 * want + 2 * (tw * w)
}

/// Map pixels to a pixel of the template.
proof fn lemma_pixel(w_diam: Binary32, diam: int)
    requires
        w_diam.is_finite_spec(),
        !w_diam.is_negative(),
        w_diam.magnitude() > 0,
        1 <= diam <= 0x100_0000,
    ensures
        ({
            let fw = w_diam.over(convert::of_int(diam));
            let f = fw.value();
            let w = w_diam.value();
            &&& fw.is_finite_spec()
            &&& !fw.is_negative()
            &&& fw.magnitude() > 0x80_0000 ==> 0x100_0000 * (f * diam - w) <= w && 0x100_0000 * (w
                - f * diam) <= w
        }),
{
    reveal(Binary32::over_spec);
    let one = pow2(149) as int;
    lemma_pow2_pos(149);
    exact::lemma_of_int_exact(diam);
    exact::lemma_of_u32(diam);
    arith::lemma_zero_magnitude(w_diam.magnitude());
    let w = w_diam.value();
    let n = w * one;
    let d = diam * one;
    assert(n >= 0 && d > 0 && n <= w * d) by (nonlinear_arith)
        requires
            n == w * one,
            d == diam * one,
            diam >= 1,
            w >= 0,
            one > 0,
    ;
    exact::lemma_nearest_total(n, d);
    exact::lemma_nearest_keeps_order(n, d, w_diam.magnitude());
    exact::lemma_nearest_close(n, d);
    let fw = w_diam.over(convert::of_int(diam));
    let f = fw.value();
    assert(fw.magnitude() == pattern::nearest(n, d));
    if fw.magnitude() > 0x80_0000 {
        assert(0x100_0000 * (f * diam - w) <= w && 0x100_0000 * (w - f * diam) <= w)
            by (nonlinear_arith)
            requires
                0x100_0000 * (f * d - n) <= n,
                0x100_0000 * (n - f * d) <= n,
                n == w * one,
                d == diam * one,
                one > 0,
        ;
    }
}

/// A window searched at not more than 2^23 pixels has pixels of at least 2^-25.
proof fn lemma_pixel_is_not_small(fw: Binary32, len: int, tw: int)
    requires
        fw.is_finite_spec(),
        !fw.is_negative(),
        1 <= len <= 0x100_0000,
        0 <= tw <= 0x80_0000,
        tw == convert::of_int(len).over(fw).round().to_u32(),
    ensures
        fw.value() >= pow2(124),
{
    let one = pow2(149) as int;
    let f = fw.value();
    let g = convert::of_int(len).over(fw);
    lemma_pow2_pos(149);
    exact::lemma_of_int_exact(len);
    exact::lemma_of_u32(len);
    arith::lemma_zero_magnitude(fw.magnitude());
    if f < pow2(124) {
        reveal(Binary32::over_spec);
        if fw.magnitude() > 0 {
            let n = (len * one) * one;
            lemma2_to64();
            lemma_pow2_adds(24, 149);
            lemma_pow2_adds(24, 124);
            lemma_pow2_unfold(149);
            let top = 0x4b80_0000int;
            lemma_pow2_unfold(150);
            assert(pattern::units(top) == 0x100_0000 * one) by {
                assert(0x4b80_0000int / 0x80_0000 == 151 && 0x4b80_0000int % 0x80_0000 == 0);
                assert(0x80_0000 * (2 * one) == 0x100_0000 * one) by (nonlinear_arith);
            }
            assert(n >= 0 && n >= (0x100_0000 * one) * f) by (nonlinear_arith)
                requires
                    n == (len * one) * one,
                    len >= 1,
                    one == 2 * (0x100_0000 * pow2(124)),
                    0 <= f <= pow2(124),
                    one > 0,
            ;
            exact::lemma_nearest_keeps_order(n, f, top);
            exact::lemma_nearest_total(n, f);
        }
        assert(!g.is_nan_spec() && !g.is_negative() && g.magnitude() >= 0x4b80_0000);
        lemma_large_rounds_large(g);
    }
}

/// A number of at least 2^24 rounds and cuts to at least 2^24.
proof fn lemma_large_rounds_large(g: Binary32)
    requires
        !g.is_nan_spec(),
        !g.is_negative(),
        g.magnitude() >= 0x4b80_0000,
    ensures
        g.round().to_u32() >= 0x100_0000,
{
    let one = pow2(149) as int;
    lemma_pow2_pos(149);
    lemma_pow2_unfold(150);
    if g.is_finite_spec() {
        let top = 0x4b80_0000int;
        assert(pattern::units(top) == 0x100_0000 * one) by {
            assert(0x4b80_0000int / 0x80_0000 == 151 && 0x4b80_0000int % 0x80_0000 == 0);
            assert(0x80_0000 * (2 * one) == 0x100_0000 * one) by (nonlinear_arith);
        }
        let u = pattern::units(g.magnitude());
        if top < g.magnitude() {
            pattern::lemma_units_increase(top, g.magnitude());
        }
        let whole = (2 * u + one) / (2 * one);
        assert(0x100_0000 * (2 * one) <= 2 * u + one) by (nonlinear_arith)
            requires
                u >= 0x100_0000 * one,
                one > 0,
        ;
        vstd::arithmetic::div_mod::lemma_div_is_ordered(
            0x100_0000 * (2 * one),
            2 * u + one,
            2 * one,
        );
        vstd::arithmetic::div_mod::lemma_div_multiples_vanish(0x100_0000, 2 * one);
        assert(0x100_0000 * (2 * one) == (2 * one) * 0x100_0000) by (nonlinear_arith);
        assert(whole >= 0x100_0000);
        assert(whole * one >= 0x100_0000 * one) by (nonlinear_arith)
            requires
                whole >= 0x100_0000,
                one > 0,
        ;
        exact::lemma_nearest_keeps_order(whole * one, 1, top);
        exact::lemma_nearest_total(whole * one, 1);
        let z = pattern::nearest(whole * one, 1);
        if z < pattern::INFINITE {
            if top < z {
                pattern::lemma_units_increase(top, z);
            }
            vstd::arithmetic::div_mod::lemma_div_is_ordered(
                0x100_0000 * one,
                pattern::units(z),
                one,
            );
            vstd::arithmetic::div_mod::lemma_div_multiples_vanish(0x100_0000, one);
            assert(0x100_0000 * one == one * 0x100_0000) by (nonlinear_arith);
        }
    }
}

/// The size at which a window is searched is the nearest whole number.
proof fn lemma_searched_size(fw: Binary32, len: int, tw: int)
    requires
        fw.is_finite_spec(),
        !fw.is_negative(),
        fw.magnitude() > 0,
        1 <= len <= 0x100_0000,
        4 <= tw <= 0x80_0000,
        tw == convert::of_int(len).over(fw).round().to_u32(),
    ensures
        ({
            let one = pow2(149) as int;
            let g = convert::of_int(len).over(fw).value();
            let f = fw.value();
            let all = len * one;
            &&& 2 * (one * tw) <= 2 * g + one
            &&& 2 * g + one < 2 * (one * tw) + 2 * one
            &&& 0x100_0000 * (g * f - all * one) <= all * one
            &&& 0x100_0000 * (all * one - g * f) <= all * one
        }),
{
    let one = pow2(149) as int;
    let f = fw.value();
    let all = len * one;
    let g = convert::of_int(len).over(fw);
    lemma_pow2_pos(149);
    lemma_pow2_unfold(150);
    exact::lemma_of_int_exact(len);
    exact::lemma_of_u32(len);
    arith::lemma_zero_magnitude(fw.magnitude());
    reveal(Binary32::over_spec);
    let n = all * one;
    assert(n >= 0) by (nonlinear_arith)
        requires
            n == all * one,
            all == len * one,
            len >= 1,
            one > 0,
    ;
    exact::lemma_nearest_total(n, f);
    let m = g.magnitude();
    assert(m == pattern::nearest(n, f) && !g.is_negative());
    if m >= 0x4b80_0000 {
        lemma_large_rounds_large(g);
        assert(false);
    }
    assert(pattern::units(0x4b80_0000) == 0x100_0000 * one) by {
        assert(0x4b80_0000int / 0x80_0000 == 151 && 0x4b80_0000int % 0x80_0000 == 0);
        assert(0x80_0000 * (2 * one) == 0x100_0000 * one) by (nonlinear_arith);
    }
    pattern::lemma_units_increase(m, 0x4b80_0000);
    let u = pattern::units(m);
    let whole = (2 * u + one) / (2 * one);
    vstd::arithmetic::div_mod::lemma_fundamental_div_mod(2 * u + one, 2 * one);
    vstd::arithmetic::div_mod::lemma_mod_bound(2 * u + one, 2 * one);
    vstd::arithmetic::div_mod::lemma_div_pos_is_pos(2 * u + one, 2 * one);
    assert((2 * one) * whole == 2 * (one * whole)) by (nonlinear_arith);
    assert(whole <= 0x100_0000) by (nonlinear_arith)
        requires
            2 * (one * whole) <= 2 * u + one,
            u <= 0x100_0000 * one,
            one > 0,
    ;
    assert(g.round() == convert::of_int(whole));
    exact::lemma_round_whole(whole);
    assert(whole == tw);
    assert(one * tw >= 4 * one) by (nonlinear_arith)
        requires
            tw >= 4,
            one > 0,
    ;
    exact::lemma_one_and_half();
    if m <= 0x80_0000 {
        pattern::lemma_units_increase(m, 0x3f80_0000);
        assert(false);
    }
    exact::lemma_nearest_close(n, f);
}

/// A pixel of the window is about a pixel of the template: `u` and `f` are their
/// sizes on the map.
proof fn lemma_two_pixels(
    one: int,
    all: int,
    g: int,
    f: int,
    u: int,
    w: int,
    tw: int,
    diam: int,
)
    requires
        one > 0,
        all > 0,
        f >= 0,
        u >= 0,
        w >= 0,
        3 <= diam < tw,
        2 * (one * tw) <= 2 * g + one,
        2 * g + one < 2 * (one * tw) + 2 * one,
        0x100_0000 * (g * f - all * one) <= all * one,
        0x100_0000 * (all * one - g * f) <= all * one,
        0x100_0000 * (f * diam - w) <= w,
        0x100_0000 * (w - f * diam) <= w,
        0x100_0000 * (u * tw - all) <= all,
        0x100_0000 * (all - u * tw) <= all,
    ensures
        100 * u <= 113 * f,
        2 * (0x100_0000 * (diam * u)) >= 2 * (0x100_0000 * w) - 6 * w - 0x100_0000 * f,
{
    let tf = tw * f;
    let gf = g * f;
    let ao = all * one;
    // The window in pixels of the template.
    assert(2 * (one * tf) <= 2 * gf + one * f && 2 * gf + one * f <= 2 * (one * tf) + 2 * (one * f))
        by (nonlinear_arith)
        requires
            tf == tw * f,
            gf == g * f,
            2 * (one * tw) <= 2 * g + one,
            2 * g + one < 2 * (one * tw) + 2 * one,
            f >= 0,
    ;
    assert(2 * (0x100_0000 * tf) <= 2 * (0x100_0001 * all) + 0x100_0000 * f) by (nonlinear_arith)
        requires
            2 * (one * tf) <= 2 * gf + one * f,
            0x100_0000 * (gf - ao) <= ao,
            ao == all * one,
            one > 0,
    ;
    assert(2 * (0xff_ffff * all) <= 0x100_0000 * (2 * tf + f)) by (nonlinear_arith)
        requires
            2 * gf + one * f <= 2 * (one * tf) + 2 * (one * f),
            0x100_0000 * (ao - gf) <= ao,
            ao == all * one,
            one > 0,
    ;
    let ut = u * tw;
    // One pixel of it is not much larger.
    assert(4 * f <= tf) by (nonlinear_arith)
        requires
            tf == tw * f,
            tw >= 4,
            f >= 0,
    ;
    assert(0x100_0000 * ut <= 0x100_0001 * all);
    assert(100 * ut <= 113 * tf);
    assert(100 * u <= 113 * f) by (nonlinear_arith)
        requires
            100 * ut <= 113 * tf,
            ut == u * tw,
            tf == tw * f,
            tw >= 4,
    ;
    // Nor much smaller.
    assert(0x100_0000 * ut >= 0xff_ffff * all);
    assert(2 * (0x100_0001 * ut) >= 0xff_ffff * (2 * tf - f));
    let du = diam * u;
    let df = f * diam;
    assert(2 * (0x100_0001 * (du * tw)) >= 0xff_ffff * (2 * (df * tw) - df)) by (nonlinear_arith)
        requires
            2 * (0x100_0001 * ut) >= 0xff_ffff * (2 * tf - f),
            ut == u * tw,
            tf == tw * f,
            du == diam * u,
            df == f * diam,
            diam >= 3,
    ;
    assert(df <= f * tw) by (nonlinear_arith)
        requires
            df == f * diam,
            diam < tw,
            f >= 0,
    ;
    assert(2 * (0x100_0001 * du) >= 0xff_ffff * (2 * df - f)) by (nonlinear_arith)
        requires
            2 * (0x100_0001 * (du * tw)) >= 0xff_ffff * (2 * (df * tw) - df),
            df <= f * tw,
            tw >= 4,
    ;
}

/// Where a hit lies along one axis, from the middle `cx` of a search.
proof fn lemma_hit_is_near(
    cx: Binary32,
    search: Binary32,
    w_diam: Binary32,
    n: int,
    len: int,
    tw: int,
    b: int,
    dx: Binary32,
    diam: int,
)
    requires
        cx.is_finite_spec(),
        search.is_finite_spec(),
        search.ge(Binary32::zero()),
        w_diam.gt(Binary32::zero()),
        w_diam.le(convert::of_int(len)),
        1 <= n <= 0x100_0000,
        0 < len,
        0 <= b,
        3 <= diam,
        b + diam <= tw,
        diam < tw <= 0x80_0000,
        tw == convert::of_int(len).over(w_diam.over(convert::of_int(diam))).round().to_u32(),
        dx.is_nan_spec() || (dx.le(Binary32::one()) && dx.ge(Binary32::one().negated())),
        ({
            let reach = w_diam.times(Binary32::half());
            let x0 = cx.minus(search).minus(reach).floor().max(Binary32::zero());
            let x1 = cx.plus(search).plus(reach).ceil().min(convert::of_int(n));
            &&& x0.to_u32() + len <= n
            &&& x0.is_finite_spec() && x0.value() == x0.to_u32() * pow2(149)
            &&& x1.is_finite_spec() && x1.value() == (x0.to_u32() + len) * pow2(149)
        }),
    ensures
        ({
            let reach = w_diam.times(Binary32::half());
            let x0 = cx.minus(search).minus(reach).floor().max(Binary32::zero());
            let middle = convert::of_int(diam).minus(Binary32::one()).times(Binary32::half());
            let tc = convert::of_int(b).plus(dx).plus(middle);
            let f = convert::of_int(len).over(convert::of_int(tw));
            let x = x0.plus(tc.times(f));
            !x.is_nan_spec() ==> near_enough(x, cx, search, w_diam, diam, n)
        }),
{
    let one = pow2(149) as int;
    let reach = w_diam.times(Binary32::half());
    let x0 = cx.minus(search).minus(reach).floor().max(Binary32::zero());
    let x1 = cx.plus(search).plus(reach).ceil().min(convert::of_int(n));
    let middle = convert::of_int(diam).minus(Binary32::one()).times(Binary32::half());
    let tc = convert::of_int(b).plus(dx).plus(middle);
    let fx = convert::of_int(len).over(convert::of_int(tw));
    let p = tc.times(fx);
    let x = x0.plus(p);
    if dx.is_nan_spec() {
        reveal(Binary32::plus_spec);
        reveal(Binary32::times_spec);
    } else {
        let all = len * one;
        let side = n * one;
        let a = x0.to_u32() as int;
        lemma_pow2_pos(149);
        lemma_pixels_of_the_template(w_diam, len, tw, diam);
        exact::lemma_halved(w_diam);
        exact::lemma_of_int_exact(len);
        order::lemma_order_of_values(w_diam, convert::of_int(len));
        assert(all <= side && side >= one && a * one + all <= side && (a + len) * one == a * one + all && all > 0
            && a * one >= 0) by (nonlinear_arith)
            requires
                all == len * one,
                side == n * one,
                a + len <= n,
                a >= 0,
                len >= 1,
                one > 0,
        ;
        assert(Binary32::zero().value() == 0);
        order::lemma_order_of_values(Binary32::zero(), reach);
        lemma_start_is_near(cx, search, reach, n);
        lemma_end_is_near(cx, search, reach, n);
        search::lemma_middle_of_template(b, dx, diam, tw);
        search::lemma_scaled_place(tc, len, tw);
        order::lemma_order_of_values(Binary32::zero(), p);
        exact::lemma_of_int_exact(n);
        exact::lemma_of_u32(n);
        exact::lemma_plus_keeps_order(x0, p, convert::of_int(n));
        exact::lemma_plus_keeps_order(x0, p, Binary32::zero());
        exact::lemma_plus_close(x0, p);
        let u = fx.value();
        let tu = tc.value() * u;
        lemma_product(one, all, tc.value(), u, tu, p.value(), tw, diam);
        lemma2_to64();
        lemma_pow2_adds(64, 85);
        lemma_pow2_pos(85);
        assert(one >= 0x1_0000_0000_0000_0000) by (nonlinear_arith)
            requires
                one == 0x1_0000_0000_0000_0000 * pow2(85),
                pow2(85) >= 1,
        ;
        let f = w_diam.over(convert::of_int(diam)).value();
        let w = w_diam.value();
        let k = 0x100_0000int;
        let below = (cx.value() - search.value()) - x.value();
        let above = x.value() - (cx.value() + search.value());
        let du = diam * u;
        assert((diam - 3) * u == du - 3 * u && (diam - 1) * u == du - u) by (nonlinear_arith)
            requires
                du == diam * u,
        ;
        assert(100 * (k * (below - one)) <= 100 * (8 * side) + 195 * (k * f));
        assert(100 * (k * (above - one)) <= 100 * (8 * side) + 195 * (k * f));
        let far = apart(x.value(), cx.value()) - search.value();
        assert(0 <= search.value()) by {
            order::lemma_order_of_values(Binary32::zero(), search);
        }
        assert(far <= below || far <= above);
        let over = k * (far - one) - 8 * side;
        assert(100 * over <= 195 * (k * f));
        let kfd = k * (f * diam);
        assert(diam * (100 * over) <= 195 * kfd) by (nonlinear_arith)
            requires
                100 * over <= 195 * (k * f),
                kfd == k * (f * diam),
                diam >= 3,
        ;
        assert(diam * (100 * over) == 100 * (diam * over)) by (nonlinear_arith);
        assert(diam * over <= 2 * (k * w));
    }
}

/// The product that places a hit in its window, in pixels of the map.
proof fn lemma_product(
    one: int,
    all: int,
    tc: int,
    u: int,
    tu: int,
    p: int,
    tw: int,
    diam: int,
)
    requires
        one > 0,
        u >= 0,
        tu == tc * u,
        0 <= tu <= all * one,
        2 * tc >= (diam - 3) * one,
        2 * tc <= (2 * tw - diam + 1) * one,
        0x100_0000 * (p * one - tu) <= tu + 0x100_0000 * one,
        0x100_0000 * (tu - p * one) <= tu + 0x100_0000 * one,
        0x100_0000 * (u * tw - all) <= all,
    ensures
        2 * (0x100_0000 * p) >= 0x100_0000 * ((diam - 3) * u) - 2 * all - 0x200_0000,
        2 * (0x100_0000 * p) <= 2 * (0x100_0000 * all) + 4 * all - 0x100_0000 * ((diam - 1) * u)
            + 0x200_0000,
{
    let low = (diam - 3) * u;
    let high = (2 * tw - diam + 1) * u;
    assert(2 * tu >= low * one && 2 * tu <= high * one) by (nonlinear_arith)
        requires
            tu == tc * u,
            low == (diam - 3) * u,
            high == (2 * tw - diam + 1) * u,
            2 * tc >= (diam - 3) * one,
            2 * tc <= (2 * tw - diam + 1) * one,
            u >= 0,
    ;
    assert(2 * (0x100_0000 * p) >= 0x100_0000 * low - 2 * all - 0x200_0000) by (nonlinear_arith)
        requires
            2 * tu >= low * one,
            tu <= all * one,
            0x100_0000 * (tu - p * one) <= tu + 0x100_0000 * one,
            one > 0,
    ;
    assert(2 * (0x100_0000 * p) <= 0x100_0000 * high + 2 * all + 0x200_0000) by (nonlinear_arith)
        requires
            2 * tu <= high * one,
            tu <= all * one,
            0x100_0000 * (p * one - tu) <= tu + 0x100_0000 * one,
            one > 0,
    ;
    assert(high == 2 * (u * tw) - (diam - 1) * u) by (nonlinear_arith)
        requires
            high == (2 * tw - diam + 1) * u,
    ;
}

/// `x` is no farther from `c` than the search, one pixel, eight times the side
/// `n` of the map in steps of 2^-24 and twice the template's width on the map
/// over `diam`.
pub open spec fn near_enough(
    x: Binary32,
    c: Binary32,
    search: Binary32,
    w_diam: Binary32,
    diam: int,
    n: int,
) -> bool {
    let one = pow2(149) as int;
    let far = apart(x.value(), c.value()) - search.value();
    diam * (0x100_0000 * (far - one) - 8 * (n * one)) <= 2 * (0x100_0000 * w_diam.value())
}

/// `x` is no farther from `c` than the search, two pixels and twice the
/// template's width on the map over `diam`.
pub open spec fn within_two_pixels(
    x: Binary32,
    c: Binary32,
    search: Binary32,
    w_diam: Binary32,
    diam: int,
) -> bool {
    diam * (apart(x.value(), c.value()) - search.value() - 2 * pow2(149)) <= 2 * w_diam.value()
}

/// On a map of up to 2^21 pixels, the steps of single precision come to less
/// than a pixel.
proof fn lemma_within_two_pixels(
    x: Binary32,
    c: Binary32,
    search: Binary32,
    w_diam: Binary32,
    diam: int,
    n: int,
)
    requires
        near_enough(x, c, search, w_diam, diam, n),
        0 <= n <= 0x20_0000,
        diam > 0,
    ensures
        within_two_pixels(x, c, search, w_diam, diam),
{
    let one = pow2(149) as int;
    let far = apart(x.value(), c.value()) - search.value();
    lemma_pow2_pos(149);
    let w = w_diam.value();
    assert(8 * (n * one) <= 0x100_0000 * one) by (nonlinear_arith)
        requires
            n <= 0x20_0000,
            one > 0,
    ;
    let over = 0x100_0000 * (far - one) - 8 * (n * one);
    assert(0x100_0000 * (far - 2 * one) <= over);
    assert(diam * (far - 2 * one) <= 2 * w) by (nonlinear_arith)
        requires
            0x100_0000 * (far - 2 * one) <= over,
            diam * over <= 2 * (0x100_0000 * w),
            diam > 0,
    ;
}

/// A hit is near the middle of its search: no farther along an axis than the
/// search, a pixel for the cut of the window to whole pixels, a few steps of
/// single precision on the map, and two pixels of the template. On a map of up
/// to 2^21 pixels the steps come to less than a second pixel.
pub proof fn a_hit_is_near_the_middle_of_its_search(
    map: Seq<u8>,
    map_w: int,
    map_h: int,
    mm: Seq<u8>,
    mm_w: int,
    mm_h: int,
    matching: MatchingConfig,
    scale: Binary32,
    cx: Binary32,
    cy: Binary32,
    search: Binary32,
    diam: int,
)
    requires
        0 <= map_w <= 0x100_0000,
        0 <= map_h <= 0x100_0000,
        0 <= diam <= u32::MAX,
        convert::of_int(mm_w).times(scale).gt(Binary32::zero()),
        cx.is_finite_spec(),
        cy.is_finite_spec(),
        search.is_finite_spec(),
        search.ge(Binary32::zero()),
    ensures
        search::hit_of(
            map,
            map_w,
            map_h,
            mm,
            mm_w,
            mm_h,
            matching,
            scale,
            cx,
            cy,
            search,
            diam,
        ) matches Some(h) ==> {
            let win = search::window_of(
                map_w,
                map_h,
                mm_w,
                scale,
                cx,
                cy,
                search,
                diam,
            )->Some_0;
            let w_diam = convert::of_int(mm_w).times(scale);
            &&& win.tw <= 0x80_0000 && !h.x.is_nan_spec() ==> near_enough(
                h.x,
                cx,
                search,
                w_diam,
                diam,
                map_w,
            ) && (map_w <= 0x20_0000 ==> within_two_pixels(h.x, cx, search, w_diam, diam))
            &&& win.th <= 0x80_0000 && !h.y.is_nan_spec() ==> near_enough(
                h.y,
                cy,
                search,
                w_diam,
                diam,
                map_h,
            ) && (map_h <= 0x20_0000 ==> within_two_pixels(h.y, cy, search, w_diam, diam))
        },
{
    let found = search::hit_of(
        map,
        map_w,
        map_h,
        mm,
        mm_w,
        mm_h,
        matching,
        scale,
        cx,
        cy,
        search,
        diam,
    );
    if found is Some {
        let win = search::window_of(map_w, map_h, mm_w, scale, cx, cy, search, diam)->Some_0;
        let target = search::target_of(map, map_w, map_h, win)->Some_0;
        let tmpl = search::template_of(mm, mm_w, mm_h, diam, matching)->Some_0;
        let peak = correlate::best_place(target, win.tw as int, win.th as int, tmpl)->Some_0;
        let w_diam = convert::of_int(mm_w).times(scale);
        let reach = w_diam.times(Binary32::half());
        search::a_window_lies_on_the_map(map_w, map_h, mm_w, scale, cx, cy, search, diam);
        search::lemma_on_axis(
            cx.minus(search).minus(reach),
            cx.plus(search).plus(reach),
            map_w,
        );
        search::lemma_on_axis(
            cy.minus(search).minus(reach),
            cy.plus(search).plus(reach),
            map_h,
        );
        exact::lemma_of_int_exact(0);
        exact::lemma_of_u32(0);
        exact::lemma_of_u32(win.crop_w as int);
        exact::lemma_of_u32(win.crop_h as int);
        order::lemma_order_of_values(convert::of_int(0), Binary32::zero());
        assert(0 * pow2(149) == 0) by (nonlinear_arith);
        assert(win.crop_w > 0 && win.crop_h > 0);
        correlate::lemma_best_place_fits(target, win.tw, win.th, tmpl);
        search::lemma_template_is_wide(mm, mm_w, mm_h, diam, matching);
        let left = search::neighbour(target, win, tmpl, peak, -1, 0);
        let right = search::neighbour(target, win, tmpl, peak, 1, 0);
        let up = search::neighbour(target, win, tmpl, peak, 0, -1);
        let down = search::neighbour(target, win, tmpl, peak, 0, 1);
        search::lemma_parabola_top(left, peak.0, right);
        search::lemma_parabola_top(up, peak.0, down);
        let h = found->Some_0;
        if near_enough(h.x, cx, search, w_diam, diam, map_w) && map_w <= 0x20_0000 {
            lemma_within_two_pixels(h.x, cx, search, w_diam, diam, map_w);
        }
        if near_enough(h.y, cy, search, w_diam, diam, map_h) && map_h <= 0x20_0000 {
            lemma_within_two_pixels(h.y, cy, search, w_diam, diam, map_h);
        }
        if win.tw <= 0x80_0000 {
            lemma_hit_is_near(
                cx,
                search,
                w_diam,
                map_w,
                win.crop_w as int,
                win.tw as int,
                peak.1 as int,
                correlate::parabola_top(left, peak.0, right),
                diam,
            );
        }
        if win.th <= 0x80_0000 {
            lemma_hit_is_near(
                cy,
                search,
                w_diam,
                map_h,
                win.crop_h as int,
                win.th as int,
                peak.2 as int,
                correlate::parabola_top(up, peak.0, down),
                diam,
            );
        }
    }
}

} // verus!
