//! What a window of the map shows.

use vstd::prelude::*;

use crate::binary32::close;
use crate::binary32::close::{one, size, FINE};
use crate::binary32::convert;
use crate::binary32::exact;
use crate::binary32::order;
use crate::binary32::Binary32;
use crate::locator::near;
use crate::locator::search;
use crate::locator::search::Window;
use crate::pixels;

verus! {

/// A finite number of at most `m`.
pub open spec fn is_within(a: Binary32, m: int) -> bool {
    a.is_finite_spec() && size(a.value()) <= m * one()
}

/// Along one axis of `n` pixels: the window of `len` pixels from `x0` on holds all
/// that is within `reach` of `c` and on the axis, but for rounding.
pub open spec fn holds_all(x0: Binary32, len: int, c: int, reach: int, n: int, m: int) -> bool {
    let first = x0.value();
    let past = (x0.to_u32() + len) * one();
    &&& x0.is_finite_spec()
    &&& first == 0 || FINE * (first - (c - reach)) <= (5 * m + 3) * one()
    &&& past == n * one() || FINE * ((c + reach) - past) <= (5 * m + 3) * one()
}

/// A number is not below its floor.
proof fn lemma_floor_is_not_above(s: Binary32)
    requires
        s.is_finite_spec(),
        size(s.value()) <= 0x100_0000 * one(),
    ensures
        ({
            let x = s.floor().max(Binary32::zero());
            x.is_finite_spec() ==> x.value() == 0 || x.value() <= s.value()
        }),
{
    let u = one();
    let zero = Binary32::zero();
    let x = s.floor().max(zero);
    close::lemma_one();
    crate::binary32::arith::lemma_zero_magnitude(s.magnitude());
    if s.is_negative() {
        exact::lemma_negative_floor(s);
        if x.is_finite_spec() {
            order::lemma_order_of_values(x, zero);
            order::lemma_order_of_values(zero, x);
        }
    } else {
        let k = exact::lemma_whole_or_large(s);
        let v = s.value();
        vstd::arithmetic::div_mod::lemma_fundamental_div_mod(v, u);
        vstd::arithmetic::div_mod::lemma_mod_bound(v, u);
        assert(u * k.0 == k.0 * u) by (nonlinear_arith);
        assert(k.0 <= 0x100_0000) by (nonlinear_arith)
            requires
                k.0 * u <= v,
                v <= 0x100_0000 * u,
                u > 0,
        ;
        order::lemma_order_of_values(zero, s.floor());
    }
}

/// A number is not above its ceiling.
proof fn lemma_ceil_is_not_below(s: Binary32, n: int)
    requires
        s.is_finite_spec(),
        size(s.value()) <= 0x80_0000 * one(),
        0 <= n <= 0x100_0000,
        s.ceil().min(convert::of_int(n)).is_finite_spec(),
        s.ceil().min(convert::of_int(n)).value() > 0,
    ensures
        ({
            let x = s.ceil().min(convert::of_int(n));
            x.value() == n * one() || x.value() >= s.value()
        }),
{
    let u = one();
    let zero = Binary32::zero();
    let last = convert::of_int(n);
    let x = s.ceil().min(last);
    close::lemma_one();
    exact::lemma_of_int_exact(n);
    crate::binary32::arith::lemma_zero_magnitude(s.magnitude());
    if s.is_negative() {
    } else {
        let k = exact::lemma_whole_or_large(s);
        let v = s.value();
        let w = v + u - 1;
        vstd::arithmetic::div_mod::lemma_fundamental_div_mod(w, u);
        vstd::arithmetic::div_mod::lemma_mod_bound(w, u);
        assert(u * k.1 == k.1 * u) by (nonlinear_arith);
        assert(k.1 <= 0x100_0000) by (nonlinear_arith)
            requires
                k.1 * u <= w,
                w <= 0x80_0001 * u,
                u > 0,
        ;
        order::lemma_order_of_values(s.ceil(), last);
    }
}

/// A window holds all that is searched along one axis.
proof fn lemma_holds_all(c: Binary32, search: Binary32, reach: Binary32, n: int, m: int)
    requires
        0 <= m <= 0x10_0000,
        is_within(c, m),
        is_within(search, m),
        is_within(reach, m),
        0 <= n <= 0x100_0000,
        ({
            let x0 = c.minus(search).minus(reach).floor().max(Binary32::zero());
            let x1 = c.plus(search).plus(reach).ceil().min(convert::of_int(n));
            x1.minus(x0).to_u32() > 0
        }),
    ensures
        ({
            let x0 = c.minus(search).minus(reach).floor().max(Binary32::zero());
            let x1 = c.plus(search).plus(reach).ceil().min(convert::of_int(n));
            holds_all(
                x0,
                x1.minus(x0).to_u32() as int,
                c.value(),
                search.value() + reach.value(),
                n,
                m,
            )
        }),
{
    let u = one();
    close::lemma_one();
    let low = c.minus(search).minus(reach);
    let high = c.plus(search).plus(reach);
    assert(m * u + m * u == (2 * m) * u && (2 * m + 1) * u + m * u == (3 * m + 1) * u && (2 * m + 1)
        * u + (3 * m + 2) * u == (5 * m + 3) * u) by (nonlinear_arith);
    close::lemma_difference_within(c, search, 2 * m);
    close::lemma_difference_within(c.minus(search), reach, 3 * m + 1);
    close::lemma_sum_within(c, search, 2 * m);
    close::lemma_sum_within(c.plus(search), reach, 3 * m + 1);
    assert((3 * m + 2) * u <= 0x80_0000 * u) by (nonlinear_arith)
        requires
            3 * m + 2 <= 0x80_0000,
            u > 0,
    ;
    search::lemma_on_axis(low, high, n);
    let x0 = low.floor().max(Binary32::zero());
    let x1 = high.ceil().min(convert::of_int(n));
    let len = x1.minus(x0).to_u32() as int;
    let past = x0.to_u32() + len;
    assert(past * u > 0) by (nonlinear_arith)
        requires
            past > 0,
            u > 0,
    ;
    lemma_floor_is_not_above(low);
    lemma_ceil_is_not_below(high, n);
}

/// A window holds every place of the map that is within the search and half of the
/// template of its middle, along each axis; and it is searched at as many pixels as
/// make the template as wide as asked for.
pub proof fn a_window_holds_all_that_is_searched(
    map_w: int,
    map_h: int,
    mm_w: int,
    scale: Binary32,
    cx: Binary32,
    cy: Binary32,
    search: Binary32,
    diam: int,
    m: int,
)
    requires
        0 <= map_w <= 0x100_0000,
        0 <= map_h <= 0x100_0000,
        3 <= diam,
        0 <= m <= 0x10_0000,
        is_within(cx, m),
        is_within(cy, m),
        is_within(search, m),
        convert::of_int(mm_w).times(scale).gt(Binary32::zero()),
        is_within(convert::of_int(mm_w).times(scale).times(Binary32::half()), m),
    ensures
        search::window_of(map_w, map_h, mm_w, scale, cx, cy, search, diam) matches Some(win) ==> {
            let w_diam = convert::of_int(mm_w).times(scale);
            let reach = search.value() + w_diam.times(Binary32::half()).value();
            &&& holds_all(win.x0, win.crop_w as int, cx.value(), reach, map_w, m)
            &&& holds_all(win.y0, win.crop_h as int, cy.value(), reach, map_h, m)
            &&& win.tw > diam
            &&& win.th > diam
            &&& win.tw <= 0x80_0000 ==> near::is_searched_at(
                win.crop_w as int,
                win.tw as int,
                w_diam.value(),
                diam,
            )
            &&& win.th <= 0x80_0000 ==> near::is_searched_at(
                win.crop_h as int,
                win.th as int,
                w_diam.value(),
                diam,
            )
        },
{
    if let Some(win) = search::window_of(map_w, map_h, mm_w, scale, cx, cy, search, diam) {
        let w_diam = convert::of_int(mm_w).times(scale);
        let reach = w_diam.times(Binary32::half());
        close::lemma_one();
        exact::lemma_of_int_exact(0);
        exact::lemma_of_u32(0);
        order::lemma_order_of_values(convert::of_int(0), Binary32::zero());
        assert(0 * vstd::arithmetic::power2::pow2(149) == 0) by (nonlinear_arith);
        assert(win.crop_w > 0 && win.crop_h > 0);
        search::a_window_lies_on_the_map(map_w, map_h, mm_w, scale, cx, cy, search, diam);
        lemma_holds_all(cx, search, reach, map_w, m);
        lemma_holds_all(cy, search, reach, map_h, m);
        exact::lemma_of_u32(win.crop_w as int);
        exact::lemma_of_u32(win.crop_h as int);
        if win.tw <= 0x80_0000 {
            near::lemma_pixels_of_the_template(w_diam, win.crop_w as int, win.tw as int, diam);
        }
        if win.th <= 0x80_0000 {
            near::lemma_pixels_of_the_template(w_diam, win.crop_h as int, win.th as int, diam);
        }
    }
}

/// What is searched is the picture of the window: its pixels are those of the map
/// from the window's first place on, column by column and row by row, brought to the
/// size at which it is searched.
pub proof fn a_window_shows_its_part_of_the_map(
    map: Seq<u8>,
    map_w: int,
    map_h: int,
    win: Window,
    part: Seq<u8>,
)
    requires
        win.x0.to_u32() + win.crop_w <= map_w,
        win.y0.to_u32() + win.crop_h <= map_h,
        part.len() == win.crop_w * win.crop_h,
        forall|i: int, j: int|
            #![trigger part[j * win.crop_w + i]]
            0 <= i < win.crop_w && 0 <= j < win.crop_h ==> part[j * win.crop_w + i] == map[(
            win.y0.to_u32() + j) * map_w + win.x0.to_u32() + i],
    ensures
        search::target_of(map, map_w, map_h, win) matches Some(target) ==> target
            == search::numbers(
            pixels::triangle_gray(
                part,
                win.crop_w as int,
                win.crop_h as int,
                win.tw as int,
                win.th as int,
            ),
        ),
{
    let cols = (win.x0.to_u32() as int, win.crop_w as int);
    let rows = (win.y0.to_u32() as int, win.crop_h as int);
    let cut = pixels::window_gray(map, map_w, cols, rows);
    let w = win.crop_w as int;
    let h = win.crop_h as int;
    if search::target_of(map, map_w, map_h, win) is Some {
        assert(w * h >= 0) by (nonlinear_arith)
            requires
                w >= 0,
                h >= 0,
        ;
        assert forall|k: int| 0 <= k < w * h implies cut[k] == part[k] by {
            let i = k % w;
            let j = k / w;
            if w == 0 {
                assert(w * h == 0) by (nonlinear_arith)
                    requires
                        w == 0,
                ;
            }
            vstd::arithmetic::div_mod::lemma_fundamental_div_mod(k, w);
            vstd::arithmetic::div_mod::lemma_mod_bound(k, w);
            vstd::arithmetic::div_mod::lemma_div_pos_is_pos(k, w);
            assert(w * j == j * w) by (nonlinear_arith);
            assert(j < h) by (nonlinear_arith)
                requires
                    j * w <= k,
                    k < w * h,
                    w > 0,
            ;
            assert(part[j * w + i] == map[(win.y0.to_u32() + j) * map_w + win.x0.to_u32() + i]);
        }
        assert(cut =~= part);
    }
}

/// The part of an axis of `n` pixels within `reach` of `c`.
pub open spec fn part_of(c: int, reach: int, n: int) -> int {
    let low = if c - reach > 0 {
        c - reach
    } else {
        0
    };
    let high = if c + reach < n * one() {
        c + reach
    } else {
        n * one()
    };
    high - low
}

/// There is room along an axis for a template of `diam` pixels that is `w` wide on the
/// map to move by more than a pixel, and its picture is not too large.
pub open spec fn has_room(c: int, reach: int, n: int, w: int, diam: int) -> bool {
    &&& diam * (part_of(c, reach, n) - 2 * one()) >= (diam + 2) * w
    &&& (n * diam) * one() <= 0x40_0000 * w
}

/// A window with room along an axis.
#[verifier::spinoff_prover]
#[verifier::rlimit(40)]
proof fn lemma_room(
    c: Binary32,
    search: Binary32,
    reach: Binary32,
    n: int,
    m: int,
    w_diam: Binary32,
    diam: int,
)
    requires
        0 <= m <= 0x10_0000,
        is_within(c, m),
        is_within(search, m),
        is_within(reach, m),
        1 <= n <= 0x100_0000,
        3 <= diam <= 0x8000,
        w_diam.is_finite_spec(),
        w_diam.gt(Binary32::zero()),
        one() <= 0x1_0000 * w_diam.value(),
        w_diam.value() <= 0x100_0000 * one(),
        has_room(c.value(), search.value() + reach.value(), n, w_diam.value(), diam),
    ensures
        ({
            let x0 = c.minus(search).minus(reach).floor().max(Binary32::zero());
            let x1 = c.plus(search).plus(reach).ceil().min(convert::of_int(n));
            let len = x1.minus(x0).to_u32();
            let tw = convert::of_int(len as int).over(
                w_diam.over(convert::of_int(diam)),
            ).round().to_u32();
            &&& !convert::of_int(len as int).lt(w_diam)
            &&& tw > diam
        }),
{
    let u = one();
    let e = FINE as int;
    close::lemma_one();
    let low = c.minus(search).minus(reach);
    let high = c.plus(search).plus(reach);
    let w = w_diam.value();
    assert(m * u + m * u == (2 * m) * u && (2 * m + 1) * u + m * u == (3 * m + 1) * u && (2 * m + 1)
        * u + (3 * m + 2) * u == (5 * m + 3) * u) by (nonlinear_arith);
    close::lemma_difference_within(c, search, 2 * m);
    close::lemma_difference_within(c.minus(search), reach, 3 * m + 1);
    close::lemma_sum_within(c, search, 2 * m);
    close::lemma_sum_within(c.plus(search), reach, 3 * m + 1);
    assert((3 * m + 2) * u <= 0x80_0000 * u && (5 * m + 3) * u <= 0x80_0000 * u) by (nonlinear_arith)
        requires
            5 * m + 3 <= 0x80_0000,
            m >= 0,
            u > 0,
    ;
    exact::lemma_of_int_exact(n);
    exact::lemma_of_int_exact(diam);
    let x0 = low.floor().max(Binary32::zero());
    let x1 = high.ceil().min(convert::of_int(n));
    order::lemma_order_of_values(Binary32::zero(), w_diam);
    let r = search.value() + reach.value();
    let part = part_of(c.value(), r, n);
    assert(part - 2 * u >= w && diam * (part - 2 * u) >= diam * w) by (nonlinear_arith)
        requires
            diam * (part - 2 * u) >= (diam + 2) * w,
            diam > 0,
            w > 0,
    ;
    // Where it starts and ends.
    let a = search::lemma_start(low);
    let b = search::lemma_end(high, n);
    lemma_floor_is_not_above(low);
    crate::binary32::arith::lemma_zero_magnitude(low.magnitude());
    assert(n * u <= 0x100_0000 * u) by (nonlinear_arith)
        requires
            n <= 0x100_0000,
            u > 0,
    ;
    lemma_start_is_small(low);
    exact::lemma_of_int_exact(0x100_0000);
    order::lemma_order_of_values(convert::of_int(0x100_0000), x0);
    assert(a <= 0x100_0000);
    assert(x0.value() == a * u);
    lemma_end_is_there(high, n);
    lemma_ceil_is_not_below(high, n);
    assert(x1.value() == b * u);
    // The length is the part, but for rounding.
    assert(b * u - a * u >= part - u);
    assert((b - a) * u == b * u - a * u && b * u + -(a * u) == (b - a) * u) by (nonlinear_arith);
    assert(0 < b - a <= 0x100_0000) by (nonlinear_arith)
        requires
            (b - a) * u > 0,
            b <= 0x100_0000,
            a >= 0,
            u > 0,
    ;
    exact::lemma_negated(x0);
    exact::lemma_plus_exact(x1, x0.negated(), b - a, 149);
    let len = b - a;
    exact::lemma_to_u32_exact(x1.minus(x0), len);
    exact::lemma_of_int_exact(len);
    exact::lemma_of_u32(len);
    order::lemma_order_of_values(convert::of_int(len), w_diam);
    // The size at which it is searched.
    let du = diam * u;
    assert(du > 0 && du <= 0x8000 * u && w * u <= (2 * close::ample()) * du) by (nonlinear_arith)
        requires
            du == diam * u,
            3 <= diam <= 0x8000,
            0 < w <= 0x100_0000 * u,
            u > 0,
            close::ample() >= 0x1_0000_0000_0000_0000 * u,
    ;
    close::lemma_quotient(w_diam, convert::of_int(diam));
    let fw = w_diam.over(convert::of_int(diam));
    let f = fw.value();
    let fd = f * diam;
    assert(f * du == fd * u && w * u + e * du == (w + e * diam) * u) by (nonlinear_arith)
        requires
            du == diam * u,
            fd == f * diam,
    ;
    close::lemma_cancelled(fd, w, w + e * diam, u);
    assert(e * diam <= w) by (nonlinear_arith)
        requires
            diam <= 0x8000,
            e == 0x100_0000,
            u <= 0x1_0000 * w,
            u >= 0x1_0000_0000_0000_0000,
    ;
    assert(f > 0 && 0x1_0000_0000 * f >= u) by (nonlinear_arith)
        requires
            e * (w - fd) <= 2 * w,
            fd == f * diam,
            diam <= 0x8000,
            diam > 0,
            u <= 0x1_0000 * w,
            e == 0x100_0000,
            u > 0,
    ;
    let lu = len * u;
    assert(0 < lu <= 0x100_0000 * u && lu * u <= (2 * close::ample()) * f) by (nonlinear_arith)
        requires
            lu == len * u,
            0 < len <= 0x100_0000,
            0x1_0000_0000 * f >= u,
            u > 0,
            close::ample() >= 0x1_0000_0000_0000_0000 * u,
    ;
    close::lemma_quotient(convert::of_int(len), fw);
    let g = convert::of_int(len).over(fw);
    let gv = g.value();
    // Not too large.
    let gf = gv * f;
    assert(e * size(gf - lu * u) <= lu * u + e * f);
    assert(lu * diam <= 0x40_0000 * w) by (nonlinear_arith)
        requires
            lu == len * u,
            len <= n,
            (n * diam) * u <= 0x40_0000 * w,
            diam > 0,
            u > 0,
    ;
    lemma_bounded(gv, f, fd, lu, w, diam, u);
    lemma_positive_quotient(convert::of_int(len), fw);
    let k = close::lemma_rounded(g);
    exact::lemma_to_u32_exact(g.round(), k);
    lemma_more(gv, f, fd, lu, w, diam, u, part);
    assert(k > diam) by (nonlinear_arith)
        requires
            2 * (k * u) >= 2 * gv - u,
            2 * gv >= (2 * diam + 2) * u,
            u > 0,
    ;
}

/// The size at which a window is searched is moderate.
proof fn lemma_bounded(g: int, f: int, fd: int, lu: int, w: int, diam: int, u: int)
    requires
        fd == f * diam,
        f > 0,
        diam > 0,
        w > 0,
        u >= 0x1_0000_0000_0000_0000,
        lu > 0,
        0x100_0000 * size(g * f - lu * u) <= lu * u + 0x100_0000 * f,
        0x100_0000 * size(fd - w) <= 2 * w,
        lu * diam <= 0x40_0000 * w,
    ensures
        g <= 0x80_0000 * u,
{
    let e = 0x100_0000int;
    let gf = g * f;
    if g > 0x80_0000 * u {
        assert(gf * diam > (0x80_0000 * u) * fd) by (nonlinear_arith)
            requires
                g > 0x80_0000 * u,
                gf == g * f,
                fd == f * diam,
                f > 0,
                diam > 0,
        ;
        let lud = (lu * diam) * u;
        assert(e * (gf * diam - lud) <= lud + e * fd) by (nonlinear_arith)
            requires
                e * (gf - lu * u) <= lu * u + e * f,
                lud == (lu * diam) * u,
                fd == f * diam,
                diam > 0,
        ;
        assert(lud <= (0x40_0000 * w) * u) by (nonlinear_arith)
            requires
                lud == (lu * diam) * u,
                lu * diam <= 0x40_0000 * w,
                u > 0,
        ;
        assert(4 * fd >= 3 * w);
        assert((0x80_0000 * u) * fd >= (0x60_0000 * u) * w && (0x40_0000 * w) * u == (0x40_0000 * u)
            * w && e * fd <= 2 * (e * w) && e * w <= u * w) by (nonlinear_arith)
            requires
                4 * fd >= 3 * w,
                fd <= 2 * w,
                u >= 0x1_0000_0000_0000_0000,
                e == 0x100_0000,
                w > 0,
        ;
        let uw = u * w;
        assert((0x60_0000 * u) * w == 0x60_0000 * uw && (0x40_0000 * u) * w == 0x40_0000 * uw)
            by (nonlinear_arith)
            requires
                uw == u * w,
        ;
        assert(uw > 0) by (nonlinear_arith)
            requires
                uw == u * w,
                u > 0,
                w > 0,
        ;
        assert(false);
    }
}

/// The size at which a window is searched is more than that of the template.
proof fn lemma_more(
    g: int,
    f: int,
    fd: int,
    lu: int,
    w: int,
    diam: int,
    u: int,
    part: int,
)
    requires
        fd == f * diam,
        f > 0,
        3 <= diam <= 0x8000,
        w > 0,
        u >= 0x1_0000_0000_0000_0000,
        lu >= part - u,
        diam * (part - 2 * u) >= (diam + 2) * w,
        0x100_0000 * size(g * f - lu * u) <= lu * u + 0x100_0000 * f,
        0x100_0000 * size(fd - w) <= 2 * w,
    ensures
        2 * g >= (2 * diam + 2) * u,
{
    let e = 0x100_0000int;
    let gf = g * f;
    let ld = lu * diam;
    assert(ld >= (diam + 2) * w) by (nonlinear_arith)
        requires
            ld == lu * diam,
            lu >= part - 2 * u,
            diam * (part - 2 * u) >= (diam + 2) * w,
            diam > 0,
    ;
    if 2 * g < (2 * diam + 2) * u {
        assert(gf * diam <= ((diam + 1) * u) * fd) by (nonlinear_arith)
            requires
                2 * g < (2 * diam + 2) * u,
                gf == g * f,
                fd == f * diam,
                f > 0,
                diam > 0,
        ;
        let lud = ld * u;
        assert(e * (lud - gf * diam) <= lud + e * fd) by (nonlinear_arith)
            requires
                e * (lu * u - gf) <= lu * u + e * f,
                lud == ld * u,
                ld == lu * diam,
                fd == f * diam,
                diam > 0,
        ;
        // The template's width, times the sizes.
        let uw = u * w;
        assert(lud >= (diam + 2) * uw) by (nonlinear_arith)
            requires
                lud == ld * u,
                ld >= (diam + 2) * w,
                uw == u * w,
                u > 0,
        ;
        let ufd = u * fd;
        assert(e * ufd <= (e + 2) * uw && ((diam + 1) * u) * fd == (diam + 1) * ufd && e * fd <= uw)
            by (nonlinear_arith)
            requires
                e * (fd - w) <= 2 * w,
                ufd == u * fd,
                uw == u * w,
                fd <= 2 * w,
                u >= 0x1_0000_0000_0000_0000,
                e == 0x100_0000,
                w > 0,
        ;
        assert((e - 1) * lud <= e * ((diam + 1) * ufd) + uw);
        assert(e * ((diam + 1) * ufd) <= ((diam + 1) * (e + 2)) * uw) by (nonlinear_arith)
            requires
                e * ufd <= (e + 2) * uw,
                diam > 0,
        ;
        assert((e - 1) * lud >= ((e - 1) * (diam + 2)) * uw) by (nonlinear_arith)
            requires
                lud >= (diam + 2) * uw,
                e == 0x100_0000,
        ;
        assert(uw > 0) by (nonlinear_arith)
            requires
                uw == u * w,
                u > 0,
                w > 0,
        ;
        let left = (e - 1) * (diam + 2);
        let right = (diam + 1) * (e + 2) + 1;
        assert(left > right);
        assert(left * uw > right * uw && right * uw == ((diam + 1) * (e + 2)) * uw + uw)
            by (nonlinear_arith)
            requires
                left > right,
                uw > 0,
                right == (diam + 1) * (e + 2) + 1,
        ;
        assert(false);
    }
}

proof fn lemma_positive_quotient(a: Binary32, b: Binary32)
    requires
        a.is_finite_spec(),
        b.is_finite_spec(),
        a.value() > 0,
        b.value() > 0,
        a.over(b).is_finite_spec(),
    ensures
        !a.over(b).is_negative(),
{
    crate::binary32::arith::lemma_zero_magnitude(a.magnitude());
    crate::binary32::arith::lemma_zero_magnitude(b.magnitude());
    exact::lemma_quotient_not_negative(a, b);
}

/// A start that is not far is finite.
proof fn lemma_start_is_small(low: Binary32)
    requires
        low.is_finite_spec(),
        size(low.value()) <= 0x80_0000 * one(),
    ensures
        low.floor().max(Binary32::zero()).is_finite_spec(),
{
    let u = one();
    close::lemma_one();
    crate::binary32::arith::lemma_zero_magnitude(low.magnitude());
    if low.is_negative() {
        exact::lemma_negative_floor(low);
    } else {
        let k = exact::lemma_whole_or_large(low).0;
        let v = low.value();
        vstd::arithmetic::div_mod::lemma_fundamental_div_mod(v, u);
        vstd::arithmetic::div_mod::lemma_mod_bound(v, u);
        assert(u * k == k * u) by (nonlinear_arith);
        assert(k <= 0x80_0000) by (nonlinear_arith)
            requires
                k * u <= v,
                v <= 0x80_0000 * u,
                u > 0,
        ;
    }
}

/// An end that is past the start of the axis is finite and past it.
proof fn lemma_end_is_there(high: Binary32, n: int)
    requires
        high.is_finite_spec(),
        0 < high.value() <= 0x80_0000 * one(),
        1 <= n <= 0x100_0000,
    ensures
        high.ceil().min(convert::of_int(n)).is_finite_spec(),
        high.ceil().min(convert::of_int(n)).value() > 0,
{
    let u = one();
    close::lemma_one();
    exact::lemma_of_int_exact(n);
    crate::binary32::arith::lemma_zero_magnitude(high.magnitude());
    let k = exact::lemma_whole_or_large(high).1;
    let w = high.value() + u - 1;
    vstd::arithmetic::div_mod::lemma_fundamental_div_mod(w, u);
    vstd::arithmetic::div_mod::lemma_mod_bound(w, u);
    assert(u * k == k * u) by (nonlinear_arith);
    assert(1 <= k <= 0x80_0001) by (nonlinear_arith)
        requires
            k * u <= w,
            w < k * u + u,
            w >= u,
            w <= 0x80_0001 * u,
            u > 0,
    ;
    assert(k * u > 0 && n * u > 0) by (nonlinear_arith)
        requires
            k > 0,
            n > 0,
            u > 0,
    ;
    order::lemma_order_of_values(high.ceil(), convert::of_int(n));
}

/// There is a window wherever the map has room around the place for the template to
/// move by more than a pixel, along both axes.
pub proof fn there_is_a_window_where_there_is_room(
    map_w: int,
    map_h: int,
    mm_w: int,
    scale: Binary32,
    cx: Binary32,
    cy: Binary32,
    search: Binary32,
    diam: int,
    m: int,
)
    requires
        1 <= map_w <= 0x100_0000,
        1 <= map_h <= 0x100_0000,
        3 <= diam <= 0x8000,
        0 <= m <= 0x10_0000,
        is_within(cx, m),
        is_within(cy, m),
        is_within(search, m),
        is_within(convert::of_int(mm_w).times(scale).times(Binary32::half()), m),
        is_within(convert::of_int(mm_w).times(scale), 0x100_0000),
        convert::of_int(mm_w).times(scale).gt(Binary32::zero()),
        one() <= 0x1_0000 * convert::of_int(mm_w).times(scale).value(),
        ({
            let w_diam = convert::of_int(mm_w).times(scale);
            let reach = search.value() + w_diam.times(Binary32::half()).value();
            &&& has_room(cx.value(), reach, map_w, w_diam.value(), diam)
            &&& has_room(cy.value(), reach, map_h, w_diam.value(), diam)
        }),
    ensures
        search::window_of(map_w, map_h, mm_w, scale, cx, cy, search, diam) is Some,
{
    let w_diam = convert::of_int(mm_w).times(scale);
    let reach = w_diam.times(Binary32::half());
    lemma_room(cx, search, reach, map_w, m, w_diam, diam);
    lemma_room(cy, search, reach, map_h, m, w_diam, diam);
}

} // verus!
