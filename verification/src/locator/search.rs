//! Correlation in a window of the full map.

use vstd::arithmetic::power2::*;
use vstd::prelude::*;

use crate::binary32::arith;
use crate::binary32::convert;
use crate::binary32::exact;
use crate::binary32::order;
use crate::binary32::pattern;
use crate::binary32::Binary32;
use crate::config::MatchingConfig;
use crate::locator::correlate;
use crate::locator::correlate::Peak;
use crate::locator::template;
use crate::locator::template::{Ring, Template};
use crate::pixels;
use crate::pixels::Gray8;

verus! {

/// A place on the map with its score.
#[derive(Clone, Copy, Debug, PartialEq, Eq, Structural)]
pub struct Hit {
    pub score: Binary32,
    pub x: Binary32,
    pub y: Binary32,
}

/// A window of the map: its upper left corner, its size in map pixels, and the
/// size at which it is searched.
#[derive(Clone, Copy, Debug, PartialEq, Eq, Structural)]
pub struct Window {
    pub x0: Binary32,
    pub y0: Binary32,
    pub crop_w: u32,
    pub crop_h: u32,
    pub tw: u32,
    pub th: u32,
}

/// The bytes as numbers.
pub open spec fn numbers(data: Seq<u8>) -> Seq<Binary32> {
    Seq::new(data.len(), |i: int| convert::of_int(data[i] as int))
}

/// The bytes as numbers.
pub fn to_numbers(data: &Vec<u8>) -> (r: Vec<Binary32>)
    ensures
        r@ == numbers(data@),
{
    let mut r: Vec<Binary32> = Vec::new();
    let mut i: usize = 0;
    while i < data.len()
        invariant
            0 <= i <= data@.len(),
            r@ == numbers(data@).take(i as int),
        decreases data@.len() - i,
    {
        r.push(Binary32::of_u32(data[i] as u32));
        i = i + 1;
        assert(r@ =~= numbers(data@).take(i as int));
    }
    assert(numbers(data@).take(i as int) =~= numbers(data@));
    r
}

/// The window of `search` map pixels around a template of `mm_w` minimap pixels
/// at `scale` centred on `(cx, cy)`, searched with a template of `diam` pixels.
/// There is none when the map does not hold the template, or the window gives
/// it no room to move.
pub open spec fn window_of(
    map_w: int,
    map_h: int,
    mm_w: int,
    scale: Binary32,
    cx: Binary32,
    cy: Binary32,
    search: Binary32,
    diam: int,
) -> Option<Window> {
    let w_diam = convert::of_int(mm_w).times(scale);
    let reach = w_diam.times(Binary32::half());
    let x0 = cx.minus(search).minus(reach).floor().max(Binary32::zero());
    let y0 = cy.minus(search).minus(reach).floor().max(Binary32::zero());
    let x1 = cx.plus(search).plus(reach).ceil().min(convert::of_int(map_w));
    let y1 = cy.plus(search).plus(reach).ceil().min(convert::of_int(map_h));
    let crop_w = x1.minus(x0).to_u32();
    let crop_h = y1.minus(y0).to_u32();
    let f = w_diam.over(convert::of_int(diam));
    let tw = convert::of_int(crop_w as int).over(f).round().to_u32();
    let th = convert::of_int(crop_h as int).over(f).round().to_u32();
    if convert::of_int(crop_w as int).lt(w_diam) || convert::of_int(crop_h as int).lt(w_diam) {
        None
    } else if tw <= diam || th <= diam {
        None
    } else {
        Some(Window { x0, y0, crop_w, crop_h, tw, th })
    }
}

/// The window around a place in which a template is looked for.
pub fn search_window(
    map_w: u32,
    map_h: u32,
    mm_w: u32,
    scale: Binary32,
    cx: Binary32,
    cy: Binary32,
    search: Binary32,
    diam: u32,
) -> (r: Option<Window>)
    ensures
        r == window_of(
            map_w as int,
            map_h as int,
            mm_w as int,
            scale,
            cx,
            cy,
            search,
            diam as int,
        ),
{
    let w_diam: Binary32 = Binary32::of_u32(mm_w).times(scale);
    let reach: Binary32 = w_diam.times(Binary32::half());
    let x0: Binary32 = cx.minus(search).minus(reach).floor().max(Binary32::zero());
    let y0: Binary32 = cy.minus(search).minus(reach).floor().max(Binary32::zero());
    let x1: Binary32 = cx.plus(search).plus(reach).ceil().min(Binary32::of_u32(map_w));
    let y1: Binary32 = cy.plus(search).plus(reach).ceil().min(Binary32::of_u32(map_h));
    let crop_w: u32 = x1.minus(x0).to_u32();
    let crop_h: u32 = y1.minus(y0).to_u32();
    if Binary32::of_u32(crop_w).lt(w_diam) || Binary32::of_u32(crop_h).lt(w_diam) {
        return None;
    }
    let f: Binary32 = w_diam.over(Binary32::of_u32(diam));
    let tw: u32 = Binary32::of_u32(crop_w).over(f).round().to_u32();
    let th: u32 = Binary32::of_u32(crop_h).over(f).round().to_u32();
    if tw <= diam || th <= diam {
        return None;
    }
    Some(Window { x0, y0, crop_w, crop_h, tw, th })
}

/// The score one step from the best place, or its own where the step would
/// leave the picture.
pub open spec fn neighbour(
    target: Seq<Binary32>,
    win: Window,
    tmpl: Ring,
    peak: Peak,
    dx: int,
    dy: int,
) -> Binary32 {
    let x = peak.1 + dx;
    let y = peak.2 + dy;
    if 0 <= x && 0 <= y && x + tmpl.diam <= win.tw && y + tmpl.diam <= win.th {
        correlate::score(target, win.tw as int, tmpl, x, y)
    } else {
        peak.0
    }
}

/// The map place of the best place in a window, between pixels.
pub open spec fn place_of(target: Seq<Binary32>, win: Window, tmpl: Ring, peak: Peak) -> Hit {
    let dx = correlate::parabola_top(
        neighbour(target, win, tmpl, peak, -1, 0),
        peak.0,
        neighbour(target, win, tmpl, peak, 1, 0),
    );
    let dy = correlate::parabola_top(
        neighbour(target, win, tmpl, peak, 0, -1),
        peak.0,
        neighbour(target, win, tmpl, peak, 0, 1),
    );
    let fx = convert::of_int(win.crop_w as int).over(convert::of_int(win.tw as int));
    let fy = convert::of_int(win.crop_h as int).over(convert::of_int(win.th as int));
    let middle = convert::of_int(tmpl.diam).minus(Binary32::one()).times(Binary32::half());
    let tcx = convert::of_int(peak.1 as int).plus(dx).plus(middle);
    let tcy = convert::of_int(peak.2 as int).plus(dy).plus(middle);
    Hit { score: peak.0, x: win.x0.plus(tcx.times(fx)), y: win.y0.plus(tcy.times(fy)) }
}

/// The map place of the best place in a window, between pixels.
pub fn peak_to_map(target: &Vec<Binary32>, win: &Window, tmpl: &Template, peak: Peak) -> (r: Hit)
    requires
        tmpl.wf(),
        target@.len() == win.tw * win.th,
        peak.1 + tmpl.diam <= win.tw,
        peak.2 + tmpl.diam <= win.th,
    ensures
        r == place_of(target@, *win, tmpl@, peak),
{
    let (s0, bx, by) = peak;
    let d: u64 = tmpl.diam as u64;
    let sxm: Binary32 = if bx > 0 {
        correlate::zncc_at(target, win.tw, win.th, tmpl, bx - 1, by)
    } else {
        s0
    };
    let sxp: Binary32 = if (bx as u64) + 1 + d <= win.tw as u64 {
        correlate::zncc_at(target, win.tw, win.th, tmpl, bx + 1, by)
    } else {
        s0
    };
    let sym: Binary32 = if by > 0 {
        correlate::zncc_at(target, win.tw, win.th, tmpl, bx, by - 1)
    } else {
        s0
    };
    let syp: Binary32 = if (by as u64) + 1 + d <= win.th as u64 {
        correlate::zncc_at(target, win.tw, win.th, tmpl, bx, by + 1)
    } else {
        s0
    };
    let dx: Binary32 = correlate::parabolic(sxm, s0, sxp);
    let dy: Binary32 = correlate::parabolic(sym, s0, syp);
    let fx: Binary32 = Binary32::of_u32(win.crop_w).over(Binary32::of_u32(win.tw));
    let fy: Binary32 = Binary32::of_u32(win.crop_h).over(Binary32::of_u32(win.th));
    let middle: Binary32 = Binary32::of_u32(tmpl.diam).minus(Binary32::one()).times(
        Binary32::half(),
    );
    let tcx: Binary32 = Binary32::of_u32(bx).plus(dx).plus(middle);
    let tcy: Binary32 = Binary32::of_u32(by).plus(dy).plus(middle);
    Hit { score: s0, x: win.x0.plus(tcx.times(fx)), y: win.y0.plus(tcy.times(fy)) }
}

/// The template of the minimap at a diameter of `diam` pixels. There is none
/// where the minimap cannot be resampled to that size.
pub open spec fn template_of(
    mm: Seq<u8>,
    mm_w: int,
    mm_h: int,
    diam: int,
    matching: MatchingConfig,
) -> Option<Ring> {
    if pixels::resizable(mm_w, mm_h, diam, diam, 1) {
        Some(
            template::ring_of(
                pixels::triangle_gray(mm, mm_w, mm_h, diam, diam),
                diam,
                matching.inner_ratio,
                matching.center_exclude_ratio,
            ),
        )
    } else {
        None
    }
}

/// The template of the minimap at a diameter of `diam` pixels.
pub fn build_template(mm: &Gray8, diam: u32, matching: &MatchingConfig) -> (r: Option<Template>)
    requires
        mm.wf(),
    ensures
        r is Some <==> template_of(
            mm.data@,
            mm.width as int,
            mm.height as int,
            diam as int,
            *matching,
        ) is Some,
        r matches Some(t) ==> t.wf() && t.diam == diam && template_of(
            mm.data@,
            mm.width as int,
            mm.height as int,
            diam as int,
            *matching,
        ) == Some(t@),
{
    if !pixels::can_resize(mm.width, mm.height, diam, diam, 1) {
        return None;
    }
    let t: Gray8 = pixels::resize_gray(mm, diam, diam);
    Some(template::ring_template(&t, matching.inner_ratio, matching.center_exclude_ratio))
}

/// The part of the map in a window, at the size at which it is searched. There
/// is none where it cannot be resampled to that size.
pub open spec fn target_of(map: Seq<u8>, map_w: int, map_h: int, win: Window) -> Option<
    Seq<Binary32>,
> {
    let cols = pixels::visible(win.x0.to_u32() as int, win.crop_w as int, map_w);
    let rows = pixels::visible(win.y0.to_u32() as int, win.crop_h as int, map_h);
    if pixels::resizable(cols.1, rows.1, win.tw as int, win.th as int, 1) {
        Some(
            numbers(
                pixels::triangle_gray(
                    pixels::window_gray(map, map_w, cols, rows),
                    cols.1,
                    rows.1,
                    win.tw as int,
                    win.th as int,
                ),
            ),
        )
    } else {
        None
    }
}

/// The best place of the minimap in the window around `(cx, cy)`.
pub open spec fn hit_of(
    map: Seq<u8>,
    map_w: int,
    map_h: int,
    mm: Seq<u8>,
    mm_w: int,
    mm_h: int,
    matching: MatchingConfig,
    scale: Binary32,
    cx: Binary32,
    cy: Binary32,
    search: Binary32,
    diam: int,
) -> Option<Hit> {
    match window_of(map_w, map_h, mm_w, scale, cx, cy, search, diam) {
        None => None,
        Some(win) => match target_of(map, map_w, map_h, win) {
            None => None,
            Some(target) => match template_of(mm, mm_w, mm_h, diam, matching) {
                None => None,
                Some(tmpl) => match correlate::best_place(
                    target,
                    win.tw as int,
                    win.th as int,
                    tmpl,
                ) {
                    None => None,
                    Some(peak) => Some(place_of(target, win, tmpl, peak)),
                },
            },
        },
    }
}

/// The best place of the minimap in the window around `(cx, cy)`.
pub fn ncc_search(
    map: &Gray8,
    mm: &Gray8,
    matching: &MatchingConfig,
    scale: Binary32,
    cx: Binary32,
    cy: Binary32,
    search: Binary32,
    diam: u32,
) -> (r: Option<Hit>)
    requires
        map.wf(),
        mm.wf(),
    ensures
        r == hit_of(
            map.data@,
            map.width as int,
            map.height as int,
            mm.data@,
            mm.width as int,
            mm.height as int,
            *matching,
            scale,
            cx,
            cy,
            search,
            diam as int,
        ),
{
    let win: Window = match search_window(
        map.width,
        map.height,
        mm.width,
        scale,
        cx,
        cy,
        search,
        diam,
    ) {
        Some(w) => w,
        None => {
            return None;
        },
    };
    let part: Gray8 = pixels::crop_gray(
        map,
        win.x0.to_u32(),
        win.y0.to_u32(),
        win.crop_w,
        win.crop_h,
    );
    if !pixels::can_resize(part.width, part.height, win.tw, win.th, 1) {
        return None;
    }
    let resized: Gray8 = pixels::resize_gray(&part, win.tw, win.th);
    let target: Vec<Binary32> = to_numbers(&resized.data);
    let tmpl: Template = match build_template(mm, diam, matching) {
        Some(t) => t,
        None => {
            return None;
        },
    };
    match correlate::best_in_image(&target, win.tw, win.th, &tmpl) {
        Some(peak) => Some(peak_to_map(&target, &win, &tmpl, peak)),
        None => None,
    }
}

/// A window along one axis of `n` pixels starts and ends on it, unless it is
/// empty.
pub proof fn lemma_on_axis(low: Binary32, high: Binary32, n: int)
    requires
        0 <= n <= 0x100_0000,
    ensures
        ({
            let x0 = low.floor().max(Binary32::zero());
            let x1 = high.ceil().min(convert::of_int(n));
            let len = x1.minus(x0).to_u32();
            len > 0 ==> {
                &&& x0.to_u32() + len <= n
                &&& x0.is_finite_spec()
                &&& x0.value() == x0.to_u32() * pow2(149)
                &&& x1.is_finite_spec()
                &&& x1.value() == (x0.to_u32() + len) * pow2(149)
            }
        }),
{
    let one = pow2(149) as int;
    let x0 = low.floor().max(Binary32::zero());
    let x1 = high.ceil().min(convert::of_int(n));
    lemma_pow2_pos(149);
    exact::lemma_of_int_exact(n);
    exact::lemma_of_u32(n);
    exact::lemma_of_int_exact(0x100_0000);
    exact::lemma_of_u32(0x100_0000);
    let top = convert::of_int(0x100_0000);
    order::lemma_order_of_values(convert::of_int(n), top);
    assert(n * one <= 0x100_0000 * one && 0 <= n * one) by (nonlinear_arith)
        requires
            0 <= n <= 0x100_0000,
            one > 0,
    ;
    // The start is a whole number, or at least 2^24.
    let a = lemma_start(low);
    // The end is a whole number of at most n, or not above zero.
    let b = lemma_end(high, n);
    let zero = Binary32::zero();
    assert(zero.value() == 0);
    exact::lemma_negated(x0);
    if x1.le(zero) || a > 0x100_0000 {
        lemma_no_length(x0, x1, top);
    } else {
        assert(x0.is_finite_spec() && x1.is_finite_spec());
        assert(b * one + -(a * one) == (b - a) * one) by (nonlinear_arith);
        exact::lemma_plus_exact(x1, x0.negated(), b - a, 149);
        let d = x1.minus(x0);
        if b >= a {
            exact::lemma_to_u32_exact(d, b - a);
            exact::lemma_to_u32_exact(x0, a);
        } else {
            assert((b - a) * one <= 0) by (nonlinear_arith)
                requires
                    b < a,
                    one > 0,
            ;
            order::lemma_order_of_values(d, zero);
            exact::lemma_not_above_zero_to_u32(d);
        }
    }
}

/// Where a window starts.
pub proof fn lemma_start(low: Binary32) -> (a: int)
    ensures
        ({
            let x0 = low.floor().max(Binary32::zero());
            &&& a >= 0
            &&& !x0.is_nan_spec() && x0.ge(Binary32::zero())
            &&& a <= 0x100_0000 ==> x0.is_finite_spec() && x0.value() == a * pow2(149)
            &&& a > 0x100_0000 ==> x0.ge(convert::of_int(0x100_0000))
        }),
{
    let zero = Binary32::zero();
    let f = low.floor();
    assert(zero.value() == 0);
    assert(0 * pow2(149) == 0) by (nonlinear_arith);
    exact::lemma_of_u32(0x100_0000);
    if low.is_nan_spec() {
        assert(f.is_nan_spec());
        0
    } else if low.is_infinite_spec() {
        if low.is_negative() {
            0
        } else {
            0x100_0001
        }
    } else if low.is_negative() {
        exact::lemma_negative_floor(low);
        0
    } else {
        let k = exact::lemma_whole_or_large(low);
        k.0
    }
}

/// Where a window ends.
pub proof fn lemma_end(high: Binary32, n: int) -> (b: int)
    requires
        0 <= n <= 0x100_0000,
    ensures
        ({
            let x1 = high.ceil().min(convert::of_int(n));
            &&& !x1.is_nan_spec()
            &&& x1.le(convert::of_int(n))
            &&& b <= n
            &&& x1.le(Binary32::zero()) || (b >= 0 && x1.is_finite_spec() && x1.value() == b
                * pow2(149))
        }),
{
    let one = pow2(149) as int;
    let c = high.ceil();
    let last = convert::of_int(n);
    exact::lemma_of_int_exact(n);
    exact::lemma_of_u32(n);
    exact::lemma_of_u32(0x100_0000);
    exact::lemma_of_int_exact(0x100_0000);
    lemma_pow2_pos(149);
    if high.is_nan_spec() {
        assert(c.is_nan_spec());
        n
    } else if high.is_infinite_spec() {
        n
    } else if high.is_negative() {
        exact::lemma_negative_ceil(high);
        n
    } else {
        let k = exact::lemma_whole_or_large(high);
        if k.1 <= 0x100_0000 {
            order::lemma_order_of_values(last, c);
            if k.1 <= n {
                assert(k.1 * one <= n * one) by (nonlinear_arith)
                    requires
                        k.1 <= n,
                        one > 0,
                ;
                k.1
            } else {
                assert(n * one < k.1 * one) by (nonlinear_arith)
                    requires
                        n < k.1,
                        one > 0,
                ;
                n
            }
        } else {
            let top = convert::of_int(0x100_0000);
            order::lemma_order_of_values(last, top);
            assert(n * one <= 0x100_0000 * one) by (nonlinear_arith)
                requires
                    n <= 0x100_0000,
                    one > 0,
            ;
            n
        }
    }
}

/// A window that ends before it starts has no length.
proof fn lemma_no_length(x0: Binary32, x1: Binary32, top: Binary32)
    requires
        !x0.is_nan_spec(),
        !x1.is_nan_spec(),
        x0.ge(Binary32::zero()),
        top.is_finite_spec(),
        x1.le(top),
        x1.le(Binary32::zero()) || x0.ge(top),
    ensures
        x1.minus(x0).to_u32() == 0,
{
    let zero = Binary32::zero();
    let d = x1.minus(x0);
    exact::lemma_negated(x0);
    assert(zero.value() == 0);
    if x0.is_finite_spec() && x1.is_finite_spec() {
        order::lemma_order_of_values(x1, zero);
        order::lemma_order_of_values(zero, x0);
        order::lemma_order_of_values(x1, top);
        order::lemma_order_of_values(top, x0);
        exact::lemma_plus_keeps_order(x1, x0.negated(), zero);
    } else {
        reveal(Binary32::plus_spec);
    }
    exact::lemma_not_above_zero_to_u32(d);
}

/// A window lies on the map: none of it is cut off.
pub proof fn a_window_lies_on_the_map(
    map_w: int,
    map_h: int,
    mm_w: int,
    scale: Binary32,
    cx: Binary32,
    cy: Binary32,
    search: Binary32,
    diam: int,
)
    requires
        0 <= map_w <= 0x100_0000,
        0 <= map_h <= 0x100_0000,
        convert::of_int(mm_w).times(scale).gt(Binary32::zero()),
    ensures
        window_of(map_w, map_h, mm_w, scale, cx, cy, search, diam) matches Some(win) ==> {
            &&& win.x0.to_u32() + win.crop_w <= map_w
            &&& win.y0.to_u32() + win.crop_h <= map_h
        },
{
    let w_diam = convert::of_int(mm_w).times(scale);
    let reach = w_diam.times(Binary32::half());
    lemma_on_axis(cx.minus(search).minus(reach), cx.plus(search).plus(reach), map_w);
    lemma_on_axis(cy.minus(search).minus(reach), cy.plus(search).plus(reach), map_h);
    exact::lemma_of_int_exact(0);
    exact::lemma_of_u32(0);
    order::lemma_order_of_values(convert::of_int(0), Binary32::zero());
    assert(0 * pow2(149) == 0) by (nonlinear_arith);
}

/// The top of a parabola is within one step, unless it is no number.
pub proof fn lemma_parabola_top(sm: Binary32, s0: Binary32, sp: Binary32)
    ensures
        ({
            let t = correlate::parabola_top(sm, s0, sp);
            t.is_nan_spec() || (t.le(Binary32::one()) && t.ge(Binary32::one().negated()))
        }),
{
}

/// The place in a picture of a template that is `diam` wide at place `b`, along
/// one axis of `tw` pixels.
pub proof fn lemma_middle_of_template(b: int, dx: Binary32, diam: int, tw: int)
    requires
        0 <= b,
        3 <= diam,
        b + diam <= tw <= 0x80_0000,
        dx.le(Binary32::one()),
        dx.ge(Binary32::one().negated()),
    ensures
        ({
            let middle = convert::of_int(diam).minus(Binary32::one()).times(Binary32::half());
            let tc = convert::of_int(b).plus(dx).plus(middle);
            &&& tc.is_finite_spec()
            &&& tc.ge(Binary32::zero())
            &&& tc.value() <= (tw - 1) * pow2(149)
            &&& 2 * tc.value() >= (diam - 3) * pow2(149)
            &&& 2 * tc.value() <= (2 * tw - diam + 1) * pow2(149)
            &&& 2 * tc.value() >= (2 * b + diam - 3) * pow2(149)
            &&& 2 * tc.value() <= (2 * b + diam + 1) * pow2(149)
        }),
{
    let one = pow2(149) as int;
    let half = pow2(148) as int;
    lemma_pow2_pos(149);
    lemma_pow2_pos(148);
    lemma_pow2_unfold(149);
    exact::lemma_one_and_half();
    exact::lemma_of_int_exact(b);
    exact::lemma_of_int_exact(b - 1);
    exact::lemma_of_int_exact(b + 1);
    exact::lemma_of_int_exact(diam);
    exact::lemma_of_int_exact(tw - 1);
    exact::lemma_negated(Binary32::one());
    order::lemma_order_of_values(dx, Binary32::one());
    order::lemma_order_of_values(Binary32::one().negated(), dx);
    assert((b - 1) * one == b * one - one && (b + 1) * one == b * one + one) by (nonlinear_arith);
    let s = convert::of_int(b).plus(dx);
    exact::lemma_plus_keeps_order(convert::of_int(b), dx, convert::of_int(b - 1));
    exact::lemma_plus_keeps_order(convert::of_int(b), dx, convert::of_int(b + 1));
    assert(s.is_finite_spec());
    order::lemma_order_of_values(convert::of_int(b - 1), s);
    order::lemma_order_of_values(s, convert::of_int(b + 1));
    assert(diam * one + -one == (diam - 1) * one) by (nonlinear_arith);
    exact::lemma_plus_exact(
        convert::of_int(diam),
        Binary32::one().negated(),
        diam - 1,
        149,
    );
    let last = convert::of_int(diam).minus(Binary32::one());
    assert(((diam - 1) * one) * half == ((diam - 1) * half) * one) by (nonlinear_arith);
    exact::lemma_times_exact(last, Binary32::half(), diam - 1, 148);
    let middle = last.times(Binary32::half());
    assert((b - 1) * one + (diam - 1) * half >= 0) by (nonlinear_arith)
        requires
            b >= 0,
            diam >= 3,
            one == 2 * half,
            half > 0,
    ;
    assert((b + 1) * one + (diam - 1) * half <= (tw - 1) * one) by (nonlinear_arith)
        requires
            b + diam <= tw,
            diam >= 3,
            one == 2 * half,
            half > 0,
    ;
    let tc = s.plus(middle);
    assert(Binary32::zero().value() == 0);
    exact::lemma_plus_keeps_order(s, middle, Binary32::zero());
    exact::lemma_plus_keeps_order(s, middle, convert::of_int(tw - 1));
    exact::lemma_of_u32(tw - 1);
    order::lemma_order_of_values(tc, convert::of_int(tw - 1));
    let least = exact::pattern_for(2 * b + diam - 3, 148);
    let most = exact::pattern_for(2 * b + diam + 1, 148);
    let low = Binary32::of_bits(least as u32);
    let high = Binary32::of_bits(most as u32);
    assert(low.value() == (2 * b + diam - 3) * half);
    assert(high.value() == (2 * b + diam + 1) * half);
    assert((b - 1) * one + (diam - 1) * half == (2 * b + diam - 3) * half && (b + 1) * one + (diam
        - 1) * half == (2 * b + diam + 1) * half) by (nonlinear_arith)
        requires
            one == 2 * half,
    ;
    exact::lemma_plus_keeps_order(s, middle, low);
    exact::lemma_plus_keeps_order(s, middle, high);
    order::lemma_order_of_values(low, tc);
    order::lemma_order_of_values(tc, high);
    assert(2 * ((2 * b + diam - 3) * half) == (2 * b + diam - 3) * one && 2 * ((2 * b + diam + 1)
        * half) == (2 * b + diam + 1) * one) by (nonlinear_arith)
        requires
            one == 2 * half,
    ;
    assert(2 * ((2 * b + diam - 3) * half) >= (diam - 3) * one && 2 * ((2 * b + diam + 1) * half)
        <= (2 * tw - diam + 1) * one) by (nonlinear_arith)
        requires
            one == 2 * half,
            half > 0,
            b >= 0,
            b + diam <= tw,
    ;
}

/// Scaled by `len / tw`, a place of up to `tw - 1` is at most `len`.
pub proof fn lemma_scaled_place(tc: Binary32, len: int, tw: int)
    requires
        1 <= len <= 0x100_0000,
        1 <= tw <= 0x80_0000,
        tc.is_finite_spec(),
        tc.ge(Binary32::zero()),
        tc.value() <= (tw - 1) * pow2(149),
    ensures
        ({
            let f = convert::of_int(len).over(convert::of_int(tw));
            let p = tc.times(f);
            &&& p.is_finite_spec()
            &&& p.ge(Binary32::zero())
            &&& p.value() <= len * pow2(149)
            &&& 0 <= tc.value() * f.value() <= (len * pow2(149)) * pow2(149)
            &&& 0x100_0000 * (p.value() * pow2(149) - tc.value() * f.value()) <= tc.value()
                * f.value() + 0x100_0000 * pow2(149)
            &&& 0x100_0000 * (tc.value() * f.value() - p.value() * pow2(149)) <= tc.value()
                * f.value() + 0x100_0000 * pow2(149)
            &&& f.is_finite_spec() && f.value() >= 0
            &&& 0x100_0000 * (f.value() * tw - len * pow2(149)) <= len * pow2(149)
            &&& 0x100_0000 * (len * pow2(149) - f.value() * tw) <= len * pow2(149)
        }),
{
    reveal(Binary32::over_spec);
    reveal(Binary32::times_spec);
    let one = pow2(149) as int;
    lemma_pow2_pos(149);
    exact::lemma_of_int_exact(len);
    exact::lemma_of_int_exact(tw);
    exact::lemma_of_u32(len);
    exact::lemma_of_u32(tw);
    let n = (len * one) * one;
    let d = tw * one;
    assert(n >= 0 && d > 0) by (nonlinear_arith)
        requires
            n == (len * one) * one,
            d == tw * one,
            len >= 1,
            tw >= 1,
            one > 0,
    ;
    let q = pattern::nearest(n, d);
    exact::lemma_nearest_total(n, d);
    // The factor is from 2^-23 to 2^24.
    let low = 0x3400_0000int;
    lemma2_to64();
    lemma_pow2_adds(23, 103);
    lemma_pow2_adds(23, 126);
    let tiny = pow2(126) as int;
    assert(pattern::units(low) == tiny);
    assert(n >= tiny * d) by (nonlinear_arith)
        requires
            n == (len * one) * one,
            d == tw * one,
            one == 0x80_0000 * tiny,
            len >= 1,
            1 <= tw <= 0x80_0000,
            tiny > 0,
    ;
    exact::lemma_nearest_keeps_order(n, d, low);
    let top = convert::of_int(len).magnitude();
    assert(pattern::units(top) == len * one);
    assert(n <= (len * one) * d) by (nonlinear_arith)
        requires
            n == (len * one) * one,
            d == tw * one,
            tw >= 1,
            len >= 1,
            one > 0,
    ;
    exact::lemma_nearest_keeps_order(n, d, top);
    exact::lemma_step_is_small(q);
    exact::lemma_step_is_small(q + 1);
    let v = pattern::units(q - 1);
    let u = pattern::units(q);
    let w = pattern::units(q + 1);
    let all = len * one;
    assert((v + u) * tw <= 2 * all) by (nonlinear_arith)
        requires
            (v + u) * d <= 2 * n,
            n == all * one,
            d == tw * one,
            one > 0,
    ;
    assert(2 * all <= (u + w) * tw) by (nonlinear_arith)
        requires
            2 * n <= (u + w) * d,
            n == all * one,
            d == tw * one,
            one > 0,
    ;
    let vt = v * tw;
    let ut = u * tw;
    let wt = w * tw;
    assert((v + u) * tw == vt + ut && (u + w) * tw == ut + wt && 0x80_0000 * (ut - vt) <= vt
        && 0x80_0000 * (wt - ut) <= ut && 0 <= vt <= ut) by (nonlinear_arith)
        requires
            vt == v * tw,
            ut == u * tw,
            wt == w * tw,
            0x80_0000 * (u - v) <= v,
            0x80_0000 * (w - u) <= u,
            0 <= v < u,
            tw >= 1,
    ;
    assert(ut <= 0x80_0000 * u) by (nonlinear_arith)
        requires
            ut == u * tw,
            tw <= 0x80_0000,
            u >= 0,
    ;
    assert((tw - 1) * u == ut - u) by (nonlinear_arith)
        requires
            ut == u * tw,
    ;
    assert((tw - 1) * u <= all);
    // So is the product.
    let ut_c = pattern::units(tc.magnitude());
    arith::lemma_zero_magnitude(tc.magnitude());
    assert(ut_c == tc.value() || ut_c == 0);
    assert(0 <= (tw - 1) * one) by (nonlinear_arith)
        requires
            tw >= 1,
            one > 0,
    ;
    assert(0 <= ut_c * u && ut_c * u <= all * one) by (nonlinear_arith)
        requires
            0 <= ut_c <= (tw - 1) * one,
            (tw - 1) * u <= all,
            u >= 0,
            one > 0,
    ;
    exact::lemma_nearest_keeps_order(ut_c * u, one, top);
    exact::lemma_nearest_total(ut_c * u, one);
    let p = tc.times(convert::of_int(len).over(convert::of_int(tw)));
    let m = p.magnitude();
    assert(m == pattern::nearest(ut_c * u, one));
    if m < top {
        pattern::lemma_units_increase(m, top);
    }
    arith::lemma_zero_magnitude(m);
    if tc.magnitude() == 0 {
        assert(ut_c == 0);
        assert(0 * u == 0 && 0 * one == 0) by (nonlinear_arith);
        pattern::lemma_nearest_exact(0, one);
    }
    assert(tc.value() == ut_c);
    assert(p.value() == pattern::units(m));
    exact::lemma_nearest_close(ut_c * u, one);
    exact::lemma_nearest_close(n, d);
    assert(0x100_0000 * (u * tw - all) <= all && 0x100_0000 * (all - u * tw) <= all)
        by (nonlinear_arith)
        requires
            0x100_0000 * (u * d - n) <= n,
            0x100_0000 * (n - u * d) <= n,
            n == all * one,
            d == tw * one,
            one > 0,
    ;
}

/// Where a hit lies along one axis.
proof fn lemma_hit_in_window(
    x0: Binary32,
    len: int,
    n: int,
    tw: int,
    b: int,
    dx: Binary32,
    diam: int,
)
    requires
        0 < len,
        x0.is_finite_spec(),
        x0.value() == x0.to_u32() * pow2(149),
        x0.to_u32() + len <= n <= 0x100_0000,
        0 <= b,
        3 <= diam,
        b + diam <= tw <= 0x80_0000,
        dx.is_nan_spec() || (dx.le(Binary32::one()) && dx.ge(Binary32::one().negated())),
    ensures
        ({
            let middle = convert::of_int(diam).minus(Binary32::one()).times(Binary32::half());
            let tc = convert::of_int(b).plus(dx).plus(middle);
            let f = convert::of_int(len).over(convert::of_int(tw));
            let x = x0.plus(tc.times(f));
            !x.is_nan_spec() ==> x.ge(x0) && x.le(convert::of_int(x0.to_u32() + len))
        }),
{
    let middle = convert::of_int(diam).minus(Binary32::one()).times(Binary32::half());
    let tc = convert::of_int(b).plus(dx).plus(middle);
    let f = convert::of_int(len).over(convert::of_int(tw));
    if dx.is_nan_spec() {
        reveal(Binary32::plus_spec);
        reveal(Binary32::times_spec);
    } else {
        let one = pow2(149) as int;
        let a = x0.to_u32() as int;
        lemma_middle_of_template(b, dx, diam, tw);
        lemma_scaled_place(tc, len, tw);
        let p = tc.times(f);
        assert(Binary32::zero().value() == 0);
        order::lemma_order_of_values(Binary32::zero(), p);
        exact::lemma_of_int_exact(a + len);
        assert((a + len) * one == a * one + len * one) by (nonlinear_arith);
        exact::lemma_plus_keeps_order(x0, p, x0);
        exact::lemma_plus_keeps_order(x0, p, convert::of_int(a + len));
    }
}

/// A template with eight points is at least three pixels wide.
pub proof fn lemma_template_is_wide(
    mm: Seq<u8>,
    mm_w: int,
    mm_h: int,
    diam: int,
    matching: MatchingConfig,
)
    requires
        0 <= diam,
    ensures
        template_of(mm, mm_w, mm_h, diam, matching) matches Some(t) ==> t.diam == diam && (
        t.pts.len() >= 8 ==> diam >= 3),
{
    assert(0 <= diam * diam) by (nonlinear_arith);
    template::lemma_ring_fits(
        pixels::triangle_gray(mm, mm_w, mm_h, diam, diam),
        diam,
        matching.inner_ratio,
        matching.center_exclude_ratio,
        diam * diam,
    );
    if diam < 3 {
        assert(diam * diam < 8) by (nonlinear_arith)
            requires
                0 <= diam < 3,
        ;
    }
}

/// A hit lies in its window, and so on the map, unless it is no number, as far
/// as single precision tells the places of the window apart.
pub proof fn a_hit_lies_in_its_window(
    map: Seq<u8>,
    map_w: int,
    map_h: int,
    mm: Seq<u8>,
    mm_w: int,
    mm_h: int,
    matching: MatchingConfig,
    scale: Binary32,
    cx: Binary32,
    cy: Binary32,
    search: Binary32,
    diam: int,
)
    requires
        0 <= map_w <= 0x100_0000,
        0 <= map_h <= 0x100_0000,
        0 <= diam <= u32::MAX,
        convert::of_int(mm_w).times(scale).gt(Binary32::zero()),
    ensures
        hit_of(
            map,
            map_w,
            map_h,
            mm,
            mm_w,
            mm_h,
            matching,
            scale,
            cx,
            cy,
            search,
            diam,
        ) matches Some(h) ==> {
            let win = window_of(map_w, map_h, mm_w, scale, cx, cy, search, diam)->Some_0;
            &&& win.tw <= 0x80_0000 && !h.x.is_nan_spec() ==> {
                &&& h.x.ge(win.x0)
                &&& h.x.le(convert::of_int(win.x0.to_u32() + win.crop_w))
            }
            &&& win.th <= 0x80_0000 && !h.y.is_nan_spec() ==> {
                &&& h.y.ge(win.y0)
                &&& h.y.le(convert::of_int(win.y0.to_u32() + win.crop_h))
            }
            &&& win.x0.ge(Binary32::zero()) && win.x0.to_u32() + win.crop_w <= map_w
            &&& win.y0.ge(Binary32::zero()) && win.y0.to_u32() + win.crop_h <= map_h
        },
{
    let found = hit_of(
        map,
        map_w,
        map_h,
        mm,
        mm_w,
        mm_h,
        matching,
        scale,
        cx,
        cy,
        search,
        diam,
    );
    if found is Some {
        let win = window_of(map_w, map_h, mm_w, scale, cx, cy, search, diam)->Some_0;
        let target = target_of(map, map_w, map_h, win)->Some_0;
        let tmpl = template_of(mm, mm_w, mm_h, diam, matching)->Some_0;
        let peak = correlate::best_place(target, win.tw as int, win.th as int, tmpl)->Some_0;
        let w_diam = convert::of_int(mm_w).times(scale);
        let reach = w_diam.times(Binary32::half());
        a_window_lies_on_the_map(map_w, map_h, mm_w, scale, cx, cy, search, diam);
        lemma_on_axis(cx.minus(search).minus(reach), cx.plus(search).plus(reach), map_w);
        lemma_on_axis(cy.minus(search).minus(reach), cy.plus(search).plus(reach), map_h);
        lemma_start(cx.minus(search).minus(reach));
        lemma_start(cy.minus(search).minus(reach));
        exact::lemma_of_int_exact(0);
        exact::lemma_of_u32(0);
        order::lemma_order_of_values(convert::of_int(0), Binary32::zero());
        assert(0 * pow2(149) == 0) by (nonlinear_arith);
        assert(win.crop_w > 0 && win.crop_h > 0);
        correlate::lemma_best_place_fits(target, win.tw, win.th, tmpl);
        lemma_template_is_wide(mm, mm_w, mm_h, diam, matching);
        let dx = correlate::parabola_top(
            neighbour(target, win, tmpl, peak, -1, 0),
            peak.0,
            neighbour(target, win, tmpl, peak, 1, 0),
        );
        let dy = correlate::parabola_top(
            neighbour(target, win, tmpl, peak, 0, -1),
            peak.0,
            neighbour(target, win, tmpl, peak, 0, 1),
        );
        lemma_parabola_top(
            neighbour(target, win, tmpl, peak, -1, 0),
            peak.0,
            neighbour(target, win, tmpl, peak, 1, 0),
        );
        lemma_parabola_top(
            neighbour(target, win, tmpl, peak, 0, -1),
            peak.0,
            neighbour(target, win, tmpl, peak, 0, 1),
        );
        if win.tw <= 0x80_0000 {
            lemma_hit_in_window(
                win.x0,
                win.crop_w as int,
                map_w,
                win.tw as int,
                peak.1 as int,
                dx,
                diam,
            );
        }
        if win.th <= 0x80_0000 {
            lemma_hit_in_window(
                win.y0,
                win.crop_h as int,
                map_h,
                win.th as int,
                peak.2 as int,
                dy,
                diam,
            );
        }
    }
}

} // verus!
