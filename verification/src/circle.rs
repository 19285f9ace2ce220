//! Finding the round minimap in a picture of the whole client area.
//!
//! Edges vote along their gradient for the middles of the circles that they may
//! lie on, in the upper right part of the picture. The place with the most
//! votes is the middle, and the distance at which most edges face it is the
//! radius. When too few agree, the circle is placed by proportion.

use vstd::arithmetic::power2::*;
use vstd::prelude::*;

use crate::binary32::arith;
use crate::binary32::convert;
use crate::binary32::exact;
use crate::binary32::order;
use crate::binary32::pattern;
use crate::binary32::Binary32;
use crate::capture::MinimapCircle;
use crate::pixels;
use crate::pixels::{Gradient, Gray8, Rgb8, Shades};
use crate::text;

verus! {

/// `0.028`, `0.06` and `0.043` of the width: the least, the largest and the
/// usual radius.
pub const R_FRAC_MIN: u32 = 0x3ce5_6042;

pub const R_FRAC_MAX: u32 = 0x3d75_c28f;

pub const R_FRAC_DEFAULT: u32 = 0x3d30_20c5;

/// `0.014` of the width and `0.043` of the height: the usual margins.
pub const RIGHT_MARGIN: u32 = 0x3c65_6042;

pub const TOP_MARGIN: u32 = 0x3d30_20c5;

/// The middle lies right of `0.6` of the width and above half the height.
pub const ROI_X_FRAC: u32 = 0x3f19_999a;

pub const ROI_Y_FRAC: u32 = 0x3f00_0000;

/// `64`: a smaller picture is not searched.
pub const LEAST_SIDE: u32 = 0x4280_0000;

/// `800`: a wider picture is reduced to this width.
pub const WORK_WIDTH: u32 = 0x4448_0000;

/// No reduced picture is wider.
pub const WIDEST: u32 = 801;

/// `8`: the least side of the reduced picture.
pub const WORK_MIN: u32 = 0x4100_0000;

/// `4`: the least radius in the reduced picture.
pub const RADIUS_MIN: u32 = 0x4080_0000;

/// `80`: a weaker edge does not count.
pub const EDGE_MIN: u32 = 0x42a0_0000;

/// `0.7`: how far an edge must face the middle.
pub const FACING_MIN: u32 = 0x3f33_3333;

/// `0.000001`, which keeps a quotient defined.
pub const TINY: u32 = 0x3586_37bd;

/// A full turn in radians.
pub const TURN: u32 = 0x40c9_0fdb;

/// `0.12`: the least share of a circumference that must have voted.
pub const AGREEMENT_MIN: u32 = 0x3df5_c28f;

/// The circle placed by proportion in a client area of `cw` by `ch` pixels.
pub open spec fn usual(cw: int, ch: int) -> MinimapCircle {
    let w = convert::of_int(cw);
    let r = Binary32::of_bits(R_FRAC_DEFAULT).times(w).round().to_i32();
    let right = Binary32::of_bits(RIGHT_MARGIN).times(w).round().to_i32();
    let top = Binary32::of_bits(TOP_MARGIN).times(convert::of_int(ch)).round().to_i32();
    MinimapCircle { cx: (cw - right - r) as i32, cy: (top + r) as i32, r }
}

/// The circle placed by proportion.
pub fn fallback(cw: i32, ch: i32) -> (c: MinimapCircle)
    ensures
        c == usual(cw as int, ch as int),
        c.cx + c.r == cw - Binary32::of_bits(RIGHT_MARGIN).times(
            convert::of_int(cw as int),
        ).round().to_i32(),
        c.cy - c.r == Binary32::of_bits(TOP_MARGIN).times(
            convert::of_int(ch as int),
        ).round().to_i32(),
{
    proof {
        lemma_small_shares();
        exact::lemma_share(cw as int, Binary32::of_bits(R_FRAC_DEFAULT));
        exact::lemma_share(cw as int, Binary32::of_bits(RIGHT_MARGIN));
        exact::lemma_share(ch as int, Binary32::of_bits(TOP_MARGIN));
    }
    let w: Binary32 = Binary32::of_i32(cw);
    let r: i32 = Binary32::of_bits(R_FRAC_DEFAULT).times(w).round().to_i32();
    let right_margin: i32 = Binary32::of_bits(RIGHT_MARGIN).times(w).round().to_i32();
    let top_margin: i32 = Binary32::of_bits(TOP_MARGIN).times(
        Binary32::of_i32(ch),
    ).round().to_i32();
    MinimapCircle { cx: cw - right_margin - r, cy: top_margin + r, r }
}

proof fn lemma_small_shares()
    ensures
        ({
            let r = Binary32::of_bits(R_FRAC_DEFAULT);
            r.is_finite_spec() && !r.is_negative() && pattern::units(r.magnitude()) <= pow2(146)
        }),
        ({
            let r = Binary32::of_bits(RIGHT_MARGIN);
            r.is_finite_spec() && !r.is_negative() && pattern::units(r.magnitude()) <= pow2(146)
        }),
{
    let e = exact::pattern_for(1, 146);
    lemma2_to64();
    lemma_pow2_adds(23, 123);
    assert(pattern::units(0x3e00_0000) == 0x80_0000 * pow2(123));
    pattern::lemma_units_increase(R_FRAC_DEFAULT as int, 0x3e00_0000);
    pattern::lemma_units_increase(RIGHT_MARGIN as int, 0x3e00_0000);
}

/// The circle placed by proportion lies within the upper, the right and the left
/// edge of the client area.
pub proof fn the_usual_circle_keeps_within_the_corner(cw: int, ch: int)
    requires
        0 <= cw <= i32::MAX,
        0 <= ch <= i32::MAX,
    ensures
        ({
            let c = usual(cw, ch);
            c.r >= 0 && c.cx + c.r <= cw && c.cx - c.r >= 0 && c.cy - c.r >= 0
        }),
{
    lemma_small_shares();
    exact::lemma_share(cw, Binary32::of_bits(R_FRAC_DEFAULT));
    exact::lemma_share(cw, Binary32::of_bits(RIGHT_MARGIN));
    exact::lemma_share(ch, Binary32::of_bits(TOP_MARGIN));
    exact::lemma_share_is_a_third(cw, Binary32::of_bits(R_FRAC_DEFAULT));
    exact::lemma_share_is_a_third(cw, Binary32::of_bits(RIGHT_MARGIN));
}

/// How a picture is searched: its size reduced by `d`, the radii that are
/// tried, and the columns `wx0..=wx1` and rows `0..=wy1` that may hold the
/// middle.
#[derive(Clone, Copy, Debug, PartialEq, Eq, Structural)]
pub struct Search {
    pub d: Binary32,
    pub sw: u32,
    pub sh: u32,
    pub r_min: Binary32,
    pub r_max: Binary32,
    pub r_steps: i32,
    pub wx0: i32,
    pub wx1: i32,
    pub wy1: i32,
}

impl Search {
    pub open spec fn wf(&self) -> bool {
        &&& 0 <= self.wx0 < self.wx1 < self.sw <= WIDEST
        &&& 0 < self.wy1 < self.sh <= i32::MAX
        &&& self.r_steps >= 1
        &&& 3 * (self.sw * self.sh) <= isize::MAX
    }

    /// How many columns may hold the middle.
    pub open spec fn cols(&self) -> int {
        self.wx1 - self.wx0 + 1
    }

    /// How many places may hold the middle.
    pub open spec fn cells(&self) -> int {
        self.cols() * (self.wy1 + 1)
    }
}

/// How a picture of `w` by `h` pixels is searched. It is not when it is small,
/// when no place may hold the middle, when its rows are more than can be
/// counted with a sign in 32 bits, or when it cannot be resampled.
pub open spec fn search_of(w: int, h: int) -> Option<Search> {
    let cw = convert::of_int(w);
    let ch = convert::of_int(h);
    let width = Binary32::of_bits(WORK_WIDTH);
    let d = if cw.gt(width) {
        width.over(cw)
    } else {
        Binary32::one()
    };
    let sw = cw.times(d).round().max(Binary32::of_bits(WORK_MIN)).to_u32();
    let sh = ch.times(d).round().max(Binary32::of_bits(WORK_MIN)).to_u32();
    let r_min = Binary32::of_bits(R_FRAC_MIN).times(cw).times(d).max(
        Binary32::of_bits(RADIUS_MIN),
    );
    let r_max = Binary32::of_bits(R_FRAC_MAX).times(cw).times(d).max(r_min.plus(Binary32::one()));
    let steps = r_max.minus(r_min).ceil().to_i32();
    let wx0 = Binary32::of_bits(ROI_X_FRAC).times(convert::of_int(sw as int)).floor().max(
        Binary32::zero(),
    ).to_i32();
    let wx1 = convert::of_int(sw as int).minus(Binary32::one()).to_i32();
    let wy1 = Binary32::of_bits(ROI_Y_FRAC).times(convert::of_int(sh as int)).ceil().min(
        convert::of_int(sh as int).minus(Binary32::one()),
    ).to_i32();
    if cw.lt(Binary32::of_bits(LEAST_SIDE)) || ch.lt(Binary32::of_bits(LEAST_SIDE)) {
        None
    } else if !pixels::resizable(w, h, sw as int, sh as int, 3) {
        None
    } else if sh > i32::MAX || wx1 <= wx0 || wy1 <= 0 {
        None
    } else {
        Some(
            Search {
                d,
                sw,
                sh,
                r_min,
                r_max,
                r_steps: if steps < 1 {
                    1
                } else {
                    steps
                },
                wx0,
                wx1,
                wy1,
            },
        )
    }
}

/// One less than a whole number, as a whole number.
proof fn lemma_last(n: int)
    requires
        0 <= n <= 0x100_0000,
    ensures
        convert::of_int(n).minus(Binary32::one()).to_i32() == n - 1,
        !convert::of_int(n).minus(Binary32::one()).is_nan_spec(),
{
    let one = pow2(149) as int;
    exact::lemma_one_and_half();
    exact::lemma_of_int_exact(n);
    exact::lemma_negated(Binary32::one());
    assert(n * one + -one == (n - 1) * one) by (nonlinear_arith);
    exact::lemma_plus_exact(convert::of_int(n), Binary32::one().negated(), n - 1, 149);
    exact::lemma_to_i32_exact(convert::of_int(n).minus(Binary32::one()), n - 1);
}

/// The value of the width of a reduced picture.
proof fn lemma_width()
    ensures
        Binary32::of_bits(WORK_WIDTH) == convert::of_int(800),
        Binary32::of_bits(WORK_MIN) == convert::of_int(8),
        pattern::units(WORK_WIDTH as int) == 800 * pow2(149),
{
    lemma2_to64();
    lemma_pow2_adds(14, 135);
    lemma_pow2_adds(3, 149);
    lemma_pow2_adds(23, 129);
    assert(WORK_WIDTH as int / 0x80_0000 == 136 && WORK_WIDTH as int % 0x80_0000 == 0x48_0000);
    assert(0xc8_0000 * pow2(135) == 800 * (0x4000 * pow2(135))) by (nonlinear_arith);
    pattern::lemma_nearest_exact(WORK_WIDTH as int, 1);
    assert(WORK_MIN as int / 0x80_0000 == 130 && WORK_MIN as int % 0x80_0000 == 0);
    pattern::lemma_nearest_exact(WORK_MIN as int, 1);
}

/// A number of at most a whole number, rounded and held at or above another,
/// cuts to at most that whole number.
proof fn lemma_rounded_below(x: Binary32, least: int, k: int)
    requires
        x.ge(Binary32::zero()),
        x.le(convert::of_int(k)),
        0 <= least <= k <= 0x100_0000,
    ensures
        x.round().max(convert::of_int(least)).to_u32() <= k,
{
    let r = x.round().max(convert::of_int(least));
    lemma_round_keeps_order(x, convert::of_int(k));
    exact::lemma_round_whole(k);
    lemma_of_int_keeps_order(least, k);
    lemma_of_int_keeps_order(0, least);
    assert(r.le(convert::of_int(k)) && r.ge(Binary32::zero()));
    let one = pow2(149) as int;
    lemma_pow2_pos(149);
    let top = convert::of_int(k);
    exact::lemma_of_int_exact(k);
    exact::lemma_of_u32(k);
    arith::lemma_zero_magnitude(r.magnitude());
    if r.magnitude() < top.magnitude() {
        pattern::lemma_units_increase(r.magnitude(), top.magnitude());
    }
    let u = pattern::units(r.magnitude());
    vstd::arithmetic::div_mod::lemma_div_pos_is_pos(u, one);
    vstd::arithmetic::div_mod::lemma_div_is_ordered(u, k * one, one);
    vstd::arithmetic::div_mod::lemma_div_multiples_vanish(k, one);
    assert(k * one == one * k) by (nonlinear_arith);
}

/// A reduced picture is about 800 pixels wide.
proof fn lemma_work_width(w: int)
    requires
        0 <= w <= u32::MAX,
    ensures
        ({
            let cw = convert::of_int(w);
            let width = Binary32::of_bits(WORK_WIDTH);
            let d = if cw.gt(width) {
                width.over(cw)
            } else {
                Binary32::one()
            };
            cw.times(d).round().max(Binary32::of_bits(WORK_MIN)).to_u32() <= WIDEST
        }),
{
    let cw = convert::of_int(w);
    let width = Binary32::of_bits(WORK_WIDTH);
    lemma_width();
    exact::lemma_of_u32(w);
    if cw.gt(width) {
        lemma_reduced_width(w);
        lemma_rounded_below(cw.times(width.over(cw)), 8, 801);
    } else {
        exact::lemma_one_times(cw);
        lemma_of_int_keeps_order(800, 801);
        lemma_rounded_below(cw, 8, 801);
    }
}

/// A wide picture times its reduction.
proof fn lemma_reduced_width(w: int)
    requires
        0 <= w <= u32::MAX,
        convert::of_int(w).gt(Binary32::of_bits(WORK_WIDTH)),
    ensures
        ({
            let cw = convert::of_int(w);
            let p = cw.times(Binary32::of_bits(WORK_WIDTH).over(cw));
            p.ge(Binary32::zero()) && p.le(convert::of_int(801))
        }),
{
    let one = pow2(149) as int;
    let cw = convert::of_int(w);
    let d = Binary32::of_bits(WORK_WIDTH).over(cw);
    lemma_width();
    lemma_reduction(w);
    lemma_pow2_pos(149);
    exact::lemma_of_u32(w);
    exact::lemma_of_int_exact(801);
    exact::lemma_of_u32(801);
    reveal(Binary32::over_spec);
    reveal(Binary32::times_spec);
    let uw = pattern::units(cw.magnitude());
    arith::lemma_zero_magnitude(cw.magnitude());
    let n = (800 * one) * one;
    let q = pattern::nearest(n, uw);
    assert(n >= 0) by (nonlinear_arith)
        requires
            n == (800 * one) * one,
            one > 0,
    ;
    exact::lemma_nearest_total(n, uw);
    assert(d.magnitude() == q);
    exact::lemma_step_is_small(q);
    let u = pattern::units(q);
    let v = pattern::units(q - 1);
    let top = convert::of_int(801).magnitude();
    let a = u * uw;
    let b = v * uw;
    assert((v + u) * uw == b + a && 0x80_0000 * (a - b) <= b && b <= a && 0 <= b)
        by (nonlinear_arith)
        requires
            a == u * uw,
            b == v * uw,
            0x80_0000 * (u - v) <= v,
            0 <= v < u,
            uw > 0,
    ;
    assert(uw * u == a) by (nonlinear_arith)
        requires
            a == u * uw,
    ;
    assert((801 * one) * one == n + one * one && one * one >= 0 && n == 800 * (one * one))
        by (nonlinear_arith)
        requires
            n == (800 * one) * one,
    ;
    assert(a <= (801 * one) * one);
    exact::lemma_nearest_keeps_order(uw * u, one, top);
    exact::lemma_nearest_total(uw * u, one);
}

/// The lowest row that may hold the middle is a row.
proof fn lemma_lowest_row(sh: int)
    requires
        1 <= sh <= i32::MAX,
    ensures
        ({
            let low = Binary32::of_bits(ROI_Y_FRAC).times(convert::of_int(sh)).ceil();
            low.min(convert::of_int(sh).minus(Binary32::one())).to_i32() < sh
        }),
{
    let k = convert::of_int(sh);
    let last = k.minus(Binary32::one());
    let low = Binary32::of_bits(ROI_Y_FRAC).times(k).ceil();
    if sh <= 0x100_0000 {
        lemma_last(sh);
        exact::lemma_to_i32_keeps_order(low.min(last), last);
    } else {
        lemma_half_of_a_tall_picture(sh);
        exact::lemma_to_i32_keeps_order(low.min(last), low);
    }
}

/// Half of a large number of rows.
proof fn lemma_half_of_a_tall_picture(sh: int)
    requires
        0x100_0000 < sh <= i32::MAX,
    ensures
        ({
            let low = Binary32::of_bits(ROI_Y_FRAC).times(convert::of_int(sh)).ceil();
            !low.is_nan_spec() && low.to_i32() < sh
        }),
{
    reveal(Binary32::times_spec);
    let one = pow2(149) as int;
    let k = convert::of_int(sh);
    let half = Binary32::half();
    lemma_pow2_pos(149);
    lemma_pow2_unfold(149);
    lemma_pow2_pos(148);
    lemma_pow2_unfold(148);
    lemma_pow2_pos(147);
    exact::lemma_of_u32(sh);
    exact::lemma_one_and_half();
    let m = k.magnitude();
    let uk = pattern::units(m);
    assert(sh * one >= 0x100_0000 * one) by (nonlinear_arith)
        requires
            sh >= 0x100_0000,
            one > 0,
    ;
    exact::lemma_nearest_total(sh * one, 1);
    assert(m == pattern::nearest(sh * one, 1));
    exact::lemma_adds_a_third(sh * one);
    // Halving is exact.
    let r = m - 0x80_0000;
    let e = m / 0x80_0000;
    let f = m % 0x80_0000;
    assert(r / 0x80_0000 == e - 1 && r % 0x80_0000 == f);
    assert(e >= 127);
    lemma_pow2_unfold((e - 1) as nat);
    let g = pow2((e - 2) as nat) as int;
    assert((0x80_0000 + f) * (2 * g) == 2 * ((0x80_0000 + f) * g)) by (nonlinear_arith);
    let ur = pattern::units(r);
    assert(uk == 2 * ur);
    let p148 = pow2(148) as int;
    assert(p148 * uk == ur * one) by (nonlinear_arith)
        requires
            uk == 2 * ur,
            one == 2 * p148,
    ;
    pattern::lemma_nearest_exact(r, one);
    let x = half.times(k);
    assert(x.magnitude() == r && !x.is_negative());
    // So is its upper whole part, near enough.
    arith::lemma_zero_magnitude(r);
    let up = (ur + one - 1) / one;
    vstd::arithmetic::div_mod::lemma_fundamental_div_mod(ur + one - 1, one);
    vstd::arithmetic::div_mod::lemma_mod_bound(ur + one - 1, one);
    vstd::arithmetic::div_mod::lemma_div_pos_is_pos(ur + one - 1, one);
    assert(one * up == up * one) by (nonlinear_arith);
    assert(up * one <= ur + one);
    assert(3 * ur <= 2 * (sh * one));
    assert(up * one >= ur);
    assert(pattern::units(2) == 2);
    pattern::lemma_units_increase(2, r);
    exact::lemma_nearest_total(up * one, 1);
    let z = pattern::nearest(up * one, 1);
    let top = exact::pattern_for(1, 181);
    lemma2_to64();
    lemma_pow2_adds(32, 149);
    assert(up * one <= pow2(181)) by (nonlinear_arith)
        requires
            up * one <= ur + one,
            3 * ur <= 2 * (sh * one),
            sh <= 0x7fff_ffff,
            pow2(181) == 0x1_0000_0000 * one,
            one > 0,
    ;
    exact::lemma_nearest_keeps_order(up * one, 1, top);
    exact::lemma_adds_a_third(up * one);
    let uz = pattern::units(z);
    arith::lemma_zero_magnitude(z);
    let t = uz / one;
    vstd::arithmetic::div_mod::lemma_fundamental_div_mod(uz, one);
    vstd::arithmetic::div_mod::lemma_mod_bound(uz, one);
    vstd::arithmetic::div_mod::lemma_div_pos_is_pos(uz, one);
    assert(t < sh) by (nonlinear_arith)
        requires
            one * t <= uz,
            3 * uz <= 4 * (up * one),
            up * one <= ur + one,
            3 * ur <= 2 * (sh * one),
            sh > 0x100_0000,
            one > 0,
    ;
    assert(x.ceil().magnitude() == z);
}

/// How a picture of the given size is searched.
pub fn plan(w: u32, h: u32) -> (r: Option<Search>)
    ensures
        r == search_of(w as int, h as int),
        r matches Some(s) ==> s.wf() && pixels::resizable(
            w as int,
            h as int,
            s.sw as int,
            s.sh as int,
            3,
        ),
{
    let cw: Binary32 = Binary32::of_u32(w);
    let ch: Binary32 = Binary32::of_u32(h);
    if cw.lt(Binary32::of_bits(LEAST_SIDE)) || ch.lt(Binary32::of_bits(LEAST_SIDE)) {
        return None;
    }
    let width: Binary32 = Binary32::of_bits(WORK_WIDTH);
    let d: Binary32 = if cw.gt(width) {
        width.over(cw)
    } else {
        Binary32::one()
    };
    let sw: u32 = cw.times(d).round().max(Binary32::of_bits(WORK_MIN)).to_u32();
    let sh: u32 = ch.times(d).round().max(Binary32::of_bits(WORK_MIN)).to_u32();
    if !pixels::can_resize(w, h, sw, sh, 3) {
        return None;
    }
    let r_min: Binary32 = Binary32::of_bits(R_FRAC_MIN).times(cw).times(d).max(
        Binary32::of_bits(RADIUS_MIN),
    );
    let r_max: Binary32 = Binary32::of_bits(R_FRAC_MAX).times(cw).times(d).max(
        r_min.plus(Binary32::one()),
    );
    if sh > 0x7fff_ffff {
        return None;
    }
    let left: Binary32 = Binary32::of_bits(ROI_X_FRAC).times(Binary32::of_u32(sw)).floor();
    let low: Binary32 = Binary32::of_bits(ROI_Y_FRAC).times(Binary32::of_u32(sh)).ceil();
    let last: Binary32 = Binary32::of_u32(sh).minus(Binary32::one());
    let wx0: i32 = left.max(Binary32::zero()).to_i32();
    let wx1: i32 = Binary32::of_u32(sw).minus(Binary32::one()).to_i32();
    let wy1: i32 = low.min(last).to_i32();
    proof {
        exact::lemma_max_zero_to_i32(left);
        lemma_work_width(w as int);
        lemma_last(sw as int);
        lemma_least_height(h as int, d);
        lemma_lowest_row(sh as int);
    }
    if wx1 <= wx0 || wy1 <= 0 {
        return None;
    }
    let steps: i32 = r_max.minus(r_min).ceil().to_i32();
    Some(
        Search {
            d,
            sw,
            sh,
            r_min,
            r_max,
            r_steps: if steps < 1 {
                1
            } else {
                steps
            },
            wx0,
            wx1,
            wy1,
        },
    )
}

/// How strong an edge is.
pub open spec fn strength(gx: int, gy: int) -> Binary32 {
    let a = convert::of_int(gx);
    let b = convert::of_int(gy);
    a.times(a).plus(b.times(b)).sqrt()
}

/// How strong an edge is.
pub fn edge(gx: i16, gy: i16) -> (r: Binary32)
    ensures
        r == strength(gx as int, gy as int),
{
    let a: Binary32 = Binary32::of_i32(gx as i32);
    let b: Binary32 = Binary32::of_i32(gy as i32);
    a.times(a).plus(b.times(b)).sqrt()
}

/// The radius tried at a step.
pub open spec fn radius_at(s: Search, step: int) -> Binary32 {
    s.r_min.plus(convert::of_int(step))
}

/// Every step before the `n`th has a radius in range.
pub open spec fn in_range(s: Search, n: int) -> bool
    decreases n,
{
    n <= 0 || (in_range(s, n - 1) && !radius_at(s, n - 1).gt(s.r_max))
}

/// A pixel and its gradient.
pub struct Edge {
    pub x: int,
    pub y: int,
    pub gx: int,
    pub gy: int,
}

/// The place that an edge votes for at a radius, ahead of it or behind it.
pub open spec fn vote_of(s: Search, e: Edge, radius: Binary32, sign: Binary32) -> Option<int> {
    let mag = strength(e.gx, e.gy);
    let nx = convert::of_int(e.gx).over(mag);
    let ny = convert::of_int(e.gy).over(mag);
    let ix = convert::of_int(e.x).plus(sign.times(radius).times(nx)).round().to_i32();
    let iy = convert::of_int(e.y).plus(sign.times(radius).times(ny)).round().to_i32();
    if s.wx0 <= ix <= s.wx1 && 0 <= iy <= s.wy1 {
        Some(iy * s.cols() + (ix - s.wx0))
    } else {
        None
    }
}

/// How often a vote is for `cell`.
pub open spec fn counts(vote: Option<int>, cell: int) -> int {
    if vote == Some(cell) {
        1
    } else {
        0
    }
}

/// How often an edge votes for `cell` in the first `n` steps.
pub open spec fn ray(s: Search, e: Edge, cell: int, n: int) -> int
    decreases n,
{
    if n <= 0 {
        0
    } else if in_range(s, n) {
        ray(s, e, cell, n - 1) + counts(
            vote_of(s, e, radius_at(s, n - 1), Binary32::one()),
            cell,
        ) + counts(vote_of(s, e, radius_at(s, n - 1), Binary32::one().negated()), cell)
    } else {
        ray(s, e, cell, n - 1)
    }
}

/// How often an edge votes for `cell`.
pub open spec fn edge_votes(s: Search, e: Edge, cell: int) -> int {
    if strength(e.gx, e.gy).lt(Binary32::of_bits(EDGE_MIN)) {
        0
    } else {
        ray(s, e, cell, s.r_steps + 1)
    }
}

/// The `i`th pixel, row by row, with its gradient.
pub open spec fn edge_at(s: Search, gx: Seq<i16>, gy: Seq<i16>, i: int) -> Edge {
    Edge { x: i % (s.sw as int), y: i / (s.sw as int), gx: gx[i] as int, gy: gy[i] as int }
}

/// How often the first `n` pixels vote for `cell`.
pub open spec fn votes(s: Search, gx: Seq<i16>, gy: Seq<i16>, cell: int, n: int) -> int
    decreases n,
{
    if n <= 0 {
        0
    } else {
        votes(s, gx, gy, cell, n - 1) + edge_votes(s, edge_at(s, gx, gy, n - 1), cell)
    }
}

/// A count held in range.
pub open spec fn capped(k: int) -> u32 {
    if k > u32::MAX {
        u32::MAX
    } else {
        k as u32
    }
}

/// The votes for every place.
pub open spec fn tally(s: Search, gx: Seq<i16>, gy: Seq<i16>) -> Seq<u32> {
    Seq::new(s.cells() as nat, |c: int| capped(votes(s, gx, gy, c, s.sw * s.sh)))
}

/// Where the first of the highest of the first `n` counts is, and that count.
pub open spec fn top(counts: Seq<u32>, n: int) -> (int, u32)
    decreases n,
{
    if n <= 0 {
        (0, 0)
    } else {
        let before = top(counts, n - 1);
        if counts[n - 1] > before.1 {
            (n - 1, counts[n - 1])
        } else {
            before
        }
    }
}

/// The highest count stands at the place that `top` gives, and no count before
/// that place is as high, unless every count is zero.
pub proof fn top_is_the_first_of_the_highest(counts: Seq<u32>, n: int)
    requires
        0 <= n <= counts.len(),
    ensures
        forall|i: int| 0 <= i < n ==> counts[i] <= top(counts, n).1,
        top(counts, n).1 > 0 ==> {
            let t = top(counts, n);
            &&& 0 <= t.0 < n
            &&& counts[t.0] == t.1
            &&& forall|i: int| 0 <= i < t.0 ==> counts[i] < t.1
        },
        top(counts, n).1 == 0 ==> top(counts, n).0 == 0,
    decreases n,
{
    if n > 0 {
        top_is_the_first_of_the_highest(counts, n - 1);
    }
}

/// Where the first of the highest counts is, and that count.
pub fn highest(counts: &Vec<u32>) -> (r: (usize, u32))
    ensures
        r.0 as int == top(counts@, counts@.len() as int).0,
        r.1 == top(counts@, counts@.len() as int).1,
        counts@.len() > 0 ==> r.0 < counts@.len(),
{
    let mut best_i: usize = 0;
    let mut best_v: u32 = 0;
    let mut i: usize = 0;
    while i < counts.len()
        invariant
            0 <= i <= counts@.len(),
            best_i as int == top(counts@, i as int).0,
            best_v == top(counts@, i as int).1,
            i > 0 ==> best_i < i,
            i == 0 ==> best_i == 0,
        decreases counts@.len() - i,
    {
        if counts[i] > best_v {
            best_v = counts[i];
            best_i = i;
        }
        i = i + 1;
    }
    (best_i, best_v)
}

/// Counts the vote of an edge, given by its unit normal, at a radius.
fn cast_vote(
    acc: &mut Vec<u32>,
    s: &Search,
    x: i32,
    y: i32,
    nx: Binary32,
    ny: Binary32,
    radius: Binary32,
    sign: Binary32,
    Ghost(e): Ghost<Edge>,
)
    requires
        s.wf(),
        old(acc)@.len() == s.cells(),
        e.x == x,
        e.y == y,
        nx == convert::of_int(e.gx).over(strength(e.gx, e.gy)),
        ny == convert::of_int(e.gy).over(strength(e.gx, e.gy)),
    ensures
        final(acc)@.len() == old(acc)@.len(),
        forall|c: int|
            0 <= c < final(acc)@.len() ==> #[trigger] final(acc)@[c] == capped(
                old(acc)@[c] + counts(vote_of(*s, e, radius, sign), c),
            ),
{
    let ix: i32 = Binary32::of_i32(x).plus(sign.times(radius).times(nx)).round().to_i32();
    let iy: i32 = Binary32::of_i32(y).plus(sign.times(radius).times(ny)).round().to_i32();
    if ix >= s.wx0 && ix <= s.wx1 && iy >= 0 && iy <= s.wy1 {
        proof {
            pixels::lemma_index(ix - s.wx0, iy as int, s.cols(), s.wy1 + 1);
            assert(acc@.len() == acc.len());
        }
        let cols: usize = (s.wx1 - s.wx0 + 1) as usize;
        let at: usize = (iy as usize) * cols + ((ix - s.wx0) as usize);
        let n: u32 = acc[at];
        if n < u32::MAX {
            acc.set(at, n + 1);
        }
    }
}

/// Counts all votes of one pixel.
fn cast(acc: &mut Vec<u32>, s: &Search, x: i32, y: i32, gx: i16, gy: i16)
    requires
        s.wf(),
        old(acc)@.len() == s.cells(),
    ensures
        final(acc)@.len() == old(acc)@.len(),
        forall|c: int|
            0 <= c < final(acc)@.len() ==> #[trigger] final(acc)@[c] == capped(
                old(acc)@[c] + edge_votes(
                    *s,
                    Edge { x: x as int, y: y as int, gx: gx as int, gy: gy as int },
                    c,
                ),
            ),
{
    let ghost e = Edge { x: x as int, y: y as int, gx: gx as int, gy: gy as int };
    let mag: Binary32 = edge(gx, gy);
    if mag.lt(Binary32::of_bits(EDGE_MIN)) {
        return ;
    }
    let nx: Binary32 = Binary32::of_i32(gx as i32).over(mag);
    let ny: Binary32 = Binary32::of_i32(gy as i32).over(mag);
    let ghost before = acc@;
    let mut inside: bool = true;
    let mut step: i64 = 0;
    while step <= s.r_steps as i64
        invariant
            s.wf(),
            0 <= step <= s.r_steps + 1,
            acc@.len() == s.cells(),
            before.len() == acc@.len(),
            inside == in_range(*s, step as int),
            e == (Edge { x: x as int, y: y as int, gx: gx as int, gy: gy as int }),
            nx == convert::of_int(e.gx).over(strength(e.gx, e.gy)),
            ny == convert::of_int(e.gy).over(strength(e.gx, e.gy)),
            forall|c: int|
                0 <= c < acc@.len() ==> #[trigger] acc@[c] == capped(
                    before[c] + ray(*s, e, c, step as int),
                ),
        decreases s.r_steps + 1 - step,
    {
        proof {
            assert forall|c: int| 0 <= #[trigger] ray(*s, e, c, step as int) by {
                lemma_ray_not_negative(*s, e, c, step as int);
            }
        }
        if inside {
            let radius: Binary32 = s.r_min.plus(Binary32::of_i32(step as i32));
            if radius.gt(s.r_max) {
                inside = false;
            } else {
                cast_vote(acc, s, x, y, nx, ny, radius, Binary32::one(), Ghost(e));
                cast_vote(acc, s, x, y, nx, ny, radius, Binary32::one().negated(), Ghost(e));
            }
        }
        step = step + 1;
    }
}

proof fn lemma_ray_not_negative(s: Search, e: Edge, cell: int, n: int)
    ensures
        0 <= ray(s, e, cell, n),
    decreases n,
{
    if n > 0 {
        lemma_ray_not_negative(s, e, cell, n - 1);
    }
}

proof fn lemma_votes_not_negative(s: Search, gx: Seq<i16>, gy: Seq<i16>, cell: int, n: int)
    ensures
        0 <= votes(s, gx, gy, cell, n),
    decreases n,
{
    if n > 0 {
        lemma_votes_not_negative(s, gx, gy, cell, n - 1);
        lemma_ray_not_negative(s, edge_at(s, gx, gy, n - 1), cell, s.r_steps + 1);
    }
}

fn zeros(n: usize) -> (r: Vec<u32>)
    ensures
        r@.len() == n,
        forall|i: int| 0 <= i < n ==> r@[i] == 0,
{
    let mut r: Vec<u32> = Vec::new();
    let mut i: usize = 0;
    while i < n
        invariant
            0 <= i <= n,
            r@.len() == i,
            forall|j: int| 0 <= j < i ==> r@[j] == 0,
        decreases n - i,
    {
        r.push(0);
        i = i + 1;
    }
    r
}

/// The votes for every place.
pub fn count_votes(s: &Search, gx: &Gradient, gy: &Gradient) -> (r: Vec<u32>)
    requires
        s.wf(),
        gx.wf() && gx.width == s.sw && gx.height == s.sh,
        gy.wf() && gy.width == s.sw && gy.height == s.sh,
    ensures
        r@ == tally(*s, gx.data@, gy.data@),
{
    proof {
        assert(s.cells() <= s.sw * s.sh) by (nonlinear_arith)
            requires
                s.cells() == s.cols() * (s.wy1 + 1),
                0 <= s.cols() <= s.sw,
                0 <= s.wy1 + 1 <= s.sh,
        ;
        assert(0 <= s.cols() * (s.wy1 + 1)) by (nonlinear_arith)
            requires
                0 <= s.cols(),
                0 <= s.wy1 + 1,
        ;
    }
    let mut acc: Vec<u32> = zeros(
        ((s.wx1 - s.wx0 + 1) as usize) * ((s.wy1 + 1) as usize),
    );
    let ghost ww = s.sw as int;
    let mut y: u32 = 0;
    assert(0 * ww == 0);
    while y < s.sh
        invariant
            s.wf(),
            gx.wf() && gx.width == s.sw && gx.height == s.sh,
            gy.wf() && gy.width == s.sw && gy.height == s.sh,
            acc@.len() == s.cells(),
            ww == s.sw,
            0 <= y <= s.sh,
            forall|c: int|
                0 <= c < acc@.len() ==> #[trigger] acc@[c] == capped(
                    votes(*s, gx.data@, gy.data@, c, y * ww),
                ),
        decreases s.sh - y,
    {
        let mut x: u32 = 0;
        while x < s.sw
            invariant
                s.wf(),
                gx.wf() && gx.width == s.sw && gx.height == s.sh,
                gy.wf() && gy.width == s.sw && gy.height == s.sh,
                acc@.len() == s.cells(),
                ww == s.sw,
                0 <= y < s.sh,
                0 <= x <= s.sw,
                forall|c: int|
                    0 <= c < acc@.len() ==> #[trigger] acc@[c] == capped(
                        votes(*s, gx.data@, gy.data@, c, y * ww + x),
                    ),
            decreases s.sw - x,
        {
            let ghost i = y * ww + x;
            let ghost before = acc@;
            proof {
                pixels::lemma_index(x as int, y as int, ww, s.sh as int);
                vstd::arithmetic::div_mod::lemma_fundamental_div_mod_converse(
                    i,
                    ww,
                    y as int,
                    x as int,
                );
            }
            cast(&mut acc, s, x as i32, y as i32, gx.get(x, y), gy.get(x, y));
            proof {
                assert forall|c: int| 0 <= c < acc@.len() implies #[trigger] acc@[c] == capped(
                    votes(*s, gx.data@, gy.data@, c, i + 1),
                ) by {
                    lemma_votes_not_negative(*s, gx.data@, gy.data@, c, i);
                    let e = edge_at(*s, gx.data@, gy.data@, i);
                    lemma_ray_not_negative(*s, e, c, s.r_steps + 1);
                    assert(before[c] == capped(votes(*s, gx.data@, gy.data@, c, i)));
                }
            }
            x = x + 1;
        }
        assert((y + 1) * ww == y * ww + ww) by (nonlinear_arith);
        y = y + 1;
    }
    assert(s.sh * ww == s.sw * s.sh) by (nonlinear_arith)
        requires
            ww == s.sw,
    ;
    assert(acc@ =~= tally(*s, gx.data@, gy.data@));
    acc
}

/// The step whose radius an edge supports, if it faces the middle `(bcx, bcy)`.
pub open spec fn step_of(s: Search, e: Edge, bcx: int, bcy: int) -> Option<int> {
    let mag = strength(e.gx, e.gy);
    let dx = convert::of_int(e.x - bcx);
    let dy = convert::of_int(e.y - bcy);
    let dist = dx.times(dx).plus(dy.times(dy)).sqrt();
    let facing = dx.times(convert::of_int(e.gx)).plus(dy.times(convert::of_int(e.gy))).abs().over(
        dist.times(mag).plus(Binary32::of_bits(TINY)),
    );
    let step = dist.minus(s.r_min).round().to_u64();
    if mag.lt(Binary32::of_bits(EDGE_MIN)) {
        None
    } else if dist.lt(s.r_min) || dist.gt(s.r_max) {
        None
    } else if facing.lt(Binary32::of_bits(FACING_MIN)) {
        None
    } else if step <= s.r_steps {
        Some(step as int)
    } else {
        None
    }
}

/// How many of the first `n` pixels support the radius of a step.
pub open spec fn support(
    s: Search,
    gx: Seq<i16>,
    gy: Seq<i16>,
    bcx: int,
    bcy: int,
    step: int,
    n: int,
) -> int
    decreases n,
{
    if n <= 0 {
        0
    } else {
        support(s, gx, gy, bcx, bcy, step, n - 1) + counts(
            step_of(s, edge_at(s, gx, gy, n - 1), bcx, bcy),
            step,
        )
    }
}

/// The support of every step's radius.
pub open spec fn supports(
    s: Search,
    gx: Seq<i16>,
    gy: Seq<i16>,
    bcx: int,
    bcy: int,
) -> Seq<u32> {
    Seq::new(
        (s.r_steps + 1) as nat,
        |k: int| capped(support(s, gx, gy, bcx, bcy, k, s.sw * s.sh)),
    )
}

/// The step whose radius an edge supports.
fn supported(s: &Search, x: u32, y: u32, gx: i16, gy: i16, bcx: i32, bcy: i32) -> (r: Option<usize>)
    requires
        s.wf(),
        x < s.sw,
        y < s.sh,
        0 <= bcx < s.sw,
        0 <= bcy < s.sh,
    ensures
        match r {
            None => step_of(
                *s,
                Edge { x: x as int, y: y as int, gx: gx as int, gy: gy as int },
                bcx as int,
                bcy as int,
            ) is None,
            Some(k) => step_of(
                *s,
                Edge { x: x as int, y: y as int, gx: gx as int, gy: gy as int },
                bcx as int,
                bcy as int,
            ) == Some(k as int),
        },
{
    let mag: Binary32 = edge(gx, gy);
    if mag.lt(Binary32::of_bits(EDGE_MIN)) {
        return None;
    }
    let dx: Binary32 = Binary32::of_i32((x as i32) - bcx);
    let dy: Binary32 = Binary32::of_i32((y as i32) - bcy);
    let dist: Binary32 = dx.times(dx).plus(dy.times(dy)).sqrt();
    if dist.lt(s.r_min) || dist.gt(s.r_max) {
        return None;
    }
    let facing: Binary32 = dx.times(Binary32::of_i32(gx as i32)).plus(
        dy.times(Binary32::of_i32(gy as i32)),
    ).abs().over(dist.times(mag).plus(Binary32::of_bits(TINY)));
    if facing.lt(Binary32::of_bits(FACING_MIN)) {
        return None;
    }
    let step: u64 = dist.minus(s.r_min).round().to_u64();
    if step <= s.r_steps as u64 {
        Some(step as usize)
    } else {
        None
    }
}

proof fn lemma_support_not_negative(
    s: Search,
    gx: Seq<i16>,
    gy: Seq<i16>,
    bcx: int,
    bcy: int,
    step: int,
    n: int,
)
    ensures
        0 <= support(s, gx, gy, bcx, bcy, step, n),
    decreases n,
{
    if n > 0 {
        lemma_support_not_negative(s, gx, gy, bcx, bcy, step, n - 1);
    }
}

/// The support of every step's radius around the middle `(bcx, bcy)`.
pub fn count_support(s: &Search, gx: &Gradient, gy: &Gradient, bcx: i32, bcy: i32) -> (r: Vec<u32>)
    requires
        s.wf(),
        gx.wf() && gx.width == s.sw && gx.height == s.sh,
        gy.wf() && gy.width == s.sw && gy.height == s.sh,
        0 <= bcx < s.sw,
        0 <= bcy < s.sh,
    ensures
        r@ == supports(*s, gx.data@, gy.data@, bcx as int, bcy as int),
{
    let mut hist: Vec<u32> = zeros((s.r_steps as usize) + 1);
    let ghost ww = s.sw as int;
    let mut y: u32 = 0;
    assert(0 * ww == 0);
    while y < s.sh
        invariant
            s.wf(),
            gx.wf() && gx.width == s.sw && gx.height == s.sh,
            gy.wf() && gy.width == s.sw && gy.height == s.sh,
            0 <= bcx < s.sw,
            0 <= bcy < s.sh,
            hist@.len() == s.r_steps + 1,
            ww == s.sw,
            0 <= y <= s.sh,
            forall|k: int|
                0 <= k < hist@.len() ==> #[trigger] hist@[k] == capped(
                    support(*s, gx.data@, gy.data@, bcx as int, bcy as int, k, y * ww),
                ),
        decreases s.sh - y,
    {
        let mut x: u32 = 0;
        while x < s.sw
            invariant
                s.wf(),
                gx.wf() && gx.width == s.sw && gx.height == s.sh,
                gy.wf() && gy.width == s.sw && gy.height == s.sh,
                0 <= bcx < s.sw,
                0 <= bcy < s.sh,
                hist@.len() == s.r_steps + 1,
                ww == s.sw,
                0 <= y < s.sh,
                0 <= x <= s.sw,
                forall|k: int|
                    0 <= k < hist@.len() ==> #[trigger] hist@[k] == capped(
                        support(*s, gx.data@, gy.data@, bcx as int, bcy as int, k, y * ww + x),
                    ),
            decreases s.sw - x,
        {
            let ghost i = y * ww + x;
            let ghost before = hist@;
            proof {
                pixels::lemma_index(x as int, y as int, ww, s.sh as int);
                vstd::arithmetic::div_mod::lemma_fundamental_div_mod_converse(
                    i,
                    ww,
                    y as int,
                    x as int,
                );
            }
            if let Some(k) = supported(s, x, y, gx.get(x, y), gy.get(x, y), bcx, bcy) {
                let n: u32 = hist[k];
                if n < u32::MAX {
                    hist.set(k, n + 1);
                }
            }
            proof {
                assert forall|k: int| 0 <= k < hist@.len() implies #[trigger] hist@[k] == capped(
                    support(*s, gx.data@, gy.data@, bcx as int, bcy as int, k, i + 1),
                ) by {
                    lemma_support_not_negative(
                        *s,
                        gx.data@,
                        gy.data@,
                        bcx as int,
                        bcy as int,
                        k,
                        i,
                    );
                    assert(before[k] == capped(
                        support(*s, gx.data@, gy.data@, bcx as int, bcy as int, k, i),
                    ));
                }
            }
            x = x + 1;
        }
        assert((y + 1) * ww == y * ww + ww) by (nonlinear_arith);
        y = y + 1;
    }
    assert(s.sh * ww == s.sw * s.sh) by (nonlinear_arith)
        requires
            ww == s.sw,
    ;
    assert(hist@ =~= supports(*s, gx.data@, gy.data@, bcx as int, bcy as int));
    hist
}

/// The circle that the gradients of a reduced picture show.
pub open spec fn circle_of(s: Search, gx: Seq<i16>, gy: Seq<i16>) -> Option<MinimapCircle> {
    let acc = tally(s, gx, gy);
    let peak = top(acc, acc.len() as int);
    let bcx = peak.0 % s.cols() + s.wx0;
    let bcy = peak.0 / s.cols();
    let hist = supports(s, gx, gy, bcx, bcy);
    let best = top(hist, hist.len() as int);
    let r_small = radius_at(s, best.0);
    let around = Binary32::of_bits(TURN).times(r_small).max(Binary32::one());
    let agreement = convert::of_int(peak.1 as int).over(around);
    let inv = Binary32::one().over(s.d);
    if peak.1 == 0 || best.1 == 0 || agreement.lt(Binary32::of_bits(AGREEMENT_MIN)) {
        None
    } else {
        Some(
            MinimapCircle {
                cx: convert::of_int(bcx).times(inv).round().to_i32(),
                cy: convert::of_int(bcy).times(inv).round().to_i32(),
                r: r_small.times(inv).round().to_i32(),
            },
        )
    }
}

/// The circle that the gradients of a reduced picture show, in pixels of the
/// picture itself.
pub fn vote(s: &Search, gx: &Gradient, gy: &Gradient) -> (r: Option<MinimapCircle>)
    requires
        s.wf(),
        gx.wf() && gx.width == s.sw && gx.height == s.sh,
        gy.wf() && gy.width == s.sw && gy.height == s.sh,
    ensures
        r == circle_of(*s, gx.data@, gy.data@),
{
    let acc: Vec<u32> = count_votes(s, gx, gy);
    let (best_i, best_v) = highest(&acc);
    if best_v == 0 {
        return None;
    }
    let ww: usize = (s.wx1 - s.wx0 + 1) as usize;
    proof {
        vstd::arithmetic::div_mod::lemma_mod_bound(best_i as int, ww as int);
        vstd::arithmetic::div_mod::lemma_div_pos_is_pos(best_i as int, ww as int);
        top_is_the_first_of_the_highest(acc@, acc@.len() as int);
        let hh = s.wy1 + 1;
        assert(hh * ww == ww * hh) by (nonlinear_arith);
        vstd::arithmetic::div_mod::lemma_div_by_multiple_is_strongly_ordered(
            best_i as int,
            hh * ww,
            hh,
            ww as int,
        );
        vstd::arithmetic::div_mod::lemma_div_multiples_vanish(hh, ww as int);
    }
    let bcx: i32 = ((best_i % ww) as i32) + s.wx0;
    let bcy: i32 = (best_i / ww) as i32;
    let hist: Vec<u32> = count_support(s, gx, gy, bcx, bcy);
    let (best_bin, best_bin_v) = highest(&hist);
    let r_small: Binary32 = s.r_min.plus(Binary32::of_u64(best_bin as u64));
    let around: Binary32 = Binary32::of_bits(TURN).times(r_small).max(Binary32::one());
    let agreement: Binary32 = Binary32::of_u32(best_v).over(around);
    if agreement.lt(Binary32::of_bits(AGREEMENT_MIN)) || best_bin_v == 0 {
        return None;
    }
    let inv: Binary32 = Binary32::one().over(s.d);
    Some(
        MinimapCircle {
            cx: Binary32::of_i32(bcx).times(inv).round().to_i32(),
            cy: Binary32::of_i32(bcy).times(inv).round().to_i32(),
            r: r_small.times(inv).round().to_i32(),
        },
    )
}

/// A colour picture reduced for searching, without its colour.
pub open spec fn reduced(data: Seq<u8>, w: int, h: int, s: Search) -> Shades {
    Shades {
        width: s.sw as int,
        height: s.sh as int,
        data: pixels::gray_of(
            pixels::triangle_rgb(data, w, h, s.sw as int, s.sh as int),
            s.sw * s.sh,
        ),
    }
}

/// The circle that a colour picture shows.
pub open spec fn shown(data: Seq<u8>, w: int, h: int) -> Option<MinimapCircle> {
    match search_of(w, h) {
        None => None,
        Some(s) => {
            let small = reduced(data, w, h, s);
            circle_of(s, pixels::slopes_across(small), pixels::slopes_down(small))
        },
    }
}

/// Looks for the circle in a picture of the client area.
pub fn try_hough(client: &Rgb8) -> (r: Option<MinimapCircle>)
    requires
        client.wf(),
    ensures
        r == shown(client.data@, client.width as int, client.height as int),
{
    let s: Search = match plan(client.width, client.height) {
        Some(s) => s,
        None => {
            return None;
        },
    };
    let small: Rgb8 = pixels::resize_rgb(client, s.sw, s.sh);
    let gray: Gray8 = pixels::grayscale(&small);
    let gx: Gradient = pixels::horizontal_sobel(&gray);
    let gy: Gradient = pixels::vertical_sobel(&gray);
    assert(gray@ == reduced(client.data@, client.width as int, client.height as int, s));
    vote(&s, &gx, &gy)
}

/// The minimap in a picture of the client area: the circle that it shows, or
/// else the one placed by proportion.
pub open spec fn detected(data: Seq<u8>, w: u32, h: u32) -> MinimapCircle {
    match shown(data, w as int, h as int) {
        Some(found) => found,
        None => usual((w as i32) as int, (h as i32) as int),
    }
}

/// What is said of a circle.
pub open spec fn account_of(c: MinimapCircle, found: bool) -> Seq<char> {
    (if found {
        "[圆检测] 成功: 圆心=("@
    } else {
        "[圆检测] 检测置信度低，回退到右上角默认圆: 圆心=("@
    }) + text::decimal_of(c.cx as int) + ", "@ + text::decimal_of(c.cy as int) + ") 半径="@
        + text::decimal_of(c.r as int)
}

/// The minimap in a picture of the client area, and a line on how it was found.
pub fn detect_and_tell(client: &Rgb8) -> (r: (MinimapCircle, String))
    requires
        client.wf(),
    ensures
        r.0 == detected(client.data@, client.width, client.height),
        r.1@ == account_of(
            r.0,
            shown(client.data@, client.width as int, client.height as int) is Some,
        ),
{
    let (c, head) = match try_hough(client) {
        Some(c) => (c, "[圆检测] 成功: 圆心=("),
        None => (
            fallback(client.width as i32, client.height as i32),
            "[圆检测] 检测置信度低，回退到右上角默认圆: 圆心=(",
        ),
    };
    let mut line: String = text::glue(head, text::decimal(c.cx as i64).as_str(), ", ");
    line.append(text::decimal(c.cy as i64).as_str());
    line.append(") 半径=");
    line.append(text::decimal(c.r as i64).as_str());
    (c, line)
}

/// The minimap in a picture of the client area.
pub fn detect(client: &Rgb8) -> (c: MinimapCircle)
    requires
        client.wf(),
    ensures
        c == detected(client.data@, client.width, client.height),
{
    match try_hough(client) {
        Some(c) => c,
        None => fallback(client.width as i32, client.height as i32),
    }
}

/// A number of the reduced picture in whole pixels of the picture itself.
pub open spec fn in_pixels(s: Search, x: Binary32) -> i32 {
    x.times(Binary32::one().over(s.d)).round().to_i32()
}

/// How many whole steps the largest radius is from the least.
pub open spec fn widest(s: Search) -> int {
    s.r_max.minus(s.r_min).round().to_u64() as int
}

/// Multiplying by a positive number keeps the order of numbers that are not
/// below zero.
proof fn lemma_scaling_keeps_order(x: Binary32, y: Binary32, by: Binary32)
    requires
        x.ge(Binary32::zero()),
        x.le(y),
        by.is_finite_spec(),
        by.gt(Binary32::zero()),
    ensures
        x.times(by).ge(Binary32::zero()),
        x.times(by).le(y.times(by)),
{
    reveal(Binary32::times_spec);
    let one = pow2(149) as int;
    lemma_pow2_pos(149);
    let ub = pattern::units(by.magnitude());
    arith::lemma_zero_magnitude(by.magnitude());
    arith::lemma_zero_magnitude(x.magnitude());
    arith::lemma_zero_magnitude(y.magnitude());
    let ux = pattern::units(x.magnitude());
    let uy = pattern::units(y.magnitude());
    assert(pattern::units(0) == 0);
    assert(0 * ub == 0 && 0 * one == 0) by (nonlinear_arith);
    pattern::lemma_nearest_exact(0, one);
    if x.is_finite_spec() {
        assert(0 <= ux * ub) by (nonlinear_arith)
            requires
                ux >= 0,
                ub >= 0,
        ;
        exact::lemma_nearest_total(ux * ub, one);
        if y.is_finite_spec() {
            if x.magnitude() < y.magnitude() {
                pattern::lemma_units_increase(x.magnitude(), y.magnitude());
            }
            assert(ux * ub <= uy * ub) by (nonlinear_arith)
                requires
                    ux <= uy,
                    ub >= 0,
            ;
            exact::lemma_nearest_monotone(ux * ub, uy * ub, one);
            exact::lemma_nearest_total(uy * ub, one);
        }
    }
}

/// Rounding to a whole number keeps the order of numbers that are not below
/// zero.
proof fn lemma_round_keeps_order(x: Binary32, y: Binary32)
    requires
        x.ge(Binary32::zero()),
        x.le(y),
    ensures
        x.round().ge(Binary32::zero()),
        x.round().le(y.round()),
{
    let one = pow2(149) as int;
    lemma_pow2_pos(149);
    if x.is_finite_spec() {
        arith::lemma_zero_magnitude(x.magnitude());
        let ux = pattern::units(x.magnitude());
        let a = (2 * ux + one) / (2 * one);
        vstd::arithmetic::div_mod::lemma_div_pos_is_pos(2 * ux + one, 2 * one);
        assert(0 <= a * one) by (nonlinear_arith)
            requires
                a >= 0,
                one > 0,
        ;
        exact::lemma_nearest_total(a * one, 1);
        if x.magnitude() == 0 {
            assert(pattern::units(0) == 0);
            vstd::arithmetic::div_mod::lemma_fundamental_div_mod_converse(one, 2 * one, 0, one);
            assert(0 * one == 0) by (nonlinear_arith);
            pattern::lemma_nearest_exact(0, 1);
        }
        if y.is_finite_spec() {
            arith::lemma_zero_magnitude(y.magnitude());
            let uy = pattern::units(y.magnitude());
            let b = (2 * uy + one) / (2 * one);
            if x.magnitude() < y.magnitude() {
                pattern::lemma_units_increase(x.magnitude(), y.magnitude());
            }
            vstd::arithmetic::div_mod::lemma_div_is_ordered(2 * ux + one, 2 * uy + one, 2 * one);
            assert(a * one <= b * one) by (nonlinear_arith)
                requires
                    a <= b,
                    one > 0,
            ;
            exact::lemma_nearest_monotone(a * one, b * one, 1);
            exact::lemma_nearest_total(b * one, 1);
        }
    }
}

/// Places of the reduced picture keep their order in the picture itself.
proof fn lemma_in_pixels(s: Search, x: Binary32, y: Binary32)
    requires
        x.ge(Binary32::zero()),
        x.le(y),
        Binary32::one().over(s.d).is_finite_spec(),
        Binary32::one().over(s.d).gt(Binary32::zero()),
    ensures
        0 <= in_pixels(s, x) <= in_pixels(s, y),
{
    let inv = Binary32::one().over(s.d);
    let zero = Binary32::zero();
    lemma_scaling_keeps_order(x, y, inv);
    lemma_round_keeps_order(x.times(inv), y.times(inv));
    exact::lemma_to_i32_keeps_order(x.times(inv).round(), y.times(inv).round());
    exact::lemma_to_i32_keeps_order(zero, x.times(inv).round());
    assert(pattern::units(0) == 0);
    assert(0 * pow2(149) == 0) by (nonlinear_arith);
    exact::lemma_to_i32_exact(zero, 0);
}

/// Whole numbers keep their order.
proof fn lemma_of_int_keeps_order(a: int, b: int)
    requires
        0 <= a <= b <= u64::MAX,
    ensures
        convert::of_int(a).le(convert::of_int(b)),
        convert::of_int(a).ge(Binary32::zero()),
        convert::of_int(b).is_finite_spec(),
{
    let one = pow2(149) as int;
    lemma_pow2_pos(149);
    lemma2_to64();
    let top = exact::pattern_for(1, 213);
    lemma_pow2_adds(64, 149);
    assert(0 <= a * one <= b * one && b * one <= 1 * pow2(213)) by (nonlinear_arith)
        requires
            0 <= a <= b <= 0xffff_ffff_ffff_ffff,
            pow2(213) == 0x1_0000_0000_0000_0000 * one,
            one > 0,
    ;
    exact::lemma_nearest_monotone(a * one, b * one, 1);
    exact::lemma_nearest_total(a * one, 1);
    exact::lemma_nearest_total(b * one, 1);
    exact::lemma_nearest_keeps_order(b * one, 1, top);
}

/// Taking the same number away, or adding it, keeps the order of numbers that
/// stay at or above zero.
pub proof fn lemma_sum_keeps_order(a: Binary32, b: Binary32, c: Binary32)
    requires
        a.is_finite_spec(),
        !b.is_nan_spec(),
        c.is_finite_spec(),
        a.le(b),
        a.value() + c.value() >= 0,
    ensures
        a.plus(c).ge(Binary32::zero()),
        a.plus(c).le(b.plus(c)),
{
    let zero = Binary32::zero();
    assert(zero.value() == 0);
    exact::lemma_plus_keeps_order(a, c, zero);
    reveal(Binary32::plus_spec);
    if b.is_finite_spec() {
        order::lemma_order_of_values(a, b);
        let x = a.value() + c.value();
        let y = b.value() + c.value();
        exact::lemma_nearest_total(x, 1);
        exact::lemma_nearest_total(y, 1);
        exact::lemma_nearest_monotone(x, y, 1);
    }
}

/// A step that some edge supports is not beyond the largest radius.
proof fn lemma_supported_step(s: Search, e: Edge, bcx: int, bcy: int)
    requires
        s.r_min.ge(Binary32::zero()),
        !s.r_max.is_nan_spec(),
        step_of(s, e, bcx, bcy) is Some,
    ensures
        step_of(s, e, bcx, bcy)->Some_0 <= widest(s),
{
    let dx = convert::of_int(e.x - bcx);
    let dy = convert::of_int(e.y - bcy);
    let dist = dx.times(dx).plus(dy.times(dy)).sqrt();
    let one = pow2(149) as int;
    lemma_pow2_pos(149);
    if dist.is_nan_spec() {
        reveal(Binary32::plus_spec);
        assert(dist.minus(s.r_min).round().is_nan_spec());
        lemma_to_u64_not_negative(s.r_max.minus(s.r_min).round());
    } else {
        assert(s.r_min.le(dist) && dist.le(s.r_max));
        if dist.is_finite_spec() {
            order::lemma_order_of_values(s.r_min, dist);
            exact::lemma_negated(s.r_min);
            lemma_sum_keeps_order(dist, s.r_max, s.r_min.negated());
            lemma_round_keeps_order(dist.minus(s.r_min), s.r_max.minus(s.r_min));
            lemma_to_u64_keeps_order(
                dist.minus(s.r_min).round(),
                s.r_max.minus(s.r_min).round(),
            );
        } else {
            assert(s.r_max == dist);
        }
    }
}

proof fn lemma_to_u64_not_negative(a: Binary32)
    ensures
        0 <= a.saturating(0, u64::MAX as int) <= u64::MAX,
{
    lemma_pow2_pos(149);
    arith::lemma_zero_magnitude(a.magnitude());
    vstd::arithmetic::div_mod::lemma_div_pos_is_pos(
        pattern::units(a.magnitude()),
        pow2(149) as int,
    );
}

/// Cutting to a whole number keeps the order.
proof fn lemma_to_u64_keeps_order(a: Binary32, b: Binary32)
    requires
        a.ge(Binary32::zero()),
        a.le(b),
    ensures
        a.to_u64() <= b.to_u64(),
{
    lemma_to_u64_not_negative(a);
    lemma_to_u64_not_negative(b);
    let one = pow2(149) as int;
    lemma_pow2_pos(149);
    let ua = pattern::units(a.magnitude());
    let ub = pattern::units(b.magnitude());
    arith::lemma_zero_magnitude(a.magnitude());
    arith::lemma_zero_magnitude(b.magnitude());
    if a.magnitude() < b.magnitude() {
        pattern::lemma_units_increase(a.magnitude(), b.magnitude());
    }
    vstd::arithmetic::div_mod::lemma_div_pos_is_pos(ua, one);
    if a.magnitude() == 0 {
        vstd::arithmetic::div_mod::lemma_div_of0(one);
        if b.magnitude() == 0 {
            vstd::arithmetic::div_mod::lemma_div_of0(one);
        }
    } else {
        vstd::arithmetic::div_mod::lemma_div_is_ordered(ua, ub, one);
    }
}

/// Some pixel supports a step that has support.
proof fn lemma_supporter(
    s: Search,
    gx: Seq<i16>,
    gy: Seq<i16>,
    bcx: int,
    bcy: int,
    step: int,
    n: int,
) -> (i: int)
    requires
        support(s, gx, gy, bcx, bcy, step, n) > 0,
    ensures
        step_of(s, edge_at(s, gx, gy, i), bcx, bcy) == Some(step),
    decreases n,
{
    if step_of(s, edge_at(s, gx, gy, n - 1), bcx, bcy) == Some(step) {
        n - 1
    } else {
        lemma_supporter(s, gx, gy, bcx, bcy, step, n - 1)
    }
}

/// A reduced picture has a row.
proof fn lemma_least_height(h: int, d: Binary32)
    ensures
        convert::of_int(h).times(d).round().max(Binary32::of_bits(WORK_MIN)).to_u32() >= 1,
{
    let r = convert::of_int(h).times(d).round().max(Binary32::of_bits(WORK_MIN));
    let one = pow2(149) as int;
    lemma_pow2_pos(149);
    lemma_width();
    exact::lemma_of_int_exact(8);
    exact::lemma_of_u32(8);
    if r.is_finite_spec() {
        let m = r.magnitude();
        if m > WORK_MIN {
            pattern::lemma_units_increase(WORK_MIN as int, m);
        }
        vstd::arithmetic::div_mod::lemma_div_is_ordered(8 * one, pattern::units(m), one);
        vstd::arithmetic::div_mod::lemma_div_multiples_vanish(8, one);
        assert(8 * one == one * 8) by (nonlinear_arith);
    }
}

/// How much a searched picture is reduced, and its radii.
proof fn lemma_search(w: int, h: int)
    requires
        0 <= w <= u32::MAX,
        0 <= h <= u32::MAX,
        search_of(w, h) is Some,
    ensures
        ({
            let s = search_of(w, h)->Some_0;
            let inv = Binary32::one().over(s.d);
            &&& inv.is_finite_spec()
            &&& inv.gt(Binary32::zero())
            &&& !s.r_min.is_nan_spec()
            &&& !s.r_max.is_nan_spec()
            &&& s.r_min.ge(Binary32::zero())
            &&& s.r_steps >= 1
            &&& 0 <= s.wx0 < s.wx1 <= s.sw <= WIDEST
            &&& 0 < s.wy1 <= s.sh
        }),
{
    let s = search_of(w, h)->Some_0;
    let cw = convert::of_int(w);
    let width = Binary32::of_bits(WORK_WIDTH);
    let one = pow2(149) as int;
    lemma_pow2_pos(149);
    lemma2_to64();
    exact::lemma_one_and_half();
    exact::lemma_of_u32(w);
    reveal(Binary32::plus_spec);
    exact::lemma_max_zero_to_i32(
        Binary32::of_bits(ROI_X_FRAC).times(convert::of_int(s.sw as int)).floor(),
    );
    lemma_work_width(w);
    lemma_last(s.sw as int);
    lemma_width();
    lemma_least_height(h, s.d);
    lemma_lowest_row(s.sh as int);
    if cw.gt(width) {
        lemma_reduction(w);
    } else {
        exact::lemma_one_and_half();
        reveal(Binary32::over_spec);
        pattern::lemma_nearest_exact(0x3f80_0000, one);
    }
    assert(s.r_min.ge(Binary32::zero()));
    if s.r_min.is_finite_spec() {
        exact::lemma_plus_keeps_order(s.r_min, Binary32::one(), Binary32::one());
    }
}

/// A wide picture is reduced by a factor of at most 2^24.
proof fn lemma_reduction(w: int)
    requires
        0 <= w <= u32::MAX,
        convert::of_int(w).gt(Binary32::of_bits(WORK_WIDTH)),
    ensures
        ({
            let d = Binary32::of_bits(WORK_WIDTH).over(convert::of_int(w));
            let inv = Binary32::one().over(d);
            &&& d.is_finite_spec() && !d.is_negative() && d.magnitude() >= 0x3380_0000
            &&& inv.is_finite_spec() && inv.gt(Binary32::zero())
        }),
{
    reveal(Binary32::over_spec);
    let one = pow2(149) as int;
    let cw = convert::of_int(w);
    let d = Binary32::of_bits(WORK_WIDTH).over(cw);
    lemma_pow2_pos(149);
    lemma2_to64();
    exact::lemma_one_and_half();
    exact::lemma_of_u32(w);
    // The width is at most 2^32.
    let top = exact::pattern_for(1, 181);
    lemma_pow2_adds(32, 149);
    assert(0 <= w * one <= 1 * pow2(181)) by (nonlinear_arith)
        requires
            0 <= w <= 0x1_0000_0000,
            pow2(181) == 0x1_0000_0000 * one,
            one > 0,
    ;
    exact::lemma_nearest_keeps_order(w * one, 1, top);
    exact::lemma_nearest_total(w * one, 1);
    if cw.magnitude() < top {
        pattern::lemma_units_increase(cw.magnitude(), top);
    }
    let uw = pattern::units(cw.magnitude());
    arith::lemma_zero_magnitude(cw.magnitude());
    assert(0 < uw <= pow2(181));
    // So the factor is at least 2^-24.
    let least = 0x3380_0000int;
    lemma_pow2_adds(23, 102);
    assert(pattern::units(least) == pow2(125));
    let ud = pattern::units(WORK_WIDTH as int);
    lemma_pow2_adds(23, 135);
    pattern::lemma_units_increase(0x4400_0000, WORK_WIDTH as int);
    assert(pattern::units(0x4400_0000) == pow2(158));
    lemma_pow2_adds(158, 149);
    lemma_pow2_adds(125, 181);
    lemma_pow2_unfold(307);
    lemma_pow2_pos(125);
    lemma_pow2_pos(306);
    assert(ud * one >= pow2(125) * uw && ud * one >= 0) by (nonlinear_arith)
        requires
            ud >= pow2(158),
            one > 0,
            pow2(158) * one == pow2(307),
            pow2(307) == 2 * pow2(306),
            pow2(125) * pow2(181) == pow2(306),
            0 < uw <= pow2(181),
            pow2(125) > 0,
            pow2(306) > 0,
    ;
    exact::lemma_nearest_keeps_order(ud * one, uw, least);
    exact::lemma_nearest_total(ud * one, uw);
    // And its inverse is at most 2^24.
    let p = d.magnitude();
    assert(p >= least && !d.is_negative());
    // It is less than one.
    pattern::lemma_units_increase(WORK_WIDTH as int, cw.magnitude());
    assert(ud * one <= one * uw) by (nonlinear_arith)
        requires
            ud <= uw,
            one > 0,
    ;
    exact::lemma_nearest_keeps_order(ud * one, uw, 0x3f80_0000);
    if least < p {
        pattern::lemma_units_increase(least, p);
    }
    let up = pattern::units(p);
    let most = exact::pattern_for(1, 173);
    lemma_pow2_adds(149, 149);
    lemma_pow2_adds(173, 125);
    assert(0 < one * one && one * one <= pow2(173) * up) by (nonlinear_arith)
        requires
            one * one == pow2(298),
            pow2(173) * pow2(125) == pow2(298),
            up >= pow2(125),
            pow2(173) >= 0,
            one > 0,
    ;
    exact::lemma_nearest_keeps_order(one * one, up, most);
    exact::lemma_nearest_total(one * one, up);
    if p < 0x3f80_0000 {
        pattern::lemma_units_increase(p, 0x3f80_0000);
    }
    assert(one * one >= one * up) by (nonlinear_arith)
        requires
            up <= one,
            one > 0,
    ;
    exact::lemma_nearest_keeps_order(one * one, up, 0x3f80_0000);
}

/// A circle that a picture shows has its middle in the part of the picture that
/// may hold it, which is its upper right, and a radius in the range that goes
/// with the width of the picture, rounded to whole steps. Where the picture is
/// not reduced, that part counts in its own pixels, as far down as single
/// precision tells rows apart.
pub proof fn a_shown_circle_lies_where_it_is_looked_for(
    w: int,
    h: int,
    gx: Seq<i16>,
    gy: Seq<i16>,
)
    requires
        0 <= w <= u32::MAX,
        0 <= h <= u32::MAX,
        search_of(w, h) is Some,
    ensures
        ({
            let s = search_of(w, h)->Some_0;
            circle_of(s, gx, gy) matches Some(c) ==> {
                &&& in_pixels(s, convert::of_int(s.wx0 as int)) <= c.cx <= in_pixels(
                    s,
                    convert::of_int(s.wx1 as int),
                )
                &&& 0 <= c.cy <= in_pixels(s, convert::of_int(s.wy1 as int))
                &&& in_pixels(s, s.r_min) <= c.r <= in_pixels(s, radius_at(s, widest(s)))
                &&& s.d == Binary32::one() ==> s.wx0 <= c.cx <= s.wx1
                &&& s.d == Binary32::one() && s.sh <= 0x100_0000 ==> c.cy <= s.wy1
            }
        }),
{
    let s = search_of(w, h)->Some_0;
    lemma_search(w, h);
    lemma_unreduced(s, s.wx0 as int);
    lemma_unreduced(s, s.wx1 as int);
    if s.sh <= 0x100_0000 {
        lemma_unreduced(s, s.wy1 as int);
    }
    if circle_of(s, gx, gy) is Some {
        let acc = tally(s, gx, gy);
        let peak = top(acc, acc.len() as int);
        let cols = s.cols();
        let hh = s.wy1 + 1;
        top_is_the_first_of_the_highest(acc, acc.len() as int);
        assert(0 <= cols * hh) by (nonlinear_arith)
            requires
                cols >= 0,
                hh >= 0,
        ;
        let bcx = peak.0 % cols + s.wx0;
        let bcy = peak.0 / cols;
        vstd::arithmetic::div_mod::lemma_mod_bound(peak.0, cols);
        vstd::arithmetic::div_mod::lemma_div_pos_is_pos(peak.0, cols);
        assert(hh * cols == cols * hh) by (nonlinear_arith);
        vstd::arithmetic::div_mod::lemma_div_by_multiple_is_strongly_ordered(
            peak.0,
            hh * cols,
            hh,
            cols,
        );
        vstd::arithmetic::div_mod::lemma_div_multiples_vanish(hh, cols);
        lemma_of_int_keeps_order(s.wx0 as int, bcx);
        lemma_of_int_keeps_order(bcx, s.wx1 as int);
        lemma_of_int_keeps_order(0, bcy);
        lemma_of_int_keeps_order(bcy, s.wy1 as int);
        lemma_in_pixels(s, convert::of_int(s.wx0 as int), convert::of_int(bcx));
        lemma_in_pixels(s, convert::of_int(bcx), convert::of_int(s.wx1 as int));
        lemma_in_pixels(s, convert::of_int(bcy), convert::of_int(s.wy1 as int));
        let hist = supports(s, gx, gy, bcx, bcy);
        let best = top(hist, hist.len() as int);
        top_is_the_first_of_the_highest(hist, hist.len() as int);
        lemma_support_not_negative(s, gx, gy, bcx, bcy, best.0, s.sw * s.sh);
        let i = lemma_supporter(s, gx, gy, bcx, bcy, best.0, s.sw * s.sh);
        lemma_supported_step(s, edge_at(s, gx, gy, i), bcx, bcy);
        lemma_of_int_keeps_order(0, best.0);
        lemma_of_int_keeps_order(best.0, widest(s));
        let k = convert::of_int(best.0);
        let far = convert::of_int(widest(s));
        let zero = Binary32::zero();
        assert(zero.value() == 0);
        if s.r_min.is_finite_spec() {
            order::lemma_order_of_values(zero, s.r_min);
            order::lemma_order_of_values(zero, k);
            exact::lemma_plus_keeps_order(s.r_min, k, s.r_min);
            lemma_sum_keeps_order(k, far, s.r_min);
            lemma_swapped(s.r_min, k);
            lemma_swapped(s.r_min, far);
        } else {
            reveal(Binary32::plus_spec);
        }
        lemma_in_pixels(s, s.r_min, radius_at(s, best.0));
        lemma_in_pixels(s, radius_at(s, best.0), radius_at(s, widest(s)));
    }
}

/// A place of a picture that is not reduced.
proof fn lemma_unreduced(s: Search, k: int)
    requires
        0 <= k <= 0x100_0000,
    ensures
        s.d == Binary32::one() ==> in_pixels(s, convert::of_int(k)) == k,
{
    let one = pow2(149) as int;
    lemma_pow2_pos(149);
    exact::lemma_one_and_half();
    reveal(Binary32::over_spec);
    pattern::lemma_nearest_exact(0x3f80_0000, one);
    exact::lemma_of_int_exact(k);
    exact::lemma_one_times(convert::of_int(k));
    exact::lemma_round_whole(k);
    exact::lemma_to_i32_exact(convert::of_int(k), k);
}

proof fn lemma_swapped(a: Binary32, b: Binary32)
    requires
        a.is_finite_spec(),
        b.is_finite_spec(),
    ensures
        a.plus(b) == b.plus(a),
{
    reveal(Binary32::plus_spec);
}

} // verus!
