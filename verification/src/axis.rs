//! Which way the arrow points in its own picture.

use vstd::prelude::*;

use crate::binary32::close;
use crate::binary32::close::{ample, off, one, size, FINE};
use crate::binary32::convert;
use crate::binary32::exact;
use crate::binary32::Binary32;
use crate::direction;
use crate::locator::likeness;
use crate::pixels;
use crate::sample;

verus! {

/// The way from a place to another, and the square of its length.
pub open spec fn way_to(p: (Binary32, Binary32), cx: Binary32, cy: Binary32) -> (
    Binary32,
    Binary32,
    Binary32,
) {
    let dx = p.0.minus(cx);
    let dy = p.1.minus(cy);
    (dx, dy, dx.times(dx).plus(dy.times(dy)))
}

/// The tip is one of the places, and none is farther away.
pub proof fn the_tip_is_the_farthest_place(
    places: Seq<(Binary32, Binary32)>,
    cx: Binary32,
    cy: Binary32,
    n: int,
)
    requires
        0 <= n <= places.len(),
    ensures
        ({
            let tip = direction::farthest(places, cx, cy, n);
            &&& !tip.2.is_nan_spec()
            &&& forall|i: int|
                0 <= i < n ==> !(#[trigger] way_to(places[i], cx, cy)).2.gt(tip.2)
            &&& (exists|i: int| 0 <= i < n && tip == #[trigger] way_to(places[i], cx, cy))
                || forall|i: int|
                0 <= i < n ==> !(#[trigger] way_to(places[i], cx, cy)).2.ge(Binary32::zero())
        }),
    decreases n,
{
    if n > 0 {
        the_tip_is_the_farthest_place(places, cx, cy, n - 1);
        let before = direction::farthest(places, cx, cy, n - 1);
        let here = way_to(places[n - 1], cx, cy);
        let tip = direction::farthest(places, cx, cy, n);
        lemma_tip_or_none(places, cx, cy, n - 1);
        if here.2.gt(before.2) {
            assert(tip == here);
        } else {
            assert(tip == before);
        }
    }
}

/// Before any place is looked at, the square is below zero.
proof fn lemma_tip_or_none(
    places: Seq<(Binary32, Binary32)>,
    cx: Binary32,
    cy: Binary32,
    n: int,
)
    requires
        0 <= n <= places.len(),
    ensures
        direction::farthest(places, cx, cy, n).2 == Binary32::one().negated() || exists|i: int|
            0 <= i < n && direction::farthest(places, cx, cy, n) == #[trigger] way_to(
                places[i],
                cx,
                cy,
            ),
    decreases n,
{
    if n > 0 {
        lemma_tip_or_none(places, cx, cy, n - 1);
        let here = way_to(places[n - 1], cx, cy);
    }
}

/// The solid pixels of the arrow's picture, and no others, are looked at, each at its
/// place from the middle.
pub proof fn the_solid_pixels_are_looked_at(data: Seq<u8>, w: int, h: int, n: int)
    requires
        1 <= w <= 0x8000,
        1 <= h <= 0x8000,
        0 <= n <= w * h,
    ensures
        ({
            let places = direction::solid(data, w, h, n);
            &&& forall|k: int|
                0 <= k < places.len() ==> exists|x: int, y: int|
                    is_solid_at(data, w, h, x, y, #[trigger] places[k]) && #[trigger] index_of(
                        w,
                        x,
                        y,
                    ) < n
            &&& forall|x: int, y: int|
                0 <= x < w && 0 <= y < h && #[trigger] index_of(w, x, y) < n && data[4 * index_of(
                    w,
                    x,
                    y,
                ) + 3] >= direction::SOLID_MIN ==> exists|k: int|
                    0 <= k < places.len() && is_solid_at(data, w, h, x, y, #[trigger] places[k])
        }),
    decreases n,
{
    if n > 0 {
        the_solid_pixels_are_looked_at(data, w, h, n - 1);
        let before = direction::solid(data, w, h, n - 1);
        let places = direction::solid(data, w, h, n);
        let px = (n - 1) % w;
        let py = (n - 1) / w;
        vstd::arithmetic::div_mod::lemma_fundamental_div_mod(n - 1, w);
        vstd::arithmetic::div_mod::lemma_mod_bound(n - 1, w);
        vstd::arithmetic::div_mod::lemma_div_pos_is_pos(n - 1, w);
        assert(w * py == py * w) by (nonlinear_arith);
        assert(py < h) by (nonlinear_arith)
            requires
                py * w <= n - 1,
                n <= w * h,
                w > 0,
        ;
        assert(index_of(w, px, py) == n - 1);
        sample::lemma_off_middle(px, w);
        sample::lemma_off_middle(py, h);
        assert forall|k: int| 0 <= k < places.len() implies exists|x: int, y: int|
            is_solid_at(data, w, h, x, y, #[trigger] places[k]) && #[trigger] index_of(w, x, y)
                < n by {
            if k < before.len() {
                assert(places[k] == before[k]);
                let (x, y) = choose|x: int, y: int|
                    is_solid_at(data, w, h, x, y, before[k]) && #[trigger] index_of(w, x, y) < n - 1;
                assert(is_solid_at(data, w, h, x, y, places[k]) && index_of(w, x, y) < n);
            } else {
                assert(is_solid_at(data, w, h, px, py, places[k]));
            }
        }
        assert forall|x: int, y: int|
            0 <= x < w && 0 <= y < h && #[trigger] index_of(w, x, y) < n && data[4 * index_of(
                w,
                x,
                y,
            ) + 3] >= direction::SOLID_MIN implies exists|k: int|
            0 <= k < places.len() && is_solid_at(data, w, h, x, y, #[trigger] places[k]) by {
            if index_of(w, x, y) == n - 1 {
                vstd::arithmetic::div_mod::lemma_fundamental_div_mod_converse(n - 1, w, y, x);
                assert(is_solid_at(data, w, h, x, y, places[before.len() as int]));
            } else {
                let k = choose|k: int|
                    0 <= k < before.len() && is_solid_at(data, w, h, x, y, #[trigger] before[k]);
                assert(places[k] == before[k]);
            }
        }
    }
}

/// Where a pixel is among all, row by row.
pub open spec fn index_of(w: int, x: int, y: int) -> int {
    y * w + x
}

/// `p` is the place from the middle of the solid pixel `(x, y)`.
pub open spec fn is_solid_at(
    data: Seq<u8>,
    w: int,
    h: int,
    x: int,
    y: int,
    p: (Binary32, Binary32),
) -> bool {
    &&& 0 <= x < w
    &&& 0 <= y < h
    &&& data[4 * index_of(w, x, y) + 3] >= direction::SOLID_MIN
    &&& p.0.is_finite_spec() && 2 * p.0.value() == (2 * x - w + 1) * one()
    &&& p.1.is_finite_spec() && 2 * p.1.value() == (2 * y - h + 1) * one()
}

/// The weight of a pixel by its opacity.
pub open spec fn weight_of(data: Seq<u8>, i: int) -> Binary32 {
    convert::of_int(data[4 * i + 3] as int).over(Binary32::of_bits(direction::BYTE_MAX))
}

/// A pixel weighs as much as it is opaque.
pub proof fn a_pixel_weighs_its_opacity(data: Seq<u8>, i: int)
    ensures
        ({
            let v = weight_of(data, i).value();
            &&& weight_of(data, i).is_finite_spec()
            &&& off(255 * v, data[4 * i + 3] * one(), 256 * one())
            &&& 0 <= v <= one()
        }),
{
    let u = one();
    let e = FINE as int;
    let a = data[4 * i + 3] as int;
    let all = Binary32::of_bits(direction::BYTE_MAX);
    close::lemma_one();
    exact::lemma_of_int_exact(a);
    exact::lemma_of_u32(a);
    vstd::arithmetic::power2::lemma2_to64();
    vstd::arithmetic::power2::lemma_pow2_adds(16, 133);
    assert(0x437f_0000int / 0x80_0000 == 134 && 0x437f_0000int % 0x80_0000 == 0x7f_0000);
    assert(all.value() == 0xff_0000 * vstd::arithmetic::power2::pow2(133));
    assert(all.value() == 255 * u);
    let au = a * u;
    assert(0 <= au <= 255 * u && au * u <= (2 * ample()) * (255 * u)) by (nonlinear_arith)
        requires
            au == a * u,
            0 <= a <= 255,
            u > 0,
            ample() >= 0x1_0000_0000_0000_0000 * u,
    ;
    close::lemma_quotient(convert::of_int(a), all);
    let v = weight_of(data, i).value();
    assert(v * (255 * u) == (255 * v) * u && au * u + e * (255 * u) == (au + 255 * e) * u)
        by (nonlinear_arith);
    close::lemma_cancelled(255 * v, au, au + 255 * e, u);
    lemma_share(convert::of_int(a), all);
}

/// A quotient of a number that is not negative by a larger one.
proof fn lemma_share(a: Binary32, b: Binary32)
    requires
        a.is_finite_spec(),
        b.is_finite_spec(),
        0 <= a.value() <= b.value(),
        b.value() > 0,
        a.over(b).is_finite_spec(),
        !a.is_negative() || a.magnitude() == 0,
    ensures
        0 <= a.over(b).value() <= one(),
{
    reveal(Binary32::over_spec);
    let u = one();
    let x = a.value();
    let y = b.value();
    close::lemma_one();
    exact::lemma_one_and_half();
    crate::binary32::arith::lemma_zero_magnitude(a.magnitude());
    crate::binary32::arith::lemma_zero_magnitude(b.magnitude());
    if a.magnitude() == 0 {
        exact::lemma_zero_over(a, b);
    }
    assert(0 <= x * u && x * u <= u * y) by (nonlinear_arith)
        requires
            0 <= x <= y,
            u > 0,
    ;
    exact::lemma_nearest_keeps_order(x * u, y, 0x3f80_0000);
    exact::lemma_nearest_total(x * u, y);
    let r = a.over(b);
    crate::binary32::arith::lemma_zero_magnitude(r.magnitude());
    if r.magnitude() < 0x3f80_0000 {
        crate::binary32::pattern::lemma_units_increase(r.magnitude(), 0x3f80_0000);
    }
}

/// The sums of the solid pixels' places, weighted, and of their weights, and of the
/// sizes of what is summed.
pub open spec fn exact_gathered(data: Seq<u8>, w: int, h: int, n: int) -> (int, int, int, int, int)
    decreases n,
{
    if n <= 0 {
        (0, 0, 0, 0, 0)
    } else {
        let before = exact_gathered(data, w, h, n - 1);
        if data[4 * (n - 1) + 3] < direction::SOLID_MIN {
            before
        } else {
            let v = weight_of(data, n - 1).value();
            let x = pixels::off_middle((n - 1) % w, w).value();
            let y = pixels::off_middle((n - 1) / w, h).value();
            (
                before.0 + x * v,
                before.1 + y * v,
                before.2 + v,
                before.3 + size(x) * v,
                before.4 + size(y) * v,
            )
        }
    }
}

/// One more product in a sum.
proof fn lemma_one_more(a: Binary32, t: int, all: int, c: Binary32, g: int, h: int, k: int)
    requires
        1 <= k <= 0x1_0000,
        a.is_finite_spec(),
        c.is_finite_spec(),
        size(t) <= all,
        size(g) <= h,
        4 * (all + h) <= ample() * one(),
        off(c.value() * one(), g, h + FINE * one()),
        off(a.value() * one(), t, 4 * ((k - 1) * all) + 4 * ((k - 1) * (FINE * one()))),
    ensures
        a.plus(c).is_finite_spec(),
        off(a.plus(c).value() * one(), t + g, 4 * (k * (all + h)) + 4 * (k * (FINE * one()))),
{
    let u = one();
    let e = FINE as int;
    let s = a.value();
    let v = c.value();
    let x = (k - 1) * all;
    let eu = e * u;
    close::lemma_one();
    assert(x <= 0x1_0000 * all && (k - 1) * eu <= 0x1_0000 * eu && x >= 0 && eu > 0)
        by (nonlinear_arith)
        requires
            x == (k - 1) * all,
            1 <= k <= 0x1_0000,
            all >= 0,
            eu == e * u,
            e == 0x100_0000,
            u > 0,
    ;
    let su = s * u;
    let vu = v * u;
    assert(64 * size(su - t) <= all + 0x100_0040 * u);
    assert(0x1_0000 * size(vu - g) <= h + 0x1_0000_0000 * u);
    assert((s + v) * u == su + vu) by (nonlinear_arith)
        requires
            su == s * u,
            vu == v * u,
    ;
    close::lemma_size_of_product(s + v, u);
    let z = size(s + v);
    assert(z * u <= 2 * all + 2 * h + 0x10_0000 * u);
    assert(z <= 2 * ample()) by (nonlinear_arith)
        requires
            z * u <= 2 * all + 2 * h + 0x10_0000 * u,
            4 * (all + h) <= ample() * u,
            u > 0,
            ample() >= 0x1_0000_0000_0000_0000 * u,
            u >= 0x1_0000_0000_0000_0000,
    ;
    close::lemma_sum(a, c);
    let r = a.plus(c).value();
    close::lemma_scaled(r, s + v, z + e, u);
    assert((z + e) * u == z * u + eu) by (nonlinear_arith)
        requires
            eu == e * u,
    ;
    assert(k * (all + h) >= x + all + h && k * eu == (k - 1) * eu + eu) by (nonlinear_arith)
        requires
            x == (k - 1) * all,
            k >= 1,
            h >= 0,
            all >= 0,
    ;
}

/// A sum is no worse off for a pixel that does not count.
proof fn lemma_no_more(got: int, exact: int, all: int, k: int, f: int)
    requires
        off(got, exact, 4 * ((k - 1) * all) + 4 * ((k - 1) * f)),
        all >= 0,
        f >= 0,
    ensures
        off(got, exact, 4 * (k * all) + 4 * (k * f)),
{
    assert(k * all == (k - 1) * all + all && k * f == (k - 1) * f + f) by (nonlinear_arith);
}

/// A weighted coordinate.
proof fn lemma_weighted(x: Binary32, v: Binary32)
    requires
        x.is_finite_spec(),
        v.is_finite_spec(),
        size(x.value()) <= 0x8000 * one(),
        0 <= v.value() <= one(),
    ensures
        ({
            let g = x.value() * v.value();
            let h = size(x.value()) * v.value();
            &&& x.times(v).is_finite_spec()
            &&& size(g) <= h
            &&& 0 <= h <= 0x8000 * (one() * one())
            &&& off(x.times(v).value() * one(), g, h + FINE * one())
        }),
{
    let u = one();
    let s = size(x.value());
    let w = v.value();
    close::lemma_one();
    close::lemma_size_of_product(x.value(), w);
    assert(0 <= s * w <= 0x8000 * (u * u) && 0x8000 * (u * u) <= (2 * ample()) * u) by (nonlinear_arith)
        requires
            0 <= s <= 0x8000 * u,
            0 <= w <= u,
            u > 0,
            ample() >= 0x1_0000_0000_0000_0000 * u,
    ;
    close::lemma_product(x, v);
}

/// What is gathered of the arrow's picture are the sums over its solid pixels of their
/// places, weighted by their opacity, and of their weights, but for rounding.
pub proof fn the_weight_of_the_arrow_is_gathered(data: Seq<u8>, w: int, h: int, n: int)
    requires
        1 <= w <= 0x8000,
        1 <= h <= 0x8000,
        0 <= n <= w * h,
        n <= 0x1_0000,
    ensures
        ({
            let u = one();
            let s = direction::gathered(data, w, h, n);
            let g = exact_gathered(data, w, h, n);
            &&& s.0.is_finite_spec()
            &&& s.1.is_finite_spec()
            &&& s.2.is_finite_spec()
            &&& off(s.0.value() * u, g.0, 4 * (n * g.3) + 4 * (n * (FINE * u)))
            &&& off(s.1.value() * u, g.1, 4 * (n * g.4) + 4 * (n * (FINE * u)))
            &&& off(s.2.value(), g.2, 2 * (n * g.2) + 2 * (n * FINE))
            &&& s.2.value() >= 0
            &&& size(g.0) <= g.3 <= (0x8000 * n) * (u * u)
            &&& size(g.1) <= g.4 <= (0x8000 * n) * (u * u)
            &&& 0 <= g.2 <= n * u
        }),
    decreases n,
{
    let u = one();
    close::lemma_one();
    if n == 0 {
        assert(n * 0 == 0 && n * (FINE * u) == 0 && n * FINE == 0 && (0x8000 * n) * (u * u) == 0 && n
            * u == 0 && 0 * u == 0) by (nonlinear_arith)
            requires
                n == 0,
        ;
    } else {
        the_weight_of_the_arrow_is_gathered(data, w, h, n - 1);
        let s = direction::gathered(data, w, h, n - 1);
        let g = exact_gathered(data, w, h, n - 1);
        let px = (n - 1) % w;
        let py = (n - 1) / w;
        vstd::arithmetic::div_mod::lemma_fundamental_div_mod(n - 1, w);
        vstd::arithmetic::div_mod::lemma_mod_bound(n - 1, w);
        vstd::arithmetic::div_mod::lemma_div_pos_is_pos(n - 1, w);
        assert(w * py == py * w) by (nonlinear_arith);
        assert(py < h) by (nonlinear_arith)
            requires
                py * w <= n - 1,
                n <= w * h,
                w > 0,
        ;
        let fu = FINE * u;
        assert((0x8000 * (n - 1)) * (u * u) + 0x8000 * (u * u) == (0x8000 * n) * (u * u) && 0 <= 0x8000
            * (u * u) && 4 * ((0x8000 * n) * (u * u)) <= ample() * u && (n - 1) * u + u == n * u && n
            * u <= 0x1_0000 * u && fu >= 0) by (nonlinear_arith)
            requires
                1 <= n <= 0x1_0000,
                u > 0,
                ample() >= 0x1_0000_0000_0000_0000 * u,
                fu == FINE * u,
                FINE > 0,
        ;
        if data[4 * (n - 1) + 3] < direction::SOLID_MIN {
            lemma_no_more(s.0.value() * u, g.0, g.3, n, fu);
            lemma_no_more(s.1.value() * u, g.1, g.4, n, fu);
            assert(n * g.2 == (n - 1) * g.2 + g.2 && n * FINE == (n - 1) * FINE + FINE)
                by (nonlinear_arith);
        } else {
            sample::lemma_off_middle(px, w);
            sample::lemma_off_middle(py, h);
            a_pixel_weighs_its_opacity(data, n - 1);
            let v = weight_of(data, n - 1);
            let x = pixels::off_middle(px, w);
            let y = pixels::off_middle(py, h);
            assert(-(0x8000 * u) <= (2 * px - w + 1) * u <= 0x8000 * u && -(0x8000 * u) <= (2 * py - h
                + 1) * u <= 0x8000 * u) by (nonlinear_arith)
                requires
                    0 <= px < w,
                    0 <= py < h,
                    w <= 0x8000,
                    h <= 0x8000,
                    u > 0,
            ;
            lemma_weighted(x, v);
            lemma_weighted(y, v);
            lemma_one_more(
                s.0,
                g.0,
                g.3,
                x.times(v),
                x.value() * v.value(),
                size(x.value()) * v.value(),
                n,
            );
            lemma_one_more(
                s.1,
                g.1,
                g.4,
                y.times(v),
                y.value() * v.value(),
                size(y.value()) * v.value(),
                n,
            );
            likeness::lemma_one_more(s.2, g.2, v, n);
        }
    }
}

/// The middle of the arrow's weight: times the sum of the weights it gives the sum of
/// the weighted places, but for rounding.
pub open spec fn is_middle(c: int, sum: int, weight: int) -> bool {
    off(c * weight, sum * one(), size(sum) * one() + FINE * weight)
}

/// The arrow points from the middle of its weight to the solid pixel that is farthest
/// from there.
pub proof fn the_arrow_points_from_its_weight_to_its_tip(data: Seq<u8>, w: int, h: int)
    requires
        1 <= w <= 0x8000,
        1 <= h <= 0x8000,
        w * h <= 0x1_0000,
        one() <= 0x100 * direction::gathered(data, w, h, w * h).2.value(),
    ensures
        direction::axis_of(data, w, h) matches Some(axis) ==> {
            let s = direction::gathered(data, w, h, w * h);
            let places = direction::solid(data, w, h, w * h);
            exists|cx: Binary32, cy: Binary32|
                {
                    &&& #[trigger] is_middle(cx.value(), s.0.value(), s.2.value())
                    &&& #[trigger] is_middle(cy.value(), s.1.value(), s.2.value())
                    &&& exists|d: Binary32| points_to_farthest(places, cx, cy, axis, d)
                }
        },
{
    if let Some(axis) = direction::axis_of(data, w, h) {
        let n = w * h;
        assert(1 <= n) by (nonlinear_arith)
            requires
                n == w * h,
                w >= 1,
                h >= 1,
        ;
        let u = one();
        let s = direction::gathered(data, w, h, n);
        let places = direction::solid(data, w, h, n);
        close::lemma_one();
        the_weight_of_the_arrow_is_gathered(data, w, h, n);
        let g = exact_gathered(data, w, h, n);
        lemma_moderate(s.0, g.0, g.3, n);
        lemma_moderate(s.1, g.1, g.4, n);
        let wt = s.2.value();
        let a = size(s.0.value());
        let b = size(s.1.value());
        assert(a * u <= (2 * ample()) * wt && b * u <= (2 * ample()) * wt) by (nonlinear_arith)
            requires
                0 <= a <= 0x1_0000_0000 * u,
                0 <= b <= 0x1_0000_0000 * u,
                u <= 0x100 * wt,
                u > 0,
                ample() >= 0x1_0000_0000_0000_0000 * u,
        ;
        close::lemma_quotient(s.0, s.2);
        close::lemma_quotient(s.1, s.2);
        let cx = s.0.over(s.2);
        let cy = s.1.over(s.2);
        the_tip_is_the_farthest_place(places, cx, cy, places.len() as int);
        let tip = direction::farthest(places, cx, cy, places.len() as int);
        assert(points_to_farthest(places, cx, cy, axis, tip.2));
        assert(is_middle(cx.value(), s.0.value(), wt));
        assert(is_middle(cy.value(), s.1.value(), wt));
    }
}

/// `axis` leads from `(cx, cy)` to one of the places, at a squared distance of `d`, and
/// none of them is farther; or no place has a squared distance.
pub open spec fn points_to_farthest(
    places: Seq<(Binary32, Binary32)>,
    cx: Binary32,
    cy: Binary32,
    axis: (Binary32, Binary32),
    d: Binary32,
) -> bool {
    &&& forall|i: int|
        0 <= i < places.len() ==> !(#[trigger] way_to(places[i], cx, cy)).2.gt(d)
    &&& (exists|i: int|
        0 <= i < places.len() && (axis.0, axis.1, d) == #[trigger] way_to(places[i], cx, cy))
        || forall|i: int|
        0 <= i < places.len() ==> !(#[trigger] way_to(places[i], cx, cy)).2.ge(Binary32::zero())
}

/// A sum of that many products is moderate.
proof fn lemma_moderate(a: Binary32, t: int, all: int, n: int)
    requires
        1 <= n <= 0x1_0000,
        size(t) <= all <= (0x8000 * n) * (one() * one()),
        off(a.value() * one(), t, 4 * (n * all) + 4 * (n * (FINE * one()))),
    ensures
        size(a.value()) <= 0x1_0000_0000 * one(),
{
    let u = one();
    let e = FINE as int;
    let uu = u * u;
    close::lemma_one();
    close::lemma_size_of_product(a.value(), u);
    let s = size(a.value());
    assert(n * all <= 0x1_0000 * all && all <= 0x8000_0000 * uu && n * (e * u) <= 0x1_0000 * (e * u)
        && e * u <= uu && 0 <= all) by (nonlinear_arith)
        requires
            1 <= n <= 0x1_0000,
            0 <= all <= (0x8000 * n) * uu,
            uu == u * u,
            e == 0x100_0000,
            u >= 0x1_0000_0000_0000_0000,
    ;
    assert(s * u <= 0x9000_0000 * uu);
    assert(s <= 0x1_0000_0000 * u) by (nonlinear_arith)
        requires
            s * u <= 0x9000_0000 * uu,
            uu == u * u,
            u > 0,
    ;
}

/// The largest of three.
pub open spec fn largest(r: u8, g: u8, b: u8) -> int {
    if r >= g && r >= b {
        r as int
    } else if g >= b {
        g as int
    } else {
        b as int
    }
}

/// The least of three.
pub open spec fn smallest(r: u8, g: u8, b: u8) -> int {
    if r <= g && r <= b {
        r as int
    } else if g <= b {
        g as int
    } else {
        b as int
    }
}

/// A colour is as saturated as its largest part is above its least, over the largest;
/// one without light is not.
pub proof fn the_saturation_of_a_colour_is_its_spread(r: u8, g: u8, b: u8)
    ensures
        ({
            let s = direction::saturation(r, g, b);
            let most = largest(r, g, b);
            let least = smallest(r, g, b);
            &&& s.is_finite_spec()
            &&& 0 <= s.value() <= one()
            &&& most <= 1 ==> s.value() == 0
            &&& most > 1 ==> off(s.value() * most, (most - least) * one(), 256 * one())
        }),
{
    let u = one();
    let e = FINE as int;
    let most = largest(r, g, b);
    let least = smallest(r, g, b);
    let d = most - least;
    close::lemma_one();
    exact::lemma_of_int_exact(most);
    exact::lemma_of_int_exact(least);
    exact::lemma_of_u32(most);
    crate::binary32::order::lemma_order_of_values(convert::of_int(most), Binary32::one());
    assert(most <= 1 <==> most * u <= u) by (nonlinear_arith)
        requires
            u > 0,
    ;
    if most > 1 {
        exact::lemma_negated(convert::of_int(least));
        assert(most * u + -(least * u) == d * u && 0 <= d * u <= most * u && d * u <= 255 * u && most
            * u > 0) by (nonlinear_arith)
            requires
                d == most - least,
                0 <= d <= most,
                d <= 255,
                most > 1,
                u > 0,
        ;
        exact::lemma_plus_exact(convert::of_int(most), convert::of_int(least).negated(), d, 149);
        let a = convert::of_int(most).minus(convert::of_int(least));
        let mu = most * u;
        let du = d * u;
        assert(du * u <= (2 * ample()) * mu) by (nonlinear_arith)
            requires
                0 <= du <= mu,
                u > 0,
                ample() >= 0x1_0000_0000_0000_0000 * u,
        ;
        close::lemma_quotient(a, convert::of_int(most));
        let v = a.over(convert::of_int(most)).value();
        assert(v * mu == (v * most) * u && du * u + e * mu == (du + e * most) * u) by (nonlinear_arith)
            requires
                mu == most * u,
        ;
        close::lemma_cancelled(v * most, du, du + e * most, u);
        lemma_not_below(a);
        lemma_share(a, convert::of_int(most));
    }
}

/// A difference of whole numbers that is not below zero has no sign.
proof fn lemma_not_below(a: Binary32)
    requires
        a.is_finite_spec(),
        a.value() >= 0,
    ensures
        !a.is_negative() || a.magnitude() == 0,
{
    crate::binary32::arith::lemma_zero_magnitude(a.magnitude());
}

/// A point of the arrow counts for its opacity times seven twentieths and thirteen
/// twentieths of its saturation.
pub proof fn a_point_counts_by_its_opacity_and_its_saturation(
    data: Seq<u8>,
    w: int,
    h: int,
    i: int,
)
    ensures
        direction::point_of(data, w, h, i) matches Some(p) ==> {
            let u = one();
            let alpha = weight_of(data, i).value();
            let sat = direction::saturation(data[4 * i], data[4 * i + 1], data[4 * i + 2]).value();
            &&& p.weight.is_finite_spec()
            &&& off((20 * p.weight.value()) * u, alpha * (7 * u + 13 * sat), 300 * (u * u))
        },
{
    let u = one();
    let opaque = weight_of(data, i);
    let sat = direction::saturation(data[4 * i], data[4 * i + 1], data[4 * i + 2]);
    let base = Binary32::of_bits(direction::WEIGHT_BASE);
    let part = Binary32::of_bits(direction::WEIGHT_COLOUR);
    close::lemma_one();
    a_pixel_weighs_its_opacity(data, i);
    the_saturation_of_a_colour_is_its_spread(data[4 * i], data[4 * i + 1], data[4 * i + 2]);
    let q = vstd::arithmetic::power2::pow2(124) as int;
    vstd::arithmetic::power2::lemma_pow2_pos(124);
    vstd::arithmetic::power2::lemma2_to64();
    vstd::arithmetic::power2::lemma_pow2_adds(25, 124);
    vstd::arithmetic::power2::lemma_pow2_adds(1, 124);
    assert(u == 0x200_0000 * q);
    assert(0x3eb3_3333int / 0x80_0000 == 125 && 0x3eb3_3333int % 0x80_0000 == 0x33_3333);
    assert(0x3f26_6666int / 0x80_0000 == 126 && 0x3f26_6666int % 0x80_0000 == 0x26_6666);
    assert(base.value() == 0xb3_3333 * q);
    assert(part.value() == 0xa6_6666 * vstd::arithmetic::power2::pow2(125));
    let bv = base.value();
    let cv = part.value();
    assert(off(20 * bv, 7 * u, 14 * u) && off(20 * cv, 13 * u, 26 * u) && 0 <= bv <= u && 0 <= cv <= u);
    let s = sat.value();
    let o = opaque.value();
    assert(1int * 1int == 1 && 1int * 4int == 4);
    close::lemma_product_within(sat, part, 1, 1);
    let a = sat.times(part);
    let av = a.value();
    assert(size(av) <= 2 * u);
    close::lemma_sum_within(base, a, 3);
    let b = base.plus(a);
    assert(size(b.value()) <= 4 * u);
    close::lemma_product_within(opaque, b, 1, 4);
    let p = opaque.times(b).value();
    // The part of the saturation.
    close::lemma_off_times(20 * cv, 13 * u, 26 * u, s, u);
    assert((20 * cv) * s == 20 * (s * cv) && (13 * u) * s == (13 * s) * u && (26 * u) * u == 26 * (u
        * u) && (20 * av) * u == 20 * (av * u) && 66 * (u * u) == (66 * u) * u && u * u >= 0)
        by (nonlinear_arith);
    close::lemma_chained((20 * av) * u, 20 * (s * cv), (13 * s) * u, 40 * (u * u), 26 * (u * u));
    close::lemma_cancelled(20 * av, 13 * s, 66 * u, u);
    // All of it.
    let want = 7 * u + 13 * s;
    assert(off(20 * b.value(), want, 160 * u));
    close::lemma_off_times(20 * b.value(), want, 160 * u, o, u);
    assert((20 * b.value()) * o == 20 * (o * b.value()) && want * o == o * want && (160 * u) * u == 160
        * (u * u) && (20 * p) * u == 20 * (p * u)) by (nonlinear_arith);
    close::lemma_chained((20 * p) * u, 20 * (o * b.value()), o * want, 100 * (u * u), 160 * (u * u));
}

} // verus!
