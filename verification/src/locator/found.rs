//! Which place locating and tracking give.

use vstd::prelude::*;

use crate::binary32::close;
use crate::binary32::close::{ample, is_ample, off, one, size, FINE};
use crate::binary32::convert;
use crate::binary32::exact;
use crate::binary32::order;
use crate::binary32::Binary32;
use crate::locator::correlate;
use crate::locator::limit;
use crate::locator::search;
use crate::locator::search::Hit;
use crate::locator::{Found, MapLocator, WorldPos};
use crate::pixels::Shades;

verus! {

/// The best place of a minimap in the window that reaches `reach` map pixels
/// around `(cx, cy)`, at a scale and with a template of `diam` pixels.
pub open spec fn best_around(
    l: &MapLocator,
    mm: Shades,
    scale: Binary32,
    cx: Binary32,
    cy: Binary32,
    reach: Binary32,
    diam: u32,
) -> Option<Hit> {
    search::hit_of(
        l.map_gray.data@,
        l.map_gray.width as int,
        l.map_gray.height as int,
        mm.data,
        mm.width,
        mm.height,
        l.matching,
        scale,
        cx,
        cy,
        reach,
        diam as int,
    )
}

/// `p` is a coordinate of the place seen at `x`, held within `r` of `c`: the same
/// where `x` is within `r`, and otherwise between `c` and `x`, at the last number
/// that is not past `c + r` or `c - r`.
pub open spec fn is_held(p: Binary32, x: Binary32, c: Binary32, r: Binary32) -> bool {
    &&& x.is_finite_spec() && -r.value() <= x.value() - c.value() <= r.value() ==> p == x
    &&& p != x && !x.is_nan_spec() ==> {
        &&& p.is_finite_spec()
        &&& x.gt(c) ==> c.le(p) && p.le(x)
        &&& x.lt(c) ==> p.le(c) && x.le(p)
        &&& x.gt(c) || x.lt(c)
        &&& forall|y: Binary32|
            #![trigger y.value()]
            y.is_finite_spec() && x.gt(c) && y.gt(p) ==> y.value() >= c.value() + r.value()
        &&& forall|y: Binary32|
            #![trigger y.value()]
            y.is_finite_spec() && x.lt(c) && y.lt(p) ==> y.value() <= c.value() - r.value()
    }
}

proof fn lemma_is_held(x: Binary32, c: Binary32, r: Binary32)
    requires
        c.is_finite_spec(),
        r.is_finite_spec(),
        r.ge(Binary32::zero()),
    ensures
        is_held(limit::held(x, c, r), x, c, r),
{
    let p = limit::held(x, c, r);
    if x.is_finite_spec() && -r.value() <= x.value() - c.value() <= r.value() {
        limit::a_place_within_reach_stays(x, c, r);
    }
    if p != x && !x.is_nan_spec() {
        limit::a_place_beyond_is_moved_to_the_end_of_the_reach(x, c, r, c);
        assert forall|y: Binary32|
            #![trigger y.value()]
            y.is_finite_spec() && x.gt(c) && y.gt(p) implies y.value() >= c.value()
            + r.value() by {
            limit::a_place_beyond_is_moved_to_the_end_of_the_reach(x, c, r, y);
        }
        assert forall|y: Binary32|
            #![trigger y.value()]
            y.is_finite_spec() && x.lt(c) && y.lt(p) implies y.value() <= c.value()
            - r.value() by {
            limit::a_place_beyond_is_moved_to_the_end_of_the_reach(x, c, r, y);
        }
    }
}

/// `reach` is twice the width on the map of one pixel of the first template, but
/// no less than four map pixels, and but for rounding.
pub open spec fn is_fine_reach(reach: Binary32, mm_w: int, scale: Binary32, diam: int) -> bool {
    let w = mm_w * scale.value();
    &&& reach.is_finite_spec()
    &&& reach.value() >= 4 * one()
    &&& off(reach.value() * diam, 2 * w, 10 * w + 10 * (FINE * diam)) || (reach.value() == 4
        * one() && FINE * (2 * w - reach.value() * diam) <= 10 * w + 10 * (FINE * diam))
}

/// The numbers of the second reach are far from the largest.
pub open spec fn can_refine(mm_w: int, scale: Binary32, diam: int) -> bool {
    &&& 0 <= mm_w <= 0x100_0000
    &&& 1 <= diam <= 0x100_0000
    &&& scale.is_finite_spec()
    &&& scale.value() >= 0
    &&& 0x1000_0000_0000 * scale.value() <= ample()
}

/// A common factor is left out.
proof fn lemma_cancelled(e: int, a: int, b: int, c: int, u: int)
    by (nonlinear_arith)
    requires
        e * (a * u - b * u) <= c * u,
        u > 0,
    ensures
        e * (a - b) <= c,
{
}

/// The second reach.
proof fn lemma_fine_reach(mm_w: int, scale: Binary32, diam: int)
    requires
        can_refine(mm_w, scale, diam),
    ensures
        is_fine_reach(
            convert::of_int(mm_w).times(scale).over(convert::of_int(diam)).times(
                Binary32::two(),
            ).max(Binary32::of_bits(crate::locator::FINE_MIN)),
            mm_w,
            scale,
            diam,
        ),
{
    let u = one();
    let e = FINE as int;
    let v = scale.value();
    let w = mm_w * v;
    close::lemma_one();
    exact::lemma_of_int_exact(mm_w);
    exact::lemma_of_int_exact(diam);
    let a = convert::of_int(mm_w);
    let d = convert::of_int(diam);
    assert(w >= 0 && 0x1000 * w <= ample()) by (nonlinear_arith)
        requires
            w == mm_w * v,
            0 <= mm_w <= 0x100_0000,
            v >= 0,
            0x1000_0000_0000 * v <= ample(),
    ;
    assert(a.value() * v == w * u) by (nonlinear_arith)
        requires
            a.value() == mm_w * u,
            w == mm_w * v,
    ;
    assert(w * u <= (2 * ample()) * u && w * u >= 0) by (nonlinear_arith)
        requires
            0 <= w,
            w <= ample(),
            u >= 0,
    ;
    close::lemma_product(a, scale);
    let p = a.times(scale);
    assert(e * (p.value() - w) <= w + e && e * (w - p.value()) <= w + e) by (nonlinear_arith)
        requires
            e * (p.value() * u - w * u) <= w * u + e * u,
            e * (w * u - p.value() * u) <= w * u + e * u,
            u > 0,
    ;
    let pv = size(p.value());
    assert(pv <= 2 * w + 1);
    assert(d.value() == diam * u);
    let m = size(d.value());
    assert(m == diam * u && m > 0) by (nonlinear_arith)
        requires
            d.value() == diam * u,
            m == size(d.value()),
            diam >= 1,
            u > 0,
            size(d.value()) == d.value() || size(d.value()) == -d.value(),
            d.value() >= 0 ==> size(d.value()) == d.value(),
    ;
    assert(pv * u <= (2 * ample()) * m) by (nonlinear_arith)
        requires
            pv <= 2 * w + 1,
            0x1000 * w <= ample(),
            m == diam * u,
            diam >= 1,
            u > 0,
            ample() >= 16,
    ;
    close::lemma_quotient(p, d);
    let q = p.over(d);
    let qd = q.value() * diam;
    let qs = q.value();
    assert(qs * d.value() == qd * u) by (nonlinear_arith)
        requires
            qd == qs * diam,
            d.value() == diam * u,
    ;
    assert(e * m == (e * diam) * u) by (nonlinear_arith)
        requires
            m == diam * u,
    ;
    assert((pv + e * diam) * u == pv * u + e * m) by (nonlinear_arith)
        requires
            e * m == (e * diam) * u,
    ;
    lemma_cancelled(e, qd, p.value(), pv + e * diam, u);
    lemma_cancelled(e, p.value(), qd, pv + e * diam, u);
    // Doubling.
    let two = Binary32::two();
    vstd::arithmetic::power2::lemma2_to64();
    vstd::arithmetic::power2::lemma_pow2_adds(23, 127);
    vstd::arithmetic::power2::lemma_pow2_unfold(150);
    assert(0x4000_0000int / 0x80_0000 == 128 && 0x4000_0000int % 0x80_0000 == 0);
    assert(two.value() == 2 * u);
    let qv = q.value();
    assert(qv * (2 * u) == (2 * qv) * u) by (nonlinear_arith);
    close::lemma_size_of_product(2 * qv, u);
    assert(size(qv) <= 4 * w + 4) by (nonlinear_arith)
        requires
            e * (qv * diam - p.value()) <= pv + e * diam,
            e * (p.value() - qv * diam) <= pv + e * diam,
            pv <= 2 * w + 1,
            p.value() <= pv,
            -p.value() <= pv,
            diam >= 1,
            e == 0x100_0000,
            size(qv) == qv || size(qv) == -qv,
            w >= 0,
    ;
    assert(size(2 * qv) * u <= (2 * ample()) * u) by (nonlinear_arith)
        requires
            size(2 * qv) <= 2 * (4 * w + 4),
            0x1000 * w <= ample(),
            ample() >= 64,
            u > 0,
    ;
    close::lemma_product(q, two);
    let t = q.times(two);
    assert(e * (t.value() - 2 * qv) <= size(2 * qv) + e && e * (2 * qv - t.value()) <= size(2 * qv)
        + e) by (nonlinear_arith)
        requires
            e * (t.value() * u - (2 * qv) * u) <= size(2 * qv) * u + e * u,
            e * ((2 * qv) * u - t.value() * u) <= size(2 * qv) * u + e * u,
            u > 0,
    ;
    let four = Binary32::of_bits(crate::locator::FINE_MIN);
    vstd::arithmetic::power2::lemma_pow2_adds(23, 128);
    vstd::arithmetic::power2::lemma_pow2_unfold(151);
    assert(0x4080_0000int / 0x80_0000 == 129 && 0x4080_0000int % 0x80_0000 == 0);
    assert(four.value() == 4 * u);
    order::lemma_order_of_values(t, four);
    let td = t.value() * diam;
    assert(size(2 * qv) * diam <= 5 * w + 10 * diam) by (nonlinear_arith)
        requires
            size(2 * qv) == 2 * qv || size(2 * qv) == -(2 * qv),
            e * (qv * diam - p.value()) <= pv + e * diam,
            e * (p.value() - qv * diam) <= pv + e * diam,
            pv <= 2 * w + 1,
            e * (p.value() - w) <= w + e,
            e * (w - p.value()) <= w + e,
            diam >= 1,
            e == 0x100_0000,
            w >= 0,
    ;
    assert(e * (td - 2 * w) <= 10 * w + 10 * (e * diam) && e * (2 * w - td) <= 10 * w + 10 * (e
        * diam)) by (nonlinear_arith)
        requires
            td == t.value() * diam,
            e * (t.value() - 2 * qv) <= size(2 * qv) + e,
            e * (2 * qv - t.value()) <= size(2 * qv) + e,
            size(2 * qv) * diam <= 5 * w + 10 * diam,
            e * (qv * diam - p.value()) <= pv + e * diam,
            e * (p.value() - qv * diam) <= pv + e * diam,
            pv <= 2 * w + 1,
            e * (p.value() - w) <= w + e,
            e * (w - p.value()) <= w + e,
            diam >= 1,
            e == 0x100_0000,
            w >= 0,
    ;
    if t.value() <= 4 * u {
        assert(td <= (4 * u) * diam) by (nonlinear_arith)
            requires
                td == t.value() * diam,
                t.value() <= 4 * u,
                diam >= 1,
        ;
    }
}

/// Tracking gives the place that it sees: the best place of the first template
/// within the search radius of the last one, and then the best place of the
/// second template around that, if there is any. Both coordinates are those of
/// that place, in every direction, as far as the search radius goes; and the
/// place is given at the scale in use.
pub proof fn tracking_gives_the_place_that_it_sees(
    before: &MapLocator,
    after: &MapLocator,
    mm: Shades,
    last: (Binary32, Binary32),
    r: Option<WorldPos>,
)
    requires
        before.tracked_as(after, mm, last, r),
        r is Some,
        last.0.is_finite_spec(),
        last.1.is_finite_spec(),
        before.tracking.search_radius.is_finite_spec(),
        before.tracking.search_radius.ge(Binary32::zero()),
        can_refine(mm.width, before.hint(), before.tracking.coarse_diam as int),
    ensures
        exists|near: Hit, reach: Binary32|
            {
                let p = r->0;
                let radius = before.tracking.search_radius;
                let fine = #[trigger] best_around(
                    before,
                    mm,
                    before.hint(),
                    near.x,
                    near.y,
                    reach,
                    before.tracking.fine_diam,
                );
                let seen = match fine {
                    None => near,
                    Some(h) => h,
                };
                &&& best_around(
                    before,
                    mm,
                    before.hint(),
                    last.0,
                    last.1,
                    radius,
                    before.tracking.coarse_diam,
                ) == Some(near)
                &&& is_fine_reach(
                    reach,
                    mm.width,
                    before.hint(),
                    before.tracking.coarse_diam as int,
                )
                &&& is_held(p.x, seen.x, last.0, radius)
                &&& is_held(p.y, seen.y, last.1, radius)
                &&& p.score == seen.score
                &&& p.scale == before.hint()
            },
{
    let scale = before.hint();
    let diam = before.tracking.coarse_diam;
    let radius = before.tracking.search_radius;
    let near = best_around(before, mm, scale, last.0, last.1, radius, diam)->0;
    let reach = convert::of_int(mm.width).times(scale).over(convert::of_int(diam as int)).times(
        Binary32::two(),
    ).max(Binary32::of_bits(crate::locator::FINE_MIN));
    lemma_fine_reach(mm.width, scale, diam as int);
    let fine = best_around(before, mm, scale, near.x, near.y, reach, before.tracking.fine_diam);
    let seen = match fine {
        None => near,
        Some(h) => h,
    };
    lemma_is_held(seen.x, last.0, radius);
    lemma_is_held(seen.y, last.1, radius);
}

/// `s` is `k` hundredths of the scale `v`, but for rounding.
pub open spec fn is_share(s: Binary32, v: Binary32, k: int) -> bool {
    v.is_finite_spec() && 16 * size(v.value()) <= ample() ==> {
        &&& s.is_finite_spec()
        &&& off(100 * s.value(), k * v.value(), 250 * size(v.value()) + 100 * FINE)
    }
}

/// `reach` is two and a half pixels of the reduced map, but no less than twelve
/// map pixels, and but for rounding.
pub open spec fn is_coarse_reach(reach: Binary32, fx: Binary32) -> bool {
    fx.is_finite_spec() && 0 <= fx.value() && 16 * fx.value() <= ample() ==> {
        &&& reach.is_finite_spec()
        &&& reach.value() >= 12 * one()
        &&& off(2 * reach.value(), 5 * fx.value(), 5 * fx.value() + 2 * FINE) || (reach.value()
            == 12 * one() && FINE * (5 * fx.value() - 2 * reach.value()) <= 5 * fx.value() + 2
            * FINE)
    }
}

/// The place `f` is the one of the hit `h` at a scale, as it stands.
pub open spec fn is_hit_at(f: Found, h: Option<Hit>, scale: Binary32) -> bool {
    h matches Some(g) && f == (g.score, scale, g.x, g.y)
}

/// No score of `h` is higher than that of `f`.
pub open spec fn is_not_above(h: Option<Hit>, f: Found) -> bool {
    h matches Some(g) ==> !g.score.gt(f.0)
}

/// `f` is the best of the places around `near` at full size, over the three
/// scales, or over the middle one where the scale is fixed. Where there is no such
/// place, it is `near`.
pub open spec fn refined_as(
    l: &MapLocator,
    mm: Shades,
    near: Found,
    reach: Binary32,
    down: Binary32,
    up: Binary32,
    f: Found,
) -> bool {
    let d = l.locating.refine_diam;
    let a = best_around(l, mm, down, near.2, near.3, reach, d);
    let b = best_around(l, mm, near.1, near.2, near.3, reach, d);
    let c = best_around(l, mm, up, near.2, near.3, reach, d);
    let one_scale = l.has_one_scale();
    &&& is_coarse_reach(reach, l.coarse_fx)
    &&& is_share(down, near.1, 97)
    &&& is_share(up, near.1, 103)
    &&& is_hit_at(f, b, near.1) || (!one_scale && (is_hit_at(f, a, down) || is_hit_at(f, c, up)))
        || (f == near && b is None && (one_scale || (a is None && c is None)))
    &&& f == near && b is None && (one_scale || (a is None && c is None)) || (is_not_above(b, f)
        && (one_scale || (is_not_above(a, f) && is_not_above(c, f))))
}

/// `near` is the best place on the reduced map over all the scales tried.
pub open spec fn is_coarse_best(l: &MapLocator, mm: Shades, near: Found) -> bool {
    &&& exists|i: int| 0 <= i < l.steps() && #[trigger] l.coarse_hit(mm, i) == Some(near)
    &&& forall|i: int|
        0 <= i < l.steps() ==> (#[trigger] l.coarse_hit(mm, i) matches Some(g) ==> !g.0.gt(near.0))
}

/// A scale is changed by some hundredths.
proof fn lemma_share(v: Binary32, nudge: Binary32, k: int)
    requires
        nudge.is_finite_spec(),
        90 <= k <= 110,
        off(100 * nudge.value(), (k - 100) * one(), 2 * one()),
    ensures
        is_share(v.times(Binary32::one().plus(nudge)), v, k),
{
    let u = one();
    let e = FINE as int;
    let n = nudge.value();
    let w = v.value();
    close::lemma_one();
    if v.is_finite_spec() && 16 * size(w) <= ample() {
        assert((k - 100) * u == k * u - 100 * u && 90 * u <= k * u <= 110 * u) by (nonlinear_arith)
            requires
                90 <= k <= 110,
                u > 0,
        ;
        assert(5 * size(u + n) <= 6 * u && size(u + n) <= ample());
        close::lemma_sum(Binary32::one(), nudge);
        let m = Binary32::one().plus(nudge);
        let mv = m.value();
        assert(e * size(100 * mv - k * u) <= 125 * u);
        assert(4 * size(mv) <= 5 * u);
        close::lemma_size_of_product(w, mv);
        let a = size(w);
        let b = size(mv);
        assert(4 * (a * b) <= 5 * (a * u) && a * b <= (2 * ample()) * u) by (nonlinear_arith)
            requires
                4 * b <= 5 * u,
                a >= 0,
                16 * a <= ample(),
                u > 0,
        ;
        close::lemma_product(v, m);
        let s = v.times(m).value();
        // The factor.
        close::lemma_scaled(100 * mv, k * u, 125 * u, w);
        assert(w * mv * 100 == (100 * mv) * w && (k * u) * w == (k * w) * u && (125 * u) * a == (125
            * a) * u && (100 * s) * u == 100 * (s * u) && a * u >= 0) by (nonlinear_arith)
            requires
                a >= 0,
                u > 0,
        ;
        let x = (100 * s) * u;
        let y = 100 * (w * mv);
        let z = (k * w) * u;
        assert(w * mv * 100 == y);
        assert(e * size(y - z) <= (125 * a) * u);
        assert(e * size(s * u - w * mv) <= a * b + e * u);
        assert(e * size(x - y) <= 100 * (a * b) + 100 * (e * u));
        assert((125 * a) * u == 125 * (a * u)) by (nonlinear_arith);
        assert(e * size(x - z) <= 250 * (a * u) + 100 * (e * u));
        assert(e * u == e * u);
        assert((250 * a + 100 * e) * u == 250 * (a * u) + 100 * (e * u)) by (nonlinear_arith);
        lemma_cancelled(e, 100 * s, k * w, 250 * a + 100 * e, u);
        lemma_cancelled(e, k * w, 100 * s, 250 * a + 100 * e, u);
    }
}

/// The reach of the search around a place of the reduced map.
proof fn lemma_coarse_reach(fx: Binary32)
    ensures
        is_coarse_reach(
            fx.times(Binary32::of_bits(crate::locator::REFINE_STEPS)).max(
                Binary32::of_bits(crate::locator::REFINE_MIN),
            ),
            fx,
        ),
{
    let u = one();
    let e = FINE as int;
    let v = fx.value();
    let steps = Binary32::of_bits(crate::locator::REFINE_STEPS);
    let least = Binary32::of_bits(crate::locator::REFINE_MIN);
    close::lemma_one();
    vstd::arithmetic::power2::lemma2_to64();
    vstd::arithmetic::power2::lemma_pow2_adds(23, 127);
    vstd::arithmetic::power2::lemma_pow2_adds(23, 129);
    vstd::arithmetic::power2::lemma_pow2_unfold(150);
    vstd::arithmetic::power2::lemma_pow2_unfold(151);
    vstd::arithmetic::power2::lemma_pow2_unfold(152);
    assert(0x4020_0000int / 0x80_0000 == 128 && 0x4020_0000int % 0x80_0000 == 0x20_0000);
    assert(0x4140_0000int / 0x80_0000 == 130 && 0x4140_0000int % 0x80_0000 == 0x40_0000);
    assert(2 * steps.value() == 5 * u);
    assert(least.value() == 12 * u);
    if fx.is_finite_spec() && 0 <= v && 16 * v <= ample() {
        let sv = steps.value();
        assert(2 * (v * sv) == (5 * v) * u && v * sv >= 0) by (nonlinear_arith)
            requires
                2 * sv == 5 * u,
                v >= 0,
                u > 0,
        ;
        assert(v * sv <= (2 * ample()) * u) by (nonlinear_arith)
            requires
                2 * sv == 5 * u,
                16 * v <= ample(),
                v >= 0,
                u > 0,
        ;
        close::lemma_product(fx, steps);
        let t = fx.times(steps).value();
        assert((2 * t) * u == 2 * (t * u) && (5 * v + 2 * e) * u == (5 * v) * u + 2 * (e * u))
            by (nonlinear_arith);
        lemma_cancelled(e, 2 * t, 5 * v, 5 * v + 2 * e, u);
        lemma_cancelled(e, 5 * v, 2 * t, 5 * v + 2 * e, u);
        order::lemma_order_of_values(fx.times(steps), least);
    }
}

/// What is the best place on the reduced map over the first `n` scales.
proof fn lemma_coarse_best(l: &MapLocator, mm: Shades, n: int)
    ensures
        l.coarse_best(mm, n) matches Some(near) ==> {
            &&& exists|i: int| 0 <= i < n && #[trigger] l.coarse_hit(mm, i) == Some(near)
            &&& forall|i: int|
                0 <= i < n ==> (#[trigger] l.coarse_hit(mm, i) matches Some(g) ==> !g.0.gt(
                    near.0,
                ))
        },
        l.coarse_best(mm, n) is None ==> forall|i: int|
            0 <= i < n ==> #[trigger] l.coarse_hit(mm, i) is None,
    decreases n,
{
    if n > 0 {
        lemma_coarse_best(l, mm, n - 1);
        assert(l.coarse_best(mm, n) == crate::locator::better(
            l.coarse_best(mm, n - 1),
            l.coarse_hit(mm, n - 1),
        ));
    }
}

/// Locating gives the place that it finds: the best place on the reduced map over
/// the scales tried, and then the best place at full size around that, with both
/// its coordinates as they stand. It finds a place wherever the reduced map has
/// one.
pub proof fn locating_gives_the_place_that_it_finds(
    before: &MapLocator,
    after: &MapLocator,
    mm: Shades,
    r: Option<WorldPos>,
)
    requires
        before.located_as(after, mm, r),
    ensures
        r is None ==> (forall|i: int|
            0 <= i < before.steps() ==> #[trigger] before.coarse_hit(mm, i) is None)
            || after.last_debug.score.lt(before.matching.min_score),
        r matches Some(p) ==> {
            &&& after.locked_scale == p.scale
            &&& exists|near: Found, reach: Binary32, down: Binary32, up: Binary32|
                {
                    &&& is_coarse_best(before, mm, near)
                    &&& near.1.is_finite_spec() ==> #[trigger] refined_as(
                        before,
                        mm,
                        near,
                        reach,
                        down,
                        up,
                        (p.score, p.scale, p.x, p.y),
                    )
                }
        },
{
    lemma_coarse_best(before, mm, before.steps());
    if let Some(near) = before.coarse_best(mm, before.steps()) {
        let fx = before.coarse_fx;
        let reach = fx.times(Binary32::of_bits(crate::locator::REFINE_STEPS)).max(
            Binary32::of_bits(crate::locator::REFINE_MIN),
        );
        let down = near.1.times(
            Binary32::one().plus(Binary32::of_bits(crate::locator::NUDGE_DOWN)),
        );
        let up = near.1.times(Binary32::one().plus(Binary32::of_bits(crate::locator::NUDGE_UP)));
        if near.1.is_finite_spec() {
            lemma_refined(before, mm, near);
        }
        if r is Some {
            let p = r->0;
            let f = (p.score, p.scale, p.x, p.y);
            assert(before.found(mm) == Some(f));
            assert(is_coarse_best(before, mm, near));
            assert(near.1.is_finite_spec() ==> refined_as(before, mm, near, reach, down, up, f));
        }
    }
}

/// The best of three.
proof fn lemma_best_of_three(a: Option<Found>, b: Option<Found>, c: Option<Found>)
    ensures
        ({
            let r = crate::locator::better(
                crate::locator::better(crate::locator::better(None, a), b),
                c,
            );
            &&& r is None <==> a is None && b is None && c is None
            &&& r is Some ==> r == a || r == b || r == c
            &&& r matches Some(f) ==> (a matches Some(g) ==> !g.0.gt(f.0))
            &&& r matches Some(f) ==> (b matches Some(g) ==> !g.0.gt(f.0))
            &&& r matches Some(f) ==> (c matches Some(g) ==> !g.0.gt(f.0))
        }),
{
}

/// A search at full size at a scale is what is found at that scale.
proof fn lemma_hit_at(l: &MapLocator, mm: Shades, near: Found, nudge: Binary32)
    ensures
        ({
            let reach = l.coarse_fx.times(Binary32::of_bits(crate::locator::REFINE_STEPS)).max(
                Binary32::of_bits(crate::locator::REFINE_MIN),
            );
            let scale = near.1.times(Binary32::one().plus(nudge));
            let h = best_around(l, mm, scale, near.2, near.3, reach, l.locating.refine_diam);
            &&& l.nudged(mm, near, nudge) is None <==> h is None
            &&& l.nudged(mm, near, nudge) matches Some(f) ==> is_hit_at(f, h, scale) && f.0
                == h->0.score
        }),
{
}

/// What is found at full size around a place of the reduced map.
#[verifier::spinoff_prover]
proof fn lemma_refined(l: &MapLocator, mm: Shades, near: Found)
    requires
        near.1.is_finite_spec(),
    ensures
        ({
            let reach = l.coarse_fx.times(Binary32::of_bits(crate::locator::REFINE_STEPS)).max(
                Binary32::of_bits(crate::locator::REFINE_MIN),
            );
            let down = near.1.times(
                Binary32::one().plus(Binary32::of_bits(crate::locator::NUDGE_DOWN)),
            );
            let up = near.1.times(
                Binary32::one().plus(Binary32::of_bits(crate::locator::NUDGE_UP)),
            );
            let f = match l.refined(mm, near) {
                None => near,
                Some(g) => g,
            };
            refined_as(l, mm, near, reach, down, up, f)
        }),
{
    let less = Binary32::of_bits(crate::locator::NUDGE_DOWN);
    let more = Binary32::of_bits(crate::locator::NUDGE_UP);
    let none = Binary32::zero();
    lemma_coarse_reach(l.coarse_fx);
    lemma_nudges();
    lemma_share(near.1, less, 97);
    lemma_share(near.1, more, 103);
    lemma_one_plus_zero();
    exact::lemma_one_times(near.1);
    lemma_hit_at(l, mm, near, less);
    lemma_hit_at(l, mm, near, none);
    lemma_hit_at(l, mm, near, more);
    lemma_best_of_three(
        l.nudged(mm, near, less),
        l.nudged(mm, near, none),
        l.nudged(mm, near, more),
    );
}

proof fn lemma_one_plus_zero()
    ensures
        Binary32::one().plus(Binary32::zero()) == Binary32::one(),
{
    exact::lemma_plus_zero(Binary32::one(), Binary32::zero());
}

/// The numbers by which a scale is changed are three hundredths.
proof fn lemma_nudges()
    ensures
        ({
            let less = Binary32::of_bits(crate::locator::NUDGE_DOWN);
            let more = Binary32::of_bits(crate::locator::NUDGE_UP);
            &&& less.is_finite_spec()
            &&& more.is_finite_spec()
            &&& off(100 * less.value(), -3 * one(), 2 * one())
            &&& off(100 * more.value(), 3 * one(), 2 * one())
        }),
{
    let p = vstd::arithmetic::power2::pow2(120) as int;
    vstd::arithmetic::power2::lemma_pow2_pos(120);
    vstd::arithmetic::power2::lemma2_to64();
    vstd::arithmetic::power2::lemma_pow2_adds(29, 120);
    assert(one() == 0x2000_0000 * p);
    assert(0x3cf5_c28fint / 0x80_0000 == 121 && 0x3cf5_c28fint % 0x80_0000 == 0x75_c28f);
    assert(Binary32::of_bits(crate::locator::NUDGE_UP).value() == 0xf5_c28f * p);
    assert(Binary32::of_bits(crate::locator::NUDGE_DOWN).value() == -(0xf5_c28f * p));
}

/// Tracking gives no place only where there is no room to look for one around the
/// last, or where the place that it sees scores below the limit. In neither case does
/// it change the scale.
pub proof fn tracking_gives_a_place_unless_none_scores(
    before: &MapLocator,
    after: &MapLocator,
    mm: Shades,
    last: (Binary32, Binary32),
    r: Option<WorldPos>,
)
    requires
        before.tracked_as(after, mm, last, r),
    ensures
        after.locked_scale == before.locked_scale,
        r is None ==> best_around(
            before,
            mm,
            before.hint(),
            last.0,
            last.1,
            before.tracking.search_radius,
            before.tracking.coarse_diam,
        ) is None || after.last_debug.score.lt(before.matching.min_score),
        r matches Some(p) ==> p.score == after.last_debug.score && !p.score.lt(
            before.matching.min_score,
        ),
{
}

} // verus!
