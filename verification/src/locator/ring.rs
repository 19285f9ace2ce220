//! Which pixels a template holds, and the scales at which it is looked for.

use vstd::arithmetic::power2::*;
use vstd::prelude::*;

use crate::binary32::close;
use crate::binary32::close::{ample, off, one, size, FINE};
use crate::binary32::convert;
use crate::binary32::exact;
use crate::binary32::order;
use crate::binary32::Binary32;
use crate::locator::template;
use crate::locator::MapLocator;

verus! {

/// Four times the square of the distance of a pixel from the middle of `diam` by
/// `diam` pixels.
pub open spec fn four_squares(diam: int, x: int, y: int) -> int {
    (2 * x - diam + 1) * (2 * x - diam + 1) + (2 * y - diam + 1) * (2 * y - diam + 1)
}

/// The square of the distance of a pixel from the middle along one axis is exact.
proof fn lemma_square_is_exact(diam: int, x: int) -> (m: int)
    requires
        0 <= x < diam <= 0x800,
    ensures
        m == 2 * x - diam + 1,
        0 <= m * m <= 0x40_0000,
        ({
            let c = convert::of_int(diam).minus(Binary32::one()).times(Binary32::half());
            let d = convert::of_int(x).minus(c);
            &&& d.times(d).is_finite_spec()
            &&& d.times(d).value() == (m * m) * pow2(147)
        }),
{
    let u = one();
    let half = pow2(148) as int;
    let quarter = pow2(147) as int;
    let m = 2 * x - diam + 1;
    close::lemma_one();
    exact::lemma_one_and_half();
    lemma_pow2_unfold(149);
    lemma_pow2_unfold(148);
    exact::lemma_of_int_exact(diam);
    exact::lemma_of_int_exact(x);
    exact::lemma_negated(Binary32::one());
    assert(diam * u + -u == (diam - 1) * u) by (nonlinear_arith);
    exact::lemma_plus_exact(convert::of_int(diam), Binary32::one().negated(), diam - 1, 149);
    let last = convert::of_int(diam).minus(Binary32::one());
    assert(((diam - 1) * u) * half == ((diam - 1) * half) * u) by (nonlinear_arith);
    exact::lemma_times_exact(last, Binary32::half(), diam - 1, 148);
    let c = last.times(Binary32::half());
    exact::lemma_negated(c);
    assert(x * u + -((diam - 1) * half) == m * half) by (nonlinear_arith)
        requires
            u == 2 * half,
            m == 2 * x - diam + 1,
    ;
    exact::lemma_plus_exact(convert::of_int(x), c.negated(), m, 148);
    let d = convert::of_int(x).minus(c);
    assert((m * half) * (m * half) == ((m * m) * quarter) * u && 0 <= m * m <= 0x40_0000)
        by (nonlinear_arith)
        requires
            u == 2 * half,
            half == 2 * quarter,
            -0x800 <= m <= 0x800,
    ;
    exact::lemma_times_exact(d, d, m * m, 147);
    m
}

/// The square of a radius, given as a share of the half width.
proof fn lemma_radius_squared(diam: int, ratio: Binary32)
    requires
        1 <= diam <= 0x800,
        ratio.is_finite_spec(),
        0 <= ratio.value() <= 4 * one(),
    ensures
        ({
            let r = convert::of_int(diam).times(Binary32::half()).times(ratio);
            let all = diam * ratio.value();
            &&& r.times(r).is_finite_spec()
            &&& off(
                (4 * r.times(r).value()) * one(),
                all * all,
                6 * (all * all) + one() * one(),
            )
        }),
{
    let u = one();
    let e = FINE as int;
    let v = ratio.value();
    let all = diam * v;
    close::lemma_one();
    assert(0 <= all <= 0x2000 * u) by (nonlinear_arith)
        requires
            all == diam * v,
            1 <= diam <= 0x800,
            0 <= v <= 4 * u,
    ;
    close::lemma_half_width(diam, ratio);
    let r = convert::of_int(diam).times(Binary32::half()).times(ratio);
    let w = r.value();
    let d = 2 * w;
    assert(size(d) <= 2 * all + 3 && size(w) <= 2 * all + 3);
    close::lemma_size_of_product(w, w);
    let s = size(w);
    assert(s * s <= (2 * ample()) * u) by (nonlinear_arith)
        requires
            0 <= s <= 0x4001 * u,
            ample() >= 0x1_0000_0000_0000_0000 * u,
            u > 0,
    ;
    close::lemma_product(r, r);
    let q = r.times(r).value();
    // The square of twice the radius.
    close::lemma_off_times(d, all, all + 2 * e, d + all, 3 * all + 3);
    assert(d * (d + all) - all * (d + all) == d * d - all * all && d * d == 4 * (w * w) && (4 * q)
        * u == 4 * (q * u)) by (nonlinear_arith)
        requires
            d == 2 * w,
    ;
    let aa = all * all;
    assert((all + 2 * e) * (3 * all + 3) == 3 * aa + (3 + 6 * e) * all + 6 * e) by (nonlinear_arith)
        requires
            aa == all * all,
    ;
    assert(w * w >= 0) by (nonlinear_arith);
    assert(2 * ((3 + 6 * e) * all) + 12 * e + 4 * (e * u) <= u * u) by (nonlinear_arith)
        requires
            0 <= all <= 0x2000 * u,
            e == 0x100_0000,
            u >= 0x1_0000_0000_0000_0000,
    ;
    assert(off((4 * q) * u, 4 * (w * w), 4 * (w * w) + 4 * (e * u)));
    assert(off(4 * (w * w), aa, 3 * aa + (3 + 6 * e) * all + 6 * e));
    assert((3 + 6 * e) * all >= 0) by (nonlinear_arith)
        requires
            all >= 0,
            e > 0,
    ;
    assert(aa >= 0) by (nonlinear_arith)
        requires
            aa == all * all,
    ;
}

/// A template holds the pixels of a ring: those whose distance from its middle is
/// from the inner radius to the outer one, each given as a share of half the width,
/// but for rounding.
pub proof fn a_template_holds_a_ring(
    diam: int,
    x: int,
    y: int,
    outer: Binary32,
    inner: Binary32,
)
    requires
        0 <= x < diam <= 0x800,
        0 <= y < diam,
        outer.is_finite_spec(),
        inner.is_finite_spec(),
        0 <= outer.value() <= 4 * one(),
        0 <= inner.value() <= 4 * one(),
    ensures
        ({
            let u = one();
            let d = four_squares(diam, x, y) * (u * u);
            let far = diam * outer.value();
            let near = diam * inner.value();
            if template::keeps(diam, x, y, outer, inner) {
                &&& FINE * (d - far * far) <= 6 * (far * far) + u * u
                &&& FINE * (near * near - d) <= 6 * (near * near) + u * u
            } else {
                ||| FINE * (far * far - d) <= 6 * (far * far) + u * u
                ||| FINE * (d - near * near) <= 6 * (near * near) + u * u
            }
        }),
{
    let u = one();
    let quarter = pow2(147) as int;
    close::lemma_one();
    lemma_pow2_unfold(149);
    lemma_pow2_unfold(148);
    let m = lemma_square_is_exact(diam, x);
    let n = lemma_square_is_exact(diam, y);
    let c = convert::of_int(diam).minus(Binary32::one()).times(Binary32::half());
    let dx = convert::of_int(x).minus(c);
    let dy = convert::of_int(y).minus(c);
    let all = m * m + n * n;
    assert((m * m) * quarter + (n * n) * quarter == all * quarter) by (nonlinear_arith)
        requires
            all == m * m + n * n,
    ;
    exact::lemma_plus_exact(dx.times(dx), dy.times(dy), all, 147);
    let d2 = dx.times(dx).plus(dy.times(dy));
    assert((4 * d2.value()) * u == all * (u * u)) by (nonlinear_arith)
        requires
            d2.value() == all * quarter,
            u == 4 * quarter,
    ;
    lemma_radius_squared(diam, outer);
    lemma_radius_squared(diam, inner);
    let r_out = convert::of_int(diam).times(Binary32::half()).times(outer);
    let r_in = convert::of_int(diam).times(Binary32::half()).times(inner);
    let o2 = r_out.times(r_out);
    let i2 = r_in.times(r_in);
    order::lemma_order_of_values(d2, i2);
    order::lemma_order_of_values(o2, d2);
    let a = d2.value();
    let b = o2.value();
    let g = i2.value();
    assert((a <= b ==> (4 * a) * u <= (4 * b) * u) && (a >= b ==> (4 * a) * u >= (4 * b) * u) && (a
        <= g ==> (4 * a) * u <= (4 * g) * u) && (a >= g ==> (4 * a) * u >= (4 * g) * u))
        by (nonlinear_arith)
        requires
            u > 0,
    ;
}

/// The points of a ring are its pixels, each with the brightness of its pixel, and
/// no pixel of the ring is missing.
pub proof fn the_points_of_a_ring_are_its_pixels(
    data: Seq<u8>,
    diam: int,
    outer: Binary32,
    inner: Binary32,
    n: int,
)
    requires
        0 <= n <= diam * diam,
        0 <= diam <= 0x800,
    ensures
        ({
            let pts = template::ring(data, diam, outer, inner, n);
            &&& forall|k: int|
                0 <= k < pts.len() ==> {
                    let p = #[trigger] pts[k];
                    &&& p.0 < diam
                    &&& p.1 < diam
                    &&& p.1 * diam + p.0 < n
                    &&& template::keeps(diam, p.0 as int, p.1 as int, outer, inner)
                    &&& p.2 == convert::of_int(data[p.1 * diam + p.0] as int)
                }
            &&& forall|x: int, y: int|
                0 <= x < diam && 0 <= y < diam && y * diam + x < n && #[trigger] template::keeps(
                    diam,
                    x,
                    y,
                    outer,
                    inner,
                ) ==> exists|k: int|
                    0 <= k < pts.len() && (#[trigger] pts[k]).0 == x && pts[k].1 == y
        }),
    decreases n,
{
    if n > 0 {
        the_points_of_a_ring_are_its_pixels(data, diam, outer, inner, n - 1);
        let before = template::ring(data, diam, outer, inner, n - 1);
        let pts = template::ring(data, diam, outer, inner, n);
        let px = (n - 1) % diam;
        let py = (n - 1) / diam;
        if diam == 0 {
            assert(diam * diam == 0) by (nonlinear_arith)
                requires
                    diam == 0,
            ;
        }
        vstd::arithmetic::div_mod::lemma_fundamental_div_mod(n - 1, diam);
        vstd::arithmetic::div_mod::lemma_mod_bound(n - 1, diam);
        vstd::arithmetic::div_mod::lemma_div_pos_is_pos(n - 1, diam);
        assert(diam * py == py * diam) by (nonlinear_arith);
        assert(py < diam) by (nonlinear_arith)
            requires
                py * diam <= n - 1,
                n <= diam * diam,
                diam > 0,
        ;
        assert forall|x: int, y: int|
            0 <= x < diam && 0 <= y < diam && y * diam + x < n && #[trigger] template::keeps(
                diam,
                x,
                y,
                outer,
                inner,
            ) implies exists|k: int|
            0 <= k < pts.len() && (#[trigger] pts[k]).0 == x && pts[k].1 == y by {
            if y * diam + x == n - 1 {
                vstd::arithmetic::div_mod::lemma_fundamental_div_mod_converse(n - 1, diam, y, x);
                assert(pts == before.push(
                    (x as u32, y as u32, convert::of_int(data[n - 1] as int)),
                ));
                assert(pts[before.len() as int].0 == x);
            } else {
                let k = choose|k: int|
                    0 <= k < before.len() && (#[trigger] before[k]).0 == x && before[k].1 == y;
                assert(pts[k] == before[k]);
            }
        }
    }
}

/// The scales that locating tries reach from the guess less its spread to the guess
/// and its spread, for a guess of at most `m`.
pub proof fn the_scales_reach_over_the_spread(l: &MapLocator, m: int)
    requires
        1 <= m <= 0x1_0000,
        l.matching.scale.is_finite_spec(),
        l.matching.scale.ge(Binary32::of_bits(crate::locator::SCALE_MIN)),
        l.matching.scale.value() <= m * one(),
        l.matching.scale_search.gt(Binary32::zero()),
        l.matching.scale_search.le(Binary32::of_bits(crate::locator::SPREAD_MAX)),
    ensures
        ({
            let u = one();
            let s = l.matching.scale.value();
            let t = l.matching.scale_search.value();
            let r = l.scales();
            &&& r.0.is_finite_spec()
            &&& r.1.is_finite_spec()
            &&& off(r.0.value() * u, s * (u - t), (6 * m + 1) * (u * u))
            &&& off(r.1.value() * u, s * (u + t), (6 * m + 1) * (u * u))
            &&& size(r.0.value()) <= (3 * m + 1) * u
            &&& size(r.1.value()) <= (3 * m + 1) * u
        }),
{
    let u = one();
    let guess = l.matching.scale;
    let spread = l.matching.scale_search;
    let most = Binary32::of_bits(crate::locator::SPREAD_MAX);
    let least = Binary32::of_bits(crate::locator::SCALE_MIN);
    close::lemma_one();
    lemma_largest_spread();
    order::lemma_order_of_values(spread, most);
    order::lemma_order_of_values(Binary32::zero(), spread);
    order::lemma_order_of_values(least, guess);
    assert(least.value() >= 0);
    assert(guess.max(least) == guess);
    assert(spread.clamp(Binary32::zero(), most) == spread);
    let s = guess.value();
    let t = spread.value();
    close::lemma_difference_within(Binary32::one(), spread, 2);
    close::lemma_sum_within(Binary32::one(), spread, 2);
    let less = Binary32::one().minus(spread);
    let more = Binary32::one().plus(spread);
    assert(m * 3 == 3 * m);
    close::lemma_product_within(guess, less, m, 3);
    close::lemma_product_within(guess, more, m, 3);
    close::lemma_off_times(less.value(), u - t, 3 * u, s, m * u);
    close::lemma_off_times(more.value(), u + t, 3 * u, s, m * u);
    assert((3 * u) * (m * u) == (3 * m) * (u * u) && (6 * m + 1) * (u * u) == (3 * m + 1) * (u * u)
        + (3 * m) * (u * u) && less.value() * s == s * less.value() && (u - t) * s == s * (u - t)
        && more.value() * s == s * more.value() && (u + t) * s == s * (u + t)) by (nonlinear_arith);
}

/// The largest spread is less than one.
proof fn lemma_largest_spread()
    ensures
        Binary32::of_bits(crate::locator::SPREAD_MAX).is_finite_spec(),
        0 < Binary32::of_bits(crate::locator::SPREAD_MAX).value() < one(),
{
    let most = Binary32::of_bits(crate::locator::SPREAD_MAX);
    close::lemma_one();
    order::lemma_order_of_values(most, Binary32::one());
    order::lemma_order_of_values(Binary32::zero(), most);
}

/// The scales that locating tries are evenly spaced: step `i` is `i` of all the steps
/// of the way from the least to the largest.
pub proof fn the_scales_are_evenly_spaced(l: &MapLocator, i: int, m: int)
    requires
        1 <= m,
        2 <= l.steps(),
        m * l.steps() <= 0x1_0000,
        0 <= i < l.steps(),
        l.scales().0.is_finite_spec(),
        l.scales().1.is_finite_spec(),
        size(l.scales().0.value()) <= m * one(),
        size(l.scales().1.value()) <= m * one(),
    ensures
        ({
            let low = l.scales().0.value();
            let high = l.scales().1.value();
            let last = l.steps() - 1;
            &&& l.scale_at(i).is_finite_spec()
            &&& off(
                (l.scale_at(i).value() - low) * last,
                (high - low) * i,
                (16 * (m * l.steps())) * (l.steps() * one()),
            )
        }),
{
    let u = one();
    let e = FINE as int;
    let n = l.steps();
    let last = n - 1;
    let low = l.scales().0;
    let high = l.scales().1;
    let a = low.value();
    let b = high.value();
    close::lemma_one();
    assert(m <= 0x1_0000 && n <= 0x1_0000) by (nonlinear_arith)
        requires
            m * n <= 0x1_0000,
            m >= 1,
            n >= 2,
    ;
    exact::lemma_of_int_exact(i);
    exact::lemma_of_int_exact(last);
    assert(m * u + m * u == (2 * m) * u) by (nonlinear_arith);
    close::lemma_difference_within(high, low, 2 * m);
    let d = high.minus(low);
    let dv = d.value();
    let c = (2 * m + 1) * n;
    assert(size(convert::of_int(i).value()) <= n * u && c <= 0x80_0000 && c >= 0 && c <= 3 * (m * n))
        by (nonlinear_arith)
        requires
            convert::of_int(i).value() == i * u,
            0 <= i < n,
            u > 0,
            size(convert::of_int(i).value()) == convert::of_int(i).value() || i * u < 0,
            c == (2 * m + 1) * n,
            m * n <= 0x1_0000,
            1 <= m,
            n >= 2,
    ;
    close::lemma_product_within(d, convert::of_int(i), 2 * m + 1, n);
    let p = d.times(convert::of_int(i));
    let pv = p.value();
    assert(dv * (i * u) == (dv * i) * u && (c + 1) * (u * u) == ((c + 1) * u) * u)
        by (nonlinear_arith);
    close::lemma_cancelled(pv, dv * i, (c + 1) * u, u);
    // One step of all of them.
    let lv = last * u;
    let ps = size(pv);
    assert(lv > 0 && ps * u <= (2 * close::ample()) * lv && e * lv <= u * u) by (nonlinear_arith)
        requires
            lv == last * u,
            1 <= last <= 0x1_0000,
            0 <= ps <= (c + 1) * u,
            c <= 0x80_0000,
            u >= 0x1_0000_0000_0000_0000,
            close::ample() >= 0x1_0000_0000_0000_0000 * u,
            e == 0x100_0000,
    ;
    close::lemma_quotient(p, convert::of_int(last));
    let q = p.over(convert::of_int(last));
    let qv = q.value();
    assert(qv * lv == (qv * last) * u && ps * u + u * u == (ps + u) * u) by (nonlinear_arith)
        requires
            lv == last * u,
    ;
    close::lemma_cancelled(qv * last, pv, ps + u, u);
    assert((c + 1) * u + u == (c + 2) * u) by (nonlinear_arith);
    assert(size(qv) <= (c + 2) * u) by {
        close::lemma_size_of_product(qv, last);
        let s = size(qv);
        assert(e * (s * last) <= e * ((c + 1) * u) + (c + 2) * u);
        assert((c + 2) * u <= e * u) by (nonlinear_arith)
            requires
                c + 2 <= e,
                u > 0,
        ;
        assert(s <= s * last) by (nonlinear_arith)
            requires
                s >= 0,
                last >= 1,
        ;
    }
    assert(m * u + (c + 2) * u == (m + c + 2) * u) by (nonlinear_arith);
    close::lemma_sum_within(low, q, m + c + 2);
    let r = l.scale_at(i).value();
    assert(r == low.plus(q).value());
    // All together.
    assert(off(r - a, qv, (m + c + 3) * u));
    close::lemma_scaled(r - a, qv, (m + c + 3) * u, last);
    close::lemma_scaled(dv, b - a, (2 * m + 1) * u, i);
    let all = (m + c + 3) * u * last + (c + 2) * u + (c + 1) * u + (2 * m + 1) * u * i;
    close::lemma_chained(
        (r - a) * last,
        qv * last,
        pv,
        (m + c + 3) * u * last,
        (c + 2) * u,
    );
    close::lemma_chained(
        (r - a) * last,
        pv,
        dv * i,
        (m + c + 3) * u * last + (c + 2) * u,
        (c + 1) * u,
    );
    close::lemma_chained(
        (r - a) * last,
        dv * i,
        (b - a) * i,
        (m + c + 3) * u * last + (c + 2) * u + (c + 1) * u,
        (2 * m + 1) * u * i,
    );
    let mn = m * n;
    let nu = n * u;
    assert(all <= (16 * mn) * nu) by (nonlinear_arith)
        requires
            all == (m + c + 3) * u * last + (c + 2) * u + (c + 1) * u + (2 * m + 1) * u * i,
            last == n - 1,
            0 <= i < n,
            n >= 2,
            m >= 1,
            mn == m * n,
            nu == n * u,
            c <= 3 * mn,
            c >= 0,
            u > 0,
    ;
}

/// A minimap is looked for on the reduced map at its width there: the width at the
/// scale, in pixels of the reduced map, to the nearest whole number, but no less than
/// eight.
pub proof fn a_minimap_keeps_its_width_on_the_reduced_map(
    l: &MapLocator,
    mm_w: int,
    scale: Binary32,
)
    requires
        0 <= mm_w <= 0x100_0000,
        scale.is_finite_spec(),
        !scale.is_negative(),
        l.coarse_fx.is_finite_spec(),
        0x100 * l.coarse_fx.value() >= one(),
        l.coarse_fx.value() <= 0x100_0000 * one(),
        mm_w * scale.value() <= 0x2000 * one(),
    ensures
        ({
            let k = l.coarse_diam(mm_w, scale) as int;
            let w = mm_w * scale.value();
            let f = l.coarse_fx.value();
            let slack = FINE * f + 6 * w + 4 * (FINE * FINE);
            &&& k >= 8
            &&& FINE * (2 * w - 2 * (k * f)) <= slack
            &&& k == 8 || FINE * (2 * (k * f) - 2 * w) <= slack
        }),
{
    let u = one();
    let e = FINE as int;
    let v = scale.value();
    let w = mm_w * v;
    let f = l.coarse_fx.value();
    close::lemma_one();
    exact::lemma_of_int_exact(mm_w);
    exact::lemma_of_u32(mm_w);
    crate::binary32::arith::lemma_zero_magnitude(scale.magnitude());
    let a = convert::of_int(mm_w);
    assert(w >= 0 && a.value() * v == w * u && w * u <= (2 * ample()) * u && w * u >= 0)
        by (nonlinear_arith)
        requires
            w == mm_w * v,
            mm_w >= 0,
            v >= 0,
            a.value() == mm_w * u,
            w <= 0x2000 * u,
            u > 0,
            ample() >= 0x1_0000_0000_0000_0000 * u,
    ;
    close::lemma_product(a, scale);
    let p = a.times(scale);
    let pv = p.value();
    assert((w + e) * u == w * u + e * u) by (nonlinear_arith);
    close::lemma_cancelled(pv, w, w + e, u);
    let ps = size(pv);
    assert(ps <= 2 * w + 1);
    assert(ps * u <= (2 * ample()) * f) by (nonlinear_arith)
        requires
            0 <= ps <= 0x4001 * u,
            0x100 * f >= u,
            u > 0,
            ample() >= 0x1_0000_0000_0000_0000 * u,
    ;
    close::lemma_quotient(p, l.coarse_fx);
    let g = p.over(l.coarse_fx);
    let gv = g.value();
    lemma_not_negative(mm_w, scale, l.coarse_fx);
    assert(gv <= 0x80_0000 * u) by (nonlinear_arith)
        requires
            e * (gv * f - pv * u) <= ps * u + e * f,
            pv <= ps,
            0 <= ps <= 0x4001 * u,
            0x100 * f >= u,
            u >= 0x1_0000_0000_0000_0000,
            e == 0x100_0000,
    ;
    let k = close::lemma_rounded(g);
    let least = Binary32::of_bits(crate::locator::DIAM_MIN);
    lemma2_to64();
    lemma_pow2_adds(23, 129);
    lemma_pow2_adds(3, 149);
    assert(0x4100_0000int / 0x80_0000 == 130 && 0x4100_0000int % 0x80_0000 == 0);
    assert(least.value() == 8 * u);
    order::lemma_order_of_values(g.round(), least);
    assert((k <= 8 <==> k * u <= 8 * u) && (k >= 8 <==> k * u >= 8 * u)) by (nonlinear_arith)
        requires
            u > 0,
    ;
    let j = if k >= 8 {
        k
    } else {
        8
    };
    assert(j * u == (if k >= 8 { k * u } else { 8 * u }));
    exact::lemma_to_u32_exact(g.round().max(least), j);
    assert(l.coarse_diam(mm_w, scale) == j);
    // The nearest number of pixels.
    let x = 2 * (k * u) - 2 * gv;
    assert(-(u * f) <= x * f <= u * f && x * f == (2 * (k * f)) * u - 2 * (gv * f)) by (nonlinear_arith)
        requires
            -u <= x <= u,
            f >= 0,
            x == 2 * (k * u) - 2 * gv,
    ;
    let kf = k * f;
    assert(e * f <= (e * e) * u) by (nonlinear_arith)
        requires
            f <= 0x100_0000 * u,
            e == 0x100_0000,
    ;
    let slack = e * f + 6 * w + 4 * (e * e);
    assert(e * (pv * u - w * u) <= (w + e) * u && e * (w * u - pv * u) <= (w + e) * u && ps * u <= 2
        * (w * u) + u && (w + e) * u == w * u + e * u && (e * e) * u == e * (e * u)) by (nonlinear_arith)
        requires
            e * (pv - w) <= w + e,
            e * (w - pv) <= w + e,
            ps <= 2 * w + 1,
            u > 0,
    ;
    assert((2 * kf) * u == 2 * (kf * u) && slack * u == (e * f) * u + 6 * (w * u) + 4 * ((e * e) * u)
        && (e * f) * u == e * (u * f)) by (nonlinear_arith)
        requires
            slack == e * f + 6 * w + 4 * (e * e),
    ;
    assert(e * ((2 * kf) * u - 2 * (w * u)) <= slack * u);
    assert(e * (2 * (w * u) - (2 * kf) * u) <= slack * u);
    assert(e * (2 * kf - 2 * w) <= slack && e * (2 * w - 2 * kf) <= slack) by (nonlinear_arith)
        requires
            e * ((2 * kf) * u - 2 * (w * u)) <= slack * u,
            e * (2 * (w * u) - (2 * kf) * u) <= slack * u,
            u > 0,
    ;
    assert(k < 8 ==> kf <= 8 * f) by (nonlinear_arith)
        requires
            kf == k * f,
            f >= 0,
    ;
}

proof fn lemma_not_negative(n: int, scale: Binary32, f: Binary32)
    requires
        0 <= n <= 0x100_0000,
        scale.is_finite_spec(),
        !scale.is_negative(),
        f.is_finite_spec(),
        f.value() > 0,
        convert::of_int(n).times(scale).is_finite_spec(),
        convert::of_int(n).times(scale).over(f).is_finite_spec(),
    ensures
        !convert::of_int(n).times(scale).over(f).is_negative(),
{
    reveal(Binary32::times_spec);
    reveal(Binary32::over_spec);
    exact::lemma_of_u32(n);
    crate::binary32::arith::lemma_zero_magnitude(f.magnitude());
    let p = convert::of_int(n).times(scale);
    let x = crate::binary32::pattern::units(convert::of_int(n).magnitude());
    let y = crate::binary32::pattern::units(scale.magnitude());
    crate::binary32::arith::lemma_zero_magnitude(convert::of_int(n).magnitude());
    crate::binary32::arith::lemma_zero_magnitude(scale.magnitude());
    lemma_pow2_pos(149);
    assert(x * y >= 0) by (nonlinear_arith)
        requires
            x >= 0,
            y >= 0,
    ;
    exact::lemma_nearest_total(x * y, one());
    assert(!p.is_negative());
    let z = crate::binary32::pattern::units(p.magnitude());
    crate::binary32::arith::lemma_zero_magnitude(p.magnitude());
    assert(z * one() >= 0) by (nonlinear_arith)
        requires
            z >= 0,
            one() > 0,
    ;
    exact::lemma_nearest_total(z * one(), f.value());
}

/// The quotient of two counts of pixels.
proof fn lemma_reduction(w: int, cw: int)
    requires
        0 <= w <= 0x100_0000,
        1 <= cw <= 0x100_0000,
    ensures
        ({
            let f = convert::of_int(w).over(convert::of_int(cw));
            &&& f.is_finite_spec()
            &&& off(f.value() * cw, w * one(), w * one() + FINE * cw)
        }),
{
    let u = one();
    close::lemma_one();
    exact::lemma_of_int_exact(w);
    exact::lemma_of_int_exact(cw);
    let wu = w * u;
    let cu = cw * u;
    assert(0 <= wu && 1 <= cu && wu * u <= (2 * ample()) * cu) by (nonlinear_arith)
        requires
            wu == w * u,
            cu == cw * u,
            0 <= w <= 0x100_0000,
            1 <= cw,
            u >= 0x1_0000_0000_0000_0000,
            ample() >= 0x1_0000_0000_0000_0000 * u,
    ;
    close::lemma_quotient(convert::of_int(w), convert::of_int(cw));
    let f = convert::of_int(w).over(convert::of_int(cw)).value();
    let e = FINE as int;
    assert(f * cu == (f * cw) * u && wu * u + e * cu == (wu + e * cw) * u) by (nonlinear_arith)
        requires
            cu == cw * u,
    ;
    close::lemma_cancelled(f * cw, wu, wu + e * cw, u);
}

/// The reduced map is no wider than the map, has its proportions but for less than a
/// pixel, and its steps are so long, across and down, that it covers the whole map.
pub proof fn the_reduced_map_covers_the_map(l: &MapLocator)
    requires
        l.wf(),
        l.map_gray.width <= 0x100_0000,
        l.map_gray.height <= 0x100_0000,
    ensures
        ({
            let w = l.map_gray.width as int;
            let h = l.map_gray.height as int;
            let cw = l.coarse_w as int;
            let ch = l.coarse_h as int;
            &&& 200 <= cw <= w
            &&& 1 <= ch
            &&& h * cw < (ch + 1) * w
            &&& ch == 1 || ch * w <= h * cw
            &&& off(l.coarse_fx.value() * cw, w * one(), w * one() + FINE * cw)
            &&& off(l.coarse_fy.value() * ch, h * one(), h * one() + FINE * ch)
        }),
{
    let w = l.map_gray.width as int;
    let h = l.map_gray.height as int;
    let cw = l.coarse_w as int;
    let ch = l.coarse_h as int;
    let q = (h * cw) / w;
    vstd::arithmetic::div_mod::lemma_fundamental_div_mod(h * cw, w);
    vstd::arithmetic::div_mod::lemma_mod_bound(h * cw, w);
    assert(q * w == w * q && (q + 1) * w == w * q + w) by (nonlinear_arith);
    assert(q <= h && q >= 0) by (nonlinear_arith)
        requires
            w * q <= h * cw,
            h * cw < w * q + w,
            h >= 0,
            0 <= cw <= w,
            w > 0,
    ;
    assert(q + 1 <= ch + 1 ==> (q + 1) * w <= (ch + 1) * w) by (nonlinear_arith)
        requires
            w > 0,
    ;
    lemma_reduction(w, cw);
    lemma_reduction(h, ch);
}

} // verus!
