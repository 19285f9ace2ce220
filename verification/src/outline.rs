//! The shape of the arrow and of the lines that are drawn over the game.

use vstd::arithmetic::power2::*;
use vstd::prelude::*;

use crate::binary32::close;
use crate::binary32::close::{ample, off, one, size, FINE};
use crate::binary32::convert;
use crate::binary32::exact;
use crate::binary32::order;
use crate::binary32::Binary32;
use crate::locator::limit;
use crate::overlay;
use crate::overlay::Triangle;
use crate::spot::Spot;
use crate::ui::place;

verus! {

/// The numbers of the arrow's shape.
proof fn lemma_numbers()
    ensures
        Binary32::two().is_finite_spec() && Binary32::two().value() == 2 * one(),
        Binary32::of_bits(overlay::MAP_DIST_MIN).is_finite_spec() && Binary32::of_bits(
            overlay::MAP_DIST_MIN,
        ).value() == 100 * one(),
        Binary32::of_bits(overlay::MAP_DIST_MAX).is_finite_spec() && Binary32::of_bits(
            overlay::MAP_DIST_MAX,
        ).value() == 500 * one(),
        Binary32::of_bits(overlay::START_OFFSET).is_finite_spec() && Binary32::of_bits(
            overlay::START_OFFSET,
        ).value() == 25 * one(),
        Binary32::of_bits(overlay::HEAD_LENGTH).is_finite_spec() && Binary32::of_bits(
            overlay::HEAD_LENGTH,
        ).value() == 20 * one(),
        Binary32::of_bits(overlay::HEAD_HALF_WIDTH).is_finite_spec() && Binary32::of_bits(
            overlay::HEAD_HALF_WIDTH,
        ).value() == 12 * one(),
        Binary32::of_bits(overlay::HEAD_AHEAD).is_finite_spec() && Binary32::of_bits(
            overlay::HEAD_AHEAD,
        ).value() == 4 * one(),
        Binary32::of_bits(overlay::HEAD_ASIDE).is_finite_spec() && Binary32::of_bits(
            overlay::HEAD_ASIDE,
        ).value() == 3 * one(),
{
    lemma2_to64();
    lemma_pow2_adds(22, 127);
    lemma_pow2_adds(21, 128);
    lemma_pow2_adds(20, 129);
    lemma_pow2_adds(19, 130);
    lemma_pow2_adds(17, 132);
    lemma_pow2_adds(15, 134);
    assert(0x4000_0000int / 0x80_0000 == 128 && 0x4000_0000int % 0x80_0000 == 0);
    assert(0x42c8_0000int / 0x80_0000 == 133 && 0x42c8_0000int % 0x80_0000 == 0x48_0000);
    assert(0x43fa_0000int / 0x80_0000 == 135 && 0x43fa_0000int % 0x80_0000 == 0x7a_0000);
    assert(0x41c8_0000int / 0x80_0000 == 131 && 0x41c8_0000int % 0x80_0000 == 0x48_0000);
    assert(0x41a0_0000int / 0x80_0000 == 131 && 0x41a0_0000int % 0x80_0000 == 0x20_0000);
    assert(0x4140_0000int / 0x80_0000 == 130 && 0x4140_0000int % 0x80_0000 == 0x40_0000);
    assert(0x4080_0000int / 0x80_0000 == 129 && 0x4080_0000int % 0x80_0000 == 0);
    assert(0x4040_0000int / 0x80_0000 == 128 && 0x4040_0000int % 0x80_0000 == 0x40_0000);
    assert(Binary32::of_bits(overlay::MAP_DIST_MIN).value() == 0xc8_0000 * pow2(132));
    assert(Binary32::of_bits(overlay::MAP_DIST_MAX).value() == 0xfa_0000 * pow2(134));
    assert(Binary32::of_bits(overlay::START_OFFSET).value() == 0xc8_0000 * pow2(130));
    assert(Binary32::of_bits(overlay::HEAD_LENGTH).value() == 0xa0_0000 * pow2(130));
    assert(Binary32::of_bits(overlay::HEAD_HALF_WIDTH).value() == 0xc0_0000 * pow2(129));
    assert(Binary32::of_bits(overlay::HEAD_AHEAD).value() == 0x80_0000 * pow2(128));
    assert(Binary32::of_bits(overlay::HEAD_ASIDE).value() == 0xc0_0000 * pow2(127));
    assert(Binary32::two().value() == 0x80_0000 * pow2(127));
}

/// The distance held between a hundred and five hundred.
pub open spec fn held_distance(d: int) -> int {
    if d < 100 * one() {
        100 * one()
    } else if d > 500 * one() {
        500 * one()
    } else {
        d
    }
}

/// Half of the shorter side.
proof fn lemma_longest(w: int, h: int) -> (n: int)
    requires
        1 <= w <= 0x1000,
        1 <= h <= 0x1000,
    ensures
        n == (if w < h { w } else { h }),
        ({
            let m = convert::of_int(w).min(convert::of_int(h)).times(Binary32::half());
            &&& m.is_finite_spec()
            &&& 2 * m.value() == n * one()
        }),
{
    let u = one();
    let half = pow2(148) as int;
    let n = if w < h {
        w
    } else {
        h
    };
    close::lemma_one();
    exact::lemma_one_and_half();
    lemma_pow2_unfold(149);
    exact::lemma_of_int_exact(w);
    exact::lemma_of_int_exact(h);
    exact::lemma_of_int_exact(n);
    order::lemma_order_of_values(convert::of_int(w), convert::of_int(h));
    order::lemma_order_of_values(convert::of_int(h), convert::of_int(w));
    assert((w < h ==> w * u < h * u) && (w > h ==> w * u > h * u)) by (nonlinear_arith)
        requires
            u > 0,
    ;
    let m = convert::of_int(w).min(convert::of_int(h));
    assert(m == convert::of_int(n));
    assert((n * u) * half == (n * half) * u && 2 * (n * half) == n * u) by (nonlinear_arith)
        requires
            u == 2 * half,
    ;
    exact::lemma_times_exact(m, Binary32::half(), n, 148);
    n
}

/// The arrow is as long as half of the shorter side times its distance over five
/// hundred, where the distance is held between a hundred and five hundred.
#[verifier::spinoff_prover]
#[verifier::rlimit(60)]
pub proof fn the_arrow_grows_with_the_distance(w: int, h: int, distance: Binary32)
    requires
        1 <= w <= 0x1000,
        1 <= h <= 0x1000,
        distance.is_finite_spec(),
    ensures
        ({
            let len = overlay::arrow_length(w, h, distance);
            let n = if w < h {
                w
            } else {
                h
            };
            &&& len.is_finite_spec()
            &&& off(
                1000 * len.value(),
                n * held_distance(distance.value()),
                48_000_000 * one(),
            )
            &&& size(len.value()) <= 0x2900 * one()
        }),
{
    let u = one();
    let e = FINE as int;
    let near = Binary32::of_bits(overlay::MAP_DIST_MIN);
    let far = Binary32::of_bits(overlay::MAP_DIST_MAX);
    close::lemma_one();
    lemma_numbers();
    let n = lemma_longest(w, h);
    let longest = convert::of_int(w).min(convert::of_int(h)).times(Binary32::half());
    let nv = longest.value();
    assert(u <= n * u <= 0x1000 * u) by (nonlinear_arith)
        requires
            1 <= n <= 0x1000,
            u > 0,
    ;
    // A fifth.
    assert((100 * u) * u <= (2 * ample()) * (500 * u)) by (nonlinear_arith)
        requires
            u > 0,
            ample() >= 0x1_0000_0000_0000_0000 * u,
    ;
    close::lemma_quotient(near, far);
    let fifth = near.over(far);
    let fv = fifth.value();
    assert(fv * (500 * u) == (5 * fv) * (100 * u) && (100 * u) * u == u * (100 * u) && (100 * u) * u
        + e * (500 * u) == (u + 5 * e) * (100 * u)) by (nonlinear_arith);
    close::lemma_cancelled(5 * fv, u, u + 5 * e, 100 * u);
    assert(off(5 * fv, u, 2 * u));
    assert(size(fv) <= 1 * u);
    assert(0x800int * 1int == 0x800);
    close::lemma_product_within(longest, fifth, 0x800, 1);
    let least = longest.times(fifth);
    let a = least.value();
    assert(size(a) <= 0x801 * u);
    close::lemma_off_times(5 * fv, u, 2 * u, nv, 0x800 * u);
    assert((5 * fv) * nv == 5 * (nv * fv) && u * nv == nv * u && (2 * u) * (0x800 * u) == 0x1000 * (u
        * u) && (5 * a) * u == 5 * (a * u) && 0x3805 * (u * u) == (0x3805 * u) * u && u * u >= 0)
        by (nonlinear_arith);
    close::lemma_chained((5 * a) * u, 5 * (nv * fv), nv * u, 0x2805 * (u * u), 0x1000 * (u * u));
    close::lemma_cancelled(5 * a, nv, 0x3805 * u, u);
    // How far between.
    let d = distance.clamp(near, far);
    order::lemma_order_of_values(distance, near);
    order::lemma_order_of_values(far, distance);
    let dv = d.value();
    assert(d.is_finite_spec() && dv == held_distance(distance.value()));
    close::lemma_difference_within(d, near, 600);
    let g = d.minus(near);
    let gv = g.value();
    close::lemma_difference_within(far, near, 600);
    exact::lemma_negated(near);
    exact::lemma_plus_exact(far, near.negated(), 400, 149);
    let span = far.minus(near);
    assert(span.value() == 400 * u);
    let gs = size(gv);
    assert(gs * u <= (2 * ample()) * (400 * u)) by (nonlinear_arith)
        requires
            0 <= gs <= 601 * u,
            u > 0,
            ample() >= 0x1_0000_0000_0000_0000 * u,
    ;
    close::lemma_quotient(g, span);
    let t = g.over(span);
    let tv = t.value();
    assert(tv * (400 * u) == (400 * tv) * u && gs * u + e * (400 * u) == (gs + 400 * e) * u)
        by (nonlinear_arith);
    close::lemma_cancelled(400 * tv, gv, gs + 400 * e, u);
    assert(off(400 * tv, dv - 100 * u, 1204 * u));
    assert(size(tv) <= 2 * u);
    // What is left of the longest.
    close::lemma_difference_within(longest, least, 0x1001);
    let rest = longest.minus(least);
    let sv = rest.value();
    assert(off(5 * sv, 4 * nv, 0x9000 * u));
    assert(2int * 0x1002int == 0x2004);
    close::lemma_product_within(t, rest, 2, 0x1002);
    let p = t.times(rest);
    let pv = p.value();
    assert(size(pv) <= 0x2005 * u);
    let x = 400 * tv;
    let y = 5 * sv;
    let dx = dv - 100 * u;
    close::lemma_off_times(x, dx, 1204 * u, y, 0x500a * u);
    close::lemma_off_times(y, 4 * nv, 0x9000 * u, dx, 400 * u);
    assert((1204 * u) * (0x500a * u) == 24_669_960 * (u * u) && (0x9000 * u) * (400 * u) == 14_745_600
        * (u * u) && x * y == 2000 * (tv * sv) && (2000 * pv) * u == 2000 * (pv * u) && y * dx == dx
        * y && (4 * nv) * dx == 4 * (nv * dx)) by (nonlinear_arith)
        requires
            x == 400 * tv,
            y == 5 * sv,
    ;
    close::lemma_chained(x * y, dx * y, 4 * (nv * dx), 24_669_960 * (u * u), 14_745_600 * (u * u));
    assert(off((2000 * pv) * u, 2000 * (tv * sv), 16_394_000 * (u * u)));
    close::lemma_chained(
        (2000 * pv) * u,
        x * y,
        4 * (nv * dx),
        16_394_000 * (u * u),
        39_415_560 * (u * u),
    );
    // The length.
    close::lemma_sum_within(least, p, 0x2806);
    let len = overlay::arrow_length(w, h, distance).value();
    assert(len == least.plus(p).value());
    assert(off(len, a + pv, 0x2807 * u));
    close::lemma_scaled(len, a + pv, 0x2807 * u, 2000 * u);
    close::lemma_scaled(5 * a, nv, 0x3805 * u, 400 * u);
    assert((0x2807 * u) * (2000 * u) == 20_494_000 * (u * u) && (0x3805 * u) * (400 * u) == 5_736_400
        * (u * u) && len * (2000 * u) == (2000 * len) * u && (a + pv) * (2000 * u) == (5 * a) * (400
        * u) + (2000 * pv) * u && nv * (400 * u) + 4 * (nv * dx) == 4 * (nv * dv) && size(2000 * u)
        == 2000 * u && size(400 * u) == 400 * u) by (nonlinear_arith)
        requires
            dx == dv - 100 * u,
            u > 0,
            2000 * u >= 0 ==> size(2000 * u) == 2000 * u,
            400 * u >= 0 ==> size(400 * u) == 400 * u,
    ;
    assert(off((2000 * len) * u, 4 * (nv * dv), 82_100_000 * (u * u)));
    let nd = n * dv;
    assert(4 * (nv * dv) == (2 * nd) * u && 82_100_000 * (u * u) == (82_100_000 * u) * u)
        by (nonlinear_arith)
        requires
            2 * nv == n * u,
            nd == n * dv,
    ;
    close::lemma_cancelled(2000 * len, 2 * nd, 82_100_000 * u, u);
}

/// A finite number of at most one.
pub open spec fn is_share(a: Binary32) -> bool {
    a.is_finite_spec() && size(a.value()) <= one()
}

/// A coordinate moved by `k` lengths along a way, forward and back.
proof fn lemma_moved(at: Binary32, d: Binary32, far: Binary32, k: int, m: int, t: int)
    requires
        at.is_finite_spec(),
        is_share(d),
        far.is_finite_spec(),
        0 <= m <= 0x10_0000,
        0 <= k <= 0x1000,
        t == m + 2 * k + 3,
        far.value() == k * one(),
        size(at.value()) <= m * one(),
    ensures
        ({
            let u = one();
            let r = at.plus(d.times(far));
            let q = at.minus(d.times(far));
            &&& r.is_finite_spec()
            &&& q.is_finite_spec()
            &&& off(r.value(), at.value() + k * d.value(), t * u)
            &&& off(q.value(), at.value() - k * d.value(), t * u)
            &&& size(r.value()) <= (m + k + 2) * u
            &&& size(q.value()) <= (m + k + 2) * u
        }),
{
    let u = one();
    let v = d.value();
    close::lemma_one();
    assert(size(far.value()) <= k * u && k * u >= 0) by (nonlinear_arith)
        requires
            far.value() == k * u,
            k >= 0,
            u > 0,
            far.value() >= 0 ==> size(far.value()) == far.value(),
    ;
    assert(1 * k == k);
    close::lemma_product_within(d, far, 1, k);
    let p = d.times(far);
    assert(v * far.value() == (k * v) * u && (k + 1) * (u * u) == ((k + 1) * u) * u)
        by (nonlinear_arith)
        requires
            far.value() == k * u,
    ;
    close::lemma_cancelled(p.value(), k * v, (k + 1) * u, u);
    assert(m * u + (k + 1) * u == (m + k + 1) * u && (m + k + 2) * u + (k + 1) * u == t * u) by (nonlinear_arith)
        requires
            t == m + 2 * k + 3,
    ;
    close::lemma_sum_within(at, p, m + k + 1);
    close::lemma_difference_within(at, p, m + k + 1);
}

/// The middle of `n` pixels.
proof fn lemma_half(n: int)
    requires
        1 <= n <= 0x1000,
    ensures
        ({
            let c = convert::of_int(n).over(Binary32::two());
            &&& c.is_finite_spec()
            &&& off(2 * c.value(), n * one(), 0x1001 * one())
            &&& size(c.value()) <= 0x801 * one()
        }),
{
    let u = one();
    let e = FINE as int;
    close::lemma_one();
    lemma_numbers();
    exact::lemma_of_int_exact(n);
    let nu = n * u;
    assert(0 < nu <= 0x1000 * u && nu * u <= (2 * ample()) * (2 * u)) by (nonlinear_arith)
        requires
            nu == n * u,
            1 <= n <= 0x1000,
            u > 0,
            ample() >= 0x1_0000_0000_0000_0000 * u,
    ;
    close::lemma_quotient(convert::of_int(n), Binary32::two());
    let c = convert::of_int(n).over(Binary32::two()).value();
    assert(c * (2 * u) == (2 * c) * u && nu * u + e * (2 * u) == (nu + 2 * e) * u) by (nonlinear_arith);
    close::lemma_cancelled(2 * c, nu, nu + 2 * e, u);
}

/// One coordinate of the arrow.
pub open spec fn is_on_arrow(
    n: int,
    d: int,
    p: int,
    len: int,
    start: Binary32,
    end: Binary32,
    tip: Binary32,
    left: Binary32,
    right: Binary32,
    wide_left: Binary32,
    wide_right: Binary32,
) -> bool {
    let u = one();
    let e = end.value();
    &&& start.is_finite_spec() && off(2 * start.value(), n * u + 50 * d, 10_000 * u)
    &&& end.is_finite_spec() && off(
        (2 * e) * u,
        (n * u) * u + 2 * (d * (25 * u + len)),
        72_000 * (u * u),
    )
    &&& tip.is_finite_spec() && off(tip.value(), e + 4 * d, 26_000 * u)
    &&& left.is_finite_spec() && off(left.value(), e - 20 * d + 12 * p, 26_000 * u)
    &&& right.is_finite_spec() && off(right.value(), e - 20 * d - 12 * p, 26_000 * u)
    &&& wide_left.is_finite_spec() && off(wide_left.value(), e - 20 * d + 15 * p, 26_000 * u)
    &&& wide_right.is_finite_spec() && off(wide_right.value(), e - 20 * d - 15 * p, 26_000 * u)
}

/// Products with the numbers of the arrow's shape.
proof fn lemma_times(n: int, v: int)
    by (nonlinear_arith)
    ensures
        n == 4 ==> n * v == 4 * v,
        n == 12 ==> n * v == 12 * v,
        n == 15 ==> n * v == 15 * v,
        n == 20 ==> n * v == 20 * v,
        n == 25 ==> n * v == 25 * v,
{
}

#[verifier::spinoff_prover]
proof fn lemma_on_arrow(n: int, d: Binary32, p: Binary32, len: Binary32)
    requires
        1 <= n <= 0x1000,
        is_share(d),
        is_share(p),
        len.is_finite_spec(),
        size(len.value()) <= 0x2900 * one(),
    ensures
        ({
            let c = convert::of_int(n).over(Binary32::two());
            let start = Binary32::of_bits(overlay::START_OFFSET);
            let end = c.plus(d.times(start.plus(len)));
            let back = end.minus(d.times(Binary32::of_bits(overlay::HEAD_LENGTH)));
            let side = Binary32::of_bits(overlay::HEAD_HALF_WIDTH);
            let wide = side.plus(Binary32::of_bits(overlay::HEAD_ASIDE));
            is_on_arrow(
                n,
                d.value(),
                p.value(),
                len.value(),
                c.plus(d.times(start)),
                end,
                end.plus(d.times(Binary32::of_bits(overlay::HEAD_AHEAD))),
                back.plus(p.times(side)),
                back.minus(p.times(side)),
                back.plus(p.times(wide)),
                back.minus(p.times(wide)),
            )
        }),
{
    let u = one();
    let c = convert::of_int(n).over(Binary32::two());
    let start = Binary32::of_bits(overlay::START_OFFSET);
    let side = Binary32::of_bits(overlay::HEAD_HALF_WIDTH);
    let aside = Binary32::of_bits(overlay::HEAD_ASIDE);
    let dv = d.value();
    close::lemma_one();
    lemma_numbers();
    lemma_half(n);
    lemma_moved(c, d, start, 25, 0x801, 2102);
    // The end.
    close::lemma_sum_within(start, len, 0x2919);
    let reach = start.plus(len);
    let rv = reach.value();
    assert(1int * 0x291aint == 0x291a);
    close::lemma_product_within(d, reach, 1, 0x291a);
    let q = d.times(reach);
    assert(size(q.value()) <= 0x291b * u);
    close::lemma_sum_within(c, q, 0x311c);
    let end = c.plus(q);
    let ev = end.value();
    assert(off(2 * ev, 2 * c.value() + 2 * q.value(), 0x623a * u));
    assert(off(2 * ev, n * u + 2 * q.value(), 0x723b * u));
    close::lemma_scaled(2 * ev, n * u + 2 * q.value(), 0x723b * u, u);
    close::lemma_off_times(rv, 25 * u + len.value(), 0x291a * u, dv, u);
    assert((0x723b * u) * u == 0x723b * (u * u) && (n * u + 2 * q.value()) * u == (n * u) * u + 2
        * (q.value() * u) && (0x291a * u) * u == 0x291a * (u * u) && rv * dv == dv * rv && (25 * u
        + len.value()) * dv == dv * (25 * u + len.value()) && u * u >= 0) by (nonlinear_arith);
    assert(off((2 * ev) * u, (n * u) * u + 2 * (q.value() * u), 0x723b * (u * u)));
    assert(off(q.value() * u, dv * rv, 0x291b * (u * u)));
    assert(off(dv * rv, dv * (25 * u + len.value()), 0x291a * (u * u)));
    assert(size(ev) <= 0x311d * u);
    // The head.
    lemma_moved(end, d, Binary32::of_bits(overlay::HEAD_AHEAD), 4, 0x311d, 12584);
    lemma_moved(end, d, Binary32::of_bits(overlay::HEAD_LENGTH), 20, 0x311d, 12616);
    let back = end.minus(d.times(Binary32::of_bits(overlay::HEAD_LENGTH)));
    assert(size(back.value()) <= 0x3133 * u);
    exact::lemma_plus_exact(side, aside, 15, 149);
    let wide = side.plus(aside);
    assert(wide.value() == 15 * u);
    lemma_moved(back, p, side, 12, 0x3133, 12622);
    lemma_moved(back, p, wide, 15, 0x3133, 12628);
    lemma_times(25, dv);
    lemma_times(4, dv);
    lemma_times(20, dv);
    lemma_times(12, p.value());
    lemma_times(15, p.value());
    let want = (n * u) * u + 2 * (dv * (25 * u + len.value()));
    assert(off((2 * ev) * u, want, 72_000 * (u * u)));
    let near = c.plus(d.times(start)).value();
    assert(off(2 * near, n * u + 50 * dv, 10_000 * u));
    assert(off(end.plus(d.times(Binary32::of_bits(overlay::HEAD_AHEAD))).value(), ev + 4 * dv, 26_000
        * u));
    assert(off(back.plus(p.times(side)).value(), ev - 20 * dv + 12 * p.value(), 26_000 * u));
    assert(off(back.minus(p.times(side)).value(), ev - 20 * dv - 12 * p.value(), 26_000 * u));
    assert(off(back.plus(p.times(wide)).value(), ev - 20 * dv + 15 * p.value(), 26_000 * u));
    assert(off(back.minus(p.times(wide)).value(), ev - 20 * dv - 15 * p.value(), 26_000 * u));
}

/// The arrow points along the angle from straight ahead: it starts 25 pixels from the
/// middle, goes on for its length, and its head ends there; the head is 20 pixels long
/// and reaches 12 to either side, and its outline stands out by 4 and by 3 pixels.
pub proof fn the_arrow_points_along_its_angle(
    w: int,
    h: int,
    distance: Binary32,
    sin: Binary32,
    cos: Binary32,
)
    requires
        1 <= w <= 0x1000,
        1 <= h <= 0x1000,
        distance.is_finite_spec(),
        is_share(sin),
        is_share(cos),
    ensures
        ({
            let s = overlay::arrow_shape(w, h, distance, sin, cos);
            let len = overlay::arrow_length(w, h, distance).value();
            &&& s.inner.a == s.end
            &&& is_on_arrow(
                w,
                sin.value(),
                cos.value(),
                len,
                s.start.x,
                s.end.x,
                s.outer.a.x,
                s.inner.b.x,
                s.inner.c.x,
                s.outer.b.x,
                s.outer.c.x,
            )
            &&& is_on_arrow(
                h,
                -cos.value(),
                sin.value(),
                len,
                s.start.y,
                s.end.y,
                s.outer.a.y,
                s.inner.b.y,
                s.inner.c.y,
                s.outer.b.y,
                s.outer.c.y,
            )
        }),
{
    let len = overlay::arrow_length(w, h, distance);
    the_arrow_grows_with_the_distance(w, h, distance);
    exact::lemma_negated(cos);
    exact::lemma_negated(cos.negated());
    lemma_on_arrow(w, sin, cos.negated().negated(), len);
    lemma_on_arrow(h, cos.negated(), sin, len);
}

/// `x` is where the straight line from `p` to `q` is at the height `yf`, but for
/// rounding.
pub open spec fn is_crossing(x: int, p: Spot, q: Spot, yf: int, m: int) -> bool {
    off(
        (x - p.x.value()) * (q.y.value() - p.y.value()),
        (yf - p.y.value()) * (q.x.value() - p.x.value()),
        (64 * (m * m)) * (one() * one()),
    )
}

/// A finite number of at most `m`.
pub open spec fn is_within(a: Binary32, m: int) -> bool {
    a.is_finite_spec() && size(a.value()) <= m * one()
}

/// A difference that is not nothing does not come to nothing, and the difference to a
/// number between is no larger.
proof fn lemma_rising(p: Binary32, q: Binary32, y: Binary32)
    requires
        p.is_finite_spec(),
        q.is_finite_spec(),
        y.is_finite_spec(),
        q.minus(p).is_finite_spec(),
        y.minus(p).is_finite_spec(),
        p.value() <= y.value() <= q.value(),
        p.value() < q.value(),
    ensures
        q.minus(p).value() != 0,
        size(y.minus(p).value()) <= size(q.minus(p).value()),
{
    let zero = Binary32::zero();
    let least = Binary32::of_bits(1);
    close::lemma_one();
    exact::lemma_negated(p);
    lemma2_to64();
    assert(1int / 0x80_0000 == 0 && 1int % 0x80_0000 == 1);
    assert(least.is_finite_spec() && least.value() == 1);
    order::lemma_order_of_values(y, q);
    let b = q.minus(p);
    let a = y.minus(p);
    exact::lemma_plus_keeps_order(q, p.negated(), least);
    order::lemma_order_of_values(least, b);
    exact::lemma_plus_keeps_order(y, p.negated(), zero);
    order::lemma_order_of_values(zero, a);
    crate::circle::lemma_sum_keeps_order(y, q, p.negated());
    order::lemma_order_of_values(a, b);
}

/// The same whichever end is above.
proof fn lemma_between(p: Binary32, q: Binary32, y: Binary32)
    requires
        p.is_finite_spec(),
        q.is_finite_spec(),
        y.is_finite_spec(),
        q.minus(p).is_finite_spec(),
        y.minus(p).is_finite_spec(),
        (p.value() <= y.value() && y.value() < q.value()) || (q.value() <= y.value() && y.value()
            < p.value()),
    ensures
        q.minus(p).value() != 0,
        size(y.minus(p).value()) <= size(q.minus(p).value()),
{
    if p.value() < q.value() {
        lemma_rising(p, q, y);
    } else {
        let b = q.minus(p);
        let a = y.minus(p);
        exact::lemma_negated(p);
        exact::lemma_negated(q);
        exact::lemma_negated(y);
        limit::lemma_mirrored_difference(q, p);
        limit::lemma_mirrored_difference(y, p);
        let d = q.negated().minus(p.negated());
        let c = y.negated().minus(p.negated());
        assert(d.abs().magnitude() == d.magnitude() && b.abs().magnitude() == b.magnitude());
        assert(c.abs().magnitude() == c.magnitude() && a.abs().magnitude() == a.magnitude());
        lemma_rising(p.negated(), q.negated(), y.negated());
    }
}

/// A row crosses a side of a triangle where the straight line between its ends is at
/// the height of the row.
#[verifier::spinoff_prover]
#[verifier::rlimit(40)]
pub proof fn a_row_crosses_a_side_on_its_line(p: Spot, q: Spot, yf: Binary32, m: int)
    requires
        2 <= m <= 0x1000,
        is_within(p.x, m),
        is_within(p.y, m),
        is_within(q.x, m),
        is_within(q.y, m),
        is_within(yf, m),
        overlay::crosses(p, q, yf),
    ensures
        overlay::crossing(p, q, yf).is_finite_spec(),
        size(overlay::crossing(p, q, yf).value()) <= (5 * m + 4) * one(),
        is_crossing(overlay::crossing(p, q, yf).value(), p, q, yf.value(), m),
{
    let u = one();
    let e = FINE as int;
    close::lemma_one();
    order::lemma_order_of_values(p.y, yf);
    order::lemma_order_of_values(yf, q.y);
    order::lemma_order_of_values(q.y, yf);
    order::lemma_order_of_values(yf, p.y);
    assert(m * u + m * u == (2 * m) * u) by (nonlinear_arith);
    close::lemma_difference_within(yf, p.y, 2 * m);
    close::lemma_difference_within(q.y, p.y, 2 * m);
    close::lemma_difference_within(q.x, p.x, 2 * m);
    let a = yf.minus(p.y);
    let b = q.y.minus(p.y);
    let c = q.x.minus(p.x);
    let av = a.value();
    let bv = b.value();
    let cv = c.value();
    let ax = yf.value() - p.y.value();
    let bx = q.y.value() - p.y.value();
    let cx = q.x.value() - p.x.value();
    lemma_between(p.y, q.y, yf);
    let sa = size(av);
    let sb = size(bv);
    assert(sa * u <= (2 * ample()) * sb) by (nonlinear_arith)
        requires
            0 <= sa <= sb,
            ample() >= 0x1_0000_0000_0000_0000 * u,
            u > 0,
    ;
    close::lemma_quotient(a, b);
    let t = a.over(b);
    let tv = t.value();
    assert(size(tv) <= 2 * u) by {
        close::lemma_size_of_product(tv, bv);
        close::lemma_size_of_product(av, u);
        let s = size(tv);
        assert(s <= 2 * u) by (nonlinear_arith)
            requires
                e * (s * sb) <= e * (sa * u) + sa * u + e * sb,
                0 <= sa <= sb,
                sb > 0,
                e == 0x100_0000,
                u >= 0x1_0000_0000_0000_0000,
        ;
    }
    let k = 4 * m + 2;
    assert(2 * (2 * m + 1) == k);
    close::lemma_product_within(t, c, 2, 2 * m + 1);
    let g = t.times(c);
    let gv = g.value();
    assert(m * u + (k + 1) * u == (5 * m + 3) * u) by (nonlinear_arith)
        requires
            k == 4 * m + 2,
    ;
    close::lemma_sum_within(p.x, g, 5 * m + 3);
    let x = overlay::crossing(p, q, yf).value();
    // The share of the height.
    let uu = u * u;
    let w = 2 * m + 1;
    let wu = w * u;
    assert(w * u == (2 * m) * u + u && size(ax) <= (2 * m) * u && size(bx) <= (2 * m) * u) by {
        assert(w * u == (2 * m) * u + u) by (nonlinear_arith)
            requires
                w == 2 * m + 1,
        ;
    }
    close::lemma_off_times(bv, bx, wu, tv, 2 * u);
    assert(e * sb <= uu) by (nonlinear_arith)
        requires
            sb <= wu,
            wu == w * u,
            w <= 0x2001,
            uu == u * u,
            e == 0x100_0000,
            u >= 0x1_0000_0000_0000_0000,
    ;
    close::lemma_scaled(av, ax, wu, u);
    assert(wu * (2 * u) == (2 * w) * uu && wu * u == w * uu && tv * bv == bv * tv && tv * bx == bx
        * tv && uu >= 0) by (nonlinear_arith)
        requires
            wu == w * u,
            uu == u * u,
    ;
    assert(sa * u <= w * uu) by (nonlinear_arith)
        requires
            sa <= w * u,
            uu == u * u,
            u > 0,
    ;
    close::lemma_chained(tv * bx, tv * bv, av * u, (2 * w) * uu, w * uu + uu);
    close::lemma_chained(tv * bx, av * u, ax * u, (2 * w) * uu + (w * uu + uu), w * uu);
    let f = 4 * w + 1;
    assert((2 * w) * uu + (w * uu + uu) + w * uu == f * uu) by (nonlinear_arith)
        requires
            f == 4 * w + 1,
    ;
    // The way across.
    close::lemma_off_times(tv * bx, ax * u, f * uu, cv, wu);
    close::lemma_size_of_product(ax, u);
    assert(size(ax) * u <= wu * u) by (nonlinear_arith)
        requires
            size(ax) <= wu,
            u > 0,
    ;
    close::lemma_off_times(cv, cx, wu, ax * u, wu * u);
    close::lemma_off_times(gv * u, tv * cv, (k + 1) * uu, bx, wu);
    let d = x - p.x.value();
    assert(off(d, gv, (5 * m + 4) * u));
    close::lemma_off_times(d, gv, (5 * m + 4) * u, bx, wu);
    let h = (f * w + w * w + (k + 1) * w) * uu;
    assert((f * uu) * wu + wu * (wu * u) + ((k + 1) * uu) * wu == h * u && ((5 * m + 4) * u) * wu
        == ((5 * m + 4) * w) * uu) by (nonlinear_arith)
        requires
            h == (f * w + w * w + (k + 1) * w) * uu,
            wu == w * u,
            uu == u * u,
    ;
    assert((tv * bx) * cv == (tv * cv) * bx && cv * (ax * u) == (ax * u) * cv && cx * (ax * u) == (ax
        * cx) * u && (gv * u) * bx == (gv * bx) * u) by (nonlinear_arith);
    close::lemma_chained(
        (gv * bx) * u,
        (tv * cv) * bx,
        (ax * u) * cv,
        ((k + 1) * uu) * wu,
        (f * uu) * wu,
    );
    close::lemma_chained(
        (gv * bx) * u,
        (ax * u) * cv,
        (ax * cx) * u,
        ((k + 1) * uu) * wu + (f * uu) * wu,
        wu * (wu * u),
    );
    close::lemma_cancelled(gv * bx, ax * cx, h, u);
    close::lemma_chained(d * bx, gv * bx, ax * cx, ((5 * m + 4) * w) * uu, h);
    assert(((5 * m + 4) * w) * uu + h <= (64 * (m * m)) * uu) by (nonlinear_arith)
        requires
            h == (f * w + w * w + (k + 1) * w) * uu,
            f == 4 * w + 1,
            w == 2 * m + 1,
            k == 4 * m + 2,
            m >= 2,
            uu >= 0,
    ;
}

/// One coordinate of a corner: from `at` it is away from the line by `half`, along
/// the way across, whose part in this coordinate is `part` of a length of `len`.
pub open spec fn is_across(r: Binary32, at: int, part: int, half: int, len: int, m: int) -> bool {
    r.is_finite_spec() && off(
        (r.value() - at) * len,
        part * half,
        ((50 * m + 100) * one()) * len,
    )
}

/// A corner of a thick line, on either side.
#[verifier::spinoff_prover]
#[verifier::rlimit(40)]
proof fn lemma_across(at: Binary32, d: Binary32, x: int, half: Binary32, len: Binary32, m: int)
    requires
        1 <= m <= 0x2000,
        is_within(at, m),
        d.is_finite_spec(),
        size(x) <= (2 * m) * one(),
        off(d.value(), x, (2 * m + 1) * one()),
        is_within(half, 8),
        len.is_finite_spec(),
        one() <= 2 * len.value(),
        size(d.value()) <= 2 * len.value(),
        len.value() <= 0x10_0000 * one(),
    ensures
        is_across(at.plus(d.over(len).times(half)), at.value(), x, half.value(), len.value(), m),
        is_across(at.minus(d.over(len).times(half)), at.value(), -x, half.value(), len.value(), m),
{
    let u = one();
    let e = FINE as int;
    let dv = d.value();
    let l = len.value();
    let h = half.value();
    close::lemma_one();
    let sd = size(dv);
    assert(sd * u <= (2 * ample()) * l) by (nonlinear_arith)
        requires
            0 <= sd <= 2 * l,
            u > 0,
            ample() >= 0x1_0000_0000_0000_0000 * u,
    ;
    close::lemma_quotient(d, len);
    let n = d.over(len);
    let nv = n.value();
    assert(size(nv) <= 3 * u) by {
        close::lemma_size_of_product(nv, l);
        close::lemma_size_of_product(dv, u);
        let s = size(nv);
        assert(s <= 3 * u) by (nonlinear_arith)
            requires
                e * (s * l) <= e * (sd * u) + sd * u + e * l,
                0 <= sd <= 2 * l,
                l > 0,
                e == 0x100_0000,
                u >= 0x1_0000_0000_0000_0000,
        ;
    }
    assert(3int * 8int == 24);
    close::lemma_product_within(n, half, 3, 8);
    let p = n.times(half);
    let pv = p.value();
    assert(size(pv) <= 25 * u);
    assert(m * u + 25 * u == (m + 25) * u) by (nonlinear_arith);
    close::lemma_sum_within(at, p, m + 25);
    close::lemma_difference_within(at, p, m + 25);
    let r = at.plus(p).value() - at.value();
    let q = at.minus(p).value() - at.value();
    let w = (m + 26) * u;
    assert(off(r, pv, w));
    assert(off(q, -pv, w));
    close::lemma_off_times(r, pv, w, l, l);
    close::lemma_off_times(q, -pv, w, l, l);
    // The product and the quotient.
    let uu = u * u;
    let lu = l * u;
    close::lemma_off_times(pv * u, nv * h, 25 * uu, l, l);
    assert(sd * u + e * l <= 3 * lu) by (nonlinear_arith)
        requires
            0 <= sd <= 2 * l,
            lu == l * u,
            e == 0x100_0000,
            l > 0,
            u >= 0x1_0000_0000_0000_0000,
    ;
    close::lemma_off_times(nv * l, dv * u, 3 * lu, h, 8 * u);
    let xw = (2 * m + 1) * u;
    close::lemma_size_of_product(h, u);
    assert(size(h) * u <= (8 * u) * u) by (nonlinear_arith)
        requires
            size(h) <= 8 * u,
            u > 0,
    ;
    close::lemma_off_times(dv, x, xw, h * u, (8 * u) * u);
    let a = (25 * uu) * l;
    let b = (3 * lu) * (8 * u);
    let c = xw * ((8 * u) * u);
    assert((pv * u) * l == (pv * l) * u && (nv * h) * l == (nv * l) * h && (dv * u) * h == dv * (h * u)
        && x * (h * u) == (x * h) * u) by (nonlinear_arith);
    close::lemma_chained((pv * l) * u, (nv * h) * l, (dv * u) * h, a, b);
    close::lemma_chained((pv * l) * u, dv * (h * u), (x * h) * u, a + b, c);
    let k = (32 * m + 65) * lu;
    assert(a == (25 * lu) * u && b == (24 * lu) * u) by (nonlinear_arith)
        requires
            a == (25 * uu) * l,
            b == (3 * lu) * (8 * u),
            uu == u * u,
            lu == l * u,
    ;
    assert(c <= ((32 * m + 16) * lu) * u) by (nonlinear_arith)
        requires
            c == xw * ((8 * u) * u),
            xw == (2 * m + 1) * u,
            lu == l * u,
            u <= 2 * l,
            u > 0,
            m >= 1,
    ;
    assert((25 * lu) * u + (24 * lu) * u + ((32 * m + 16) * lu) * u == k * u) by (nonlinear_arith)
        requires
            k == (32 * m + 65) * lu,
    ;
    close::lemma_cancelled(pv * l, x * h, k, u);
    // On either side.
    assert((-pv) * l == -(pv * l) && (-x) * h == -(x * h)) by (nonlinear_arith);
    close::lemma_chained(r * l, pv * l, x * h, w * l, k);
    close::lemma_chained(q * l, (-pv) * l, (-x) * h, w * l, k);
    assert(w * l + k <= ((50 * m + 100) * u) * l) by (nonlinear_arith)
        requires
            w == (m + 26) * u,
            k == (32 * m + 65) * lu,
            lu == l * u,
            l > 0,
            u > 0,
            m >= 1,
    ;
}

/// A thick line is a rectangle about the straight line between its ends: its corners
/// lie to both sides of each end, by half of its thickness, straight across the line.
pub proof fn a_thick_line_reaches_straight_across(
    from: Spot,
    to: Spot,
    thickness: Binary32,
    m: int,
)
    requires
        1 <= m <= 0x1000,
        is_within(from.x, m),
        is_within(from.y, m),
        is_within(to.x, m),
        is_within(to.y, m),
        thickness.is_finite_spec(),
        is_within(thickness.over(Binary32::two()), 8),
        ({
            let dx = to.x.minus(from.x);
            let dy = to.y.minus(from.y);
            dx.times(dx).plus(dy.times(dy)).sqrt().ge(Binary32::half())
        }),
    ensures
        ({
            let dx = to.x.value() - from.x.value();
            let dy = to.y.value() - from.y.value();
            let half = thickness.over(Binary32::two()).value();
            let l = to.minus(from).length().value();
            let r = overlay::line_halves(from, to, thickness);
            &&& l > 0
            &&& is_across(r.0.a.x, from.x.value(), -dy, half, l, m)
            &&& is_across(r.0.a.y, from.y.value(), dx, half, l, m)
            &&& is_across(r.0.b.x, from.x.value(), dy, half, l, m)
            &&& is_across(r.0.b.y, from.y.value(), -dx, half, l, m)
            &&& is_across(r.0.c.x, to.x.value(), dy, half, l, m)
            &&& is_across(r.0.c.y, to.y.value(), -dx, half, l, m)
            &&& r.1.a == r.0.a
            &&& r.1.b == r.0.c
            &&& is_across(r.1.c.x, to.x.value(), -dy, half, l, m)
            &&& is_across(r.1.c.y, to.y.value(), dx, half, l, m)
        }),
{
    let u = one();
    let dx = to.x.minus(from.x);
    let dy = to.y.minus(from.y);
    let x = to.x.value() - from.x.value();
    let y = to.y.value() - from.y.value();
    let len = dx.times(dx).plus(dy.times(dy)).sqrt();
    let half = thickness.over(Binary32::two());
    close::lemma_one();
    assert(m * u + m * u == (2 * m) * u) by (nonlinear_arith);
    close::lemma_difference_within(to.x, from.x, 2 * m);
    close::lemma_difference_within(to.y, from.y, 2 * m);
    assert((2 * m + 1) * u <= 0x4001 * u) by (nonlinear_arith)
        requires
            2 * m + 1 <= 0x4001,
            u > 0,
    ;
    exact::lemma_negated(dy);
    lemma_long(dx, dy);
    exact::lemma_one_and_half();
    lemma_pow2_unfold(149);
    order::lemma_order_of_values(Binary32::half(), len);
    lemma_across(from.x, dy.negated(), -y, half, len, m);
    lemma_across(from.y, dx, x, half, len, m);
    lemma_across(to.x, dy.negated(), -y, half, len, m);
    lemma_across(to.y, dx, x, half, len, m);
}

/// A way is no longer along an axis than twice its length.
proof fn lemma_long(dx: Binary32, dy: Binary32)
    requires
        is_within(dx, 0x4001),
        is_within(dy, 0x4001),
        dx.times(dx).plus(dy.times(dy)).sqrt().ge(Binary32::half()),
    ensures
        ({
            let len = dx.times(dx).plus(dy.times(dy)).sqrt();
            &&& len.is_finite_spec()
            &&& one() <= 2 * len.value()
            &&& size(dx.value()) <= 2 * len.value()
            &&& size(dy.value()) <= 2 * len.value()
            &&& len.value() <= 0x10_0000 * one()
        }),
{
    let u = one();
    let e = FINE as int;
    let x = dx.value();
    let y = dy.value();
    let q = x * x + y * y;
    close::lemma_one();
    exact::lemma_one_and_half();
    lemma_pow2_unfold(149);
    close::lemma_size_of_product(x, x);
    close::lemma_size_of_product(y, y);
    let sx = size(x);
    let sy = size(y);
    assert(0 <= q <= 0x2002_0000 * (u * u) && x * x >= 0 && y * y >= 0 && sx * sx == x * x && sy * sy
        == y * y) by (nonlinear_arith)
        requires
            q == x * x + y * y,
            size(x * x) == sx * sx,
            size(y * y) == sy * sy,
            x * x >= 0 ==> size(x * x) == x * x,
            y * y >= 0 ==> size(y * y) == y * y,
            -(0x4001 * u) <= x <= 0x4001 * u,
            -(0x4001 * u) <= y <= 0x4001 * u,
            u > 0,
    ;
    assert(8 * (0x2002_0000 * (u * u)) <= ample() * u) by (nonlinear_arith)
        requires
            u > 0,
            ample() >= 0x1_0000_0000_0000_0000 * u,
    ;
    close::lemma_length(dx, dy);
    let len = dx.times(dx).plus(dy.times(dy)).sqrt();
    let l = len.value();
    order::lemma_order_of_values(Binary32::half(), len);
    let ll = l * l;
    let eu = e * u;
    assert(ll <= 2 * q + eu && 4 * ll >= 3 * q - eu);
    assert(4 * ll >= u * u && eu * 0x100 <= u * u) by (nonlinear_arith)
        requires
            ll == l * l,
            2 * l >= u,
            eu == e * u,
            e == 0x100_0000,
            u >= 0x1_0000_0000_0000_0000,
    ;
    assert(l <= 0x10_0000 * u) by (nonlinear_arith)
        requires
            ll == l * l,
            ll <= 2 * q + eu,
            q <= 0x2002_0000 * (u * u),
            eu * 0x100 <= u * u,
            l >= 0,
            u > 0,
    ;
    assert(sx <= 2 * l && sy <= 2 * l) by (nonlinear_arith)
        requires
            ll == l * l,
            sx * sx <= q,
            sy * sy <= q,
            4 * ll >= 3 * q - eu,
            eu * 0x100 <= u * u,
            2 * l >= u,
            l >= 0,
            u > 0,
    ;
}

/// The squared distance of the middle of a pixel from a place.
pub open spec fn squared_from(x: int, y: int, cx: Binary32, cy: Binary32) -> int {
    let dx = overlay::pixel_middle(x).value() - cx.value();
    let dy = overlay::pixel_middle(y).value() - cy.value();
    dx * dx + dy * dy
}

/// The middle of a pixel is half a pixel past it.
proof fn lemma_pixel_middle(x: int)
    requires
        0 <= x <= 0x2000,
    ensures
        overlay::pixel_middle(x).is_finite_spec(),
        2 * overlay::pixel_middle(x).value() == (2 * x + 1) * one(),
{
    let u = one();
    let half = pow2(148) as int;
    close::lemma_one();
    exact::lemma_one_and_half();
    lemma_pow2_unfold(149);
    exact::lemma_of_int_exact(x);
    assert(x * u + half == (2 * x + 1) * half && 2 * ((2 * x + 1) * half) == (2 * x + 1) * u)
        by (nonlinear_arith)
        requires
            u == 2 * half,
    ;
    exact::lemma_plus_exact(convert::of_int(x), Binary32::half(), 2 * x + 1, 148);
}

/// The squared distance as it is computed.
proof fn lemma_squared(x: int, y: int, cx: Binary32, cy: Binary32)
    requires
        0 <= x <= 0x2000,
        0 <= y <= 0x2000,
        is_within(cx, 0x2000),
        is_within(cy, 0x2000),
    ensures
        ({
            let dx = overlay::pixel_middle(x).minus(cx);
            let dy = overlay::pixel_middle(y).minus(cy);
            let d2 = dx.times(dx).plus(dy.times(dy));
            let q = squared_from(x, y, cx, cy);
            &&& d2.is_finite_spec()
            &&& off(d2.value() * one(), q, 8 * q + 12 * (FINE * one()))
            &&& q >= 0
        }),
{
    let u = one();
    let e = FINE as int;
    let eu = e * u;
    close::lemma_one();
    lemma_pixel_middle(x);
    lemma_pixel_middle(y);
    let px = overlay::pixel_middle(x);
    let py = overlay::pixel_middle(y);
    assert(0 <= (2 * x + 1) * u <= 0x4001 * u && 0 <= (2 * y + 1) * u <= 0x4001 * u)
        by (nonlinear_arith)
        requires
            0 <= x <= 0x2000,
            0 <= y <= 0x2000,
            u > 0,
    ;
    place::lemma_square_of_difference(px, cx);
    place::lemma_square_of_difference(py, cy);
    let a = px.minus(cx);
    let b = py.minus(cy);
    let g = a.value() * a.value();
    let h = b.value() * b.value();
    let q = squared_from(x, y, cx, cy);
    let s = g + h;
    assert(off(s, q, 4 * q + 2 * eu));
    let xx = px.value() - cx.value();
    let yy = py.value() - cy.value();
    assert(0 <= q <= 0x4000_0000 * (u * u)) by (nonlinear_arith)
        requires
            q == xx * xx + yy * yy,
            -(0x4002 * u) <= xx <= 0x4002 * u,
            -(0x4002 * u) <= yy <= 0x4002 * u,
    ;
    assert(eu * 0x100 <= u * u && 0x8000_0000 * (u * u) <= ample() * u && (2 * ample()) * u == 2
        * (ample() * u)) by (nonlinear_arith)
        requires
            eu == e * u,
            e == 0x100_0000,
            u >= 0x1_0000_0000_0000_0000,
            ample() >= 0x1_0000_0000_0000_0000 * u,
    ;
    close::lemma_product(a, a);
    close::lemma_product(b, b);
    close::lemma_square(a);
    close::lemma_square(b);
    let p = a.times(a);
    let r = b.times(b);
    let pv = p.value();
    let rv = r.value();
    assert((pv + rv) * u == pv * u + rv * u) by (nonlinear_arith);
    let z = pv + rv;
    assert(z * u <= 2 * s + 4 * u);
    assert(z <= 2 * ample()) by (nonlinear_arith)
        requires
            z * u <= 2 * s + 4 * u,
            s <= 0x6000_0000 * (u * u),
            u >= 0x1_0000_0000_0000_0000,
            ample() >= 0x1_0000_0000_0000_0000 * u,
    ;
    close::lemma_sum(p, r);
    let d = p.plus(r).value();
    close::lemma_scaled(d, z, z + e, u);
    assert((z + e) * u == z * u + eu) by (nonlinear_arith)
        requires
            eu == e * u,
    ;
    assert(off(d * u, z * u, z * u + eu));
    assert(off(z * u, s, s + 2 * eu));
}

/// Whole numbers about the middle of a pixel.
proof fn lemma_pixel_in_bounds(s: Binary32, t: Binary32, x: int)
    requires
        0 <= x <= 0x2000,
        is_within(s, 0x8000),
        is_within(t, 0x8000),
        2 * s.value() <= (2 * x + 1) * one(),
        2 * t.value() >= (2 * x + 1) * one(),
    ensures
        s.floor().to_i32() <= x,
        t.ceil().to_i32() >= x,
{
    let u = one();
    close::lemma_one();
    crate::binary32::arith::lemma_zero_magnitude(s.magnitude());
    crate::binary32::arith::lemma_zero_magnitude(t.magnitude());
    assert((2 * x + 1) * u == 2 * (x * u) + u && (x + 1) * u == x * u + u && x * u >= 0)
        by (nonlinear_arith)
        requires
            x >= 0,
            u > 0,
    ;
    if s.is_negative() {
        exact::lemma_negative_floor(s);
        exact::lemma_to_i32_keeps_order(s.floor(), Binary32::zero());
        assert(0 * vstd::arithmetic::power2::pow2(149) == 0) by (nonlinear_arith);
        exact::lemma_to_i32_exact(Binary32::zero(), 0);
    } else {
        let k = exact::lemma_whole_or_large(s).0;
        let v = s.value();
        vstd::arithmetic::div_mod::lemma_fundamental_div_mod(v, u);
        vstd::arithmetic::div_mod::lemma_mod_bound(v, u);
        assert(u * k == k * u) by (nonlinear_arith);
        assert(k <= x) by (nonlinear_arith)
            requires
                k * u <= v,
                v < (x + 1) * u,
                u > 0,
        ;
        exact::lemma_to_i32_exact(s.floor(), k);
    }
    let k = exact::lemma_whole_or_large(t).1;
    let v = t.value() + u - 1;
    vstd::arithmetic::div_mod::lemma_fundamental_div_mod(v, u);
    vstd::arithmetic::div_mod::lemma_mod_bound(v, u);
    assert(u * k == k * u) by (nonlinear_arith);
    assert(x <= k <= 0x1_0000) by (nonlinear_arith)
        requires
            k * u <= v,
            v < k * u + u,
            v >= x * u,
            v <= 0x8001 * u,
            u > 0,
    ;
    exact::lemma_to_i32_exact(t.ceil(), k);
}

/// A disc holds the pixels of the buffer whose middle is within its radius, and no
/// others, but for rounding.
pub proof fn a_disc_holds_the_pixels_within_its_radius(
    w: int,
    h: int,
    cx: Binary32,
    cy: Binary32,
    r: Binary32,
    x: int,
    y: int,
)
    requires
        0 <= x < w <= 0x2000,
        0 <= y < h <= 0x2000,
        is_within(cx, 0x2000),
        is_within(cy, 0x2000),
        is_within(r, 0x2000),
        r.ge(Binary32::half()),
    ensures
        ({
            let q = squared_from(x, y, cx, cy);
            let rr = r.value() * r.value();
            let slack = 8 * q + rr + 13 * (FINE * one());
            &&& overlay::in_disc(w, h, cx, cy, r, x, y) ==> FINE * (q - rr) <= slack
            &&& FINE * (rr - q) > slack ==> overlay::in_disc(w, h, cx, cy, r, x, y)
        }),
{
    let u = one();
    let e = FINE as int;
    let eu = e * u;
    let q = squared_from(x, y, cx, cy);
    let rv = r.value();
    let rr = rv * rv;
    close::lemma_one();
    exact::lemma_one_and_half();
    lemma_pow2_unfold(149);
    order::lemma_order_of_values(Binary32::half(), r);
    lemma_squared(x, y, cx, cy);
    lemma_pixel_middle(x);
    lemma_pixel_middle(y);
    let px = overlay::pixel_middle(x);
    let py = overlay::pixel_middle(y);
    let a = px.minus(cx);
    let b = py.minus(cy);
    let d2 = a.times(a).plus(b.times(b));
    assert(0 <= rr && rr <= (2 * ample()) * u) by (nonlinear_arith)
        requires
            rr == rv * rv,
            0 <= rv <= 0x2000 * u,
            u > 0,
            ample() >= 0x1_0000_0000_0000_0000 * u,
    ;
    close::lemma_product(r, r);
    let r2 = r.times(r);
    order::lemma_order_of_values(d2, r2);
    let dv = d2.value();
    let sv = r2.value();
    assert((dv <= sv ==> dv * u <= sv * u) && (dv >= sv ==> dv * u >= sv * u)) by (nonlinear_arith)
        requires
            u > 0,
    ;
    let slack = 8 * q + rr + 13 * eu;
    if e * (rr - q) > slack {
        assert(dv <= sv);
        let dx = px.value() - cx.value();
        let dy = py.value() - cy.value();
        assert(eu >= 0) by (nonlinear_arith)
            requires
                eu == e * u,
                e > 0,
                u > 0,
        ;
        assert(-rv <= dx <= rv && -rv <= dy <= rv) by (nonlinear_arith)
            requires
                q == dx * dx + dy * dy,
                rr == rv * rv,
                q <= rr,
                rv >= 0,
        ;
        lemma_bounds(cx, r, x);
        lemma_bounds(cy, r, y);
    }
}

/// The bounds of a disc along one axis.
proof fn lemma_bounds(c: Binary32, r: Binary32, x: int)
    requires
        0 <= x <= 0x2000,
        is_within(c, 0x2000),
        is_within(r, 0x2000),
        -r.value() <= overlay::pixel_middle(x).value() - c.value() <= r.value(),
    ensures
        c.minus(r).floor().to_i32() <= x,
        c.plus(r).ceil().to_i32() >= x,
{
    let p = overlay::pixel_middle(x);
    close::lemma_one();
    lemma_pixel_middle(x);
    close::lemma_difference_within(c, r, 0x4000);
    close::lemma_sum_within(c, r, 0x4000);
    exact::lemma_negated(r);
    exact::lemma_plus_keeps_order(c, r.negated(), p);
    exact::lemma_plus_keeps_order(c, r, p);
    order::lemma_order_of_values(c.minus(r), p);
    order::lemma_order_of_values(p, c.plus(r));
    lemma_pixel_in_bounds(c.minus(r), c.plus(r), x);
}

/// The row at the height `yf` crosses two sides of a triangle, at `u` and at `v`.
pub open spec fn cross_at(t: Triangle, yf: Binary32, u: Binary32, v: Binary32) -> bool {
    ||| overlay::crosses(t.a, t.b, yf) && overlay::crosses(t.b, t.c, yf) && u == overlay::crossing(
        t.a,
        t.b,
        yf,
    ) && v == overlay::crossing(t.b, t.c, yf)
    ||| overlay::crosses(t.a, t.b, yf) && overlay::crosses(t.c, t.a, yf) && u == overlay::crossing(
        t.a,
        t.b,
        yf,
    ) && v == overlay::crossing(t.c, t.a, yf)
    ||| overlay::crosses(t.b, t.c, yf) && overlay::crosses(t.c, t.a, yf) && u == overlay::crossing(
        t.b,
        t.c,
        yf,
    ) && v == overlay::crossing(t.c, t.a, yf)
}

/// The coordinates of a triangle are moderate.
pub open spec fn is_moderate(t: Triangle) -> bool {
    &&& is_within(t.a.x, 0x1000) && is_within(t.a.y, 0x1000)
    &&& is_within(t.b.x, 0x1000) && is_within(t.b.y, 0x1000)
    &&& is_within(t.c.x, 0x1000) && is_within(t.c.y, 0x1000)
}

/// The number `c` is between `u` and `v`.
pub open spec fn lies_between(c: int, u: int, v: int) -> bool {
    (u <= c <= v) || (v <= c <= u)
}

/// A whole number that a number is cut to, and one that it is raised to.
proof fn lemma_cut_and_raised(s: Binary32, x: int)
    requires
        0 <= x <= 0x2000,
        is_within(s, 0x8000),
    ensures
        s.floor().to_i32() <= x ==> s.value() < (x + 1) * one(),
        s.ceil().to_i32() >= x ==> x == 0 || s.value() > (x - 1) * one(),
{
    let u = one();
    close::lemma_one();
    crate::binary32::arith::lemma_zero_magnitude(s.magnitude());
    assert((x + 1) * u == x * u + u && (x - 1) * u == x * u - u && x * u >= 0) by (nonlinear_arith)
        requires
            x >= 0,
            u > 0,
    ;
    if s.is_negative() {
        exact::lemma_negative_ceil(s);
        exact::lemma_to_i32_keeps_order(s.ceil(), Binary32::zero());
        assert(0 * vstd::arithmetic::power2::pow2(149) == 0) by (nonlinear_arith);
        exact::lemma_to_i32_exact(Binary32::zero(), 0);
    } else {
        let k = exact::lemma_whole_or_large(s);
        let v = s.value();
        vstd::arithmetic::div_mod::lemma_fundamental_div_mod(v, u);
        vstd::arithmetic::div_mod::lemma_mod_bound(v, u);
        let w = v + u - 1;
        vstd::arithmetic::div_mod::lemma_fundamental_div_mod(w, u);
        vstd::arithmetic::div_mod::lemma_mod_bound(w, u);
        let a = k.0;
        let b = k.1;
        assert(u * a == a * u && u * b == b * u) by (nonlinear_arith);
        assert(0 <= a <= 0x8000 && 0 <= b <= 0x8001) by (nonlinear_arith)
            requires
                a * u <= v,
                v < a * u + u,
                b * u <= w,
                w < b * u + u,
                0 <= v <= 0x8000 * u,
                w <= 0x8001 * u,
                w >= 0,
                u > 0,
        ;
        exact::lemma_to_i32_exact(s.floor(), a);
        exact::lemma_to_i32_exact(s.ceil(), b);
        assert(a <= x ==> a * u <= x * u) by (nonlinear_arith)
            requires
                u > 0,
        ;
        assert(b >= x ==> b * u >= x * u) by (nonlinear_arith)
            requires
                u > 0,
        ;
    }
}

/// A row crosses no side of a triangle or two, and the two are noted.
proof fn lemma_crossings(t: Triangle, yf: Binary32)
    requires
        is_moderate(t),
        is_within(yf, 0x1000),
    ensures
        ({
            let k = overlay::crossings(t, yf);
            &&& k.count == 2 <==> exists|u: Binary32, v: Binary32| #[trigger] cross_at(t, yf, u, v)
            &&& k.count == 2 ==> cross_at(t, yf, k.first, k.second)
            &&& forall|u: Binary32, v: Binary32| #[trigger]
                cross_at(t, yf, u, v) ==> u == k.first && v == k.second
        }),
{
    order::lemma_order_of_values(t.a.y, yf);
    order::lemma_order_of_values(yf, t.a.y);
    order::lemma_order_of_values(t.b.y, yf);
    order::lemma_order_of_values(yf, t.b.y);
    order::lemma_order_of_values(t.c.y, yf);
    order::lemma_order_of_values(yf, t.c.y);
    let k = overlay::crossings(t, yf);
    if k.count == 2 {
        assert(cross_at(t, yf, k.first, k.second));
    }
}

/// Both crossings of a row are moderate numbers.
proof fn lemma_crossings_are_moderate(t: Triangle, yf: Binary32, u: Binary32, v: Binary32)
    requires
        is_moderate(t),
        is_within(yf, 0x1000),
        cross_at(t, yf, u, v),
    ensures
        is_within(u, 0x8000),
        is_within(v, 0x8000),
{
    close::lemma_one();
    let m: int = 0x1000;
    let u_ = one();
    assert((5 * m + 4) * u_ <= 0x8000 * u_) by (nonlinear_arith)
        requires
            m == 0x1000,
            u_ > 0,
    ;
    if overlay::crosses(t.a, t.b, yf) {
        a_row_crosses_a_side_on_its_line(t.a, t.b, yf, m);
    }
    if overlay::crosses(t.b, t.c, yf) {
        a_row_crosses_a_side_on_its_line(t.b, t.c, yf, m);
    }
    if overlay::crosses(t.c, t.a, yf) {
        a_row_crosses_a_side_on_its_line(t.c, t.a, yf, m);
    }
}

/// The least and the largest of three.
proof fn lemma_of_three(a: Binary32, b: Binary32, c: Binary32)
    requires
        is_within(a, 0x1000),
        is_within(b, 0x1000),
        is_within(c, 0x1000),
    ensures
        ({
            let low = a.min(b).min(c);
            let high = a.max(b).max(c);
            &&& is_within(low, 0x1000)
            &&& is_within(high, 0x1000)
            &&& low.value() <= a.value() && low.value() <= b.value() && low.value() <= c.value()
            &&& high.value() >= a.value() && high.value() >= b.value() && high.value() >= c.value()
        }),
{
    order::lemma_order_of_values(a, b);
    order::lemma_order_of_values(b, a);
    order::lemma_order_of_values(a.min(b), c);
    order::lemma_order_of_values(c, a.min(b));
    order::lemma_order_of_values(a.max(b), c);
    order::lemma_order_of_values(c, a.max(b));
}

/// A triangle holds the pixels whose middle is between the places where its row crosses
/// the triangle's sides, and no pixel more than one past them.
pub proof fn a_triangle_holds_the_pixels_between_its_sides(
    w: int,
    h: int,
    t: Triangle,
    x: int,
    y: int,
)
    requires
        1 <= w <= 0xfff,
        1 <= h <= 0xfff,
        is_moderate(t),
    ensures
        overlay::in_triangle(w, h, t, x, y) ==> {
            &&& 0 <= x < w
            &&& 0 <= y < h
            &&& exists|u: Binary32, v: Binary32| #[trigger]
                cross_at(t, overlay::pixel_middle(y), u, v) && (u.value() < (x + 1) * one()
                    || v.value() < (x + 1) * one()) && (x == 0 || u.value() > (x - 1) * one()
                    || v.value() > (x - 1) * one())
        },
        0 <= x < w && 0 <= y < h ==> forall|u: Binary32, v: Binary32|
            #![trigger cross_at(t, overlay::pixel_middle(y), u, v)]
            cross_at(t, overlay::pixel_middle(y), u, v) && lies_between(
                overlay::pixel_middle(x).value(),
                u.value(),
                v.value(),
            ) ==> overlay::in_triangle(w, h, t, x, y),
{
    let yf = overlay::pixel_middle(y);
    let k = overlay::crossings(t, yf);
    let one_ = one();
    close::lemma_one();
    if overlay::in_triangle(w, h, t, x, y) {
        assert(0 <= x < w && 0 <= y < h);
    }
    if 0 <= x < w && 0 <= y < h {
        lemma_pixel_middle(x);
        lemma_pixel_middle(y);
        assert((2 * y + 1) * one_ <= 0x2000 * one_ && 0 <= (2 * y + 1) * one_) by (nonlinear_arith)
            requires
                0 <= y < 0xfff,
                one_ > 0,
        ;
        lemma_crossings(t, yf);
        if k.count == 2 {
            lemma_crossings_are_moderate(t, yf, k.first, k.second);
            order::lemma_order_of_values(k.first, k.second);
            let left = if k.first.lt(k.second) {
                k.first
            } else {
                k.second
            };
            let right = if k.first.lt(k.second) {
                k.second
            } else {
                k.first
            };
            lemma_cut_and_raised(left, x);
            lemma_cut_and_raised(right, x);
            if overlay::in_triangle(w, h, t, x, y) {
                assert(cross_at(t, yf, k.first, k.second));
            }
            if lies_between(
                overlay::pixel_middle(x).value(),
                k.first.value(),
                k.second.value(),
            ) {
                lemma_pixel_in_bounds(left, right, x);
                order::lemma_order_of_values(t.a.y, yf);
                order::lemma_order_of_values(yf, t.a.y);
                order::lemma_order_of_values(t.b.y, yf);
                order::lemma_order_of_values(yf, t.b.y);
                order::lemma_order_of_values(t.c.y, yf);
                order::lemma_order_of_values(yf, t.c.y);
                lemma_of_three(t.a.y, t.b.y, t.c.y);
                lemma_pixel_in_bounds(
                    t.a.y.min(t.b.y).min(t.c.y),
                    t.a.y.max(t.b.y).max(t.c.y),
                    y,
                );
                assert(overlay::in_triangle(w, h, t, x, y));
            }
        }
    }
}

/// The value of `255`.
proof fn lemma_byte_max()
    ensures
        Binary32::of_bits(overlay::BYTE_MAX).is_finite_spec(),
        Binary32::of_bits(overlay::BYTE_MAX).value() == 255 * one(),
{
    lemma2_to64();
    lemma_pow2_adds(16, 133);
    assert(0x437f_0000int / 0x80_0000 == 134 && 0x437f_0000int % 0x80_0000 == 0x7f_0000);
    assert(Binary32::of_bits(overlay::BYTE_MAX).value() == 0xff_0000 * pow2(133));
}

/// The share of an opacity.
proof fn lemma_share(a: u8)
    ensures
        ({
            let q = convert::of_int(a as int).over(Binary32::of_bits(overlay::BYTE_MAX));
            &&& q.is_finite_spec()
            &&& size(q.value()) <= 2 * one()
            &&& off(255 * q.value(), a * one(), 256 * one())
        }),
{
    let u = one();
    let e = FINE as int;
    close::lemma_one();
    lemma_byte_max();
    exact::lemma_of_int_exact(a as int);
    let byte = Binary32::of_bits(overlay::BYTE_MAX);
    let fa = convert::of_int(a as int);
    let au = a * u;
    assert(0 <= au <= 255 * u && au * u <= (2 * ample()) * (255 * u)) by (nonlinear_arith)
        requires
            au == a * u,
            0 <= a <= 255,
            u > 0,
            ample() >= u,
    ;
    close::lemma_quotient(fa, byte);
    let q = fa.over(byte).value();
    assert(q * (255 * u) == (255 * q) * u && au * u + e * (255 * u) == (au + 255 * e) * u)
        by (nonlinear_arith);
    close::lemma_cancelled(255 * q, au, au + 255 * e, u);
    assert(au + 255 * e <= 256 * u);
}

/// The product of a colour with the share of its opacity.
proof fn lemma_faded_product(k: u8, a: u8)
    ensures
        ({
            let p = convert::of_int(k as int).times(
                convert::of_int(a as int).over(Binary32::of_bits(overlay::BYTE_MAX)),
            );
            &&& p.is_finite_spec()
            &&& off(255 * p.value(), (k * a) * one(), 200_000 * one())
        }),
{
    let u = one();
    let e = FINE as int;
    close::lemma_one();
    lemma_share(a);
    exact::lemma_of_int_exact(k as int);
    let share = convert::of_int(a as int).over(Binary32::of_bits(overlay::BYTE_MAX));
    let fk = convert::of_int(k as int);
    let q = share.value();
    let ku = k * u;
    assert(0 <= ku <= 255 * u) by (nonlinear_arith)
        requires
            ku == k * u,
            0 <= k <= 255,
            u > 0,
    ;
    assert(255int * 2 == 510);
    close::lemma_product_within(fk, share, 255, 2);
    let p = fk.times(share).value();
    let kq = k * q;
    assert(ku * q == kq * u && 511 * (u * u) == (511 * u) * u) by (nonlinear_arith)
        requires
            ku == k * u,
            kq == k * q,
    ;
    close::lemma_cancelled(p, kq, 511 * u, u);
    let d = 255 * q - a * u;
    let kd = k * d;
    close::lemma_size_of_product(k as int, d);
    assert(e * size(kd) <= 255 * (256 * u)) by (nonlinear_arith)
        requires
            size(kd) == k * size(d),
            e * size(d) <= 256 * u,
            size(d) >= 0,
            0 <= k <= 255,
            e > 0,
    ;
    assert(255 * kq == kd + (k * a) * u) by (nonlinear_arith)
        requires
            kq == k * q,
            kd == k * d,
            d == 255 * q - a * u,
    ;
}

/// A colour is held as the share of it that its opacity is of the whole, cut to a whole
/// number.
pub proof fn a_colour_is_held_by_its_opacity(k: u8, a: u8)
    ensures
        255 * overlay::faded(k, a) <= k * a <= 255 * overlay::faded(k, a) + 255,
{
    let u = one();
    close::lemma_one();
    lemma_faded_product(k, a);
    let x = convert::of_int(k as int).times(
        convert::of_int(a as int).over(Binary32::of_bits(overlay::BYTE_MAX)),
    );
    let p = x.value();
    let ka = k * a;
    let kau = ka * u;
    assert(0 <= ka <= 65025 && 0 <= kau <= 65025 * u) by (nonlinear_arith)
        requires
            ka == k * a,
            kau == ka * u,
            0 <= k <= 255,
            0 <= a <= 255,
            u > 0,
    ;
    crate::binary32::arith::lemma_zero_magnitude(x.magnitude());
    let n = size(p);
    let w = n / u;
    vstd::arithmetic::div_mod::lemma_fundamental_div_mod(n, u);
    vstd::arithmetic::div_mod::lemma_mod_bound(n, u);
    assert(u * w == w * u) by (nonlinear_arith);
    assert(0 <= w <= 255) by (nonlinear_arith)
        requires
            w * u <= n,
            n < w * u + u,
            0 <= n < 256 * u,
            u > 0,
    ;
    if x.is_negative() {
        assert(w == 0) by (nonlinear_arith)
            requires
                w * u <= n,
                n < u,
                w >= 0,
                u > 0,
        ;
        assert(overlay::faded(k, a) == 0);
        assert(ka <= 255) by (nonlinear_arith)
            requires
                kau == ka * u,
                kau <= u,
                u > 0,
        ;
    } else {
        assert(overlay::faded(k, a) == w);
        assert(255 * w <= ka && ka <= 255 * w + 255) by (nonlinear_arith)
            requires
                kau == ka * u,
                255 * (w * u) < kau + u,
                kau < 255 * (w * u) + 255 * u + u,
                u > 0,
        ;
    }
}

} // verus!
