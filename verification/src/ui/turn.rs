//! How the heading that is shown turns, and how things are drawn about the player.

use vstd::prelude::*;

use crate::angle;
use crate::binary32::close;
use crate::binary32::close::{ample, off, one, size, FINE};
use crate::binary32::convert;
use crate::binary32::exact;
use crate::binary32::order;
use crate::binary32::Binary32;
use crate::heading::half_turn;
use crate::spot::{Area, Spot};
use crate::state::PlayerPos;
use crate::ui;
use crate::ui::draw;
use crate::ui::OverlayApp;

verus! {

/// The heading `h` has gone from `cur` towards `target` by the shorter way, all but
/// the share `left` of it, up to `j` and `k` full turns and but for rounding.
pub open spec fn is_eased(h: int, cur: int, target: int, left: int, j: int, k: int) -> bool {
    let way = target - cur - j * angle::full_turn();
    &&& FINE * (size(way) - half_turn()) <= 80 * one()
    &&& off(
        (h - cur + k * angle::full_turn()) * one(),
        way * (one() - left),
        200 * (one() * one()),
    )
}

/// A heading that is shown turns towards the one that was seen by the shorter way,
/// and the share of the way that is left over is the one asked for.
pub proof fn a_heading_turns_by_the_shorter_way(
    a: &OverlayApp,
    cur: Binary32,
    target: Binary32,
    left: Binary32,
)
    requires
        a.disp_heading == Some(cur),
        a.time_constant().gt(Binary32::of_bits(ui::TAU_MIN)),
        cur.is_finite_spec(),
        target.is_finite_spec(),
        left.is_finite_spec(),
        size(cur.value()) <= 4 * one(),
        size(target.value()) <= 4 * one(),
        0 <= left.value() <= one(),
    ensures
        a.heading_after(Some(target), left) matches Some(h) && h.is_finite_spec() && exists|
            j: int,
            k: int,
        | #[trigger]
            is_eased(h.value(), cur.value(), target.value(), left.value(), j, k),
{
    let u = one();
    let t = angle::full_turn();
    let c = cur.value();
    let g = target.value();
    let l = left.value();
    close::lemma_one();
    angle::lemma_full_turn();
    close::lemma_difference_within(target, cur, 8);
    let d = target.minus(cur);
    angle::the_remainder_changes_an_angle_by_whole_turns(d);
    angle::the_remainder_brings_an_angle_within_half_a_turn(d);
    let way = angle::turned(d);
    let w = way.value();
    let j = choose|j: int| #[trigger] angle::is_less_turns(w, d.value(), j, 8 * t);
    order::lemma_order_of_values(way, Binary32::of_bits(angle::PI));
    order::lemma_order_of_values(Binary32::of_bits(angle::MINUS_PI), way);
    assert(size(w) <= half_turn() <= 4 * u);
    close::lemma_difference_within(Binary32::one(), left, 2);
    let rest = Binary32::one().minus(left);
    assert(4int * 3int == 12);
    close::lemma_product_within(way, rest, 4, 3);
    let p = way.times(rest);
    assert(size(p.value()) <= 13 * u);
    close::lemma_sum_within(cur, p, 17);
    let s = cur.plus(p);
    angle::the_remainder_changes_an_angle_by_whole_turns(s);
    let h = angle::turned(s).value();
    let k = choose|k: int| #[trigger] angle::is_less_turns(h, s.value(), k, 8 * t);
    // What was gone.
    let gone = h - c + k * t;
    assert(off(gone, p.value(), 82 * u));
    close::lemma_scaled(gone, p.value(), 82 * u, u);
    close::lemma_off_times(rest.value(), u - l, 3 * u, w, 4 * u);
    let full = g - c - j * t;
    assert(off(w, full, 73 * u));
    close::lemma_off_times(w, full, 73 * u, u - l, u);
    assert((82 * u) * u == 82 * (u * u) && (3 * u) * (4 * u) == 12 * (u * u) && (73 * u) * u == 73
        * (u * u) && rest.value() * w == w * rest.value() && (u - l) * w == w * (u - l) && u * u
        >= 0) by (nonlinear_arith);
    close::lemma_chained(gone * u, p.value() * u, w * rest.value(), 82 * (u * u), 13 * (u * u));
    close::lemma_chained(gone * u, w * rest.value(), w * (u - l), 95 * (u * u), 12 * (u * u));
    close::lemma_chained(gone * u, w * (u - l), full * (u - l), 107 * (u * u), 73 * (u * u));
    assert(is_eased(h, c, g, l, j, k));
}

/// The arrow over the game points as far from straight ahead as the way on the map is
/// from the player's heading, or from up the map while there is none.
pub proof fn the_arrow_points_from_the_heading_to_the_way(
    world_angle: Binary32,
    heading: Option<Binary32>,
    distance: Binary32,
)
    requires
        world_angle.is_finite_spec(),
        size(world_angle.value()) <= 4 * one(),
        heading matches Some(h) ==> h.is_finite_spec() && size(h.value()) <= 4 * one(),
    ensures
        ({
            let r = ui::arrow_for(world_angle, heading, distance);
            &&& r.distance == distance
            &&& r.rel_angle.is_finite_spec()
            &&& heading matches Some(h) ==> off(
                r.rel_angle.value(),
                world_angle.value() - h.value(),
                9 * one(),
            )
            &&& heading is None ==> off(
                2 * r.rel_angle.value(),
                2 * world_angle.value() + half_turn(),
                18 * one(),
            )
        }),
{
    close::lemma_one();
    angle::lemma_full_turn();
    match heading {
        Some(h) => {
            close::lemma_difference_within(world_angle, h, 8);
        },
        None => {
            let up = Binary32::of_bits(angle::MINUS_HALF_PI);
            lemma_up();
            close::lemma_difference_within(world_angle, up, 8);
        },
    }
}

/// Up the map is a quarter turn back.
proof fn lemma_up()
    ensures
        Binary32::of_bits(angle::MINUS_HALF_PI).is_finite_spec(),
        2 * Binary32::of_bits(angle::MINUS_HALF_PI).value() == -half_turn(),
{
    angle::lemma_turns();
    vstd::arithmetic::power2::lemma_pow2_unfold(127);
    assert(0x3fc9_0fdbint / 0x80_0000 == 127 && 0x3fc9_0fdbint % 0x80_0000 == 0x49_0fdb);
    let p = vstd::arithmetic::power2::pow2(126) as int;
    assert(Binary32::of_bits(angle::MINUS_HALF_PI).value() == -(0xc9_0fdb * p));
}

/// The ring about the player has the radius of the minimap's reach: half of its width
/// at the scale, and the ring on the screen is that, enlarged by the zoom.
pub proof fn the_reach_is_half_of_the_width_at_the_scale(n: int, scale: Binary32)
    requires
        0 <= n <= 0x100_0000,
        scale.is_finite_spec(),
        scale.ge(Binary32::of_bits(draw::SCALE_MIN)),
        0x100_0000 * scale.value() <= ample(),
    ensures
        ({
            let r = OverlayApp::reach_of(n, scale);
            &&& r.is_finite_spec()
            &&& off(2 * r.value(), n * scale.value(), n * scale.value() + 2 * FINE)
        }),
{
    let least = Binary32::of_bits(draw::SCALE_MIN);
    order::lemma_order_of_values(least, scale);
    assert(least.value() >= 0);
    assert(scale.abs().max(least) == scale);
    close::lemma_half_width(n, scale);
}

/// The ring about the player is as large on the screen as the minimap's reach on the
/// map is there. It is drawn about the player, unless it is too small to see.
pub proof fn the_ring_shows_the_reach_on_the_screen(
    a: &OverlayApp,
    at: Spot,
    n: int,
    scale: Binary32,
)
    requires
        0 <= n <= 0x100_0000,
        scale.is_finite_spec(),
        scale.ge(Binary32::of_bits(draw::SCALE_MIN)),
        0x100_0000 * scale.value() <= ample(),
        a.cam_zoom.is_finite_spec(),
        0 <= a.cam_zoom.value(),
        (4 * (n * scale.value())) * a.cam_zoom.value() <= ample() * one(),
        4 * (n * scale.value()) <= ample(),
        a.cam_zoom.value() <= ample(),
    ensures
        a.coverage(at, n, scale).len() == 0 || a.coverage(at, n, scale).len() == 2,
        a.coverage(at, n, scale).len() == 2 ==> {
            let reach = OverlayApp::reach_of(n, scale);
            &&& a.coverage(at, n, scale)[0] matches draw::Mark::Ring { at: middle, radius, .. }
                && middle == at && radius.is_finite_spec() && off(
                radius.value() * one(),
                reach.value() * a.cam_zoom.value(),
                size(reach.value() * a.cam_zoom.value()) + FINE * one(),
            )
            &&& a.coverage(at, n, scale)[1] matches draw::Mark::Coverage { reach: told, .. }
                && told == reach
        },
{
    let u = one();
    let reach = OverlayApp::reach_of(n, scale);
    let z = a.cam_zoom.value();
    let w = n * scale.value();
    close::lemma_one();
    the_reach_is_half_of_the_width_at_the_scale(n, scale);
    let r = reach.value();
    order::lemma_order_of_values(Binary32::of_bits(draw::SCALE_MIN), scale);
    assert(w >= 0) by (nonlinear_arith)
        requires
            w == n * scale.value(),
            n >= 0,
            scale.value() >= 0,
    ;
    let s = size(r);
    assert(s <= w + 2);
    close::lemma_size_of_product(r, z);
    assert(s * z <= w * z + 2 * z && (4 * w) * z == 4 * (w * z)) by (nonlinear_arith)
        requires
            s <= w + 2,
            0 <= z,
    ;
    assert(2 * z <= ample() * u) by (nonlinear_arith)
        requires
            z <= ample(),
            0 <= z,
            u >= 2,
    ;
    assert((2 * ample()) * u == 2 * (ample() * u)) by (nonlinear_arith);
    close::lemma_product(reach, a.cam_zoom);
}

/// A place `k` lengths from another along a way.
pub open spec fn is_along(r: Binary32, at: Binary32, d: Binary32, k: int, m: int) -> bool {
    r.is_finite_spec() && off(r.value() - at.value(), k * d.value(), (m + 4 * k + 3) * one())
}

proof fn lemma_along(at: Binary32, d: Binary32, far: Binary32, k: int, m: int)
    requires
        at.is_finite_spec(),
        d.is_finite_spec(),
        far.is_finite_spec(),
        0 <= m <= 0x10_0000,
        0 <= k <= 0x1000,
        far.value() == k * one(),
        size(at.value()) <= m * one(),
        size(d.value()) <= 2 * one(),
    ensures
        is_along(at.plus(d.times(far)), at, d, k, m),
{
    let u = one();
    let v = d.value();
    close::lemma_one();
    assert(size(far.value()) <= k * u && k * u >= 0) by (nonlinear_arith)
        requires
            far.value() == k * u,
            k >= 0,
            u > 0,
            far.value() >= 0 ==> size(far.value()) == far.value(),
    ;
    close::lemma_product_within(d, far, 2, k);
    let p = d.times(far);
    assert(v * far.value() == (k * v) * u && (2 * k + 1) * (u * u) == ((2 * k + 1) * u) * u)
        by (nonlinear_arith)
        requires
            far.value() == k * u,
    ;
    close::lemma_cancelled(p.value(), k * v, (2 * k + 1) * u, u);
    assert(m * u + (2 * k + 1) * u == (m + 2 * k + 1) * u && (m + 2 * k + 2) * u + (2 * k + 1) * u
        == (m + 4 * k + 3) * u) by (nonlinear_arith);
    close::lemma_sum_within(at, p, m + 2 * k + 1);
}

/// The heading is drawn from the rim of the player's ring outward, along the way that
/// it takes.
pub proof fn the_heading_is_drawn_along_its_way(at: Spot, dir: Spot, m: int)
    requires
        at.x.is_finite_spec(),
        at.y.is_finite_spec(),
        dir.x.is_finite_spec(),
        dir.y.is_finite_spec(),
        0 <= m <= 0x10_0000,
        size(at.x.value()) <= m * one(),
        size(at.y.value()) <= m * one(),
        size(dir.x.value()) <= 2 * one(),
        size(dir.y.value()) <= 2 * one(),
    ensures
        OverlayApp::heading_lines(at, dir).len() == 2,
        forall|i: int|
            0 <= i < 2 ==> (#[trigger] OverlayApp::heading_lines(at, dir)[i] matches
                draw::Mark::Segment { from, to, .. } && is_along(from.x, at.x, dir.x, 9, m)
                && is_along(from.y, at.y, dir.y, 9, m) && is_along(to.x, at.x, dir.x, 24, m)
                && is_along(to.y, at.y, dir.y, 24, m)),
{
    let near = Binary32::of_bits(draw::PLAYER_RING);
    let far = Binary32::of_bits(draw::HEADING_TIP);
    vstd::arithmetic::power2::lemma2_to64();
    vstd::arithmetic::power2::lemma_pow2_adds(20, 129);
    vstd::arithmetic::power2::lemma_pow2_adds(19, 130);
    assert(0x4110_0000int / 0x80_0000 == 130 && 0x4110_0000int % 0x80_0000 == 0x10_0000);
    assert(0x41c0_0000int / 0x80_0000 == 131 && 0x41c0_0000int % 0x80_0000 == 0x40_0000);
    assert(near.value() == 9 * one());
    assert(far.value() == 24 * one());
    lemma_along(at.x, dir.x, near, 9, m);
    lemma_along(at.y, dir.y, near, 9, m);
    lemma_along(at.x, dir.x, far, 24, m);
    lemma_along(at.y, dir.y, far, 24, m);
}

/// Before the user has moved the view it shows the player in the middle, or else the
/// middle of the map.
pub proof fn a_view_starts_at_the_player_or_the_middle_of_the_map(
    a: &OverlayApp,
    player: Option<PlayerPos>,
)
    requires
        !a.cam_inited,
        a.map_world.x.is_finite_spec(),
        a.map_world.y.is_finite_spec(),
        size(a.map_world.x.value()) <= 0x100_0000 * one(),
        size(a.map_world.y.value()) <= 0x100_0000 * one(),
    ensures
        player matches Some(p) ==> a.settled(player).x == p.x && a.settled(player).y == p.y,
        player is None ==> {
            &&& a.settled(player).x.is_finite_spec()
            &&& a.settled(player).y.is_finite_spec()
            &&& off(
                2 * a.settled(player).x.value(),
                a.map_world.x.value(),
                size(a.map_world.x.value()) + 2 * FINE,
            )
            &&& off(
                2 * a.settled(player).y.value(),
                a.map_world.y.value(),
                size(a.map_world.y.value()) + 2 * FINE,
            )
        },
{
    lemma_halved(a.map_world.x);
    lemma_halved(a.map_world.y);
}

proof fn lemma_halved(a: Binary32)
    requires
        a.is_finite_spec(),
        size(a.value()) <= 0x100_0000 * one(),
    ensures
        a.times(Binary32::half()).is_finite_spec(),
        off(2 * a.times(Binary32::half()).value(), a.value(), size(a.value()) + 2 * FINE),
{
    let u = one();
    let v = a.value();
    close::lemma_one();
    crate::binary32::exact::lemma_one_and_half();
    vstd::arithmetic::power2::lemma_pow2_unfold(149);
    let h = Binary32::half().value();
    let s = size(v);
    close::lemma_size_of_product(v, h);
    assert(s * h <= (2 * ample()) * u && 2 * (v * h) == v * u && 2 * (s * h) == s * u && s * h >= 0)
        by (nonlinear_arith)
        requires
            0 <= s <= 0x100_0000 * u,
            2 * h == u,
            ample() >= 0x1_0000_0000_0000_0000 * u,
            u > 0,
    ;
    close::lemma_product(a, Binary32::half());
    let t = a.times(Binary32::half()).value();
    assert((s + 2 * FINE) * u == s * u + 2 * (FINE * u) && (2 * t) * u == 2 * (t * u))
        by (nonlinear_arith);
    close::lemma_cancelled(2 * t, v, s + 2 * FINE, u);
}

/// `k` is `n` pixels reduced as `longer` pixels are to `most`, to the nearest whole
/// number, but no less than one and but for rounding.
pub open spec fn is_reduced(k: int, n: int, longer: int, most: int) -> bool {
    &&& k >= 1
    &&& k == 1 || FINE * size(2 * (k * longer) - 2 * (n * most)) <= (FINE + 4) * longer + 8 * (n
        * most)
}

/// One side of the picture of a map.
proof fn lemma_reduced(n: int, longer: int, most: int)
    requires
        1 <= n <= longer <= 0x10_0000,
        1 <= most < longer,
        most <= 0x4000,
    ensures
        ({
            let scale = convert::of_int(most).over(convert::of_int(longer));
            let k = convert::of_int(n).times(scale).round().max(Binary32::one()).to_u32() as int;
            is_reduced(k, n, longer, most)
        }),
{
    let u = one();
    let e = FINE as int;
    close::lemma_one();
    exact::lemma_of_int_exact(n);
    exact::lemma_of_int_exact(longer);
    exact::lemma_of_int_exact(most);
    let mu = most * u;
    let lu = longer * u;
    assert(0 < mu && mu < lu && mu * u <= (2 * ample()) * lu) by (nonlinear_arith)
        requires
            mu == most * u,
            lu == longer * u,
            1 <= most < longer,
            u > 0,
            ample() >= 0x1_0000_0000_0000_0000 * u,
    ;
    close::lemma_quotient(convert::of_int(most), convert::of_int(longer));
    let scale = convert::of_int(most).over(convert::of_int(longer));
    let f = scale.value();
    let fl = f * longer;
    assert(f * lu == fl * u && mu * u + e * lu == (mu + e * longer) * u) by (nonlinear_arith)
        requires
            lu == longer * u,
            fl == f * longer,
    ;
    close::lemma_cancelled(fl, mu, mu + e * longer, u);
    // The side.
    let nf = n * f;
    let a = convert::of_int(n);
    assert(e * longer <= mu) by (nonlinear_arith)
        requires
            longer <= 0x10_0000,
            e == 0x100_0000,
            mu == most * u,
            most >= 1,
            u >= 0x1_0000_0000_0000_0000,
    ;
    assert(f >= 0 && f <= u + 1) by (nonlinear_arith)
        requires
            e * (fl - mu) <= 2 * mu,
            e * (mu - fl) <= 2 * mu,
            fl == f * longer,
            mu == most * u,
            1 <= most < longer,
            longer <= 0x10_0000,
            e == 0x100_0000,
            u > 0,
    ;
    assert((n * u) * f == nf * u && nf >= 0 && nf * u <= (2 * ample()) * u) by (nonlinear_arith)
        requires
            nf == n * f,
            1 <= n <= 0x10_0000,
            0 <= f <= u + 1,
            u > 0,
            ample() >= 0x1_0000_0000_0000_0000 * u,
    ;
    close::lemma_product(a, scale);
    let g = a.times(scale);
    let gv = g.value();
    assert((nf + e) * u == nf * u + e * u && nf * u >= 0) by (nonlinear_arith)
        requires
            nf >= 0,
            u > 0,
    ;
    close::lemma_cancelled(gv, nf, nf + e, u);
    assert(nf <= 0x10_0000 * u + 0x10_0000) by (nonlinear_arith)
        requires
            nf == n * f,
            1 <= n <= 0x10_0000,
            0 <= f <= u + 1,
    ;
    let k = close::lemma_nearest_whole(g);
    order::lemma_order_of_values(g.round(), Binary32::one());
    assert((k <= 1 <==> k * u <= u) && (k >= 1 <==> k * u >= u)) by (nonlinear_arith)
        requires
            u > 0,
    ;
    let j = if k < 1 {
        1int
    } else {
        k
    };
    assert(1 * u == u);
    assert(j * u == (if k < 1 { u } else { k * u }));
    exact::lemma_to_u32_exact(g.round().max(Binary32::one()), j);
    // Against the proportion.
    let x = 2 * (k * u) - 2 * gv;
    close::lemma_size_of_product(x, longer);
    let kl = k * longer;
    assert(size(x) * longer <= lu && x * longer == (2 * kl) * u - 2 * (gv * longer))
        by (nonlinear_arith)
        requires
            size(x) <= u,
            lu == longer * u,
            longer > 0,
            x == 2 * (k * u) - 2 * gv,
            kl == k * longer,
    ;
    let y = gv - nf;
    close::lemma_size_of_product(y, longer);
    assert(e * (size(y) * longer) <= (nf + e) * longer && y * longer == gv * longer - n * fl && (nf + e)
        * longer == n * fl + e * longer) by (nonlinear_arith)
        requires
            e * size(y) <= nf + e,
            longer > 0,
            y == gv - nf,
            nf == n * f,
            fl == f * longer,
    ;
    let z = fl - mu;
    close::lemma_size_of_product(n, z);
    let nm = n * most;
    assert(e * (n * size(z)) <= 2 * (nm * u) && n * z == n * fl - nm * u) by (nonlinear_arith)
        requires
            e * size(z) <= 2 * mu,
            n > 0,
            z == fl - mu,
            mu == most * u,
            nm == n * most,
    ;
    let nmu = nm * u;
    assert(nmu >= 0) by (nonlinear_arith)
        requires
            nmu == nm * u,
            nm == n * most,
            n > 0,
            most > 0,
            u > 0,
    ;
    assert(n * fl <= nmu + nmu);
    assert(e * size((2 * kl) * u - 2 * nmu) <= e * lu + 2 * (2 * nmu + e * longer) + 4 * nmu);
    let slack = (e + 4) * longer + 8 * nm;
    assert((2 * nm) * u == 2 * nmu && slack * u == e * lu + 4 * lu + 8 * nmu && 2 * (e * longer) <= 4
        * lu) by (nonlinear_arith)
        requires
            slack == (e + 4) * longer + 8 * nm,
            lu == longer * u,
            nmu == nm * u,
            longer > 0,
            e == 0x100_0000,
            u >= 0x1_0000_0000_0000_0000,
    ;
    close::lemma_cancelled(2 * kl, 2 * nm, slack, u);
}

/// The picture of a map keeps the map's proportions: both of its sides are reduced
/// alike.
pub proof fn the_picture_of_the_map_keeps_its_proportions(w: int, h: int, most: int)
    requires
        1 <= w <= 0x10_0000,
        1 <= h <= 0x10_0000,
        1 <= most <= 0x4000,
        w > most || h > most,
    ensures
        ({
            let longer = if w >= h {
                w
            } else {
                h
            };
            let size = ui::texture_of(w, h, most);
            &&& is_reduced(size.0 as int, w, longer, most)
            &&& is_reduced(size.1 as int, h, longer, most)
        }),
{
    let longer = if w >= h {
        w
    } else {
        h
    };
    lemma_reduced(w, longer, most);
    lemma_reduced(h, longer, most);
}

/// The middle of an area is half way between its corners, but for rounding.
pub proof fn the_middle_of_an_area_is_half_way(a: Area)
    requires
        a.min.x.is_finite_spec(),
        a.min.y.is_finite_spec(),
        a.max.x.is_finite_spec(),
        a.max.y.is_finite_spec(),
        size(a.min.x.value()) + size(a.max.x.value()) <= 0x10_0000 * one(),
        size(a.min.y.value()) + size(a.max.y.value()) <= 0x10_0000 * one(),
    ensures
        ({
            let c = a.center();
            &&& c.x.is_finite_spec()
            &&& c.y.is_finite_spec()
            &&& off(2 * c.x.value(), a.min.x.value() + a.max.x.value(), 0x20_0003 * one())
            &&& off(2 * c.y.value(), a.min.y.value() + a.max.y.value(), 0x20_0003 * one())
        }),
{
    lemma_half_way(a.min.x, a.max.x);
    lemma_half_way(a.min.y, a.max.y);
}

proof fn lemma_half_way(a: Binary32, b: Binary32)
    requires
        a.is_finite_spec(),
        b.is_finite_spec(),
        size(a.value()) + size(b.value()) <= 0x10_0000 * one(),
    ensures
        a.plus(b).over(Binary32::two()).is_finite_spec(),
        off(
            2 * a.plus(b).over(Binary32::two()).value(),
            a.value() + b.value(),
            0x20_0003 * one(),
        ),
{
    let u = one();
    let e = FINE as int;
    let two = Binary32::two();
    close::lemma_one();
    vstd::arithmetic::power2::lemma2_to64();
    vstd::arithmetic::power2::lemma_pow2_adds(23, 127);
    vstd::arithmetic::power2::lemma_pow2_unfold(150);
    assert(0x4000_0000int / 0x80_0000 == 128 && 0x4000_0000int % 0x80_0000 == 0);
    assert(two.value() == 2 * u);
    close::lemma_sum_within(a, b, 0x10_0000);
    let s = a.plus(b);
    let v = s.value();
    let sv = size(v);
    assert(sv * u <= (2 * ample()) * (2 * u)) by (nonlinear_arith)
        requires
            0 <= sv <= 0x10_0001 * u,
            u > 0,
            ample() >= 0x1_0000_0000_0000_0000 * u,
    ;
    close::lemma_quotient(s, two);
    let q = s.over(two).value();
    assert(q * (2 * u) == (2 * q) * u && sv * u + e * (2 * u) == (sv + 2 * e) * u) by (nonlinear_arith);
    close::lemma_cancelled(2 * q, v, sv + 2 * e, u);
}

/// What is left of a turn after a frame: its logarithm is the time of the frame, held
/// between its bounds, over the time constant, which is a thousandth of the setting in
/// milliseconds; and it is not above nothing.
pub proof fn a_turn_eases_with_time(a: &OverlayApp, dt: Binary32)
    requires
        dt.is_finite_spec(),
        a.cfg.nav.turn_smooth_ms.is_finite_spec(),
        one() <= a.cfg.nav.turn_smooth_ms.value() <= 0x10_0000 * one(),
    ensures
        ({
            let u = one();
            let least = Binary32::of_bits(ui::DT_MIN).value();
            let most = Binary32::of_bits(ui::DT_MAX).value();
            let t = if dt.value() < least {
                least
            } else if dt.value() > most {
                most
            } else {
                dt.value()
            };
            let c = a.time_constant();
            let r = a.easing(dt);
            &&& c.is_finite_spec() && off(
                1000 * c.value(),
                a.cfg.nav.turn_smooth_ms.value(),
                a.cfg.nav.turn_smooth_ms.value() + 1000 * FINE,
            )
            &&& r.is_finite_spec() && off(
                r.value() * c.value(),
                -(t * u),
                t * u + FINE * c.value(),
            )
        }),
{
    let u = one();
    let e = FINE as int;
    let ms = a.cfg.nav.turn_smooth_ms;
    let m = ms.value();
    let per = Binary32::of_bits(ui::MS_PER_S);
    close::lemma_one();
    vstd::arithmetic::power2::lemma2_to64();
    vstd::arithmetic::power2::lemma_pow2_adds(14, 135);
    assert(0x447a_0000int / 0x80_0000 == 136 && 0x447a_0000int % 0x80_0000 == 0x7a_0000);
    assert(per.value() == 0xfa_0000 * vstd::arithmetic::power2::pow2(135));
    assert(per.value() == 1000 * u);
    assert(m * u <= (2 * ample()) * (1000 * u)) by (nonlinear_arith)
        requires
            0 <= m <= 0x10_0000 * u,
            u > 0,
            ample() >= 0x1_0000_0000_0000_0000 * u,
    ;
    close::lemma_quotient(ms, per);
    let q = ms.over(per);
    let qv = q.value();
    assert(qv * (1000 * u) == (1000 * qv) * u && m * u + e * (1000 * u) == (m + 1000 * e) * u)
        by (nonlinear_arith);
    close::lemma_cancelled(1000 * qv, m, m + 1000 * e, u);
    assert(2000 * qv >= u);
    order::lemma_order_of_values(q, Binary32::zero());
    assert(a.time_constant() == q);
    // The time of the frame.
    let least = Binary32::of_bits(ui::DT_MIN);
    let most = Binary32::of_bits(ui::DT_MAX);
    order::lemma_order_of_values(dt, least);
    order::lemma_order_of_values(most, dt);
    order::lemma_order_of_values(Binary32::zero(), least);
    order::lemma_order_of_values(least, most);
    order::lemma_order_of_values(most, Binary32::one());
    let d = dt.clamp(least, most);
    let t = d.value();
    exact::lemma_negated(d);
    assert(t * u <= (2 * ample()) * qv) by (nonlinear_arith)
        requires
            0 <= t <= u,
            2000 * qv >= u,
            u > 0,
            ample() >= 0x1_0000_0000_0000_0000 * u,
    ;
    close::lemma_quotient(d.negated(), q);
    assert((-t) * u == -(t * u)) by (nonlinear_arith);
}

} // verus!
