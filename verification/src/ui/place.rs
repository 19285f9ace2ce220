//! Where things are: points of a route on the map, and places of the map on the
//! screen.
//!
//! The laws here speak of values, in which `2^149` stands for one, and allow for
//! rounding. They hold of numbers far below the largest.

use vstd::prelude::*;

use crate::binary32::close;
use crate::binary32::close::{ample, is_ample, off, one, size, FINE};
use crate::binary32::exact;
use crate::binary32::order;
use crate::binary32::pattern;
use crate::binary32::Binary32;
use crate::route::RoutePoint;
use crate::spot::Spot;
use crate::state::PlayerPos;
use crate::ui::{Aim, OverlayApp, ZOOM_MAX, ZOOM_MIN};

verus! {

/// `x` stretched by `scale` and moved by `offset` is far from the largest
/// numbers.
pub open spec fn can_move(x: Binary32, scale: Binary32, offset: Binary32) -> bool {
    &&& x.is_finite_spec()
    &&& scale.is_finite_spec()
    &&& is_ample(offset)
    &&& 4 * size(x.value() * scale.value()) <= ample() * one()
}

/// `got` is `x` stretched by `scale` and moved by `offset`, but for rounding.
pub open spec fn is_moved_by(
    got: Binary32,
    x: Binary32,
    scale: Binary32,
    offset: Binary32,
) -> bool {
    &&& got.is_finite_spec()
    &&& off(
        got.value() * one(),
        x.value() * scale.value() + offset.value() * one(),
        3 * size(x.value() * scale.value()) + size(offset.value()) * one() + 3 * (FINE * one()),
    )
}

/// A point of a route is stretched across by the scale across and moved by the
/// offset across, and down by the scale down and moved by the offset down.
pub proof fn a_point_is_stretched_and_moved_along_each_axis(a: &OverlayApp, p: RoutePoint)
    ensures
        can_move(p.x, a.route_scale_x, a.route_offset_x) ==> is_moved_by(
            a.moved(p).x,
            p.x,
            a.route_scale_x,
            a.route_offset_x,
        ),
        can_move(p.y, a.route_scale_y, a.route_offset_y) ==> is_moved_by(
            a.moved(p).y,
            p.y,
            a.route_scale_y,
            a.route_offset_y,
        ),
{
    if can_move(p.x, a.route_scale_x, a.route_offset_x) {
        close::lemma_product_plus(p.x, a.route_scale_x, a.route_offset_x);
    }
    if can_move(p.y, a.route_scale_y, a.route_offset_y) {
        close::lemma_product_plus(p.y, a.route_scale_y, a.route_offset_y);
    }
}

/// What a route is stretched and moved by along one axis says nothing of its
/// points along the other.
pub proof fn the_axes_of_a_route_are_apart(a: &OverlayApp, b: &OverlayApp, p: RoutePoint, q: RoutePoint)
    ensures
        p.x == q.x && a.route_scale_x == b.route_scale_x && a.route_offset_x == b.route_offset_x
            ==> a.moved(p).x == b.moved(q).x,
        p.y == q.y && a.route_scale_y == b.route_scale_y && a.route_offset_y == b.route_offset_y
            ==> a.moved(p).y == b.moved(q).y,
{
}

/// Where the product and the sum have patterns, a point is moved exactly.
pub proof fn a_point_is_moved_exactly_where_numbers_allow(
    a: &OverlayApp,
    p: RoutePoint,
    m: int,
    s: int,
    k: int,
    t: int,
)
    requires
        p.x.is_finite_spec(),
        a.route_scale_x.is_finite_spec(),
        a.route_offset_x.is_finite_spec(),
        -0x100_0000 <= m <= 0x100_0000,
        0 <= s <= 252,
        p.x.value() * a.route_scale_x.value() == (m * vstd::arithmetic::power2::pow2(s as nat))
            * one(),
        -0x100_0000 <= k <= 0x100_0000,
        0 <= t <= 252,
        m * vstd::arithmetic::power2::pow2(s as nat) + a.route_offset_x.value() == k
            * vstd::arithmetic::power2::pow2(t as nat),
    ensures
        a.moved(p).x.value() * one() == p.x.value() * a.route_scale_x.value()
            + a.route_offset_x.value() * one(),
{
    exact::lemma_times_exact(p.x, a.route_scale_x, m, s);
    let product = p.x.times(a.route_scale_x);
    exact::lemma_plus_exact(product, a.route_offset_x, k, t);
    let v = product.value();
    let w = a.route_offset_x.value();
    assert((v + w) * one() == v * one() + w * one()) by (nonlinear_arith);
}

/// The square of the distance of two places.
pub open spec fn distance_squared(a: Spot, b: Spot) -> int {
    (a.x.value() - b.x.value()) * (a.x.value() - b.x.value()) + (a.y.value() - b.y.value()) * (
    a.y.value() - b.y.value())
}

/// Two places are far from the largest numbers, and so is their distance.
pub open spec fn can_measure(a: Spot, b: Spot) -> bool {
    &&& a.x.is_finite_spec() && a.y.is_finite_spec() && b.x.is_finite_spec()
        && b.y.is_finite_spec()
    &&& size(a.x.value() - b.x.value()) <= ample()
    &&& size(a.y.value() - b.y.value()) <= ample()
    &&& 64 * distance_squared(a, b) <= ample() * one()
}

/// The difference of two coordinates, squared.
pub proof fn lemma_square_of_difference(a: Binary32, b: Binary32)
    requires
        a.is_finite_spec(),
        b.is_finite_spec(),
        size(a.value() - b.value()) <= ample(),
    ensures
        ({
            let d = a.value() - b.value();
            let g = a.minus(b).value();
            &&& a.minus(b).is_finite_spec()
            &&& off(g, d, size(d) + FINE)
            &&& off(g * g, d * d, 4 * (d * d) + FINE * one())
            &&& g * g >= 0 && d * d >= 0
        }),
{
    close::lemma_difference(a, b);
    close::lemma_one();
    let d = a.value() - b.value();
    let g = a.minus(b).value();
    let n = size(d);
    let k = size(g);
    close::lemma_size_of_product(d, d);
    close::lemma_size_of_product(g, g);
    let e = FINE as int;
    let u = one();
    assert(n * n >= 0 && k * k >= 0) by (nonlinear_arith);
    assert(d * d == n * n && g * g == k * k) by (nonlinear_arith)
        requires
            n == d || n == -d,
            k == g || k == -g,
    ;
    assert(e * (k - n) <= n + e && e * (n - k) <= n + e);
    if n >= 0x100_0000 {
        assert(e * (k - n) <= 2 * n && e * (n - k) <= 2 * n);
        assert(e * (k * k - n * n) <= 5 * (n * n) && e * (n * n - k * k) <= 4 * (n * n))
            by (nonlinear_arith)
            requires
                e * (k - n) <= 2 * n,
                e * (n - k) <= 2 * n,
                e == 0x100_0000,
                n >= 0,
                k >= 0,
        ;
        lemma_small_difference_is_exact(a, b);
    } else {
        lemma_small_difference_is_exact(a, b);
    }
    if n < 0x100_0000 {
        assert(k == n);
    } else {
        assert(e * (k - n) <= n && e * (n - k) <= n);
        assert(e * (k * k - n * n) <= 4 * (n * n) && e * (n * n - k * k) <= 4 * (n * n))
            by (nonlinear_arith)
            requires
                e * (k - n) <= n,
                e * (n - k) <= n,
                e == 0x100_0000,
                n >= 0,
                k >= 0,
        ;
    }
}

/// A difference of fewer than `2^24` units is exact, and a larger one is off by
/// no more than a part of it.
proof fn lemma_small_difference_is_exact(a: Binary32, b: Binary32)
    requires
        a.is_finite_spec(),
        b.is_finite_spec(),
        size(a.value() - b.value()) <= ample(),
    ensures
        size(a.value() - b.value()) < 0x100_0000 ==> a.minus(b).value() == a.value() - b.value(),
        size(a.value() - b.value()) >= 0x100_0000 ==> off(
            a.minus(b).value(),
            a.value() - b.value(),
            size(a.value() - b.value()),
        ),
{
    let d = a.value() - b.value();
    let n = size(d);
    exact::lemma_negated(b);
    close::lemma_difference(a, b);
    vstd::arithmetic::power2::lemma2_to64();
    if n < 0x100_0000 {
        assert(d * vstd::arithmetic::power2::pow2(0) == d);
        exact::lemma_plus_exact(a, b.negated(), d, 0);
    } else {
        reveal(Binary32::plus_spec);
        exact::lemma_nearest_total(n, 1);
        let r = exact::pattern_for(0x100_0000, 0);
        exact::lemma_nearest_keeps_order(n, 1, r);
        assert(0x80_0000 * vstd::arithmetic::power2::pow2(0) == 0x80_0000);
        assert(pattern::units(0x80_0000) == 0x80_0000);
        assert(0x100_0000 * vstd::arithmetic::power2::pow2(0) == 0x100_0000);
        if r < 0x80_0000 {
            pattern::lemma_units_increase(r, 0x80_0000);
        }
        exact::lemma_nearest_close(n, 1);
    }
}

/// The length of the way between two places is their distance, but for rounding.
pub proof fn the_length_of_a_way_is_its_distance(a: Spot, b: Spot)
    requires
        can_measure(a, b),
    ensures
        ({
            let len = a.minus(b).length();
            let q = distance_squared(a, b);
            &&& len.is_finite_spec()
            &&& len.value() >= 0
            &&& off(len.value() * len.value(), q, 60 * q + 20 * (FINE * one()))
        }),
{
    close::lemma_one();
    lemma_square_of_difference(a.x, b.x);
    lemma_square_of_difference(a.y, b.y);
    let x = a.x.minus(b.x);
    let y = a.y.minus(b.y);
    let g = x.value() * x.value() + y.value() * y.value();
    let q = distance_squared(a, b);
    assert(off(g, q, 4 * q + 2 * (FINE * one())));
    let u = one();
    assert(8 * g <= ample() * u) by (nonlinear_arith)
        requires
            FINE * (g - q) <= 4 * q + 2 * (FINE * u),
            64 * q <= ample() * u,
            ample() >= 64,
            u >= 0,
            q >= 0,
    ;
    close::lemma_length(x, y);
}

/// A point counts as reached when its distance is not above the radius, and not
/// when it is, but for rounding.
pub proof fn a_point_is_reached_within_the_radius(
    a: &OverlayApp,
    p: RoutePoint,
    x: Binary32,
    y: Binary32,
)
    requires
        can_measure(a.moved(p), Spot { x, y }),
        is_ample(a.cfg.route.reach_radius),
    ensures
        ({
            let q = distance_squared(a.moved(p), Spot { x, y });
            let r = a.cfg.route.reach_radius.value();
            let rr = r * r;
            let slack = 60 * q + 20 * (FINE * one());
            &&& a.near(p, x, y) ==> r >= 0 && FINE * (q - rr) <= slack
            &&& r >= 0 && FINE * (rr - q) > slack ==> a.near(p, x, y)
        }),
{
    let at = a.moved(p);
    let here = Spot { x, y };
    the_length_of_a_way_is_its_distance(at, here);
    let len = at.minus(here).length();
    let radius = a.cfg.route.reach_radius;
    order::lemma_order_of_values(len, radius);
    let l = len.value();
    let r = radius.value();
    assert(0 <= l <= r ==> l * l <= r * r) by (nonlinear_arith);
    assert(0 <= r <= l ==> r * r <= l * l) by (nonlinear_arith);
}

/// The way that is shown leads from the player to the first point not yet
/// reached, and its length is that of the way; nothing is shown where the point
/// is nearer than one map pixel, where no point is left, or where the player is
/// not known.
pub proof fn the_way_leads_from_the_player_to_the_next_point(
    a: &OverlayApp,
    p: PlayerPos,
    rect: [i32; 4],
    i: int,
)
    requires
        a.is_next(i),
        can_measure(a.moved(a.points()[i]), Spot { x: p.x, y: p.y }),
    ensures
        ({
            let at = a.moved(a.points()[i]);
            let q = distance_squared(at, Spot { x: p.x, y: p.y });
            let slack = 60 * q + 20 * (FINE * one());
            let shown = a.aimed(Some(p), Some(rect));
            &&& shown is Point ==> {
                let way = shown->Point_1;
                let len = shown->Point_2.value();
                &&& shown->Point_0 == rect
                &&& off(way.x.value(), at.x.value() - p.x.value(), size(
                    at.x.value() - p.x.value(),
                ) + FINE)
                &&& off(way.y.value(), at.y.value() - p.y.value(), size(
                    at.y.value() - p.y.value(),
                ) + FINE)
                &&& len >= one()
                &&& off(len * len, q, slack)
            }
            &&& !(shown is Point) ==> shown == Aim::Clear(rect) && FINE * (q - one() * one())
                <= slack
        }),
{
    let j = choose|j: int| #[trigger] a.is_next(j);
    if j < i {
        assert(a.row()[j]);
    } else if i < j {
        assert(a.row()[i]);
    }
    let at = a.moved(a.points()[i]);
    let here = Spot { x: p.x, y: p.y };
    the_length_of_a_way_is_its_distance(at, here);
    close::lemma_difference(at.x, here.x);
    close::lemma_difference(at.y, here.y);
    close::lemma_one();
    let len = at.minus(here).length();
    order::lemma_order_of_values(len, Binary32::one());
    let l = len.value();
    let u = one();
    assert(0 <= l < u ==> l * l <= u * u) by (nonlinear_arith);
}

/// With nothing left to reach, without a player or without the game's client
/// area no way is shown.
pub proof fn no_way_is_shown_without_an_end(
    a: &OverlayApp,
    p: Option<PlayerPos>,
    rect: Option<[i32; 4]>,
)
    ensures
        rect is None ==> a.aimed(p, rect) is Leave,
        rect matches Some(g) ==> (p is None || (forall|i: int| !#[trigger] a.is_next(i)))
            ==> a.aimed(p, rect) == Aim::Clear(rect->0),
{
}

/// The numbers of a view along one axis are far from the largest: the focus, the
/// zoom, a place of the screen and the middle of the view.
pub open spec fn can_view(f: Binary32, z: Binary32, pos: Binary32, c: Binary32) -> bool {
    let d = pos.value() - c.value();
    &&& f.is_finite_spec() && z.is_finite_spec() && pos.is_finite_spec() && c.is_finite_spec()
    &&& z.value() != 0
    &&& 64 * size(f.value()) <= ample()
    &&& 64 * size(z.value()) <= ample()
    &&& 64 * size(c.value()) <= ample()
    &&& 64 * size(d) <= ample()
    &&& 64 * (size(d) * one()) <= ample() * size(z.value())
    &&& 64 * (size(f.value()) * size(z.value())) <= ample() * one()
}

/// How much rounding may move a place on the screen that was found from one.
pub open spec fn view_slack(f: Binary32, z: Binary32, pos: Binary32, c: Binary32) -> int {
    let d = pos.value() - c.value();
    size(c.value()) * one() + 30 * (size(d) * one()) + 4 * (size(f.value()) * size(z.value())) + 16
        * (FINE * size(z.value())) + 16 * (FINE * one())
}

/// Where a place of the map is seen: its way from the focus, enlarged by the
/// zoom, from the middle of the view.
pub proof fn a_place_is_seen_at_its_enlarged_way_from_the_middle(
    a: &OverlayApp,
    at: Spot,
    center: Spot,
)
    ensures
        can_see(at.x, a.cam_focus.x, a.cam_zoom, center.x) ==> is_seen_at(
            a.on_screen(at, center).x,
            at.x,
            a.cam_focus.x,
            a.cam_zoom,
            center.x,
        ),
        can_see(at.y, a.cam_focus.y, a.cam_zoom, center.y) ==> is_seen_at(
            a.on_screen(at, center).y,
            at.y,
            a.cam_focus.y,
            a.cam_zoom,
            center.y,
        ),
{
    if can_see(at.x, a.cam_focus.x, a.cam_zoom, center.x) {
        lemma_seen(at.x, a.cam_focus.x, a.cam_zoom, center.x);
    }
    if can_see(at.y, a.cam_focus.y, a.cam_zoom, center.y) {
        lemma_seen(at.y, a.cam_focus.y, a.cam_zoom, center.y);
    }
}

/// The numbers of a place seen are far from the largest.
pub open spec fn can_see(w: Binary32, f: Binary32, z: Binary32, c: Binary32) -> bool {
    &&& w.is_finite_spec() && f.is_finite_spec() && is_ample(z) && is_ample(c)
    &&& size(w.value() - f.value()) <= ample()
    &&& 4 * (size(w.value() - f.value()) * size(z.value())) <= ample() * one()
}

/// `s` is `c + (w - f) * z`, but for rounding.
pub open spec fn is_seen_at(
    s: Binary32,
    w: Binary32,
    f: Binary32,
    z: Binary32,
    c: Binary32,
) -> bool {
    let t = w.value() - f.value();
    &&& s.is_finite_spec()
    &&& off(
        s.value() * one(),
        c.value() * one() + t * z.value(),
        size(c.value()) * one() + 7 * (size(t) * size(z.value())) + 5 * (FINE * size(z.value()))
            + 4 * (FINE * one()),
    )
}

proof fn lemma_seen(w: Binary32, f: Binary32, z: Binary32, c: Binary32)
    requires
        can_see(w, f, z, c),
    ensures
        is_seen_at(c.plus(w.minus(f).times(z)), w, f, z, c),
{
    let u = one();
    let e = FINE as int;
    close::lemma_one();
    close::lemma_difference_times(w, f, z);
    let p = w.minus(f).times(z);
    assert(size(p.value() + c.value()) <= 3 * ample());
    let t = w.value() - f.value();
    let m = size(z.value());
    let tz = size(t) * m;
    close::lemma_size_of_product(t, z.value());
    close::lemma_size_of_product(p.value(), u);
    let pu = p.value() * u;
    assert(size(p.value()) <= ample()) by (nonlinear_arith)
        requires
            size(p.value()) * u <= 2 * tz + 2 * m + u,
            4 * tz <= ample() * u,
            m <= ample(),
            ample() >= 4,
            u >= 16,
            m >= 0,
    ;
    close::lemma_sum(c, p);
    let s = c.plus(p).value();
    let sum = c.value() + p.value();
    close::lemma_scaled(s, sum, size(sum) + e, u);
    assert((size(sum) + e) * u == size(sum) * u + e * u) by (nonlinear_arith);
    assert(size(sum) * u <= size(c.value()) * u + size(p.value()) * u) by (nonlinear_arith)
        requires
            size(sum) <= size(c.value()) + size(p.value()),
            u >= 0,
    ;
    assert(sum * u == c.value() * u + pu) by (nonlinear_arith)
        requires
            sum == c.value() + p.value(),
            pu == p.value() * u,
    ;
}

/// A place whose way from the focus, enlarged, is the way on the screen is seen
/// there again.
proof fn lemma_seen_again(
    w: Binary32,
    f: Binary32,
    z: Binary32,
    pos: Binary32,
    c: Binary32,
    slack: int,
)
    requires
        w.is_finite_spec(),
        f.is_finite_spec(),
        is_ample(z),
        is_ample(c),
        pos.is_finite_spec(),
        size(w.value() - f.value()) <= ample(),
        16 * (size(pos.value() - c.value()) * one()) <= ample() * one(),
        0 <= slack,
        16 * slack <= FINE * (ample() * one()),
        off((w.value() - f.value()) * z.value(), (pos.value() - c.value()) * one(), slack),
    ensures
        c.plus(w.minus(f).times(z)).is_finite_spec(),
        off(
            c.plus(w.minus(f).times(z)).value() * one(),
            pos.value() * one(),
            2 * slack + size(c.value()) * one() + 7 * (size(pos.value() - c.value()) * one()) + 5
                * (FINE * size(z.value())) + 5 * (FINE * one()),
        ),
{
    let u = one();
    let t = w.value() - f.value();
    let d = pos.value() - c.value();
    close::lemma_one();
    close::lemma_size_of_product(t, z.value());
    close::lemma_size_of_product(d, u);
    lemma_seen(w, f, z, c);
    assert(d * u == pos.value() * u - c.value() * u) by (nonlinear_arith)
        requires
            d == pos.value() - c.value(),
    ;
}

/// The place of the map remembered for a place of the screen is the one seen
/// there: its way from the focus, enlarged by the zoom, is the way on the screen
/// from the middle of the view.
pub proof fn a_place_of_the_screen_shows_the_place_of_the_map(
    a: &OverlayApp,
    pos: Spot,
    center: Spot,
)
    ensures
        can_view(a.cam_focus.x, a.cam_zoom, pos.x, center.x) ==> is_shown_by(
            a.world_at(pos, center).x,
            a.cam_focus.x,
            a.cam_zoom,
            pos.x,
            center.x,
        ),
        can_view(a.cam_focus.y, a.cam_zoom, pos.y, center.y) ==> is_shown_by(
            a.world_at(pos, center).y,
            a.cam_focus.y,
            a.cam_zoom,
            pos.y,
            center.y,
        ),
{
    if can_view(a.cam_focus.x, a.cam_zoom, pos.x, center.x) {
        close::lemma_plus_quotient(a.cam_focus.x, pos.x, center.x, a.cam_zoom);
    }
    if can_view(a.cam_focus.y, a.cam_zoom, pos.y, center.y) {
        close::lemma_plus_quotient(a.cam_focus.y, pos.y, center.y, a.cam_zoom);
    }
}

/// `(w - f) * z` is `pos - c`, but for rounding.
pub open spec fn is_shown_by(
    w: Binary32,
    f: Binary32,
    z: Binary32,
    pos: Binary32,
    c: Binary32,
) -> bool {
    let d = pos.value() - c.value();
    &&& w.is_finite_spec()
    &&& off(
        (w.value() - f.value()) * z.value(),
        d * one(),
        size(f.value()) * size(z.value()) + 7 * (size(d) * one()) + 3 * (FINE * size(z.value()))
            + 2 * (FINE * one()),
    )
}

/// A way that is the way `d` on the screen, reduced, is far from the largest
/// numbers.
proof fn lemma_way_is_ample(t: int, z: int, d: int, f: int, slack: int)
    requires
        z != 0,
        f >= 0,
        64 * f <= ample(),
        64 * (size(d) * one()) <= ample() * size(z),
        0 <= slack <= f * size(z) + 7 * (size(d) * one()) + 3 * (FINE * size(z)) + 5 * (FINE
            * one()),
        off(t * z, d * one(), slack),
    ensures
        size(t) <= ample(),
{
    let u = one();
    let m = size(z);
    close::lemma_one();
    close::lemma_size_of_product(t, z);
    close::lemma_size_of_product(d, u);
    let du = size(d) * u;
    let fm = f * m;
    assert(size(t) * m <= 2 * du + fm + 4 * m + 6 * u);
    assert(64 * fm <= ample() * m && 0x1000 * m <= ample() * m && 0x1000 * u <= ample() * m)
        by (nonlinear_arith)
        requires
            fm == f * m,
            64 * f <= ample(),
            0x1000 <= ample(),
            0x1000 * u <= ample(),
            m >= 1,
    ;
    assert(size(t) <= ample()) by (nonlinear_arith)
        requires
            size(t) * m <= ample() * m,
            m >= 1,
    ;
}

proof fn lemma_round_trip(f: Binary32, z: Binary32, pos: Binary32, c: Binary32)
    requires
        can_view(f, z, pos, c),
    ensures
        ({
            let w = f.plus(pos.minus(c).over(z));
            let s = c.plus(w.minus(f).times(z));
            &&& w.is_finite_spec()
            &&& s.is_finite_spec()
            &&& off(s.value() * one(), pos.value() * one(), view_slack(f, z, pos, c))
        }),
{
    let u = one();
    let e = FINE as int;
    let d = pos.value() - c.value();
    let m = size(z.value());
    let fz = size(f.value()) * m;
    let du = size(d) * u;
    close::lemma_one();
    close::lemma_plus_quotient(f, pos, c, z);
    let w = f.plus(pos.minus(c).over(z));
    let slack = fz + 7 * du + 3 * (e * m) + 2 * (e * u);
    assert(fz >= 0 && du >= 0) by (nonlinear_arith)
        requires
            fz == size(f.value()) * m,
            du == size(d) * u,
            m >= 0,
            u >= 0,
            size(f.value()) >= 0,
            size(d) >= 0,
    ;
    let au = ample() * u;
    assert(64 * du <= au && 0x1000 * m <= au && 0x1000 * u <= au) by (nonlinear_arith)
        requires
            du == size(d) * u,
            64 * size(d) <= ample(),
            64 * m <= ample(),
            0x1000 <= ample(),
            au == ample() * u,
            u >= 64,
            m >= 0,
    ;
    assert(16 * slack <= e * au);
    lemma_way_is_ample(w.value() - f.value(), z.value(), d, size(f.value()), slack);
    lemma_seen_again(w, f, z, pos, c, slack);
}

/// Drawn again, the place remembered for a click is where the user clicked, but
/// for rounding.
pub proof fn a_remembered_place_is_seen_where_the_user_clicked(
    a: &OverlayApp,
    pos: Spot,
    center: Spot,
)
    ensures
        ({
            let again = a.on_screen(a.world_at(pos, center), center);
            &&& can_view(a.cam_focus.x, a.cam_zoom, pos.x, center.x) ==> again.x.is_finite_spec()
                && off(
                again.x.value() * one(),
                pos.x.value() * one(),
                view_slack(a.cam_focus.x, a.cam_zoom, pos.x, center.x),
            )
            &&& can_view(a.cam_focus.y, a.cam_zoom, pos.y, center.y) ==> again.y.is_finite_spec()
                && off(
                again.y.value() * one(),
                pos.y.value() * one(),
                view_slack(a.cam_focus.y, a.cam_zoom, pos.y, center.y),
            )
        }),
{
    if can_view(a.cam_focus.x, a.cam_zoom, pos.x, center.x) {
        lemma_round_trip(a.cam_focus.x, a.cam_zoom, pos.x, center.x);
    }
    if can_view(a.cam_focus.y, a.cam_zoom, pos.y, center.y) {
        lemma_round_trip(a.cam_focus.y, a.cam_zoom, pos.y, center.y);
    }
}

/// The steps from a place of the screen to one of the map are exact.
pub open spec fn is_exact_view(f: Binary32, z: Binary32, pos: Binary32, c: Binary32) -> bool {
    let d = pos.minus(c);
    let q = d.over(z);
    let w = f.plus(q);
    &&& f.is_finite_spec() && z.is_finite_spec() && pos.is_finite_spec() && c.is_finite_spec()
    &&& d.is_finite_spec() && q.is_finite_spec() && w.is_finite_spec()
    &&& d.value() == pos.value() - c.value()
    &&& q.value() * z.value() == d.value() * one()
    &&& w.value() == f.value() + q.value()
}

/// A result whose exact value is that of a number is that number.
proof fn lemma_sum_is(a: Binary32, b: Binary32, r: Binary32)
    requires
        a.is_finite_spec(),
        b.is_finite_spec(),
        r.is_finite_spec(),
        a.value() + b.value() == r.value(),
    ensures
        a.plus(b).is_finite_spec(),
        a.plus(b).value() == r.value(),
        a.plus(b).same(r),
{
    exact::lemma_plus_keeps_order(a, b, r);
    order::lemma_order_of_values(a.plus(b), r);
    order::lemma_order_of_values(r, a.plus(b));
}

/// A product whose exact value is that of a number is that number.
proof fn lemma_product_is(a: Binary32, b: Binary32, r: Binary32)
    requires
        a.is_finite_spec(),
        b.is_finite_spec(),
        r.is_finite_spec(),
        a.value() * b.value() == r.value() * one(),
    ensures
        a.times(b).is_finite_spec(),
        a.times(b).value() == r.value(),
{
    reveal(Binary32::times_spec);
    close::lemma_one();
    let ua = pattern::units(a.magnitude());
    let ub = pattern::units(b.magnitude());
    let m = r.magnitude();
    crate::binary32::arith::lemma_zero_magnitude(a.magnitude());
    crate::binary32::arith::lemma_zero_magnitude(b.magnitude());
    crate::binary32::arith::lemma_zero_magnitude(m);
    close::lemma_size_of_product(a.value(), b.value());
    close::lemma_size_of_product(r.value(), one());
    assert(ua * ub == pattern::units(m) * one());
    pattern::lemma_nearest_exact(m, one());
    let u = one();
    let ur = pattern::units(m);
    assert((-ua) * ub == -(ua * ub) && ua * (-ub) == -(ua * ub) && (-ua) * (-ub) == ua * ub && (
    -ur) * u == -(ur * u)) by (nonlinear_arith);
    assert(ur > 0 ==> ur * u > 0) by (nonlinear_arith)
        requires
            u > 0,
    ;
}

/// Where the arithmetic is exact, the place remembered for a click is drawn just
/// where the user clicked.
pub proof fn an_exact_place_is_seen_just_where_the_user_clicked(
    a: &OverlayApp,
    pos: Spot,
    center: Spot,
)
    ensures
        ({
            let again = a.on_screen(a.world_at(pos, center), center);
            &&& is_exact_view(a.cam_focus.x, a.cam_zoom, pos.x, center.x) ==> again.x.same(pos.x)
            &&& is_exact_view(a.cam_focus.y, a.cam_zoom, pos.y, center.y) ==> again.y.same(pos.y)
        }),
{
    if is_exact_view(a.cam_focus.x, a.cam_zoom, pos.x, center.x) {
        lemma_exact_round_trip(a.cam_focus.x, a.cam_zoom, pos.x, center.x);
    }
    if is_exact_view(a.cam_focus.y, a.cam_zoom, pos.y, center.y) {
        lemma_exact_round_trip(a.cam_focus.y, a.cam_zoom, pos.y, center.y);
    }
}

proof fn lemma_exact_round_trip(f: Binary32, z: Binary32, pos: Binary32, c: Binary32)
    requires
        is_exact_view(f, z, pos, c),
    ensures
        c.plus(f.plus(pos.minus(c).over(z)).minus(f).times(z)).same(pos),
{
    let d = pos.minus(c);
    let q = d.over(z);
    let w = f.plus(q);
    exact::lemma_negated(f);
    lemma_sum_is(w, f.negated(), q);
    let t = w.minus(f);
    lemma_product_is(t, z, d);
    lemma_sum_is(c, t.times(z), pos);
}

/// The map place under the pointer is drawn there again after zooming, but for
/// rounding.
pub proof fn zooming_keeps_the_place_under_the_pointer(
    a: &OverlayApp,
    b: &OverlayApp,
    factor: Binary32,
    pointer: Spot,
    center: Spot,
)
    requires
        b.cam_zoom == a.zoomed(factor),
        b.cam_focus == a.refocused(factor, pointer, center),
    ensures
        ({
            let place = a.world_at(pointer, center);
            let again = b.on_screen(place, center);
            &&& can_view(a.cam_focus.x, a.cam_zoom, pointer.x, center.x) && can_view(
                place.x,
                b.cam_zoom,
                pointer.x,
                center.x,
            ) ==> again.x.is_finite_spec() && off(
                again.x.value() * one(),
                pointer.x.value() * one(),
                view_slack(place.x, b.cam_zoom, pointer.x, center.x),
            )
            &&& can_view(a.cam_focus.y, a.cam_zoom, pointer.y, center.y) && can_view(
                place.y,
                b.cam_zoom,
                pointer.y,
                center.y,
            ) ==> again.y.is_finite_spec() && off(
                again.y.value() * one(),
                pointer.y.value() * one(),
                view_slack(place.y, b.cam_zoom, pointer.y, center.y),
            )
        }),
{
    let place = a.world_at(pointer, center);
    if can_view(place.x, b.cam_zoom, pointer.x, center.x) {
        lemma_refocused(place.x, b.cam_zoom, pointer.x, center.x);
    }
    if can_view(place.y, b.cam_zoom, pointer.y, center.y) {
        lemma_refocused(place.y, b.cam_zoom, pointer.y, center.y);
    }
}

proof fn lemma_refocused(w: Binary32, z: Binary32, pos: Binary32, c: Binary32)
    requires
        can_view(w, z, pos, c),
    ensures
        ({
            let f = w.minus(pos.minus(c).over(z));
            let s = c.plus(w.minus(f).times(z));
            &&& s.is_finite_spec()
            &&& off(s.value() * one(), pos.value() * one(), view_slack(w, z, pos, c))
        }),
{
    let u = one();
    let e = FINE as int;
    let d = pos.value() - c.value();
    let m = size(z.value());
    let fz = size(w.value()) * m;
    let du = size(d) * u;
    close::lemma_one();
    close::lemma_difference(pos, c);
    let dd = pos.minus(c).value();
    assert(size(dd) <= 2 * size(d) + 1);
    assert(size(dd) * u <= 2 * du + u) by (nonlinear_arith)
        requires
            size(dd) <= 2 * size(d) + 1,
            du == size(d) * u,
            u >= 0,
    ;
    assert(4 * (2 * du + u) <= ample() * m) by (nonlinear_arith)
        requires
            64 * du <= ample() * m,
            8 * u <= ample(),
            m >= 1,
    ;
    close::lemma_minus_quotient(w, pos.minus(c), z);
    close::lemma_scaled(dd, d, size(d) + e, u);
    assert((size(d) + e) * u == du + e * u) by (nonlinear_arith)
        requires
            du == size(d) * u,
    ;
    let f = w.minus(pos.minus(c).over(z));
    let slack = fz + 7 * du + 3 * (e * m) + 5 * (e * u);
    assert(fz >= 0 && du >= 0) by (nonlinear_arith)
        requires
            fz == size(w.value()) * m,
            du == size(d) * u,
            m >= 0,
            u >= 0,
            size(w.value()) >= 0,
            size(d) >= 0,
    ;
    let au = ample() * u;
    assert(64 * du <= au && 0x1000 * m <= au && 0x1000 * u <= au) by (nonlinear_arith)
        requires
            du == size(d) * u,
            64 * size(d) <= ample(),
            64 * m <= ample(),
            0x1000 <= ample(),
            au == ample() * u,
            u >= 64,
            m >= 0,
    ;
    assert(16 * slack <= e * au);
    lemma_way_is_ample(w.value() - f.value(), z.value(), d, size(w.value()), slack);
    lemma_seen_again(w, f, z, pos, c, slack);
}

/// Dragging the map moves what is seen along: the focus goes back by the way on
/// the screen, reduced by the zoom.
pub proof fn dragging_moves_the_map_with_the_pointer(a: &OverlayApp, d: Spot)
    ensures
        can_drag(a.cam_focus.x, d.x, a.cam_zoom) ==> is_dragged_by(
            a.dragged(d).x,
            a.cam_focus.x,
            d.x,
            a.cam_zoom,
        ),
        can_drag(a.cam_focus.y, d.y, a.cam_zoom) ==> is_dragged_by(
            a.dragged(d).y,
            a.cam_focus.y,
            d.y,
            a.cam_zoom,
        ),
{
    if can_drag(a.cam_focus.x, d.x, a.cam_zoom) {
        close::lemma_minus_quotient(a.cam_focus.x, d.x, a.cam_zoom);
    }
    if can_drag(a.cam_focus.y, d.y, a.cam_zoom) {
        close::lemma_minus_quotient(a.cam_focus.y, d.y, a.cam_zoom);
    }
}

/// The numbers of a drag along one axis are far from the largest.
pub open spec fn can_drag(f: Binary32, d: Binary32, z: Binary32) -> bool {
    &&& is_ample(f) && d.is_finite_spec() && z.is_finite_spec() && z.value() != 0
    &&& 4 * (size(d.value()) * one()) <= ample() * size(z.value())
}

/// `(f - g) * z` is `d`, but for rounding.
pub open spec fn is_dragged_by(g: Binary32, f: Binary32, d: Binary32, z: Binary32) -> bool {
    &&& g.is_finite_spec()
    &&& off(
        (f.value() - g.value()) * z.value(),
        d.value() * one(),
        size(f.value()) * size(z.value()) + 3 * (size(d.value()) * one()) + 3 * (FINE * size(
            z.value(),
        )),
    )
}

/// Zooming enlarges by the factor, and stops at a tenth and at twenty times the
/// first size of the map, but for rounding.
pub proof fn zooming_enlarges_by_the_factor(a: &OverlayApp, factor: Binary32)
    requires
        a.wf(),
        is_ample(a.cam_zoom),
        factor.is_finite_spec(),
        4 * size(a.cam_zoom.value() * factor.value()) <= ample() * one(),
        is_ample(a.display_scale),
        0 <= 64 * a.display_scale.value() <= ample(),
    ensures
        ({
            let z = a.zoomed(factor);
            let exact = a.cam_zoom.value() * factor.value();
            let slack = size(exact) + FINE * one();
            let first = a.display_scale.value();
            &&& z.is_finite_spec()
            &&& a.least_zoom().lt(z) && z.lt(a.greatest_zoom()) ==> off(
                z.value() * one(),
                exact,
                slack,
            )
            &&& z.value() * one() < exact && FINE * (exact - z.value() * one()) > slack ==> off(
                z.value(),
                20 * first,
                40 * first + 2 * FINE,
            )
            &&& z.value() * one() > exact && FINE * (z.value() * one() - exact) > slack ==> off(
                10 * z.value(),
                first,
                40 * first + 20 * FINE,
            )
        }),
{
    let u = one();
    close::lemma_one();
    assert((2 * ample()) * u == 2 * (ample() * u)) by (nonlinear_arith);
    close::lemma_product(a.cam_zoom, factor);
    lemma_zoom_bounds(a.display_scale);
    let p = a.cam_zoom.times(factor);
    let low = a.least_zoom();
    let high = a.greatest_zoom();
    order::lemma_order_of_values(p, low);
    order::lemma_order_of_values(high, p);
    let z = a.zoomed(factor);
    assert(p.value() <= low.value() ==> p.value() * u <= low.value() * u) by (nonlinear_arith)
        requires
            u > 0,
    ;
    assert(p.value() >= high.value() ==> p.value() * u >= high.value() * u) by (nonlinear_arith)
        requires
            u > 0,
    ;
}

/// The bounds of the zoom.
proof fn lemma_zoom_bounds(s: Binary32)
    requires
        s.is_finite_spec(),
        0 <= 64 * s.value() <= ample(),
    ensures
        s.times(Binary32::of_bits(ZOOM_MIN)).is_finite_spec(),
        s.times(Binary32::of_bits(ZOOM_MAX)).is_finite_spec(),
        off(10 * s.times(Binary32::of_bits(ZOOM_MIN)).value(), s.value(), 40 * s.value() + 20 * FINE),
        off(s.times(Binary32::of_bits(ZOOM_MAX)).value(), 20 * s.value(), 40 * s.value() + 2 * FINE),
{
    let u = one();
    let v = s.value();
    let e = FINE as int;
    close::lemma_one();
    vstd::arithmetic::power2::lemma2_to64();
    vstd::arithmetic::power2::lemma_pow2_adds(26, 123);
    vstd::arithmetic::power2::lemma_pow2_adds(19, 130);
    vstd::arithmetic::power2::lemma_pow2_adds(19, 122);
    vstd::arithmetic::power2::lemma_pow2_adds(27, 122);
    let low = Binary32::of_bits(ZOOM_MIN);
    let high = Binary32::of_bits(ZOOM_MAX);
    let g = vstd::arithmetic::power2::pow2(122) as int;
    assert(0x3dcc_cccdint / 0x80_0000 == 123 && 0x3dcc_cccdint % 0x80_0000 == 0x4c_cccd);
    assert(low.value() == 0xcc_cccd * g);
    assert(0x41a0_0000int / 0x80_0000 == 131 && 0x41a0_0000int % 0x80_0000 == 0x20_0000);
    assert(high.value() == 0xa0_0000 * vstd::arithmetic::power2::pow2(130));
    assert(0xa0_0000 * vstd::arithmetic::power2::pow2(130) == 20 * u) by (nonlinear_arith)
        requires
            u == 0x8_0000 * vstd::arithmetic::power2::pow2(130),
    ;
    assert(u == 0x800_0000 * g);
    let vl = v * low.value();
    let vh = v * high.value();
    let vu = v * u;
    assert(vh == 20 * vu) by (nonlinear_arith)
        requires
            vh == v * high.value(),
            high.value() == 20 * u,
            vu == v * u,
    ;
    assert(vl >= 0 && vu >= 0 && 10 * vl >= vu && 0x800_0000 * (10 * vl - vu) <= 2 * vu)
        by (nonlinear_arith)
        requires
            vl == v * (0xcc_cccd * g),
            vu == v * (0x800_0000 * g),
            v >= 0,
            g >= 0,
    ;
    assert(64 * vu <= ample() * u) by (nonlinear_arith)
        requires
            64 * v <= ample(),
            vu == v * u,
            u >= 0,
    ;
    assert((2 * ample()) * u == 2 * (ample() * u)) by (nonlinear_arith);
    close::lemma_product(s, low);
    close::lemma_product(s, high);
    let pl = s.times(low).value();
    let ph = s.times(high).value();
    assert(e * size(10 * pl - v) <= 40 * v + 20 * e) by (nonlinear_arith)
        requires
            e * (pl * u - vl) <= vl + e * u,
            e * (vl - pl * u) <= vl + e * u,
            10 * vl >= vu,
            0x800_0000 * (10 * vl - vu) <= 2 * vu,
            vu == v * u,
            u > 0,
            v >= 0,
            e == 0x100_0000,
            size(10 * pl - v) == 10 * pl - v || size(10 * pl - v) == v - 10 * pl,
    ;
    assert(e * size(ph - 20 * v) <= 40 * v + 2 * e) by (nonlinear_arith)
        requires
            e * (ph * u - vh) <= vh + e * u,
            e * (vh - ph * u) <= vh + e * u,
            vh == 20 * vu,
            vu == v * u,
            u > 0,
            v >= 0,
            e == 0x100_0000,
            size(ph - 20 * v) == ph - 20 * v || size(ph - 20 * v) == 20 * v - ph,
    ;
}

} // verus!
