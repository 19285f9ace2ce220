//! How the position that is told follows those that are found.

use vstd::prelude::*;

use crate::binary32::close;
use crate::binary32::close::{ample, off, one, size, FINE};
use crate::binary32::order;
use crate::binary32::Binary32;
use crate::locator::WorldPos;
use crate::pixels;
use crate::pixels::Shades;
use crate::worker;
use crate::worker::Tracker;

verus! {

/// `r` is the mean of `new` and `before`, with the weight `alpha` on the new one,
/// but for rounding, for numbers of at most `m`.
pub open spec fn is_mean(
    r: Binary32,
    alpha: Binary32,
    new: Binary32,
    before: Binary32,
    m: int,
) -> bool {
    &&& r.is_finite_spec()
    &&& off(
        r.value() * one(),
        alpha.value() * new.value() + (one() - alpha.value()) * before.value(),
        (20 * m + 10) * (one() * one()),
    )
}

/// A finite number of at most `m`.
pub open spec fn is_within(a: Binary32, m: int) -> bool {
    a.is_finite_spec() && size(a.value()) <= m * one()
}

proof fn lemma_mean(alpha: Binary32, new: Binary32, before: Binary32, m: int)
    requires
        alpha.is_finite_spec(),
        0 <= alpha.value() <= one(),
        0 <= m <= 0x4_0000,
        is_within(new, m),
        is_within(before, m),
    ensures
        is_mean(
            alpha.times(new).plus(Binary32::one().minus(alpha).times(before)),
            alpha,
            new,
            before,
            m,
        ),
{
    let u = one();
    let a = alpha.value();
    close::lemma_one();
    close::lemma_difference_within(Binary32::one(), alpha, 2);
    let rest = Binary32::one().minus(alpha);
    assert(size(a) <= 3 * u);
    close::lemma_product_within(alpha, new, 3, m);
    close::lemma_product_within(rest, before, 3, m);
    let p = alpha.times(new);
    let q = rest.times(before);
    let k = 3 * m;
    assert(2 * ((k + 1) * u) == (2 * k + 2) * u) by (nonlinear_arith);
    close::lemma_sum_within(p, q, 2 * k + 2);
    let r = p.plus(q).value();
    close::lemma_scaled(r, p.value() + q.value(), (2 * k + 3) * u, u);
    close::lemma_off_times(rest.value(), u - a, 3 * u, before.value(), m * u);
    assert(((2 * k + 3) * u) * u == (6 * m + 3) * (u * u) && (p.value() + q.value()) * u == p.value()
        * u + q.value() * u && (3 * u) * (m * u) == (3 * m) * (u * u) && (20 * m + 10) * (u * u)
        == (6 * m + 3) * (u * u) + 2 * ((3 * m + 1) * (u * u)) + (3 * m) * (u * u) + (5 * m + 5) * (u
        * u) && (5 * m + 5) * (u * u) >= 0) by (nonlinear_arith)
        requires
            k == 3 * m,
            m >= 0,
    ;
}

/// A new position is told as the mean of the one found and the last one told, each
/// coordinate by itself, with the weight of the settings on the one found. The
/// first one is told as it is.
pub proof fn a_position_is_the_mean_of_the_found_and_the_last(t: Tracker, p: WorldPos, m: int)
    requires
        t.alpha.is_finite_spec(),
        0 <= t.alpha.value() <= one(),
        0 <= m <= 0x4_0000,
        is_within(p.x, m),
        is_within(p.y, m),
        t.last matches Some(l) ==> is_within(l.0, m) && is_within(l.1, m),
    ensures
        ({
            let told = t.absorbed(Some(p)).last;
            &&& told is Some
            &&& t.last is None ==> told == Some((p.x, p.y))
            &&& t.last matches Some(l) ==> is_mean(told->Some_0.0, t.alpha, p.x, l.0, m) && is_mean(
                told->Some_0.1,
                t.alpha,
                p.y,
                l.1,
                m,
            )
            &&& t.absorbed(Some(p)).last_scale == p.scale
            &&& t.absorbed(Some(p)).last_score == p.score
        }),
{
    if let Some(l) = t.last {
        lemma_mean(t.alpha, p.x, l.0, m);
        lemma_mean(t.alpha, p.y, l.1, m);
    }
}

/// The piece of the map that is shown reaches half of the minimap's width at its
/// scale from the player.
pub proof fn a_piece_reaches_half_of_the_minimap(t: Tracker, frame_w: int)
    requires
        0 <= frame_w <= 0x100_0000,
        t.last_scale.is_finite_spec(),
        t.last_scale.ge(Binary32::of_bits(worker::PATCH_SCALE_MIN)),
        0x100_0000 * t.last_scale.value() <= ample(),
    ensures
        ({
            let r = t.patch_reach(frame_w);
            let w = frame_w * t.last_scale.value();
            &&& r.is_finite_spec()
            &&& off(2 * r.value(), w, w + 2 * FINE)
        }),
{
    let least = Binary32::of_bits(worker::PATCH_SCALE_MIN);
    close::lemma_one();
    order::lemma_order_of_values(least, t.last_scale);
    assert(least.value() >= 0);
    assert(t.last_scale.max(least) == t.last_scale);
    close::lemma_half_width(frame_w, t.last_scale);
}

/// The half side of a piece is its reach in whole pixels, but no less than eight.
pub proof fn the_half_side_is_the_reach_in_whole_pixels(reach: Binary32)
    requires
        reach.is_finite_spec(),
        reach.value() <= 0x100_0000 * one(),
    ensures
        worker::half_side(reach) >= 8,
        reach.value() >= 8 * one() ==> worker::half_side(reach) * one() <= reach.value() < (
        worker::half_side(reach) + 1) * one(),
        reach.value() < 8 * one() ==> worker::half_side(reach) == 8,
{
    let u = one();
    let least = Binary32::of_bits(worker::PATCH_MIN);
    close::lemma_one();
    vstd::arithmetic::power2::lemma2_to64();
    vstd::arithmetic::power2::lemma_pow2_adds(23, 129);
    vstd::arithmetic::power2::lemma_pow2_adds(3, 149);
    assert(0x4100_0000int / 0x80_0000 == 130 && 0x4100_0000int % 0x80_0000 == 0);
    assert(least.value() == 8 * u);
    order::lemma_order_of_values(reach, least);
    order::lemma_order_of_values(least, reach);
    let x = reach.max(least);
    let v = x.value();
    assert(x.is_finite_spec() && !x.is_negative() && v >= 8 * u);
    crate::binary32::arith::lemma_zero_magnitude(x.magnitude());
    let k = v / u;
    vstd::arithmetic::div_mod::lemma_fundamental_div_mod(v, u);
    vstd::arithmetic::div_mod::lemma_mod_bound(v, u);
    assert(u * k == k * u && (k + 1) * u == k * u + u) by (nonlinear_arith);
    assert(8 <= k <= 0x100_0000) by (nonlinear_arith)
        requires
            k * u <= v,
            v < k * u + u,
            8 * u <= v,
            v <= 0x100_0000 * u,
            u > 0,
    ;
    assert(x.to_u32() == k);
    if v == 8 * u {
        assert(k == 8) by (nonlinear_arith)
            requires
                k * u <= 8 * u,
                k >= 8,
                u > 0,
        ;
    }
}

/// The piece of the map that is shown has at every place the shade that the map has
/// there, in all three colours.
pub proof fn a_piece_shows_the_map_as_it_is(
    gray: Shades,
    cx: Binary32,
    cy: Binary32,
    reach: Binary32,
    x: int,
    y: int,
    c: int,
)
    requires
        0 <= x < gray.width,
        0 <= y < gray.height,
        0 <= c < 3,
        cx.to_i32() - worker::half_side(reach) <= x < cx.to_i32() + worker::half_side(reach),
        cy.to_i32() - worker::half_side(reach) <= y < cy.to_i32() + worker::half_side(reach),
    ensures
        ({
            let r = worker::half_side(reach);
            let left = if cx.to_i32() < r {
                0
            } else {
                cx.to_i32() - r
            };
            let top = if cy.to_i32() < r {
                0
            } else {
                cy.to_i32() - r
            };
            let shown = worker::cropped(gray, cx, cy, reach);
            &&& 0 <= x - left < shown.width
            &&& 0 <= y - top < shown.height
            &&& shown.channel(x - left, y - top, c) == gray.data[y * gray.width + x]
        }),
{
    let r = worker::half_side(reach);
    let cols = worker::edges(cx, r, gray.width);
    let rows = worker::edges(cy, r, gray.height);
    let w = cols.1 - cols.0;
    let h = rows.1 - rows.0;
    let i = x - cols.0;
    let j = y - rows.0;
    let shown = worker::cropped(gray, cx, cy, reach);
    let part = pixels::window_gray(gray.data, gray.width, (cols.0, w), (rows.0, h));
    let k = j * w + i;
    assert(0 <= k < w * h) by (nonlinear_arith)
        requires
            k == j * w + i,
            0 <= i < w,
            0 <= j < h,
    ;
    vstd::arithmetic::div_mod::lemma_fundamental_div_mod_converse(k, w, j, i);
    let n = 3 * k + c;
    assert(n / 3 == k);
    assert(shown.data[n] == part[k]);
}

} // verus!
