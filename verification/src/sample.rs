//! What a picture shows under the points of the arrow.

use vstd::prelude::*;

use crate::binary32::close;
use crate::binary32::close::{ample, off, one, size, FINE};
use crate::binary32::convert;
use crate::binary32::exact;
use crate::binary32::order;
use crate::binary32::Binary32;
use crate::direction;
use crate::direction::{Sums, TemplatePoint};
use crate::heading;
use crate::heading::{is_within, mixed};
use crate::pixels;
use crate::pixels::Colours;

verus! {

/// One colour at `(x, y)` is mixed of the four pixels around the place: that of pixel
/// `(x0, y0)`, the next ones across and down as far as there are any, and the one
/// across and down from it, each by how near it is.
pub open spec fn is_colour_at(
    r: Binary32,
    frame: Colours,
    x: int,
    y: int,
    c: int,
    x0: int,
    y0: int,
) -> bool {
    let u = one();
    let x1 = if x0 + 1 < frame.width {
        x0 + 1
    } else {
        x0
    };
    let y1 = if y0 + 1 < frame.height {
        y0 + 1
    } else {
        y0
    };
    &&& 0 <= x0 < frame.width
    &&& 0 <= y0 < frame.height
    &&& x0 * u <= x < (x0 + 1) * u
    &&& y0 * u <= y < (y0 + 1) * u
    &&& r.is_finite_spec()
    &&& off(
        r.value() * u,
        mixed(
            frame.channel(x0, y0, c) as int,
            frame.channel(x1, y0, c) as int,
            frame.channel(x0, y1, c) as int,
            frame.channel(x1, y1, c) as int,
            x - x0 * u,
            y - y0 * u,
        ),
        17_000 * (u * u),
    )
}

/// The whole part of a number and what is left of it.
proof fn lemma_parts(x: Binary32, n: int) -> (k: int)
    requires
        x.is_finite_spec(),
        !x.is_negative(),
        1 <= n <= 0x40_0000,
        x.value() <= (n - 1) * one(),
    ensures
        0 <= k < n,
        k * one() <= x.value() < (k + 1) * one(),
        x.floor().to_u32() == k,
        ({
            let t = x.minus(convert::of_int(k));
            &&& t.is_finite_spec()
            &&& 0 <= t.value() <= one()
            &&& off(t.value(), x.value() - k * one(), 2 * one())
        }),
{
    let u = one();
    let v = x.value();
    close::lemma_one();
    crate::binary32::arith::lemma_zero_magnitude(x.magnitude());
    let k = exact::lemma_whole_or_large(x).0;
    vstd::arithmetic::div_mod::lemma_fundamental_div_mod(v, u);
    vstd::arithmetic::div_mod::lemma_mod_bound(v, u);
    assert(u * k == k * u && (k + 1) * u == k * u + u) by (nonlinear_arith);
    assert(k < n) by (nonlinear_arith)
        requires
            k * u <= v,
            v <= (n - 1) * u,
            u > 0,
    ;
    exact::lemma_to_u32_exact(x.floor(), k);
    exact::lemma_of_int_exact(k);
    let w = convert::of_int(k);
    exact::lemma_negated(w);
    exact::lemma_plus_keeps_order(x, w.negated(), Binary32::zero());
    exact::lemma_plus_keeps_order(x, w.negated(), Binary32::one());
    let t = x.minus(w);
    order::lemma_order_of_values(Binary32::zero(), t);
    order::lemma_order_of_values(t, Binary32::one());
    close::lemma_difference(x, w);
    k
}

/// How much a mixture changes with the place.
proof fn lemma_mixture_is_steady(a: int, b: int, c: int, d: int, s: int, t: int, y: int)
    requires
        0 <= a <= 255,
        0 <= b <= 255,
        0 <= c <= 255,
        0 <= d <= 255,
        0 <= y <= one(),
    ensures
        size(mixed(a, b, c, d, s, y) - mixed(a, b, c, d, t, y)) <= (255 * size(s - t)) * one(),
        size(mixed(a, b, c, d, y, s) - mixed(a, b, c, d, y, t)) <= (255 * size(s - t)) * one(),
{
    let u = one();
    let g = s - t;
    let z = size(g);
    let a1 = a * (u - s) + b * s;
    let a2 = a * (u - t) + b * t;
    let b1 = c * (u - s) + d * s;
    let b2 = c * (u - t) + d * t;
    assert(a1 - a2 == (b - a) * g && b1 - b2 == (d - c) * g) by (nonlinear_arith)
        requires
            g == s - t,
            a1 == a * (u - s) + b * s,
            a2 == a * (u - t) + b * t,
            b1 == c * (u - s) + d * s,
            b2 == c * (u - t) + d * t,
    ;
    assert(a1 * (u - y) - a2 * (u - y) == (a1 - a2) * (u - y) && b1 * y - b2 * y == (b1 - b2) * y)
        by (nonlinear_arith);
    let p = (b - a) * g;
    let q = (d - c) * g;
    assert(-(255 * z) <= p <= 255 * z && -(255 * z) <= q <= 255 * z) by (nonlinear_arith)
        requires
            p == (b - a) * g,
            q == (d - c) * g,
            -255 <= b - a <= 255,
            -255 <= d - c <= 255,
            g >= 0 ==> z == g,
            g < 0 ==> z == -g,
    ;
    assert(-(255 * z) * u <= p * (u - y) + q * y <= (255 * z) * u) by (nonlinear_arith)
        requires
            -(255 * z) <= p <= 255 * z,
            -(255 * z) <= q <= 255 * z,
            0 <= y <= u,
    ;
    assert(-(255 * z) * u == -((255 * z) * u)) by (nonlinear_arith);
    let m = a * (u - y) + b * y;
    let n = c * (u - y) + d * y;
    assert((m * (u - s) + n * s) - (m * (u - t) + n * t) == (n - m) * g) by (nonlinear_arith)
        requires
            g == s - t,
    ;
    assert(0 <= m <= 255 * u && 0 <= n <= 255 * u) by (nonlinear_arith)
        requires
            m == a * (u - y) + b * y,
            n == c * (u - y) + d * y,
            0 <= a <= 255,
            0 <= b <= 255,
            0 <= c <= 255,
            0 <= d <= 255,
            0 <= y <= u,
    ;
    close::lemma_size_of_product(n - m, g);
    assert(size(n - m) * z <= (255 * z) * u) by (nonlinear_arith)
        requires
            size(n - m) <= 255 * u,
            z >= 0,
    ;
}

/// One of three colours.
pub open spec fn one_of(seen: (Binary32, Binary32, Binary32), c: int) -> Binary32 {
    if c == 0 {
        seen.0
    } else if c == 1 {
        seen.1
    } else {
        seen.2
    }
}

/// A place in a picture shows the colours of the pixels around it, mixed by how near
/// they are. A place outside shows nothing.
pub proof fn a_place_shows_the_pixels_around_it(frame: Colours, x: Binary32, y: Binary32, c: int)
    requires
        1 <= frame.width <= 0x40_0000,
        1 <= frame.height <= 0x40_0000,
        x.is_finite_spec(),
        y.is_finite_spec(),
        !x.is_negative(),
        !y.is_negative(),
        0 <= c < 3,
    ensures
        direction::sampled(frame, x, y) is Some <==> x.value() <= (frame.width - 1) * one()
            && y.value() <= (frame.height - 1) * one(),
        direction::sampled(frame, x, y) matches Some(seen) ==> {
            &&& is_within(one_of(seen, c), 257)
            &&& exists|x0: int, y0: int| #[trigger]
                is_colour_at(one_of(seen, c), frame, x.value(), y.value(), c, x0, y0)
        },
{
    let u = one();
    close::lemma_one();
    exact::lemma_of_int_exact(frame.width - 1);
    exact::lemma_of_int_exact(frame.height - 1);
    order::lemma_order_of_values(x, Binary32::zero());
    order::lemma_order_of_values(y, Binary32::zero());
    order::lemma_order_of_values(convert::of_int(frame.width - 1), x);
    order::lemma_order_of_values(convert::of_int(frame.height - 1), y);
    crate::binary32::arith::lemma_zero_magnitude(x.magnitude());
    crate::binary32::arith::lemma_zero_magnitude(y.magnitude());
    if direction::sampled(frame, x, y) is Some {
        let x0 = lemma_parts(x, frame.width);
        let y0 = lemma_parts(y, frame.height);
        let x1 = direction::next_within(x0, frame.width);
        let y1 = direction::next_within(y0, frame.height);
        let a = frame.channel(x0, y0, c);
        let b = frame.channel(x1, y0, c);
        let e = frame.channel(x0, y1, c);
        let d = frame.channel(x1, y1, c);
        let tx = x.minus(convert::of_int(x0));
        let ty = y.minus(convert::of_int(y0));
        heading::a_colour_between_pixels_is_their_weighted_mean(a, b, e, d, tx, ty);
        let r = one_of(direction::sampled(frame, x, y)->Some_0, c);
        assert(r == direction::colour_at(frame, x, y, c));
        let s = x.value() - x0 * u;
        let t = y.value() - y0 * u;
        assert((x0 + 1) * u == x0 * u + u && (y0 + 1) * u == y0 * u + u) by (nonlinear_arith);
        lemma_mixture_is_steady(
            a as int,
            b as int,
            e as int,
            d as int,
            tx.value(),
            s,
            ty.value(),
        );
        lemma_mixture_is_steady(a as int, b as int, e as int, d as int, ty.value(), t, s);
        let m0 = mixed(a as int, b as int, e as int, d as int, tx.value(), ty.value());
        let m1 = mixed(a as int, b as int, e as int, d as int, s, ty.value());
        let m2 = mixed(a as int, b as int, e as int, d as int, s, t);
        let p = size(tx.value() - s);
        let q = size(ty.value() - t);
        assert(FINE * ((255 * p) * u) <= 510 * (u * u) && FINE * ((255 * q) * u) <= 510 * (u * u))
            by (nonlinear_arith)
            requires
                FINE * p <= 2 * u,
                FINE * q <= 2 * u,
                u > 0,
        ;
        assert(off(m0, m1, 510 * (u * u)));
        assert(off(m1, m2, 510 * (u * u)));
        close::lemma_chained(m0, m1, m2, 510 * (u * u), 510 * (u * u));
        close::lemma_chained(r.value() * u, m0, m2, 15_000 * (u * u), 1020 * (u * u));
        assert(u * u >= 0) by (nonlinear_arith);
        assert(is_colour_at(r, frame, x.value(), y.value(), c, x0, y0));
    }
}

/// A point of the arrow adds its weight; to the errors it adds its weight times the
/// error of its colour, or all of its weight where it is outside the picture; and to
/// what fits it adds its weight where that error is small, and nothing elsewhere.
pub proof fn a_point_adds_its_weight_and_its_weighted_error(
    before: Sums,
    p: TemplatePoint,
    seen: Option<(Binary32, Binary32, Binary32)>,
    m: int,
)
    requires
        0 <= m <= 0x10_0000,
        is_within(before.weight, m),
        is_within(before.error, m),
        is_within(before.matched, m),
        is_within(p.weight, 2),
        seen matches Some(rgb) ==> is_within(direction::colour_error(p, rgb), 2),
    ensures
        ({
            let u = one();
            let after = direction::with_point(before, p, seen);
            let slack = (m + 16) * u;
            &&& after.weight.is_finite_spec() && off(
                after.weight.value() - before.weight.value(),
                p.weight.value(),
                slack,
            )
            &&& after.error.is_finite_spec()
            &&& after.matched.is_finite_spec()
            &&& seen is None ==> off(
                after.error.value() - before.error.value(),
                p.weight.value(),
                slack,
            ) && after.matched == before.matched
            &&& seen matches Some(rgb) ==> {
                let err = direction::colour_error(p, rgb);
                &&& off(
                    (after.error.value() - before.error.value()) * u,
                    p.weight.value() * err.value(),
                    slack * u,
                )
                &&& err.le(Binary32::of_bits(direction::MATCH_PIXEL_MAX_ERR)) ==> off(
                    after.matched.value() - before.matched.value(),
                    p.weight.value(),
                    slack,
                )
                &&& !err.le(Binary32::of_bits(direction::MATCH_PIXEL_MAX_ERR)) ==> after.matched
                    == before.matched
            }
        }),
{
    let u = one();
    close::lemma_one();
    assert(m * u + 2 * u == (m + 2) * u && (m + 3) * u <= (m + 16) * u && m * u + 5 * u == (m + 5)
        * u) by (nonlinear_arith)
        requires
            u > 0,
    ;
    close::lemma_sum_within(before.weight, p.weight, m + 2);
    close::lemma_sum_within(before.error, p.weight, m + 2);
    close::lemma_sum_within(before.matched, p.weight, m + 2);
    if let Some(rgb) = seen {
        let err = direction::colour_error(p, rgb);
        assert(2int * 2int == 4);
        close::lemma_product_within(p.weight, err, 2, 2);
        let q = p.weight.times(err);
        assert(size(q.value()) <= 5 * u);
        close::lemma_sum_within(before.error, q, m + 5);
        let after = before.error.plus(q).value();
        let d = after - before.error.value();
        assert(off(d, q.value(), (m + 6) * u));
        close::lemma_scaled(d, q.value(), (m + 6) * u, u);
        let k = p.weight.value() * err.value();
        close::lemma_chained(d * u, q.value() * u, k, ((m + 6) * u) * u, 5 * (u * u));
        assert(((m + 6) * u) * u + 5 * (u * u) <= ((m + 16) * u) * u) by (nonlinear_arith)
            requires
                u > 0,
        ;
    }
}

/// The error of a fit is the mean of the errors and its share that of what fits: each
/// times the weight gives the sum.
pub proof fn the_error_of_a_fit_is_the_weighted_mean(sums: Sums)
    requires
        sums.weight.is_finite_spec(),
        is_within(sums.error, 0x10_0000),
        is_within(sums.matched, 0x10_0000),
        sums.weight.gt(Binary32::zero()),
        0x1000 * sums.weight.value() >= one(),
    ensures
        ({
            let u = one();
            let r = direction::score_of(sums);
            let w = sums.weight.value();
            &&& r.0.is_finite_spec()
            &&& r.1.is_finite_spec()
            &&& off(r.0.value() * w, sums.error.value() * u, size(sums.error.value()) * u + FINE * w)
            &&& off(
                r.1.value() * w,
                sums.matched.value() * u,
                size(sums.matched.value()) * u + FINE * w,
            )
        }),
{
    let u = one();
    let w = sums.weight.value();
    close::lemma_one();
    order::lemma_order_of_values(Binary32::zero(), sums.weight);
    let a = size(sums.error.value());
    let b = size(sums.matched.value());
    assert(a * u <= (2 * ample()) * w && b * u <= (2 * ample()) * w) by (nonlinear_arith)
        requires
            0 <= a <= 0x10_0000 * u,
            0 <= b <= 0x10_0000 * u,
            0x1000 * w >= u,
            u > 0,
            ample() >= 0x1_0000_0000_0000_0000 * u,
    ;
    close::lemma_quotient(sums.error, sums.weight);
    close::lemma_quotient(sums.matched, sums.weight);
}

/// A pixel of the arrow's picture is a point of the arrow where it is opaque enough,
/// at its place from the middle of the picture and in its colour.
pub proof fn a_point_of_the_arrow_is_its_pixel(data: Seq<u8>, w: int, h: int, x: int, y: int)
    requires
        1 <= w <= 0x8000,
        1 <= h <= 0x8000,
        0 <= x < w,
        0 <= y < h,
    ensures
        ({
            let i = y * w + x;
            let u = one();
            &&& direction::point_of(data, w, h, i) is Some <==> data[4 * i + 3]
                >= direction::ALPHA_MIN
            &&& direction::point_of(data, w, h, i) matches Some(p) ==> {
                &&& p.dx.is_finite_spec() && 2 * p.dx.value() == (2 * x - w + 1) * u
                &&& p.dy.is_finite_spec() && 2 * p.dy.value() == (2 * y - h + 1) * u
                &&& p.red.value() == data[4 * i] * u
                &&& p.green.value() == data[4 * i + 1] * u
                &&& p.blue.value() == data[4 * i + 2] * u
            }
        }),
{
    let i = y * w + x;
    vstd::arithmetic::div_mod::lemma_fundamental_div_mod_converse(i, w, y, x);
    lemma_off_middle(x, w);
    lemma_off_middle(y, h);
    exact::lemma_of_int_exact(data[4 * i] as int);
    exact::lemma_of_int_exact(data[4 * i + 1] as int);
    exact::lemma_of_int_exact(data[4 * i + 2] as int);
}

pub proof fn lemma_off_middle(k: int, n: int)
    requires
        1 <= n <= 0x8000,
        0 <= k < n,
    ensures
        pixels::off_middle(k, n).is_finite_spec(),
        2 * pixels::off_middle(k, n).value() == (2 * k - n + 1) * one(),
{
    let u = one();
    let half = vstd::arithmetic::power2::pow2(148) as int;
    let m = 2 * k - n + 1;
    close::lemma_one();
    exact::lemma_one_and_half();
    vstd::arithmetic::power2::lemma_pow2_unfold(149);
    exact::lemma_of_int_exact(n);
    exact::lemma_of_int_exact(k);
    exact::lemma_negated(Binary32::one());
    assert(n * u + -u == (n - 1) * u) by (nonlinear_arith);
    exact::lemma_plus_exact(convert::of_int(n), Binary32::one().negated(), n - 1, 149);
    let last = convert::of_int(n).minus(Binary32::one());
    assert(((n - 1) * u) * half == ((n - 1) * half) * u) by (nonlinear_arith);
    exact::lemma_times_exact(last, Binary32::half(), n - 1, 148);
    let c = pixels::middle_of(n);
    exact::lemma_negated(c);
    assert(k * u + -((n - 1) * half) == m * half && 2 * (m * half) == m * u) by (nonlinear_arith)
        requires
            u == 2 * half,
            m == 2 * k - n + 1,
    ;
    exact::lemma_plus_exact(convert::of_int(k), c.negated(), m, 148);
}

/// The point comes to lie where the picture shows its very colour.
pub open spec fn is_shown(
    p: TemplatePoint,
    frame: Colours,
    ax: Binary32,
    ay: Binary32,
    sin: Binary32,
    cos: Binary32,
) -> bool {
    let at = direction::turned_place(p, ax, ay, sin, cos);
    &&& p.weight.is_finite_spec()
    &&& p.red.is_finite_spec()
    &&& p.green.is_finite_spec()
    &&& p.blue.is_finite_spec()
    &&& direction::sampled(frame, at.0, at.1) == Some((p.red, p.green, p.blue))
}

/// Where the picture shows the arrow just as it is turned, there is no error, and all
/// of its weight fits.
pub proof fn an_arrow_that_is_shown_fits_without_error(
    points: Seq<TemplatePoint>,
    frame: Colours,
    ax: Binary32,
    ay: Binary32,
    sin: Binary32,
    cos: Binary32,
    n: int,
)
    requires
        0 <= n <= points.len(),
        forall|i: int|
            0 <= i < points.len() ==> is_shown(#[trigger] points[i], frame, ax, ay, sin, cos),
    ensures
        ({
            let s = direction::sums_of(points, frame, ax, ay, sin, cos, n);
            &&& s.error.magnitude() == 0
            &&& s.matched == s.weight
        }),
    decreases n,
{
    if n > 0 {
        an_arrow_that_is_shown_fits_without_error(points, frame, ax, ay, sin, cos, n - 1);
        let before = direction::sums_of(points, frame, ax, ay, sin, cos, n - 1);
        let p = points[n - 1];
        assert(is_shown(p, frame, ax, ay, sin, cos));
        lemma_no_error(p);
        let err = direction::colour_error(p, (p.red, p.green, p.blue));
        exact::lemma_zero_times(err, p.weight);
        lemma_times_zero(p.weight, err);
        lemma_zero_plus_zero(before.error, p.weight.times(err));
    }
}

/// A number times nothing.
proof fn lemma_times_zero(a: Binary32, zero: Binary32)
    requires
        a.is_finite_spec(),
        zero.magnitude() == 0,
    ensures
        a.times(zero).magnitude() == 0,
{
    reveal(Binary32::times_spec);
    crate::binary32::arith::lemma_zero_magnitude(0);
    crate::binary32::arith::lemma_zero_magnitude(a.magnitude());
    assert(crate::binary32::pattern::units(a.magnitude()) * 0 == 0) by (nonlinear_arith);
    close::lemma_one();
    crate::binary32::pattern::lemma_nearest_exact(0, one());
    assert(crate::binary32::pattern::units(0) * one() == 0) by (nonlinear_arith)
        requires
            crate::binary32::pattern::units(0) == 0,
    ;
}

/// Nothing and nothing.
proof fn lemma_zero_plus_zero(a: Binary32, b: Binary32)
    requires
        a.magnitude() == 0,
        b.magnitude() == 0,
    ensures
        a.plus(b).magnitude() == 0,
        a.plus(b).is_finite_spec(),
{
    crate::binary32::arith::lemma_zero_magnitude(0);
    close::lemma_one();
    exact::lemma_plus_exact(a, b, 0, 149);
    assert(0 * vstd::arithmetic::power2::pow2(149) == 0) by (nonlinear_arith);
    crate::binary32::arith::lemma_zero_magnitude(a.plus(b).magnitude());
}

/// The very colour of a point has no error.
proof fn lemma_no_error(p: TemplatePoint)
    requires
        p.red.is_finite_spec(),
        p.green.is_finite_spec(),
        p.blue.is_finite_spec(),
    ensures
        direction::colour_error(p, (p.red, p.green, p.blue)).magnitude() == 0,
        direction::colour_error(p, (p.red, p.green, p.blue)).le(
            Binary32::of_bits(direction::MATCH_PIXEL_MAX_ERR),
        ),
{
    exact::lemma_difference_of_equals(p.red);
    exact::lemma_difference_of_equals(p.green);
    exact::lemma_difference_of_equals(p.blue);
    let r = p.red.minus(p.red);
    let g = p.green.minus(p.green);
    let b = p.blue.minus(p.blue);
    exact::lemma_zero_times(r, r);
    exact::lemma_zero_times(g, g);
    exact::lemma_zero_times(b, b);
    lemma_zero_plus_zero(r.times(r), g.times(g));
    lemma_zero_plus_zero(r.times(r).plus(g.times(g)), b.times(b));
    exact::lemma_zero_over(
        r.times(r).plus(g.times(g)).plus(b.times(b)),
        Binary32::of_bits(direction::COLOUR_SPAN),
    );
}

} // verus!
