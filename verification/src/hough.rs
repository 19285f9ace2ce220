//! Where the circle of the minimap is found.

use vstd::arithmetic::power2::*;
use vstd::prelude::*;

use crate::binary32::close;
use crate::binary32::close::{ample, off, one, size, FINE};
use crate::binary32::convert;
use crate::binary32::exact;
use crate::binary32::order;
use crate::binary32::Binary32;
use crate::circle;
use crate::circle::{Edge, Search};

verus! {

/// `k` is the nearest whole number to `x / d` for values `x` and `d`, but for
/// rounding: `k` times `d` is no more than half of `d` away from `x`.
pub open spec fn is_scaled_back(k: int, x: int, d: int) -> bool {
    FINE * size(2 * (k * d) - 2 * x) <= (FINE + 2) * d + 8 * x + FINE
}

/// A number of the reduced picture, in pixels of the picture itself.
proof fn lemma_scaled_back(x: Binary32, d: Binary32)
    requires
        x.is_finite_spec(),
        d.is_finite_spec(),
        0 <= x.value() <= 0x1000 * one(),
        one() <= 0x100 * d.value(),
        d.value() <= one(),
    ensures
        is_scaled_back(
            x.times(Binary32::one().over(d)).round().to_i32() as int,
            x.value(),
            d.value(),
        ),
{
    let u = one();
    let e = FINE as int;
    let v = x.value();
    let f = d.value();
    close::lemma_one();
    assert(u * u <= (2 * ample()) * f && e * f <= u * u) by (nonlinear_arith)
        requires
            u <= 0x100 * f,
            f <= u,
            u >= 0x1_0000_0000_0000_0000,
            ample() >= 0x1_0000_0000_0000_0000 * u,
            e == 0x100_0000,
    ;
    close::lemma_quotient(Binary32::one(), d);
    let inv = Binary32::one().over(d);
    let i = inv.value();
    // The inverse is at most 2^8, but for rounding.
    let fi = i * f;
    assert(e * size(fi - u * u) <= u * u + e * f);
    assert(size(i) <= 0x101 * u) by {
        close::lemma_size_of_product(i, f);
        let s = size(i);
        assert(s <= 0x101 * u) by (nonlinear_arith)
            requires
                e * (s * f) <= e * (u * u) + u * u + e * f,
                e * f <= u * u,
                u <= 0x100 * f,
                e == 0x100_0000,
                u > 0,
                f > 0,
        ;
    }
    assert(0x1000int * 0x101int == 0x10_1000);
    close::lemma_product_within(x, inv, 0x1000, 0x101);
    let g = x.times(inv);
    let gv = g.value();
    assert(size(gv) <= 0x10_1001 * u);
    let k = close::lemma_nearest_whole(g);
    // In the values: a product has a relative error.
    close::lemma_size_of_product(v, i);
    let si = size(i);
    assert(v * si <= (2 * ample()) * u) by (nonlinear_arith)
        requires
            0 <= v <= 0x1000 * u,
            0 <= si <= 0x101 * u,
            ample() >= 0x1_0000_0000_0000_0000 * u,
            u > 0,
    ;
    close::lemma_product(x, inv);
    // k f is near g f, and g f is near x.
    let a = 2 * (k * u) - 2 * gv;
    assert(-(u * f) <= a * f <= u * f && a * f == (2 * (k * f)) * u - 2 * (gv * f)) by (nonlinear_arith)
        requires
            -u <= a <= u,
            f >= 0,
            a == 2 * (k * u) - 2 * gv,
    ;
    let gf = gv * f;
    let vi = v * i;
    let b = gv * u - vi;
    assert(e * size(b) <= v * si + e * u);
    close::lemma_size_of_product(b, f);
    assert(e * (size(b) * f) <= (v * si + e * u) * f) by (nonlinear_arith)
        requires
            e * size(b) <= v * si + e * u,
            f > 0,
    ;
    assert(b * f == gf * u - v * fi) by (nonlinear_arith)
        requires
            b == gv * u - vi,
            vi == v * i,
            gf == gv * f,
            fi == i * f,
    ;
    close::lemma_size_of_product(i, f);
    assert((v * si + e * u) * f == v * (si * f) + (e * f) * u) by (nonlinear_arith);
    assert(v * (si * f) <= v * (2 * (u * u))) by (nonlinear_arith)
        requires
            v >= 0,
            si * f <= 2 * (u * u),
    ;
    let c = fi - u * u;
    close::lemma_size_of_product(v, c);
    assert(e * (v * size(c)) <= v * (u * u + e * f)) by (nonlinear_arith)
        requires
            e * size(c) <= u * u + e * f,
            v >= 0,
    ;
    assert(v * c == v * fi - (v * u) * u && v * (2 * (u * u)) == 2 * ((v * u) * u) && v * (u * u + e
        * f) == (v * u) * u + v * (e * f) && v * (e * f) <= (v * u) * u) by (nonlinear_arith)
        requires
            c == fi - u * u,
            e * f <= u * u,
            v >= 0,
    ;
    let vu = v * u;
    // gf u is near v u u.
    assert(e * size(gf * u - vu * u) <= 4 * (vu * u) + (e * f) * u);
    assert(4 * (vu * u) + (e * f) * u == (4 * vu + e * f) * u) by (nonlinear_arith);
    close::lemma_cancelled(gf, vu, 4 * vu + e * f, u);
    let kf = k * f;
    assert((2 * kf) * u - 2 * gf == a * f);
    assert(e * (u * f) == (e * f) * u) by (nonlinear_arith);
    assert(e * size((2 * kf) * u - 2 * vu) <= (e * f) * u + 8 * vu + 2 * (e * f));
    assert(2 * (e * f) <= (2 * f + e) * u && ((e + 2) * f + 8 * v + e) * u == (e * f) * u + (2 * f) * u
        + 8 * vu + e * u && (2 * v) * u == 2 * vu && (2 * f + e) * u == (2 * f) * u + e * u)
        by (nonlinear_arith)
        requires
            vu == v * u,
            e == 0x100_0000,
            f >= 0,
            u >= 0x1_0000_0000_0000_0000,
    ;
    close::lemma_cancelled(2 * kf, 2 * v, (e + 2) * f + 8 * v + e, u);
}

/// The place and the radius of a circle in a reduced picture.
pub open spec fn is_peak(
    s: Search,
    gx: Seq<i16>,
    gy: Seq<i16>,
    x: int,
    y: int,
    step: int,
) -> bool {
    let cell = y * s.cols() + (x - s.wx0);
    &&& s.wx0 <= x <= s.wx1
    &&& 0 <= y <= s.wy1
    &&& 0 <= step <= s.r_steps
    &&& circle::tally(s, gx, gy)[cell] > 0
    &&& circle::supports(s, gx, gy, x, y)[step] > 0
    &&& forall|c: int|
        0 <= c < s.cells() ==> #[trigger] circle::tally(s, gx, gy)[c] <= circle::tally(s, gx, gy)[cell]
    &&& forall|k: int|
        0 <= k <= s.r_steps ==> #[trigger] circle::supports(s, gx, gy, x, y)[k] <= circle::supports(
            s,
            gx,
            gy,
            x,
            y,
        )[step]
}

/// A circle that is found has its middle where the most edges vote for it and the
/// radius that the most edges support there, both in pixels of the picture that was
/// not reduced.
pub proof fn a_circle_is_where_the_most_edges_agree(s: Search, gx: Seq<i16>, gy: Seq<i16>)
    requires
        s.wf(),
        s.sw <= 0x1000,
        s.sh <= 0x1000,
        s.d.is_finite_spec(),
        one() <= 0x100 * s.d.value(),
        s.d.value() <= one(),
    ensures
        circle::circle_of(s, gx, gy) matches Some(c) ==> exists|x: int, y: int, step: int|
            {
                &&& #[trigger] is_peak(s, gx, gy, x, y, step)
                &&& is_scaled_back(c.cx as int, x * one(), s.d.value())
                &&& is_scaled_back(c.cy as int, y * one(), s.d.value())
                &&& circle::radius_at(s, step).is_finite_spec() && 0 <= circle::radius_at(
                    s,
                    step,
                ).value() <= 0x1000 * one() ==> is_scaled_back(
                    c.r as int,
                    circle::radius_at(s, step).value(),
                    s.d.value(),
                )
            },
{
    if let Some(c) = circle::circle_of(s, gx, gy) {
        let acc = circle::tally(s, gx, gy);
        let peak = circle::top(acc, acc.len() as int);
        let cols = s.cols();
        let hh = s.wy1 + 1;
        close::lemma_one();
        circle::top_is_the_first_of_the_highest(acc, acc.len() as int);
        assert(0 <= cols * hh) by (nonlinear_arith)
            requires
                cols >= 0,
                hh >= 0,
        ;
        let x = peak.0 % cols + s.wx0;
        let y = peak.0 / cols;
        vstd::arithmetic::div_mod::lemma_fundamental_div_mod(peak.0, cols);
        vstd::arithmetic::div_mod::lemma_mod_bound(peak.0, cols);
        vstd::arithmetic::div_mod::lemma_div_pos_is_pos(peak.0, cols);
        assert(cols * y == y * cols) by (nonlinear_arith);
        assert(y < hh) by (nonlinear_arith)
            requires
                y * cols <= peak.0,
                peak.0 < cols * hh,
                cols > 0,
        ;
        assert(y * cols + (x - s.wx0) == peak.0);
        let hist = circle::supports(s, gx, gy, x, y);
        let best = circle::top(hist, hist.len() as int);
        circle::top_is_the_first_of_the_highest(hist, hist.len() as int);
        exact::lemma_of_int_exact(x);
        exact::lemma_of_int_exact(y);
        assert(0 <= x * one() <= 0x1000 * one() && 0 <= y * one() <= 0x1000 * one())
            by (nonlinear_arith)
            requires
                0 <= x <= 0x1000,
                0 <= y <= 0x1000,
                one() > 0,
        ;
        lemma_scaled_back(convert::of_int(x), s.d);
        lemma_scaled_back(convert::of_int(y), s.d);
        let r = circle::radius_at(s, best.0);
        if r.is_finite_spec() && 0 <= r.value() <= 0x1000 * one() {
            lemma_scaled_back(r, s.d);
        }
        assert(is_peak(s, gx, gy, x, y, best.0));
    }
}

/// The strength of an edge is the length of its gradient, but for rounding.
pub proof fn the_strength_of_an_edge_is_the_length_of_its_gradient(gx: int, gy: int)
    requires
        -0x8000 <= gx <= 0x8000,
        -0x8000 <= gy <= 0x8000,
    ensures
        ({
            let u = one();
            let m = circle::strength(gx, gy);
            let q = (gx * gx + gy * gy) * (u * u);
            &&& m.is_finite_spec()
            &&& m.value() >= 0
            &&& off(m.value() * m.value(), q, 19 * q + 5 * (FINE * u))
            &&& size(gx) * u <= 2 * m.value() + 1
            &&& size(gy) * u <= 2 * m.value() + 1
            &&& m.value() <= 0x2_0000 * u
        }),
{
    let u = one();
    let e = FINE as int;
    close::lemma_one();
    exact::lemma_of_int_exact(gx);
    exact::lemma_of_int_exact(gy);
    let a = convert::of_int(gx);
    let b = convert::of_int(gy);
    let q = (gx * gx + gy * gy) * (u * u);
    assert((gx * u) * (gx * u) + (gy * u) * (gy * u) == q && 0 <= gx * gx <= 0x4000_0000 && 0 <= gy
        * gy <= 0x4000_0000) by (nonlinear_arith)
        requires
            q == (gx * gx + gy * gy) * (u * u),
            -0x8000 <= gx <= 0x8000,
            -0x8000 <= gy <= 0x8000,
    ;
    assert(0 <= q <= 0x8000_0000 * (u * u) && 8 * (0x8000_0000 * (u * u)) <= ample() * u)
        by (nonlinear_arith)
        requires
            q == (gx * gx + gy * gy) * (u * u),
            0 <= gx * gx + gy * gy <= 0x8000_0000,
            u > 0,
            ample() >= 0x1_0000_0000_0000_0000 * u,
    ;
    close::lemma_length(a, b);
    let m = circle::strength(gx, gy).value();
    let x = gx * u;
    let y = gy * u;
    close::lemma_size_of_product(gx, u);
    close::lemma_size_of_product(gy, u);
    let mm = m * m;
    let eu = e * u;
    assert(4 * mm >= 3 * q - eu && mm <= 2 * q + eu);
    assert(eu * 0x100 <= u * u) by (nonlinear_arith)
        requires
            eu == e * u,
            e == 0x100_0000,
            u >= 0x1_0000_0000_0000_0000,
    ;
    assert(m <= 0x2_0000 * u) by (nonlinear_arith)
        requires
            mm == m * m,
            mm <= 2 * q + eu,
            q <= 0x8000_0000 * (u * u),
            eu <= u * u,
            u > 0,
            m >= 0,
    ;
    let sx = size(x);
    let sy = size(y);
    close::lemma_size_of_product(x, x);
    close::lemma_size_of_product(y, y);
    assert(x * x >= 0 && y * y >= 0) by (nonlinear_arith);
    lemma_not_longer(sx, m, q, eu, u, gx);
    lemma_not_longer(sy, m, q, eu, u, gy);
}

proof fn lemma_not_longer(s: int, m: int, q: int, eu: int, u: int, g: int)
    requires
        s == size(g) * u,
        s * s <= q,
        4 * (m * m) >= 3 * q - eu,
        eu * 0x100 <= u * u,
        eu >= 0,
        m >= 0,
        u > 0,
    ensures
        s <= 2 * m + 1,
{
    if g == 0 {
        assert(s == 0) by (nonlinear_arith)
            requires
                s == size(g) * u,
                size(g) == 0,
        ;
    } else {
        assert(s >= u) by (nonlinear_arith)
            requires
                s == size(g) * u,
                size(g) >= 1,
                u > 0,
        ;
        assert(s <= 2 * m) by (nonlinear_arith)
            requires
                s >= u,
                s * s <= q,
                4 * (m * m) >= 3 * q - eu,
                eu * 0x100 <= u * u,
                m >= 0,
                u > 0,
        ;
    }
}

/// Along one axis: `k` is where the circle's middle would be for an edge at `x` with
/// the gradient `g` of a gradient of length `m`, at the radius `r` ahead of it or
/// behind it, to the nearest whole number and but for rounding.
pub open spec fn is_voted(k: int, x: int, g: int, r: int, m: int, ahead: bool) -> bool {
    let way = if ahead {
        r * g
    } else {
        -(r * g)
    };
    FINE * size(2 * ((k - x) * m) - 2 * way) <= (FINE + 33000) * m
}

/// Which way a vote goes.
pub open spec fn side(ahead: bool) -> Binary32 {
    if ahead {
        Binary32::one()
    } else {
        Binary32::one().negated()
    }
}

#[verifier::spinoff_prover]
#[verifier::rlimit(40)]
proof fn lemma_vote_on_axis(x: int, g: int, radius: Binary32, mag: Binary32, ahead: bool)
    requires
        0 <= x <= 0x1000,
        -0x8000 <= g <= 0x8000,
        radius.is_finite_spec(),
        0 <= radius.value() <= 0x400 * one(),
        mag.is_finite_spec(),
        one() <= mag.value(),
        mag.value() <= 0x2_0000 * one(),
        size(g) * one() <= 2 * mag.value() + 1,
    ensures
        is_voted(
            convert::of_int(x).plus(
                side(ahead).times(radius).times(convert::of_int(g).over(mag)),
            ).round().to_i32() as int,
            x,
            g,
            radius.value(),
            mag.value(),
            ahead,
        ),
{
    let u = one();
    let e = FINE as int;
    let m = mag.value();
    let r = radius.value();
    close::lemma_one();
    exact::lemma_of_int_exact(x);
    exact::lemma_of_int_exact(g);
    exact::lemma_negated(Binary32::one());
    let z = if ahead {
        1int
    } else {
        -1int
    };
    let sign = side(ahead);
    assert(z * u == (if ahead { u } else { -u })) by (nonlinear_arith)
        requires
            z == (if ahead { 1int } else { -1int }),
    ;
    assert(sign.value() == z * u);
    assert(1int * 0x400int == 0x400);
    close::lemma_product_within(sign, radius, 1, 0x400);
    let a = sign.times(radius);
    let av = a.value();
    assert((z * u) * r == (z * r) * u && 0x401 * (u * u) == (0x401 * u) * u) by (nonlinear_arith);
    close::lemma_cancelled(av, z * r, 0x401 * u, u);
    // The share of the gradient along the axis.
    let gu = g * u;
    close::lemma_size_of_product(g, u);
    let gs = size(g) * u;
    assert(gs * u <= (2 * ample()) * m) by (nonlinear_arith)
        requires
            0 <= gs <= 2 * m + 1,
            u <= m,
            u > 0,
            ample() >= 0x1_0000_0000_0000_0000 * u,
    ;
    close::lemma_quotient(convert::of_int(g), mag);
    let n = convert::of_int(g).over(mag);
    let nv = n.value();
    let nm = nv * m;
    assert(size(nv) <= 3 * u) by {
        close::lemma_size_of_product(nv, m);
        let s = size(nv);
        close::lemma_size_of_product(gu, u);
        assert(s <= 3 * u) by (nonlinear_arith)
            requires
                e * (s * m) <= e * (gs * u) + gs * u + e * m,
                0 <= gs <= 2 * m + 1,
                u <= m,
                e == 0x100_0000,
                u >= 0x1_0000_0000_0000_0000,
        ;
    }
    assert(0x401int * 3int == 3075);
    close::lemma_product_within(a, n, 0x401, 3);
    let b = a.times(n);
    let bv = b.value();
    assert(size(bv) <= 3076 * u);
    assert(size(x * u) <= 0x1000 * u) by (nonlinear_arith)
        requires
            0 <= x <= 0x1000,
            u > 0,
            x * u >= 0 ==> size(x * u) == x * u,
    ;
    close::lemma_sum_within(convert::of_int(x), b, 7172);
    let c = convert::of_int(x).plus(b);
    let k = close::lemma_nearest_whole(c);
    // From the nearest whole number to the exact place.
    let w = (k - x) * u;
    assert((k - x) * u == k * u - x * u) by (nonlinear_arith);
    let p = 2 * w - 2 * bv;
    assert(e * size(p) <= e * u + 14346 * u);
    close::lemma_size_of_product(p, m);
    let mu = m * u;
    assert(e * (size(p) * m) <= e * mu + 14346 * mu) by (nonlinear_arith)
        requires
            e * size(p) <= e * u + 14346 * u,
            mu == m * u,
            m > 0,
    ;
    let d1 = p * m;
    assert(d1 == (2 * ((k - x) * m)) * u - 2 * (bv * m)) by (nonlinear_arith)
        requires
            d1 == p * m,
            p == 2 * w - 2 * bv,
            w == (k - x) * u,
    ;
    let bm = bv * m;
    // The product.
    let an = av * nv;
    let q = bv * u - an;
    close::lemma_size_of_product(q, m);
    let muu = mu * u;
    assert(e * (size(q) * m) <= 3076 * muu) by (nonlinear_arith)
        requires
            e * size(q) <= 3076 * (u * u),
            muu == mu * u,
            mu == m * u,
            m > 0,
    ;
    assert(q * m == bm * u - av * nm) by (nonlinear_arith)
        requires
            q == bv * u - an,
            an == av * nv,
            bm == bv * m,
            nm == nv * m,
    ;
    // The quotient.
    let guu = gu * u;
    let t = nm - guu;
    close::lemma_size_of_product(av, t);
    close::lemma_size_of_product(gu, u);
    assert(e * size(t) <= gs * u + e * m);
    assert(gs * u + e * m <= 3 * mu) by (nonlinear_arith)
        requires
            gs <= 2 * m + 1,
            mu == m * u,
            e == 0x100_0000,
            m >= u,
            u >= 0x1_0000_0000_0000_0000,
    ;
    assert(e * (size(av) * size(t)) <= 3084 * muu) by (nonlinear_arith)
        requires
            e * size(t) <= 3 * mu,
            0 <= size(av) <= 0x401 * u,
            size(t) >= 0,
            muu == mu * u,
            mu >= 0,
    ;
    // The radius.
    let h = av - z * r;
    close::lemma_size_of_product(h, guu);
    let sg = size(guu);
    let sh = size(h);
    assert(sg <= 3 * mu);
    assert(e * (sh * sg) <= (0x401 * u) * sg) by (nonlinear_arith)
        requires
            e * sh <= 0x401 * u,
            sg >= 0,
    ;
    assert((0x401 * u) * sg <= (0x401 * u) * (3 * mu) && (0x401 * u) * (3 * mu) == 3075 * muu)
        by (nonlinear_arith)
        requires
            sg <= 3 * mu,
            u > 0,
            muu == mu * u,
    ;
    let f = z * (r * g);
    assert(av * t == av * nm - av * guu && h * guu == av * guu - (f * u) * u) by (nonlinear_arith)
        requires
            t == nm - guu,
            h == av - z * r,
            guu == gu * u,
            gu == g * u,
            f == z * (r * g),
    ;
    // Together.
    assert(e * size(bm * u - (f * u) * u) <= 9235 * muu);
    assert(9235 * muu == (9235 * mu) * u) by (nonlinear_arith)
        requires
            muu == mu * u,
    ;
    close::lemma_cancelled(bm, f * u, 9235 * mu, u);
    let km = 2 * ((k - x) * m);
    assert(e * size(km * u - 2 * (f * u)) <= e * mu + 14346 * mu + 2 * (9235 * mu));
    assert((2 * f) * u == 2 * (f * u) && ((e + 33000) * m) * u == e * mu + 33000 * mu) by (nonlinear_arith)
        requires
            mu == m * u,
    ;
    assert(mu >= 0) by (nonlinear_arith)
        requires
            mu == m * u,
            m > 0,
            u > 0,
    ;
    close::lemma_cancelled(km, 2 * f, (e + 33000) * m, u);
    assert(z * (r * g) == (if ahead { r * g } else { -(r * g) })) by (nonlinear_arith)
        requires
            z == (if ahead { 1int } else { -1int }),
    ;
}

/// `cell` is the place `(x, y)` of those that may hold the middle.
pub open spec fn is_cell(s: Search, cell: int, x: int, y: int) -> bool {
    &&& s.wx0 <= x <= s.wx1
    &&& 0 <= y <= s.wy1
    &&& cell == y * s.cols() + (x - s.wx0)
}

/// An edge votes for the place that lies a radius away from it along its gradient, to
/// either side, to the nearest pixel.
pub proof fn an_edge_votes_along_its_gradient(s: Search, e: Edge, radius: Binary32, ahead: bool)
    requires
        0 <= e.x <= 0x1000,
        0 <= e.y <= 0x1000,
        -0x8000 <= e.gx <= 0x8000,
        -0x8000 <= e.gy <= 0x8000,
        radius.is_finite_spec(),
        0 <= radius.value() <= 0x400 * one(),
        circle::strength(e.gx, e.gy).ge(Binary32::one()),
    ensures
        circle::vote_of(s, e, radius, side(ahead)) matches Some(cell) ==> exists|x: int, y: int|
            {
                let m = circle::strength(e.gx, e.gy).value();
                &&& #[trigger] is_cell(s, cell, x, y)
                &&& is_voted(x, e.x, e.gx, radius.value(), m, ahead)
                &&& is_voted(y, e.y, e.gy, radius.value(), m, ahead)
            },
{
    let mag = circle::strength(e.gx, e.gy);
    close::lemma_one();
    the_strength_of_an_edge_is_the_length_of_its_gradient(e.gx, e.gy);
    order::lemma_order_of_values(Binary32::one(), mag);
    lemma_vote_on_axis(e.x, e.gx, radius, mag, ahead);
    lemma_vote_on_axis(e.y, e.gy, radius, mag, ahead);
    if let Some(cell) = circle::vote_of(s, e, radius, side(ahead)) {
        let sign = side(ahead);
        let x = convert::of_int(e.x).plus(
            sign.times(radius).times(convert::of_int(e.gx).over(mag)),
        ).round().to_i32() as int;
        let y = convert::of_int(e.y).plus(
            sign.times(radius).times(convert::of_int(e.gy).over(mag)),
        ).round().to_i32() as int;
        assert(is_cell(s, cell, x, y));
    }
}

/// `k` is the share `num / den` of `n` pixels, to the nearest whole number and but for
/// rounding.
pub open spec fn is_share_of(k: int, n: int, num: int, den: int) -> bool {
    FINE * size(2 * (den * k) - 2 * (num * n)) <= FINE * den + 8 * (num * n) + 8 * den
}

proof fn lemma_share_of(part: Binary32, n: int, num: int, den: int)
    requires
        0 <= n <= 0x10_0000,
        1 <= num <= den <= 1000,
        part.is_finite_spec(),
        0 <= part.value() <= one(),
        off(den * part.value(), num * one(), 2 * (num * one())),
    ensures
        is_share_of(part.times(convert::of_int(n)).round().to_i32() as int, n, num, den),
{
    let u = one();
    let e = FINE as int;
    let p = part.value();
    close::lemma_one();
    exact::lemma_of_int_exact(n);
    let nu = n * u;
    assert(p * nu == (p * n) * u && 0 <= p * nu && p * nu <= (2 * ample()) * u && 0 <= p * n && p * n
        <= 0x10_0000 * u) by (nonlinear_arith)
        requires
            nu == n * u,
            0 <= n <= 0x10_0000,
            0 <= p <= u,
            u > 0,
            ample() >= 0x1_0000_0000_0000_0000 * u,
    ;
    close::lemma_product(part, convert::of_int(n));
    let g = part.times(convert::of_int(n));
    let gv = g.value();
    let pn = p * n;
    assert((pn + e) * u == pn * u + e * u) by (nonlinear_arith);
    close::lemma_cancelled(gv, pn, pn + e, u);
    let k = close::lemma_nearest_whole(g);
    let w = num * n;
    // den p n is near num n u.
    let d = den * p - num * u;
    close::lemma_size_of_product(d, n);
    assert(e * (size(d) * n) <= 2 * (w * u)) by (nonlinear_arith)
        requires
            e * size(d) <= 2 * (num * u),
            w == num * n,
            n >= 0,
    ;
    assert(d * n == den * pn - w * u) by (nonlinear_arith)
        requires
            d == den * p - num * u,
            pn == p * n,
            w == num * n,
    ;
    let a = gv - pn;
    close::lemma_size_of_product(den, a);
    assert(e * (den * size(a)) <= den * pn + den * e) by (nonlinear_arith)
        requires
            e * size(a) <= pn + e,
            den > 0,
    ;
    assert(den * a == den * gv - den * pn) by (nonlinear_arith)
        requires
            a == gv - pn,
    ;
    let b = 2 * (k * u) - 2 * gv;
    close::lemma_size_of_product(den, b);
    assert(den * size(b) <= den * u && den * b == 2 * ((den * k) * u) - 2 * (den * gv))
        by (nonlinear_arith)
        requires
            size(b) <= u,
            den > 0,
            b == 2 * (k * u) - 2 * gv,
    ;
    let dk = den * k;
    assert(w >= 0 && w * u >= 0 && den * pn >= 0) by (nonlinear_arith)
        requires
            w == num * n,
            num > 0,
            n >= 0,
            u > 0,
            den > 0,
            pn >= 0,
    ;
    assert(e * size(2 * (dk * u) - 2 * (w * u)) <= e * (den * u) + 2 * (den * pn) + 2 * (den * e) + 4
        * (w * u));
    assert(den * pn <= 2 * (w * u));
    assert((2 * dk) * u == 2 * (dk * u) && (2 * w) * u == 2 * (w * u) && (e * den + 8 * w + 8 * den)
        * u == e * (den * u) + 8 * (w * u) + 8 * (den * u) && 2 * (den * e) <= 8 * (den * u))
        by (nonlinear_arith)
        requires
            den > 0,
            e == 0x100_0000,
            u >= 0x1_0000_0000_0000_0000,
    ;
    close::lemma_cancelled(2 * dk, 2 * w, e * den + 8 * w + 8 * den, u);
}

/// Where no circle is seen, the minimap is taken to be in the upper right corner: its
/// radius is 43 thousandths of the width, it ends 14 thousandths of the width before
/// the right edge, and it begins 43 thousandths of the height below the upper edge,
/// each to the nearest pixel.
pub proof fn the_usual_circle_has_its_proportions(cw: int, ch: int)
    requires
        0 <= cw <= 0x10_0000,
        0 <= ch <= 0x10_0000,
    ensures
        ({
            let c = circle::usual(cw, ch);
            &&& is_share_of(c.r as int, cw, 43, 1000)
            &&& is_share_of(cw - c.cx - c.r, cw, 14, 1000)
            &&& is_share_of(c.cy - c.r, ch, 43, 1000)
        }),
{
    let u = one();
    let p = pow2(119) as int;
    let q = pow2(121) as int;
    close::lemma_one();
    lemma_pow2_pos(119);
    lemma2_to64();
    lemma_pow2_adds(2, 119);
    lemma_pow2_adds(30, 119);
    assert(u == 0x4000_0000 * p);
    assert(0x3d30_20c5int / 0x80_0000 == 122 && 0x3d30_20c5int % 0x80_0000 == 0x30_20c5);
    assert(0x3c65_6042int / 0x80_0000 == 120 && 0x3c65_6042int % 0x80_0000 == 0x65_6042);
    let r = Binary32::of_bits(circle::R_FRAC_DEFAULT);
    let g = Binary32::of_bits(circle::RIGHT_MARGIN);
    let t = Binary32::of_bits(circle::TOP_MARGIN);
    assert(r.value() == 0xb0_20c5 * q);
    assert(q == 4 * p);
    assert(g.value() == 0xe5_6042 * p);
    lemma_share_of(r, cw, 43, 1000);
    lemma_share_of(g, cw, 14, 1000);
    lemma_share_of(t, ch, 43, 1000);
    circle::the_usual_circle_keeps_within_the_corner(cw, ch);
    lemma_usual(cw, ch);
}

proof fn lemma_usual(cw: int, ch: int)
    requires
        0 <= cw <= 0x10_0000,
        0 <= ch <= 0x10_0000,
        is_share_of(circle::usual(cw, ch).r as int, cw, 43, 1000),
        is_share_of(
            Binary32::of_bits(circle::RIGHT_MARGIN).times(convert::of_int(cw)).round().to_i32() as int,
            cw,
            14,
            1000,
        ),
        is_share_of(
            Binary32::of_bits(circle::TOP_MARGIN).times(convert::of_int(ch)).round().to_i32() as int,
            ch,
            43,
            1000,
        ),
    ensures
        ({
            let c = circle::usual(cw, ch);
            let w = convert::of_int(cw);
            &&& cw - c.cx - c.r == Binary32::of_bits(circle::RIGHT_MARGIN).times(w).round().to_i32()
            &&& c.cy - c.r == Binary32::of_bits(circle::TOP_MARGIN).times(
                convert::of_int(ch),
            ).round().to_i32()
        }),
{
}

/// Four times twenty is where an edge begins to count.
proof fn lemma_least_edge()
    ensures
        Binary32::of_bits(circle::EDGE_MIN).is_finite_spec(),
        Binary32::of_bits(circle::EDGE_MIN).value() == 80 * one(),
{
    lemma2_to64();
    lemma_pow2_adds(17, 132);
    assert(0x42a0_0000int / 0x80_0000 == 133 && 0x42a0_0000int % 0x80_0000 == 0x20_0000);
    assert(Binary32::of_bits(circle::EDGE_MIN).value() == 0xa0_0000 * pow2(132));
}

proof fn lemma_to_u64_exact(a: Binary32, k: int)
    requires
        a.is_finite_spec(),
        0 <= k <= u64::MAX,
        a.value() == k * one(),
    ensures
        a.to_u64() == k,
{
    let u = one();
    close::lemma_one();
    crate::binary32::arith::lemma_zero_magnitude(a.magnitude());
    assert(0 <= k * u) by (nonlinear_arith)
        requires
            k >= 0,
            u > 0,
    ;
    if a.is_negative() {
        assert(k == 0) by (nonlinear_arith)
            requires
                k * u <= 0,
                k >= 0,
                u > 0,
        ;
        vstd::arithmetic::div_mod::lemma_div_of0(u);
    } else {
        vstd::arithmetic::div_mod::lemma_fundamental_div_mod_converse(k * u, u, k, 0);
    }
}

/// `dist` is the distance of two pixels, but for rounding.
pub open spec fn is_distance(dist: int, dx: int, dy: int) -> bool {
    let q = (dx * dx + dy * dy) * (one() * one());
    dist >= 0 && off(dist * dist, q, 19 * q + 5 * (FINE * one()))
}

/// An edge supports the radius that is nearest to its distance from the middle, if the
/// distance is in range and the edge is strong enough.
pub proof fn an_edge_supports_its_distance(s: Search, e: Edge, x: int, y: int)
    requires
        0 <= e.x <= 0x1000,
        0 <= e.y <= 0x1000,
        0 <= x <= 0x1000,
        0 <= y <= 0x1000,
        -0x8000 <= e.gx <= 0x8000,
        -0x8000 <= e.gy <= 0x8000,
        s.r_min.is_finite_spec(),
        s.r_max.is_finite_spec(),
        0 <= s.r_min.value() <= 0x1000 * one(),
    ensures
        circle::step_of(s, e, x, y) matches Some(step) ==> {
            &&& circle::strength(e.gx, e.gy).value() >= 80 * one()
            &&& exists|dist: int|
                {
                    &&& #[trigger] is_distance(dist, e.x - x, e.y - y)
                    &&& s.r_min.value() <= dist <= s.r_max.value()
                    &&& FINE * size(2 * (step * one()) - 2 * (dist - s.r_min.value())) <= (FINE
                        + 0x1_0000) * one()
                }
        },
{
    if let Some(step) = circle::step_of(s, e, x, y) {
        let u = one();
        close::lemma_one();
        lemma_least_edge();
        the_strength_of_an_edge_is_the_length_of_its_gradient(e.gx, e.gy);
        order::lemma_order_of_values(
            circle::strength(e.gx, e.gy),
            Binary32::of_bits(circle::EDGE_MIN),
        );
        let p = e.x - x;
        let q = e.y - y;
        the_strength_of_an_edge_is_the_length_of_its_gradient(p, q);
        let dist = circle::strength(p, q);
        let d = dist.value();
        order::lemma_order_of_values(dist, s.r_min);
        order::lemma_order_of_values(s.r_max, dist);
        assert(d <= 0x2000 * u) by {
            lemma_short(d, p, q);
        }
        close::lemma_difference_within(dist, s.r_min, 0x3000);
        let g = dist.minus(s.r_min);
        exact::lemma_negated(s.r_min);
        exact::lemma_plus_keeps_order(dist, s.r_min.negated(), Binary32::zero());
        order::lemma_order_of_values(Binary32::zero(), g);
        let k = close::lemma_nearest_whole(g);
        assert(k >= 0) by (nonlinear_arith)
            requires
                2 * (k * u) >= 2 * g.value() - u,
                g.value() >= 0,
                u > 0,
        ;
        lemma_to_u64_exact(g.round(), k);
        assert(is_distance(d, p, q));
    }
}

proof fn lemma_short(d: int, p: int, q: int)
    requires
        -0x1000 <= p <= 0x1000,
        -0x1000 <= q <= 0x1000,
        is_distance(d, p, q),
    ensures
        d <= 0x2000 * one(),
{
    let u = one();
    let e = FINE as int;
    let pq = p * p + q * q;
    close::lemma_one();
    assert(0 <= pq <= 0x200_0000) by (nonlinear_arith)
        requires
            pq == p * p + q * q,
            -0x1000 <= p <= 0x1000,
            -0x1000 <= q <= 0x1000,
    ;
    let w = pq * (u * u);
    assert(0 <= w <= 0x200_0000 * (u * u) && e * u <= u * u) by (nonlinear_arith)
        requires
            w == pq * (u * u),
            0 <= pq <= 0x200_0000,
            e == 0x100_0000,
            u >= 0x1_0000_0000_0000_0000,
    ;
    let dd = d * d;
    assert(dd <= 0x300_0000 * (u * u));
    assert(d <= 0x2000 * u) by (nonlinear_arith)
        requires
            dd == d * d,
            dd <= 0x300_0000 * (u * u),
            u > 0,
            d >= 0,
    ;
}

/// The radius tried at a step is so many pixels more than the least, but for rounding.
pub proof fn the_radii_are_a_pixel_apart(s: Search, step: int)
    requires
        0 <= step <= 0x1000,
        s.r_min.is_finite_spec(),
        0 <= s.r_min.value() <= 0x1000 * one(),
    ensures
        circle::radius_at(s, step).is_finite_spec(),
        off(circle::radius_at(s, step).value(), s.r_min.value() + step * one(), 0x2001 * one()),
{
    let u = one();
    close::lemma_one();
    exact::lemma_of_int_exact(step);
    assert(0 <= step * u <= 0x1000 * u) by (nonlinear_arith)
        requires
            0 <= step <= 0x1000,
            u > 0,
    ;
    close::lemma_sum_within(s.r_min, convert::of_int(step), 0x2000);
}

/// `r` is `k` thousandths of `n` pixels, but for rounding.
pub open spec fn is_thousandths(r: int, n: int, k: int) -> bool {
    off(1000 * r, (k * n) * one(), 9_100_000 * one())
}

/// The reduction of a picture to a width of `n` pixels.
pub open spec fn reduces_to(d: Binary32, w: int, n: int) -> bool {
    &&& d.is_finite_spec()
    &&& 0 <= d.value() <= one()
    &&& off(w * d.value(), n * one(), 801 * one())
}

/// A radius as a share of the width, in the reduced picture.
proof fn lemma_radius(frac: Binary32, w: int, d: Binary32, n: int, k: int)
    requires
        0 <= w <= 0x1000,
        0 <= n <= 800,
        0 <= k <= 60,
        reduces_to(d, w, n),
        frac.is_finite_spec(),
        0 <= frac.value() <= one(),
        off(1000 * frac.value(), k * one(), 2 * (k * one())),
    ensures
        ({
            let r = frac.times(convert::of_int(w)).times(d);
            &&& r.is_finite_spec()
            &&& is_thousandths(r.value(), n, k)
            &&& size(r.value()) <= 0x1002 * one()
        }),
{
    let u = one();
    let f = frac.value();
    let dv = d.value();
    close::lemma_one();
    exact::lemma_of_int_exact(w);
    assert(size(w * u) <= 0x1000 * u) by (nonlinear_arith)
        requires
            0 <= w <= 0x1000,
            u > 0,
            w * u >= 0 ==> size(w * u) == w * u,
    ;
    assert(1int * 0x1000int == 0x1000 && 0x1001int * 1int == 0x1001);
    close::lemma_product_within(frac, convert::of_int(w), 1, 0x1000);
    let a = frac.times(convert::of_int(w));
    let av = a.value();
    assert(f * (w * u) == (f * w) * u && 0x1001 * (u * u) == (0x1001 * u) * u) by (nonlinear_arith);
    close::lemma_cancelled(av, f * w, 0x1001 * u, u);
    assert(size(av) <= 0x1001 * u);
    close::lemma_product_within(a, d, 0x1001, 1);
    let b = a.times(d).value();
    close::lemma_off_times(av, f * w, 0x1001 * u, dv, u);
    let wd = w * dv;
    close::lemma_off_times(wd, n * u, 801 * u, f, u);
    assert((f * w) * dv == wd * f && (n * u) * f == (f * n) * u && (0x1001 * u) * u == 0x1001 * (u * u)
        && (801 * u) * u == 801 * (u * u) && 8996 * (u * u) == (8996 * u) * u && u * u >= 0)
        by (nonlinear_arith)
        requires
            wd == w * dv,
    ;
    close::lemma_chained(b * u, av * dv, wd * f, 0x1002 * (u * u), 0x1001 * (u * u));
    close::lemma_chained(b * u, wd * f, (f * n) * u, 0x2003 * (u * u), 801 * (u * u));
    close::lemma_cancelled(b, f * n, 8996 * u, u);
    // The share.
    let ku = k * u;
    close::lemma_off_times(1000 * f, ku, 2 * ku, n, 800);
    assert((1000 * f) * n == 1000 * (f * n) && ku * n == (k * n) * u && 0 <= ku <= 60 * u)
        by (nonlinear_arith)
        requires
            ku == k * u,
            0 <= k <= 60,
            u > 0,
    ;
}

/// A picture is searched at a width of at most 800 pixels: a wider one is reduced to
/// that width and its height with it, and others stay as they are. The radii tried are
/// from 28 to 60 thousandths of that width, but from no less than 4 pixels on and over
/// no less than one.
pub proof fn a_picture_is_searched_at_its_reduced_width(w: int, h: int)
    requires
        0 <= w <= 0x1000,
        0 <= h <= 0x1000,
    ensures
        circle::search_of(w, h) matches Some(s) ==> {
            let n = if w > 800 {
                800
            } else {
                w
            };
            let u = one();
            &&& w >= 64
            &&& h >= 64
            &&& reduces_to(s.d, w, n)
            &&& w <= 800 ==> s.d == Binary32::one()
            &&& s.sw == n
            &&& s.sh == 8 || FINE * size(2 * (s.sh * u) - 2 * (h * s.d.value())) <= (FINE + 0x4000)
                * u
            &&& s.r_min.is_finite_spec()
            &&& s.r_max.is_finite_spec()
            &&& is_thousandths(s.r_min.value(), n, 28) || (s.r_min.value() == 4 * u && FINE * ((28
                * n) * u - 4000 * u) <= 9_100_000 * u)
            &&& is_thousandths(s.r_max.value(), n, 60) || s.r_max == s.r_min.plus(Binary32::one())
            &&& s.r_max.value() >= s.r_min.value()
        },
{
    if let Some(s) = circle::search_of(w, h) {
        let u = one();
        let e = FINE as int;
        let n = if w > 800 {
            800int
        } else {
            w
        };
        close::lemma_one();
        lemma2_to64();
        lemma_pow2_adds(14, 135);
        lemma_pow2_adds(17, 132);
        lemma_pow2_adds(21, 128);
        lemma_pow2_adds(20, 129);
        lemma_pow2_adds(29, 120);
        lemma_pow2_adds(1, 120);
        let p = pow2(120) as int;
        lemma_pow2_pos(120);
        assert(0x4448_0000int / 0x80_0000 == 136 && 0x4448_0000int % 0x80_0000 == 0x48_0000);
        assert(0x4280_0000int / 0x80_0000 == 133 && 0x4280_0000int % 0x80_0000 == 0);
        assert(0x4080_0000int / 0x80_0000 == 129 && 0x4080_0000int % 0x80_0000 == 0);
        assert(0x4100_0000int / 0x80_0000 == 130 && 0x4100_0000int % 0x80_0000 == 0);
        assert(0x3ce5_6042int / 0x80_0000 == 121 && 0x3ce5_6042int % 0x80_0000 == 0x65_6042);
        assert(0x3d75_c28fint / 0x80_0000 == 122 && 0x3d75_c28fint % 0x80_0000 == 0x75_c28f);
        let width = Binary32::of_bits(circle::WORK_WIDTH);
        let side = Binary32::of_bits(circle::LEAST_SIDE);
        let least = Binary32::of_bits(circle::WORK_MIN);
        let four = Binary32::of_bits(circle::RADIUS_MIN);
        let low = Binary32::of_bits(circle::R_FRAC_MIN);
        let high = Binary32::of_bits(circle::R_FRAC_MAX);
        assert(width.value() == 0xc8_0000 * pow2(135));
        assert(side.value() == 0x80_0000 * pow2(132));
        assert(four.value() == 0x80_0000 * pow2(128));
        assert(least.value() == 0x80_0000 * pow2(129));
        assert(low.value() == 0xe5_6042 * p);
        assert(high.value() == 0xf5_c28f * pow2(121));
        exact::lemma_of_int_exact(w);
        exact::lemma_of_int_exact(h);
        let cw = convert::of_int(w);
        let ch = convert::of_int(h);
        order::lemma_order_of_values(width, cw);
        order::lemma_order_of_values(cw, side);
        order::lemma_order_of_values(ch, side);
        assert((w > 800 <==> w * u > 800 * u) && (w >= 64 <==> w * u >= 64 * u) && (h >= 64 <==> h * u
            >= 64 * u) && w * u <= 0x1000 * u && h * u <= 0x1000 * u) by (nonlinear_arith)
            requires
                u > 0,
                w <= 0x1000,
                h <= 0x1000,
        ;
        // The reduction.
        if w > 800 {
            lemma_reduction(width, w);
        } else {
            assert(w * u == n * u);
        }
        assert(reduces_to(s.d, w, n));
        let k = lemma_reduced_size(w, s.d);
        let j = lemma_reduced_size(h, s.d);
        assert(k == n) by {
            assert(e * size(w * s.d.value() - n * u) <= 801 * u);
            assert(2 * (k * u) - 2 * (n * u) <= u + u / 2 && 2 * (n * u) - 2 * (k * u) <= u + u / 2);
            assert(k == n) by (nonlinear_arith)
                requires
                    2 * (k * u) - 2 * (n * u) <= u + u / 2,
                    2 * (n * u) - 2 * (k * u) <= u + u / 2,
                    u > 0,
            ;
        }
        lemma_radius(low, w, s.d, n, 28);
        lemma_radius(high, w, s.d, n, 60);
        let a = low.times(cw).times(s.d);
        let b = high.times(cw).times(s.d);
        order::lemma_order_of_values(a, four);
        close::lemma_sum_within(s.r_min, Binary32::one(), 0x1010);
        let more = s.r_min.plus(Binary32::one());
        order::lemma_order_of_values(b, more);
        exact::lemma_plus_keeps_order(s.r_min, Binary32::one(), s.r_min);
        order::lemma_order_of_values(s.r_min, more);
    }
}

/// The factor of a picture wider than 800 pixels.
proof fn lemma_reduction(width: Binary32, w: int)
    requires
        width.is_finite_spec(),
        width.value() == 800 * one(),
        800 < w <= 0x1000,
    ensures
        reduces_to(width.over(convert::of_int(w)), w, 800),
{
    let u = one();
    let e = FINE as int;
    close::lemma_one();
    exact::lemma_of_int_exact(w);
    let wu = w * u;
    assert(800 * u < wu && wu <= 0x1000 * u && (800 * u) * u <= (2 * ample()) * wu) by (nonlinear_arith)
        requires
            wu == w * u,
            800 < w <= 0x1000,
            u > 0,
            ample() >= 0x1_0000_0000_0000_0000 * u,
    ;
    close::lemma_quotient(width, convert::of_int(w));
    let d = width.over(convert::of_int(w)).value();
    assert(d * wu == (d * w) * u && (800 * u) * u + e * wu == (800 * u + e * w) * u && d * w == w * d)
        by (nonlinear_arith)
        requires
            wu == w * u,
    ;
    close::lemma_cancelled(d * w, 800 * u, 800 * u + e * w, u);
    assert(e * w <= u) by (nonlinear_arith)
        requires
            w <= 0x1000,
            e == 0x100_0000,
            u >= 0x1_0000_0000_0000_0000,
    ;
    assert(0 <= d <= u) by (nonlinear_arith)
        requires
            e * (d * w - 800 * u) <= 801 * u,
            e * (800 * u - d * w) <= 801 * u,
            w > 800,
            u > 0,
            e == 0x100_0000,
    ;
}

/// A side of the reduced picture.
proof fn lemma_reduced_size(n: int, d: Binary32) -> (k: int)
    requires
        64 <= n <= 0x1000,
        d.is_finite_spec(),
        0 <= d.value() <= one(),
    ensures
        ({
            let least = Binary32::of_bits(circle::WORK_MIN);
            let r = convert::of_int(n).times(d).round().max(least).to_u32();
            &&& k >= 0
            &&& r == (if k < 8 { 8int } else { k })
            &&& FINE * size(2 * (k * one()) - 2 * (n * d.value())) <= (FINE + 0x4000) * one()
        }),
{
    let u = one();
    let e = FINE as int;
    let dv = d.value();
    let least = Binary32::of_bits(circle::WORK_MIN);
    close::lemma_one();
    lemma2_to64();
    lemma_pow2_adds(20, 129);
    assert(0x4100_0000int / 0x80_0000 == 130 && 0x4100_0000int % 0x80_0000 == 0);
    assert(least.value() == 0x80_0000 * pow2(129));
    exact::lemma_of_int_exact(n);
    let nu = n * u;
    assert(0 <= nu <= 0x1000 * u && nu * dv == (n * dv) * u && 0 <= n * dv <= 0x1000 * u)
        by (nonlinear_arith)
        requires
            nu == n * u,
            0 <= n <= 0x1000,
            0 <= dv <= u,
            u > 0,
    ;
    assert(0x1000int * 1int == 0x1000);
    close::lemma_product_within(convert::of_int(n), d, 0x1000, 1);
    let g = convert::of_int(n).times(d);
    assert(0x1001 * (u * u) == (0x1001 * u) * u) by (nonlinear_arith);
    close::lemma_cancelled(g.value(), n * dv, 0x1001 * u, u);
    let k = close::lemma_nearest_whole(g);
    assert(k >= 0) by (nonlinear_arith)
        requires
            2 * (k * u) >= 2 * g.value() - u,
            0x100_0000 * g.value() >= -(0x1001 * u),
            u > 0,
    ;
    order::lemma_order_of_values(g.round(), least);
    assert((k < 8 ==> k * u < 8 * u) && (k >= 8 ==> k * u >= 8 * u)) by (nonlinear_arith)
        requires
            u > 0,
    ;
    let j = if k < 8 {
        8int
    } else {
        k
    };
    assert(j * u == (if k < 8 { 8 * u } else { k * u }));
    let x = g.round().max(least);
    assert(x.value() == j * u);
    exact::lemma_to_u32_exact(x, j);
    k
}

} // verus!
