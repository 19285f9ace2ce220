//! What a score says of the picture under a template.

use vstd::arithmetic::power2::*;
use vstd::prelude::*;

use crate::binary32::close;
use crate::binary32::close::{ample, off, one, size, FINE};
use crate::binary32::convert;
use crate::binary32::exact;
use crate::binary32::order;
use crate::binary32::Binary32;
use crate::config::MatchingConfig;
use crate::locator::correlate;
use crate::locator::ring;
use crate::locator::search;
use crate::locator::template;
use crate::locator::template::Ring;
use crate::pixels;

verus! {

/// A score is that of the pixels under the template and of nothing else: where two
/// pictures show the same under it, each at its place, they score the same.
pub proof fn a_score_is_of_the_pixels_under_the_template(
    a: Seq<Binary32>,
    aw: int,
    ax: int,
    ay: int,
    b: Seq<Binary32>,
    bw: int,
    bx: int,
    by: int,
    tmpl: Ring,
)
    requires
        forall|k: int|
            0 <= k < tmpl.pts.len() ==> a[(ay + (#[trigger] tmpl.pts[k]).1) * aw + (ax
                + tmpl.pts[k].0)] == b[(by + tmpl.pts[k].1) * bw + (bx + tmpl.pts[k].0)],
    ensures
        correlate::score(a, aw, tmpl, ax, ay) == correlate::score(b, bw, tmpl, bx, by),
{
    lemma_same_sums(a, aw, ax, ay, b, bw, bx, by, tmpl.pts, tmpl.pts.len() as int);
}

proof fn lemma_same_sums(
    a: Seq<Binary32>,
    aw: int,
    ax: int,
    ay: int,
    b: Seq<Binary32>,
    bw: int,
    bx: int,
    by: int,
    pts: Seq<(u32, u32, Binary32)>,
    k: int,
)
    requires
        0 <= k <= pts.len(),
        forall|k: int|
            0 <= k < pts.len() ==> a[(ay + (#[trigger] pts[k]).1) * aw + (ax + pts[k].0)] == b[(by
                + pts[k].1) * bw + (bx + pts[k].0)],
    ensures
        correlate::sums(a, aw, pts, ay * aw + ax, k) == correlate::sums(b, bw, pts, by * bw + bx, k),
    decreases k,
{
    if k > 0 {
        lemma_same_sums(a, aw, ax, ay, b, bw, bx, by, pts, k - 1);
        let p = pts[k - 1];
        assert((ay + p.1) * aw + (ax + p.0) == (ay * aw + ax) + p.1 * aw + p.0) by (nonlinear_arith);
        assert((by + p.1) * bw + (bx + p.0) == (by * bw + bx) + p.1 * bw + p.0) by (nonlinear_arith);
    }
}

/// The brightness under a point of a template with its upper left corner at `(x, y)`.
pub open spec fn under(data: Seq<u8>, tw: int, p: (u32, u32, Binary32), x: int, y: int) -> int {
    data[(y + p.1) * tw + (x + p.0)] as int
}

/// Over the first `k` points: the sum of the brightness under them, of its square, of
/// its product with the template, and of the size of that product.
pub open spec fn exact_sums(
    data: Seq<u8>,
    tw: int,
    pts: Seq<(u32, u32, Binary32)>,
    x: int,
    y: int,
    k: int,
) -> (int, int, int, int)
    decreases k,
{
    if k <= 0 {
        (0, 0, 0, 0)
    } else {
        let before = exact_sums(data, tw, pts, x, y, k - 1);
        let v = under(data, tw, pts[k - 1], x, y);
        let t = pts[k - 1].2.value();
        (before.0 + v, before.1 + v * v, before.2 + t * v, before.3 + size(t) * v)
    }
}

/// One more number in a sum of numbers that are not negative.
pub proof fn lemma_one_more(a: Binary32, t: int, c: Binary32, k: int)
    requires
        1 <= k <= 0x1_0000,
        a.is_finite_spec(),
        c.is_finite_spec(),
        0 <= t,
        0 <= c.value(),
        0 <= a.value(),
        4 * (t + c.value()) <= ample(),
        off(a.value(), t, 2 * ((k - 1) * t) + 2 * ((k - 1) * FINE)),
    ensures
        a.plus(c).is_finite_spec(),
        a.plus(c).value() >= 0,
        off(
            a.plus(c).value(),
            t + c.value(),
            2 * (k * (t + c.value())) + 2 * (k * FINE),
        ),
{
    let e = FINE as int;
    let s = a.value();
    let v = c.value();
    let x = (k - 1) * t;
    close::lemma_one();
    assert(x <= 0x1_0000 * t && (k - 1) * e <= 0x1_0000 * e && x >= 0) by (nonlinear_arith)
        requires
            x == (k - 1) * t,
            1 <= k <= 0x1_0000,
            t >= 0,
            e > 0,
    ;
    assert(size(s - t) <= t + 0x2_0000);
    close::lemma_sum(a, c);
    exact::lemma_plus_keeps_order(a, c, Binary32::zero());
    order::lemma_order_of_values(Binary32::zero(), a.plus(c));
    assert(k * (t + v) >= x + t + v && k * e == (k - 1) * e + e) by (nonlinear_arith)
        requires
            x == (k - 1) * t,
            k >= 1,
            v >= 0,
            t >= 0,
    ;
}

/// One more product in a sum.
proof fn lemma_one_more_product(a: Binary32, t: int, all: int, c: Binary32, g: int, h: int, k: int)
    requires
        1 <= k <= 0x1_0000,
        a.is_finite_spec(),
        c.is_finite_spec(),
        size(t) <= all,
        size(g) <= h,
        4 * (all + h) <= ample(),
        off(c.value(), g, h + FINE),
        off(a.value(), t, 4 * ((k - 1) * all) + 4 * ((k - 1) * FINE)),
    ensures
        a.plus(c).is_finite_spec(),
        off(a.plus(c).value(), t + g, 4 * (k * (all + h)) + 4 * (k * FINE)),
{
    let e = FINE as int;
    let s = a.value();
    let v = c.value();
    let x = (k - 1) * all;
    close::lemma_one();
    assert(x <= 0x1_0000 * all && (k - 1) * e <= 0x1_0000 * e && x >= 0) by (nonlinear_arith)
        requires
            x == (k - 1) * all,
            1 <= k <= 0x1_0000,
            all >= 0,
            e > 0,
    ;
    assert(64 * size(s - t) <= all + 0x100_0040);
    assert(0x1_0000 * size(v - g) <= h + 0x1_0000_0000);
    assert(size(s + v) <= 2 * all + 2 * h + 0x10_0000);
    close::lemma_sum(a, c);
    assert(k * (all + h) >= x + all + h && k * e == (k - 1) * e + e) by (nonlinear_arith)
        requires
            x == (k - 1) * all,
            k >= 1,
            h >= 0,
            all >= 0,
    ;
}

/// The sums of a template at a place are those of the brightness of the pixels under
/// its points, of its square, and of its product with the template, but for rounding.
pub proof fn the_sums_are_those_under_the_template(
    data: Seq<u8>,
    tw: int,
    pts: Seq<(u32, u32, Binary32)>,
    x: int,
    y: int,
    k: int,
)
    requires
        0 <= k <= pts.len(),
        k <= 0x1_0000,
        forall|i: int|
            0 <= i < pts.len() ==> (#[trigger] pts[i]).2.is_finite_spec() && size(pts[i].2.value())
                <= 256 * one() && 0 <= (y + pts[i].1) * tw + (x + pts[i].0) < data.len(),
    ensures
        ({
            let s = correlate::sums(search::numbers(data), tw, pts, y * tw + x, k);
            let w = exact_sums(data, tw, pts, x, y, k);
            &&& s.0.is_finite_spec()
            &&& s.1.is_finite_spec()
            &&& s.2.is_finite_spec()
            &&& s.0.value() >= 0
            &&& s.1.value() >= 0
            &&& off(s.0.value(), w.0 * one(), 2 * (k * (w.0 * one())) + 2 * (k * FINE))
            &&& off(s.1.value(), w.1 * one(), 2 * (k * (w.1 * one())) + 2 * (k * FINE))
            &&& off(s.2.value(), w.2, 4 * (k * w.3) + 4 * (k * FINE))
            &&& 0 <= w.0 <= 255 * k
            &&& 0 <= w.1 <= 65025 * k
            &&& 0 <= w.3 <= (65280 * k) * one()
            &&& size(w.2) <= w.3
        }),
    decreases k,
{
    let u = one();
    close::lemma_one();
    if k == 0 {
        assert(0 * u == 0 && 0 * FINE == 0 && (65280 * 0) * u == 0) by (nonlinear_arith);
        assert(k * (0 * u) == 0) by (nonlinear_arith)
            requires
                k == 0,
        ;
    } else {
        the_sums_are_those_under_the_template(data, tw, pts, x, y, k - 1);
        let target = search::numbers(data);
        let s = correlate::sums(target, tw, pts, y * tw + x, k - 1);
        let w = exact_sums(data, tw, pts, x, y, k - 1);
        let p = pts[k - 1];
        let b = under(data, tw, p, x, y);
        let at = (y + p.1) * tw + (x + p.0);
        assert(at == (y * tw + x) + p.1 * tw + p.0) by (nonlinear_arith)
            requires
                at == (y + p.1) * tw + (x + p.0),
        ;
        let v = target[at];
        assert(v == convert::of_int(b));
        exact::lemma_of_int_exact(b);
        assert(0 <= b * u && (w.0 + b) * u == w.0 * u + b * u && 0 <= w.0 * u <= (255 * k) * u && b
            * u <= 255 * u && 0 <= b * b <= 65025) by (nonlinear_arith)
            requires
                0 <= b <= 255,
                0 <= w.0 <= 255 * (k - 1),
                u > 0,
        ;
        assert((255 * k) * u <= 0x100_0000 * u && (65025 * k) * u <= 0x1_0000_0000 * u && (65280 * k)
            * u <= 0x1_0000_0000 * u) by (nonlinear_arith)
            requires
                0 <= k <= 0x1_0000,
                u > 0,
        ;
        lemma_one_more(s.0, w.0 * u, v, k);
        // The square.
        let bb = b * b;
        assert((b * u) * (b * u) == (bb * u) * u && 0 <= bb * u && bb * u <= 65025 * u && (w.1 + bb)
            * u == w.1 * u + bb * u && 0 <= w.1 * u <= (65025 * k) * u) by (nonlinear_arith)
            requires
                bb == b * b,
                0 <= bb <= 65025,
                0 <= w.1 <= 65025 * (k - 1),
                u > 0,
        ;
        exact::lemma_times_exact(v, v, bb, 149);
        lemma_one_more(s.1, w.1 * u, v.times(v), k);
        // The product.
        let t = p.2.value();
        let g = t * b;
        let h = size(t) * b;
        close::lemma_size_of_product(t, b);
        close::lemma_size_of_product(t, v.value());
        assert(size(t) * (b * u) == h * u && t * (b * u) == g * u && 0 <= h <= 65280 * u)
            by (nonlinear_arith)
            requires
                h == size(t) * b,
                g == t * b,
                0 <= size(t) <= 256 * u,
                0 <= b <= 255,
                u > 0,
        ;
        assert(size(v.value()) == b * u);
        assert(h * u <= (2 * ample()) * u) by (nonlinear_arith)
            requires
                h <= 65280 * u,
                ample() >= 0x1_0000_0000_0000_0000 * u,
                u > 0,
        ;
        close::lemma_product(p.2, v);
        let c = p.2.times(v);
        assert((h + FINE) * u == h * u + FINE * u) by (nonlinear_arith);
        close::lemma_cancelled(c.value(), g, h + FINE, u);
        assert((65280 * (k - 1)) * u + 65280 * u == (65280 * k) * u) by (nonlinear_arith);
        lemma_one_more_product(s.2, w.2, w.3, c, g, h, k);
    }
}

/// `sp` is the sum of the squares less the square of the sum over the number, but for
/// rounding.
pub open spec fn is_spread(sp: int, s0: int, s1: int, n: int) -> bool {
    off(
        (sp * n) * one(),
        (s1 * n) * one() - s0 * s0,
        (n * size(s1)) * one() + 8 * (s0 * s0) + 8 * (FINE * (n * one())),
    )
}

/// `q` is `s2` over the product of `norm` and the root of `sp`, but for rounding: that
/// root is `root`, and the product is `den`.
pub open spec fn is_quotient(q: int, s2: int, norm: int, sp: int, root: int, den: int) -> bool {
    &&& root > 0
    &&& den > 0
    &&& off(root * root, sp * one(), 4 * (sp * one()) + FINE * one())
    &&& off(den * one(), norm * root, norm * root + FINE * one())
    &&& off(q * den, s2 * one(), size(s2) * one() + FINE * den)
}

/// `q` is the score of a template of `n` points and of length `norm` with the sums
/// `s0`, `s1` and `s2` under it: the lowest where the brightness does not vary.
pub open spec fn is_score_of(
    q: Binary32,
    s0: int,
    s1: int,
    s2: int,
    norm: int,
    n: int,
    sp: int,
    root: int,
    den: int,
) -> bool {
    &&& is_spread(sp, s0, s1, n)
    &&& {
        ||| q == Binary32::of_bits(correlate::LOWEST) && 990 * sp <= one()
        ||| q.is_finite_spec() && 1010 * sp >= one() && is_quotient(
            q.value(),
            s2,
            norm,
            sp,
            root,
            den,
        )
    }
}

/// The spread of the brightness.
#[verifier::spinoff_prover]
#[verifier::rlimit(40)]
proof fn lemma_spread(s0: Binary32, s1: Binary32, n: int)
    requires
        1 <= n <= 0x1_0000,
        s0.is_finite_spec(),
        s1.is_finite_spec(),
        0 <= s0.value() <= 0x1000_0000 * one(),
        0 <= s1.value() <= 0x1000_0000_0000 * one(),
    ensures
        ({
            let sp = s1.minus(s0.times(s0).over(convert::of_int(n)));
            &&& sp.is_finite_spec()
            &&& is_spread(sp.value(), s0.value(), s1.value(), n)
            &&& size(sp.value()) <= 0x400_0000_0000_0000 * one()
        }),
{
    let u = one();
    let e = FINE as int;
    let a = s0.value();
    let b = s1.value();
    let aa = a * a;
    close::lemma_one();
    exact::lemma_of_int_exact(n);
    assert(0 <= aa <= (0x100_0000_0000_0000 * u) * u && (0x100_0000_0000_0000 * u) * u <= (2
        * ample()) * u) by (nonlinear_arith)
        requires
            aa == a * a,
            0 <= a <= 0x1000_0000 * u,
            u > 0,
            ample() >= 0x1_0000_0000_0000_0000 * u,
    ;
    close::lemma_product(s0, s0);
    let sq = s0.times(s0);
    let v = sq.value();
    close::lemma_square(s0);
    assert(v <= 0x101_0000_0000_0000 * u) by (nonlinear_arith)
        requires
            e * (v * u - aa) <= aa + e * u,
            aa <= (0x100_0000_0000_0000 * u) * u,
            e == 0x100_0000,
            u >= 0x1_0000_0000_0000_0000,
    ;
    // Over the number.
    let nu = n * u;
    assert(nu > 0 && v * u <= (2 * ample()) * nu) by (nonlinear_arith)
        requires
            nu == n * u,
            n >= 1,
            0 <= v <= 0x101_0000_0000_0000 * u,
            u > 0,
            ample() >= 0x1_0000_0000_0000_0000 * u,
    ;
    close::lemma_quotient(sq, convert::of_int(n));
    let m = sq.over(convert::of_int(n));
    let c = m.value();
    assert(c * nu == (c * n) * u && v * u + e * nu == (v + e * n) * u) by (nonlinear_arith)
        requires
            nu == n * u,
    ;
    close::lemma_cancelled(c * n, v, v + e * n, u);
    close::lemma_size_of_product(c, n);
    let cs = size(c);
    assert(cs <= cs * n) by (nonlinear_arith)
        requires
            cs >= 0,
            n >= 1,
    ;
    assert(cs * n <= 2 * v + 2 * n);
    assert(cs <= 0x202_0000_0000_0001 * u);
    close::lemma_difference(s1, m);
    let sp = s1.minus(m).value();
    // Together.
    let x = sp - (b - c);
    assert(e * size(x) <= b + cs + e);
    close::lemma_size_of_product(x, nu);
    assert(e * (size(x) * nu) <= (b + cs + e) * nu) by (nonlinear_arith)
        requires
            e * size(x) <= b + cs + e,
            nu > 0,
    ;
    let y = c * n - v;
    close::lemma_size_of_product(y, u);
    assert(e * (size(y) * u) <= (v + e * n) * u) by (nonlinear_arith)
        requires
            e * size(y) <= v + e * n,
            u > 0,
    ;
    let z = v * u - aa;
    assert(x * nu - y * u - z == (sp * n) * u - ((b * n) * u - aa)) by (nonlinear_arith)
        requires
            x == sp - (b - c),
            y == c * n - v,
            z == v * u - aa,
            nu == n * u,
    ;
    assert((b + cs + e) * nu == (n * b) * u + (cs * n) * u + e * nu) by (nonlinear_arith)
        requires
            nu == n * u,
    ;
    assert((cs * n) * u <= (2 * v + 2 * n) * u && (2 * v + 2 * n) * u == 2 * (v * u) + 2 * nu && (v
        + e * n) * u == v * u + e * nu && u <= nu) by (nonlinear_arith)
        requires
            cs * n <= 2 * v + 2 * n,
            nu == n * u,
            n >= 1,
            u > 0,
    ;
    assert(v * u <= 2 * aa + u);
    assert(e * u <= e * nu) by (nonlinear_arith)
        requires
            u <= nu,
            e > 0,
    ;
}

/// The quotient that makes a score.
#[verifier::spinoff_prover]
#[verifier::rlimit(40)]
proof fn lemma_quotient_of(s2: Binary32, norm: Binary32, spread: Binary32)
    requires
        s2.is_finite_spec(),
        norm.is_finite_spec(),
        spread.is_finite_spec(),
        size(s2.value()) <= 0x1000_0000_0000 * one(),
        one() <= 0x4000_0000 * norm.value(),
        norm.value() <= 0x1000_0000 * one(),
        one() <= 1010 * spread.value(),
        spread.value() <= 0x400_0000_0000_0000 * one(),
    ensures
        ({
            let root = spread.sqrt();
            let den = norm.times(root);
            let q = s2.over(den);
            &&& q.is_finite_spec()
            &&& is_quotient(
                q.value(),
                s2.value(),
                norm.value(),
                spread.value(),
                root.value(),
                den.value(),
            )
        }),
{
    let u = one();
    let e = FINE as int;
    let sp = spread.value();
    let nv = norm.value();
    close::lemma_one();
    lemma_ample_is_more();
    close::lemma_root(spread);
    let root = spread.sqrt();
    let r = root.value();
    let rr = r * r;
    let su = sp * u;
    assert(1010 * su >= u * u && su <= 0x400_0000_0000_0000 * (u * u) && e * u <= u * u)
        by (nonlinear_arith)
        requires
            su == sp * u,
            u <= 1010 * sp,
            sp <= 0x400_0000_0000_0000 * u,
            u >= 0x1_0000_0000_0000_0000,
            e == 0x100_0000,
    ;
    assert(2000 * rr >= u * u && rr <= 0x401_0000_0000_0000 * (u * u));
    assert(r * 64 >= u) by (nonlinear_arith)
        requires
            2000 * rr >= u * u,
            rr == r * r,
            r >= 0,
            u > 0,
    ;
    assert(r <= 0x4000_0000 * u) by (nonlinear_arith)
        requires
            rr <= 0x401_0000_0000_0000 * (u * u),
            rr == r * r,
            r >= 0,
            u > 0,
    ;
    let nr = nv * r;
    assert(nr * 0x10_0000_0000 >= u * u && nr <= (0x400_0000_0000_0000 * u) * u && (
    0x400_0000_0000_0000 * u) * u <= (2 * ample()) * u && nr >= 0) by (nonlinear_arith)
        requires
            nr == nv * r,
            u <= 0x4000_0000 * nv,
            nv <= 0x1000_0000 * u,
            u <= 64 * r,
            r <= 0x4000_0000 * u,
            u > 0,
            ample() >= 0x1_0000_0000_0000_0000 * u,
    ;
    close::lemma_product(norm, root);
    let den = norm.times(root);
    let d = den.value();
    assert(e * u * 0x100 <= u * u) by (nonlinear_arith)
        requires
            e == 0x100_0000,
            u >= 0x1_0000_0000_0000_0000,
    ;
    assert(d * 0x20_0000_0000 >= u) by (nonlinear_arith)
        requires
            e * (nr - d * u) <= nr + e * u,
            nr * 0x10_0000_0000 >= u * u,
            e == 0x100_0000,
            u >= 0x1_0000_0000_0000_0000,
    ;
    let s = size(s2.value());
    assert(s * u <= (2 * ample()) * d) by (nonlinear_arith)
        requires
            0 <= s <= 0x1000_0000_0000 * u,
            d * 0x20_0000_0000 >= u,
            u > 0,
            ample() >= 0x1_0000_0000_0000_0000_0000_0000 * u,
    ;
    close::lemma_quotient(s2, den);
}

/// The score of a template at a place of a picture is the sum of the products over the
/// length of the template and the root of the spread of the brightness under it, but
/// for rounding; where the brightness does not vary, it is the lowest.
pub proof fn a_score_is_the_covariance_over_both_spreads(
    data: Seq<u8>,
    tw: int,
    tmpl: Ring,
    x: int,
    y: int,
)
    requires
        1 <= tmpl.pts.len() <= 0x1_0000,
        forall|i: int|
            0 <= i < tmpl.pts.len() ==> (#[trigger] tmpl.pts[i]).2.is_finite_spec() && size(
                tmpl.pts[i].2.value(),
            ) <= 256 * one() && 0 <= (y + tmpl.pts[i].1) * tw + (x + tmpl.pts[i].0) < data.len(),
        tmpl.norm.is_finite_spec(),
        one() <= 0x4000_0000 * tmpl.norm.value(),
        tmpl.norm.value() <= 0x1000_0000 * one(),
    ensures
        ({
            let n = tmpl.pts.len() as int;
            let s = correlate::sums(search::numbers(data), tw, tmpl.pts, y * tw + x, n);
            let q = correlate::score(search::numbers(data), tw, tmpl, x, y);
            exists|sp: int, root: int, den: int| #[trigger]
                is_score_of(
                    q,
                    s.0.value(),
                    s.1.value(),
                    s.2.value(),
                    tmpl.norm.value(),
                    n,
                    sp,
                    root,
                    den,
                )
        }),
{
    let u = one();
    let n = tmpl.pts.len() as int;
    let s = correlate::sums(search::numbers(data), tw, tmpl.pts, y * tw + x, n);
    let w = exact_sums(data, tw, tmpl.pts, x, y, n);
    let q = correlate::score(search::numbers(data), tw, tmpl, x, y);
    close::lemma_one();
    the_sums_are_those_under_the_template(data, tw, tmpl.pts, x, y, n);
    assert(w.0 * u <= 0x100_0000 * u && w.1 * u <= 0x1_0000_0000 * u && w.3 <= 0x1_0000_0000 * u
        && 0 <= w.0 * u && 0 <= w.1 * u) by (nonlinear_arith)
        requires
            0 <= w.0 <= 255 * n,
            0 <= w.1 <= 65025 * n,
            w.3 <= (65280 * n) * u,
            n <= 0x1_0000,
            u > 0,
    ;
    assert(n * (w.0 * u) <= 0x1_0000 * (w.0 * u) && n * (w.1 * u) <= 0x1_0000 * (w.1 * u) && n * w.3
        <= 0x1_0000 * w.3 && n * FINE <= 0x1_0000 * FINE) by (nonlinear_arith)
        requires
            0 <= n <= 0x1_0000,
            0 <= w.0 * u,
            0 <= w.1 * u,
            0 <= w.3,
            FINE > 0,
    ;
    lemma_spread(s.0, s.1, n);
    let spread = s.1.minus(s.0.times(s.0).over(convert::of_int(n)));
    let sp = spread.value();
    let flat = Binary32::of_bits(correlate::FLAT);
    lemma_flat();
    order::lemma_order_of_values(spread, flat);
    if spread.le(flat) {
        assert(is_score_of(
            q,
            s.0.value(),
            s.1.value(),
            s.2.value(),
            tmpl.norm.value(),
            n,
            sp,
            0,
            0,
        ));
    } else {
        lemma_quotient_of(s.2, tmpl.norm, spread);
        let root = spread.sqrt();
        let den = tmpl.norm.times(root);
        assert(is_score_of(
            q,
            s.0.value(),
            s.1.value(),
            s.2.value(),
            tmpl.norm.value(),
            n,
            sp,
            root.value(),
            den.value(),
        ));
    }
}

/// Brightness that varies by less than a thousandth does not vary.
proof fn lemma_flat()
    ensures
        Binary32::of_bits(correlate::FLAT).is_finite_spec(),
        990 * Binary32::of_bits(correlate::FLAT).value() <= one(),
        1010 * Binary32::of_bits(correlate::FLAT).value() >= one(),
{
    let p = pow2(116) as int;
    lemma_pow2_pos(116);
    lemma2_to64();
    lemma_pow2_adds(32, 1);
    lemma_pow2_adds(33, 116);
    assert(one() == 0x2_0000_0000 * p);
    assert(0x3a83_126fint / 0x80_0000 == 117 && 0x3a83_126fint % 0x80_0000 == 0x3_126f);
    assert(Binary32::of_bits(correlate::FLAT).value() == 0x83_126f * p);
}

proof fn lemma_ample_is_more()
    ensures
        ample() >= 0x1_0000_0000_0000_0000_0000_0000 * one(),
{
    lemma2_to64();
    lemma_pow2_adds(149, 64);
    lemma_pow2_adds(213, 32);
    lemma_pow2_adds(245, 5);
    lemma_pow2_pos(149);
    assert(ample() >= 0x1_0000_0000_0000_0000_0000_0000 * one()) by (nonlinear_arith)
        requires
            ample() == pow2(245) * 32,
            pow2(245) == pow2(213) * 0x1_0000_0000,
            pow2(213) == one() * 0x1_0000_0000_0000_0000,
            one() > 0,
    ;
}

/// The sum of the values of points.
pub open spec fn exact_total(pts: Seq<(u32, u32, Binary32)>) -> int
    decreases pts.len(),
{
    if pts.len() == 0 {
        0
    } else {
        exact_total(pts.drop_last()) + pts.last().2.value()
    }
}

/// The sum of the squares of the values of points.
pub open spec fn exact_squares(pts: Seq<(u32, u32, Binary32)>) -> int
    decreases pts.len(),
{
    if pts.len() == 0 {
        0
    } else {
        exact_squares(pts.drop_last()) + pts.last().2.value() * pts.last().2.value()
    }
}

/// All values are finite, not negative and less than 256.
pub open spec fn are_shades(pts: Seq<(u32, u32, Binary32)>) -> bool {
    forall|i: int|
        0 <= i < pts.len() ==> (#[trigger] pts[i]).2.is_finite_spec() && 0 <= pts[i].2.value() <= 256
            * one()
}

proof fn lemma_total(pts: Seq<(u32, u32, Binary32)>)
    requires
        pts.len() <= 0x1_0000,
        are_shades(pts),
    ensures
        ({
            let n = pts.len() as int;
            let w = exact_total(pts);
            let t = template::total(pts);
            &&& t.is_finite_spec()
            &&& t.value() >= 0
            &&& off(t.value(), w, 2 * (n * w) + 2 * (n * FINE))
            &&& 0 <= w <= (256 * n) * one()
        }),
    decreases pts.len(),
{
    let u = one();
    let n = pts.len() as int;
    close::lemma_one();
    if n == 0 {
        assert(n * 0 == 0 && n * FINE == 0 && (256 * n) * u == 0) by (nonlinear_arith)
            requires
                n == 0,
        ;
    } else {
        let before = pts.drop_last();
        assert forall|i: int| 0 <= i < before.len() implies (
        #[trigger] before[i]).2.is_finite_spec() && 0 <= before[i].2.value() <= 256 * u by {
            assert(before[i] == pts[i]);
        }
        lemma_total(before);
        let w = exact_total(before);
        let c = pts[n - 1].2;
        assert((256 * (n - 1)) * u + 256 * u == (256 * n) * u && (256 * n) * u <= 0x100_0000 * u)
            by (nonlinear_arith)
            requires
                n <= 0x1_0000,
                u > 0,
        ;
        lemma_one_more(template::total(before), w, c, n);
    }
}

/// The values of a template are those of its pixels less their mean: the mean is their
/// sum over their number, and each value keeps its place.
pub proof fn the_values_of_a_template_are_less_their_mean(raw: Seq<(u32, u32, Binary32)>)
    requires
        1 <= raw.len() <= 0x1_0000,
        are_shades(raw),
    ensures
        ({
            let n = raw.len() as int;
            let m = template::mean(raw);
            let w = exact_total(raw);
            let pts = template::less(raw, m);
            &&& m.is_finite_spec()
            &&& off(m.value() * n, w, 4 * (n * w) + 8 * (n * FINE))
            &&& pts.len() == raw.len()
            &&& forall|i: int|
                0 <= i < n ==> {
                    &&& (#[trigger] pts[i]).0 == raw[i].0
                    &&& pts[i].1 == raw[i].1
                    &&& pts[i].2.is_finite_spec()
                    &&& off(pts[i].2.value(), raw[i].2.value() - m.value(), 1030 * one())
                }
        }),
{
    let u = one();
    let e = FINE as int;
    let n = raw.len() as int;
    let m = template::mean(raw);
    let w = exact_total(raw);
    let pts = template::less(raw, m);
    let t = template::total(raw);
    close::lemma_one();
    lemma_total(raw);
    exact::lemma_of_int_exact(n);
    let v = t.value();
    let nw = n * w;
    assert((256 * n) * u <= 0x100_0000 * u && nw <= 0x1_0000 * w && w <= nw && n * e <= 0x1_0000 * e
        && e <= n * e) by (nonlinear_arith)
        requires
            nw == n * w,
            1 <= n <= 0x1_0000,
            w >= 0,
            u > 0,
            e > 0,
    ;
    assert(v <= 2 * w + 0x2_0000);
    let nu = n * u;
    assert(nu > 0 && v * u <= (2 * ample()) * nu) by (nonlinear_arith)
        requires
            nu == n * u,
            n >= 1,
            0 <= v <= 0x300_0000 * u,
            u > 0,
            ample() >= 0x1_0000_0000_0000_0000 * u,
    ;
    close::lemma_quotient(t, convert::of_int(n));
    let c = m.value();
    assert(c * nu == (c * n) * u && v * u + e * nu == (v + e * n) * u && e * n == n * e)
        by (nonlinear_arith)
        requires
            nu == n * u,
    ;
    close::lemma_cancelled(c * n, v, v + e * n, u);
    // The mean is less than the largest value, but for rounding.
    assert(64 * v <= 65 * w + 0x100_0000);
    assert(256 * u <= (256 * n) * u) by (nonlinear_arith)
        requires
            n >= 1,
            u > 0,
    ;
    close::lemma_size_of_product(c, n);
    let cs = size(c);
    assert(cs <= 512 * u) by (nonlinear_arith)
        requires
            e * (cs * n) <= e * v + v + e * n,
            0 <= 100 * v <= 110 * ((256 * n) * u),
            e == 0x100_0000,
            n >= 1,
            u >= 0x1_0000_0000_0000_0000,
            cs >= 0,
    ;
    assert forall|i: int| 0 <= i < n implies {
        &&& (#[trigger] pts[i]).0 == raw[i].0
        &&& pts[i].1 == raw[i].1
        &&& pts[i].2.is_finite_spec()
        &&& off(pts[i].2.value(), raw[i].2.value() - m.value(), 1030 * one())
    } by {
        close::lemma_difference_within(raw[i].2, m, 768);
    }
}

/// One more square in a sum.
proof fn lemma_one_more_square(a: Binary32, t: int, c: Binary32, g: int, k: int)
    requires
        1 <= k <= 0x1_0000,
        a.is_finite_spec(),
        c.is_finite_spec(),
        0 <= t,
        0 <= g,
        4 * (t + g) <= ample() * one(),
        off(c.value() * one(), g, g + FINE * one()),
        off(a.value() * one(), t, 4 * ((k - 1) * t) + 4 * ((k - 1) * (FINE * one()))),
    ensures
        a.plus(c).is_finite_spec(),
        off(a.plus(c).value() * one(), t + g, 4 * (k * (t + g)) + 4 * (k * (FINE * one()))),
{
    let u = one();
    let e = FINE as int;
    let s = a.value();
    let v = c.value();
    let x = (k - 1) * t;
    let eu = e * u;
    close::lemma_one();
    assert(x <= 0x1_0000 * t && (k - 1) * eu <= 0x1_0000 * eu && x >= 0 && eu > 0)
        by (nonlinear_arith)
        requires
            x == (k - 1) * t,
            1 <= k <= 0x1_0000,
            t >= 0,
            eu == e * u,
            e == 0x100_0000,
            u > 0,
    ;
    let su = s * u;
    let vu = v * u;
    assert(64 * size(su - t) <= t + 0x100_0040 * u);
    assert(0x1_0000 * size(vu - g) <= g + 0x1_0000_0000 * u);
    assert((s + v) * u == su + vu) by (nonlinear_arith)
        requires
            su == s * u,
            vu == v * u,
    ;
    close::lemma_size_of_product(s + v, u);
    let z = size(s + v);
    assert(z * u <= 2 * t + 2 * g + 0x10_0000 * u);
    assert(z <= 2 * ample()) by (nonlinear_arith)
        requires
            z * u <= 2 * t + 2 * g + 0x10_0000 * u,
            4 * (t + g) <= ample() * u,
            u > 0,
            ample() >= 0x1_0000_0000_0000_0000 * u,
            u >= 0x1_0000_0000_0000_0000,
    ;
    close::lemma_sum(a, c);
    let r = a.plus(c).value();
    close::lemma_scaled(r, s + v, z + e, u);
    assert((z + e) * u == z * u + eu) by (nonlinear_arith)
        requires
            eu == e * u,
    ;
    assert(k * (t + g) >= x + t + g && k * eu == (k - 1) * eu + eu) by (nonlinear_arith)
        requires
            x == (k - 1) * t,
            k >= 1,
            g >= 0,
            t >= 0,
    ;
}

/// The length of a template is the root of the sum of the squares of its values, but
/// for rounding, and at least a millionth.
pub proof fn the_length_of_a_template_is_that_of_its_values(pts: Seq<(u32, u32, Binary32)>)
    requires
        pts.len() <= 0x1_0000,
        forall|i: int|
            0 <= i < pts.len() ==> (#[trigger] pts[i]).2.is_finite_spec() && size(pts[i].2.value())
                <= 1024 * one(),
    ensures
        ({
            let n = pts.len() as int;
            let w = exact_squares(pts);
            let t = template::total_squares(pts);
            let norm = template::length(pts);
            &&& t.is_finite_spec()
            &&& off(t.value() * one(), w, 4 * (n * w) + 4 * (n * (FINE * one())))
            &&& 0 <= w <= (0x10_0000 * n) * (one() * one())
            &&& norm.is_finite_spec()
            &&& 0x10_0000 * norm.value() >= one()
            &&& 900_000 * norm.value() <= one() || off(
                norm.value() * norm.value(),
                t.value() * one(),
                4 * (t.value() * one()) + FINE * one(),
            )
        }),
{
    let u = one();
    let n = pts.len() as int;
    let w = exact_squares(pts);
    let t = template::total_squares(pts);
    close::lemma_one();
    lemma_squares(pts);
    let v = t.value();
    let nw = n * w;
    assert(nw <= 0x1_0000 * w && w <= 0x10_0000_0000 * (u * u) && n * (FINE * u) <= 0x1_0000 * (FINE
        * u)) by (nonlinear_arith)
        requires
            nw == n * w,
            0 <= n <= 0x1_0000,
            0 <= w <= (0x10_0000 * n) * (u * u),
            u > 0,
            FINE > 0,
    ;
    assert(v <= 2 * ample()) by (nonlinear_arith)
        requires
            FINE * (v * u - w) <= 4 * nw + 4 * (n * (FINE * u)),
            nw <= 0x1_0000 * w,
            w <= 0x10_0000_0000 * (u * u),
            n * (FINE * u) <= 0x1_0000 * (FINE * u),
            FINE == 0x100_0000,
            u >= 0x1_0000_0000_0000_0000,
            ample() >= 0x1_0000_0000_0000_0000 * u,
    ;
    let least = Binary32::of_bits(template::NORM_MIN);
    lemma_least_length();
    close::lemma_root(t);
    order::lemma_order_of_values(t.sqrt(), least);
}

/// A millionth.
proof fn lemma_least_length()
    ensures
        Binary32::of_bits(template::NORM_MIN).is_finite_spec(),
        0x10_0000 * Binary32::of_bits(template::NORM_MIN).value() >= one(),
        900_000 * Binary32::of_bits(template::NORM_MIN).value() <= one(),
{
    let p = pow2(106) as int;
    lemma_pow2_pos(106);
    lemma2_to64();
    lemma_pow2_adds(32, 11);
    lemma_pow2_adds(43, 106);
    assert(one() == 0x800_0000_0000 * p);
    assert(0x3586_37bdint / 0x80_0000 == 107 && 0x3586_37bdint % 0x80_0000 == 0x6_37bd);
    assert(Binary32::of_bits(template::NORM_MIN).value() == 0x86_37bd * p);
}

proof fn lemma_squares(pts: Seq<(u32, u32, Binary32)>)
    requires
        pts.len() <= 0x1_0000,
        forall|i: int|
            0 <= i < pts.len() ==> (#[trigger] pts[i]).2.is_finite_spec() && size(pts[i].2.value())
                <= 1024 * one(),
    ensures
        ({
            let n = pts.len() as int;
            let w = exact_squares(pts);
            let t = template::total_squares(pts);
            &&& t.is_finite_spec()
            &&& t.value() >= 0
            &&& off(t.value() * one(), w, 4 * (n * w) + 4 * (n * (FINE * one())))
            &&& 0 <= w <= (0x10_0000 * n) * (one() * one())
        }),
    decreases pts.len(),
{
    let u = one();
    let n = pts.len() as int;
    close::lemma_one();
    if n == 0 {
        assert(n * 0 == 0 && n * (FINE * u) == 0 && (0x10_0000 * n) * (u * u) == 0 && 0 * u == 0)
            by (nonlinear_arith)
            requires
                n == 0,
        ;
    } else {
        let before = pts.drop_last();
        assert forall|i: int| 0 <= i < before.len() implies (
        #[trigger] before[i]).2.is_finite_spec() && size(before[i].2.value()) <= 1024 * u by {
            assert(before[i] == pts[i]);
        }
        lemma_squares(before);
        let w = exact_squares(before);
        let c = pts[n - 1].2;
        let x = c.value();
        let g = x * x;
        close::lemma_size_of_product(x, x);
        assert(0 <= g <= 0x10_0000 * (u * u) && 0x10_0000 * (u * u) <= (2 * ample()) * u)
            by (nonlinear_arith)
            requires
                g == x * x,
                size(x) * size(x) == size(x * x),
                -(1024 * u) <= x <= 1024 * u,
                u > 0,
                ample() >= 0x1_0000_0000_0000_0000 * u,
        ;
        assert(size(g) == g);
        close::lemma_product(c, c);
        close::lemma_square(c);
        assert((0x10_0000 * (n - 1)) * (u * u) + 0x10_0000 * (u * u) == (0x10_0000 * n) * (u * u) && 4
            * ((0x10_0000 * n) * (u * u)) <= ample() * u) by (nonlinear_arith)
            requires
                n <= 0x1_0000,
                u > 0,
                ample() >= 0x1_0000_0000_0000_0000 * u,
        ;
        lemma_one_more_square(template::total_squares(before), w, c.times(c), g, n);
        exact::lemma_plus_keeps_order(
            template::total_squares(before),
            c.times(c),
            Binary32::zero(),
        );
        order::lemma_order_of_values(
            Binary32::zero(),
            template::total_squares(before).plus(c.times(c)),
        );
    }
}

/// The value at a point of a template is the brightness of its pixel less `m`, but
/// for rounding.
pub open spec fn is_less(p: (u32, u32, Binary32), raw: (u32, u32, Binary32), m: int) -> bool {
    &&& p.0 == raw.0
    &&& p.1 == raw.1
    &&& p.2.is_finite_spec()
    &&& off(p.2.value(), raw.2.value() - m, 1030 * one())
}

/// `m` is the mean of the values, but for rounding.
pub open spec fn is_mean_of(m: int, raw: Seq<(u32, u32, Binary32)>) -> bool {
    let n = raw.len() as int;
    off(m * n, exact_total(raw), 4 * (n * exact_total(raw)) + 8 * (n * FINE))
}

/// `norm` is the root of `q`, which is the sum of the squares of the values, but for
/// rounding.
pub open spec fn is_root_of_squares(norm: int, q: int, pts: Seq<(u32, u32, Binary32)>) -> bool {
    let n = pts.len() as int;
    let w = exact_squares(pts);
    &&& off(q * one(), w, 4 * (n * w) + 4 * (n * (FINE * one())))
    &&& off(norm * norm, q * one(), 4 * (q * one()) + FINE * one())
}

/// The template of a minimap is the ring of the minimap's picture at its size, from
/// the share that is left out in the middle to the share that is used: each point has
/// the brightness of its pixel less the mean of the ring, and the template's length is
/// that of these values.
pub proof fn a_template_is_the_ring_of_the_minimap_less_its_mean(
    mm: Seq<u8>,
    mm_w: int,
    mm_h: int,
    diam: int,
    matching: MatchingConfig,
)
    requires
        1 <= diam <= 0x100,
    ensures
        search::template_of(mm, mm_w, mm_h, diam, matching) matches Some(t) ==> {
            let small = pixels::triangle_gray(mm, mm_w, mm_h, diam, diam);
            let raw = template::ring(
                small,
                diam,
                matching.inner_ratio,
                matching.center_exclude_ratio,
                diam * diam,
            );
            &&& t.diam == diam
            &&& t.pts.len() == raw.len()
            &&& are_shades(raw)
            &&& raw.len() >= 1 ==> exists|m: int| #[trigger]
                is_mean_of(m, raw) && (forall|i: int|
                    0 <= i < raw.len() ==> is_less(#[trigger] t.pts[i], raw[i], m))
            &&& t.norm.is_finite_spec()
            &&& 0x10_0000 * t.norm.value() >= one()
            &&& 900_000 * t.norm.value() <= one() || exists|q: int| #[trigger]
                is_root_of_squares(t.norm.value(), q, t.pts)
        },
{
    if let Some(t) = search::template_of(mm, mm_w, mm_h, diam, matching) {
        let small = pixels::triangle_gray(mm, mm_w, mm_h, diam, diam);
        let n = diam * diam;
        let raw = template::ring(
            small,
            diam,
            matching.inner_ratio,
            matching.center_exclude_ratio,
            n,
        );
        close::lemma_one();
        assert(1 <= n <= 0x1_0000) by (nonlinear_arith)
            requires
                n == diam * diam,
                1 <= diam <= 0x100,
        ;
        template::lemma_ring_fits(
            small,
            diam,
            matching.inner_ratio,
            matching.center_exclude_ratio,
            n,
        );
        ring::the_points_of_a_ring_are_its_pixels(
            small,
            diam,
            matching.inner_ratio,
            matching.center_exclude_ratio,
            n,
        );
        assert forall|i: int| 0 <= i < raw.len() implies (#[trigger] raw[i]).2.is_finite_spec() && 0
            <= raw[i].2.value() <= 256 * one() by {
            let p = raw[i];
            let b = small[p.1 * diam + p.0] as int;
            exact::lemma_of_int_exact(b);
            assert(0 <= b * one() <= 256 * one()) by (nonlinear_arith)
                requires
                    0 <= b <= 255,
                    one() > 0,
            ;
        }
        let m = template::mean(raw);
        if raw.len() >= 1 {
            the_values_of_a_template_are_less_their_mean(raw);
            lemma_mean_is_moderate(raw);
            assert(is_mean_of(m.value(), raw));
            assert forall|i: int| 0 <= i < raw.len() implies is_less(
                #[trigger] t.pts[i],
                raw[i],
                m.value(),
            ) by {
                assert(t.pts[i] == template::less(raw, m)[i]);
            }
        }
        assert forall|i: int| 0 <= i < t.pts.len() implies (
        #[trigger] t.pts[i]).2.is_finite_spec() && size(t.pts[i].2.value()) <= 1024 * one() by {
            assert(t.pts[i] == template::less(raw, m)[i]);
            assert(is_less(t.pts[i], raw[i], m.value()));
        }
        the_length_of_a_template_is_that_of_its_values(t.pts);
        let q = template::total_squares(t.pts).value();
        assert(900_000 * t.norm.value() <= one() || is_root_of_squares(t.norm.value(), q, t.pts));
    }
}

/// The mean is not far past the largest value.
proof fn lemma_mean_is_moderate(raw: Seq<(u32, u32, Binary32)>)
    requires
        1 <= raw.len() <= 0x1_0000,
        are_shades(raw),
    ensures
        size(template::mean(raw).value()) <= 512 * one(),
{
    let u = one();
    let e = FINE as int;
    let n = raw.len() as int;
    let m = template::mean(raw).value();
    let w = exact_total(raw);
    close::lemma_one();
    lemma_total(raw);
    the_values_of_a_template_are_less_their_mean(raw);
    close::lemma_size_of_product(m, n);
    let s = size(m);
    assert(n * w <= 0x1_0000 * w && n * e <= 0x1_0000 * e) by (nonlinear_arith)
        requires
            n <= 0x1_0000,
            w >= 0,
            e > 0,
    ;
    assert(64 * (s * n) <= 65 * w + 0x1000_0000);
    assert(s <= 512 * u) by (nonlinear_arith)
        requires
            64 * (s * n) <= 65 * w + 0x1000_0000,
            w <= (256 * n) * u,
            n >= 1,
            u >= 0x1_0000_0000_0000_0000,
            s >= 0,
    ;
}

} // verus!
