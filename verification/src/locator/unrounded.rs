//! The correlation before rounding.

use vstd::prelude::*;

use crate::binary32::Binary32;
use crate::locator::template::Ring;

verus! {

/// The sum of the products of pairs.
pub open spec fn products(p: Seq<(int, int)>) -> int
    decreases p.len(),
{
    if p.len() == 0 {
        0
    } else {
        products(p.drop_last()) + p.last().0 * p.last().1
    }
}

/// Each pair with its first number twice.
pub open spec fn firsts(p: Seq<(int, int)>) -> Seq<(int, int)> {
    Seq::new(p.len(), |i: int| (p[i].0, p[i].0))
}

/// Each pair with its second number twice.
pub open spec fn seconds(p: Seq<(int, int)>) -> Seq<(int, int)> {
    Seq::new(p.len(), |i: int| (p[i].1, p[i].1))
}

/// Each first number with one.
pub open spec fn counted_firsts(p: Seq<(int, int)>) -> Seq<(int, int)> {
    Seq::new(p.len(), |i: int| (p[i].0, 1int))
}

/// Each second number with one.
pub open spec fn counted_seconds(p: Seq<(int, int)>) -> Seq<(int, int)> {
    Seq::new(p.len(), |i: int| (p[i].1, 1int))
}

/// Each pair with `n` times its second number less `s` in place of it.
pub open spec fn centred(p: Seq<(int, int)>, n: int, s: int) -> Seq<(int, int)> {
    Seq::new(p.len(), |i: int| (p[i].0, n * p[i].1 - s))
}

/// A sum of squares is not negative, and the square of a sum of products is at
/// most the product of the sums of squares.
proof fn lemma_products_bounded(p: Seq<(int, int)>)
    ensures
        products(firsts(p)) >= 0,
        products(seconds(p)) >= 0,
        products(p) * products(p) <= products(firsts(p)) * products(seconds(p)),
    decreases p.len(),
{
    if p.len() > 0 {
        let q = p.drop_last();
        lemma_products_bounded(q);
        assert(firsts(p).drop_last() =~= firsts(q));
        assert(seconds(p).drop_last() =~= seconds(q));
        lemma_one_more(
            products(q),
            products(firsts(q)),
            products(seconds(q)),
            p.last().0,
            p.last().1,
        );
    }
}

/// One more product.
proof fn lemma_one_more(s: int, a: int, b: int, x: int, y: int)
    requires
        a >= 0,
        b >= 0,
        s * s <= a * b,
    ensures
        a + x * x >= 0,
        b + y * y >= 0,
        (s + x * y) * (s + x * y) <= (a + x * x) * (b + y * y),
{
    let m = a * (y * y) + b * (x * x);
    let d = 2 * (s * (x * y));
    assert(x * x >= 0 && y * y >= 0) by (nonlinear_arith);
    assert(m >= 0) by (nonlinear_arith)
        requires
            m == a * (y * y) + b * (x * x),
            a >= 0,
            b >= 0,
            x * x >= 0,
            y * y >= 0,
    ;
    let u = a * (y * y);
    let v = b * (x * x);
    assert(m * m >= 4 * (u * v)) by (nonlinear_arith)
        requires
            m == u + v,
    ;
    let xy = (x * y) * (x * y);
    assert(u * v == (a * b) * xy) by (nonlinear_arith)
        requires
            u == a * (y * y),
            v == b * (x * x),
            xy == (x * y) * (x * y),
    ;
    assert(xy >= 0) by (nonlinear_arith)
        requires
            xy == (x * y) * (x * y),
    ;
    assert((a * b) * xy >= (s * s) * xy) by (nonlinear_arith)
        requires
            a * b >= s * s,
            xy >= 0,
    ;
    assert(d * d == 4 * ((s * s) * xy)) by (nonlinear_arith)
        requires
            d == 2 * (s * (x * y)),
            xy == (x * y) * (x * y),
    ;
    assert(m >= d) by (nonlinear_arith)
        requires
            m * m >= d * d,
            m >= 0,
    ;
    assert((s + x * y) * (s + x * y) == s * s + d + xy) by (nonlinear_arith)
        requires
            d == 2 * (s * (x * y)),
            xy == (x * y) * (x * y),
    ;
    assert((a + x * x) * (b + y * y) == a * b + m + xy) by (nonlinear_arith)
        requires
            m == a * (y * y) + b * (x * x),
            xy == (x * y) * (x * y),
    ;
}

/// The sums of what is centred.
proof fn lemma_centred(p: Seq<(int, int)>, n: int, s: int)
    ensures
        products(centred(p, n, s)) == n * products(p) - s * products(counted_firsts(p)),
        products(seconds(centred(p, n, s))) == (n * n) * products(seconds(p)) - (2 * (n * s))
            * products(counted_seconds(p)) + p.len() * (s * s),
        products(firsts(centred(p, n, s))) == products(firsts(p)),
    decreases p.len(),
{
    let c = centred(p, n, s);
    assert(firsts(c) =~= firsts(p));
    if p.len() == 0 {
        assert(n * 0 == 0 && s * 0 == 0 && (n * n) * 0 == 0 && (2 * (n * s)) * 0 == 0 && 0 * (s * s)
            == 0) by (nonlinear_arith);
    } else {
        let q = p.drop_last();
        lemma_centred(q, n, s);
        assert(c.drop_last() =~= centred(q, n, s));
        assert(seconds(c).drop_last() =~= seconds(centred(q, n, s)));
        assert(seconds(p).drop_last() =~= seconds(q));
        assert(counted_firsts(p).drop_last() =~= counted_firsts(q));
        assert(counted_seconds(p).drop_last() =~= counted_seconds(q));
        let x = p.last().0;
        let y = p.last().1;
        assert(x * (n * y - s) == n * (x * y) - s * (x * 1)) by (nonlinear_arith);
        let (a, b) = (products(q), products(counted_firsts(q)));
        assert(n * (a + x * y) == n * a + n * (x * y) && s * (b + x * 1) == s * b + s * (x * 1))
            by (nonlinear_arith);
        let (e, f) = (products(seconds(q)), products(counted_seconds(q)));
        let g = 2 * (n * s);
        assert((n * y - s) * (n * y - s) == (n * n) * (y * y) - g * (y * 1) + s * s)
            by (nonlinear_arith)
            requires
                g == 2 * (n * s),
        ;
        assert((n * n) * (e + y * y) == (n * n) * e + (n * n) * (y * y) && g * (f + y * 1) == g * f
            + g * (y * 1)) by (nonlinear_arith);
        let k = q.len() as int;
        assert((k + 1) * (s * s) == k * (s * s) + s * s) by (nonlinear_arith);
    }
}

/// What a template and the brightness under it are, point by point, in units of
/// the smallest number.
pub open spec fn pairs(target: Seq<Binary32>, tw: int, tmpl: Ring, x: int, y: int) -> Seq<
    (int, int),
> {
    Seq::new(
        tmpl.pts.len(),
        |k: int|
            (
                tmpl.pts[k].2.value(),
                target[y * tw + x + tmpl.pts[k].1 * tw + tmpl.pts[k].0].value(),
            ),
    )
}

/// Before rounding, the score of a template whose values add up to nothing lies
/// between minus one and one: the square of what is divided is at most the
/// square of what it is divided by.
pub proof fn before_rounding_a_score_is_at_most_one(
    target: Seq<Binary32>,
    tw: int,
    tmpl: Ring,
    x: int,
    y: int,
)
    requires
        tmpl.pts.len() > 0,
        products(counted_firsts(pairs(target, tw, tmpl, x, y))) == 0,
    ensures
        ({
            let p = pairs(target, tw, tmpl, x, y);
            let n = p.len() as int;
            let total = products(counted_seconds(p));
            n * (products(p) * products(p)) <= products(firsts(p)) * (n * products(seconds(p))
                - total * total)
        }),
{
    let p = pairs(target, tw, tmpl, x, y);
    let n = p.len() as int;
    let s = products(counted_seconds(p));
    let c = centred(p, n, s);
    lemma_centred(p, n, s);
    lemma_products_bounded(c);
    let t = products(p);
    let a = products(firsts(p));
    let e = products(seconds(p));
    let spread = n * e - s * s;
    assert(s * 0 == 0) by (nonlinear_arith);
    assert((n * n) * e - (2 * (n * s)) * s + n * (s * s) == n * spread) by (nonlinear_arith)
        requires
            spread == n * e - s * s,
    ;
    assert(n * (t * t) <= a * spread) by (nonlinear_arith)
        requires
            (n * t) * (n * t) <= a * (n * spread),
            n > 0,
    ;
}

} // verus!
