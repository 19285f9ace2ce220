//! Where on the map the highest score of a picture lies.

use vstd::prelude::*;

use crate::binary32::close;
use crate::binary32::close::{ample, off, one, size, FINE};
use crate::binary32::convert;
use crate::binary32::exact;
use crate::binary32::order;
use crate::binary32::Binary32;
use crate::config::MatchingConfig;
use crate::locator::correlate;
use crate::locator::search;
use crate::locator::search::{Hit, Window};
use crate::locator::template::Ring;
use crate::locator::MapLocator;
use crate::pixels::Shades;

verus! {

/// A common factor is left out.
proof fn lemma_cancelled(e: int, a: int, b: int, c: int, u: int)
    by (nonlinear_arith)
    requires
        e * (a * u - b * u) <= c * u,
        u > 0,
    ensures
        e * (a - b) <= c,
{
}

/// Along one axis: the middle of a template of `diam` pixels that starts `d`
/// past pixel `b` of a picture of `tw` pixels is at `h`, where the picture shows the
/// `len` map pixels from `x0` on.
pub open spec fn is_middle(
    h: int,
    x0: int,
    len: int,
    tw: int,
    b: int,
    diam: int,
    d: int,
) -> bool {
    off(
        (2 * tw) * (h - x0),
        ((2 * b + diam - 1) * one() + 2 * d) * len,
        12 * (tw * (len * one())) + 2 * (tw * x0),
    )
}

/// The top of the parabola through three scores, of moderate size, one step
/// apart, is `d` from the middle one: where the slope between its neighbours
/// would come to nothing. It is no farther than one step.
pub open spec fn is_top(d: int, left: Binary32, middle: Binary32, right: Binary32) -> bool {
    let l = left.value();
    let m = middle.value();
    let r = right.value();
    let bend = l - 2 * m + r;
    &&& -one() <= d <= one()
    &&& left.is_finite_spec() && middle.is_finite_spec() && right.is_finite_spec() && size(l) <= 4
        * one() && size(m) <= 4 * one() && size(r) <= 4 * one() ==> {
        ||| off(2 * d * bend, (l - r) * one(), 128 * (one() * one()))
        ||| d == 0 && 0x8_0000 * size(bend) <= one()
        ||| d == one() && (l - r) * bend > 0 && FINE * (2 * size(bend) - size(l - r)) <= 128
            * one()
        ||| d == -one() && (l - r) * bend < 0 && FINE * (2 * size(bend) - size(l - r)) <= 128
            * one()
        ||| size(d) == one() && FINE * size(bend) <= 64 * one()
    }
}

proof fn lemma_two()
    ensures
        Binary32::two().is_finite_spec(),
        Binary32::two().value() == 2 * one(),
{
    vstd::arithmetic::power2::lemma2_to64();
    vstd::arithmetic::power2::lemma_pow2_adds(23, 127);
    vstd::arithmetic::power2::lemma_pow2_unfold(150);
    assert(0x4000_0000int / 0x80_0000 == 128 && 0x4000_0000int % 0x80_0000 == 0);
}

proof fn lemma_tiny()
    ensures
        Binary32::of_bits(correlate::TINY).is_finite_spec(),
        0x10_0000 * Binary32::of_bits(correlate::TINY).value() >= one(),
        900_000 * Binary32::of_bits(correlate::TINY).value() <= one(),
{
    let p = vstd::arithmetic::power2::pow2(106) as int;
    vstd::arithmetic::power2::lemma_pow2_pos(106);
    vstd::arithmetic::power2::lemma2_to64();
    vstd::arithmetic::power2::lemma_pow2_adds(32, 11);
    vstd::arithmetic::power2::lemma_pow2_adds(43, 106);
    assert(one() == 0x800_0000_0000 * p);
    assert(0x3586_37bdint / 0x80_0000 == 107 && 0x3586_37bdint % 0x80_0000 == 0x6_37bd);
    assert(Binary32::of_bits(correlate::TINY).value() == 0x86_37bd * p);
}

/// A product with a power of two.
proof fn lemma_doubled(a: Binary32)
    requires
        a.is_finite_spec(),
        size(a.value()) <= 16 * one(),
    ensures
        Binary32::two().times(a).is_finite_spec(),
        off(Binary32::two().times(a).value(), 2 * a.value(), 2 * size(a.value()) + FINE),
{
    let u = one();
    let e = FINE as int;
    let v = a.value();
    close::lemma_one();
    lemma_two();
    let s = size(v);
    close::lemma_size_of_product(2 * u, v);
    assert((2 * u) * s <= (2 * ample()) * u && (2 * u) * v == (2 * v) * u && (2 * u) * s == (2 * s)
        * u) by (nonlinear_arith)
        requires
            s <= 16 * u,
            16 * u <= ample(),
            u > 0,
    ;
    close::lemma_product(Binary32::two(), a);
    let t = Binary32::two().times(a).value();
    assert((2 * s + e) * u == (2 * s) * u + e * u) by (nonlinear_arith);
    lemma_cancelled(e, t, 2 * v, 2 * s + e, u);
    lemma_cancelled(e, 2 * v, t, 2 * s + e, u);
}

/// A product with a half.
proof fn lemma_half_of(a: Binary32)
    requires
        a.is_finite_spec(),
        size(a.value()) <= 16 * one(),
    ensures
        Binary32::half().times(a).is_finite_spec(),
        off(2 * Binary32::half().times(a).value(), a.value(), size(a.value()) + 2 * FINE),
{
    let u = one();
    let e = FINE as int;
    let v = a.value();
    close::lemma_one();
    exact::lemma_one_and_half();
    vstd::arithmetic::power2::lemma_pow2_unfold(149);
    let h = Binary32::half().value();
    assert(2 * h == u);
    let s = size(v);
    close::lemma_size_of_product(h, v);
    assert(h * s <= (2 * ample()) * u && 2 * (h * v) == v * u && 2 * (h * s) == s * u && h * s >= 0)
        by (nonlinear_arith)
        requires
            0 <= s <= 16 * u,
            2 * h == u,
            16 * u <= ample(),
            u > 0,
    ;
    close::lemma_product(Binary32::half(), a);
    let t = Binary32::half().times(a).value();
    assert((s + 2 * e) * u == s * u + 2 * (e * u) && (2 * t) * u == 2 * (t * u)) by (nonlinear_arith);
    lemma_cancelled(e, 2 * t, v, s + 2 * e, u);
    lemma_cancelled(e, v, 2 * t, s + 2 * e, u);
}

/// The top between three scores.
#[verifier::spinoff_prover]
#[verifier::rlimit(40)]
proof fn lemma_top(left: Binary32, middle: Binary32, right: Binary32)
    requires
        !correlate::parabola_top(left, middle, right).is_nan_spec(),
    ensures
        correlate::parabola_top(left, middle, right).is_finite_spec(),
        is_top(correlate::parabola_top(left, middle, right).value(), left, middle, right),
{
    let u = one();
    let e = FINE as int;
    let l = left.value();
    let m = middle.value();
    let r = right.value();
    let bend = l - 2 * m + r;
    let top = correlate::parabola_top(left, middle, right);
    let d = top.value();
    close::lemma_one();
    exact::lemma_negated(Binary32::one());
    search::lemma_parabola_top(left, middle, right);
    lemma_tiny();
    assert(top.is_finite_spec());
    order::lemma_order_of_values(top, Binary32::one());
    order::lemma_order_of_values(Binary32::one().negated(), top);
    if left.is_finite_spec() && middle.is_finite_spec() && right.is_finite_spec() && size(l) <= 4
        * u && size(m) <= 4 * u && size(r) <= 4 * u {
        lemma_doubled(middle);
        let t = Binary32::two().times(middle);
        assert(e * size(t.value() - 2 * m) <= 9 * u);
        close::lemma_difference(left, t);
        let a = left.minus(t);
        assert(e * size(a.value() - (l - t.value())) <= 14 * u);
        close::lemma_sum(a, right);
        let den = a.plus(right);
        let dv = den.value();
        assert(e * size(dv - (a.value() + r)) <= 19 * u);
        assert(e * size(dv - bend) <= 42 * u);
        close::lemma_difference(left, right);
        let g = left.minus(right);
        assert(e * size(g.value() - (l - r)) <= 9 * u);
        lemma_half_of(g);
        let n = Binary32::half().times(g);
        let nv = n.value();
        assert(e * size(2 * nv - (l - r)) <= 19 * u);
        let tiny = Binary32::of_bits(correlate::TINY);
        assert(den.abs().is_finite_spec() && den.abs().value() == size(dv));
        order::lemma_order_of_values(den.abs(), tiny);
        if den.abs().lt(tiny) {
            assert(d == 0);
            assert(0x8_0000 * size(bend) <= u);
        } else {
            assert(0x10_0000 * size(dv) >= u);
            let ns = size(nv);
            let ds = size(dv);
            assert(ns <= 5 * u && ds <= 18 * u);
            assert(ns * u <= (2 * ample()) * ds) by (nonlinear_arith)
                requires
                    0 <= ns <= 5 * u,
                    0x10_0000 * ds >= u,
                    ample() >= 0x1_0000_0000_0000_0000 * u,
                    u > 0,
            ;
            close::lemma_quotient(n, den);
            let q = n.over(den);
            let qv = q.value();
            order::lemma_order_of_values(q, Binary32::one());
            order::lemma_order_of_values(q, Binary32::one().negated());
            assert(e * ds <= u * u && ns * u <= 5 * (u * u)) by (nonlinear_arith)
                requires
                    ds <= 18 * u,
                    e == 0x100_0000,
                    u >= 0x1_0000_0000_0000_0000,
                    ns <= 5 * u,
                    ns >= 0,
            ;
            assert(e * size(qv * dv - nv * u) <= 6 * (u * u));
            if -u <= qv <= u {
                assert(d == qv);
                lemma_slope(e, u, qv, dv, nv, bend, l - r);
            } else if e * size(bend) > 64 * u {
                lemma_past(e, u, qv, dv, nv, bend, l - r);
            }
        }
    }
}

/// Putting the slope together.
proof fn lemma_slope(e: int, u: int, q: int, dv: int, nv: int, bend: int, g: int)
    requires
        e == 0x100_0000,
        u > 0,
        -u <= q <= u,
        e * size(dv - bend) <= 42 * u,
        e * size(2 * nv - g) <= 19 * u,
        e * size(q * dv - nv * u) <= 6 * (u * u),
    ensures
        e * size(2 * q * bend - g * u) <= 128 * (u * u),
{
    let a = dv - bend;
    let b = 2 * nv - g;
    close::lemma_size_of_product(q, a);
    assert(size(q) * size(a) <= u * size(a)) by (nonlinear_arith)
        requires
            size(q) <= u,
            size(a) >= 0,
    ;
    assert(e * (u * size(a)) <= 42 * (u * u)) by (nonlinear_arith)
        requires
            e * size(a) <= 42 * u,
            u > 0,
    ;
    assert(e * size(q * a) <= 42 * (u * u)) by (nonlinear_arith)
        requires
            size(q * a) <= u * size(a),
            e * (u * size(a)) <= 42 * (u * u),
            e > 0,
    ;
    close::lemma_size_of_product(b, u);
    assert(e * (size(b) * u) <= 19 * (u * u)) by (nonlinear_arith)
        requires
            e * size(b) <= 19 * u,
            u > 0,
    ;
    assert(2 * q * bend == 2 * (q * dv) - 2 * (q * a) && b * u == 2 * (nv * u) - g * u)
        by (nonlinear_arith)
        requires
            a == dv - bend,
            b == 2 * nv - g,
    ;
}

/// A quotient past one.
proof fn lemma_past(e: int, u: int, q: int, dv: int, nv: int, bend: int, g: int)
    requires
        e == 0x100_0000,
        u >= 0x1_0000_0000_0000_0000,
        q > u || q < -u,
        dv != 0,
        e * size(dv - bend) <= 42 * u,
        e * size(2 * nv - g) <= 19 * u,
        e * size(q * dv - nv * u) <= 6 * (u * u),
        e * size(bend) > 64 * u,
    ensures
        e * (2 * size(bend) - size(g)) <= 128 * u,
        q > u ==> g * bend > 0,
        q < -u ==> g * bend < 0,
{
    assert(size(q) * size(dv) >= u * size(dv)) by (nonlinear_arith)
        requires
            size(q) >= u,
            size(dv) >= 0,
    ;
    close::lemma_size_of_product(q, dv);
    close::lemma_size_of_product(nv, u);
    let x = size(dv);
    let y = size(nv);
    assert(e * (x * u) <= e * (y * u) + 6 * (u * u)) by (nonlinear_arith)
        requires
            size(q * dv) >= u * x,
            size(q * dv) <= y * u + size(q * dv - nv * u),
            e * size(q * dv - nv * u) <= 6 * (u * u),
            e == 0x100_0000,
    ;
    assert(e * x <= e * y + 6 * u) by (nonlinear_arith)
        requires
            e * (x * u) <= e * (y * u) + 6 * (u * u),
            u > 0,
    ;
    // The signs.
    assert(e * x >= 22 * u);
    assert(e * y >= 16 * u);
    assert((dv > 0) == (bend > 0) && (nv > 0) == (g > 0));
    assert(bend != 0 && g != 0);
    assert((q > 0) == ((dv > 0) == (nv > 0))) by (nonlinear_arith)
        requires
            e * size(q * dv - nv * u) <= 6 * (u * u),
            e * y >= 16 * u,
            y == size(nv),
            size(nv) == nv || size(nv) == -nv,
            nv >= 0 ==> size(nv) == nv,
            size(q * dv - nv * u) >= q * dv - nv * u,
            size(q * dv - nv * u) >= nv * u - q * dv,
            e == 0x100_0000,
            u > 0,
            q > u || q < -u,
            dv != 0,
    ;
    assert(((g > 0) == (bend > 0)) ==> g * bend > 0) by (nonlinear_arith)
        requires
            g != 0,
            bend != 0,
    ;
    assert(((g > 0) != (bend > 0)) ==> g * bend < 0) by (nonlinear_arith)
        requires
            g != 0,
            bend != 0,
    ;
}

/// The middle of a template, from the start of its picture.
proof fn lemma_middle(b: int, dx: Binary32, diam: int, tw: int)
    requires
        0 <= b,
        3 <= diam,
        b + diam <= tw <= 0x80_0000,
        dx.is_finite_spec(),
        -one() <= dx.value() <= one(),
    ensures
        ({
            let middle = convert::of_int(diam).minus(Binary32::one()).times(Binary32::half());
            let tc = convert::of_int(b).plus(dx).plus(middle);
            &&& tc.is_finite_spec()
            &&& off(
                2 * tc.value(),
                (2 * b + diam - 1) * one() + 2 * dx.value(),
                5 * (tw * one()),
            )
        }),
{
    let u = one();
    let e = FINE as int;
    let half = vstd::arithmetic::power2::pow2(148) as int;
    close::lemma_one();
    exact::lemma_one_and_half();
    vstd::arithmetic::power2::lemma_pow2_unfold(149);
    exact::lemma_of_int_exact(b);
    exact::lemma_of_int_exact(diam);
    exact::lemma_negated(Binary32::one());
    assert(diam * u + -u == (diam - 1) * u) by (nonlinear_arith);
    exact::lemma_plus_exact(convert::of_int(diam), Binary32::one().negated(), diam - 1, 149);
    let last = convert::of_int(diam).minus(Binary32::one());
    assert(((diam - 1) * u) * half == ((diam - 1) * half) * u) by (nonlinear_arith);
    exact::lemma_times_exact(last, Binary32::half(), diam - 1, 148);
    let middle = last.times(Binary32::half());
    let v = dx.value();
    assert(0 <= b * u && b * u + diam * u <= tw * u && 2 * ((diam - 1) * half) == diam * u - u && 3
        * u <= diam * u && tw * u <= ample() && (2 * b + diam - 1) * u == 2 * (b * u) + diam * u - u)
        by (nonlinear_arith)
        requires
            0 <= b,
            3 <= diam,
            b + diam <= tw <= 0x80_0000,
            u == 2 * half,
            u > 0,
            ample() >= 0x1_0000_0000_0000_0000 * u,
    ;
    close::lemma_sum(convert::of_int(b), dx);
    let s = convert::of_int(b).plus(dx);
    close::lemma_sum(s, middle);
}

/// Where a hit lies along one axis.
#[verifier::spinoff_prover]
#[verifier::rlimit(40)]
proof fn lemma_axis(x0: Binary32, len: int, tw: int, b: int, dx: Binary32, diam: int)
    requires
        0 < len <= 0x100_0000,
        x0.is_finite_spec(),
        0 <= x0.value() <= 0x100_0000 * one(),
        0 <= b,
        3 <= diam,
        b + diam <= tw <= 0x80_0000,
        dx.is_finite_spec(),
        dx.le(Binary32::one()),
        dx.ge(Binary32::one().negated()),
        -one() <= dx.value() <= one(),
    ensures
        ({
            let middle = convert::of_int(diam).minus(Binary32::one()).times(Binary32::half());
            let tc = convert::of_int(b).plus(dx).plus(middle);
            let f = convert::of_int(len).over(convert::of_int(tw));
            let x = x0.plus(tc.times(f));
            &&& x.is_finite_spec()
            &&& is_middle(x.value(), x0.value(), len, tw, b, diam, dx.value())
        }),
{
    let u = one();
    let e = FINE as int;
    let middle = convert::of_int(diam).minus(Binary32::one()).times(Binary32::half());
    let tc = convert::of_int(b).plus(dx).plus(middle);
    let f = convert::of_int(len).over(convert::of_int(tw));
    let p = tc.times(f);
    let x = x0.plus(p);
    close::lemma_one();
    search::lemma_middle_of_template(b, dx, diam, tw);
    lemma_middle(b, dx, diam, tw);
    search::lemma_scaled_place(tc, len, tw);
    order::lemma_order_of_values(Binary32::zero(), p);
    order::lemma_order_of_values(Binary32::zero(), tc);
    let t = tc.value();
    let fv = f.value();
    let pv = p.value();
    let xv = x0.value();
    let all = len * u;
    let m = (2 * b + diam - 1) * u + 2 * dx.value();
    assert(all <= 0x100_0000 * u && all >= u && t <= tw * u) by (nonlinear_arith)
        requires
            all == len * u,
            1 <= len <= 0x100_0000,
            t <= (tw - 1) * u,
            u > 0,
    ;
    close::lemma_sum(x0, p);
    let h = x.value();
    // From the picture to the map.
    let tf = t * fv;
    let a1 = pv * u - tf;
    assert(e * size(a1) <= all * u + e * u);
    assert(e * size(tw * a1) <= tw * (all * u + e * u)) by {
        close::lemma_size_of_product(tw, a1);
        assert(e * (tw * size(a1)) <= tw * (all * u + e * u)) by (nonlinear_arith)
            requires
                e * size(a1) <= all * u + e * u,
                tw > 0,
        ;
    }
    let a2 = fv * tw - all;
    assert(e * size(a2) <= all);
    assert(e * size(t * a2) <= (tw * all) * u) by {
        close::lemma_size_of_product(t, a2);
        assert(e * (t * size(a2)) <= (tw * all) * u) by (nonlinear_arith)
            requires
                e * size(a2) <= all,
                0 <= t <= tw * u,
                all >= 0,
                size(a2) >= 0,
                e > 0,
        ;
    }
    assert(tw * a1 + t * a2 == (tw * pv) * u - (t * len) * u) by (nonlinear_arith)
        requires
            a1 == pv * u - tf,
            tf == t * fv,
            a2 == fv * tw - all,
            all == len * u,
    ;
    assert(tw * (all * u + e * u) + (tw * all) * u == (2 * (tw * all) + e * tw) * u)
        by (nonlinear_arith);
    lemma_cancelled(e, tw * pv, t * len, 2 * (tw * all) + e * tw, u);
    lemma_cancelled(e, t * len, tw * pv, 2 * (tw * all) + e * tw, u);
    // The middle of the template.
    let a3 = 2 * t - m;
    assert(e * size(a3) <= 5 * (tw * u));
    assert(e * size(a3 * len) <= 5 * (tw * all)) by {
        close::lemma_size_of_product(a3, len);
        assert(e * (size(a3) * len) <= 5 * (tw * all)) by (nonlinear_arith)
            requires
                e * size(a3) <= 5 * (tw * u),
                all == len * u,
                len > 0,
        ;
    }
    assert(a3 * len == 2 * (t * len) - m * len) by (nonlinear_arith)
        requires
            a3 == 2 * t - m,
    ;
    // The start of the window.
    let a4 = h - (xv + pv);
    assert(e * size(a4) <= xv + all + e);
    assert(e * size(tw * a4) <= tw * xv + tw * all + e * tw) by {
        close::lemma_size_of_product(tw, a4);
        assert(e * (tw * size(a4)) <= tw * xv + tw * all + e * tw) by (nonlinear_arith)
            requires
                e * size(a4) <= xv + all + e,
                tw > 0,
        ;
    }
    assert((2 * tw) * (h - xv) == 2 * (tw * a4) + 2 * (tw * pv)) by (nonlinear_arith)
        requires
            a4 == h - (xv + pv),
    ;
    assert(4 * (e * tw) <= tw * all) by (nonlinear_arith)
        requires
            4 * e <= all,
            tw > 0,
    ;
}

/// The score at a place of a picture, or `own` where the template would not be in
/// the picture there.
pub open spec fn score_or(
    target: Seq<Binary32>,
    tw: int,
    th: int,
    tmpl: Ring,
    x: int,
    y: int,
    own: Binary32,
) -> Binary32 {
    if 0 <= x && 0 <= y && x + tmpl.diam <= tw && y + tmpl.diam <= th {
        correlate::score(target, tw, tmpl, x, y)
    } else {
        own
    }
}

/// A hit has the score of the place `(b, c)` of its picture. It is at the middle
/// of the template there, moved by the top of the parabola along each axis.
pub open spec fn is_at_peak(
    h: Hit,
    win: Window,
    target: Seq<Binary32>,
    tmpl: Ring,
    b: int,
    c: int,
    dx: int,
    dy: int,
) -> bool {
    let tw = win.tw as int;
    let th = win.th as int;
    let diam = tmpl.diam;
    &&& 0 <= b && b + diam <= tw
    &&& 0 <= c && c + diam <= th
    &&& h.score == correlate::score(target, tw, tmpl, b, c)
    &&& tw <= 0x80_0000 && !h.x.is_nan_spec() ==> {
        &&& h.x.is_finite_spec()
        &&& is_middle(h.x.value(), win.x0.value(), win.crop_w as int, tw, b, diam, dx)
        &&& is_top(
            dx,
            score_or(target, tw, th, tmpl, b - 1, c, h.score),
            h.score,
            score_or(target, tw, th, tmpl, b + 1, c, h.score),
        )
    }
    &&& th <= 0x80_0000 && !h.y.is_nan_spec() ==> {
        &&& h.y.is_finite_spec()
        &&& is_middle(h.y.value(), win.y0.value(), win.crop_h as int, th, c, diam, dy)
        &&& is_top(
            dy,
            score_or(target, tw, th, tmpl, b, c - 1, h.score),
            h.score,
            score_or(target, tw, th, tmpl, b, c + 1, h.score),
        )
    }
}

/// A hit is at a place of its window with the highest score: no place of the
/// window scores higher. Along each axis it is at the middle of the template, which
/// is past the whole pixel by the top of the parabola through the scores one pixel
/// to either side.
pub proof fn a_hit_is_where_the_score_is_highest(
    map: Seq<u8>,
    map_w: int,
    map_h: int,
    mm: Seq<u8>,
    mm_w: int,
    mm_h: int,
    matching: MatchingConfig,
    scale: Binary32,
    cx: Binary32,
    cy: Binary32,
    search: Binary32,
    diam: int,
)
    requires
        0 <= map_w <= 0x100_0000,
        0 <= map_h <= 0x100_0000,
        0 <= diam <= u32::MAX,
        convert::of_int(mm_w).times(scale).gt(Binary32::zero()),
    ensures
        search::hit_of(
            map,
            map_w,
            map_h,
            mm,
            mm_w,
            mm_h,
            matching,
            scale,
            cx,
            cy,
            search,
            diam,
        ) matches Some(h) ==> {
            let win = search::window_of(map_w, map_h, mm_w, scale, cx, cy, search, diam)->Some_0;
            let target = search::target_of(map, map_w, map_h, win)->Some_0;
            let tmpl = search::template_of(mm, mm_w, mm_h, diam, matching)->Some_0;
            let tw = win.tw as int;
            let th = win.th as int;
            &&& search::window_of(map_w, map_h, mm_w, scale, cx, cy, search, diam) is Some
            &&& search::target_of(map, map_w, map_h, win) is Some
            &&& search::template_of(mm, mm_w, mm_h, diam, matching) is Some
            &&& forall|x: int, y: int|
                0 <= x && 0 <= y && x + diam <= tw && y + diam <= th
                    ==> !#[trigger] correlate::score(target, tw, tmpl, x, y).gt(h.score)
            &&& exists|b: int, c: int, dx: int, dy: int| #[trigger]
                is_at_peak(h, win, target, tmpl, b, c, dx, dy)
        },
{
    let found = search::hit_of(
        map,
        map_w,
        map_h,
        mm,
        mm_w,
        mm_h,
        matching,
        scale,
        cx,
        cy,
        search,
        diam,
    );
    if found is Some {
        let h = found->Some_0;
        let win = search::window_of(map_w, map_h, mm_w, scale, cx, cy, search, diam)->Some_0;
        let target = search::target_of(map, map_w, map_h, win)->Some_0;
        let tmpl = search::template_of(mm, mm_w, mm_h, diam, matching)->Some_0;
        let peak = correlate::best_place(target, win.tw as int, win.th as int, tmpl)->Some_0;
        let w_diam = convert::of_int(mm_w).times(scale);
        let reach = w_diam.times(Binary32::half());
        let b = peak.1 as int;
        let c = peak.2 as int;
        search::a_window_lies_on_the_map(map_w, map_h, mm_w, scale, cx, cy, search, diam);
        search::lemma_on_axis(cx.minus(search).minus(reach), cx.plus(search).plus(reach), map_w);
        search::lemma_on_axis(cy.minus(search).minus(reach), cy.plus(search).plus(reach), map_h);
        lemma_not_empty(win.crop_w as int, w_diam);
        lemma_not_empty(win.crop_h as int, w_diam);
        correlate::lemma_best_place_fits(target, win.tw, win.th, tmpl);
        search::lemma_template_is_wide(mm, mm_w, mm_h, diam, matching);
        correlate::best_place_is_the_first_of_the_highest(
            target,
            win.tw,
            win.th,
            tmpl,
            peak.1,
            peak.2,
        );
        assert forall|x: int, y: int|
            0 <= x && 0 <= y && x + diam <= win.tw && y + diam
                <= win.th implies !#[trigger] correlate::score(
            target,
            win.tw as int,
            tmpl,
            x,
            y,
        ).gt(h.score) by {
            correlate::best_place_is_the_first_of_the_highest(
                target,
                win.tw,
                win.th,
                tmpl,
                x as u32,
                y as u32,
            );
        }
        let left = search::neighbour(target, win, tmpl, peak, -1, 0);
        let right = search::neighbour(target, win, tmpl, peak, 1, 0);
        let above = search::neighbour(target, win, tmpl, peak, 0, -1);
        let below = search::neighbour(target, win, tmpl, peak, 0, 1);
        let dx = correlate::parabola_top(left, peak.0, right);
        let dy = correlate::parabola_top(above, peak.0, below);
        lemma_hit_on_axis(
            win.x0,
            win.crop_w as int,
            win.tw as int,
            b,
            diam,
            left,
            peak.0,
            right,
            h.x,
        );
        lemma_hit_on_axis(
            win.y0,
            win.crop_h as int,
            win.th as int,
            c,
            diam,
            above,
            peak.0,
            below,
            h.y,
        );
        assert(is_at_peak(h, win, target, tmpl, b, c, dx.value(), dy.value()));
    }
}

/// A window that holds the template is not empty.
proof fn lemma_not_empty(len: int, w_diam: Binary32)
    requires
        0 <= len <= u32::MAX,
        w_diam.gt(Binary32::zero()),
        !convert::of_int(len).lt(w_diam),
    ensures
        len > 0,
{
    if len == 0 {
        exact::lemma_of_int_exact(0);
        exact::lemma_of_u32(0);
        order::lemma_order_of_values(convert::of_int(0), Binary32::zero());
        assert(0 * vstd::arithmetic::power2::pow2(149) == 0) by (nonlinear_arith);
        close::lemma_one();
    }
}

/// Where a hit lies along one axis, and how far past its pixel.
proof fn lemma_hit_on_axis(
    x0: Binary32,
    len: int,
    tw: int,
    b: int,
    diam: int,
    left: Binary32,
    middle: Binary32,
    right: Binary32,
    x: Binary32,
)
    requires
        0 < len,
        x0.is_finite_spec(),
        x0.value() == x0.to_u32() * one(),
        x0.to_u32() + len <= 0x100_0000,
        0 <= b,
        3 <= diam,
        b + diam <= tw,
        ({
            let half = convert::of_int(diam).minus(Binary32::one()).times(Binary32::half());
            let tc = convert::of_int(b).plus(correlate::parabola_top(left, middle, right)).plus(half);
            let f = convert::of_int(len).over(convert::of_int(tw));
            x == x0.plus(tc.times(f))
        }),
    ensures
        tw <= 0x80_0000 && !x.is_nan_spec() ==> {
            let dx = correlate::parabola_top(left, middle, right).value();
            &&& x.is_finite_spec()
            &&& is_middle(x.value(), x0.value(), len, tw, b, diam, dx)
            &&& is_top(dx, left, middle, right)
        },
{
    let dx = correlate::parabola_top(left, middle, right);
    if tw <= 0x80_0000 && !x.is_nan_spec() {
        if dx.is_nan_spec() {
            reveal(Binary32::plus_spec);
            reveal(Binary32::times_spec);
        } else {
            lemma_top(left, middle, right);
            search::lemma_parabola_top(left, middle, right);
            close::lemma_one();
            assert(0 <= x0.value() <= 0x100_0000 * one()) by (nonlinear_arith)
                requires
                    x0.value() == x0.to_u32() * one(),
                    x0.to_u32() <= 0x100_0000,
                    one() > 0,
            ;
            lemma_axis(x0, len, tw, b, dx, diam);
        }
    }
}

/// Along one axis: the middle of a template of `diam` pixels at pixel `b` of the
/// reduced map, of `small` pixels, is at `x` on the map, of `large` pixels.
pub open spec fn is_reduced_middle(x: int, large: int, small: int, b: int, diam: int) -> bool {
    off(
        (2 * small) * x,
        ((2 * b + diam - 1) * large) * one(),
        8 * (((2 * b + diam - 1) * large) * one()) + 8 * (FINE * small),
    )
}

/// A place of the reduced map, on the map.
#[verifier::spinoff_prover]
#[verifier::rlimit(40)]
proof fn lemma_reduced_middle(b: int, diam: int, large: int, small: int)
    requires
        0 <= b,
        1 <= diam,
        b + diam <= small <= 0x80_0000,
        1 <= large <= 0x100_0000,
    ensures
        ({
            let middle = convert::of_int(diam).minus(Binary32::one()).times(Binary32::half());
            let f = convert::of_int(large).over(convert::of_int(small));
            let x = convert::of_int(b).plus(middle).times(f);
            &&& x.is_finite_spec()
            &&& is_reduced_middle(x.value(), large, small, b, diam)
        }),
{
    let u = one();
    let e = FINE as int;
    let half = vstd::arithmetic::power2::pow2(148) as int;
    let m = 2 * b + diam - 1;
    close::lemma_one();
    exact::lemma_one_and_half();
    vstd::arithmetic::power2::lemma_pow2_unfold(149);
    exact::lemma_of_int_exact(b);
    exact::lemma_of_int_exact(diam);
    exact::lemma_of_int_exact(large);
    exact::lemma_of_int_exact(small);
    exact::lemma_negated(Binary32::one());
    assert(diam * u + -u == (diam - 1) * u) by (nonlinear_arith);
    exact::lemma_plus_exact(convert::of_int(diam), Binary32::one().negated(), diam - 1, 149);
    let last = convert::of_int(diam).minus(Binary32::one());
    assert(((diam - 1) * u) * half == ((diam - 1) * half) * u) by (nonlinear_arith);
    exact::lemma_times_exact(last, Binary32::half(), diam - 1, 148);
    let middle = last.times(Binary32::half());
    assert(b * u + (diam - 1) * half == m * half) by (nonlinear_arith)
        requires
            u == 2 * half,
            m == 2 * b + diam - 1,
    ;
    exact::lemma_plus_exact(convert::of_int(b), middle, m, 148);
    let tc = convert::of_int(b).plus(middle);
    let t = tc.value();
    assert(2 * t == m * u) by (nonlinear_arith)
        requires
            t == m * half,
            u == 2 * half,
    ;
    // The factor.
    let lv = large * u;
    let sv = small * u;
    assert(u <= lv <= 0x100_0000 * u && 0 < sv && lv * u <= (2 * ample()) * sv) by (nonlinear_arith)
        requires
            lv == large * u,
            sv == small * u,
            1 <= large <= 0x100_0000,
            1 <= small,
            u > 0,
            ample() >= 0x1_0000_0000_0000_0000 * u,
    ;
    close::lemma_quotient(convert::of_int(large), convert::of_int(small));
    let f = convert::of_int(large).over(convert::of_int(small));
    let fv = f.value();
    assert(fv * sv == (fv * small) * u && e * sv == (e * small) * u && lv * u + e * sv == (lv + e
        * small) * u) by (nonlinear_arith)
        requires
            sv == small * u,
    ;
    lemma_cancelled(e, fv * small, lv, lv + e * small, u);
    lemma_cancelled(e, lv, fv * small, lv + e * small, u);
    assert(fv <= 0x200_0000 * u && fv >= -u) by (nonlinear_arith)
        requires
            e * (fv * small - lv) <= lv + e * small,
            e * (lv - fv * small) <= lv + e * small,
            lv <= 0x100_0000 * u,
            lv > 0,
            small >= 1,
            e == 0x100_0000,
            u >= 0x1_0000_0000_0000_0000,
    ;
    // The place.
    let fs = size(fv);
    assert(0 <= m <= 0x100_0000);
    close::lemma_size_of_product(t, fv);
    assert(t >= 0 && 2 * (t * fs) == (m * fs) * u && 2 * (t * fv) == (m * fv) * u && m * fs >= 0
        && t * fs <= (2 * ample()) * u) by (nonlinear_arith)
        requires
            2 * t == m * u,
            0 <= m <= 0x100_0000,
            0 <= fs <= 0x200_0000 * u,
            u > 0,
            ample() >= 0x1_0000_0000_0000_0000 * u,
    ;
    close::lemma_product(tc, f);
    let x = tc.times(f).value();
    assert((2 * x) * u == 2 * (x * u) && (m * fs + 2 * e) * u == (m * fs) * u + 2 * (e * u))
        by (nonlinear_arith);
    lemma_cancelled(e, 2 * x, m * fv, m * fs + 2 * e, u);
    lemma_cancelled(e, m * fv, 2 * x, m * fs + 2 * e, u);
    // Both together.
    let a = 2 * x - m * fv;
    let c = fv * small - lv;
    close::lemma_size_of_product(small, a);
    close::lemma_size_of_product(m, c);
    close::lemma_size_of_product(fv, small);
    let ml = m * lv;
    assert(e * (small * size(a)) <= small * (m * fs + 2 * e)) by (nonlinear_arith)
        requires
            e * size(a) <= m * fs + 2 * e,
            small > 0,
    ;
    assert(e * (m * size(c)) <= ml + m * (e * small)) by (nonlinear_arith)
        requires
            e * size(c) <= lv + e * small,
            m >= 0,
            ml == m * lv,
    ;
    assert(small * (m * fs + 2 * e) == m * (fs * small) + 2 * (e * small)) by (nonlinear_arith);
    assert(fs * small == size(fv * small));
    assert(m * (fs * small) <= 2 * ml + m * small) by (nonlinear_arith)
        requires
            fs * small == size(fv * small),
            size(fv * small) <= 2 * lv + small,
            m >= 0,
            ml == m * lv,
    ;
    assert(m * (e * small) <= ml && m * small <= ml) by (nonlinear_arith)
        requires
            e * small <= lv,
            small <= lv,
            m >= 0,
            ml == m * lv,
    ;
    assert(small * a + m * c == (2 * small) * x - ml) by (nonlinear_arith)
        requires
            a == 2 * x - m * fv,
            c == fv * small - lv,
            ml == m * lv,
    ;
    assert(ml == (m * large) * u) by (nonlinear_arith)
        requires
            ml == m * lv,
            lv == large * u,
    ;
}

/// A place on the reduced map is one with the highest score there, at its scale:
/// no place of the reduced map scores higher. It is given as the middle of the
/// template, in pixels of the map.
pub proof fn a_coarse_place_is_where_the_score_is_highest(l: &MapLocator, mm: Shades, i: int)
    requires
        l.wf(),
        l.map_gray.width <= 0x100_0000,
        l.map_gray.height <= 0x100_0000,
        l.coarse_w <= 0x80_0000,
        l.coarse_h <= 0x80_0000,
    ensures
        l.coarse_hit(mm, i) matches Some(f) ==> {
            let diam = l.coarse_diam(mm.width, f.1) as int;
            let tmpl = search::template_of(mm.data, mm.width, mm.height, diam, l.matching)->Some_0;
            let tw = l.coarse_w as int;
            let th = l.coarse_h as int;
            &&& f.1 == l.scale_at(i)
            &&& search::template_of(mm.data, mm.width, mm.height, diam, l.matching) is Some
            &&& forall|x: int, y: int|
                0 <= x && 0 <= y && x + diam <= tw && y + diam <= th
                    ==> !#[trigger] correlate::score(l.coarse@, tw, tmpl, x, y).gt(f.0)
            &&& diam >= 1 ==> exists|b: int, c: int|
                {
                    &&& 0 <= b && b + diam <= tw
                    &&& 0 <= c && c + diam <= th
                    &&& f.0 == #[trigger] correlate::score(l.coarse@, tw, tmpl, b, c)
                    &&& f.2.is_finite_spec()
                    &&& f.3.is_finite_spec()
                    &&& is_reduced_middle(f.2.value(), l.map_gray.width as int, tw, b, diam)
                    &&& is_reduced_middle(f.3.value(), l.map_gray.height as int, th, c, diam)
                }
        },
{
    if let Some(f) = l.coarse_hit(mm, i) {
        let diam = l.coarse_diam(mm.width, f.1) as int;
        let tmpl = search::template_of(mm.data, mm.width, mm.height, diam, l.matching)->Some_0;
        let tw = l.coarse_w as int;
        let th = l.coarse_h as int;
        let peak = correlate::best_place(l.coarse@, tw, th, tmpl)->Some_0;
        search::lemma_template_is_wide(mm.data, mm.width, mm.height, diam, l.matching);
        correlate::lemma_best_place_fits(l.coarse@, l.coarse_w, l.coarse_h, tmpl);
        correlate::best_place_is_the_first_of_the_highest(
            l.coarse@,
            l.coarse_w,
            l.coarse_h,
            tmpl,
            peak.1,
            peak.2,
        );
        assert forall|x: int, y: int|
            0 <= x && 0 <= y && x + diam <= tw && y + diam <= th implies !#[trigger] correlate::score(
            l.coarse@,
            tw,
            tmpl,
            x,
            y,
        ).gt(f.0) by {
            correlate::best_place_is_the_first_of_the_highest(
                l.coarse@,
                l.coarse_w,
                l.coarse_h,
                tmpl,
                x as u32,
                y as u32,
            );
        }
        if diam >= 1 {
            lemma_reduced_middle(peak.1 as int, diam, l.map_gray.width as int, tw);
            lemma_reduced_middle(peak.2 as int, diam, l.map_gray.height as int, th);
        }
    }
}

} // verus!
