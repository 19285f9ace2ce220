//! How a heading follows from the turn that fits best.

use vstd::arithmetic::power2::*;
use vstd::prelude::*;

use crate::angle;
use crate::binary32::close;
use crate::binary32::close::{ample, off, one, size, FINE};
use crate::binary32::convert;
use crate::binary32::exact;
use crate::binary32::order;
use crate::binary32::Binary32;
use crate::direction;
use crate::direction::{
    CandidateMatch, DirectionDetector, DirectionMatch, TemplatePoint, FARTHEST,
};
use crate::pixels;
use crate::pixels::Colours;

verus! {

/// The value of half a turn.
pub open spec fn half_turn() -> int {
    Binary32::of_bits(angle::PI).value()
}

/// The heading `h` is `base` and `turn` half degrees more, less `k` full turns, but
/// for rounding.
pub open spec fn is_turned_by(h: int, base: int, turn: int, k: int) -> bool {
    off(360 * (h - base + k * angle::full_turn()), turn * half_turn(), 4500 * half_turn())
}

/// A common factor is left out.
proof fn lemma_cancelled(e: int, a: int, b: int, c: int, u: int)
    by (nonlinear_arith)
    requires
        e * (a * u - b * u) <= c * u,
        u > 0,
    ensures
        e * (a - b) <= c,
{
}

/// A turn of so many half degrees in radians, against half a turn for three hundred
/// and sixty of them.
proof fn lemma_turn_in_radians(turn: int)
    requires
        -FARTHEST <= turn <= FARTHEST,
    ensures
        direction::radians(turn).is_finite_spec(),
        off(
            360 * direction::radians(turn).value(),
            turn * half_turn(),
            3 * (size(turn) * half_turn()) + 360 * FINE,
        ),
        half_turn() >= one(),
{
    let u = one();
    let e = FINE as int;
    let half = pow2(148) as int;
    let p = pow2(120) as int;
    let degree = Binary32::of_bits(direction::RADIANS_PER_DEGREE);
    let n = size(turn);
    close::lemma_one();
    exact::lemma_one_and_half();
    angle::lemma_turns();
    lemma_pow2_pos(120);
    lemma_pow2_unfold(149);
    lemma2_to64();
    lemma_pow2_adds(7, 120);
    lemma_pow2_adds(29, 120);
    assert(0x3c8e_fa35int / 0x80_0000 == 121 && 0x3c8e_fa35int % 0x80_0000 == 0xe_fa35);
    let r = degree.value();
    assert(r == 0x8e_fa35 * p);
    let pi = half_turn();
    assert(pi == 1_686_629_760 * p) by (nonlinear_arith)
        requires
            pi == 0xc9_0fdb * pow2(127),
            pow2(127) == 0x80 * p,
    ;
    exact::lemma_of_int_exact(turn);
    let k = convert::of_int(turn);
    assert((turn * u) * half == (turn * half) * u) by (nonlinear_arith);
    exact::lemma_times_exact(k, Binary32::half(), turn, 148);
    let kh = k.times(Binary32::half());
    let v = turn * half;
    close::lemma_size_of_product(turn, half);
    close::lemma_size_of_product(v, r);
    let w = n * half;
    assert(0 <= n <= 384);
    assert(2 * (v * r) == (turn * r) * u && 2 * (w * r) == (n * r) * u && w * r <= (2 * ample()) * u
        && w * r >= 0 && n * r >= 0) by (nonlinear_arith)
        requires
            v == turn * half,
            w == n * half,
            u == 2 * half,
            0 <= n <= 384,
            0 <= r <= u,
            u > 0,
            ample() >= 0x1_0000_0000_0000_0000 * u,
    ;
    close::lemma_product(kh, degree);
    let x = kh.times(degree).value();
    assert((2 * x) * u == 2 * (x * u) && (n * r + 2 * e) * u == (n * r) * u + 2 * (e * u))
        by (nonlinear_arith);
    lemma_cancelled(e, 2 * x, turn * r, n * r + 2 * e, u);
    lemma_cancelled(e, turn * r, 2 * x, n * r + 2 * e, u);
    let tp = turn * p;
    let np = n * p;
    assert(turn * r == 0x8e_fa35 * tp && n * r == 0x8e_fa35 * np && turn * pi == 1_686_629_760 * tp
        && n * pi == 1_686_629_760 * np && size(tp) == np && np >= 0) by {
        close::lemma_size_of_product(turn, p);
        assert(turn * r == 0x8e_fa35 * tp && n * r == 0x8e_fa35 * np && turn * pi == 1_686_629_760
            * tp && n * pi == 1_686_629_760 * np && np >= 0) by (nonlinear_arith)
            requires
                r == 0x8e_fa35 * p,
                pi == 1_686_629_760 * p,
                tp == turn * p,
                np == n * p,
                n >= 0,
                p > 0,
        ;
    }
}

/// The heading of a turn is the arrow's own, turned by that turn with its sign, up
/// to whole turns.
pub proof fn a_heading_is_the_arrows_own_and_the_turn(d: &DirectionDetector, best: CandidateMatch)
    requires
        d.base_heading_rad.is_finite_spec(),
        size(d.base_heading_rad.value()) <= half_turn(),
        -FARTHEST <= best.turn <= FARTHEST,
    ensures
        d.judged(best) matches Some(m) ==> {
            &&& m.heading_rad.is_finite_spec()
            &&& exists|k: int|
                -2 <= k <= 2 && #[trigger] is_turned_by(
                    m.heading_rad.value(),
                    d.base_heading_rad.value(),
                    best.turn as int,
                    k,
                )
        },
{
    if let Some(m) = d.judged(best) {
        let turn = best.turn as int;
        let a = d.base_heading_rad;
        let b = direction::radians(turn);
        let pi = half_turn();
        let t = angle::full_turn();
        let e = FINE as int;
        close::lemma_one();
        angle::lemma_full_turn();
        lemma_turn_in_radians(turn);
        let n = size(turn);
        let tp = turn * pi;
        assert(size(tp) <= 384 * pi && n * pi <= 384 * pi) by (nonlinear_arith)
            requires
                tp == turn * pi,
                -384 <= turn <= 384,
                0 <= n <= 384,
                pi >= 0,
                size(tp) == tp || size(tp) == -tp,
        ;
        assert(100 * size(b.value()) <= 108 * pi);
        close::lemma_sum(a, b);
        let s = a.plus(b);
        let sv = s.value();
        assert(100 * size(sv) <= 209 * pi);
        lemma_moderate(s);
        angle::wrapping_changes_an_angle_by_whole_turns(s);
        angle::turns_bring_an_angle_within_half_a_turn(s);
        let h = m.heading_rad.value();
        order::lemma_order_of_values(m.heading_rad, Binary32::of_bits(angle::PI));
        order::lemma_order_of_values(Binary32::of_bits(angle::MINUS_PI), m.heading_rad);
        let k = choose|k: int| #[trigger]
            angle::is_less_turns(h, sv, k, size(k) * (size(sv) + FINE));
        let kt = k * t;
        let slack = size(k) * (size(sv) + FINE);
        assert(e * size(h - (sv - kt)) <= slack);
        assert(slack <= size(k) * (3 * pi)) by (nonlinear_arith)
            requires
                slack == size(k) * (size(sv) + FINE),
                size(sv) + FINE <= 3 * pi,
                size(k) >= 0,
        ;
        close::lemma_size_of_product(k, t);
        let c = size(k);
        assert(c * (3 * pi) == 3 * (c * pi) && c * t == 2 * (c * pi)) by (nonlinear_arith)
            requires
                t == 2 * pi,
        ;
        assert(-2 <= k <= 2) by {
            if c >= 3 {
                assert(c * pi >= 3 * pi) by (nonlinear_arith)
                    requires
                        c >= 3,
                        pi > 0,
                ;
                assert(size(kt) <= size(h) + size(sv) + size(h - (sv - kt)));
            }
        }
        assert(c * pi <= 2 * pi) by (nonlinear_arith)
            requires
                c <= 2,
                pi > 0,
        ;
        assert(is_turned_by(h, a.value(), turn, k));
    }
}

/// A number of less than three half turns is less than 2^24.
proof fn lemma_moderate(s: Binary32)
    requires
        s.is_finite_spec(),
        size(s.value()) <= 3 * half_turn(),
    ensures
        s.magnitude() <= 0x4b80_0000,
{
    let top = Binary32::of_bits(0x4b80_0000);
    angle::lemma_full_turn();
    close::lemma_one();
    lemma2_to64();
    lemma_pow2_unfold(150);
    assert(0x4b80_0000int / 0x80_0000 == 151 && 0x4b80_0000int % 0x80_0000 == 0);
    assert(crate::binary32::pattern::units(0x4b80_0000) == 0x80_0000 * pow2(150));
    crate::binary32::arith::lemma_zero_magnitude(s.magnitude());
    if s.magnitude() > 0x4b80_0000 {
        crate::binary32::pattern::lemma_units_increase(0x4b80_0000, s.magnitude());
    }
}

/// Two turns give the same heading only where they are whole turns apart: the
/// turns `k` and `-k` give two headings unless `k` is nothing or half a turn.
pub proof fn other_turns_give_other_headings(
    d: &DirectionDetector,
    a: CandidateMatch,
    b: CandidateMatch,
)
    requires
        d.base_heading_rad.is_finite_spec(),
        size(d.base_heading_rad.value()) <= half_turn(),
        -FARTHEST <= a.turn <= FARTHEST,
        -FARTHEST <= b.turn <= FARTHEST,
        (a.turn - b.turn) % 720 != 0,
        d.judged(a) is Some,
        d.judged(b) is Some,
    ensures
        d.judged(a)->0.heading_rad.value() != d.judged(b)->0.heading_rad.value(),
{
    let h = d.judged(a)->0.heading_rad.value();
    let g = d.judged(b)->0.heading_rad.value();
    let base = d.base_heading_rad.value();
    let pi = half_turn();
    let t = angle::full_turn();
    a_heading_is_the_arrows_own_and_the_turn(d, a);
    a_heading_is_the_arrows_own_and_the_turn(d, b);
    angle::lemma_full_turn();
    close::lemma_one();
    let j = choose|k: int| -2 <= k <= 2 && #[trigger] is_turned_by(h, base, a.turn as int, k);
    let k = choose|k: int| -2 <= k <= 2 && #[trigger] is_turned_by(g, base, b.turn as int, k);
    if h == g {
        let i = j - k;
        let m = a.turn - b.turn;
        assert(m * pi == a.turn * pi - b.turn * pi && i * t == j * t - k * t && (720 * i - m) * pi
            == 360 * (i * t) - m * pi) by (nonlinear_arith)
            requires
                i == j - k,
                m == a.turn - b.turn,
                t == 2 * pi,
        ;
        let over = 720 * i - m;
        assert(FINE * size(over * pi) <= 9000 * pi);
        assert(over == 0) by (nonlinear_arith)
            requires
                FINE * size(over * pi) <= 9000 * pi,
                size(over * pi) >= over * pi,
                size(over * pi) >= -(over * pi),
                pi > 0,
                FINE == 0x100_0000,
        ;
        assert(m == 720 * i);
    }
}

/// A turn to one side that stays within half a turn of zero moves the heading to
/// that side.
pub proof fn a_turn_moves_the_heading_to_its_side(d: &DirectionDetector, best: CandidateMatch)
    requires
        d.base_heading_rad.is_finite_spec(),
        size(d.base_heading_rad.value()) <= half_turn(),
        -FARTHEST <= best.turn <= FARTHEST,
        -359 * half_turn() <= 360 * d.base_heading_rad.value() + best.turn * half_turn() <= 359
            * half_turn(),
        d.judged(best) is Some,
    ensures
        best.turn < 0 ==> d.judged(best)->0.heading_rad.value() < d.base_heading_rad.value(),
        best.turn > 0 ==> d.judged(best)->0.heading_rad.value() > d.base_heading_rad.value(),
        best.turn == 0 ==> d.judged(best)->0.heading_rad.same(d.base_heading_rad),
{
    let m = d.judged(best)->0;
    let turn = best.turn as int;
    let a = d.base_heading_rad;
    let b = direction::radians(turn);
    let pi = half_turn();
    close::lemma_one();
    angle::lemma_full_turn();
    lemma_turn_in_radians(turn);
    let n = size(turn);
    let tp = turn * pi;
    assert(size(tp) <= 384 * pi && n * pi <= 384 * pi && n * pi == size(tp) && (turn < 0 ==> tp
        <= -pi) && (turn > 0 ==> tp >= pi) && (turn == 0 ==> tp == 0)) by (nonlinear_arith)
        requires
            tp == turn * pi,
            -384 <= turn <= 384,
            turn >= 0 ==> n == turn,
            turn < 0 ==> n == -turn,
            pi >= 0,
            tp >= 0 ==> size(tp) == tp,
            tp < 0 ==> size(tp) == -tp,
    ;
    close::lemma_sum(a, b);
    let s = a.plus(b);
    order::lemma_order_of_values(s, Binary32::of_bits(angle::PI));
    order::lemma_order_of_values(Binary32::of_bits(angle::MINUS_PI), s);
    assert(angle::is_wrapped(s));
    angle::turns_leave_a_wrapped_angle(s);
    assert(m.heading_rad == s);
    if turn == 0 {
        exact::lemma_of_int_exact(0);
        crate::binary32::arith::lemma_zero_magnitude(convert::of_int(0).magnitude());
        assert(0 * pow2(149) == 0) by (nonlinear_arith);
        exact::lemma_one_and_half();
        exact::lemma_zero_times(convert::of_int(0), Binary32::half());
        exact::lemma_zero_times(
            convert::of_int(0).times(Binary32::half()),
            Binary32::of_bits(direction::RADIANS_PER_DEGREE),
        );
        exact::lemma_plus_zero(a, b);
    }
}

/// A finite number of at most `m`.
pub open spec fn is_within(a: Binary32, m: int) -> bool {
    a.is_finite_spec() && size(a.value()) <= m * one()
}

/// The point at `(dx, dy)` from the middle, turned by an angle with a given sine and
/// cosine, lies at `(x, y)` when the middle is at `(ax, ay)`: each axis of the arrow
/// is turned with it.
pub open spec fn is_turned_about(
    at: (Binary32, Binary32),
    p: TemplatePoint,
    ax: Binary32,
    ay: Binary32,
    sin: Binary32,
    cos: Binary32,
    m: int,
) -> bool {
    let u = one();
    &&& at.0.is_finite_spec()
    &&& at.1.is_finite_spec()
    &&& off(
        (at.0.value() - ax.value()) * u,
        cos.value() * p.dx.value() - sin.value() * p.dy.value(),
        (7 * m + 8) * (u * u),
    )
    &&& off(
        (at.1.value() - ay.value()) * u,
        sin.value() * p.dx.value() + cos.value() * p.dy.value(),
        (7 * m + 8) * (u * u),
    )
}

/// The sum and the difference of a number and two products.
proof fn lemma_with_products(
    a: Binary32,
    s: Binary32,
    b: Binary32,
    t: Binary32,
    c: Binary32,
    m: int,
)
    requires
        0 <= m <= 0x10_0000,
        is_within(a, m),
        is_within(b, m),
        is_within(c, m),
        is_within(s, 1),
        is_within(t, 1),
    ensures
        ({
            let u = one();
            let sum = a.plus(s.times(b)).plus(t.times(c));
            let less = a.plus(s.times(b)).minus(t.times(c));
            &&& sum.is_finite_spec()
            &&& less.is_finite_spec()
            &&& off(
                (sum.value() - a.value()) * u,
                s.value() * b.value() + t.value() * c.value(),
                (7 * m + 8) * (u * u),
            )
            &&& off(
                (less.value() - a.value()) * u,
                s.value() * b.value() - t.value() * c.value(),
                (7 * m + 8) * (u * u),
            )
        }),
{
    let u = one();
    close::lemma_one();
    close::lemma_product_within(s, b, 1, m);
    close::lemma_product_within(t, c, 1, m);
    let p = s.times(b);
    let q = t.times(c);
    assert(m * u + (m + 1) * u == (2 * m + 1) * u && (2 * m + 2) * u + (m + 1) * u == (3 * m + 3) * u)
        by (nonlinear_arith);
    close::lemma_sum_within(a, p, 2 * m + 1);
    let r = a.plus(p);
    close::lemma_sum_within(r, q, 3 * m + 3);
    close::lemma_difference_within(r, q, 3 * m + 3);
    let x = r.plus(q).value();
    let y = r.minus(q).value();
    let av = a.value();
    let pv = p.value();
    let qv = q.value();
    assert((3 * m + 4) * u + (2 * m + 2) * u == (5 * m + 6) * u) by (nonlinear_arith);
    assert(off(x - av, pv + qv, (5 * m + 6) * u));
    assert(off(y - av, pv - qv, (5 * m + 6) * u));
    close::lemma_scaled(x - av, pv + qv, (5 * m + 6) * u, u);
    close::lemma_scaled(y - av, pv - qv, (5 * m + 6) * u, u);
    assert(((5 * m + 6) * u) * u == (5 * m + 6) * (u * u) && (7 * m + 8) * (u * u) == (5 * m + 6) * (u
        * u) + 2 * ((m + 1) * (u * u)) && (pv + qv) * u == pv * u + qv * u && (pv - qv) * u == pv * u
        - qv * u) by (nonlinear_arith);
}

/// A point of the arrow is looked for where it comes to lie when the arrow is turned
/// about its middle.
pub proof fn a_point_turns_about_the_middle_of_the_arrow(
    p: TemplatePoint,
    ax: Binary32,
    ay: Binary32,
    sin: Binary32,
    cos: Binary32,
    m: int,
)
    requires
        0 <= m <= 0x10_0000,
        is_within(ax, m),
        is_within(ay, m),
        is_within(p.dx, m),
        is_within(p.dy, m),
        is_within(sin, 1),
        is_within(cos, 1),
    ensures
        is_turned_about(
            direction::turned_place(p, ax, ay, sin, cos),
            p,
            ax,
            ay,
            sin,
            cos,
            m,
        ),
{
    lemma_with_products(ax, cos, p.dx, sin, p.dy, m);
    lemma_with_products(ay, sin, p.dx, cos, p.dy, m);
}

/// The square of the difference of two colours.
proof fn lemma_square_of_colours(a: Binary32, b: Binary32)
    requires
        is_within(a, 256),
        is_within(b, 256),
    ensures
        ({
            let u = one();
            let d = a.minus(b);
            let r = d.times(d);
            let g = a.value() - b.value();
            &&& r.is_finite_spec()
            &&& size(r.value()) <= 263170 * u
            &&& off(r.value() * u, g * g, 790000 * (u * u))
        }),
{
    let u = one();
    let d = a.minus(b);
    let g = a.value() - b.value();
    close::lemma_one();
    close::lemma_difference_within(a, b, 512);
    close::lemma_product_within(d, d, 513, 513);
    let v = d.value();
    close::lemma_off_times(v, g, 513 * u, v + g, 1025 * u);
    assert(v * (v + g) - g * (v + g) == v * v - g * g && (513 * u) * (1025 * u) == 525825 * (u * u))
        by (nonlinear_arith);
    assert(off(v * v, g * g, 525825 * (u * u)));
    assert(off(d.times(d).value() * u, v * v, 263170 * (u * u)));
    close::lemma_chained(
        d.times(d).value() * u,
        v * v,
        g * g,
        263170 * (u * u),
        525825 * (u * u),
    );
    assert(u * u >= 0) by (nonlinear_arith);
}

/// The error of a colour is the square of its distance from that of the point, in
/// units of the largest such square, three times that of 255.
pub proof fn the_error_of_a_colour_is_its_squared_distance(
    p: TemplatePoint,
    seen: (Binary32, Binary32, Binary32),
)
    requires
        is_within(p.red, 256),
        is_within(p.green, 256),
        is_within(p.blue, 256),
        is_within(seen.0, 256),
        is_within(seen.1, 256),
        is_within(seen.2, 256),
    ensures
        ({
            let u = one();
            let err = direction::colour_error(p, seen);
            let r = seen.0.value() - p.red.value();
            let g = seen.1.value() - p.green.value();
            let b = seen.2.value() - p.blue.value();
            &&& err.is_finite_spec()
            &&& off(
                err.value() * (3 * 255 * 255 * u),
                r * r + g * g + b * b,
                4_600_000 * (u * u),
            )
        }),
{
    let u = one();
    let e = FINE as int;
    close::lemma_one();
    lemma_square_of_colours(seen.0, p.red);
    lemma_square_of_colours(seen.1, p.green);
    lemma_square_of_colours(seen.2, p.blue);
    let dr = seen.0.minus(p.red);
    let dg = seen.1.minus(p.green);
    let db = seen.2.minus(p.blue);
    let r = dr.times(dr);
    let g = dg.times(dg);
    let b = db.times(db);
    close::lemma_sum_within(r, g, 526340);
    let s = r.plus(g);
    close::lemma_sum_within(s, b, 789511);
    let t = s.plus(b);
    let span = Binary32::of_bits(direction::COLOUR_SPAN);
    let p143 = pow2(143) as int;
    lemma2_to64();
    lemma_pow2_adds(6, 143);
    assert(0x483e_80c0int / 0x80_0000 == 144 && 0x483e_80c0int % 0x80_0000 == 0x3e_80c0);
    assert(span.value() == 0xbe_80c0 * p143);
    assert(span.value() == 195075 * u);
    let tv = t.value();
    let ts = size(tv);
    assert(ts * u <= (2 * ample()) * size(span.value()) && ts * u <= 789512 * (u * u) && e * (195075
        * u) <= u * u) by (nonlinear_arith)
        requires
            0 <= ts <= 789512 * u,
            size(span.value()) == 195075 * u,
            ample() >= 0x1_0000_0000_0000_0000 * u,
            u >= 0x1_0000_0000_0000_0000,
            e == 0x100_0000,
    ;
    close::lemma_quotient(t, span);
    let total = r.value() + g.value() + b.value();
    assert(off(tv, total, 1_315_853 * u));
    close::lemma_scaled(tv, total, 1_315_853 * u, u);
    assert((1_315_853 * u) * u == 1_315_853 * (u * u) && total * u == r.value() * u + g.value() * u
        + b.value() * u) by (nonlinear_arith)
        requires
            total == r.value() + g.value() + b.value(),
    ;
    assert(3 * 255 * 255 * u == 195075 * u);
}

/// Four pixels mixed by how far a place is from each, across and down.
pub open spec fn mixed(p00: int, p10: int, p01: int, p11: int, tx: int, ty: int) -> int {
    (p00 * (one() - tx) + p10 * tx) * (one() - ty) + (p01 * (one() - tx) + p11 * tx) * ty
}

/// Two numbers mixed by a share.
proof fn lemma_mixed_pair(a: Binary32, b: Binary32, t: Binary32, m: int)
    requires
        0 <= m <= 300,
        is_within(a, m),
        is_within(b, m),
        t.is_finite_spec(),
        0 <= t.value() <= one(),
    ensures
        ({
            let u = one();
            let r = a.times(Binary32::one().minus(t)).plus(b.times(t));
            &&& r.is_finite_spec()
            &&& off(
                r.value() * u,
                a.value() * (u - t.value()) + b.value() * t.value(),
                (18 * m + 5) * (u * u),
            )
            &&& size(r.value()) <= (m + 1) * u
        }),
{
    let u = one();
    let e = FINE as int;
    let tv = t.value();
    close::lemma_one();
    close::lemma_difference_within(Binary32::one(), t, 2);
    let rest = Binary32::one().minus(t);
    assert(3 * m == m * 3);
    close::lemma_two_products(a, rest, b, t, m, 3);
    let r = a.times(rest).plus(b.times(t)).value();
    close::lemma_off_times(rest.value(), u - tv, 3 * u, a.value(), m * u);
    assert((3 * u) * (m * u) == (3 * m) * (u * u) && (18 * m + 5) * (u * u) == (5 * (m * 3) + 5) * (u
        * u) + (3 * m) * (u * u) && rest.value() * a.value() == a.value() * rest.value() && (u - tv)
        * a.value() == a.value() * (u - tv)) by (nonlinear_arith);
    // The size.
    let x = a.value();
    let y = b.value();
    let mix = x * (u - tv) + y * tv;
    assert(size(mix) <= (m * u) * u) by {
        assert(-(m * u) * (u - tv) <= x * (u - tv) <= (m * u) * (u - tv) && -(m * u) * tv <= y * tv
            <= (m * u) * tv) by (nonlinear_arith)
            requires
                -(m * u) <= x <= m * u,
                -(m * u) <= y <= m * u,
                0 <= tv <= u,
        ;
        assert((m * u) * (u - tv) + (m * u) * tv == (m * u) * u && -(m * u) * (u - tv) + -(m * u)
            * tv == -((m * u) * u)) by (nonlinear_arith);
    }
    close::lemma_size_of_product(r, u);
    let s = size(r);
    assert((m * u) * u == m * (u * u)) by (nonlinear_arith);
    assert(e * (s * u) <= e * (m * (u * u)) + (18 * m + 5) * (u * u));
    assert((18 * m + 5) * (u * u) <= e * (u * u) && (m + 1) * (u * u) == m * (u * u) + u * u && (m
        + 1) * (u * u) == ((m + 1) * u) * u) by (nonlinear_arith)
        requires
            18 * m + 5 <= e,
            u > 0,
    ;
    assert(s <= (m + 1) * u) by (nonlinear_arith)
        requires
            s * u <= ((m + 1) * u) * u,
            u > 0,
    ;
}

/// A colour between four pixels is their mean, each weighted by how near it is across
/// and down.
pub proof fn a_colour_between_pixels_is_their_weighted_mean(
    p00: u8,
    p10: u8,
    p01: u8,
    p11: u8,
    tx: Binary32,
    ty: Binary32,
)
    requires
        tx.is_finite_spec(),
        ty.is_finite_spec(),
        0 <= tx.value() <= one(),
        0 <= ty.value() <= one(),
    ensures
        ({
            let u = one();
            let r = direction::between(p00, p10, p01, p11, tx, ty);
            &&& r.is_finite_spec()
            &&& size(r.value()) <= 257 * u
            &&& off(
                r.value() * u,
                mixed(p00 as int, p10 as int, p01 as int, p11 as int, tx.value(), ty.value()),
                15_000 * (u * u),
            )
        }),
{
    let u = one();
    let x = tx.value();
    let y = ty.value();
    close::lemma_one();
    lemma_byte(p00);
    lemma_byte(p10);
    lemma_byte(p01);
    lemma_byte(p11);
    let a = convert::of_int(p00 as int);
    let b = convert::of_int(p10 as int);
    let c = convert::of_int(p01 as int);
    let d = convert::of_int(p11 as int);
    lemma_mixed_pair(a, b, tx, 255);
    lemma_mixed_pair(c, d, tx, 255);
    let upper = a.times(Binary32::one().minus(tx)).plus(b.times(tx));
    let lower = c.times(Binary32::one().minus(tx)).plus(d.times(tx));
    lemma_mixed_pair(upper, lower, ty, 256);
    let up = p00 * (u - x) + p10 * x;
    let low = p01 * (u - x) + p11 * x;
    assert(a.value() * (u - x) + b.value() * x == up * u && c.value() * (u - x) + d.value() * x == low
        * u && 4595 * (u * u) == (4595 * u) * u) by (nonlinear_arith)
        requires
            a.value() == p00 * u,
            b.value() == p10 * u,
            c.value() == p01 * u,
            d.value() == p11 * u,
            up == p00 * (u - x) + p10 * x,
            low == p01 * (u - x) + p11 * x,
    ;
    close::lemma_cancelled(upper.value(), up, 4595 * u, u);
    close::lemma_cancelled(lower.value(), low, 4595 * u, u);
    close::lemma_off_times(upper.value(), up, 4595 * u, u - y, u);
    close::lemma_off_times(lower.value(), low, 4595 * u, y, u);
    assert(4595 * (u * u) == (4595 * u) * u && u * u >= 0) by (nonlinear_arith);
    let r = direction::between(p00, p10, p01, p11, tx, ty);
    let mix = upper.value() * (u - y) + lower.value() * y;
    assert(off(r.value() * u, mix, 4613 * (u * u)));
    assert(off(mix, up * (u - y) + low * y, 9190 * (u * u)));
    close::lemma_chained(
        r.value() * u,
        mix,
        up * (u - y) + low * y,
        4613 * (u * u),
        9190 * (u * u),
    );
}

proof fn lemma_byte(k: u8)
    ensures
        is_within(convert::of_int(k as int), 255),
        convert::of_int(k as int).value() == k * one(),
{
    close::lemma_one();
    exact::lemma_of_int_exact(k as int);
    assert(0 <= k * one() <= 255 * one()) by (nonlinear_arith)
        requires
            0 <= k <= 255,
            one() > 0,
    ;
}

/// Where the arrow's middle is tried: so many pixels from the middle of the picture.
pub open spec fn tried_at(frame: Colours, ox: int, oy: int) -> (Binary32, Binary32) {
    (
        pixels::middle_of(frame.width).plus(convert::of_int(ox)),
        pixels::middle_of(frame.height).plus(convert::of_int(oy)),
    )
}

/// The arrow's middle is tried whole pixels from the middle of the picture.
pub proof fn the_arrow_is_tried_about_the_middle(frame: Colours, ox: int, oy: int)
    requires
        1 <= frame.width <= 0x40_0000,
        1 <= frame.height <= 0x40_0000,
        -4 <= ox <= 4,
        -4 <= oy <= 4,
    ensures
        ({
            let at = tried_at(frame, ox, oy);
            &&& at.0.is_finite_spec()
            &&& at.1.is_finite_spec()
            &&& 2 * at.0.value() == (frame.width - 1 + 2 * ox) * one()
            &&& 2 * at.1.value() == (frame.height - 1 + 2 * oy) * one()
        }),
{
    lemma_tried_on_axis(frame.width, ox);
    lemma_tried_on_axis(frame.height, oy);
}

proof fn lemma_tried_on_axis(n: int, o: int)
    requires
        1 <= n <= 0x40_0000,
        -4 <= o <= 4,
    ensures
        pixels::middle_of(n).plus(convert::of_int(o)).is_finite_spec(),
        2 * pixels::middle_of(n).plus(convert::of_int(o)).value() == (n - 1 + 2 * o) * one(),
{
    let u = one();
    let half = pow2(148) as int;
    let k = n - 1 + 2 * o;
    close::lemma_one();
    exact::lemma_one_and_half();
    lemma_pow2_unfold(149);
    exact::lemma_of_int_exact(n);
    exact::lemma_of_int_exact(o);
    exact::lemma_negated(Binary32::one());
    assert(n * u + -u == (n - 1) * u) by (nonlinear_arith);
    exact::lemma_plus_exact(convert::of_int(n), Binary32::one().negated(), n - 1, 149);
    let last = convert::of_int(n).minus(Binary32::one());
    assert(((n - 1) * u) * half == ((n - 1) * half) * u) by (nonlinear_arith);
    exact::lemma_times_exact(last, Binary32::half(), n - 1, 148);
    assert((n - 1) * half + o * u == k * half && 2 * (k * half) == k * u) by (nonlinear_arith)
        requires
            u == 2 * half,
            k == n - 1 + 2 * o,
    ;
    exact::lemma_plus_exact(pixels::middle_of(n), convert::of_int(o), k, 148);
}

/// What a pass gives is one of its turns, with its error and its share, or has no
/// error to speak of.
proof fn lemma_pass_gives_a_try(
    d: &DirectionDetector,
    frame: Colours,
    ax: Binary32,
    ay: Binary32,
    start: int,
    step: int,
    n: int,
)
    requires
        0 <= n <= 40,
        1 <= step <= 20,
        -1000 <= start <= 1000,
    ensures
        ({
            let b = d.best_turn(frame, ax, ay, start, step, n);
            ||| b.score == Binary32::of_bits(direction::NO_SCORE)
            ||| (b.score, b.match_fraction) == d.tried(frame, ax, ay, b.turn as int)
        }),
    decreases n,
{
    if n > 0 {
        lemma_pass_gives_a_try(d, frame, ax, ay, start, step, n - 1);
        let turn = start + (n - 1) * step;
        assert(-1000 <= turn <= 2000) by (nonlinear_arith)
            requires
                turn == start + (n - 1) * step,
                1 <= n <= 40,
                1 <= step <= 20,
                -1000 <= start <= 1000,
        ;
        let here = d.tried(frame, ax, ay, turn);
        let before = d.best_turn(frame, ax, ay, start, step, n - 1);
        let b = d.best_turn(frame, ax, ay, start, step, n);
        if here.0.lt(before.score) {
            assert(b.turn == turn);
        }
    }
}

/// No turn of the first pass fits better than the best turn at a place.
proof fn lemma_best_at_is_least(
    d: &DirectionDetector,
    frame: Colours,
    ax: Binary32,
    ay: Binary32,
)
    ensures
        ({
            let b = d.best_at(frame, ax, ay);
            &&& b.score == Binary32::of_bits(direction::NO_SCORE) || (b.score, b.match_fraction)
                == d.tried(frame, ax, ay, b.turn as int)
            &&& forall|i: int|
                0 <= i < 37 ==> !(#[trigger] d.tried(frame, ax, ay, -360 + i * 20)).0.lt(b.score)
        }),
{
    let coarse = d.best_turn(frame, ax, ay, -360, 20, 37);
    direction::lemma_turn_in_pass(d, frame, ax, ay, -360, 20, 37);
    direction::a_pass_gives_the_first_of_the_least_errors(d, frame, ax, ay, -360, 20, 37);
    lemma_pass_gives_a_try(d, frame, ax, ay, -360, 20, 37);
    let second = coarse.turn - 20;
    let medium = d.best_turn(frame, ax, ay, second, 4, 11);
    direction::lemma_turn_in_pass(d, frame, ax, ay, second, 4, 11);
    direction::a_pass_gives_the_first_of_the_least_errors(d, frame, ax, ay, second, 4, 11);
    lemma_pass_gives_a_try(d, frame, ax, ay, second, 4, 11);
    assert(second + 5 * 4 == coarse.turn);
    assert(!d.tried(frame, ax, ay, second + 5 * 4).0.lt(medium.score));
    let third = medium.turn - 4;
    let fine = d.best_turn(frame, ax, ay, third, 1, 9);
    direction::a_pass_gives_the_first_of_the_least_errors(d, frame, ax, ay, third, 1, 9);
    lemma_pass_gives_a_try(d, frame, ax, ay, third, 1, 9);
    assert(third + 4 * 1 == medium.turn);
    assert(!d.tried(frame, ax, ay, third + 4 * 1).0.lt(fine.score));
    assert(fine == d.best_at(frame, ax, ay));
}

/// The best turn at the `k`th place tried.
#[verifier::opaque]
pub open spec fn fit_at(d: &DirectionDetector, frame: Colours, k: int) -> CandidateMatch {
    d.best_at(
        frame,
        tried_at(frame, k % 9 - 4, k / 9 - 4).0,
        tried_at(frame, k % 9 - 4, k / 9 - 4).1,
    )
}

/// One place more.
proof fn lemma_one_place_more(d: &DirectionDetector, frame: Colours, n: int)
    requires
        0 < n <= 81,
    ensures
        ({
            let here = fit_at(d, frame, n - 1);
            &&& !here.score.is_nan_spec()
            &&& d.best_over(frame, n) == (match d.best_over(frame, n - 1) {
                Some(b) if !here.score.lt(b.score) => Some(b),
                _ => Some(here),
            })
        }),
{
    reveal(fit_at);
    let at = tried_at(frame, (n - 1) % 9 - 4, (n - 1) / 9 - 4);
    direction::lemma_best_at(d, frame, at.0, at.1);
}

/// The best place is one of those tried, and no other fits better.
proof fn lemma_best_over_is_least(d: &DirectionDetector, frame: Colours, n: int)
    requires
        0 <= n <= 81,
    ensures
        n > 0 ==> d.best_over(frame, n) is Some,
        d.best_over(frame, n) matches Some(b) ==> {
            &&& !b.score.is_nan_spec()
            &&& exists|k: int| 0 <= k < n && b == #[trigger] fit_at(d, frame, k)
            &&& forall|k: int| 0 <= k < n ==> !(#[trigger] fit_at(d, frame, k)).score.lt(b.score)
        },
    decreases n,
{
    if n > 0 {
        lemma_best_over_is_least(d, frame, n - 1);
        lemma_one_place_more(d, frame, n);
        let here = fit_at(d, frame, n - 1);
    }
}

/// What fits best at a place.
proof fn lemma_fit_at(d: &DirectionDetector, frame: Colours, ox: int, oy: int)
    requires
        -4 <= ox <= 4,
        -4 <= oy <= 4,
    ensures
        ({
            let at = tried_at(frame, ox, oy);
            let b = fit_at(d, frame, (oy + 4) * 9 + (ox + 4));
            &&& -FARTHEST <= b.turn <= FARTHEST
            &&& b.score == Binary32::of_bits(direction::NO_SCORE) || (b.score, b.match_fraction)
                == d.tried(frame, at.0, at.1, b.turn as int)
            &&& forall|i: int|
                0 <= i < 37 ==> !(#[trigger] d.tried(frame, at.0, at.1, -360 + i * 20)).0.lt(
                    b.score,
                )
        }),
{
    reveal(fit_at);
    let n = (oy + 4) * 9 + (ox + 4);
    assert(n % 9 - 4 == ox && n / 9 - 4 == oy);
    let at = tried_at(frame, ox, oy);
    lemma_best_at_is_least(d, frame, at.0, at.1);
    direction::lemma_best_at(d, frame, at.0, at.1);
}

/// The heading `m` comes of the arrow at so many pixels from the middle, turned by
/// `turn`, with an error that is small enough and enough of its weight fitting.
pub open spec fn comes_of(
    d: &DirectionDetector,
    frame: Colours,
    m: DirectionMatch,
    ox: int,
    oy: int,
    turn: int,
    k: int,
) -> bool {
    let at = tried_at(frame, ox, oy);
    let fit = d.tried(frame, at.0, at.1, turn);
    &&& -4 <= ox <= 4
    &&& -4 <= oy <= 4
    &&& -FARTHEST <= turn <= FARTHEST
    &&& is_turned_by(m.heading_rad.value(), d.base_heading_rad.value(), turn, k)
    &&& -2 <= k <= 2
    &&& !fit.0.gt(Binary32::of_bits(direction::MATCH_SCORE_MAX))
    &&& !fit.1.lt(Binary32::of_bits(direction::MATCH_FRACTION_MIN))
    &&& fit.0.is_finite_spec() && 0 <= fit.0.value() ==> off(
        m.score.value(),
        one() - fit.0.value(),
        3 * one(),
    )
    &&& forall|x: int, y: int, i: int|
        #![trigger d.tried(frame, tried_at(frame, x, y).0, tried_at(frame, x, y).1, -360 + i * 20)]
        -4 <= x <= 4 && -4 <= y <= 4 && 0 <= i < 37 ==> !d.tried(
            frame,
            tried_at(frame, x, y).0,
            tried_at(frame, x, y).1,
            -360 + i * 20,
        ).0.lt(fit.0)
}

/// A heading that a picture shows comes of one of the places and turns tried, and no
/// place about the middle has a turn of the first pass that fits better.
pub proof fn a_heading_comes_of_the_best_fit(d: &DirectionDetector, frame: Colours)
    requires
        d.base_heading_rad.is_finite_spec(),
        size(d.base_heading_rad.value()) <= half_turn(),
    ensures
        d.heading_in(frame) matches Some(m) ==> exists|ox: int, oy: int, turn: int, k: int|
            #[trigger] comes_of(d, frame, m, ox, oy, turn, k),
{
    if let Some(m) = d.heading_in(frame) {
        let best = d.best_over(frame, 81)->Some_0;
        lemma_best_over_is_least(d, frame, 81);
        let j = choose|j: int| 0 <= j < 81 && best == #[trigger] fit_at(d, frame, j);
        let ox = j % 9 - 4;
        let oy = j / 9 - 4;
        assert((oy + 4) * 9 + (ox + 4) == j);
        let at = tried_at(frame, ox, oy);
        lemma_fit_at(d, frame, ox, oy);
        a_heading_is_the_arrows_own_and_the_turn(d, best);
        let turn = best.turn as int;
        let k = choose|k: int|
            -2 <= k <= 2 && #[trigger] is_turned_by(
                m.heading_rad.value(),
                d.base_heading_rad.value(),
                turn,
                k,
            );
        let fit = d.tried(frame, at.0, at.1, turn);
        assert(best.score != Binary32::of_bits(direction::NO_SCORE));
        assert(fit == (best.score, best.match_fraction));
        assert forall|x: int, y: int, i: int|
            #![trigger d.tried(frame, tried_at(frame, x, y).0, tried_at(frame, x, y).1, -360 + i * 20)]
            -4 <= x <= 4 && -4 <= y <= 4 && 0 <= i < 37 implies !d.tried(
            frame,
            tried_at(frame, x, y).0,
            tried_at(frame, x, y).1,
            -360 + i * 20,
        ).0.lt(fit.0) by {
            let n = (y + 4) * 9 + (x + 4);
            lemma_fit_at(d, frame, x, y);
            let there = fit_at(d, frame, n);
            assert(!there.score.lt(best.score));
            let t = d.tried(
                frame,
                tried_at(frame, x, y).0,
                tried_at(frame, x, y).1,
                -360 + i * 20,
            );
            assert(!t.0.lt(there.score));
            lemma_one_place_more(d, frame, n + 1);
        }
        lemma_score(best.score);
        assert(comes_of(d, frame, m, ox, oy, turn, k));
    }
}

/// What is left of one.
proof fn lemma_score(a: Binary32)
    requires
        !a.gt(Binary32::of_bits(direction::MATCH_SCORE_MAX)),
        !a.is_nan_spec(),
    ensures
        a.is_finite_spec() && 0 <= a.value() ==> off(
            Binary32::one().minus(a).clamp(Binary32::zero(), Binary32::one()).value(),
            one() - a.value(),
            3 * one(),
        ),
{
    let most = Binary32::of_bits(direction::MATCH_SCORE_MAX);
    let one_ = Binary32::one();
    let zero = Binary32::zero();
    close::lemma_one();
    if a.is_finite_spec() && 0 <= a.value() {
        order::lemma_order_of_values(most, one_);
        order::lemma_order_of_values(most, a);
        close::lemma_difference_within(one_, a, 2);
        let r = one_.minus(a);
        exact::lemma_negated(a);
        exact::lemma_plus_keeps_order(one_, a.negated(), one_);
        exact::lemma_plus_keeps_order(one_, a.negated(), zero);
        order::lemma_order_of_values(r, one_);
        order::lemma_order_of_values(zero, r);
        assert(r.clamp(zero, one_) == r);
    }
}

} // verus!
