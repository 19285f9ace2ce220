//! The arrow over the game's window: shapes drawn into a buffer of blue, green,
//! red and opacity, with the colours already multiplied by the opacity.

use vstd::arithmetic::power2::*;
use vstd::prelude::*;

use crate::binary32::arith;
use crate::binary32::convert;
use crate::binary32::exact;
use crate::binary32::pattern;
use crate::binary32::Binary32;
use crate::spot::Spot;

verus! {

/// Where to go: the angle from straight ahead and the distance in map pixels.
#[derive(Clone, Copy, Debug, PartialEq, Eq, Structural)]
pub struct ArrowInfo {
    pub rel_angle: Binary32,
    pub distance: Binary32,
}

/// What is drawn over the game.
#[derive(Clone, Copy, Debug)]
pub enum NavContent<'a> {
    Arrow(&'a ArrowInfo),
}

/// The corners of a triangle.
#[derive(Clone, Copy, Debug, PartialEq, Eq, Structural)]
pub struct Triangle {
    pub a: Spot,
    pub b: Spot,
    pub c: Spot,
}

/// `255`.
pub const BYTE_MAX: u32 = 0x437f_0000;

/// The largest finite number, where no crossing has been found.
pub const LARGEST: u32 = 0x7f7f_ffff;

/// `100` and `500` map pixels: at and beyond these the arrow has its least and
/// its greatest length.
pub const MAP_DIST_MIN: u32 = 0x42c8_0000;

pub const MAP_DIST_MAX: u32 = 0x43fa_0000;

/// `25` pixels from the middle to where the arrow starts.
pub const START_OFFSET: u32 = 0x41c8_0000;

/// `6` and `3` pixels: the widths of the outline and of the line.
pub const OUTLINE_WIDTH: u32 = 0x40c0_0000;

pub const LINE_WIDTH: u32 = 0x4040_0000;

/// `20` and `12` pixels: the length and half the width of the arrow's head.
pub const HEAD_LENGTH: u32 = 0x41a0_0000;

pub const HEAD_HALF_WIDTH: u32 = 0x4140_0000;

/// `4` and `3` pixels by which the outline of the head stands out ahead and to
/// the sides.
pub const HEAD_AHEAD: u32 = 0x4080_0000;

pub const HEAD_ASIDE: u32 = 0x4040_0000;

/// Every colour is at most the opacity.
pub open spec fn is_premultiplied(c: Seq<u8>) -> bool {
    c.len() == 4 && c[0] <= c[3] && c[1] <= c[3] && c[2] <= c[3]
}

/// A colour times its opacity.
pub open spec fn faded(k: u8, a: u8) -> u8 {
    convert::of_int(k as int).times(
        convert::of_int(a as int).over(Binary32::of_bits(BYTE_MAX)),
    ).to_u8()
}

/// A colour with its opacity as the buffer holds it.
pub fn premul(r: u8, g: u8, b: u8, a: u8) -> (c: [u8; 4])
    ensures
        c@ == seq![faded(b, a), faded(g, a), faded(r, a), a],
        is_premultiplied(c@),
{
    let af: Binary32 = Binary32::of_u32(a as u32).over(Binary32::of_bits(BYTE_MAX));
    let c: [u8; 4] = [
        Binary32::of_u32(b as u32).times(af).to_u8(),
        Binary32::of_u32(g as u32).times(af).to_u8(),
        Binary32::of_u32(r as u32).times(af).to_u8(),
        a,
    ];
    proof {
        lemma_faded(r, a);
        lemma_faded(g, a);
        lemma_faded(b, a);
        assert(c@ =~= seq![faded(b, a), faded(g, a), faded(r, a), a]);
    }
    c
}

/// A colour times its opacity is at most the opacity.
pub proof fn lemma_faded(k: u8, a: u8)
    ensures
        faded(k, a) <= a,
{
    reveal(Binary32::over_spec);
    reveal(Binary32::times_spec);
    lemma2_to64();
    let one = pow2(149) as int;
    let byte = Binary32::of_bits(BYTE_MAX);
    lemma_pow2_pos(149);
    lemma_pow2_adds(23, 126);
    lemma_pow2_adds(1, 148);
    lemma_pow2_adds(16, 133);
    let g = pow2(126) as int;
    let half = pow2(148) as int;
    assert(one == 0x80_0000 * g);
    assert(one == 2 * half);
    // 255 has the pattern it is written with.
    assert(byte.magnitude() / 0x80_0000 == 134 && byte.magnitude() % 0x80_0000 == 0x7f_0000);
    assert(pattern::units(BYTE_MAX as int) == 0xff_0000 * pow2(133));
    assert(0xff_0000 * pow2(133) == 255 * one) by (nonlinear_arith)
        requires
            one == 0x1_0000 * pow2(133),
    ;
    exact::lemma_of_int_exact(k as int);
    exact::lemma_of_int_exact(a as int);
    let fk = convert::of_int(k as int);
    let fa = convert::of_int(a as int);
    arith::lemma_zero_magnitude(fk.magnitude());
    arith::lemma_zero_magnitude(fa.magnitude());
    assert(pattern::units(fk.magnitude()) == k * one);
    assert(pattern::units(fa.magnitude()) == a * one);
    // The opacity as a share of 255 is at most a * 32897 / 2^23.
    let share = fa.over(byte);
    let limit = exact::pattern_for(a * 32897, 126);
    let n = (a * one) * one;
    let d = 255 * one;
    assert(0 <= n && n <= ((a * 32897) * g) * d && d > 0) by (nonlinear_arith)
        requires
            n == (a * one) * one,
            d == 255 * one,
            one == 0x80_0000 * g,
            one > 0,
            g > 0,
            a >= 0,
    ;
    exact::lemma_nearest_keeps_order(n, d, limit);
    exact::lemma_nearest_total(n, d);
    let s = share.magnitude();
    assert(0 <= s <= limit);
    if s < limit {
        pattern::lemma_units_increase(s, limit);
    }
    arith::lemma_zero_magnitude(s);
    let us = pattern::units(s);
    // Times at most 255 it is at most a + 1/2.
    let top = exact::pattern_for(2 * a + 1, 148);
    assert(0 <= (k * one) * us <= ((2 * a + 1) * half) * one) by (nonlinear_arith)
        requires
            0 <= k <= 255,
            0 <= a <= 255,
            0 <= us <= (a * 32897) * g,
            one == 0x80_0000 * g,
            one == 2 * half,
            one > 0,
            g > 0,
    ;
    exact::lemma_nearest_keeps_order((k * one) * us, one, top);
    exact::lemma_nearest_total((k * one) * us, one);
    let product = fk.times(share);
    let p = product.magnitude();
    assert(0 <= p <= top);
    if p < top {
        pattern::lemma_units_increase(p, top);
    }
    arith::lemma_zero_magnitude(p);
    let up = pattern::units(p);
    vstd::arithmetic::div_mod::lemma_div_pos_is_pos(up, one);
    assert(up < (a + 1) * one) by (nonlinear_arith)
        requires
            up <= (2 * a + 1) * half,
            one == 2 * half,
            half > 0,
    ;
    vstd::arithmetic::div_mod::lemma_div_by_multiple_is_strongly_ordered(
        up,
        (a + 1) * one,
        a + 1,
        one,
    );
    vstd::arithmetic::div_mod::lemma_div_multiples_vanish(a + 1, one);
    assert((a + 1) * one == one * (a + 1)) by (nonlinear_arith);
}

/// One byte of the buffer with one byte of a colour of opacity `a` over it.
pub open spec fn blended(under: u8, over: u8, a: u8) -> u8 {
    ((over * 255 + under * (255 - a)) / 255) as u8
}

/// The buffer, `w` pixels wide, with a colour over the pixels that `at` picks
/// and that the buffer holds whole.
pub open spec fn shaded(
    buf: Seq<u8>,
    w: int,
    c: Seq<u8>,
    at: spec_fn(int, int) -> bool,
) -> Seq<u8> {
    Seq::new(
        buf.len(),
        |i: int|
            if at((i / 4) % w, (i / 4) / w) && i - i % 4 + 3 < buf.len() {
                blended(buf[i], c[i % 4], c[3])
            } else {
                buf[i]
            },
    )
}

/// The bytes of a picture of `w` by `h` pixels can be counted in 32 bits.
pub open spec fn countable(w: int, h: int) -> bool {
    &&& w > i32::MIN
    &&& h > i32::MIN
    &&& w > 0 && h > 0 ==> 4 * (w * h) <= i32::MAX
}

/// Colouring some pixels and then others is colouring all of them.
proof fn lemma_shaded_twice(
    buf: Seq<u8>,
    w: int,
    c: Seq<u8>,
    at: spec_fn(int, int) -> bool,
    then: spec_fn(int, int) -> bool,
    all: spec_fn(int, int) -> bool,
)
    requires
        forall|x: int, y: int| !(#[trigger] at(x, y) && then(x, y)),
        forall|x: int, y: int| #[trigger] all(x, y) == (at(x, y) || then(x, y)),
    ensures
        shaded(shaded(buf, w, c, at), w, c, then) == shaded(buf, w, c, all),
{
    assert(shaded(shaded(buf, w, c, at), w, c, then) =~= shaded(buf, w, c, all));
}

/// Whether only the pixel at `(x, y)` is meant.
pub open spec fn only(x: int, y: int) -> spec_fn(int, int) -> bool {
    |px: int, py: int| px == x && py == y
}

/// Puts a colour over one pixel. One outside the buffer is left out.
pub fn put_pixel(buf: &mut Vec<u8>, w: i32, h: i32, x: i32, y: i32, c: [u8; 4])
    requires
        countable(w as int, h as int),
        is_premultiplied(c@),
    ensures
        final(buf)@ == if 0 <= x < w && 0 <= y < h {
            shaded(old(buf)@, w as int, c@, only(x as int, y as int))
        } else {
            old(buf)@
        },
{
    if x < 0 || y < 0 || x >= w || y >= h {
        return ;
    }
    let ghost p = y * w + x;
    proof {
        assert(0 <= y * w && y * w + w <= w * h) by (nonlinear_arith)
            requires
                0 <= y < h,
                0 < w,
        ;
    }
    let idx: usize = ((y * w + x) * 4) as usize;
    let ghost before = buf@;
    let ghost after = shaded(before, w as int, c@, only(x as int, y as int));
    if idx + 3 >= buf.len() {
        proof {
            assert forall|j: int| 0 <= j < before.len() implies before[j] == after[j] by {
                lemma_other_pixel(j / 4, p, w as int, x as int, y as int);
            }
            assert(before =~= after);
        }
        return ;
    }
    let sa: u16 = c[3] as u16;
    let inv: u16 = 255 - sa;
    let mut i: usize = 0;
    while i < 4
        invariant
            0 <= i <= 4,
            idx == 4 * p,
            idx + 3 < buf@.len(),
            buf@.len() == before.len(),
            is_premultiplied(c@),
            sa == c@[3],
            inv == 255 - sa,
            forall|j: int| 0 <= j < i ==> buf@[idx + j] == blended(
                #[trigger] before[idx + j],
                c@[j],
                c@[3],
            ),
            forall|j: int|
                0 <= j < before.len() && !(idx <= j < idx + i) ==> buf@[j] == before[j],
        decreases 4 - i,
    {
        let over: u16 = c[i] as u16;
        let under: u16 = buf[idx + i] as u16;
        proof {
            assert(0 <= under * inv <= 255 * (255 - sa)) by (nonlinear_arith)
                requires
                    0 <= under <= 255,
                    inv == 255 - sa,
                    0 <= sa <= 255,
            ;
        }
        let mixed: u16 = (over * 255 + under * inv) / 255;
        buf.set(idx + i, mixed as u8);
        i = i + 1;
    }
    proof {
        assert forall|j: int| 0 <= j < before.len() implies buf@[j] == after[j] by {
            let q = j / 4;
            if idx <= j < idx + 4 {
                assert(q == p);
                vstd::arithmetic::div_mod::lemma_fundamental_div_mod_converse(
                    p,
                    w as int,
                    y as int,
                    x as int,
                );
                assert(j == idx + j % 4);
                assert(buf@[idx + j % 4] == blended(before[idx + j % 4], c@[j % 4], c@[3]));
            } else {
                assert(q != p);
                lemma_other_pixel(q, p, w as int, x as int, y as int);
            }
        }
        assert(buf@ =~= after);
    }
}

/// Another pixel has another place.
proof fn lemma_other_pixel(q: int, p: int, w: int, x: int, y: int)
    requires
        w > 0,
        p == y * w + x,
    ensures
        q != p ==> !(q % w == x && q / w == y),
{
    vstd::arithmetic::div_mod::lemma_fundamental_div_mod(q, w);
    assert(w * y == y * w) by (nonlinear_arith);
}

/// The pixels of the rows before `y`, and those of row `y` before `x`.
pub open spec fn earlier(px: int, py: int, x: int, y: int) -> bool {
    py < y || (py == y && px < x)
}

/// The larger of a number and 0.
pub open spec fn at_least_zero(k: i32) -> int {
    if k < 0 {
        0
    } else {
        k as int
    }
}

/// The smaller of a number and the last of `n`.
pub open spec fn at_most_last(k: i32, n: int) -> int {
    if k > n - 1 {
        n - 1
    } else {
        k as int
    }
}

/// The larger of a number and 0.
fn from_zero(k: i32) -> (r: i32)
    ensures
        r == at_least_zero(k),
{
    if k < 0 {
        0
    } else {
        k
    }
}

/// The smaller of a number and the last of `n`.
fn to_last(k: i32, n: i32) -> (r: i32)
    requires
        n > i32::MIN,
    ensures
        r == at_most_last(k, n as int),
{
    if k > n - 1 {
        n - 1
    } else {
        k
    }
}

/// The middle of a pixel.
pub open spec fn pixel_middle(k: int) -> Binary32 {
    convert::of_int(k).plus(Binary32::half())
}

/// A pixel belongs to the disc around `(cx, cy)`.
pub open spec fn in_disc(
    w: int,
    h: int,
    cx: Binary32,
    cy: Binary32,
    r: Binary32,
    x: int,
    y: int,
) -> bool {
    let dx = pixel_middle(x).minus(cx);
    let dy = pixel_middle(y).minus(cy);
    &&& !r.lt(Binary32::half())
    &&& at_least_zero(cx.minus(r).floor().to_i32()) <= x <= at_most_last(
        cx.plus(r).ceil().to_i32(),
        w,
    )
    &&& at_least_zero(cy.minus(r).floor().to_i32()) <= y <= at_most_last(
        cy.plus(r).ceil().to_i32(),
        h,
    )
    &&& dx.times(dx).plus(dy.times(dy)).le(r.times(r))
}

/// Fills a disc.
pub fn fill_circle(
    buf: &mut Vec<u8>,
    w: i32,
    h: i32,
    cx: Binary32,
    cy: Binary32,
    r: Binary32,
    color: [u8; 4],
)
    requires
        countable(w as int, h as int),
        is_premultiplied(color@),
    ensures
        final(buf)@ == shaded(
            old(buf)@,
            w as int,
            color@,
            |x: int, y: int| in_disc(w as int, h as int, cx, cy, r, x, y),
        ),
{
    let ghost before = buf@;
    let ghost all = |x: int, y: int| in_disc(w as int, h as int, cx, cy, r, x, y);
    if r.lt(Binary32::half()) {
        assert(shaded(before, w as int, color@, all) =~= before);
        return ;
    }
    let x0: i32 = from_zero(cx.minus(r).floor().to_i32());
    let x1: i32 = to_last(cx.plus(r).ceil().to_i32(), w);
    let y0: i32 = from_zero(cy.minus(r).floor().to_i32());
    let y1: i32 = to_last(cy.plus(r).ceil().to_i32(), h);
    let r2: Binary32 = r.times(r);
    let mut y: i32 = y0;
    assert(shaded(
        before,
        w as int,
        color@,
        |px: int, py: int| all(px, py) && earlier(px, py, 0, y as int),
    ) =~= before);
    while y <= y1
        invariant
            countable(w as int, h as int),
            is_premultiplied(color@),
            all == (|x: int, y: int| in_disc(w as int, h as int, cx, cy, r, x, y)),
            !r.lt(Binary32::half()),
            r2 == r.times(r),
            x0 == at_least_zero(cx.minus(r).floor().to_i32()),
            x1 == at_most_last(cx.plus(r).ceil().to_i32(), w as int),
            y0 == at_least_zero(cy.minus(r).floor().to_i32()),
            y1 == at_most_last(cy.plus(r).ceil().to_i32(), h as int),
            y0 <= y,
            y <= y1 + 1 || y == y0,
            buf@ == shaded(
                before,
                w as int,
                color@,
                |px: int, py: int| all(px, py) && earlier(px, py, 0, y as int),
            ),
        decreases y1 + 1 - y,
    {
        let mut x: i32 = x0;
        assert(buf@ =~= shaded(
            before,
            w as int,
            color@,
            |px: int, py: int| all(px, py) && earlier(px, py, x as int, y as int),
        ));
        while x <= x1
            invariant
                countable(w as int, h as int),
                is_premultiplied(color@),
                all == (|x: int, y: int| in_disc(w as int, h as int, cx, cy, r, x, y)),
                !r.lt(Binary32::half()),
                r2 == r.times(r),
                x0 == at_least_zero(cx.minus(r).floor().to_i32()),
                x1 == at_most_last(cx.plus(r).ceil().to_i32(), w as int),
                y0 == at_least_zero(cy.minus(r).floor().to_i32()),
                y1 == at_most_last(cy.plus(r).ceil().to_i32(), h as int),
                y0 <= y <= y1,
                x0 <= x,
                x <= x1 + 1 || x == x0,
                buf@ == shaded(
                    before,
                    w as int,
                    color@,
                    |px: int, py: int| all(px, py) && earlier(px, py, x as int, y as int),
                ),
            decreases x1 + 1 - x,
        {
            let dx: Binary32 = Binary32::of_i32(x).plus(Binary32::half()).minus(cx);
            let dy: Binary32 = Binary32::of_i32(y).plus(Binary32::half()).minus(cy);
            let ghost done = |px: int, py: int| all(px, py) && earlier(px, py, x as int, y as int);
            let ghost more = |px: int, py: int| all(px, py) && earlier(px, py, x + 1, y as int);
            if dx.times(dx).plus(dy.times(dy)).le(r2) {
                proof {
                    lemma_shaded_twice(
                        before,
                        w as int,
                        color@,
                        done,
                        only(x as int, y as int),
                        more,
                    );
                }
                put_pixel(buf, w, h, x, y, color);
            } else {
                assert(shaded(before, w as int, color@, done) =~= shaded(
                    before,
                    w as int,
                    color@,
                    more,
                ));
            }
            assert(buf@ == shaded(before, w as int, color@, more));
            x = x + 1;
        }
        assert(buf@ =~= shaded(
            before,
            w as int,
            color@,
            |px: int, py: int| all(px, py) && earlier(px, py, 0, y + 1),
        ));
        y = y + 1;
    }
    assert(buf@ =~= shaded(before, w as int, color@, all));
}

/// Where a row crosses the sides of a triangle: up to two places, and how many.
#[derive(Clone, Copy, Debug, PartialEq, Eq, Structural)]
pub struct Crossings {
    pub first: Binary32,
    pub second: Binary32,
    pub count: u8,
}

/// A side crosses the row whose middle is at `yf`.
pub open spec fn crosses(p: Spot, q: Spot, yf: Binary32) -> bool {
    (p.y.le(yf) && q.y.gt(yf)) || (q.y.le(yf) && p.y.gt(yf))
}

/// Where a side crosses the row whose middle is at `yf`.
pub open spec fn crossing(p: Spot, q: Spot, yf: Binary32) -> Binary32 {
    p.x.plus(yf.minus(p.y).over(q.y.minus(p.y)).times(q.x.minus(p.x)))
}

/// The crossings with those of one more side.
pub open spec fn noted(k: Crossings, p: Spot, q: Spot, yf: Binary32) -> Crossings {
    if !crosses(p, q, yf) || k.count >= 2 {
        k
    } else if k.count == 0 {
        Crossings { first: crossing(p, q, yf), second: k.second, count: 1 }
    } else {
        Crossings { first: k.first, second: crossing(p, q, yf), count: 2 }
    }
}

/// Where a row crosses the sides of a triangle.
pub open spec fn crossings(t: Triangle, yf: Binary32) -> Crossings {
    let none = Crossings {
        first: Binary32::of_bits(LARGEST),
        second: Binary32::of_bits(LARGEST),
        count: 0,
    };
    noted(noted(noted(none, t.a, t.b, yf), t.b, t.c, yf), t.c, t.a, yf)
}

/// The first and the last column of a row of a buffer `w` pixels wide between
/// two crossings.
pub open spec fn span(k: Crossings, w: int) -> (int, int) {
    let left = if k.first.lt(k.second) {
        k.first
    } else {
        k.second
    };
    let right = if k.first.lt(k.second) {
        k.second
    } else {
        k.first
    };
    (at_least_zero(left.floor().to_i32()), at_most_last(right.ceil().to_i32(), w))
}

/// A pixel belongs to a triangle.
pub open spec fn in_triangle(w: int, h: int, t: Triangle, x: int, y: int) -> bool {
    let k = crossings(t, pixel_middle(y));
    &&& at_least_zero(t.a.y.min(t.b.y).min(t.c.y).floor().to_i32()) <= y <= at_most_last(
        t.a.y.max(t.b.y).max(t.c.y).ceil().to_i32(),
        h,
    )
    &&& k.count == 2
    &&& span(k, w).0 <= x <= span(k, w).1
}

/// The pixels of a triangle.
pub open spec fn triangle_at(w: int, h: int, t: Triangle) -> spec_fn(int, int) -> bool {
    |x: int, y: int| in_triangle(w, h, t, x, y)
}

fn note(k: Crossings, p: Spot, q: Spot, yf: Binary32) -> (r: Crossings)
    ensures
        r == noted(k, p, q, yf),
{
    if (p.y.le(yf) && q.y.gt(yf)) || (q.y.le(yf) && p.y.gt(yf)) {
        let t: Binary32 = yf.minus(p.y).over(q.y.minus(p.y));
        let x: Binary32 = p.x.plus(t.times(q.x.minus(p.x)));
        if k.count == 0 {
            return Crossings { first: x, second: k.second, count: 1 };
        }
        if k.count == 1 {
            return Crossings { first: k.first, second: x, count: 2 };
        }
    }
    k
}

/// Fills a triangle, row by row.
pub fn fill_triangle(buf: &mut Vec<u8>, w: i32, h: i32, t: Triangle, color: [u8; 4])
    requires
        countable(w as int, h as int),
        is_premultiplied(color@),
    ensures
        final(buf)@ == shaded(old(buf)@, w as int, color@, triangle_at(w as int, h as int, t)),
{
    let ghost before = buf@;
    let ghost all = triangle_at(w as int, h as int, t);
    let min_y: i32 = from_zero(t.a.y.min(t.b.y).min(t.c.y).floor().to_i32());
    let max_y: i32 = to_last(t.a.y.max(t.b.y).max(t.c.y).ceil().to_i32(), h);
    let mut y: i32 = min_y;
    assert(shaded(
        before,
        w as int,
        color@,
        |px: int, py: int| all(px, py) && earlier(px, py, 0, y as int),
    ) =~= before);
    while y <= max_y
        invariant
            countable(w as int, h as int),
            is_premultiplied(color@),
            all == triangle_at(w as int, h as int, t),
            min_y == at_least_zero(t.a.y.min(t.b.y).min(t.c.y).floor().to_i32()),
            max_y == at_most_last(t.a.y.max(t.b.y).max(t.c.y).ceil().to_i32(), h as int),
            min_y <= y,
            y <= max_y + 1 || y == min_y,
            buf@ == shaded(
                before,
                w as int,
                color@,
                |px: int, py: int| all(px, py) && earlier(px, py, 0, y as int),
            ),
        decreases max_y + 1 - y,
    {
        let yf: Binary32 = Binary32::of_i32(y).plus(Binary32::half());
        let none: Crossings = Crossings {
            first: Binary32::of_bits(LARGEST),
            second: Binary32::of_bits(LARGEST),
            count: 0,
        };
        let k: Crossings = note(note(note(none, t.a, t.b, yf), t.b, t.c, yf), t.c, t.a, yf);
        if k.count == 2 {
            let (left, right) = if k.first.lt(k.second) {
                (k.first, k.second)
            } else {
                (k.second, k.first)
            };
            let x_start: i32 = from_zero(left.floor().to_i32());
            let x_end: i32 = to_last(right.ceil().to_i32(), w);
            let mut x: i32 = x_start;
            assert(buf@ =~= shaded(
                before,
                w as int,
                color@,
                |px: int, py: int| all(px, py) && earlier(px, py, x as int, y as int),
            ));
            while x <= x_end
                invariant
                    countable(w as int, h as int),
                    is_premultiplied(color@),
                    all == triangle_at(w as int, h as int, t),
                    min_y == at_least_zero(t.a.y.min(t.b.y).min(t.c.y).floor().to_i32()),
                    max_y == at_most_last(t.a.y.max(t.b.y).max(t.c.y).ceil().to_i32(), h as int),
                    min_y <= y <= max_y,
                    k == crossings(t, pixel_middle(y as int)),
                    k.count == 2,
                    (x_start as int, x_end as int) == span(k, w as int),
                    x_start <= x,
                    x <= x_end + 1 || x == x_start,
                    buf@ == shaded(
                        before,
                        w as int,
                        color@,
                        |px: int, py: int| all(px, py) && earlier(px, py, x as int, y as int),
                    ),
                decreases x_end + 1 - x,
            {
                let ghost done = |px: int, py: int|
                    all(px, py) && earlier(px, py, x as int, y as int);
                let ghost more = |px: int, py: int|
                    all(px, py) && earlier(px, py, x + 1, y as int);
                proof {
                    lemma_shaded_twice(
                        before,
                        w as int,
                        color@,
                        done,
                        only(x as int, y as int),
                        more,
                    );
                }
                put_pixel(buf, w, h, x, y, color);
                assert(buf@ == shaded(before, w as int, color@, more));
                x = x + 1;
            }
        }
        assert(buf@ =~= shaded(
            before,
            w as int,
            color@,
            |px: int, py: int| all(px, py) && earlier(px, py, 0, y + 1),
        ));
        y = y + 1;
    }
    assert(buf@ =~= shaded(before, w as int, color@, all));
}

/// The two triangles that make a thick line.
pub open spec fn line_halves(from: Spot, to: Spot, thickness: Binary32) -> (Triangle, Triangle) {
    let dx = to.x.minus(from.x);
    let dy = to.y.minus(from.y);
    let len = dx.times(dx).plus(dy.times(dy)).sqrt();
    let nx = dy.negated().over(len);
    let ny = dx.over(len);
    let ht = thickness.over(Binary32::two());
    let a = Spot { x: from.x.plus(nx.times(ht)), y: from.y.plus(ny.times(ht)) };
    let b = Spot { x: from.x.minus(nx.times(ht)), y: from.y.minus(ny.times(ht)) };
    let c = Spot { x: to.x.minus(nx.times(ht)), y: to.y.minus(ny.times(ht)) };
    let d = Spot { x: to.x.plus(nx.times(ht)), y: to.y.plus(ny.times(ht)) };
    (Triangle { a, b, c }, Triangle { a, b: c, c: d })
}

/// The buffer with a thick line over it; one shorter than half a pixel is left
/// out.
pub open spec fn line_drawn(
    buf: Seq<u8>,
    w: int,
    h: int,
    from: Spot,
    to: Spot,
    thickness: Binary32,
    c: Seq<u8>,
) -> Seq<u8> {
    let dx = to.x.minus(from.x);
    let dy = to.y.minus(from.y);
    let halves = line_halves(from, to, thickness);
    if dx.times(dx).plus(dy.times(dy)).sqrt().lt(Binary32::half()) {
        buf
    } else {
        shaded(
            shaded(buf, w, c, triangle_at(w, h, halves.0)),
            w,
            c,
            triangle_at(w, h, halves.1),
        )
    }
}

/// Draws a thick line as two triangles.
pub fn draw_thick_line(
    buf: &mut Vec<u8>,
    w: i32,
    h: i32,
    from: Spot,
    to: Spot,
    thickness: Binary32,
    color: [u8; 4],
)
    requires
        countable(w as int, h as int),
        is_premultiplied(color@),
    ensures
        final(buf)@ == line_drawn(
            old(buf)@,
            w as int,
            h as int,
            from,
            to,
            thickness,
            color@,
        ),
        final(buf)@.len() == old(buf)@.len(),
{
    let dx: Binary32 = to.x.minus(from.x);
    let dy: Binary32 = to.y.minus(from.y);
    let len: Binary32 = dx.times(dx).plus(dy.times(dy)).sqrt();
    if len.lt(Binary32::half()) {
        return ;
    }
    let nx: Binary32 = dy.negated().over(len);
    let ny: Binary32 = dx.over(len);
    let ht: Binary32 = thickness.over(Binary32::two());
    let a: Spot = Spot { x: from.x.plus(nx.times(ht)), y: from.y.plus(ny.times(ht)) };
    let b: Spot = Spot { x: from.x.minus(nx.times(ht)), y: from.y.minus(ny.times(ht)) };
    let c: Spot = Spot { x: to.x.minus(nx.times(ht)), y: to.y.minus(ny.times(ht)) };
    let d: Spot = Spot { x: to.x.plus(nx.times(ht)), y: to.y.plus(ny.times(ht)) };
    fill_triangle(buf, w, h, Triangle { a, b, c }, color);
    fill_triangle(buf, w, h, Triangle { a, b: c, c: d }, color);
}

/// Where the arrow starts and ends and the two triangles of its head, the
/// outline's first.
pub struct ArrowShape {
    pub start: Spot,
    pub end: Spot,
    pub outer: Triangle,
    pub inner: Triangle,
}

/// The length of the arrow in a buffer of `w` by `h` pixels: half the shorter
/// side for a far target, a fifth of that for a near one.
pub open spec fn arrow_length(w: int, h: int, distance: Binary32) -> Binary32 {
    let near = Binary32::of_bits(MAP_DIST_MIN);
    let far = Binary32::of_bits(MAP_DIST_MAX);
    let max_len = convert::of_int(w).min(convert::of_int(h)).times(Binary32::half());
    let min_len = max_len.times(near.over(far));
    let t = distance.clamp(near, far).minus(near).over(far.minus(near));
    min_len.plus(t.times(max_len.minus(min_len)))
}

/// The shape of the arrow to a target at `distance`, given the sine and the
/// cosine of the angle from straight ahead.
pub open spec fn arrow_shape(
    w: int,
    h: int,
    distance: Binary32,
    sin: Binary32,
    cos: Binary32,
) -> ArrowShape {
    let cx = convert::of_int(w).over(Binary32::two());
    let cy = convert::of_int(h).over(Binary32::two());
    let dx = sin;
    let dy = cos.negated();
    let off = Binary32::of_bits(START_OFFSET);
    let reach = off.plus(arrow_length(w, h, distance));
    let ex = cx.plus(dx.times(reach));
    let ey = cy.plus(dy.times(reach));
    let bx = ex.minus(dx.times(Binary32::of_bits(HEAD_LENGTH)));
    let by = ey.minus(dy.times(Binary32::of_bits(HEAD_LENGTH)));
    let px = dy.negated();
    let py = dx;
    let side = Binary32::of_bits(HEAD_HALF_WIDTH);
    let wide = side.plus(Binary32::of_bits(HEAD_ASIDE));
    let ahead = Binary32::of_bits(HEAD_AHEAD);
    ArrowShape {
        start: Spot { x: cx.plus(dx.times(off)), y: cy.plus(dy.times(off)) },
        end: Spot { x: ex, y: ey },
        outer: Triangle {
            a: Spot { x: ex.plus(dx.times(ahead)), y: ey.plus(dy.times(ahead)) },
            b: Spot { x: bx.plus(px.times(wide)), y: by.plus(py.times(wide)) },
            c: Spot { x: bx.minus(px.times(wide)), y: by.minus(py.times(wide)) },
        },
        inner: Triangle {
            a: Spot { x: ex, y: ey },
            b: Spot { x: bx.plus(px.times(side)), y: by.plus(py.times(side)) },
            c: Spot { x: bx.minus(px.times(side)), y: by.minus(py.times(side)) },
        },
    }
}

/// The colour of the outline: black, opacity 180.
pub open spec fn outline_colour() -> Seq<u8> {
    seq![faded(0, 180), faded(0, 180), faded(0, 180), 180u8]
}

/// The colour of the arrow: red 0, green 255, blue 120, opacity 230.
pub open spec fn arrow_colour() -> Seq<u8> {
    seq![faded(120, 230), faded(255, 230), faded(0, 230), 230u8]
}

/// The buffer with the arrow over it: outline and line, then outline and head.
pub open spec fn arrow_drawn(
    buf: Seq<u8>,
    w: int,
    h: int,
    distance: Binary32,
    sin: Binary32,
    cos: Binary32,
) -> Seq<u8> {
    let s = arrow_shape(w, h, distance, sin, cos);
    let dark = outline_colour();
    let green = arrow_colour();
    let b1 = line_drawn(buf, w, h, s.start, s.end, Binary32::of_bits(OUTLINE_WIDTH), dark);
    let b2 = line_drawn(b1, w, h, s.start, s.end, Binary32::of_bits(LINE_WIDTH), green);
    let b3 = shaded(b2, w, dark, triangle_at(w, h, s.outer));
    shaded(b3, w, green, triangle_at(w, h, s.inner))
}

/// Draws the arrow, given the sine and the cosine of its angle from straight
/// ahead.
pub fn render_arrow(
    buf: &mut Vec<u8>,
    w: i32,
    h: i32,
    arrow: &ArrowInfo,
    sin: Binary32,
    cos: Binary32,
)
    requires
        countable(w as int, h as int),
    ensures
        final(buf)@ == arrow_drawn(old(buf)@, w as int, h as int, arrow.distance, sin, cos),
        final(buf)@.len() == old(buf)@.len(),
{
    let fw: Binary32 = Binary32::of_i32(w);
    let fh: Binary32 = Binary32::of_i32(h);
    let cx: Binary32 = fw.over(Binary32::two());
    let cy: Binary32 = fh.over(Binary32::two());
    let dx: Binary32 = sin;
    let dy: Binary32 = cos.negated();
    let near: Binary32 = Binary32::of_bits(MAP_DIST_MIN);
    let far: Binary32 = Binary32::of_bits(MAP_DIST_MAX);
    let max_len: Binary32 = fw.min(fh).times(Binary32::half());
    let min_len: Binary32 = max_len.times(near.over(far));
    let d: Binary32 = arrow.distance.clamp(near, far);
    let t: Binary32 = d.minus(near).over(far.minus(near));
    let len: Binary32 = min_len.plus(t.times(max_len.minus(min_len)));
    let off: Binary32 = Binary32::of_bits(START_OFFSET);
    let start: Spot = Spot { x: cx.plus(dx.times(off)), y: cy.plus(dy.times(off)) };
    let ex: Binary32 = cx.plus(dx.times(off.plus(len)));
    let ey: Binary32 = cy.plus(dy.times(off.plus(len)));
    let end: Spot = Spot { x: ex, y: ey };
    let outline: [u8; 4] = premul(0, 0, 0, 180);
    let green: [u8; 4] = premul(0, 255, 120, 230);
    draw_thick_line(buf, w, h, start, end, Binary32::of_bits(OUTLINE_WIDTH), outline);
    draw_thick_line(buf, w, h, start, end, Binary32::of_bits(LINE_WIDTH), green);
    let bx: Binary32 = ex.minus(dx.times(Binary32::of_bits(HEAD_LENGTH)));
    let by: Binary32 = ey.minus(dy.times(Binary32::of_bits(HEAD_LENGTH)));
    let px: Binary32 = dy.negated();
    let py: Binary32 = dx;
    let side: Binary32 = Binary32::of_bits(HEAD_HALF_WIDTH);
    let wide: Binary32 = side.plus(Binary32::of_bits(HEAD_ASIDE));
    let ahead: Binary32 = Binary32::of_bits(HEAD_AHEAD);
    let outer: Triangle = Triangle {
        a: Spot { x: ex.plus(dx.times(ahead)), y: ey.plus(dy.times(ahead)) },
        b: Spot { x: bx.plus(px.times(wide)), y: by.plus(py.times(wide)) },
        c: Spot { x: bx.minus(px.times(wide)), y: by.minus(py.times(wide)) },
    };
    let inner: Triangle = Triangle {
        a: end,
        b: Spot { x: bx.plus(px.times(side)), y: by.plus(py.times(side)) },
        c: Spot { x: bx.minus(px.times(side)), y: by.minus(py.times(side)) },
    };
    fill_triangle(buf, w, h, outer, outline);
    fill_triangle(buf, w, h, inner, green);
}

/// A buffer of fully transparent pixels.
pub open spec fn clear(w: int, h: int) -> Seq<u8> {
    Seq::new((4 * (w * h)) as nat, |i: int| 0u8)
}

/// What is shown over a window of `w` by `h` pixels: the content, whose angle
/// has the given sine and cosine, or nothing but transparency. A window without
/// pixels shows nothing.
pub fn frame(
    w: i32,
    h: i32,
    content: Option<NavContent>,
    sin: Binary32,
    cos: Binary32,
) -> (r: Option<Vec<u8>>)
    requires
        w > 0 && h > 0 ==> 4 * (w * h) <= i32::MAX,
    ensures
        match r {
            None => w <= 0 || h <= 0,
            Some(buf) => {
                &&& w > 0 && h > 0
                &&& buf@ == match content {
                    None => clear(w as int, h as int),
                    Some(NavContent::Arrow(a)) => arrow_drawn(
                        clear(w as int, h as int),
                        w as int,
                        h as int,
                        a.distance,
                        sin,
                        cos,
                    ),
                }
            },
        },
{
    if w <= 0 || h <= 0 {
        return None;
    }
    proof {
        assert(0 < w * h) by (nonlinear_arith)
            requires
                w > 0,
                h > 0,
        ;
    }
    let n: usize = (w * h * 4) as usize;
    let mut buf: Vec<u8> = Vec::new();
    let mut i: usize = 0;
    while i < n
        invariant
            0 <= i <= n,
            buf@.len() == i,
            forall|j: int| 0 <= j < i ==> buf@[j] == 0,
        decreases n - i,
    {
        buf.push(0);
        i = i + 1;
    }
    assert(buf@ =~= clear(w as int, h as int));
    match content {
        Some(NavContent::Arrow(a)) => {
            render_arrow(&mut buf, w, h, a, sin, cos);
        },
        None => {},
    }
    Some(buf)
}

/// Every pixel of the buffer has colours that are at most its opacity.
pub open spec fn all_premultiplied(buf: Seq<u8>) -> bool {
    forall|i: int| 0 <= i < buf.len() ==> #[trigger] buf[i] <= buf[i - i % 4 + 3]
}

/// Putting a colour over pixels keeps every colour at most its opacity.
pub proof fn drawing_keeps_a_buffer_premultiplied(
    buf: Seq<u8>,
    w: int,
    c: Seq<u8>,
    at: spec_fn(int, int) -> bool,
)
    requires
        buf.len() % 4 == 0,
        all_premultiplied(buf),
        is_premultiplied(c),
    ensures
        all_premultiplied(shaded(buf, w, c, at)),
{
    let after = shaded(buf, w, c, at);
    assert forall|i: int| 0 <= i < after.len() implies #[trigger] after[i] <= after[i - i % 4
        + 3] by {
        let j = i - i % 4 + 3;
        assert(j < buf.len() && j / 4 == i / 4 && j % 4 == 3);
        assert(buf[i] <= buf[j]);
        assert(c[i % 4] <= c[3]);
        lemma_blended_in_order(buf[i], buf[j], c[i % 4], c[3], c[3]);
    }
}

proof fn lemma_blended_in_order(u1: u8, u2: u8, o1: u8, o2: u8, a: u8)
    requires
        u1 <= u2,
        o1 <= o2 <= a,
    ensures
        blended(u1, o1, a) <= blended(u2, o2, a),
{
    assert(0 <= u1 * (255 - a) <= u2 * (255 - a) <= 255 * (255 - a)) by (nonlinear_arith)
        requires
            0 <= u1 <= u2 <= 255,
            0 <= a <= 255,
    ;
}

/// What is shown over the game has colours that are at most their opacity.
pub proof fn the_arrow_is_premultiplied(
    w: int,
    h: int,
    distance: Binary32,
    sin: Binary32,
    cos: Binary32,
)
    requires
        w > 0,
        h > 0,
    ensures
        all_premultiplied(clear(w, h)),
        all_premultiplied(arrow_drawn(clear(w, h), w, h, distance, sin, cos)),
{
    let buf = clear(w, h);
    let s = arrow_shape(w, h, distance, sin, cos);
    let dark = outline_colour();
    let green = arrow_colour();
    lemma_faded(0, 180);
    lemma_faded(120, 230);
    lemma_faded(255, 230);
    lemma_faded(0, 230);
    assert(0 < w * h) by (nonlinear_arith)
        requires
            w > 0,
            h > 0,
    ;
    let b1 = line_drawn(buf, w, h, s.start, s.end, Binary32::of_bits(OUTLINE_WIDTH), dark);
    lemma_line_premultiplied(
        buf,
        w,
        h,
        s.start,
        s.end,
        Binary32::of_bits(OUTLINE_WIDTH),
        dark,
    );
    let b2 = line_drawn(b1, w, h, s.start, s.end, Binary32::of_bits(LINE_WIDTH), green);
    lemma_line_premultiplied(b1, w, h, s.start, s.end, Binary32::of_bits(LINE_WIDTH), green);
    let b3 = shaded(b2, w, dark, triangle_at(w, h, s.outer));
    drawing_keeps_a_buffer_premultiplied(b2, w, dark, triangle_at(w, h, s.outer));
    drawing_keeps_a_buffer_premultiplied(b3, w, green, triangle_at(w, h, s.inner));
}

proof fn lemma_line_premultiplied(
    buf: Seq<u8>,
    w: int,
    h: int,
    from: Spot,
    to: Spot,
    thickness: Binary32,
    c: Seq<u8>,
)
    requires
        buf.len() % 4 == 0,
        all_premultiplied(buf),
        is_premultiplied(c),
    ensures
        all_premultiplied(line_drawn(buf, w, h, from, to, thickness, c)),
        line_drawn(buf, w, h, from, to, thickness, c).len() == buf.len(),
{
    let halves = line_halves(from, to, thickness);
    let first = shaded(buf, w, c, triangle_at(w, h, halves.0));
    drawing_keeps_a_buffer_premultiplied(buf, w, c, triangle_at(w, h, halves.0));
    drawing_keeps_a_buffer_premultiplied(first, w, c, triangle_at(w, h, halves.1));
}

/// An opaque colour takes a pixel's place.
pub proof fn an_opaque_colour_replaces(under: u8, over: u8)
    ensures
        blended(under, over, 255) == over,
{
    assert(under * (255 - 255) == 0) by (nonlinear_arith);
}

/// Full transparency changes nothing.
pub proof fn a_transparent_colour_changes_nothing(under: u8)
    ensures
        blended(under, 0, 0) == under,
{
}

} // verus!
