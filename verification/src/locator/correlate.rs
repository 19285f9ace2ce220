//! Masked normalised cross correlation and its highest place.

use vstd::prelude::*;

use crate::binary32::convert;
use crate::binary32::Binary32;
use crate::locator::template::{Ring, Template};
use crate::pixels;

verus! {

/// The least finite number: the score of a place where nothing varies.
pub const LOWEST: u32 = 0xff7f_ffff;

/// `0.001`: brightness that varies no more than this does not vary.
pub const FLAT: u32 = 0x3a83_126f;

/// The sums over the first `k` points of a template at `base`: of the
/// brightness under it, of its square, and of its product with the template.
pub open spec fn sums(
    target: Seq<Binary32>,
    tw: int,
    pts: Seq<(u32, u32, Binary32)>,
    base: int,
    k: int,
) -> (Binary32, Binary32, Binary32)
    decreases k,
{
    if k <= 0 {
        (Binary32::zero(), Binary32::zero(), Binary32::zero())
    } else {
        let before = sums(target, tw, pts, base, k - 1);
        let p = pts[k - 1];
        let v = target[base + p.1 * tw + p.0];
        (before.0.plus(v), before.1.plus(v.times(v)), before.2.plus(p.2.times(v)))
    }
}

/// The score of the template with its upper left corner at `(x, y)`.
pub open spec fn score(target: Seq<Binary32>, tw: int, tmpl: Ring, x: int, y: int) -> Binary32 {
    let n = convert::of_int(tmpl.pts.len() as int);
    let s = sums(target, tw, tmpl.pts, y * tw + x, tmpl.pts.len() as int);
    let spread = s.1.minus(s.0.times(s.0).over(n));
    if spread.le(Binary32::of_bits(FLAT)) {
        Binary32::of_bits(LOWEST)
    } else {
        s.2.over(tmpl.norm.times(spread.sqrt()))
    }
}

/// The score of the template with its upper left corner at `(x, y)`.
pub fn zncc_at(target: &Vec<Binary32>, tw: u32, th: u32, tmpl: &Template, x: u32, y: u32) -> (r:
    Binary32)
    requires
        tmpl.wf(),
        target@.len() == tw * th,
        x + tmpl.diam <= tw,
        y + tmpl.diam <= th,
    ensures
        r == score(target@, tw as int, tmpl@, x as int, y as int),
{
    let n: Binary32 = Binary32::of_u64(tmpl.pts.len() as u64);
    let mut si: Binary32 = Binary32::zero();
    let mut sii: Binary32 = Binary32::zero();
    let mut num: Binary32 = Binary32::zero();
    let w: usize = tw as usize;
    let ghost base = y * tw + x;
    let mut k: usize = 0;
    while k < tmpl.pts.len()
        invariant
            tmpl.wf(),
            target@.len() == tw * th,
            x + tmpl.diam <= tw,
            y + tmpl.diam <= th,
            w == tw,
            base == y * tw + x,
            0 <= k <= tmpl.pts@.len(),
            (si, sii, num) == sums(target@, tw as int, tmpl.pts@, base, k as int),
        decreases tmpl.pts@.len() - k,
    {
        let (dx, dy, tc) = tmpl.pts[k];
        proof {
            let p = tmpl.pts@[k as int];
            assert(p.0 < tmpl.diam && p.1 < tmpl.diam);
            pixels::lemma_index((x + dx) as int, (y + dy) as int, tw as int, th as int);
            assert(y * tw + x + dy * tw + dx == (y + dy) * tw + (x + dx)) by (nonlinear_arith);
            assert(y * tw >= 0 && dy * tw >= 0) by (nonlinear_arith)
                requires
                    y >= 0,
                    dy >= 0,
                    tw >= 0,
            ;
            assert(target@.len() == target.len());
        }
        let v: Binary32 = target[(y as usize) * w + (x as usize) + (dy as usize) * w + (dx
            as usize)];
        si = si.plus(v);
        sii = sii.plus(v.times(v));
        num = num.plus(tc.times(v));
        k = k + 1;
    }
    let spread: Binary32 = sii.minus(si.times(si).over(n));
    if spread.le(Binary32::of_bits(FLAT)) {
        return Binary32::of_bits(LOWEST);
    }
    num.over(tmpl.norm.times(spread.sqrt()))
}

/// A place and its score.
pub type Peak = (Binary32, u32, u32);

/// The best of the first `n` places, row by row of `cols` places each: a place
/// is taken when it beats all before it.
pub open spec fn best_of(target: Seq<Binary32>, tw: int, tmpl: Ring, cols: int, n: int) -> Peak
    decreases n,
{
    if n <= 0 {
        (Binary32::of_bits(LOWEST), 0u32, 0u32)
    } else {
        let before = best_of(target, tw, tmpl, cols, n - 1);
        let x = (n - 1) % cols;
        let y = (n - 1) / cols;
        let s = score(target, tw, tmpl, x, y);
        if s.gt(before.0) {
            (s, x as u32, y as u32)
        } else {
            before
        }
    }
}

/// The best place of the template in a picture: none when the template does not
/// fit, has fewer than eight points, or nothing under it varies.
pub open spec fn best_place(target: Seq<Binary32>, tw: int, th: int, tmpl: Ring) -> Option<Peak> {
    let d = tmpl.diam;
    if tw < d || th < d || tmpl.pts.len() < 8 {
        None
    } else {
        let best = best_of(target, tw, tmpl, tw - d + 1, (tw - d + 1) * (th - d + 1));
        if best.0.same(Binary32::of_bits(LOWEST)) {
            None
        } else {
            Some(best)
        }
    }
}

/// Slides the template over the picture and returns the best place.
pub fn best_in_image(target: &Vec<Binary32>, tw: u32, th: u32, tmpl: &Template) -> (r: Option<Peak>)
    requires
        tmpl.wf(),
        target@.len() == tw * th,
    ensures
        r == best_place(target@, tw as int, th as int, tmpl@),
        r matches Some(p) ==> p.1 + tmpl.diam <= tw && p.2 + tmpl.diam <= th,
{
    let d: u32 = tmpl.diam;
    if tw < d || th < d || tmpl.pts.len() < 8 {
        return None;
    }
    let last_x: u32 = tw - d;
    let last_y: u32 = th - d;
    let ghost cols = last_x + 1;
    let ghost rows = last_y + 1;
    let mut best: Peak = (Binary32::of_bits(LOWEST), 0, 0);
    let mut y: u32 = 0;
    let mut done: bool = false;
    let ghost mut n: int = 0;
    while !done
        invariant
            tmpl.wf(),
            target@.len() == tw * th,
            d == tmpl.diam,
            last_x == tw - d,
            last_y == th - d,
            cols == last_x + 1,
            rows == last_y + 1,
            !done ==> y <= last_y && n == y * cols,
            done ==> n == rows * cols,
            best == best_of(target@, tw as int, tmpl@, cols, n),
            best.1 <= last_x,
            best.2 <= last_y,
        decreases (if done { 0int } else { rows - y }),
    {
        let mut x: u32 = 0;
        let mut row_done: bool = false;
        while !row_done
            invariant
                tmpl.wf(),
                target@.len() == tw * th,
                d == tmpl.diam,
                last_x == tw - d,
                last_y == th - d,
                cols == last_x + 1,
                y <= last_y,
                !row_done ==> x <= last_x && n == y * cols + x,
                row_done ==> n == y * cols + cols,
                best == best_of(target@, tw as int, tmpl@, cols, n),
                best.1 <= last_x,
                best.2 <= last_y,
            decreases (if row_done { 0int } else { cols - x }),
        {
            let s: Binary32 = zncc_at(target, tw, th, tmpl, x, y);
            proof {
                vstd::arithmetic::div_mod::lemma_fundamental_div_mod_converse(
                    n,
                    cols,
                    y as int,
                    x as int,
                );
                assert(n >= 0) by (nonlinear_arith)
                    requires
                        n == y * cols + x,
                        cols >= 0,
                        y >= 0,
                        x >= 0,
                ;
                n = n + 1;
            }
            if s.gt(best.0) {
                best = (s, x, y);
            }
            if x == last_x {
                row_done = true;
            } else {
                x = x + 1;
            }
        }
        proof {
            assert((y + 1) * cols == y * cols + cols) by (nonlinear_arith);
        }
        if y == last_y {
            done = true;
        } else {
            y = y + 1;
        }
    }
    assert(rows * cols == cols * rows) by (nonlinear_arith);
    if best.0.same(Binary32::of_bits(LOWEST)) {
        None
    } else {
        Some(best)
    }
}

/// A best place has a score that no place beats, and that every place before
/// it in reading order falls short of.
pub proof fn best_place_is_the_first_of_the_highest(
    target: Seq<Binary32>,
    tw: u32,
    th: u32,
    tmpl: Ring,
    x: u32,
    y: u32,
)
    requires
        best_place(target, tw as int, th as int, tmpl) is Some,
        tmpl.diam >= 0,
        x + tmpl.diam <= tw,
        y + tmpl.diam <= th,
    ensures
        ({
            let best = best_place(target, tw as int, th as int, tmpl)->Some_0;
            let s = score(target, tw as int, tmpl, x as int, y as int);
            &&& best.0 == score(target, tw as int, tmpl, best.1 as int, best.2 as int)
            &&& best.0.gt(Binary32::of_bits(LOWEST))
            &&& !s.gt(best.0)
            &&& y < best.2 || (y == best.2 && x < best.1) ==> !s.ge(best.0)
        }),
{
    let cols = tw - tmpl.diam + 1;
    let rows = th - tmpl.diam + 1;
    let best = best_place(target, tw as int, th as int, tmpl)->Some_0;
    let n = y * cols + x;
    pixels::lemma_index(x as int, y as int, cols, rows);
    vstd::arithmetic::div_mod::lemma_fundamental_div_mod_converse(n, cols, y as int, x as int);
    lemma_best_of(target, tw as int, tmpl, cols, rows, cols * rows, n);
    if y < best.2 {
        assert(n < best.2 * cols) by (nonlinear_arith)
            requires
                y + 1 <= best.2,
                n == y * cols + x,
                x < cols,
        ;
    }
}

/// What is the best among the first `n` places, against place `i` of them.
proof fn lemma_best_of(
    target: Seq<Binary32>,
    tw: int,
    tmpl: Ring,
    cols: int,
    rows: int,
    n: int,
    i: int,
)
    requires
        0 < cols <= 0x1_0000_0000,
        0 < rows <= 0x1_0000_0000,
        0 <= n <= cols * rows,
    ensures
        ({
            let best = best_of(target, tw, tmpl, cols, n);
            let s = score(target, tw, tmpl, i % cols, i / cols);
            let found = best.0.gt(Binary32::of_bits(LOWEST));
            &&& !best.0.is_nan_spec()
            &&& best.1 < cols
            &&& found || best.0 == Binary32::of_bits(LOWEST)
            &&& found ==> best.0 == score(target, tw, tmpl, best.1 as int, best.2 as int)
            &&& 0 <= i < n ==> !s.gt(best.0)
            &&& found && 0 <= i < best.2 * cols + best.1 ==> !s.ge(best.0)
            &&& found ==> best.2 * cols + best.1 < n
        }),
    decreases n,
{
    if n > 0 {
        lemma_best_of(target, tw, tmpl, cols, rows, n - 1, i);
        let x = (n - 1) % cols;
        let y = (n - 1) / cols;
        vstd::arithmetic::div_mod::lemma_fundamental_div_mod(n - 1, cols);
        vstd::arithmetic::div_mod::lemma_mod_bound(n - 1, cols);
        vstd::arithmetic::div_mod::lemma_div_pos_is_pos(n - 1, cols);
        assert(y < rows) by (nonlinear_arith)
            requires
                n - 1 == cols * y + x,
                n <= cols * rows,
                0 <= x,
                cols > 0,
        ;
        assert(y * cols == cols * y) by (nonlinear_arith);
    }
}

/// With its upper left corner at the best place, the template is in the picture.
pub proof fn lemma_best_place_fits(target: Seq<Binary32>, tw: u32, th: u32, tmpl: Ring)
    requires
        tmpl.diam >= 0,
    ensures
        best_place(target, tw as int, th as int, tmpl) matches Some(p) ==> p.1 + tmpl.diam <= tw
            && p.2 + tmpl.diam <= th,
{
    let cols = tw - tmpl.diam + 1;
    let rows = th - tmpl.diam + 1;
    if let Some(p) = best_place(target, tw as int, th as int, tmpl) {
        assert(cols * rows >= 0) by (nonlinear_arith)
            requires
                cols >= 1,
                rows >= 1,
        ;
        lemma_best_of(target, tw as int, tmpl, cols, rows, cols * rows, 0);
        assert(p.2 < rows) by (nonlinear_arith)
            requires
                p.2 * cols + p.1 < cols * rows,
                p.1 >= 0,
                cols >= 1,
        ;
    }
}

/// `0.000001`.
pub const TINY: u32 = 0x3586_37bd;

/// Where the top of the parabola through three neighbouring scores lies, from
/// the middle one, no more than one step away.
pub open spec fn parabola_top(sm: Binary32, s0: Binary32, sp: Binary32) -> Binary32 {
    let denom = sm.minus(Binary32::two().times(s0)).plus(sp);
    if denom.abs().lt(Binary32::of_bits(TINY)) {
        Binary32::zero()
    } else {
        Binary32::half().times(sm.minus(sp)).over(denom).clamp(
            Binary32::one().negated(),
            Binary32::one(),
        )
    }
}

/// Where the top of the parabola through three neighbouring scores lies, from
/// the middle one.
pub fn parabolic(sm: Binary32, s0: Binary32, sp: Binary32) -> (r: Binary32)
    ensures
        r == parabola_top(sm, s0, sp),
        r.is_nan_spec() || (r.le(Binary32::one()) && r.ge(Binary32::one().negated())),
{
    let denom: Binary32 = sm.minus(Binary32::two().times(s0)).plus(sp);
    if denom.abs().lt(Binary32::of_bits(TINY)) {
        Binary32::zero()
    } else {
        Binary32::half().times(sm.minus(sp)).over(denom).clamp(
            Binary32::one().negated(),
            Binary32::one(),
        )
    }
}

} // verus!
