//! The ring of the minimap that is looked for.

use vstd::prelude::*;

use crate::binary32::convert;
use crate::binary32::Binary32;
use crate::pixels;
use crate::pixels::Gray8;

verus! {

/// The pixels of the ring, each as its column, its row and its brightness less
/// the mean, with the length of that vector.
pub struct Template {
    pub pts: Vec<(u32, u32, Binary32)>,
    pub norm: Binary32,
    pub diam: u32,
}

/// `0.000001`: the least length of a template.
pub const NORM_MIN: u32 = 0x3586_37bd;

/// What a template holds.
#[verifier::ext_equal]
pub struct Ring {
    pub pts: Seq<(u32, u32, Binary32)>,
    pub norm: Binary32,
    pub diam: int,
}

impl View for Template {
    type V = Ring;

    open spec fn view(&self) -> Ring {
        Ring { pts: self.pts@, norm: self.norm, diam: self.diam as int }
    }
}

impl Template {
    pub open spec fn wf(&self) -> bool {
        forall|i: int|
            0 <= i < self.pts@.len() ==> (#[trigger] self.pts@[i]).0 < self.diam && self.pts@[i].1
                < self.diam
    }
}

/// Whether the ring of a picture of `diam` by `diam` pixels holds a pixel.
pub open spec fn keeps(
    diam: int,
    x: int,
    y: int,
    inner_ratio: Binary32,
    exclude_ratio: Binary32,
) -> bool {
    let side = convert::of_int(diam);
    let c = side.minus(Binary32::one()).times(Binary32::half());
    let r_out = side.times(Binary32::half()).times(inner_ratio);
    let r_in = side.times(Binary32::half()).times(exclude_ratio);
    let dx = convert::of_int(x).minus(c);
    let dy = convert::of_int(y).minus(c);
    let d2 = dx.times(dx).plus(dy.times(dy));
    !(d2.lt(r_in.times(r_in)) || d2.gt(r_out.times(r_out)))
}

/// The pixels of the ring among the first `n` of a picture, with their
/// brightness.
pub open spec fn ring(
    data: Seq<u8>,
    diam: int,
    inner_ratio: Binary32,
    exclude_ratio: Binary32,
    n: int,
) -> Seq<(u32, u32, Binary32)>
    decreases n,
{
    if n <= 0 {
        seq![]
    } else {
        let before = ring(data, diam, inner_ratio, exclude_ratio, n - 1);
        let x = (n - 1) % diam;
        let y = (n - 1) / diam;
        if keeps(diam, x, y, inner_ratio, exclude_ratio) {
            before.push((x as u32, y as u32, convert::of_int(data[n - 1] as int)))
        } else {
            before
        }
    }
}

/// The sum of the values, taken in order.
pub open spec fn total(pts: Seq<(u32, u32, Binary32)>) -> Binary32
    decreases pts.len(),
{
    if pts.len() == 0 {
        Binary32::zero()
    } else {
        total(pts.drop_last()).plus(pts.last().2)
    }
}

/// The sum of the squares of the values, taken in order.
pub open spec fn total_squares(pts: Seq<(u32, u32, Binary32)>) -> Binary32
    decreases pts.len(),
{
    if pts.len() == 0 {
        Binary32::zero()
    } else {
        total_squares(pts.drop_last()).plus(pts.last().2.times(pts.last().2))
    }
}

/// The mean of the values; 0 of none.
pub open spec fn mean(pts: Seq<(u32, u32, Binary32)>) -> Binary32 {
    let n = if pts.len() == 0 {
        1
    } else {
        pts.len() as int
    };
    total(pts).over(convert::of_int(n))
}

/// The values less `m`.
pub open spec fn less(pts: Seq<(u32, u32, Binary32)>, m: Binary32) -> Seq<(u32, u32, Binary32)> {
    Seq::new(pts.len(), |i: int| (pts[i].0, pts[i].1, pts[i].2.minus(m)))
}

/// The values of the ring of a square picture, less their mean.
pub open spec fn ring_values(
    data: Seq<u8>,
    diam: int,
    inner_ratio: Binary32,
    exclude_ratio: Binary32,
) -> Seq<(u32, u32, Binary32)> {
    let pts = ring(data, diam, inner_ratio, exclude_ratio, diam * diam);
    less(pts, mean(pts))
}

/// The length of a vector of values, never quite zero.
pub open spec fn length(pts: Seq<(u32, u32, Binary32)>) -> Binary32 {
    total_squares(pts).sqrt().max(Binary32::of_bits(NORM_MIN))
}

/// The template of a square picture.
pub open spec fn ring_of(
    data: Seq<u8>,
    diam: int,
    inner_ratio: Binary32,
    exclude_ratio: Binary32,
) -> Ring {
    let pts = ring_values(data, diam, inner_ratio, exclude_ratio);
    Ring { pts, norm: length(pts), diam }
}

/// The template of a square picture.
pub fn ring_template(
    img: &Gray8,
    inner_ratio: Binary32,
    exclude_ratio: Binary32,
) -> (r: Template)
    requires
        img.wf(),
        img.width == img.height,
    ensures
        r.wf(),
        r.diam == img.width,
        r@ == ring_of(img.data@, img.width as int, inner_ratio, exclude_ratio),
{
    let diam: u32 = img.width;
    let side: Binary32 = Binary32::of_u32(diam);
    let c: Binary32 = side.minus(Binary32::one()).times(Binary32::half());
    let r_out: Binary32 = side.times(Binary32::half()).times(inner_ratio);
    let r_in: Binary32 = side.times(Binary32::half()).times(exclude_ratio);
    let r_out2: Binary32 = r_out.times(r_out);
    let r_in2: Binary32 = r_in.times(r_in);

    let mut pts: Vec<(u32, u32, Binary32)> = Vec::new();
    let mut sum: Binary32 = Binary32::zero();
    let mut i: usize = 0;
    let mut x: u32 = 0;
    let mut y: u32 = 0;
    while i < img.data.len()
        invariant
            img.wf(),
            diam == img.width,
            diam == img.height,
            0 <= i <= img.data@.len(),
            i == y * diam + x,
            i < img.data@.len() ==> x < diam && y < diam,
            side == convert::of_int(diam as int),
            c == side.minus(Binary32::one()).times(Binary32::half()),
            r_out == side.times(Binary32::half()).times(inner_ratio),
            r_in == side.times(Binary32::half()).times(exclude_ratio),
            r_out2 == r_out.times(r_out),
            r_in2 == r_in.times(r_in),
            pts@ == ring(img.data@, diam as int, inner_ratio, exclude_ratio, i as int),
            sum == total(pts@),
            forall|k: int|
                0 <= k < pts@.len() ==> (#[trigger] pts@[k]).0 < diam && pts@[k].1 < diam,
        decreases img.data@.len() - i,
    {
        proof {
            vstd::arithmetic::div_mod::lemma_fundamental_div_mod_converse(
                i as int,
                diam as int,
                y as int,
                x as int,
            );
        }
        let dx: Binary32 = Binary32::of_u32(x).minus(c);
        let dy: Binary32 = Binary32::of_u32(y).minus(c);
        let d2: Binary32 = dx.times(dx).plus(dy.times(dy));
        if !(d2.lt(r_in2) || d2.gt(r_out2)) {
            let v: Binary32 = Binary32::of_u32(img.data[i] as u32);
            let ghost before = pts@;
            pts.push((x, y, v));
            sum = sum.plus(v);
            assert(pts@.drop_last() == before);
        }
        proof {
            pixels::lemma_index(x as int, y as int, diam as int, diam as int);
            assert((y + 1) * diam == y * diam + diam) by (nonlinear_arith);
            assert((y + 1) * diam + 0 < diam * diam ==> y + 1 < diam) by (nonlinear_arith);
        }
        i = i + 1;
        if x + 1 < diam {
            x = x + 1;
        } else {
            x = 0;
            y = y + 1;
        }
    }
    let ghost raw = pts@;
    let count: u64 = if pts.len() == 0 {
        1
    } else {
        pts.len() as u64
    };
    let m: Binary32 = sum.over(Binary32::of_u64(count));
    let mut squares: Binary32 = Binary32::zero();
    let mut out: Vec<(u32, u32, Binary32)> = Vec::new();
    let mut k: usize = 0;
    while k < pts.len()
        invariant
            pts@ == raw,
            0 <= k <= raw.len(),
            out@.len() == k,
            m == mean(raw),
            out@ == less(raw, m).take(k as int),
            squares == total_squares(out@),
            forall|j: int|
                0 <= j < raw.len() ==> (#[trigger] raw[j]).0 < diam && raw[j].1 < diam,
            forall|j: int|
                0 <= j < out@.len() ==> (#[trigger] out@[j]).0 < diam && out@[j].1 < diam,
        decreases raw.len() - k,
    {
        let (px, py, v) = pts[k];
        let d: Binary32 = v.minus(m);
        let ghost before = out@;
        out.push((px, py, d));
        squares = squares.plus(d.times(d));
        k = k + 1;
        assert(out@.drop_last() == before);
        assert(out@ =~= less(raw, m).take(k as int));
    }
    assert(less(raw, m).take(k as int) =~= less(raw, m));
    Template { pts: out, norm: squares.sqrt().max(Binary32::of_bits(NORM_MIN)), diam }
}

/// A ring has no more pixels than its picture.
pub proof fn lemma_ring_fits(
    data: Seq<u8>,
    diam: int,
    inner_ratio: Binary32,
    exclude_ratio: Binary32,
    n: int,
)
    requires
        n >= 0,
    ensures
        ring(data, diam, inner_ratio, exclude_ratio, n).len() <= n,
    decreases n,
{
    if n > 0 {
        lemma_ring_fits(data, diam, inner_ratio, exclude_ratio, n - 1);
    }
}

} // verus!
