//! Which pixels of a side a resampled pixel gets a share of.
//!
//! A side is resampled with the triangle filter in single precision. Each new
//! pixel is the mean of the pixels around its place, weighted by how near they
//! are; on a side of many million pixels rounding can leave a place with no
//! pixel near it, and then it has no mean.

use vstd::prelude::*;

use crate::binary32::convert;
use crate::binary32::Binary32;

verus! {

/// How many of `from` pixels go to one of `to` pixels.
pub open spec fn stretch(from: int, to: int) -> Binary32 {
    convert::of_int(from).over(convert::of_int(to))
}

/// How far from its place a new pixel looks: one pixel, or as many as go to it.
pub open spec fn breadth(from: int, to: int) -> Binary32 {
    if stretch(from, to).lt(Binary32::one()) {
        Binary32::one()
    } else {
        stretch(from, to)
    }
}

/// The place of the `o`th new pixel on the side.
pub open spec fn place_at(from: int, to: int, o: int) -> Binary32 {
    convert::of_int(o).plus(Binary32::half()).times(stretch(from, to))
}

/// The first pixel that the `o`th new pixel looks at.
pub open spec fn first_at(from: int, to: int, o: int) -> int {
    let k = place_at(from, to, o).minus(breadth(from, to)).floor().to_u64();
    if k > from - 1 {
        from - 1
    } else {
        k as int
    }
}

/// The first pixel past those that the `o`th new pixel looks at.
pub open spec fn past_at(from: int, to: int, o: int) -> int {
    let k = place_at(from, to, o).plus(breadth(from, to)).ceil().to_u64();
    let first = first_at(from, to, o);
    if k < first + 1 {
        first + 1
    } else if k > from {
        from
    } else {
        k as int
    }
}

/// The `i`th pixel is near enough to the place of the `o`th new one to count.
pub open spec fn counts(from: int, to: int, o: int, i: int) -> bool {
    convert::of_int(i).minus(place_at(from, to, o).minus(Binary32::half())).over(
        breadth(from, to),
    ).abs().lt(Binary32::one())
}

/// Some pixel counts for the `o`th new one.
pub open spec fn gets_share(from: int, to: int, o: int) -> bool {
    exists|i: int|
        first_at(from, to, o) <= i < past_at(from, to, o) && #[trigger] counts(from, to, o, i)
}

/// Every new pixel gets a share of the side.
pub open spec fn samples(from: int, to: int) -> bool {
    forall|o: int| 0 <= o < to ==> #[trigger] gets_share(from, to, o)
}

/// Whether some pixel counts for the `o`th new one.
fn finds_share(from: u32, to: u32, o: u32) -> (r: bool)
    requires
        from > 0,
    ensures
        r == gets_share(from as int, to as int, o as int),
{
    let ratio: Binary32 = Binary32::of_u32(from).over(Binary32::of_u32(to));
    let broad: Binary32 = if ratio.lt(Binary32::one()) {
        Binary32::one()
    } else {
        ratio
    };
    let place: Binary32 = Binary32::of_u32(o).plus(Binary32::half()).times(ratio);
    let low: u64 = place.minus(broad).floor().to_u64();
    let first: u32 = if low > (from - 1) as u64 {
        from - 1
    } else {
        low as u32
    };
    let high: u64 = place.plus(broad).ceil().to_u64();
    let past: u32 = if high < (first as u64) + 1 {
        first + 1
    } else if high > from as u64 {
        from
    } else {
        high as u32
    };
    let middle: Binary32 = place.minus(Binary32::half());
    let mut i: u32 = first;
    while i < past
        invariant
            first <= i <= past,
            broad == breadth(from as int, to as int),
            place == place_at(from as int, to as int, o as int),
            middle == place.minus(Binary32::half()),
            first == first_at(from as int, to as int, o as int),
            past == past_at(from as int, to as int, o as int),
            forall|j: int|
                first <= j < i ==> !#[trigger] counts(from as int, to as int, o as int, j),
        decreases past - i,
    {
        if Binary32::of_u32(i).minus(middle).over(broad).abs().lt(Binary32::one()) {
            assert(counts(from as int, to as int, o as int, i as int));
            return true;
        }
        i = i + 1;
    }
    false
}

/// Whether every new pixel gets a share of the side.
pub fn can_sample(from: u32, to: u32) -> (r: bool)
    requires
        from > 0,
    ensures
        r == samples(from as int, to as int),
{
    let mut o: u32 = 0;
    while o < to
        invariant
            from > 0,
            0 <= o <= to,
            forall|k: int| 0 <= k < o ==> #[trigger] gets_share(from as int, to as int, k),
        decreases to - o,
    {
        if !finds_share(from, to, o) {
            assert(!gets_share(from as int, to as int, o as int));
            return false;
        }
        o = o + 1;
    }
    true
}

} // verus!
