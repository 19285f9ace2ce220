//! Which way the player's arrow points.
//!
//! A picture of the arrow is turned over the middle of the minimap, and the
//! turn at which its colours fit best gives the heading. Turns are counted in
//! half degrees; their sines and cosines come with the detector.

use vstd::arithmetic::power2::*;
use vstd::prelude::*;
use vstd::string::*;

use crate::angle;
use crate::binary32::arith;
use crate::binary32::convert;
use crate::binary32::exact;
use crate::binary32::pattern;
use crate::binary32::Binary32;
use crate::pixels;
use crate::pixels::{Colours, Rgb8, Rgba8};

verus! {

/// A fainter pixel of the arrow's picture does not count.
pub const ALPHA_MIN: u8 = 24;

/// A fainter pixel does not count when the arrow's own heading is estimated.
pub const SOLID_MIN: u8 = 96;

/// The arrow has no fewer pixels than this.
pub const POINTS_MIN: usize = 32;

/// How many pixels around the middle the arrow's own middle may be.
pub const SEARCH_RADIUS: i32 = 4;

/// Half degrees from one direction to the next in the three passes.
pub const COARSE_STEP: i32 = 20;

pub const MEDIUM_STEP: i32 = 4;

pub const FINE_STEP: i32 = 1;

/// Half degrees to either side in the second and the third pass.
pub const MEDIUM_WINDOW: i32 = 20;

pub const FINE_WINDOW: i32 = 4;

/// Half a turn in half degrees.
pub const HALF_TURN: i32 = 360;

/// The farthest half degree that any pass can reach.
pub const FARTHEST: i32 = 384;

/// `0.14`: a larger error is no match.
pub const MATCH_SCORE_MAX: u32 = 0x3e0f_5c29;

/// `0.018`: a pixel with a larger error does not fit.
pub const MATCH_PIXEL_MAX_ERR: u32 = 0x3c93_74bc;

/// `0.45`: the least share of the weight that must fit.
pub const MATCH_FRACTION_MIN: u32 = 0x3ee6_6666;

/// `255`.
pub const BYTE_MAX: u32 = 0x437f_0000;

/// `195075`, the largest squared distance of two colours.
pub const COLOUR_SPAN: u32 = 0x483e_80c0;

/// `0.35` and `0.65`: the parts of a pixel's weight that do not and that do
/// depend on how colourful it is.
pub const WEIGHT_BASE: u32 = 0x3eb3_3333;

pub const WEIGHT_COLOUR: u32 = 0x3f26_6666;

/// Radians to a degree.
pub const RADIANS_PER_DEGREE: u32 = 0x3c8e_fa35;

/// Positive infinity.
pub const NO_SCORE: u32 = 0x7f80_0000;

/// The heading that was found.
#[derive(Clone, Copy, Debug, PartialEq, Eq, Structural)]
pub struct DirectionMatch {
    pub heading_rad: Binary32,
    /// From 0, no fit, to 1, a perfect one.
    pub score: Binary32,
}

/// A pixel of the arrow: its place from the arrow's middle, its colour and how
/// much it counts.
#[derive(Clone, Copy, Debug, PartialEq, Eq, Structural)]
pub struct TemplatePoint {
    pub dx: Binary32,
    pub dy: Binary32,
    pub red: Binary32,
    pub green: Binary32,
    pub blue: Binary32,
    pub weight: Binary32,
}

/// A turn in half degrees, with its error and the share of the weight that
/// fits.
#[derive(Clone, Copy, Debug, PartialEq, Eq, Structural)]
pub struct CandidateMatch {
    pub turn: i32,
    pub score: Binary32,
    pub match_fraction: Binary32,
}

/// The sine and cosine of a turn.
#[derive(Clone, Copy, Debug, PartialEq, Eq, Structural)]
pub struct Turn {
    pub sin: Binary32,
    pub cos: Binary32,
}

/// The arrow, and the turns from minus to plus [`FARTHEST`] half degrees.
pub struct DirectionDetector {
    pub points: Vec<TemplatePoint>,
    pub base_heading_rad: Binary32,
    pub turns: Vec<Turn>,
}

/// A turn of so many half degrees, in radians.
pub open spec fn radians(turn: int) -> Binary32 {
    convert::of_int(turn).times(Binary32::half()).times(Binary32::of_bits(RADIANS_PER_DEGREE))
}

/// A turn of so many half degrees, in radians.
pub fn turn_radians(turn: i32) -> (r: Binary32)
    ensures
        r == radians(turn as int),
{
    Binary32::of_i32(turn).times(Binary32::half()).times(Binary32::of_bits(RADIANS_PER_DEGREE))
}

/// How colourful a colour is.
pub open spec fn saturation(r: u8, g: u8, b: u8) -> Binary32 {
    let most = if r >= g && r >= b {
        r
    } else if g >= b {
        g
    } else {
        b
    };
    let least = if r <= g && r <= b {
        r
    } else if g <= b {
        g
    } else {
        b
    };
    let max_c = convert::of_int(most as int);
    if max_c.le(Binary32::one()) {
        Binary32::zero()
    } else {
        max_c.minus(convert::of_int(least as int)).over(max_c)
    }
}

/// How colourful a colour is, from 0 for grey to 1.
pub fn rgb_saturation(r: u8, g: u8, b: u8) -> (s: Binary32)
    ensures
        s == saturation(r, g, b),
{
    let most: u8 = if r >= g && r >= b {
        r
    } else if g >= b {
        g
    } else {
        b
    };
    let least: u8 = if r <= g && r <= b {
        r
    } else if g <= b {
        g
    } else {
        b
    };
    let max_c: Binary32 = Binary32::of_u32(most as u32);
    if max_c.le(Binary32::one()) {
        Binary32::zero()
    } else {
        max_c.minus(Binary32::of_u32(least as u32)).over(max_c)
    }
}

/// The `i`th pixel of the arrow's picture as a point of the arrow, if it
/// counts.
pub open spec fn point_of(data: Seq<u8>, w: int, h: int, i: int) -> Option<TemplatePoint> {
    let alpha = data[4 * i + 3];
    let opaque = convert::of_int(alpha as int).over(Binary32::of_bits(BYTE_MAX));
    if alpha < ALPHA_MIN {
        None
    } else {
        Some(
            TemplatePoint {
                dx: pixels::off_middle(i % w, w),
                dy: pixels::off_middle(i / w, h),
                red: convert::of_int(data[4 * i] as int),
                green: convert::of_int(data[4 * i + 1] as int),
                blue: convert::of_int(data[4 * i + 2] as int),
                weight: opaque.times(
                    Binary32::of_bits(WEIGHT_BASE).plus(
                        saturation(data[4 * i], data[4 * i + 1], data[4 * i + 2]).times(
                            Binary32::of_bits(WEIGHT_COLOUR),
                        ),
                    ),
                ),
            },
        )
    }
}

/// The points among the first `n` pixels.
pub open spec fn points_of(data: Seq<u8>, w: int, h: int, n: int) -> Seq<TemplatePoint>
    decreases n,
{
    if n <= 0 {
        Seq::empty()
    } else {
        match point_of(data, w, h, n - 1) {
            None => points_of(data, w, h, n - 1),
            Some(p) => points_of(data, w, h, n - 1).push(p),
        }
    }
}

/// The points of the arrow in its picture, row by row.
pub fn collect_template_points(template: &Rgba8) -> (r: Vec<TemplatePoint>)
    requires
        template.wf(),
    ensures
        r@ == points_of(
            template.data@,
            template.width as int,
            template.height as int,
            template.width * template.height,
        ),
{
    let w: u32 = template.width;
    let h: u32 = template.height;
    let cx: Binary32 = pixels::middle(w);
    let cy: Binary32 = pixels::middle(h);
    let ghost data = template.data@;
    let mut points: Vec<TemplatePoint> = Vec::new();
    assert(template.data@.len() == template.data.len());
    let n: usize = template.data.len() / 4;
    let mut i: usize = 0;
    while i < n
        invariant
            data == template.data@,
            data.len() == 4 * n,
            data.len() <= usize::MAX,
            n == w * h,
            0 <= i <= n,
            cx == pixels::middle_of(w as int),
            cy == pixels::middle_of(h as int),
            points@ == points_of(data, w as int, h as int, i as int),
        decreases n - i,
    {
        let alpha: u8 = template.data[4 * i + 3];
        if alpha >= ALPHA_MIN {
            let r: u8 = template.data[4 * i];
            let g: u8 = template.data[4 * i + 1];
            let b: u8 = template.data[4 * i + 2];
            let (x, y) = pixels::place(i, w, h);
            let opaque: Binary32 = Binary32::of_u32(alpha as u32).over(Binary32::of_bits(BYTE_MAX));
            let colourful: Binary32 = rgb_saturation(r, g, b).times(
                Binary32::of_bits(WEIGHT_COLOUR),
            );
            points.push(
                TemplatePoint {
                    dx: Binary32::of_u32(x).minus(cx),
                    dy: Binary32::of_u32(y).minus(cy),
                    red: Binary32::of_u32(r as u32),
                    green: Binary32::of_u32(g as u32),
                    blue: Binary32::of_u32(b as u32),
                    weight: opaque.times(Binary32::of_bits(WEIGHT_BASE).plus(colourful)),
                },
            );
        }
        i = i + 1;
    }
    points
}

/// The places, from the middle, of the solid pixels among the first `n`.
pub open spec fn solid(data: Seq<u8>, w: int, h: int, n: int) -> Seq<(Binary32, Binary32)>
    decreases n,
{
    if n <= 0 {
        Seq::empty()
    } else if data[4 * (n - 1) + 3] < SOLID_MIN {
        solid(data, w, h, n - 1)
    } else {
        solid(data, w, h, n - 1).push(
            (pixels::off_middle((n - 1) % w, w), pixels::off_middle((n - 1) / w, h)),
        )
    }
}

/// The weighted sums of the places of the solid pixels among the first `n`, and
/// the sum of their weights.
pub open spec fn gathered(data: Seq<u8>, w: int, h: int, n: int) -> (
    Binary32,
    Binary32,
    Binary32,
)
    decreases n,
{
    if n <= 0 {
        (Binary32::zero(), Binary32::zero(), Binary32::zero())
    } else {
        let before = gathered(data, w, h, n - 1);
        let alpha = data[4 * (n - 1) + 3];
        let weight = convert::of_int(alpha as int).over(Binary32::of_bits(BYTE_MAX));
        if alpha < SOLID_MIN {
            before
        } else {
            (
                before.0.plus(pixels::off_middle((n - 1) % w, w).times(weight)),
                before.1.plus(pixels::off_middle((n - 1) / w, h).times(weight)),
                before.2.plus(weight),
            )
        }
    }
}

/// The offset from `(cx, cy)` of the farthest of the first `n` places, the
/// first of equally far ones, and its squared distance.
pub open spec fn farthest(
    places: Seq<(Binary32, Binary32)>,
    cx: Binary32,
    cy: Binary32,
    n: int,
) -> (Binary32, Binary32, Binary32)
    decreases n,
{
    if n <= 0 {
        (Binary32::one(), Binary32::zero(), Binary32::one().negated())
    } else {
        let before = farthest(places, cx, cy, n - 1);
        let dx = places[n - 1].0.minus(cx);
        let dy = places[n - 1].1.minus(cy);
        let d2 = dx.times(dx).plus(dy.times(dy));
        if d2.gt(before.2) {
            (dx, dy, d2)
        } else {
            before
        }
    }
}

/// The direction from the middle of the arrow's weight to its tip, if there is
/// any weight.
pub open spec fn axis_of(data: Seq<u8>, w: int, h: int) -> Option<(Binary32, Binary32)> {
    let sums = gathered(data, w, h, w * h);
    let places = solid(data, w, h, w * h);
    if sums.2.le(Binary32::zero()) || places.len() == 0 {
        None
    } else {
        let tip = farthest(
            places,
            sums.0.over(sums.2),
            sums.1.over(sums.2),
            places.len() as int,
        );
        Some((tip.0, tip.1))
    }
}

/// The direction in which the arrow points in its own picture, by its two
/// coordinates.
pub fn template_axis(template: &Rgba8) -> (r: Option<(Binary32, Binary32)>)
    requires
        template.wf(),
    ensures
        r == axis_of(template.data@, template.width as int, template.height as int),
{
    let w: u32 = template.width;
    let h: u32 = template.height;
    let cx: Binary32 = pixels::middle(w);
    let cy: Binary32 = pixels::middle(h);
    let ghost data = template.data@;
    let mut centroid_x: Binary32 = Binary32::zero();
    let mut centroid_y: Binary32 = Binary32::zero();
    let mut total_weight: Binary32 = Binary32::zero();
    let mut samples: Vec<(Binary32, Binary32)> = Vec::new();
    assert(template.data@.len() == template.data.len());
    let n: usize = template.data.len() / 4;
    let mut i: usize = 0;
    while i < n
        invariant
            data == template.data@,
            data.len() == 4 * n,
            data.len() <= usize::MAX,
            n == w * h,
            0 <= i <= n,
            cx == pixels::middle_of(w as int),
            cy == pixels::middle_of(h as int),
            samples@ == solid(data, w as int, h as int, i as int),
            (centroid_x, centroid_y, total_weight) == gathered(
                data,
                w as int,
                h as int,
                i as int,
            ),
        decreases n - i,
    {
        let alpha: u8 = template.data[4 * i + 3];
        if alpha >= SOLID_MIN {
            let (x, y) = pixels::place(i, w, h);
            let rx: Binary32 = Binary32::of_u32(x).minus(cx);
            let ry: Binary32 = Binary32::of_u32(y).minus(cy);
            let weight: Binary32 = Binary32::of_u32(alpha as u32).over(Binary32::of_bits(BYTE_MAX));
            centroid_x = centroid_x.plus(rx.times(weight));
            centroid_y = centroid_y.plus(ry.times(weight));
            total_weight = total_weight.plus(weight);
            samples.push((rx, ry));
        }
        i = i + 1;
    }
    if total_weight.le(Binary32::zero()) || samples.len() == 0 {
        return None;
    }
    let mx: Binary32 = centroid_x.over(total_weight);
    let my: Binary32 = centroid_y.over(total_weight);
    let mut best: (Binary32, Binary32) = (Binary32::one(), Binary32::zero());
    let mut best_d2: Binary32 = Binary32::one().negated();
    let mut k: usize = 0;
    while k < samples.len()
        invariant
            0 <= k <= samples@.len(),
            (best.0, best.1, best_d2) == farthest(samples@, mx, my, k as int),
        decreases samples@.len() - k,
    {
        let dx: Binary32 = samples[k].0.minus(mx);
        let dy: Binary32 = samples[k].1.minus(my);
        let d2: Binary32 = dx.times(dx).plus(dy.times(dy));
        if d2.gt(best_d2) {
            best = (dx, dy);
            best_d2 = d2;
        }
        k = k + 1;
    }
    Some(best)
}

/// One colour between four pixels, `tx` of the way across and `ty` of the way
/// down.
pub open spec fn between(
    p00: u8,
    p10: u8,
    p01: u8,
    p11: u8,
    tx: Binary32,
    ty: Binary32,
) -> Binary32 {
    let one = Binary32::one();
    let upper = convert::of_int(p00 as int).times(one.minus(tx)).plus(
        convert::of_int(p10 as int).times(tx),
    );
    let lower = convert::of_int(p01 as int).times(one.minus(tx)).plus(
        convert::of_int(p11 as int).times(tx),
    );
    upper.times(one.minus(ty)).plus(lower.times(ty))
}

/// The next place, but not past the last of `n`.
pub open spec fn next_within(k: int, n: int) -> int {
    if k + 1 < n - 1 {
        k + 1
    } else {
        n - 1
    }
}

/// One colour of a picture at a place between its pixels.
pub open spec fn colour_at(frame: Colours, x: Binary32, y: Binary32, c: int) -> Binary32 {
    let x0 = x.floor().to_u32() as int;
    let y0 = y.floor().to_u32() as int;
    let x1 = next_within(x0, frame.width);
    let y1 = next_within(y0, frame.height);
    between(
        frame.channel(x0, y0, c),
        frame.channel(x1, y0, c),
        frame.channel(x0, y1, c),
        frame.channel(x1, y1, c),
        x.minus(convert::of_int(x0)),
        y.minus(convert::of_int(y0)),
    )
}

/// The colours of a picture at a place between its pixels, if the place lies in
/// it.
pub open spec fn sampled(frame: Colours, x: Binary32, y: Binary32) -> Option<
    (Binary32, Binary32, Binary32),
> {
    if frame.width == 0 || frame.height == 0 {
        None
    } else if x.lt(Binary32::zero()) || y.lt(Binary32::zero()) || x.gt(
        convert::of_int(frame.width - 1),
    ) || y.gt(convert::of_int(frame.height - 1)) {
        None
    } else {
        Some(
            (colour_at(frame, x, y, 0), colour_at(frame, x, y, 1), colour_at(frame, x, y, 2)),
        )
    }
}

/// A picture whose places single precision tells apart.
pub open spec fn searchable(frame: &Rgb8) -> bool {
    frame.wf() && frame.width <= 0x100_0000 && frame.height <= 0x100_0000
}

fn blend(
    frame: &Rgb8,
    x0: u32,
    y0: u32,
    x1: u32,
    y1: u32,
    tx: Binary32,
    ty: Binary32,
    c: usize,
) -> (r: Binary32)
    requires
        frame.wf(),
        x0 < frame.width,
        x1 < frame.width,
        y0 < frame.height,
        y1 < frame.height,
        c < 3,
    ensures
        r == between(
            frame@.channel(x0 as int, y0 as int, c as int),
            frame@.channel(x1 as int, y0 as int, c as int),
            frame@.channel(x0 as int, y1 as int, c as int),
            frame@.channel(x1 as int, y1 as int, c as int),
            tx,
            ty,
        ),
{
    let one: Binary32 = Binary32::one();
    let p00: Binary32 = Binary32::of_u32(frame.channel_at(x0, y0, c) as u32);
    let p10: Binary32 = Binary32::of_u32(frame.channel_at(x1, y0, c) as u32);
    let p01: Binary32 = Binary32::of_u32(frame.channel_at(x0, y1, c) as u32);
    let p11: Binary32 = Binary32::of_u32(frame.channel_at(x1, y1, c) as u32);
    let upper: Binary32 = p00.times(one.minus(tx)).plus(p10.times(tx));
    let lower: Binary32 = p01.times(one.minus(tx)).plus(p11.times(tx));
    upper.times(one.minus(ty)).plus(lower.times(ty))
}

/// The colours of a picture at a place between its pixels.
pub fn sample_rgb(frame: &Rgb8, x: Binary32, y: Binary32) -> (r: Option<
    (Binary32, Binary32, Binary32),
>)
    requires
        searchable(frame),
    ensures
        r == sampled(frame@, x, y),
{
    if frame.width == 0 || frame.height == 0 {
        return None;
    }
    if x.lt(Binary32::zero()) || y.lt(Binary32::zero()) {
        return None;
    }
    let last_x: u32 = frame.width - 1;
    let last_y: u32 = frame.height - 1;
    if x.gt(Binary32::of_u32(last_x)) || y.gt(Binary32::of_u32(last_y)) {
        return None;
    }
    proof {
        exact::lemma_floor_within(x, last_x as int);
        exact::lemma_floor_within(y, last_y as int);
    }
    let x0: u32 = x.floor().to_u32();
    let y0: u32 = y.floor().to_u32();
    let x1: u32 = if x0 + 1 < last_x {
        x0 + 1
    } else {
        last_x
    };
    let y1: u32 = if y0 + 1 < last_y {
        y0 + 1
    } else {
        last_y
    };
    let tx: Binary32 = x.minus(Binary32::of_u32(x0));
    let ty: Binary32 = y.minus(Binary32::of_u32(y0));
    Some(
        (
            blend(frame, x0, y0, x1, y1, tx, ty, 0),
            blend(frame, x0, y0, x1, y1, tx, ty, 1),
            blend(frame, x0, y0, x1, y1, tx, ty, 2),
        ),
    )
}

/// Sums over points: of their weights, of their weighted errors, and of the
/// weights of those that fit.
#[derive(Clone, Copy, Debug, PartialEq, Eq, Structural)]
pub struct Sums {
    pub weight: Binary32,
    pub error: Binary32,
    pub matched: Binary32,
}

/// Where a point of the arrow lies when the arrow's middle is at `(ax, ay)` and
/// it is turned.
pub open spec fn turned_place(
    p: TemplatePoint,
    ax: Binary32,
    ay: Binary32,
    sin: Binary32,
    cos: Binary32,
) -> (Binary32, Binary32) {
    (
        ax.plus(cos.times(p.dx)).minus(sin.times(p.dy)),
        ay.plus(sin.times(p.dx)).plus(cos.times(p.dy)),
    )
}

/// How far a colour is from that of a point, from 0 to 1.
pub open spec fn colour_error(
    p: TemplatePoint,
    seen: (Binary32, Binary32, Binary32),
) -> Binary32 {
    let dr = seen.0.minus(p.red);
    let dg = seen.1.minus(p.green);
    let db = seen.2.minus(p.blue);
    dr.times(dr).plus(dg.times(dg)).plus(db.times(db)).over(Binary32::of_bits(COLOUR_SPAN))
}

/// The sums with one more point; one outside the picture is all error.
pub open spec fn with_point(
    before: Sums,
    p: TemplatePoint,
    seen: Option<(Binary32, Binary32, Binary32)>,
) -> Sums {
    match seen {
        None => Sums {
            weight: before.weight.plus(p.weight),
            error: before.error.plus(p.weight),
            matched: before.matched,
        },
        Some(rgb) => {
            let err = colour_error(p, rgb);
            Sums {
                weight: before.weight.plus(p.weight),
                error: before.error.plus(p.weight.times(err)),
                matched: if err.le(Binary32::of_bits(MATCH_PIXEL_MAX_ERR)) {
                    before.matched.plus(p.weight)
                } else {
                    before.matched
                },
            }
        },
    }
}

/// The sums over the first `n` points.
pub open spec fn sums_of(
    points: Seq<TemplatePoint>,
    frame: Colours,
    ax: Binary32,
    ay: Binary32,
    sin: Binary32,
    cos: Binary32,
    n: int,
) -> Sums
    decreases n,
{
    if n <= 0 {
        Sums { weight: Binary32::zero(), error: Binary32::zero(), matched: Binary32::zero() }
    } else {
        let p = points[n - 1];
        let at = turned_place(p, ax, ay, sin, cos);
        with_point(
            sums_of(points, frame, ax, ay, sin, cos, n - 1),
            p,
            sampled(frame, at.0, at.1),
        )
    }
}

/// The mean error and the share of the weight that fits.
pub open spec fn score_of(sums: Sums) -> (Binary32, Binary32) {
    if sums.weight.gt(Binary32::zero()) {
        (sums.error.over(sums.weight), sums.matched.over(sums.weight))
    } else {
        (Binary32::of_bits(NO_SCORE), Binary32::zero())
    }
}

impl DirectionDetector {
    pub open spec fn wf(&self) -> bool {
        self.turns@.len() == 2 * FARTHEST + 1
    }

    /// The arrow in a picture. `arc` is the angle of its axis, and `turns` are
    /// the sines and cosines of the turns in half degrees. A picture with too
    /// few pixels is refused by its path.
    pub fn load(template: &Rgba8, path: &str, arc: Binary32, turns: Vec<Turn>) -> (r: Result<
        DirectionDetector,
        String,
    >)
        requires
            template.wf(),
            turns@.len() == 2 * FARTHEST + 1,
        ensures
            ({
                let points = points_of(
                    template.data@,
                    template.width as int,
                    template.height as int,
                    template.width * template.height,
                );
                match r {
                    Err(e) => points.len() < POINTS_MIN && e@ == "方向模板有效像素过少: "@ + path@,
                    Ok(d) => {
                        &&& points.len() >= POINTS_MIN
                        &&& d.wf()
                        &&& d.points@ == points
                        &&& d.turns@ == turns@
                        &&& d.base_heading_rad == if axis_of(
                            template.data@,
                            template.width as int,
                            template.height as int,
                        ) is None {
                            Binary32::zero()
                        } else {
                            arc
                        }
                    },
                }
            }),
    {
        let points: Vec<TemplatePoint> = collect_template_points(template);
        if points.len() < POINTS_MIN {
            let mut e: String = "方向模板有效像素过少: ".to_owned();
            e.append(path);
            return Err(e);
        }
        let base_heading_rad: Binary32 = match template_axis(template) {
            None => Binary32::zero(),
            Some(_) => arc,
        };
        Ok(DirectionDetector { points, base_heading_rad, turns })
    }

    /// The error and the share that fits at a turn in half degrees.
    pub open spec fn tried(&self, frame: Colours, ax: Binary32, ay: Binary32, turn: int) -> (
        Binary32,
        Binary32,
    ) {
        let t = self.turns@[turn + FARTHEST];
        score_of(
            sums_of(self.points@, frame, ax, ay, t.sin, t.cos, self.points@.len() as int),
        )
    }

    /// The error and the share that fits with the arrow's middle at
    /// `(ax, ay)`, at a turn with the given sine and cosine.
    pub fn score_at(
        &self,
        frame: &Rgb8,
        ax: Binary32,
        ay: Binary32,
        sin: Binary32,
        cos: Binary32,
    ) -> (r: (Binary32, Binary32))
        requires
            searchable(frame),
        ensures
            r == score_of(
                sums_of(self.points@, frame@, ax, ay, sin, cos, self.points@.len() as int),
            ),
    {
        let mut sums: Sums = Sums {
            weight: Binary32::zero(),
            error: Binary32::zero(),
            matched: Binary32::zero(),
        };
        let mut i: usize = 0;
        while i < self.points.len()
            invariant
                searchable(frame),
                0 <= i <= self.points@.len(),
                sums == sums_of(self.points@, frame@, ax, ay, sin, cos, i as int),
            decreases self.points@.len() - i,
        {
            let p: TemplatePoint = self.points[i];
            let x: Binary32 = ax.plus(cos.times(p.dx)).minus(sin.times(p.dy));
            let y: Binary32 = ay.plus(sin.times(p.dx)).plus(cos.times(p.dy));
            match sample_rgb(frame, x, y) {
                None => {
                    sums.weight = sums.weight.plus(p.weight);
                    sums.error = sums.error.plus(p.weight);
                },
                Some((red, green, blue)) => {
                    let dr: Binary32 = red.minus(p.red);
                    let dg: Binary32 = green.minus(p.green);
                    let db: Binary32 = blue.minus(p.blue);
                    let err: Binary32 = dr.times(dr).plus(dg.times(dg)).plus(db.times(db)).over(
                        Binary32::of_bits(COLOUR_SPAN),
                    );
                    sums.weight = sums.weight.plus(p.weight);
                    sums.error = sums.error.plus(p.weight.times(err));
                    if err.le(Binary32::of_bits(MATCH_PIXEL_MAX_ERR)) {
                        sums.matched = sums.matched.plus(p.weight);
                    }
                },
            }
            i = i + 1;
        }
        if sums.weight.gt(Binary32::zero()) {
            (sums.error.over(sums.weight), sums.matched.over(sums.weight))
        } else {
            (Binary32::of_bits(NO_SCORE), Binary32::zero())
        }
    }

    /// The first of the turns with the least error among `n` turns from
    /// `start`, `step` half degrees apart.
    pub open spec fn best_turn(
        &self,
        frame: Colours,
        ax: Binary32,
        ay: Binary32,
        start: int,
        step: int,
        n: int,
    ) -> CandidateMatch
        decreases n,
    {
        if n <= 0 {
            CandidateMatch {
                turn: start as i32,
                score: Binary32::of_bits(NO_SCORE),
                match_fraction: Binary32::zero(),
            }
        } else {
            let before = self.best_turn(frame, ax, ay, start, step, n - 1);
            let turn = start + (n - 1) * step;
            let here = self.tried(frame, ax, ay, turn);
            if here.0.lt(before.score) {
                CandidateMatch { turn: turn as i32, score: here.0, match_fraction: here.1 }
            } else {
                before
            }
        }
    }

    /// The best of the turns from `start` to `end`, `step` half degrees apart.
    pub fn search_angles(
        &self,
        frame: &Rgb8,
        ax: Binary32,
        ay: Binary32,
        start: i32,
        end: i32,
        step: i32,
    ) -> (r: CandidateMatch)
        requires
            self.wf(),
            searchable(frame),
            -FARTHEST <= start <= end <= FARTHEST,
            0 < step <= FARTHEST,
        ensures
            r == self.best_turn(
                frame@,
                ax,
                ay,
                start as int,
                step as int,
                (end - start) / (step as int) + 1,
            ),
            start <= r.turn <= end,
    {
        let mut best: CandidateMatch = CandidateMatch {
            turn: start,
            score: Binary32::of_bits(NO_SCORE),
            match_fraction: Binary32::zero(),
        };
        let mut turn: i32 = start;
        let ghost mut n: int = 0;
        while turn <= end
            invariant
                self.wf(),
                searchable(frame),
                -FARTHEST <= start <= end <= FARTHEST,
                0 < step <= FARTHEST,
                turn == start + n * step,
                n >= 0,
                start <= turn < end + step + 1,
                best == self.best_turn(frame@, ax, ay, start as int, step as int, n),
                start <= best.turn <= end,
            decreases end + step - turn,
        {
            let t: Turn = self.turns[(turn + FARTHEST) as usize];
            let (score, match_fraction) = self.score_at(frame, ax, ay, t.sin, t.cos);
            if score.lt(best.score) {
                best = CandidateMatch { turn, score, match_fraction };
            }
            proof {
                assert((n + 1) * step == n * step + step) by (nonlinear_arith);
                n = n + 1;
            }
            turn = turn + step;
        }
        proof {
            let past = end - (turn - step);
            assert(end - start == (n - 1) * step + past) by (nonlinear_arith)
                requires
                    turn == start + n * step,
                    past == end - (turn - step),
            ;
            vstd::arithmetic::div_mod::lemma_fundamental_div_mod_converse(
                end - start,
                step as int,
                n - 1,
                past,
            );
        }
        best
    }

    /// The best turn with the arrow's middle at `(ax, ay)`: over a full turn,
    /// then around the best, then around that.
    pub open spec fn best_at(&self, frame: Colours, ax: Binary32, ay: Binary32) -> CandidateMatch {
        let coarse = self.best_turn(frame, ax, ay, -HALF_TURN, COARSE_STEP as int, 37);
        let medium = self.best_turn(
            frame,
            ax,
            ay,
            coarse.turn - MEDIUM_WINDOW,
            MEDIUM_STEP as int,
            11,
        );
        self.best_turn(frame, ax, ay, medium.turn - FINE_WINDOW, FINE_STEP as int, 9)
    }

    /// The best turn with the arrow's middle at `(ax, ay)`.
    fn search_turns(&self, frame: &Rgb8, ax: Binary32, ay: Binary32) -> (r: CandidateMatch)
        requires
            self.wf(),
            searchable(frame),
        ensures
            r == self.best_at(frame@, ax, ay),
            -FARTHEST <= r.turn <= FARTHEST,
    {
        let coarse: CandidateMatch = self.search_angles(
            frame,
            ax,
            ay,
            -HALF_TURN,
            HALF_TURN,
            COARSE_STEP,
        );
        let medium: CandidateMatch = self.search_angles(
            frame,
            ax,
            ay,
            coarse.turn - MEDIUM_WINDOW,
            coarse.turn + MEDIUM_WINDOW,
            MEDIUM_STEP,
        );
        self.search_angles(
            frame,
            ax,
            ay,
            medium.turn - FINE_WINDOW,
            medium.turn + FINE_WINDOW,
            FINE_STEP,
        )
    }

    /// The best turn over the first `n` places for the arrow's middle, row by
    /// row in the square around that of the picture.
    pub open spec fn best_over(&self, frame: Colours, n: int) -> Option<CandidateMatch>
        decreases n,
    {
        if n <= 0 {
            None
        } else {
            let before = self.best_over(frame, n - 1);
            let ox = (n - 1) % 9 - SEARCH_RADIUS;
            let oy = (n - 1) / 9 - SEARCH_RADIUS;
            let here = self.best_at(
                frame,
                pixels::middle_of(frame.width).plus(convert::of_int(ox)),
                pixels::middle_of(frame.height).plus(convert::of_int(oy)),
            );
            match before {
                Some(b) if !here.score.lt(b.score) => before,
                _ => Some(here),
            }
        }
    }

    /// The heading that a picture shows.
    pub open spec fn heading_in(&self, frame: Colours) -> Option<DirectionMatch> {
        match self.best_over(frame, 81) {
            None => None,
            Some(best) => self.judged(best),
        }
    }

    /// The heading of a turn, unless its error is too large or too little fits.
    pub open spec fn judged(&self, best: CandidateMatch) -> Option<DirectionMatch> {
        if self.points@.len() == 0 || best.score.gt(Binary32::of_bits(MATCH_SCORE_MAX))
            || best.match_fraction.lt(Binary32::of_bits(MATCH_FRACTION_MIN)) {
            None
        } else {
            Some(
                DirectionMatch {
                    heading_rad: angle::lowered(
                        angle::raised(
                            self.base_heading_rad.plus(radians(best.turn as int)),
                        ),
                    ),
                    score: Binary32::one().minus(best.score).clamp(
                        Binary32::zero(),
                        Binary32::one(),
                    ),
                },
            )
        }
    }

    /// The heading of the arrow in the middle of a picture.
    #[verifier::rlimit(60)]
    #[verifier::spinoff_prover]
    pub fn detect(&self, frame: &Rgb8) -> (r: Option<DirectionMatch>)
        requires
            self.wf(),
            searchable(frame),
        ensures
            r == self.heading_in(frame@),
    {
        if self.points.len() == 0 {
            return None;
        }
        let cx: Binary32 = pixels::middle(frame.width);
        let cy: Binary32 = pixels::middle(frame.height);
        let mut best: Option<CandidateMatch> = None;
        let mut k: i32 = 0;
        while k < 81
            invariant
                self.wf(),
                searchable(frame),
                0 <= k <= 81,
                cx == pixels::middle_of(frame.width as int),
                cy == pixels::middle_of(frame.height as int),
                best == self.best_over(frame@, k as int),
                best matches Some(b) ==> -FARTHEST <= b.turn <= FARTHEST,
                k > 0 ==> best is Some,
            decreases 81 - k,
        {
            let ax: Binary32 = cx.plus(Binary32::of_i32(k % 9 - SEARCH_RADIUS));
            let ay: Binary32 = cy.plus(Binary32::of_i32(k / 9 - SEARCH_RADIUS));
            let fine: CandidateMatch = self.search_turns(frame, ax, ay);
            let replaces: bool = match best {
                None => true,
                Some(b) => fine.score.lt(b.score),
            };
            if replaces {
                best = Some(fine);
            }
            k = k + 1;
        }
        match best {
            None => None,
            Some(b) => self.judge(b),
        }
    }

    /// The heading of a turn, unless its error is too large or too little fits.
    pub fn judge(&self, best: CandidateMatch) -> (r: Option<DirectionMatch>)
        ensures
            r == self.judged(best),
    {
        if self.points.len() == 0 || best.score.gt(Binary32::of_bits(MATCH_SCORE_MAX))
            || best.match_fraction.lt(Binary32::of_bits(MATCH_FRACTION_MIN)) {
            return None;
        }
        Some(
            DirectionMatch {
                heading_rad: angle::wrap_by_turns(
                    self.base_heading_rad.plus(turn_radians(best.turn)),
                ),
                score: Binary32::one().minus(best.score).clamp(Binary32::zero(), Binary32::one()),
            },
        )
    }
}

/// No turn of a pass has a smaller error than the one it gives, and every
/// earlier turn that is not a NaN has a larger one.
pub proof fn a_pass_gives_the_first_of_the_least_errors(
    d: &DirectionDetector,
    frame: Colours,
    ax: Binary32,
    ay: Binary32,
    start: int,
    step: int,
    n: int,
)
    requires
        0 <= n,
        step > 0,
        i32::MIN <= start,
        start + n * step <= i32::MAX,
    ensures
        ({
            let best = d.best_turn(frame, ax, ay, start, step, n);
            &&& !best.score.is_nan_spec()
            &&& forall|i: int|
                0 <= i < n ==> !(#[trigger] d.tried(frame, ax, ay, start + i * step)).0.lt(
                    best.score,
                )
            &&& forall|i: int|
                0 <= i < n && start + i * step < best.turn ==> !(#[trigger] d.tried(
                    frame,
                    ax,
                    ay,
                    start + i * step,
                )).0.le(best.score)
        }),
    decreases n,
{
    if n > 0 {
        assert((n - 1) * step == n * step - step) by (nonlinear_arith);
        a_pass_gives_the_first_of_the_least_errors(d, frame, ax, ay, start, step, n - 1);
        let before = d.best_turn(frame, ax, ay, start, step, n - 1);
        let best = d.best_turn(frame, ax, ay, start, step, n);
        let turn = start + (n - 1) * step;
        assert(0 <= (n - 1) * step) by (nonlinear_arith)
            requires
                n >= 1,
                step > 0,
        ;
        lemma_turn_in_pass(d, frame, ax, ay, start, step, n - 1);
        assert forall|i: int| 0 <= i < n implies !(#[trigger] d.tried(
            frame,
            ax,
            ay,
            start + i * step,
        )).0.lt(best.score) by {
            if i < n - 1 {
                assert(!d.tried(frame, ax, ay, start + i * step).0.lt(before.score));
            }
        }
        assert forall|i: int| 0 <= i < n && start + i * step < best.turn implies !(
        #[trigger] d.tried(frame, ax, ay, start + i * step)).0.le(best.score) by {
            if i < n - 1 {
                assert(!d.tried(frame, ax, ay, start + i * step).0.lt(before.score));
            } else {
                assert((n - 2) * step == (n - 1) * step - step) by (nonlinear_arith);
                assert(i == n - 1);
                assert(start + i * step == turn);
            }
        }
    }
}

/// The turn that a pass gives is one of the pass, or its first.
pub proof fn lemma_turn_in_pass(
    d: &DirectionDetector,
    frame: Colours,
    ax: Binary32,
    ay: Binary32,
    start: int,
    step: int,
    n: int,
)
    requires
        0 <= n,
        step > 0,
        i32::MIN <= start,
        start + n * step <= i32::MAX,
    ensures
        ({
            let best = d.best_turn(frame, ax, ay, start, step, n);
            start <= best.turn && (n > 0 ==> best.turn <= start + (n - 1) * step) && (n == 0
                ==> best.turn == start)
        }),
    decreases n,
{
    if n > 0 {
        assert((n - 1) * step == n * step - step) by (nonlinear_arith);
        assert((n - 2) * step == (n - 1) * step - step) by (nonlinear_arith);
        assert(0 <= (n - 1) * step) by (nonlinear_arith)
            requires
                n >= 1,
                step > 0,
        ;
        lemma_turn_in_pass(d, frame, ax, ay, start, step, n - 1);
    } else {
        assert(n * step == 0) by (nonlinear_arith)
            requires
                n == 0,
        ;
    }
}

/// A number times one of at most one is no larger.
proof fn lemma_no_larger(a: Binary32, b: Binary32)
    requires
        a.is_finite_spec(),
        b.magnitude() <= 0x3f80_0000,
    ensures
        a.times(b).magnitude() <= a.magnitude(),
        a.times(b).is_finite_spec(),
{
    reveal(Binary32::times_spec);
    let one = pow2(149) as int;
    let ua = pattern::units(a.magnitude());
    let ub = pattern::units(b.magnitude());
    lemma_pow2_pos(149);
    exact::lemma_one_and_half();
    arith::lemma_zero_magnitude(a.magnitude());
    arith::lemma_zero_magnitude(b.magnitude());
    if b.magnitude() < 0x3f80_0000 {
        pattern::lemma_units_increase(b.magnitude(), 0x3f80_0000);
    }
    assert(0 <= ua * ub <= ua * one) by (nonlinear_arith)
        requires
            0 <= ua,
            0 <= ub <= one,
    ;
    exact::lemma_nearest_keeps_order(ua * ub, one, a.magnitude());
    exact::lemma_nearest_total(ua * ub, one);
}

/// A turn that any pass can reach is at most 512 radians.
proof fn lemma_radians(turn: int)
    requires
        -FARTHEST <= turn <= FARTHEST,
    ensures
        radians(turn).magnitude() <= 0x4400_0000,
{
    let one = pow2(149) as int;
    let n = if turn < 0 {
        -turn
    } else {
        turn
    };
    lemma_pow2_pos(149);
    lemma2_to64();
    lemma_pow2_adds(9, 149);
    lemma_pow2_adds(23, 135);
    assert(pattern::units(0x4400_0000) == pow2(158));
    assert(0 <= n * one <= pow2(158)) by (nonlinear_arith)
        requires
            0 <= n <= 512,
            one > 0,
            pow2(158) == 512 * one,
    ;
    exact::lemma_nearest_keeps_order(n * one, 1, 0x4400_0000);
    exact::lemma_nearest_total(n * one, 1);
    let k = convert::of_int(turn);
    assert(k.magnitude() <= 0x4400_0000);
    lemma_no_larger(k, Binary32::half());
    lemma_no_larger(k.times(Binary32::half()), Binary32::of_bits(RADIANS_PER_DEGREE));
}

/// The best turn at a place is one that the passes reach, and its error is a
/// number.
pub proof fn lemma_best_at(d: &DirectionDetector, frame: Colours, ax: Binary32, ay: Binary32)
    ensures
        -FARTHEST <= d.best_at(frame, ax, ay).turn <= FARTHEST,
        !d.best_at(frame, ax, ay).score.is_nan_spec(),
{
    let coarse = d.best_turn(frame, ax, ay, -HALF_TURN, COARSE_STEP as int, 37);
    lemma_turn_in_pass(d, frame, ax, ay, -HALF_TURN, COARSE_STEP as int, 37);
    let second = coarse.turn - MEDIUM_WINDOW;
    let medium = d.best_turn(frame, ax, ay, second, MEDIUM_STEP as int, 11);
    lemma_turn_in_pass(d, frame, ax, ay, second, MEDIUM_STEP as int, 11);
    let third = medium.turn - FINE_WINDOW;
    lemma_turn_in_pass(d, frame, ax, ay, third, FINE_STEP as int, 9);
    a_pass_gives_the_first_of_the_least_errors(d, frame, ax, ay, third, FINE_STEP as int, 9);
}

/// The best turn over some places is one that the passes reach, and its error
/// is a number.
pub proof fn lemma_best_over(d: &DirectionDetector, frame: Colours, n: int)
    ensures
        d.best_over(frame, n) matches Some(b) ==> -FARTHEST <= b.turn <= FARTHEST
            && !b.score.is_nan_spec(),
    decreases n,
{
    if n > 0 {
        lemma_best_over(d, frame, n - 1);
        let ox = (n - 1) % 9 - SEARCH_RADIUS;
        let oy = (n - 1) / 9 - SEARCH_RADIUS;
        lemma_best_at(
            d,
            frame,
            pixels::middle_of(frame.width).plus(convert::of_int(ox)),
            pixels::middle_of(frame.height).plus(convert::of_int(oy)),
        );
    }
}

/// A heading that a picture shows lies within half a turn of zero, when the
/// arrow's own heading is at most 2^23 radians.
pub proof fn a_heading_is_within_half_a_turn(d: &DirectionDetector, frame: Colours)
    requires
        d.base_heading_rad.magnitude() <= 0x4b00_0000,
    ensures
        d.heading_in(frame) matches Some(m) ==> angle::is_wrapped(m.heading_rad),
{
    lemma_best_over(d, frame, 81);
    if let Some(best) = d.best_over(frame, 81) {
        lemma_judged_is_wrapped(d, best);
    }
}

proof fn lemma_judged_is_wrapped(d: &DirectionDetector, best: CandidateMatch)
    requires
        d.base_heading_rad.magnitude() <= 0x4b00_0000,
        -FARTHEST <= best.turn <= FARTHEST,
    ensures
        d.judged(best) matches Some(m) ==> angle::is_wrapped(m.heading_rad),
{
    let a = d.base_heading_rad;
    let b = radians(best.turn as int);
    let top = Binary32::of_bits(0x4b80_0000);
    lemma_radians(best.turn as int);
    lemma2_to64();
    lemma_pow2_adds(23, 149);
    lemma_pow2_adds(23, 135);
    lemma_pow2_unfold(150);
    lemma_pow2_pos(149);
    lemma_pow2_adds(14, 135);
    arith::lemma_zero_magnitude(a.magnitude());
    arith::lemma_zero_magnitude(b.magnitude());
    assert(pattern::units(0x4b80_0000) == 0x80_0000 * pow2(150));
    assert(pattern::units(0x4b00_0000) == 0x80_0000 * pow2(149));
    assert(pattern::units(0x4400_0000) == 0x80_0000 * pow2(135));
    if a.magnitude() < 0x4b00_0000 {
        pattern::lemma_units_increase(a.magnitude(), 0x4b00_0000);
    }
    if b.magnitude() < 0x4400_0000 {
        pattern::lemma_units_increase(b.magnitude(), 0x4400_0000);
    }
    exact::lemma_negated(top);
    exact::lemma_plus_keeps_order(a, b, top);
    exact::lemma_plus_keeps_order(a, b, top.negated());
    angle::turns_bring_an_angle_within_half_a_turn(a.plus(b));
}

/// The score of a heading that a picture shows lies between 0 and 1.
pub proof fn a_heading_has_a_score_from_zero_to_one(d: &DirectionDetector, frame: Colours)
    ensures
        d.heading_in(frame) matches Some(m) ==> Binary32::zero().le(m.score) && m.score.le(
            Binary32::one(),
        ),
{
    lemma_best_over(d, frame, 81);
    if let Some(best) = d.best_over(frame, 81) {
        reveal(Binary32::plus_spec);
        exact::lemma_negated(best.score);
        if best.score.is_finite_spec() {
            exact::lemma_plus_keeps_order(
                Binary32::one(),
                best.score.negated(),
                Binary32::zero(),
            );
        }
    }
}

} // verus!
