//! Finding the minimap on the map.
//!
//! The minimap is a piece of the map, north up, with the player's arrow over
//! its middle, so only its place and its scale are unknown. Both come from
//! normalised cross correlation over the ring between the arrow and the black
//! rim: first on a reduced map at several scales, then in a small window at
//! full size.

use vstd::prelude::*;
use vstd::string::*;

use crate::binary32::convert;
use crate::binary32::Binary32;
use crate::config::{LocatingConfig, MatchingConfig, TrackingConfig};
use crate::locator::search::Hit;
use crate::locator::template::Template;
use crate::pixels;
use crate::pixels::{Gray8, Rgb8, Shades};

pub mod correlate;
pub mod found;
pub mod likeness;
pub mod limit;
pub mod near;
pub mod peak;
pub mod ring;
pub mod scale;
pub mod search;
pub mod template;
pub mod unrounded;
pub mod window;

verus! {

/// A place on the map, in its pixels.
#[derive(Clone, Copy, Debug, PartialEq, Eq, Structural)]
pub struct WorldPos {
    pub x: Binary32,
    pub y: Binary32,
    /// The correlation there.
    pub score: Binary32,
    /// Map pixels per minimap pixel.
    pub scale: Binary32,
}

/// What the last attempt came to.
#[derive(Clone, Debug)]
pub struct LocateDebug {
    pub mode: &'static str,
    pub score: Binary32,
    pub scale: Binary32,
    pub ok: bool,
}

impl Default for LocateDebug {
    fn default() -> (r: Self)
        ensures
            r.mode@ == "全局定位"@,
            r.score == Binary32::zero(),
            r.scale == Binary32::zero(),
            !r.ok,
    {
        LocateDebug {
            mode: "全局定位",
            score: Binary32::zero(),
            scale: Binary32::zero(),
            ok: false,
        }
    }
}

impl LocateDebug {
    /// The account in words, with the score and the scale in decimal.
    pub open spec fn in_words(&self, score: Seq<char>, scale: Seq<char>) -> Seq<char> {
        "mode="@ + self.mode@ + " 结果="@ + (if self.ok {
            "成功"@
        } else {
            "失败"@
        }) + " 分数="@ + score + " 尺度="@ + scale
    }

    /// One line for the side panel, with the score and the scale already in
    /// decimal.
    pub fn brief(&self, score: &str, scale: &str) -> (r: String)
        ensures
            r@ == self.in_words(score@, scale@),
    {
        let mut r: String = "mode=".to_owned();
        r.append(self.mode);
        r.append(" 结果=");
        if self.ok {
            r.append("成功");
        } else {
            r.append("失败");
        }
        r.append(" 分数=");
        r.append(score);
        r.append(" 尺度=");
        r.append(scale);
        r
    }

    pub open spec fn is(self, mode: Seq<char>, score: Binary32, scale: Binary32, ok: bool) -> bool {
        self.mode@ == mode && self.score == score && self.scale == scale && self.ok == ok
    }
}

/// The map, reduced for searching, and what is known of the scale.
pub struct MapLocator {
    pub map_gray: Gray8,
    pub coarse: Vec<Binary32>,
    pub coarse_w: u32,
    pub coarse_h: u32,
    /// Map pixels per pixel of the reduced map.
    pub coarse_fx: Binary32,
    pub coarse_fy: Binary32,
    pub matching: MatchingConfig,
    pub locating: LocatingConfig,
    pub tracking: TrackingConfig,
    /// The scale that locating found; 0 while there is none.
    pub locked_scale: Binary32,
    pub last_debug: LocateDebug,
}

/// The size of the reduced map: as wide as asked for, but no less than 200 and
/// no more than the map, and in its proportions.
pub open spec fn coarse_size(w: int, h: int, asked: int) -> (int, int) {
    let cw = if asked < 200 {
        200
    } else if asked > w {
        w
    } else {
        asked
    };
    let ch = (h * cw) / w;
    (
        cw,
        if ch < 1 {
            1
        } else {
            ch
        },
    )
}

/// The size of the reduced map. There is none of a map narrower than the least
/// reduced map, or one that cannot be resampled to it.
pub fn reduced_size(w: u32, h: u32, asked: u32) -> (r: Option<(u32, u32)>)
    ensures
        ({
            let size = coarse_size(w as int, h as int, asked as int);
            if w >= 200 && pixels::resizable(w as int, h as int, size.0, size.1, 1) {
                r matches Some(s) && s.0 == size.0 && s.1 == size.1
            } else {
                r is None
            }
        }),
{
    if w < 200 {
        return None;
    }
    let cw: u32 = if asked < 200 {
        200
    } else if asked > w {
        w
    } else {
        asked
    };
    proof {
        assert(0 <= h * cw <= 0xffff_ffff * 0xffff_ffff) by (nonlinear_arith)
            requires
                0 <= h <= 0xffff_ffff,
                0 <= cw <= 0xffff_ffff,
        ;
    }
    let ch: u64 = ((h as u64) * (cw as u64)) / (w as u64);
    proof {
        assert(h * cw <= h * w) by (nonlinear_arith)
            requires
                0 <= h,
                cw <= w,
        ;
        vstd::arithmetic::div_mod::lemma_div_is_ordered(h * cw, h * w, w as int);
        vstd::arithmetic::div_mod::lemma_div_multiples_vanish(h as int, w as int);
        assert(h * w == w * h) by (nonlinear_arith);
    }
    let ch: u32 = if ch < 1 {
        1
    } else {
        ch as u32
    };
    if pixels::can_resize(w, h, cw, ch, 1) {
        Some((cw, ch))
    } else {
        None
    }
}

/// `0.1`: the least scale.
pub const SCALE_MIN: u32 = 0x3dcc_cccd;

/// `0.9`: the widest search of scales.
pub const SPREAD_MAX: u32 = 0x3f66_6666;

/// `8`: the least diameter of a template.
pub const DIAM_MIN: u32 = 0x4100_0000;

/// `2.5` pixels of the reduced map, but at least `12` of the map, around the
/// best place there: where it is refined.
pub const REFINE_STEPS: u32 = 0x4020_0000;

pub const REFINE_MIN: u32 = 0x4140_0000;

/// `-0.03`, `0` and `0.03`: the changes of scale that refining tries.
pub const NUDGE_DOWN: u32 = 0xbcf5_c28f;

pub const NUDGE_UP: u32 = 0x3cf5_c28f;

/// `4`: the least half width of the second tracking window.
pub const FINE_MIN: u32 = 0x4080_0000;

/// A score, a scale and a place on the map.
pub type Found = (Binary32, Binary32, Binary32, Binary32);

impl MapLocator {
    /// The reduced map is the map at its size.
    pub open spec fn wf(&self) -> bool {
        let w = self.map_gray.width as int;
        let h = self.map_gray.height as int;
        let cw = self.coarse_w as int;
        let ch = self.coarse_h as int;
        &&& self.map_gray.wf()
        &&& w >= 200
        &&& (cw, ch) == coarse_size(w, h, self.locating.coarse_width as int)
        &&& self.coarse@ == search::numbers(
            pixels::triangle_gray(self.map_gray.data@, w, h, cw, ch),
        )
        &&& self.coarse@.len() == cw * ch
        &&& self.coarse_fx == convert::of_int(w).over(convert::of_int(cw))
        &&& self.coarse_fy == convert::of_int(h).over(convert::of_int(ch))
    }

    /// Everything but the scale and the outcome of the last attempt is as in
    /// `other`.
    pub open spec fn same_map(&self, other: &MapLocator) -> bool {
        &&& self.map_gray == other.map_gray
        &&& self.coarse == other.coarse
        &&& self.coarse_w == other.coarse_w
        &&& self.coarse_h == other.coarse_h
        &&& self.coarse_fx == other.coarse_fx
        &&& self.coarse_fy == other.coarse_fy
        &&& self.matching == other.matching
        &&& self.locating == other.locating
        &&& self.tracking == other.tracking
    }

    pub fn new(
        big_map: &Rgb8,
        matching: &MatchingConfig,
        locating: &LocatingConfig,
        tracking: &TrackingConfig,
    ) -> (r: Self)
        requires
            big_map.wf(),
            big_map.width >= 200,
            ({
                let size = coarse_size(
                    big_map.width as int,
                    big_map.height as int,
                    locating.coarse_width as int,
                );
                pixels::resizable(
                    big_map.width as int,
                    big_map.height as int,
                    size.0,
                    size.1,
                    1,
                )
            }),
        ensures
            r.wf(),
            r.map_gray@ == big_map.shades(),
            r.matching == *matching,
            r.locating == *locating,
            r.tracking == *tracking,
            r.locked_scale == Binary32::zero(),
            r.last_debug.is("全局定位"@, Binary32::zero(), Binary32::zero(), false),
    {
        let map_gray: Gray8 = pixels::grayscale(big_map);
        let map_w: u32 = map_gray.width;
        let map_h: u32 = map_gray.height;
        let (coarse_w, coarse_h) = match reduced_size(map_w, map_h, locating.coarse_width) {
            Some(size) => size,
            None => {
                assert(false);
                (map_w, map_h)
            },
        };
        let small: Gray8 = pixels::resize_gray(&map_gray, coarse_w, coarse_h);
        let coarse: Vec<Binary32> = search::to_numbers(&small.data);
        MapLocator {
            map_gray,
            coarse,
            coarse_w,
            coarse_h,
            coarse_fx: Binary32::of_u32(map_w).over(Binary32::of_u32(coarse_w)),
            coarse_fy: Binary32::of_u32(map_h).over(Binary32::of_u32(coarse_h)),
            matching: *matching,
            locating: *locating,
            tracking: *tracking,
            locked_scale: Binary32::zero(),
            last_debug: LocateDebug::default(),
        }
    }

    pub fn big_map_gray(&self) -> (r: &Gray8)
        ensures
            *r == self.map_gray,
    {
        &self.map_gray
    }

    pub fn last_debug(&self) -> (r: &LocateDebug)
        ensures
            *r == self.last_debug,
    {
        &self.last_debug
    }

    /// The scale in use.
    pub open spec fn hint(&self) -> Binary32 {
        if self.locked_scale.gt(Binary32::zero()) {
            self.locked_scale
        } else {
            self.matching.scale
        }
    }

    /// The scale in use: the one found, or else the guess.
    pub fn scale_hint(&self) -> (r: Binary32)
        ensures
            r == self.hint(),
    {
        if self.locked_scale.gt(Binary32::zero()) {
            self.locked_scale
        } else {
            self.matching.scale
        }
    }

    /// Takes the guess as the scale, when the user has set the position.
    pub fn lock_scale_for_manual(&mut self)
        ensures
            final(self).same_map(old(self)),
            final(self).last_debug == old(self).last_debug,
            final(self).locked_scale == old(self).matching.scale,
    {
        self.locked_scale = self.matching.scale;
    }

    pub fn clear_lock(&mut self)
        ensures
            final(self).same_map(old(self)),
            final(self).last_debug == old(self).last_debug,
            final(self).locked_scale == Binary32::zero(),
    {
        self.locked_scale = Binary32::zero();
    }

    /// The least and the largest scale that locating tries.
    pub open spec fn scales(&self) -> (Binary32, Binary32) {
        let s = self.matching.scale.max(Binary32::of_bits(SCALE_MIN));
        let t = self.matching.scale_search.clamp(Binary32::zero(), Binary32::of_bits(SPREAD_MAX));
        if t.le(Binary32::zero()) {
            (s, s)
        } else {
            (s.times(Binary32::one().minus(t)), s.times(Binary32::one().plus(t)))
        }
    }

    /// The least and the largest scale that locating tries.
    pub fn scale_range(&self) -> (r: (Binary32, Binary32))
        ensures
            r == self.scales(),
    {
        let s: Binary32 = self.matching.scale.max(Binary32::of_bits(SCALE_MIN));
        let t: Binary32 = self.matching.scale_search.clamp(
            Binary32::zero(),
            Binary32::of_bits(SPREAD_MAX),
        );
        if t.le(Binary32::zero()) {
            (s, s)
        } else {
            (s.times(Binary32::one().minus(t)), s.times(Binary32::one().plus(t)))
        }
    }

    /// No spread of scales is asked for: the scale is fixed.
    pub open spec fn has_one_scale(&self) -> bool {
        self.matching.scale_search.clamp(Binary32::zero(), Binary32::of_bits(SPREAD_MAX)).le(
            Binary32::zero(),
        )
    }

    /// How many scales locating tries.
    pub open spec fn steps(&self) -> int {
        if self.locating.scale_steps < 1 {
            1
        } else {
            self.locating.scale_steps as int
        }
    }

    /// The scale that locating tries at step `i`.
    pub open spec fn scale_at(&self, i: int) -> Binary32 {
        let range = self.scales();
        if self.steps() == 1 {
            self.matching.scale
        } else {
            range.0.plus(
                range.1.minus(range.0).times(convert::of_int(i)).over(
                    convert::of_int(self.steps() - 1),
                ),
            )
        }
    }

    /// The diameter on the reduced map of a minimap `mm_w` pixels wide.
    pub open spec fn coarse_diam(&self, mm_w: int, scale: Binary32) -> u32 {
        convert::of_int(mm_w).times(scale).over(self.coarse_fx).round().max(
            Binary32::of_bits(DIAM_MIN),
        ).to_u32()
    }

    /// The best place on the reduced map at step `i`.
    pub open spec fn coarse_hit(&self, mm: Shades, i: int) -> Option<Found> {
        let scale = self.scale_at(i);
        let diam = self.coarse_diam(mm.width, scale);
        if diam >= self.coarse_w || diam >= self.coarse_h {
            None
        } else {
            match search::template_of(
                mm.data,
                mm.width,
                mm.height,
                diam as int,
                self.matching,
            ) {
                None => None,
                Some(tmpl) => match correlate::best_place(
                    self.coarse@,
                    self.coarse_w as int,
                    self.coarse_h as int,
                    tmpl,
                ) {
                    None => None,
                    Some(peak) => {
                        let middle = convert::of_int(diam as int).minus(Binary32::one()).times(
                            Binary32::half(),
                        );
                        Some(
                            (
                                peak.0,
                                scale,
                                convert::of_int(peak.1 as int).plus(middle).times(self.coarse_fx),
                                convert::of_int(peak.2 as int).plus(middle).times(self.coarse_fy),
                            ),
                        )
                    },
                },
            }
        }
    }

    /// The best place on the reduced map over the first `n` steps.
    pub open spec fn coarse_best(&self, mm: Shades, n: int) -> Option<Found>
        decreases n,
    {
        if n <= 0 {
            None
        } else {
            better(self.coarse_best(mm, n - 1), self.coarse_hit(mm, n - 1))
        }
    }

    /// The best place in the window around `(cx, cy)` at full size.
    pub open spec fn hit(
        &self,
        mm: Shades,
        scale: Binary32,
        cx: Binary32,
        cy: Binary32,
        reach: Binary32,
        diam: u32,
    ) -> Option<Hit> {
        search::hit_of(
            self.map_gray.data@,
            self.map_gray.width as int,
            self.map_gray.height as int,
            mm.data,
            mm.width,
            mm.height,
            self.matching,
            scale,
            cx,
            cy,
            reach,
            diam as int,
        )
    }

    /// The best place around a place of the reduced map with the scale changed
    /// by `nudge`.
    pub open spec fn nudged(&self, mm: Shades, near: Found, nudge: Binary32) -> Option<Found> {
        let scale = near.1.times(Binary32::one().plus(nudge));
        let reach = self.coarse_fx.times(Binary32::of_bits(REFINE_STEPS)).max(
            Binary32::of_bits(REFINE_MIN),
        );
        match self.hit(mm, scale, near.2, near.3, reach, self.locating.refine_diam) {
            None => None,
            Some(h) => Some((h.score, scale, h.x, h.y)),
        }
    }

    /// The best place around a place of the reduced map, over three scales, or
    /// over the one scale where it is fixed.
    pub open spec fn refined(&self, mm: Shades, near: Found) -> Option<Found> {
        let a = self.nudged(mm, near, Binary32::of_bits(NUDGE_DOWN));
        let b = self.nudged(mm, near, Binary32::zero());
        let c = self.nudged(mm, near, Binary32::of_bits(NUDGE_UP));
        if self.has_one_scale() {
            b
        } else {
            better(better(better(None, a), b), c)
        }
    }

    /// What locating finds, before its score is looked at.
    pub open spec fn found(&self, mm: Shades) -> Option<Found> {
        match self.coarse_best(mm, self.steps()) {
            None => None,
            Some(near) => match self.refined(mm, near) {
                None => Some(near),
                Some(f) => Some(f),
            },
        }
    }

    fn nudge(&self, mm: &Gray8, near: Found, nudge: Binary32) -> (r: Option<Found>)
        requires
            self.wf(),
            mm.wf(),
        ensures
            r == self.nudged(mm@, near, nudge),
    {
        let scale: Binary32 = near.1.times(Binary32::one().plus(nudge));
        let reach: Binary32 = self.coarse_fx.times(Binary32::of_bits(REFINE_STEPS)).max(
            Binary32::of_bits(REFINE_MIN),
        );
        match search::ncc_search(
            &self.map_gray,
            mm,
            &self.matching,
            scale,
            near.2,
            near.3,
            reach,
            self.locating.refine_diam,
        ) {
            None => None,
            Some(h) => Some((h.score, scale, h.x, h.y)),
        }
    }

    /// The best place around a place of the reduced map, at full size and over
    /// three scales, or over the one scale where it is fixed.
    pub fn refine(&self, mm: &Gray8, near: Found) -> (r: Option<Found>)
        requires
            self.wf(),
            mm.wf(),
        ensures
            r == self.refined(mm@, near),
    {
        let b: Option<Found> = self.nudge(mm, near, Binary32::zero());
        let spread: Binary32 = self.matching.scale_search.clamp(
            Binary32::zero(),
            Binary32::of_bits(SPREAD_MAX),
        );
        if spread.le(Binary32::zero()) {
            return b;
        }
        let a: Option<Found> = self.nudge(mm, near, Binary32::of_bits(NUDGE_DOWN));
        let c: Option<Found> = self.nudge(mm, near, Binary32::of_bits(NUDGE_UP));
        pick(pick(pick(None, a), b), c)
    }

    /// The best place on the reduced map at step `i`.
    fn coarse_step(&self, mm: &Gray8, i: u32, range: (Binary32, Binary32)) -> (r: Option<Found>)
        requires
            self.wf(),
            mm.wf(),
            i < self.steps(),
            range == self.scales(),
        ensures
            r == self.coarse_hit(mm@, i as int),
    {
        let steps: u32 = self.locating.scale_steps;
        let scale: Binary32 = if steps <= 1 {
            self.matching.scale
        } else {
            range.0.plus(
                range.1.minus(range.0).times(Binary32::of_u32(i)).over(Binary32::of_u32(steps - 1)),
            )
        };
        let diam: u32 = Binary32::of_u32(mm.width).times(scale).over(self.coarse_fx).round().max(
            Binary32::of_bits(DIAM_MIN),
        ).to_u32();
        if diam >= self.coarse_w || diam >= self.coarse_h {
            return None;
        }
        let tmpl: Template = match search::build_template(mm, diam, &self.matching) {
            Some(t) => t,
            None => {
                return None;
            },
        };
        match correlate::best_in_image(&self.coarse, self.coarse_w, self.coarse_h, &tmpl) {
            None => None,
            Some((score, bx, by)) => {
                let middle: Binary32 = Binary32::of_u32(diam).minus(Binary32::one()).times(
                    Binary32::half(),
                );
                Some(
                    (
                        score,
                        scale,
                        Binary32::of_u32(bx).plus(middle).times(self.coarse_fx),
                        Binary32::of_u32(by).plus(middle).times(self.coarse_fy),
                    ),
                )
            },
        }
    }

    /// Looking for a minimap on the whole map gives `r` and leaves `after`: a
    /// place whose score is not below the limit, with its scale kept.
    pub open spec fn located_as(&self, after: &MapLocator, mm: Shades, r: Option<WorldPos>) -> bool {
        match self.found(mm) {
            None => {
                &&& r is None
                &&& after.locked_scale == self.locked_scale
                &&& after.last_debug == self.last_debug
            },
            Some(f) => {
                &&& after.last_debug.is("全局定位"@, f.0, f.1, f.0.ge(self.matching.min_score))
                &&& if f.0.lt(self.matching.min_score) {
                    r is None && after.locked_scale == self.locked_scale
                } else {
                    &&& r == Some(WorldPos { x: f.2, y: f.3, score: f.0, scale: f.1 })
                    &&& after.locked_scale == f.1
                }
            },
        }
    }

    /// Looks for the minimap on the whole map.
    pub fn locate_global(&mut self, minimap: &Rgb8) -> (r: Option<WorldPos>)
        requires
            old(self).wf(),
            minimap.wf(),
        ensures
            final(self).wf(),
            final(self).same_map(old(self)),
            old(self).located_as(final(self), minimap.shades(), r),
    {
        let mm: Gray8 = pixels::grayscale(minimap);
        let range: (Binary32, Binary32) = self.scale_range();
        let steps: u32 = if self.locating.scale_steps < 1 {
            1
        } else {
            self.locating.scale_steps
        };
        let mut best: Option<Found> = None;
        let mut i: u32 = 0;
        while i < steps
            invariant
                self.wf(),
                *self == *old(self),
                mm.wf(),
                steps == self.steps(),
                range == self.scales(),
                0 <= i <= steps,
                best == self.coarse_best(mm@, i as int),
            decreases steps - i,
        {
            let next: Option<Found> = self.coarse_step(&mm, i, range);
            best = pick(best, next);
            i = i + 1;
        }
        let near: Found = match best {
            Some(b) => b,
            None => {
                assert(old(self).found(mm@) is None);
                return None;
            },
        };
        let (score, scale, x, y) = match self.refine(&mm, near) {
            Some(f) => f,
            None => near,
        };
        assert(old(self).found(mm@) == Some((score, scale, x, y)));
        self.last_debug = LocateDebug {
            mode: "全局定位",
            score,
            scale,
            ok: score.ge(self.matching.min_score),
        };
        if score.lt(self.matching.min_score) {
            return None;
        }
        self.locked_scale = scale;
        Some(WorldPos { x, y, score, scale })
    }

    /// What tracking sees around `last`: the best place of a small template in a
    /// wide window, then of a large one in a narrow window around that.
    pub open spec fn seen_near(&self, mm: Shades, last: (Binary32, Binary32)) -> Option<Hit> {
        let scale = self.hint();
        match self.hit(
            mm,
            scale,
            last.0,
            last.1,
            self.tracking.search_radius,
            self.tracking.coarse_diam,
        ) {
            None => None,
            Some(near) => {
                let reach = convert::of_int(mm.width).times(scale).over(
                    convert::of_int(self.tracking.coarse_diam as int),
                ).times(Binary32::two());
                match self.hit(
                    mm,
                    scale,
                    near.x,
                    near.y,
                    reach.max(Binary32::of_bits(FINE_MIN)),
                    self.tracking.fine_diam,
                ) {
                    None => Some(near),
                    Some(h) => Some(h),
                }
            },
        }
    }

    /// What tracking finds around `last`, before its score is looked at: the
    /// place that it sees, but no farther away than the search radius.
    pub open spec fn followed(&self, mm: Shades, last: (Binary32, Binary32)) -> Option<Hit> {
        let r = self.tracking.search_radius;
        match self.seen_near(mm, last) {
            None => None,
            Some(h) => Some(
                Hit {
                    score: h.score,
                    x: limit::held(h.x, last.0, r),
                    y: limit::held(h.y, last.1, r),
                },
            ),
        }
    }

    /// Following a minimap from `last` gives `r` and leaves `after`: a place
    /// whose score is not below the limit, at the scale in use.
    pub open spec fn tracked_as(
        &self,
        after: &MapLocator,
        mm: Shades,
        last: (Binary32, Binary32),
        r: Option<WorldPos>,
    ) -> bool {
        &&& after.locked_scale == self.locked_scale
        &&& match self.followed(mm, last) {
            None => {
                &&& r is None
                &&& after.last_debug.is("跟踪"@, Binary32::zero(), self.hint(), false)
            },
            Some(h) => {
                &&& after.last_debug.is(
                    "跟踪"@,
                    h.score,
                    self.hint(),
                    h.score.ge(self.matching.min_score),
                )
                &&& r == if h.score.lt(self.matching.min_score) {
                    None
                } else {
                    Some(WorldPos { x: h.x, y: h.y, score: h.score, scale: self.hint() })
                }
            },
        }
    }

    /// Follows the minimap from where it was last.
    pub fn track(&mut self, minimap: &Rgb8, last: (Binary32, Binary32)) -> (r: Option<WorldPos>)
        requires
            old(self).wf(),
            minimap.wf(),
        ensures
            final(self).wf(),
            final(self).same_map(old(self)),
            old(self).tracked_as(final(self), minimap.shades(), last, r),
    {
        let mm: Gray8 = pixels::grayscale(minimap);
        let scale: Binary32 = self.scale_hint();
        let near: Hit = match search::ncc_search(
            &self.map_gray,
            &mm,
            &self.matching,
            scale,
            last.0,
            last.1,
            self.tracking.search_radius,
            self.tracking.coarse_diam,
        ) {
            Some(h) => h,
            None => {
                self.last_debug = LocateDebug {
                    mode: "跟踪",
                    score: Binary32::zero(),
                    scale,
                    ok: false,
                };
                return None;
            },
        };
        let reach: Binary32 = Binary32::of_u32(mm.width).times(scale).over(
            Binary32::of_u32(self.tracking.coarse_diam),
        ).times(Binary32::two());
        let fine: Hit = match search::ncc_search(
            &self.map_gray,
            &mm,
            &self.matching,
            scale,
            near.x,
            near.y,
            reach.max(Binary32::of_bits(FINE_MIN)),
            self.tracking.fine_diam,
        ) {
            Some(h) => h,
            None => near,
        };
        let x: Binary32 = limit::hold(fine.x, last.0, self.tracking.search_radius);
        let y: Binary32 = limit::hold(fine.y, last.1, self.tracking.search_radius);
        self.last_debug = LocateDebug {
            mode: "跟踪",
            score: fine.score,
            scale,
            ok: fine.score.ge(self.matching.min_score),
        };
        if fine.score.lt(self.matching.min_score) {
            return None;
        }
        Some(WorldPos { x, y, score: fine.score, scale })
    }
}

/// The second when there is no first or it scores higher, else the first.
pub open spec fn better(a: Option<Found>, b: Option<Found>) -> Option<Found> {
    match (a, b) {
        (_, None) => a,
        (None, Some(_)) => b,
        (Some(x), Some(y)) => if y.0.gt(x.0) {
            b
        } else {
            a
        },
    }
}

/// The second when there is no first or it scores higher, else the first.
pub fn pick(a: Option<Found>, b: Option<Found>) -> (r: Option<Found>)
    ensures
        r == better(a, b),
{
    match (a, b) {
        (_, None) => a,
        (None, Some(_)) => b,
        (Some(x), Some(y)) => if y.0.gt(x.0) {
            b
        } else {
            a
        },
    }
}

/// A place that locating or tracking gives does not score below the limit, and
/// the attempt is then not reported as a failure unless its score is a NaN.
pub proof fn a_given_place_is_not_below_the_limit(
    before: &MapLocator,
    after: &MapLocator,
    mm: Shades,
    last: Option<(Binary32, Binary32)>,
    r: Option<WorldPos>,
)
    requires
        last is None ==> before.located_as(after, mm, r),
        last matches Some(l) ==> before.tracked_as(after, mm, l, r),
        r is Some,
    ensures
        !r->0.score.lt(before.matching.min_score),
        after.last_debug.score == r->0.score,
        after.last_debug.scale == r->0.scale,
        !r->0.score.is_nan_spec() && !before.matching.min_score.is_nan_spec()
            ==> after.last_debug.ok,
{
}

/// A place that tracking gives is no farther from the last one, along each
/// axis, than the search radius.
pub proof fn a_step_keeps_within_the_search_radius(
    before: &MapLocator,
    after: &MapLocator,
    mm: Shades,
    last: (Binary32, Binary32),
    r: Option<WorldPos>,
)
    requires
        before.tracked_as(after, mm, last, r),
        last.0.is_finite_spec(),
        last.1.is_finite_spec(),
        before.tracking.search_radius.ge(Binary32::zero()),
        r is Some,
    ensures
        r->0.x.minus(last.0).abs().le(before.tracking.search_radius),
        r->0.y.minus(last.1).abs().le(before.tracking.search_radius),
{
    let h = before.seen_near(mm, last)->0;
    limit::lemma_held(h.x, last.0, before.tracking.search_radius);
    limit::lemma_held(h.y, last.1, before.tracking.search_radius);
}

} // verus!
