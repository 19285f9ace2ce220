//! The worker's turns: reading what the user asks for, following the player
//! from frame to frame, and telling the window.
//!
//! The worker's surroundings capture the screen and wait; each turn says what
//! is to be done next.

use vstd::prelude::*;
use vstd::string::*;

use crate::binary32::convert;
use crate::binary32::exact;
use crate::binary32::Binary32;
use crate::capture::MinimapRegion;
use crate::config::{MatchingConfig, TrackingConfig};
use crate::locator::{LocateDebug, MapLocator, WorldPos};
use crate::pixels;
use crate::pixels::{Colours, Gray8, Rgb8, Shades};
use crate::state;
use crate::state::{Board, MinimapDebug, PlayerPos, Shared};
use crate::text;

verus! {

/// `0.05`: the least weight of a new position.
pub const ALPHA_MIN: u32 = 0x3d4c_cccd;

/// `0.1`: the least scale of the piece of the map that is shown.
pub const PATCH_SCALE_MIN: u32 = 0x3dcc_cccd;

/// `8`: the least half side of that piece, in map pixels.
pub const PATCH_MIN: u32 = 0x4100_0000;

/// What the worker does next.
#[derive(Clone, Copy, Debug, PartialEq, Eq, Structural)]
pub enum Next {
    /// Nothing more: the game's window is gone.
    Stop,
    /// Wait so many milliseconds and begin the next turn.
    Wait(u64),
    /// Capture the minimap.
    Capture,
}

/// What the worker knows of the player.
#[derive(Clone, Copy, Debug, PartialEq, Eq)]
pub struct Tracker {
    /// The smoothed position; while there is none, the whole map is searched.
    pub last: Option<(Binary32, Binary32)>,
    pub last_scale: Binary32,
    pub last_score: Binary32,
    /// Misses in a row.
    pub lost_count: u32,
    /// The weight of a new position.
    pub alpha: Binary32,
    /// So many misses in a row end tracking.
    pub patience: u32,
}

impl Tracker {
    pub open spec fn wf(&self) -> bool {
        self.lost_count < self.patience
    }

    pub fn new(matching: &MatchingConfig, tracking: &TrackingConfig, hint: Binary32) -> (t: Tracker)
        ensures
            t.wf(),
            t == (Tracker {
                last: None,
                last_scale: hint,
                last_score: Binary32::zero(),
                lost_count: 0,
                alpha: matching.ema_alpha.clamp(Binary32::of_bits(ALPHA_MIN), Binary32::one()),
                patience: if tracking.lost_patience < 1 {
                    1
                } else {
                    tracking.lost_patience
                },
            }),
    {
        Tracker {
            last: None,
            last_scale: hint,
            last_score: Binary32::zero(),
            lost_count: 0,
            alpha: matching.ema_alpha.clamp(Binary32::of_bits(ALPHA_MIN), Binary32::one()),
            patience: if tracking.lost_patience < 1 {
                1
            } else {
                tracking.lost_patience
            },
        }
    }

    /// The worker's state after reading what the user asks for.
    pub open spec fn told(self, b: Board, hint: Binary32) -> Tracker {
        if b.relocalize {
            Tracker { last: None, lost_count: 0, ..self }
        } else if b.manual_pos is Some {
            Tracker { last: b.manual_pos, lost_count: 0, last_scale: hint, ..self }
        } else {
            self
        }
    }

    /// The worker's state while tracking is off.
    pub open spec fn at_rest(self) -> Tracker {
        Tracker { last: None, lost_count: 0, ..self }
    }

    /// Begins a turn. `alive` says whether the game's window is still there.
    pub fn begin(
        &mut self,
        s: &mut Shared,
        locator: &mut MapLocator,
        alive: bool,
        locate_ms: u64,
    ) -> (r: Next)
        requires
            old(self).wf(),
        ensures
            final(self).wf(),
            final(locator).same_map(old(locator)),
            final(locator).last_debug == old(locator).last_debug,
            ({
                let asked = old(s)@.relocalize || old(s)@.manual_pos is Some;
                let on = asked || old(s)@.tracking_enabled;
                let heard = heard(old(s)@);
                if !alive {
                    &&& r == Next::Stop
                    &&& final(s)@ == (Board { status: "窗口已关闭"@, ..old(s)@ })
                    &&& *final(self) == *old(self)
                    &&& final(locator).locked_scale == old(locator).locked_scale
                } else {
                    let told = old(self).told(old(s)@, final(locator).hint());
                    &&& final(locator).locked_scale == if old(s)@.relocalize {
                        Binary32::zero()
                    } else if old(s)@.manual_pos is Some {
                        old(locator).matching.scale
                    } else {
                        old(locator).locked_scale
                    }
                    &&& if on {
                        &&& r == Next::Capture
                        &&& final(s)@ == heard
                        &&& *final(self) == told
                    } else {
                        &&& r == Next::Wait(locate_ms)
                        &&& final(s)@ == (Board {
                            player: None,
                            status: "点击「开始跟踪」开始定位"@,
                            ..heard
                        })
                        &&& *final(self) == told.at_rest()
                    }
                }
            }),
    {
        if !alive {
            s.set_status("窗口已关闭");
            return Next::Stop;
        }
        if s.relocalize {
            s.relocalize = false;
            s.manual_pos = None;
            self.last = None;
            self.lost_count = 0;
            locator.clear_lock();
            s.status = "正在全局定位...".to_owned();
            s.tracking_enabled = true;
        } else if let Some(p) = s.manual_pos {
            s.manual_pos = None;
            self.last = Some(p);
            self.lost_count = 0;
            locator.lock_scale_for_manual();
            self.last_scale = locator.scale_hint();
            s.status = "手动定位完成，开始跟踪...".to_owned();
            s.tracking_enabled = true;
        }
        if s.tracking_enabled {
            return Next::Capture;
        }
        self.last = None;
        self.lost_count = 0;
        s.player = None;
        s.status = "点击「开始跟踪」开始定位".to_owned();
        Next::Wait(locate_ms)
    }

    /// The position after a new one: the mean with the last, by weight.
    pub open spec fn smoothed(self, p: WorldPos) -> (Binary32, Binary32) {
        match self.last {
            None => (p.x, p.y),
            Some((lx, ly)) => {
                let rest = Binary32::one().minus(self.alpha);
                (
                    self.alpha.times(p.x).plus(rest.times(lx)),
                    self.alpha.times(p.y).plus(rest.times(ly)),
                )
            },
        }
    }

    /// The worker's state after an attempt that gave `result`.
    pub open spec fn absorbed(self, result: Option<WorldPos>) -> Tracker {
        match result {
            Some(p) => Tracker {
                last: Some(self.smoothed(p)),
                last_scale: p.scale,
                last_score: p.score,
                lost_count: 0,
                ..self
            },
            None => if self.last is None {
                self
            } else if self.lost_count + 1 >= self.patience {
                Tracker { last: None, lost_count: 0, ..self }
            } else {
                Tracker { lost_count: (self.lost_count + 1) as u32, ..self }
            },
        }
    }

    /// Takes in what an attempt gave.
    pub fn absorb(&mut self, result: Option<WorldPos>)
        requires
            old(self).wf(),
        ensures
            final(self).wf(),
            *final(self) == old(self).absorbed(result),
    {
        match result {
            Some(p) => {
                let next: (Binary32, Binary32) = match self.last {
                    Some((lx, ly)) => {
                        let rest: Binary32 = Binary32::one().minus(self.alpha);
                        (
                            self.alpha.times(p.x).plus(rest.times(lx)),
                            self.alpha.times(p.y).plus(rest.times(ly)),
                        )
                    },
                    None => (p.x, p.y),
                };
                self.last = Some(next);
                self.last_scale = p.scale;
                self.last_score = p.score;
                self.lost_count = 0;
            },
            None => {
                if self.last.is_some() {
                    self.lost_count = self.lost_count + 1;
                    if self.lost_count >= self.patience {
                        self.last = None;
                        self.lost_count = 0;
                    }
                }
            },
        }
    }

    /// Looks for the player in a new minimap: around the last position, or on
    /// the whole map while there is none.
    pub fn follow(&mut self, locator: &mut MapLocator, frame: &Rgb8) -> (r: Option<WorldPos>)
        requires
            old(self).wf(),
            old(locator).wf(),
            frame.wf(),
        ensures
            final(self).wf(),
            final(locator).wf(),
            final(locator).same_map(old(locator)),
            match old(self).last {
                None => old(locator).located_as(final(locator), frame.shades(), r),
                Some(p) => old(locator).tracked_as(final(locator), frame.shades(), p, r),
            },
            *final(self) == old(self).absorbed(r),
    {
        let result: Option<WorldPos> = match self.last {
            None => locator.locate_global(frame),
            Some(p) => locator.track(frame, p),
        };
        self.absorb(result);
        result
    }

    /// How far the piece of the map that is shown reaches from the player, for
    /// a minimap `frame_w` pixels wide.
    pub open spec fn patch_reach(self, frame_w: int) -> Binary32 {
        convert::of_int(frame_w).times(Binary32::half()).times(
            self.last_scale.max(Binary32::of_bits(PATCH_SCALE_MIN)),
        )
    }

    /// `r` is the piece of the map around the player that is shown beside a
    /// minimap `frame_w` pixels wide. There is none while the player is not
    /// known, nor of a map so large that its colours would have no address.
    pub open spec fn patch_is(self, gray: Gray8, frame_w: int, r: Option<Rgb8>) -> bool {
        match self.last {
            None => r is None,
            Some((x, y)) => if 3 * gray.data@.len() <= isize::MAX {
                r matches Some(img) && img.wf() && img@ == cropped(
                    gray@,
                    x,
                    y,
                    self.patch_reach(frame_w),
                )
            } else {
                r is None
            },
        }
    }

    /// The piece of the map around the player, if the player is known.
    pub fn patch(&self, gray: &Gray8, frame_w: u32) -> (r: Option<Rgb8>)
        requires
            gray.wf(),
        ensures
            self.patch_is(*gray, frame_w as int, r),
    {
        match self.last {
            None => None,
            Some((x, y)) => {
                let reach: Binary32 = Binary32::of_u32(frame_w).times(Binary32::half()).times(
                    self.last_scale.max(Binary32::of_bits(PATCH_SCALE_MIN)),
                );
                assert(gray.data@.len() == gray.data.len());
                if gray.data.len() <= (isize::MAX as usize) / 3 {
                    Some(crop_display(gray, x, y, reach))
                } else {
                    None
                }
            },
        }
    }

    /// What the player's position is said to be.
    pub open spec fn player(self) -> Option<PlayerPos> {
        match self.last {
            None => None,
            Some((x, y)) => Some(
                PlayerPos { x, y, score: self.last_score, scale: self.last_scale },
            ),
        }
    }

    /// The status after an attempt; `score` is the last score in decimal.
    pub open spec fn status(self, hit: bool, score: Seq<char>) -> Seq<char> {
        if self.last is None {
            "全局定位中..."@
        } else if hit {
            "跟踪中  分数 "@ + score
        } else {
            "跟踪不稳，正在重试..."@
        }
    }

    /// Looks for the player in a new minimap, and cuts out the piece of the map
    /// to show beside it.
    pub fn attempt(&mut self, locator: &mut MapLocator, frame: Rgb8) -> (a: Attempt)
        requires
            old(self).wf(),
            old(locator).wf(),
            frame.wf(),
        ensures
            final(self).wf(),
            final(locator).wf(),
            final(locator).same_map(old(locator)),
            match old(self).last {
                None => old(locator).located_as(final(locator), frame.shades(), a.result),
                Some(p) => old(locator).tracked_as(final(locator), frame.shades(), p, a.result),
            },
            *final(self) == old(self).absorbed(a.result),
            a.tracker == *final(self),
            final(self).patch_is(final(locator).map_gray, frame.width as int, a.patch),
            a.debug == final(locator).last_debug,
            a.frame == frame,
    {
        let result: Option<WorldPos> = self.follow(locator, &frame);
        let patch: Option<Rgb8> = self.patch(locator.big_map_gray(), frame.width);
        let d: &LocateDebug = locator.last_debug();
        let debug: LocateDebug = LocateDebug {
            mode: d.mode,
            score: d.score,
            scale: d.scale,
            ok: d.ok,
        };
        Attempt { frame, result, tracker: *self, patch, debug }
    }
}

/// One attempt to find the player in a minimap, and what came of it.
pub struct Attempt {
    pub frame: Rgb8,
    /// The place that locating or tracking gave.
    pub result: Option<WorldPos>,
    /// What the worker knows after it.
    pub tracker: Tracker,
    /// The piece of the map around the player.
    pub patch: Option<Rgb8>,
    /// The locator's account of it.
    pub debug: LocateDebug,
}

/// What was seen on the screen together with a minimap.
#[derive(Clone, Copy, Debug, PartialEq, Eq)]
pub struct Sighting {
    pub heading_rad: Option<Binary32>,
    /// The corner of the client area on the screen.
    pub origin: (i32, i32),
    pub region: MinimapRegion,
}

impl Attempt {
    /// What is shared after the attempt: its minimap, its piece of the map, its
    /// position and its account. `score` is the last score in decimal, and
    /// `brief` the account in words.
    pub open spec fn told(self, before: Board, seen: Sighting, score: Seq<char>, brief: Seq<char>) -> Board {
        Board {
            tracking_patch: if self.patch is Some {
                state::shown(self.patch)
            } else {
                before.tracking_patch
            },
            tracking_patch_seq: if self.patch is Some {
                counted(before.tracking_patch_seq)
            } else {
                before.tracking_patch_seq
            },
            minimap: Some(self.frame@),
            minimap_seq: counted(before.minimap_seq),
            heading_rad: seen.heading_rad,
            game_rect: Some(
                seq![seen.origin.0, seen.origin.1, seen.region.client_w, seen.region.client_h],
            ),
            debug: Some(
                MinimapDebug {
                    client_w: seen.region.client_w,
                    client_h: seen.region.client_h,
                    region_x: seen.region.x,
                    region_y: seen.region.y,
                    region_size: seen.region.size,
                },
            ),
            locate_debug: brief,
            player: self.tracker.player(),
            status: self.tracker.status(self.result is Some, score),
            ..before
        }
    }

    /// Tells the window what the attempt came to, and says how long to wait.
    /// `decimal` puts a number in decimal.
    pub fn publish<F: Fn(Binary32) -> String>(
        self,
        s: &mut Shared,
        seen: Sighting,
        decimal: F,
        locate_ms: u64,
        track_ms: u64,
    ) -> (r: Next)
        requires
            forall|x: Binary32| #[trigger] call_requires(decimal, (x,)),
        ensures
            exists|score: String, tried: String, scale: String|
                {
                    &&& #[trigger] call_ensures(decimal, (self.tracker.last_score,), score)
                    &&& #[trigger] call_ensures(decimal, (self.debug.score,), tried)
                    &&& #[trigger] call_ensures(decimal, (self.debug.scale,), scale)
                    &&& final(s)@ == self.told(
                        old(s)@,
                        seen,
                        score@,
                        self.debug.in_words(tried@, scale@),
                    )
                },
            r == Next::Wait(
                if self.tracker.last is None {
                    locate_ms
                } else {
                    track_ms
                },
            ),
    {
        let score: String = decimal(self.tracker.last_score);
        let tried: String = decimal(self.debug.score);
        let scale: String = decimal(self.debug.scale);
        if self.patch.is_some() {
            s.tracking_patch = self.patch;
            s.tracking_patch_seq = count(s.tracking_patch_seq);
        }
        s.minimap = Some(self.frame);
        s.minimap_seq = count(s.minimap_seq);
        s.heading_rad = seen.heading_rad;
        let rect: [i32; 4] = [
            seen.origin.0,
            seen.origin.1,
            seen.region.client_w,
            seen.region.client_h,
        ];
        assert(rect@ =~= seq![
            seen.origin.0,
            seen.origin.1,
            seen.region.client_w,
            seen.region.client_h,
        ]);
        s.game_rect = Some(rect);
        s.debug = Some(
            MinimapDebug {
                client_w: seen.region.client_w,
                client_h: seen.region.client_h,
                region_x: seen.region.x,
                region_y: seen.region.y,
                region_size: seen.region.size,
            },
        );
        s.locate_debug = self.debug.brief(tried.as_str(), scale.as_str());
        let t: Tracker = self.tracker;
        match t.last {
            Some((x, y)) => {
                s.player = Some(PlayerPos { x, y, score: t.last_score, scale: t.last_scale });
                if self.result.is_some() {
                    let mut status: String = "跟踪中  分数 ".to_owned();
                    status.append(score.as_str());
                    s.status = status;
                } else {
                    s.status = "跟踪不稳，正在重试...".to_owned();
                }
                Next::Wait(track_ms)
            },
            None => {
                s.player = None;
                s.status = "全局定位中...".to_owned();
                Next::Wait(locate_ms)
            },
        }
    }
}

/// What is shared once the worker has read what the user asks for: the request
/// is taken, and asking to locate comes before a position.
pub open spec fn heard(b: Board) -> Board {
    if b.relocalize {
        Board {
            relocalize: false,
            manual_pos: None,
            status: "正在全局定位..."@,
            tracking_enabled: true,
            ..b
        }
    } else if b.manual_pos is Some {
        Board {
            manual_pos: None,
            status: "手动定位完成，开始跟踪..."@,
            tracking_enabled: true,
            ..b
        }
    } else {
        b
    }
}

/// Milliseconds before the game's window is looked for again.
pub const RETRY_MS: u64 = 1000;

/// The game's window is not there: says so, and waits.
pub fn window_missing(s: &mut Shared, e: &str) -> (r: Next)
    ensures
        final(s)@ == (Board { status: e@, ..old(s)@ }),
        r == Next::Wait(RETRY_MS),
{
    s.set_status(e);
    Next::Wait(RETRY_MS)
}

/// The client area could not be captured: what to say of it, and the wait.
pub fn client_missing(e: &str) -> (r: (String, Next))
    ensures
        r.0@ == "[圆检测] 截取客户区失败("@ + e@ + ")，1s 后重试"@,
        r.1 == Next::Wait(RETRY_MS),
{
    (text::glue("[圆检测] 截取客户区失败(", e, ")，1s 后重试"), Next::Wait(RETRY_MS))
}

/// The game's window is there: says so.
pub fn window_found(s: &mut Shared, title: &str)
    ensures
        final(s)@ == (Board { status: "已定位窗口: "@ + title@, ..old(s)@ }),
{
    let mut status: String = "已定位窗口: ".to_owned();
    status.append(title);
    s.status = status;
}

/// The capture failed: says so, and waits.
pub fn capture_failed(s: &mut Shared, e: &str, track_ms: u64) -> (r: Next)
    ensures
        final(s)@ == (Board { status: "截图失败: "@ + e@, ..old(s)@ }),
        r == Next::Wait(track_ms),
{
    let mut status: String = "截图失败: ".to_owned();
    status.append(e);
    s.status = status;
    Next::Wait(track_ms)
}

/// One more, starting over at the end.
pub open spec fn counted(k: u64) -> u64 {
    if k == u64::MAX {
        0
    } else {
        (k + 1) as u64
    }
}

/// One more, starting over at the end.
pub fn count(k: u64) -> (r: u64)
    ensures
        r == counted(k),
{
    k.wrapping_add(1)
}

/// The half side of a piece of the map, in whole pixels.
pub open spec fn half_side(reach: Binary32) -> u32 {
    reach.max(Binary32::of_bits(PATCH_MIN)).to_u32()
}

/// The first and the past-the-last place of a piece along an axis of `n`
/// pixels: `r` pixels either way of the middle, as far as the axis goes.
pub open spec fn edges(c: Binary32, r: u32, n: int) -> (int, int) {
    let low = c.to_i32() - r;
    let high = c.to_i32() + r;
    (
        if low < 0 {
            0
        } else {
            low
        },
        if high < n {
            high
        } else {
            n
        },
    )
}

/// The first and the past-the-last place of a piece along an axis of `n`
/// pixels, or nothing where there is none.
fn piece(c: Binary32, r: u32, n: u32) -> (e: Option<(u32, u32)>)
    ensures
        match e {
            None => edges(c, r, n as int).1 <= edges(c, r, n as int).0,
            Some((first, past)) => {
                &&& first < past <= n
                &&& edges(c, r, n as int) == (first as int, past as int)
            },
        },
{
    let low: i64 = (c.to_i32() as i64) - (r as i64);
    let high: i64 = (c.to_i32() as i64) + (r as i64);
    let first: i64 = if low < 0 {
        0
    } else {
        low
    };
    let past: i64 = if high < n as i64 {
        high
    } else {
        n as i64
    };
    if past <= first {
        None
    } else {
        Some((first as u32, past as u32))
    }
}

/// Each byte three times.
pub open spec fn tripled(data: Seq<u8>) -> Seq<u8> {
    Seq::new(3 * data.len(), |i: int| data[i / 3])
}

/// The piece of a grey map around `(cx, cy)`, as a colour picture; one black
/// pixel where the map has nothing there.
pub open spec fn cropped(gray: Shades, cx: Binary32, cy: Binary32, reach: Binary32) -> Colours {
    let r = half_side(reach);
    let cols = edges(cx, r, gray.width);
    let rows = edges(cy, r, gray.height);
    if cols.1 <= cols.0 || rows.1 <= rows.0 {
        Colours { width: 1, height: 1, data: seq![0u8, 0u8, 0u8] }
    } else {
        Colours {
            width: cols.1 - cols.0,
            height: rows.1 - rows.0,
            data: tripled(
                pixels::window_gray(
                    gray.data,
                    gray.width,
                    (cols.0, cols.1 - cols.0),
                    (rows.0, rows.1 - rows.0),
                ),
            ),
        }
    }
}

/// The piece of the map within `reach` of `(cx, cy)`, to show.
pub fn crop_display(gray: &Gray8, cx: Binary32, cy: Binary32, reach: Binary32) -> (img: Rgb8)
    requires
        gray.wf(),
        3 * gray.data@.len() <= isize::MAX,
    ensures
        img.wf(),
        img@ == cropped(gray@, cx, cy, reach),
{
    let r: u32 = reach.max(Binary32::of_bits(PATCH_MIN)).to_u32();
    let (cols, rows) = match (piece(cx, r, gray.width), piece(cy, r, gray.height)) {
        (Some(cols), Some(rows)) => (cols, rows),
        _ => {
            let img: Rgb8 = Rgb8 { width: 1, height: 1, data: vec![0u8, 0u8, 0u8] };
            assert(img@ =~= cropped(gray@, cx, cy, reach));
            return img;
        },
    };
    let patch: Gray8 = pixels::crop_gray(gray, cols.0, rows.0, cols.1 - cols.0, rows.1 - rows.0);
    proof {
        let pw = patch.width as int;
        let ph = patch.height as int;
        let gw = gray.width as int;
        let gh = gray.height as int;
        assert(pw * ph <= gw * gh) by (nonlinear_arith)
            requires
                0 <= pw <= gw,
                0 <= ph <= gh,
        ;
    }
    let img: Rgb8 = pixels::gray_to_rgb(&patch);
    assert(img@ =~= cropped(gray@, cx, cy, reach));
    img
}

/// A place belongs to the piece of the map that is shown exactly when it lies on
/// the map and within reach of the middle, along each axis.
pub proof fn a_piece_is_the_square_cut_to_the_map(c: Binary32, r: u32, n: int, x: int)
    requires
        0 <= n,
    ensures
        edges(c, r, n).0 <= x < edges(c, r, n).1 <==> {
            &&& 0 <= x < n
            &&& c.to_i32() - r <= x < c.to_i32() + r
        },
{
}

/// The worker's state after `n` misses in a row.
pub open spec fn missed(t: Tracker, n: int) -> Tracker
    decreases n,
{
    if n <= 0 {
        t
    } else {
        missed(t, n - 1).absorbed(None)
    }
}

/// The position is kept through fewer misses in a row than the patience, and
/// given up at the last of them, so that the next attempt searches the whole
/// map.
pub proof fn patience_decides_when_tracking_ends(t: Tracker, n: int)
    requires
        t.wf(),
        t.last is Some,
        t.lost_count == 0,
        0 <= n <= t.patience,
    ensures
        n < t.patience ==> missed(t, n).last == t.last && missed(t, n).lost_count == n,
        n == t.patience ==> missed(t, n).last is None && missed(t, n).lost_count == 0,
        missed(t, n).patience == t.patience,
        missed(t, n).wf(),
    decreases n,
{
    if n > 0 {
        patience_decides_when_tracking_ends(t, n - 1);
    }
}

/// While the whole map is searched, a miss changes nothing.
pub proof fn a_miss_while_searching_changes_nothing(t: Tracker)
    requires
        t.last is None,
    ensures
        t.absorbed(None) == t,
{
}

/// A position found ends a run of misses and is the one that is told.
pub proof fn a_hit_ends_a_run_of_misses(t: Tracker, p: WorldPos)
    ensures
        t.absorbed(Some(p)).lost_count == 0,
        t.absorbed(Some(p)).last == Some(t.smoothed(p)),
        t.absorbed(Some(p)).player() is Some,
        t.last is None ==> t.absorbed(Some(p)).last == Some((p.x, p.y)),
{
}

/// A request of the user is taken once, and asking to locate on the whole map
/// comes before a position.
pub proof fn requests_are_taken_once(t: Tracker, b: Board, hint: Binary32)
    ensures
        !heard(b).relocalize,
        heard(b).manual_pos is None,
        b.relocalize || b.manual_pos is Some ==> heard(b).tracking_enabled,
        heard(heard(b)) == heard(b),
        b.relocalize ==> t.told(b, hint).last is None,
        !b.relocalize && b.manual_pos is Some ==> t.told(b, hint).last == b.manual_pos,
{
}

/// With full weight a new position is taken as it is.
pub proof fn full_weight_takes_the_new_position(t: Tracker, p: WorldPos)
    requires
        t.alpha == Binary32::one(),
        p.x.is_finite_spec(),
        p.y.is_finite_spec(),
        t.last matches Some(l) ==> l.0.is_finite_spec() && l.1.is_finite_spec(),
    ensures
        t.smoothed(p).0.same(p.x),
        t.smoothed(p).1.same(p.y),
{
    exact::lemma_one_times(p.x);
    exact::lemma_one_times(p.y);
    exact::lemma_difference_of_equals(Binary32::one());
    let none = Binary32::one().minus(Binary32::one());
    if let Some((lx, ly)) = t.last {
        exact::lemma_zero_times(none, lx);
        exact::lemma_zero_times(none, ly);
        exact::lemma_plus_zero(p.x, none.times(lx));
        exact::lemma_plus_zero(p.y, none.times(ly));
    }
}

} // verus!
