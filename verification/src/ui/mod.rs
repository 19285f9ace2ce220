//! The window with the map: what it remembers, and what the user's actions do
//! to it.

use vstd::arithmetic::power2::*;
use vstd::prelude::*;
use vstd::string::*;

use crate::angle;
use crate::binary32::arith;
use crate::binary32::convert;
use crate::binary32::exact;
use crate::binary32::pattern;
use crate::binary32::Binary32;
use crate::config::Config;
use crate::overlay::ArrowInfo;
use crate::pixels;
use crate::pixels::{Rgb8, Rgba8};
use crate::resource::Resource;
use crate::route::{Route, RoutePoint};
use crate::spot::Spot;
use crate::state::{Board, PlayerPos, Shared};
use crate::text;

pub mod draw;
pub mod marks;
pub mod panel;
pub mod place;
pub mod turn;

verus! {

/// `0.1` and `20` times the first size of the map: the bounds of the zoom.
pub const ZOOM_MIN: u32 = 0x3dcc_cccd;

pub const ZOOM_MAX: u32 = 0x41a0_0000;

/// `0.0015`: the natural logarithm of the zoom for each unit of scrolling.
pub const SCROLL_RATE: u32 = 0x3ac4_9ba6;

/// `0.0001` and `0.1` seconds: the bounds of the time between two frames.
pub const DT_MIN: u32 = 0x38d1_b717;

pub const DT_MAX: u32 = 0x3dcc_cccd;

/// `1000` milliseconds to a second.
pub const MS_PER_S: u32 = 0x447a_0000;

/// `0.0001` seconds: turning is not smoothed below this.
pub const TAU_MIN: u32 = 0x38d1_b717;

/// What the window remembers.
pub struct OverlayApp {
    pub cfg: Config,
    pub routes: Vec<Route>,
    pub resources: Vec<Resource>,
    /// Which kinds of resources are shown.
    pub show_resource: [bool; 3],
    /// Which points of each route have been reached.
    pub reached: Vec<Vec<bool>>,
    /// The route in use.
    pub selected: usize,
    /// Pixels of the picture of the map per map pixel.
    pub display_scale: Binary32,
    /// The size of the map.
    pub map_world: Spot,
    /// The map's place in the middle of the view.
    pub cam_focus: Spot,
    /// Screen pixels per map pixel.
    pub cam_zoom: Binary32,
    pub follow_player: bool,
    pub cam_inited: bool,
    pub last_minimap_seq: u64,
    pub last_tracking_patch_seq: u64,
    /// Where the user last asked for the menu.
    pub context_menu_world: Option<Spot>,
    pub route_offset_x: Binary32,
    pub route_offset_y: Binary32,
    pub route_scale_x: Binary32,
    pub route_scale_y: Binary32,
    pub show_point_labels: bool,
    /// For each route, the label of the point to start from.
    pub start_labels: Vec<String>,
    /// The heading that is shown.
    pub disp_heading: Option<Binary32>,
}

/// The size of the picture of a map of `w` by `h` pixels whose longer side may
/// have `most` pixels.
pub open spec fn texture_of(w: int, h: int, most: int) -> (u32, u32) {
    let longer = if w >= h {
        w
    } else {
        h
    };
    let scale = if longer > most {
        convert::of_int(most).over(convert::of_int(longer))
    } else {
        Binary32::one()
    };
    (
        convert::of_int(w).times(scale).round().max(Binary32::one()).to_u32(),
        convert::of_int(h).times(scale).round().max(Binary32::one()).to_u32(),
    )
}

/// The size of the picture of the map.
pub fn texture_size(w: u32, h: u32, most: u32) -> (r: (u32, u32))
    ensures
        r == texture_of(w as int, h as int, most as int),
        r.0 >= 1,
        r.1 >= 1,
{
    let longer: u32 = if w >= h {
        w
    } else {
        h
    };
    let scale: Binary32 = if longer > most {
        Binary32::of_u32(most).over(Binary32::of_u32(longer))
    } else {
        Binary32::one()
    };
    let fw: Binary32 = Binary32::of_u32(w).times(scale).round();
    let fh: Binary32 = Binary32::of_u32(h).times(scale).round();
    proof {
        exact::lemma_max_one_to_u32(fw);
        exact::lemma_max_one_to_u32(fh);
    }
    (fw.max(Binary32::one()).to_u32(), fh.max(Binary32::one()).to_u32())
}

/// The picture of the map at the size at which it is shown. There is none when
/// the map cannot be resampled to it.
pub fn map_texture(big_map: &Rgb8, most: u32) -> (r: Option<Rgb8>)
    requires
        big_map.wf(),
    ensures
        ({
            let w = big_map.width as int;
            let h = big_map.height as int;
            let size = texture_of(w, h, most as int);
            match r {
                None => !pixels::resizable(w, h, size.0 as int, size.1 as int, 3),
                Some(img) => {
                    &&& pixels::resizable(w, h, size.0 as int, size.1 as int, 3)
                    &&& img.wf()
                    &&& img.width == size.0
                    &&& img.height == size.1
                    &&& img.data@ == pixels::triangle_rgb(
                        big_map.data@,
                        w,
                        h,
                        size.0 as int,
                        size.1 as int,
                    )
                },
            }
        }),
{
    let (tw, th) = texture_size(big_map.width, big_map.height, most);
    if pixels::can_resize(big_map.width, big_map.height, tw, th, 3) {
        Some(pixels::resize_rgb(big_map, tw, th))
    } else {
        None
    }
}

/// A colour picture with every pixel opaque.
pub fn to_color_image(img: &Rgb8) -> (r: Rgba8)
    requires
        img.wf(),
    ensures
        r.wf(),
        r.width == img.width,
        r.height == img.height,
        forall|i: int|
            0 <= i < r.data@.len() ==> #[trigger] r.data@[i] == if i % 4 == 3 {
                255u8
            } else {
                img.data@[3 * (i / 4) + i % 4]
            },
{
    let mut px: Vec<u8> = Vec::new();
    assert(img.data@.len() == img.data.len());
    let n: usize = img.data.len() / 3;
    let mut i: usize = 0;
    while i < n
        invariant
            0 <= i <= n,
            img.data@.len() == 3 * n,
            img.data@.len() <= usize::MAX,
            px@.len() == 4 * i,
            forall|j: int|
                0 <= j < px@.len() ==> #[trigger] px@[j] == if j % 4 == 3 {
                    255u8
                } else {
                    img.data@[3 * (j / 4) + j % 4]
                },
        decreases n - i,
    {
        px.push(img.data[3 * i]);
        px.push(img.data[3 * i + 1]);
        px.push(img.data[3 * i + 2]);
        px.push(255);
        i = i + 1;
    }
    Rgba8 { width: img.width, height: img.height, data: px }
}

/// A point bears a label.
pub open spec fn bears(p: RoutePoint, label: Seq<char>) -> bool {
    p.label matches Some(l) && l@ == label
}

/// The `i`th point is the first that bears a label.
pub open spec fn first_bearing(points: Seq<RoutePoint>, label: Seq<char>, i: int) -> bool {
    &&& 0 <= i < points.len()
    &&& bears(points[i], label)
    &&& forall|j: int| 0 <= j < i ==> !bears(#[trigger] points[j], label)
}

/// Which points count as reached when a route is started at a label: those
/// before the first that bears it, and none if no point does.
pub open spec fn started(points: Seq<RoutePoint>, label: Seq<char>, n: nat) -> Seq<bool> {
    Seq::new(
        n,
        |i: int|
            label.len() > 0 && exists|j: int| #[trigger] first_bearing(points, label, j) && i < j,
    )
}

/// The first point that bears a label.
pub fn find_label(points: &Vec<RoutePoint>, label: &str) -> (r: Option<usize>)
    ensures
        match r {
            Some(i) => first_bearing(points@, label@, i as int),
            None => forall|j: int| 0 <= j < points@.len() ==> !bears(#[trigger] points@[j], label@),
        },
{
    let wanted: String = label.to_owned();
    let mut i: usize = 0;
    while i < points.len()
        invariant
            0 <= i <= points@.len(),
            wanted@ == label@,
            forall|j: int| 0 <= j < i ==> !bears(#[trigger] points@[j], label@),
        decreases points@.len() - i,
    {
        if let Some(l) = &points[i].label {
            if *l == wanted {
                return Some(i);
            }
        }
        i = i + 1;
    }
    None
}

/// The rows of a table.
pub open spec fn rows(table: Seq<Vec<bool>>) -> Seq<Seq<bool>> {
    Seq::new(table.len(), |i: int| table[i]@)
}

fn all_false(n: usize) -> (r: Vec<bool>)
    ensures
        r@ == Seq::new(n as nat, |i: int| false),
{
    let mut r: Vec<bool> = Vec::new();
    let mut i: usize = 0;
    while i < n
        invariant
            0 <= i <= n,
            r@ == Seq::new(i as nat, |j: int| false),
        decreases n - i,
    {
        r.push(false);
        i = i + 1;
        assert(r@ =~= Seq::new(i as nat, |j: int| false));
    }
    r
}

impl OverlayApp {
    /// Each route has its row of points and its label, the route in use is one
    /// of them if there is any, and the bounds of the zoom are in order.
    pub open spec fn wf(&self) -> bool {
        &&& self.selected < self.routes@.len() || (self.routes@.len() == 0 && self.selected == 0)
        &&& self.reached@.len() == self.routes@.len()
        &&& self.start_labels@.len() == self.routes@.len()
        &&& forall|i: int|
            0 <= i < self.routes@.len() ==> (#[trigger] self.reached@[i])@.len()
                == self.routes@[i].points@.len()
        &&& self.least_zoom().le(self.greatest_zoom())
    }

    /// Whatever is done to a window keeps its routes and its resources, and what
    /// goes with them.
    pub open spec fn keeps(&self, before: &OverlayApp) -> bool {
        &&& self.routes == before.routes
        &&& self.resources == before.resources
        &&& before.wf() ==> self.wf()
    }

    pub open spec fn least_zoom(&self) -> Binary32 {
        self.display_scale.times(Binary32::of_bits(ZOOM_MIN))
    }

    pub open spec fn greatest_zoom(&self) -> Binary32 {
        self.display_scale.times(Binary32::of_bits(ZOOM_MAX))
    }

    /// Whether there is a route in use.
    pub open spec fn has_route(&self) -> bool {
        self.selected < self.routes@.len()
    }

    /// The points of the route in use.
    pub open spec fn points(&self) -> Seq<RoutePoint> {
        self.routes@[self.selected as int].points@
    }

    /// Which points of the route in use have been reached.
    pub open spec fn row(&self) -> Seq<bool> {
        self.reached@[self.selected as int]@
    }

    /// Nothing has been reached, no route has a label to start from, and the
    /// view is on the middle of a map of `w` by `h` pixels.
    pub fn new(cfg: Config, w: u32, h: u32, routes: Vec<Route>, resources: Vec<Resource>) -> (r:
        OverlayApp)
        ensures
            r.wf(),
            r.cfg == cfg,
            r.routes == routes,
            r.resources == resources,
            r.show_resource@ == seq![false, false, false],
            forall|i: int, j: int|
                0 <= i < r.routes@.len() && 0 <= j < r.reached@[i]@.len()
                    ==> !#[trigger] r.reached@[i]@[j],
            forall|i: int| 0 <= i < r.routes@.len() ==> (#[trigger] r.start_labels@[i])@.len() == 0,
            r.selected == 0,
            r.map_world == (Spot {
                x: convert::of_int(w as int),
                y: convert::of_int(h as int),
            }),
            r.display_scale == convert::of_int(
                texture_of(w as int, h as int, cfg.display.max_texture as int).0 as int,
            ).over(convert::of_int(w as int)),
            r.cam_focus == r.map_world.times(Binary32::half()),
            r.cam_zoom == r.display_scale.times(cfg.display.view_zoom),
            r.follow_player,
            !r.cam_inited,
            r.last_minimap_seq == u64::MAX,
            r.last_tracking_patch_seq == u64::MAX,
            r.context_menu_world is None,
            (r.route_offset_x, r.route_offset_y, r.route_scale_x, r.route_scale_y)
                == r.default_transform(),
            r.show_point_labels,
            r.disp_heading is None,
    {
        let map_world: Spot = Spot { x: Binary32::of_u32(w), y: Binary32::of_u32(h) };
        let (tw, th) = texture_size(w, h, cfg.display.max_texture);
        let display_scale: Binary32 = Binary32::of_u32(tw).over(map_world.x);
        proof {
            exact::lemma_of_u32(w as int);
            exact::lemma_of_u32(tw as int);
            exact::lemma_quotient_not_negative(
                convert::of_int(tw as int),
                convert::of_int(w as int),
            );
            exact::lemma_times_keeps_order(
                display_scale,
                Binary32::of_bits(ZOOM_MIN),
                Binary32::of_bits(ZOOM_MAX),
            );
        }
        let cam_zoom: Binary32 = display_scale.times(cfg.display.view_zoom);
        let mut reached: Vec<Vec<bool>> = Vec::new();
        let mut start_labels: Vec<String> = Vec::new();
        let mut i: usize = 0;
        while i < routes.len()
            invariant
                0 <= i <= routes@.len(),
                reached@.len() == i,
                start_labels@.len() == i,
                forall|k: int|
                    0 <= k < i ==> (#[trigger] reached@[k])@ == Seq::new(
                        routes@[k].points@.len(),
                        |j: int| false,
                    ),
                forall|k: int| 0 <= k < i ==> (#[trigger] start_labels@[k])@.len() == 0,
            decreases routes@.len() - i,
        {
            reached.push(all_false(routes[i].points.len()));
            start_labels.push(String::new());
            i = i + 1;
        }
        let (ox, oy, sx, sy) = default_transform_of(&routes, 0);
        let show_resource: [bool; 3] = [false, false, false];
        assert(show_resource@ =~= seq![false, false, false]);
        OverlayApp {
            cfg,
            routes,
            resources,
            show_resource,
            reached,
            selected: 0,
            display_scale,
            map_world,
            cam_focus: map_world.times(Binary32::half()),
            cam_zoom,
            follow_player: true,
            cam_inited: false,
            last_minimap_seq: u64::MAX,
            last_tracking_patch_seq: u64::MAX,
            context_menu_world: None,
            route_offset_x: ox,
            route_offset_y: oy,
            route_scale_x: sx,
            route_scale_y: sy,
            show_point_labels: true,
            start_labels,
            disp_heading: None,
        }
    }

    /// How the route in use is moved and stretched unless the user changes it.
    pub open spec fn default_transform(&self) -> (Binary32, Binary32, Binary32, Binary32) {
        defaults_of(self.routes@, self.selected as int)
    }

    /// Whether the minimap and the piece of the map are newer than the ones
    /// shown; from now on they are the ones shown.
    pub fn refresh(&mut self, minimap_seq: u64, patch_seq: u64) -> (r: (bool, bool))
        ensures
            final(self).keeps(old(self)),
            r.0 == (minimap_seq != old(self).last_minimap_seq),
            r.1 == (patch_seq != old(self).last_tracking_patch_seq),
            *final(self) == (OverlayApp {
                last_minimap_seq: minimap_seq,
                last_tracking_patch_seq: patch_seq,
                ..*old(self)
            }),
    {
        let new_minimap: bool = minimap_seq != self.last_minimap_seq;
        let new_patch: bool = patch_seq != self.last_tracking_patch_seq;
        self.last_minimap_seq = minimap_seq;
        self.last_tracking_patch_seq = patch_seq;
        (new_minimap, new_patch)
    }

    /// Where a point of the route in use is on the map.
    pub open spec fn moved(&self, p: RoutePoint) -> Spot {
        Spot {
            x: p.x.times(self.route_scale_x).plus(self.route_offset_x),
            y: p.y.times(self.route_scale_y).plus(self.route_offset_y),
        }
    }

    /// Where a point of the route in use is on the map.
    pub fn transform(&self, p: &RoutePoint) -> (r: Spot)
        ensures
            r == self.moved(*p),
    {
        Spot {
            x: p.x.times(self.route_scale_x).plus(self.route_offset_x),
            y: p.y.times(self.route_scale_y).plus(self.route_offset_y),
        }
    }

    /// The player is near enough to a point to have reached it.
    pub open spec fn near(&self, p: RoutePoint, x: Binary32, y: Binary32) -> bool {
        self.moved(p).minus(Spot { x, y }).length().le(self.cfg.route.reach_radius)
    }

    /// Marks the points of the route in use that the player has reached.
    pub fn mark_reached(&mut self, player: &PlayerPos)
        requires
            old(self).wf(),
        ensures
            final(self).wf(),
            final(self).keeps(old(self)),
            *final(self) == (OverlayApp { reached: final(self).reached, ..*old(self) }),
            rows(final(self).reached@) == if old(self).has_route() {
                rows(old(self).reached@).update(
                    old(self).selected as int,
                    Seq::new(
                        old(self).points().len(),
                        |i: int|
                            old(self).row()[i] || old(self).near(
                                old(self).points()[i],
                                player.x,
                                player.y,
                            ),
                    ),
                )
            } else {
                rows(old(self).reached@)
            },
    {
        if self.selected >= self.routes.len() {
            return ;
        }
        let here: Spot = Spot { x: player.x, y: player.y };
        let sel: usize = self.selected;
        let mut row: Vec<bool> = Vec::new();
        let mut i: usize = 0;
        while i < self.routes[sel].points.len()
            invariant
                *self == *old(self),
                self.wf(),
                sel == self.selected,
                sel < self.routes@.len(),
                here == (Spot { x: player.x, y: player.y }),
                0 <= i <= self.points().len(),
                row@.len() == i,
                forall|k: int|
                    0 <= k < i ==> #[trigger] row@[k] == (self.row()[k] || self.near(
                        self.points()[k],
                        player.x,
                        player.y,
                    )),
            decreases self.points().len() - i,
        {
            assert(self.reached@[sel as int]@.len() == self.points().len());
            let p: Spot = self.transform(&self.routes[sel].points[i]);
            let near: bool = p.minus(here).length().le(self.cfg.route.reach_radius);
            row.push(self.reached[sel][i] || near);
            i = i + 1;
        }
        self.reached.set(sel, row);
        proof {
            let new_row = Seq::new(
                old(self).points().len(),
                |i: int|
                    old(self).row()[i] || old(self).near(old(self).points()[i], player.x, player.y),
            );
            assert(row@ =~= new_row);
            assert(rows(self.reached@) =~= rows(old(self).reached@).update(sel as int, new_row));
        }
    }

    /// How far the heading still is from the target after a frame, as the
    /// natural logarithm of the share that is left.
    pub open spec fn easing(&self, stable_dt: Binary32) -> Binary32 {
        let dt = stable_dt.clamp(Binary32::of_bits(DT_MIN), Binary32::of_bits(DT_MAX));
        dt.negated().over(self.time_constant())
    }

    /// The time constant of smoothed turning, in seconds.
    pub open spec fn time_constant(&self) -> Binary32 {
        self.cfg.nav.turn_smooth_ms.over(Binary32::of_bits(MS_PER_S)).max(Binary32::zero())
    }

    /// The natural logarithm of the share of a turn that is left after a frame
    /// of `stable_dt` seconds.
    pub fn ease(&self, stable_dt: Binary32) -> (r: Binary32)
        ensures
            r == self.easing(stable_dt),
    {
        let dt: Binary32 = stable_dt.clamp(Binary32::of_bits(DT_MIN), Binary32::of_bits(DT_MAX));
        let tau: Binary32 = self.cfg.nav.turn_smooth_ms.over(Binary32::of_bits(MS_PER_S)).max(
            Binary32::zero(),
        );
        dt.negated().over(tau)
    }

    /// The heading shown after a frame, when the share `left` of a turn is left
    /// after it.
    pub open spec fn heading_after(&self, heading: Option<Binary32>, left: Binary32) -> Option<
        Binary32,
    > {
        match (heading, self.disp_heading) {
            (None, shown) => shown,
            (Some(target), None) => Some(target),
            (Some(target), Some(cur)) => if self.time_constant().gt(Binary32::of_bits(TAU_MIN)) {
                Some(
                    angle::turned(
                        cur.plus(
                            angle::turned(target.minus(cur)).times(Binary32::one().minus(left)),
                        ),
                    ),
                )
            } else {
                Some(target)
            },
        }
    }

    /// Turns the heading that is shown towards the one that was seen, when the
    /// share `left` of the turn is to be left after this frame.
    pub fn turn_heading(&mut self, heading: Option<Binary32>, left: Binary32) -> (r: Option<
        Binary32,
    >)
        ensures
            final(self).keeps(old(self)),
            r == old(self).heading_after(heading, left),
            *final(self) == (OverlayApp { disp_heading: r, ..*old(self) }),
    {
        if let Some(target) = heading {
            let tau: Binary32 = self.cfg.nav.turn_smooth_ms.over(Binary32::of_bits(MS_PER_S)).max(
                Binary32::zero(),
            );
            let next: Binary32 = match self.disp_heading {
                None => target,
                Some(cur) => if tau.gt(Binary32::of_bits(TAU_MIN)) {
                    let k: Binary32 = Binary32::one().minus(left);
                    angle::wrap_angle(cur.plus(angle::wrap_angle(target.minus(cur)).times(k)))
                } else {
                    target
                },
            };
            self.disp_heading = Some(next);
        }
        self.disp_heading
    }

    /// Moves and stretches the route in use as its file says.
    pub fn reset_transform(&mut self)
        ensures
            final(self).keeps(old(self)),
            *final(self) == (OverlayApp {
                route_offset_x: old(self).default_transform().0,
                route_offset_y: old(self).default_transform().1,
                route_scale_x: old(self).default_transform().2,
                route_scale_y: old(self).default_transform().3,
                ..*old(self)
            }),
    {
        let (ox, oy, sx, sy) = default_transform_of(&self.routes, self.selected);
        self.route_offset_x = ox;
        self.route_offset_y = oy;
        self.route_scale_x = sx;
        self.route_scale_y = sy;
    }

    /// Which points count as reached by the label to start from.
    pub open spec fn started_row(&self) -> Seq<bool> {
        started(
            self.points(),
            text::trimmed(self.start_labels@[self.selected as int]@),
            self.points().len(),
        )
    }

    /// Takes the points before the one with the label to start from as reached,
    /// and no others.
    pub fn apply_start_label(&mut self)
        requires
            old(self).wf(),
        ensures
            final(self).wf(),
            final(self).keeps(old(self)),
            *final(self) == (OverlayApp { reached: final(self).reached, ..*old(self) }),
            rows(final(self).reached@) == if old(self).has_route() {
                rows(old(self).reached@).update(
                    old(self).selected as int,
                    old(self).started_row(),
                )
            } else {
                rows(old(self).reached@)
            },
    {
        if self.selected >= self.routes.len() {
            return ;
        }
        let sel: usize = self.selected;
        let label: &str = text::trim(self.start_labels[sel].as_str());
        let ghost points = self.points();
        let n: usize = self.routes[sel].points.len();
        let start: usize = if label.unicode_len() == 0 {
            0
        } else {
            match find_label(&self.routes[sel].points, label) {
                Some(i) => i,
                None => 0,
            }
        };
        let mut row: Vec<bool> = Vec::new();
        let mut i: usize = 0;
        while i < n
            invariant
                0 <= i <= n,
                row@ == Seq::new(i as nat, |k: int| k < start),
            decreases n - i,
        {
            row.push(i < start);
            i = i + 1;
            assert(row@ =~= Seq::new(i as nat, |k: int| k < start));
        }
        proof {
            lemma_started(points, label@, start as int);
            assert(row@ =~= self.started_row());
        }
        self.reached.set(sel, row);
        assert(rows(self.reached@) =~= rows(old(self).reached@).update(
            sel as int,
            old(self).started_row(),
        ));
    }

    /// Uses another route: as its file says, and from its label to start from.
    pub fn select_route(&mut self, i: usize)
        requires
            old(self).wf(),
            i < old(self).routes@.len() || i == old(self).selected,
        ensures
            final(self).wf(),
            final(self).keeps(old(self)),
            final(self).selected == i,
            ({
                let chosen = OverlayApp { selected: i, ..*old(self) };
                if i == old(self).selected {
                    *final(self) == *old(self)
                } else {
                    &&& *final(self) == (OverlayApp {
                        reached: final(self).reached,
                        route_offset_x: chosen.default_transform().0,
                        route_offset_y: chosen.default_transform().1,
                        route_scale_x: chosen.default_transform().2,
                        route_scale_y: chosen.default_transform().3,
                        ..chosen
                    })
                    &&& rows(final(self).reached@) == rows(old(self).reached@).update(
                        i as int,
                        chosen.started_row(),
                    )
                }
            }),
    {
        if i == self.selected {
            return ;
        }
        self.selected = i;
        self.reset_transform();
        self.apply_start_label();
    }

    /// Takes a label to start the route in use from.
    pub fn set_start_label(&mut self, label: String)
        requires
            old(self).wf(),
        ensures
            final(self).wf(),
            final(self).keeps(old(self)),
            if old(self).has_route() {
                let named = OverlayApp {
                    start_labels: final(self).start_labels,
                    ..*old(self)
                };
                &&& final(self).start_labels@ == old(self).start_labels@.update(
                    old(self).selected as int,
                    label,
                )
                &&& *final(self) == (OverlayApp { reached: final(self).reached, ..named })
                &&& rows(final(self).reached@) == rows(old(self).reached@).update(
                    old(self).selected as int,
                    named.started_row(),
                )
            } else {
                *final(self) == *old(self)
            },
    {
        if self.selected < self.routes.len() {
            self.start_labels.set(self.selected, label);
            self.apply_start_label();
        }
    }

    /// Starts the route in use over: no point is reached, and there is no label
    /// to start from.
    pub fn reset_progress(&mut self)
        requires
            old(self).wf(),
        ensures
            final(self).wf(),
            final(self).keeps(old(self)),
            *final(self) == (OverlayApp {
                reached: final(self).reached,
                start_labels: final(self).start_labels,
                ..*old(self)
            }),
            text::views(final(self).start_labels@) == if old(self).has_route() {
                text::views(old(self).start_labels@).update(
                    old(self).selected as int,
                    Seq::empty(),
                )
            } else {
                text::views(old(self).start_labels@)
            },
            rows(final(self).reached@) == if old(self).has_route() {
                rows(old(self).reached@).update(
                    old(self).selected as int,
                    Seq::new(old(self).points().len(), |i: int| false),
                )
            } else {
                rows(old(self).reached@)
            },
    {
        if self.selected < self.routes.len() {
            let sel: usize = self.selected;
            self.reached.set(sel, all_false(self.routes[sel].points.len()));
            self.start_labels.set(sel, String::new());
            proof {
                assert(rows(self.reached@) =~= rows(old(self).reached@).update(
                    sel as int,
                    Seq::new(old(self).points().len(), |i: int| false),
                ));
                assert(text::views(self.start_labels@) =~= text::views(
                    old(self).start_labels@,
                ).update(sel as int, Seq::empty()));
            }
        }
    }

    /// The `i`th point is the first of the route in use that has not been
    /// reached.
    pub open spec fn is_next(&self, i: int) -> bool {
        &&& self.has_route()
        &&& 0 <= i < self.points().len()
        &&& !self.row()[i]
        &&& forall|j: int| 0 <= j < i ==> #[trigger] self.row()[j]
    }

    /// `p` is a point of the route in use at its place on the map.
    pub open spec fn is_moved(&self, from: RoutePoint, p: RoutePoint) -> bool {
        &&& self.moved(from) == (Spot { x: p.x, y: p.y })
        &&& match from.label {
            None => p.label is None,
            Some(l) => bears(p, l@),
        }
    }

    /// The next point to go to, moved to its place on the map.
    pub fn next_unreached_target(&self) -> (r: Option<(usize, RoutePoint)>)
        requires
            self.wf(),
        ensures
            match r {
                Some((i, p)) => self.is_next(i as int) && self.is_moved(self.points()[i as int], p),
                None => !self.has_route() || forall|j: int|
                    0 <= j < self.points().len() ==> #[trigger] self.row()[j],
            },
    {
        if self.selected >= self.routes.len() {
            return None;
        }
        let sel: usize = self.selected;
        assert(self.reached@[sel as int]@.len() == self.points().len());
        let mut i: usize = 0;
        while i < self.routes[sel].points.len()
            invariant
                self.wf(),
                sel == self.selected,
                sel < self.routes@.len(),
                self.row().len() == self.points().len(),
                0 <= i <= self.points().len(),
                forall|j: int| 0 <= j < i ==> #[trigger] self.row()[j],
            decreases self.points().len() - i,
        {
            if !self.reached[sel][i] {
                let from: &RoutePoint = &self.routes[sel].points[i];
                let at: Spot = self.transform(from);
                let label: Option<String> = match &from.label {
                    None => None,
                    Some(l) => Some(l.as_str().to_owned()),
                };
                return Some((i, RoutePoint { x: at.x, y: at.y, label }));
            }
            i = i + 1;
        }
        None
    }

    /// Puts the view on the player and keeps it there.
    pub fn locate_self(&mut self, player: Option<PlayerPos>)
        ensures
            final(self).keeps(old(self)),
            *final(self) == match player {
                None => *old(self),
                Some(p) => OverlayApp {
                    cam_focus: Spot { x: p.x, y: p.y },
                    follow_player: true,
                    ..*old(self)
                },
            },
    {
        if let Some(p) = player {
            self.cam_focus = Spot { x: p.x, y: p.y };
            self.follow_player = true;
        }
    }

    /// The place on the map that is seen at a place of the screen.
    pub open spec fn world_at(&self, pos: Spot, center: Spot) -> Spot {
        self.cam_focus.plus(pos.minus(center).over(self.cam_zoom))
    }

    /// Remembers where the user asked for the menu.
    pub fn remember_click(&mut self, pos: Spot, center: Spot)
        ensures
            final(self).keeps(old(self)),
            *final(self) == (OverlayApp {
                context_menu_world: Some(old(self).world_at(pos, center)),
                ..*old(self)
            }),
    {
        self.context_menu_world = Some(
            self.cam_focus.plus(pos.minus(center).over(self.cam_zoom)),
        );
    }

    /// Puts the view on the place where the user asked for the menu, and gives
    /// that place.
    pub fn look_at_click(&mut self) -> (r: Option<Spot>)
        ensures
            final(self).keeps(old(self)),
            r == old(self).context_menu_world,
            *final(self) == match r {
                None => *old(self),
                Some(world) => OverlayApp { cam_focus: world, follow_player: true, ..*old(self) },
            },
    {
        if let Some(world) = self.context_menu_world {
            self.cam_focus = world;
            self.follow_player = true;
        }
        self.context_menu_world
    }

    /// Takes the place where the user asked for the menu as the player's.
    pub fn locate_manually(&mut self, s: &mut Shared)
        ensures
            final(self).keeps(old(self)),
            match old(self).context_menu_world {
                None => *final(self) == *old(self) && final(s)@ == old(s)@,
                Some(world) => {
                    &&& *final(self) == (OverlayApp {
                        cam_focus: world,
                        follow_player: true,
                        ..*old(self)
                    })
                    &&& final(s)@ == (Board {
                        player: Some(
                            PlayerPos {
                                x: world.x,
                                y: world.y,
                                score: Binary32::one(),
                                scale: Binary32::one(),
                            },
                        ),
                        manual_pos: Some((world.x, world.y)),
                        status: "手动定位完成，等待跟踪确认..."@,
                        ..old(s)@
                    })
                },
            },
    {
        if let Some(world) = self.look_at_click() {
            s.place_player(world.x, world.y);
        }
    }

    /// The middle of the view before the user moves it: the player while the
    /// view follows it, and on the first frame the player or the middle of the
    /// map.
    pub open spec fn settled(&self, player: Option<PlayerPos>) -> Spot {
        match player {
            Some(p) => if self.follow_player || !self.cam_inited {
                Spot { x: p.x, y: p.y }
            } else {
                self.cam_focus
            },
            None => if self.cam_inited {
                self.cam_focus
            } else {
                self.map_world.times(Binary32::half())
            },
        }
    }

    /// Puts the view where it belongs before the user moves it.
    pub fn settle(&mut self, player: Option<PlayerPos>)
        ensures
            final(self).keeps(old(self)),
            *final(self) == (OverlayApp {
                cam_focus: old(self).settled(player),
                cam_inited: true,
                ..*old(self)
            }),
    {
        if self.follow_player {
            if let Some(p) = player {
                self.cam_focus = Spot { x: p.x, y: p.y };
            }
        }
        if !self.cam_inited {
            self.cam_focus = match player {
                Some(p) => Spot { x: p.x, y: p.y },
                None => self.map_world.times(Binary32::half()),
            };
            self.cam_inited = true;
        }
    }

    /// The middle of the view after the map is dragged.
    pub open spec fn dragged(&self, d: Spot) -> Spot {
        self.cam_focus.minus(d.over(self.cam_zoom))
    }

    /// The user drags the map: the view no longer follows the player.
    pub fn drag(&mut self, d: Spot)
        ensures
            final(self).keeps(old(self)),
            *final(self) == if d.x.same(Binary32::zero()) && d.y.same(Binary32::zero()) {
                *old(self)
            } else {
                OverlayApp {
                    follow_player: false,
                    cam_focus: old(self).dragged(d),
                    ..*old(self)
                }
            },
    {
        if !(d.x.same(Binary32::zero()) && d.y.same(Binary32::zero())) {
            self.follow_player = false;
            self.cam_focus = self.cam_focus.minus(d.over(self.cam_zoom));
        }
    }

    /// The natural logarithm of the zoom for so much scrolling, if there is
    /// any.
    pub fn scroll_exponent(scroll: Binary32) -> (r: Option<Binary32>)
        ensures
            r == if scroll.same(Binary32::zero()) {
                None
            } else {
                Some(scroll.times(Binary32::of_bits(SCROLL_RATE)))
            },
    {
        if scroll.same(Binary32::zero()) {
            None
        } else {
            Some(scroll.times(Binary32::of_bits(SCROLL_RATE)))
        }
    }

    /// The zoom after scrolling.
    pub open spec fn zoomed(&self, factor: Binary32) -> Binary32 {
        self.cam_zoom.times(factor).clamp(self.least_zoom(), self.greatest_zoom())
    }

    /// The middle of the view after zooming around the pointer.
    pub open spec fn refocused(&self, factor: Binary32, pointer: Spot, center: Spot) -> Spot {
        self.world_at(pointer, center).minus(pointer.minus(center).over(self.zoomed(factor)))
    }

    /// The user zooms by a factor, around the pointer.
    pub fn zoom(&mut self, factor: Binary32, pointer: Spot, center: Spot)
        requires
            old(self).wf(),
        ensures
            final(self).wf(),
            final(self).keeps(old(self)),
            *final(self) == (OverlayApp {
                cam_zoom: old(self).zoomed(factor),
                cam_focus: old(self).refocused(factor, pointer, center),
                ..*old(self)
            }),
    {
        let before: Spot = self.cam_focus.plus(pointer.minus(center).over(self.cam_zoom));
        let low: Binary32 = self.display_scale.times(Binary32::of_bits(ZOOM_MIN));
        let high: Binary32 = self.display_scale.times(Binary32::of_bits(ZOOM_MAX));
        self.cam_zoom = self.cam_zoom.times(factor).clamp(low, high);
        self.cam_focus = before.minus(pointer.minus(center).over(self.cam_zoom));
    }

    /// What is to be shown over the game.
    pub open spec fn aimed(&self, player: Option<PlayerPos>, rect: Option<[i32; 4]>) -> Aim {
        match (rect, player) {
            (None, _) => Aim::Leave,
            (Some(g), None) => Aim::Clear(g),
            (Some(g), Some(p)) => if exists|i: int| #[trigger] self.is_next(i) {
                let i = choose|i: int| #[trigger] self.is_next(i);
                let way = self.moved(self.points()[i]).minus(Spot { x: p.x, y: p.y });
                if way.length().lt(Binary32::one()) {
                    Aim::Clear(g)
                } else {
                    Aim::Point(g, way, way.length())
                }
            } else {
                Aim::Clear(g)
            },
        }
    }

    /// What is to be shown over the game: the way to the next point, unless the
    /// player is not known, is there already, or has nowhere to go.
    pub fn game_nav_overlay(&self, player: Option<PlayerPos>, rect: Option<[i32; 4]>) -> (r: Aim)
        requires
            self.wf(),
        ensures
            r == self.aimed(player, rect),
    {
        let g: [i32; 4] = match rect {
            Some(g) => g,
            None => {
                return Aim::Leave;
            },
        };
        let p: PlayerPos = match player {
            Some(p) => p,
            None => {
                return Aim::Clear(g);
            },
        };
        match self.next_unreached_target() {
            None => {
                assert forall|i: int| !#[trigger] self.is_next(i) by {}
                Aim::Clear(g)
            },
            Some((i, target)) => {
                proof {
                    assert(self.is_next(i as int));
                    let j = choose|j: int| #[trigger] self.is_next(j);
                    if j < i {
                        assert(self.row()[j]);
                    } else if i < j {
                        assert(self.row()[i as int]);
                    }
                }
                let at: Spot = Spot { x: target.x, y: target.y };
                let way: Spot = at.minus(Spot { x: p.x, y: p.y });
                let distance: Binary32 = way.length();
                if distance.lt(Binary32::one()) {
                    Aim::Clear(g)
                } else {
                    Aim::Point(g, way, distance)
                }
            },
        }
    }
}

/// What is to be shown over the game, in its client area.
#[derive(Clone, Copy, Debug, PartialEq, Eq)]
pub enum Aim {
    /// What is there already.
    Leave,
    /// Nothing.
    Clear([i32; 4]),
    /// An arrow along a way on the map, with its length.
    Point([i32; 4], Spot, Binary32),
}

/// The arrow along a way at `world_angle` on the map, as the player sees it.
pub open spec fn arrow_for(
    world_angle: Binary32,
    heading: Option<Binary32>,
    distance: Binary32,
) -> ArrowInfo {
    ArrowInfo {
        rel_angle: world_angle.minus(
            match heading {
                Some(h) => h,
                None => Binary32::of_bits(angle::MINUS_HALF_PI),
            },
        ),
        distance,
    }
}

/// The arrow along a way at `world_angle` on the map, as the player sees it.
/// Without a heading the player looks up the map.
pub fn arrow_to(world_angle: Binary32, heading: Option<Binary32>, distance: Binary32) -> (r:
    ArrowInfo)
    ensures
        r == arrow_for(world_angle, heading, distance),
{
    let ahead: Binary32 = match heading {
        Some(h) => h,
        None => Binary32::of_bits(angle::MINUS_HALF_PI),
    };
    ArrowInfo { rel_angle: world_angle.minus(ahead), distance }
}

/// How the `i`th route is moved and stretched unless the user changes it; no
/// route is neither.
pub open spec fn defaults_of(routes: Seq<Route>, i: int) -> (
    Binary32,
    Binary32,
    Binary32,
    Binary32,
) {
    if i < routes.len() {
        (
            routes[i].default_offset@[0],
            routes[i].default_offset@[1],
            routes[i].default_scale@[0],
            routes[i].default_scale@[1],
        )
    } else {
        (Binary32::zero(), Binary32::zero(), Binary32::one(), Binary32::one())
    }
}

fn default_transform_of(routes: &Vec<Route>, i: usize) -> (r: (
    Binary32,
    Binary32,
    Binary32,
    Binary32,
))
    ensures
        r == defaults_of(routes@, i as int),
{
    if i < routes.len() {
        (
            routes[i].default_offset[0],
            routes[i].default_offset[1],
            routes[i].default_scale[0],
            routes[i].default_scale[1],
        )
    } else {
        (Binary32::zero(), Binary32::zero(), Binary32::one(), Binary32::one())
    }
}

/// The points that count as reached, by the place of the one to start from.
proof fn lemma_started(points: Seq<RoutePoint>, label: Seq<char>, start: int)
    requires
        label.len() == 0 ==> start == 0,
        label.len() > 0 ==> first_bearing(points, label, start) || (start == 0 && forall|j: int|
            0 <= j < points.len() ==> !bears(#[trigger] points[j], label)),
    ensures
        forall|i: int|
            0 <= i < points.len() ==> #[trigger] started(points, label, points.len())[i] == (i
                < start),
{
    assert forall|i: int| 0 <= i < points.len() implies #[trigger] started(
        points,
        label,
        points.len(),
    )[i] == (i < start) by {
        if i < start {
            assert(first_bearing(points, label, start));
        }
        if label.len() > 0 && exists|j: int|
            #[trigger] first_bearing(points, label, j) && i < j {
            let j = choose|j: int| #[trigger] first_bearing(points, label, j) && i < j;
            if first_bearing(points, label, start) {
                if j < start {
                    assert(!bears(points[j], label));
                } else if start < j {
                    assert(!bears(points[start], label));
                }
            } else {
                assert(!bears(points[j], label));
            }
        }
    }
}

/// Started at a label that a point bears, a route goes on at the first such
/// point; otherwise it goes on at its first point.
pub proof fn a_route_goes_on_at_its_start_label(a: &OverlayApp, i: int)
    requires
        a.has_route(),
        a.row() == a.started_row(),
        a.points().len() > 0,
    ensures
        ({
            let label = text::trimmed(a.start_labels@[a.selected as int]@);
            &&& label.len() > 0 && first_bearing(a.points(), label, i) ==> a.is_next(i)
            &&& label.len() == 0 || (forall|j: int|
                0 <= j < a.points().len() ==> !bears(#[trigger] a.points()[j], label))
                ==> a.is_next(0)
        }),
{
    let label = text::trimmed(a.start_labels@[a.selected as int]@);
    if label.len() > 0 && first_bearing(a.points(), label, i) {
        lemma_started(a.points(), label, i);
    }
    if label.len() == 0 || (forall|j: int|
        0 <= j < a.points().len() ==> !bears(#[trigger] a.points()[j], label)) {
        lemma_started(a.points(), label, 0);
    }
}

/// However often and in whatever order a window is acted on, it keeps its routes
/// and its resources, the route in use is one of the routes if there is any, and
/// each route has its label and a row with a place for each of its points.
pub proof fn the_routes_stay_whatever_is_done(states: Seq<OverlayApp>)
    requires
        states.len() > 0,
        states[0].wf(),
        forall|i: int|
            0 <= i < states.len() - 1 ==> (#[trigger] states[i + 1]).keeps(&states[i]),
    ensures
        states.last().wf(),
        states.last().routes == states[0].routes,
        states.last().resources == states[0].resources,
    decreases states.len(),
{
    if states.len() > 1 {
        let before = states.drop_last();
        assert forall|i: int| 0 <= i < before.len() - 1 implies (#[trigger] before[i + 1]).keeps(
            &before[i],
        ) by {
            assert(states[i + 1].keeps(&states[i]));
        }
        the_routes_stay_whatever_is_done(before);
        let n = states.len() - 2;
        assert(states[n + 1].keeps(&states[n]));
    }
}

/// A heading that is shown and comes of smoothing lies within half a turn of
/// zero, unless it is no number at all.
pub proof fn a_smoothed_heading_is_within_half_a_turn(
    a: &OverlayApp,
    target: Binary32,
    cur: Binary32,
    left: Binary32,
)
    requires
        a.disp_heading == Some(cur),
        a.time_constant().gt(Binary32::of_bits(TAU_MIN)),
        cur.plus(
            angle::turned(target.minus(cur)).times(Binary32::one().minus(left)),
        ).is_finite_spec(),
    ensures
        a.heading_after(Some(target), left) matches Some(h) && angle::is_wrapped(h),
{
    angle::the_remainder_brings_an_angle_within_half_a_turn(
        cur.plus(angle::turned(target.minus(cur)).times(Binary32::one().minus(left))),
    );
}

/// Zooming stays within its bounds, unless it is by no number at all.
pub proof fn the_zoom_stays_within_its_bounds(a: &OverlayApp, factor: Binary32)
    requires
        a.wf(),
        !a.cam_zoom.times(factor).is_nan_spec(),
    ensures
        a.least_zoom().le(a.zoomed(factor)),
        a.zoomed(factor).le(a.greatest_zoom()),
{
}

/// Without smoothing a heading is shown at once.
pub proof fn without_smoothing_a_heading_is_shown_at_once(
    a: &OverlayApp,
    target: Binary32,
    left: Binary32,
)
    requires
        a.cfg.nav.turn_smooth_ms.magnitude() == 0,
    ensures
        a.heading_after(Some(target), left) == Some(target),
{
    exact::lemma_zero_over(a.cfg.nav.turn_smooth_ms, Binary32::of_bits(MS_PER_S));
}

/// The longest picture of a map that is sure to come out at the size asked for:
/// a longer one may be a pixel off by rounding.
pub const EXACT_SIDE: u32 = 0x40_0000;

/// What is less than a quarter above a whole number is nearest to a number of at
/// most a quarter above it.
proof fn lemma_just_above(most: int, n: int) -> (limit: int)
    requires
        1 <= most <= EXACT_SIDE,
        0 <= n,
        4 * n < (4 * (most * pow2(149)) + pow2(149)) * pow2(149),
    ensures
        0 <= limit < pattern::INFINITE,
        pattern::nearest(n, pow2(149) as int) <= limit,
        pattern::units(limit) <= (4 * most + 1) * pow2(147),
{
    let one = pow2(149) as int;
    let quarter = pow2(147) as int;
    lemma2_to64();
    lemma_pow2_adds(2, 147);
    lemma_pow2_pos(147);
    exact::lemma_nearest_total(n, one);
    let exact_most = (4 * most + 1) * quarter;
    assert(4 * exact_most == 4 * (most * one) + one) by (nonlinear_arith)
        requires
            exact_most == (4 * most + 1) * quarter,
            one == 4 * quarter,
    ;
    assert(n <= exact_most * one) by (nonlinear_arith)
        requires
            4 * n < (4 * exact_most) * one,
    ;
    if most < EXACT_SIDE {
        let limit = exact::pattern_for(4 * most + 1, 147);
        exact::lemma_nearest_keeps_order(n, one, limit);
        limit
    } else {
        // There the numbers are half apart.
        let limit = 0x4a80_0000int;
        lemma_pow2_adds(23, 148);
        lemma_pow2_unfold(149);
        let half = pow2(148) as int;
        assert(0x4a80_0000int / 0x80_0000 == 149 && 0x4a80_0000int % 0x80_0000 == 0);
        assert(0x4a80_0001int / 0x80_0000 == 149 && 0x4a80_0001int % 0x80_0000 == 1);
        assert(pattern::units(limit) == 0x80_0000 * half);
        assert(pattern::units(limit + 1) == 0x80_0001 * half);
        let q = pattern::nearest(n, one);
        assert(exact_most <= 0x80_0001 * half) by (nonlinear_arith)
            requires
                exact_most == 0x100_0001 * quarter,
                half == 2 * quarter,
                quarter > 0,
        ;
        assert(exact_most * one <= (0x80_0001 * half) * one) by (nonlinear_arith)
            requires
                exact_most <= 0x80_0001 * half,
                one > 0,
        ;
        exact::lemma_nearest_keeps_order(n, one, limit + 1);
        if q == limit + 1 {
            assert((0x80_0000 * half + 0x80_0001 * half) * one == 2 * (exact_most * one))
                by (nonlinear_arith)
                requires
                    exact_most == 0x100_0001 * quarter,
                    half == 2 * quarter,
            ;
            assert(2 * (2 * n) < 2 * (2 * (exact_most * one))) by (nonlinear_arith)
                requires
                    4 * n < (4 * exact_most) * one,
            ;
            assert(false);
        }
        assert(0x80_0000 * half <= 0x100_0001 * quarter) by (nonlinear_arith)
            requires
                half == 2 * quarter,
                quarter > 0,
        ;
        limit
    }
}

/// A side after shrinking by the share `most / longer`.
proof fn lemma_shrunk(side: int, longer: int, most: int)
    requires
        1 <= side <= longer <= 0x100_0000,
        1 <= most <= EXACT_SIDE,
        most < longer,
    ensures
        ({
            let shrunk = convert::of_int(side).times(
                convert::of_int(most).over(convert::of_int(longer)),
            ).round().max(Binary32::one()).to_u32();
            shrunk <= most && (side == longer ==> shrunk == most)
        }),
{
    reveal(Binary32::over_spec);
    reveal(Binary32::times_spec);
    let one = pow2(149) as int;
    let fs = convert::of_int(side);
    let fl = convert::of_int(longer);
    let fm = convert::of_int(most);
    lemma_pow2_pos(149);
    exact::lemma_of_int_exact(side);
    exact::lemma_of_int_exact(longer);
    exact::lemma_of_int_exact(most);
    exact::lemma_of_u32(side);
    exact::lemma_of_u32(longer);
    exact::lemma_of_u32(most);
    // The share is within half a step of the quotient.
    let n = (most * one) * one;
    let d = longer * one;
    assert(n >= 0 && d > 0) by (nonlinear_arith)
        requires
            n == (most * one) * one,
            d == longer * one,
            most >= 1,
            longer >= 1,
            one > 0,
    ;
    let q = pattern::nearest(n, d);
    exact::lemma_nearest_total(n, d);
    // It is no smaller than 2^-24.
    let low = 0x3380_0000int;
    lemma2_to64();
    lemma_pow2_adds(23, 102);
    lemma_pow2_adds(24, 125);
    let tiny = pow2(125) as int;
    assert(pattern::units(low) == tiny);
    assert(n >= tiny * d) by (nonlinear_arith)
        requires
            n == (most * one) * one,
            d == longer * one,
            one == 0x100_0000 * tiny,
            most >= 1,
            1 <= longer <= 0x100_0000,
            tiny > 0,
    ;
    exact::lemma_nearest_keeps_order(n, d, low);
    assert(n <= one * d) by (nonlinear_arith)
        requires
            n == (most * one) * one,
            d == longer * one,
            most <= longer,
            one > 0,
    ;
    exact::lemma_one_and_half();
    exact::lemma_nearest_keeps_order(n, d, 0x3f80_0000);
    exact::lemma_step_is_small(q);
    exact::lemma_step_is_small(q + 1);
    let u = pattern::units(q);
    let v = pattern::units(q - 1);
    let w = pattern::units(q + 1);
    // Longer times the share is within a quarter of most.
    assert((v + u) * longer <= 2 * (most * one)) by (nonlinear_arith)
        requires
            (v + u) * d <= 2 * n,
            n == (most * one) * one,
            d == longer * one,
            one > 0,
    ;
    assert((v + u) * longer == v * longer + u * longer && v * longer < u * longer && 0x80_0000 * (u
        * longer - v * longer) <= v * longer) by (nonlinear_arith)
        requires
            0x80_0000 * (u - v) <= v,
            0 <= v < u,
            longer >= 1,
    ;
    assert(most * one <= 0x40_0000 * one) by (nonlinear_arith)
        requires
            most <= 0x40_0000,
            one > 0,
    ;
    assert(4 * (u * longer) < 4 * (most * one) + one);
    assert(2 * (most * one) <= (u + w) * longer) by (nonlinear_arith)
        requires
            2 * n <= (u + w) * d,
            n == (most * one) * one,
            d == longer * one,
            one > 0,
    ;
    assert((u + w) * longer == u * longer + w * longer && 0x80_0000 * (w * longer - u * longer) <= u
        * longer) by (nonlinear_arith)
        requires
            0x80_0000 * (w - u) <= u,
            longer >= 1,
    ;
    assert(4 * (u * longer) >= 4 * (most * one) - one);
    assert(0 <= u * side && u * side <= u * longer) by (nonlinear_arith)
        requires
            u >= 0,
            1 <= side <= longer,
    ;
    // So is the product, and it rounds to at most most.
    let share = fm.over(fl);
    let product = fs.times(share);
    lemma_pow2_adds(2, 147);
    let quarter = pow2(147) as int;
    assert((side * one) * u == (u * side) * one) by (nonlinear_arith);
    assert(4 * ((u * side) * one) < (4 * (most * one) + one) * one) by (nonlinear_arith)
        requires
            4 * (u * side) < 4 * (most * one) + one,
            one > 0,
    ;
    let limit = lemma_just_above(most, (side * one) * u);
    assert(0 <= (u * side) * one) by (nonlinear_arith)
        requires
            0 <= u * side,
            one > 0,
    ;
    exact::lemma_nearest_total((side * one) * u, one);
    assert(share.magnitude() == q && !share.is_negative());
    let p = product.magnitude();
    assert(p == pattern::nearest((side * one) * u, one));
    assert(0 <= p <= limit);
    if p < limit {
        pattern::lemma_units_increase(p, limit);
    }
    arith::lemma_zero_magnitude(p);
    let up = pattern::units(p);
    let whole = (2 * up + one) / (2 * one);
    vstd::arithmetic::div_mod::lemma_div_pos_is_pos(2 * up + one, 2 * one);
    assert(2 * up + one < (most + 1) * (2 * one)) by (nonlinear_arith)
        requires
            up <= (4 * most + 1) * quarter,
            one == 4 * quarter,
            quarter > 0,
    ;
    vstd::arithmetic::div_mod::lemma_div_by_multiple_is_strongly_ordered(
        2 * up + one,
        (most + 1) * (2 * one),
        most + 1,
        2 * one,
    );
    vstd::arithmetic::div_mod::lemma_div_multiples_vanish(most + 1, 2 * one);
    assert((most + 1) * (2 * one) == (2 * one) * (most + 1)) by (nonlinear_arith);
    assert(0 <= whole <= most);
    assert(product.round() == convert::of_int(whole));
    if side == longer {
        let least = exact::pattern_for(4 * most - 1, 147);
        assert((u * side) * one >= ((4 * most - 1) * quarter) * one) by (nonlinear_arith)
            requires
                4 * (u * side) >= 4 * (most * one) - one,
                one == 4 * quarter,
                quarter > 0,
        ;
        exact::lemma_nearest_keeps_order((side * one) * u, one, least);
        if least < p {
            pattern::lemma_units_increase(least, p);
        }
        assert(most * (2 * one) <= 2 * up + one) by (nonlinear_arith)
            requires
                up >= (4 * most - 1) * quarter,
                one == 4 * quarter,
                quarter > 0,
        ;
        vstd::arithmetic::div_mod::lemma_div_is_ordered(
            most * (2 * one),
            2 * up + one,
            2 * one,
        );
        vstd::arithmetic::div_mod::lemma_div_multiples_vanish(most, 2 * one);
        assert(most * (2 * one) == (2 * one) * most) by (nonlinear_arith);
    }
    exact::lemma_of_u32(whole);
    exact::lemma_round_whole(whole);
    exact::lemma_round_whole(1);
    exact::lemma_one_and_half();
    exact::lemma_of_int_exact(1);
}

/// The longer side of the picture of a map that is too long has just the length
/// allowed, and the other is no longer; a map that is not too long is shown at
/// its own size.
pub proof fn the_picture_of_the_map_keeps_to_its_longest_side(w: int, h: int, most: int)
    requires
        1 <= w <= 0x100_0000,
        1 <= h <= 0x100_0000,
        1 <= most <= u32::MAX,
    ensures
        most <= EXACT_SIDE ==> {
            &&& texture_of(w, h, most).0 <= most
            &&& texture_of(w, h, most).1 <= most
            &&& w >= h && w > most ==> texture_of(w, h, most).0 == most
            &&& h >= w && h > most ==> texture_of(w, h, most).1 == most
        },
        w <= most && h <= most ==> texture_of(w, h, most) == (w as u32, h as u32),
{
    let longer = if w >= h {
        w
    } else {
        h
    };
    if longer > most {
        if most <= EXACT_SIDE {
            lemma_shrunk(w, longer, most);
            lemma_shrunk(h, longer, most);
        }
    } else {
        exact::lemma_of_u32(w);
        exact::lemma_of_u32(h);
        exact::lemma_one_times(convert::of_int(w));
        exact::lemma_one_times(convert::of_int(h));
        exact::lemma_round_whole(w);
        exact::lemma_round_whole(h);
    }
}

} // verus!
