//! What is drawn on the map, as a list of marks from the bottom up.

use vstd::prelude::*;

use crate::angle;
use crate::binary32::convert;
use crate::binary32::exact;
use crate::binary32::Binary32;
use crate::resource::{Resource, ResourceKind};
use crate::spot::{Area, Spot};
use crate::state::{MinimapDebug, PlayerPos};
use crate::ui::OverlayApp;

verus! {

/// A colour with its opacity.
#[derive(Clone, Copy, Debug, PartialEq, Eq, Structural)]
pub struct Rgba {
    pub r: u8,
    pub g: u8,
    pub b: u8,
    pub a: u8,
}

/// Something drawn on the map, in screen pixels.
#[derive(Clone, Copy, Debug, PartialEq, Eq, Structural)]
pub enum Mark {
    Segment { from: Spot, to: Spot, width: Binary32, color: Rgba },
    Disc { at: Spot, radius: Binary32, color: Rgba },
    Ring { at: Spot, radius: Binary32, width: Binary32, color: Rgba },
    /// The label of a point of the route in use.
    Label { at: Spot, point: usize },
    /// The sign of a resource.
    Icon { at: Spot, kind: ResourceKind },
    /// How far the minimap reaches, in map pixels.
    Coverage { at: Spot, reach: Binary32 },
}

/// `8` pixels from a point to its label.
pub const LABEL_GAP: u32 = 0x4100_0000;

/// `5` and `9` pixels: the radii of the player's disc and ring.
pub const PLAYER_DISC: u32 = 0x40a0_0000;

pub const PLAYER_RING: u32 = 0x4110_0000;

/// `24` pixels from the player to the tip of the heading.
pub const HEADING_TIP: u32 = 0x41c0_0000;

/// `4` and `2.2` pixels: the widths of the heading's outline and line.
pub const HEADING_OUTLINE: u32 = 0x4080_0000;

pub const HEADING_LINE: u32 = 0x400c_cccd;

/// `0.01`: the least scale at which the minimap's reach is drawn.
pub const SCALE_MIN: u32 = 0x3c23_d70a;

/// `4` pixels from the minimap's reach to its text.
pub const COVERAGE_GAP: u32 = 0x4080_0000;

/// `7` pixels: the radius of a resource's sign.
pub const ICON_RADIUS: u32 = 0x40e0_0000;

/// `0.45`: the inner radius of a star, as a share of the outer one.
pub const STAR_INNER: u32 = 0x3ee6_6666;

/// `0.4`: the radius of a flower's heart, as a share of the flower's.
pub const FLOWER_HEART: u32 = 0x3ecc_cccd;

/// `1.5` pixels: the width of a sign's outline.
pub const ICON_LINE: u32 = 0x3fc0_0000;

/// `5`: a star's inner and outer corners are a fifth of half a turn apart.
pub const STAR_STEPS: u32 = 0x40a0_0000;

/// A quarter turn.
pub const QUARTER: u32 = 0x3fc9_0fdb;

pub open spec fn white() -> Rgba {
    Rgba { r: 255, g: 255, b: 255, a: 255 }
}

fn plain_white() -> (c: Rgba)
    ensures
        c == white(),
{
    Rgba { r: 255, g: 255, b: 255, a: 255 }
}

impl OverlayApp {
    /// Where a place of the map is on the screen.
    pub open spec fn on_screen(&self, at: Spot, center: Spot) -> Spot {
        center.plus(at.minus(self.cam_focus).times(self.cam_zoom))
    }

    /// Where a place of the map is on the screen.
    pub fn world_to_screen(&self, at: Spot, center: Spot) -> (r: Spot)
        ensures
            r == self.on_screen(at, center),
    {
        center.plus(at.minus(self.cam_focus).times(self.cam_zoom))
    }

    /// Where the whole map is on the screen.
    pub fn map_rect(&self, center: Spot) -> (r: Area)
        ensures
            r.min == self.on_screen(Spot { x: Binary32::zero(), y: Binary32::zero() }, center),
            r.max == self.on_screen(self.map_world, center),
    {
        Area {
            min: self.world_to_screen(Spot { x: Binary32::zero(), y: Binary32::zero() }, center),
            max: self.world_to_screen(self.map_world, center),
        }
    }

    /// The colour of the part of a route that has been passed or not.
    pub open spec fn route_color(&self, passed: bool) -> Rgba {
        let base = self.cfg.route.color@;
        Rgba {
            r: base[0],
            g: base[1],
            b: base[2],
            a: if passed {
                convert::of_int(base[3] as int).times(self.cfg.route.passed_opacity).to_u8()
            } else {
                base[3]
            },
        }
    }

    fn color_of(&self, passed: bool) -> (c: Rgba)
        ensures
            c == self.route_color(passed),
    {
        let base: [u8; 4] = self.cfg.route.color;
        let a: u8 = if passed {
            Binary32::of_u32(base[3] as u32).times(self.cfg.route.passed_opacity).to_u8()
        } else {
            base[3]
        };
        Rgba { r: base[0], g: base[1], b: base[2], a }
    }

    /// Where the `i`th point of the route in use is on the screen.
    pub open spec fn point_at(&self, i: int, center: Spot) -> Spot {
        self.on_screen(self.moved(self.points()[i]), center)
    }

    /// The lines between the first `n` points of the route in use.
    pub open spec fn lines(&self, center: Spot, n: int) -> Seq<Mark>
        decreases n,
    {
        if n <= 1 {
            Seq::empty()
        } else {
            self.lines(center, n - 1).push(
                Mark::Segment {
                    from: self.point_at(n - 2, center),
                    to: self.point_at(n - 1, center),
                    width: self.cfg.route.line_width,
                    color: self.route_color(self.row()[n - 2]),
                },
            )
        }
    }

    /// The marks of one point of the route in use: none where it is not seen.
    pub open spec fn dot(&self, area: Area, center: Spot, i: int) -> Seq<Mark> {
        let at = self.point_at(i, center);
        let radius = self.cfg.route.point_radius;
        let spot = seq![
            Mark::Disc { at, radius, color: self.route_color(self.row()[i]) },
            Mark::Ring {
                at,
                radius: radius.plus(Binary32::one()),
                width: Binary32::one(),
                color: white(),
            },
        ];
        if !area.holds(at) {
            Seq::empty()
        } else if self.show_point_labels && self.points()[i].label is Some {
            spot.push(
                Mark::Label {
                    at: at.plus(
                        Spot {
                            x: Binary32::zero(),
                            y: radius.negated().minus(Binary32::of_bits(LABEL_GAP)),
                        },
                    ),
                    point: i as usize,
                },
            )
        } else {
            spot
        }
    }

    /// The marks of the first `n` points of the route in use.
    pub open spec fn dots(&self, area: Area, center: Spot, n: int) -> Seq<Mark>
        decreases n,
    {
        if n <= 0 {
            Seq::empty()
        } else {
            self.dots(area, center, n - 1) + self.dot(area, center, n - 1)
        }
    }

    /// The route in use: its lines if its points are in order, then its points.
    pub open spec fn route_shown(&self, area: Area, center: Spot) -> Seq<Mark> {
        if self.has_route() {
            (if self.routes@[self.selected as int].is_path {
                self.lines(center, self.points().len() as int)
            } else {
                Seq::empty()
            }) + self.dots(area, center, self.points().len() as int)
        } else {
            Seq::empty()
        }
    }

    /// The route in use: its lines if its points are in order, then its points.
    pub fn route_marks(&self, area: Area, center: Spot) -> (r: Vec<Mark>)
        requires
            self.wf(),
        ensures
            r@ == self.route_shown(area, center),
    {
        let mut marks: Vec<Mark> = Vec::new();
        if self.selected >= self.routes.len() {
            return marks;
        }
        let sel: usize = self.selected;
        let n: usize = self.routes[sel].points.len();
        assert(self.reached@[sel as int]@.len() == n);
        if self.routes[sel].is_path {
            let mut i: usize = 1;
            while i < n
                invariant
                    self.wf(),
                    sel == self.selected,
                    sel < self.routes@.len(),
                    n == self.points().len(),
                    self.row().len() == n,
                    1 <= i,
                    i <= n || i == 1,
                    marks@ == self.lines(center, i as int),
                decreases n - i,
            {
                let a: Spot = self.transform(&self.routes[sel].points[i - 1]);
                let b: Spot = self.transform(&self.routes[sel].points[i]);
                marks.push(
                    Mark::Segment {
                        from: self.world_to_screen(a, center),
                        to: self.world_to_screen(b, center),
                        width: self.cfg.route.line_width,
                        color: self.color_of(self.reached[sel][i - 1]),
                    },
                );
                i = i + 1;
            }
            assert(marks@ == self.lines(center, n as int));
        }
        let ghost under = marks@;
        let radius: Binary32 = self.cfg.route.point_radius;
        let mut i: usize = 0;
        assert(under + self.dots(area, center, 0) =~= under);
        while i < n
            invariant
                self.wf(),
                sel == self.selected,
                sel < self.routes@.len(),
                n == self.points().len(),
                self.row().len() == n,
                radius == self.cfg.route.point_radius,
                0 <= i <= n,
                marks@ == under + self.dots(area, center, i as int),
            decreases n - i,
        {
            let ghost before = marks@;
            let at: Spot = self.world_to_screen(
                self.transform(&self.routes[sel].points[i]),
                center,
            );
            if area.holds(at) {
                marks.push(
                    Mark::Disc { at, radius, color: self.color_of(self.reached[sel][i]) },
                );
                marks.push(
                    Mark::Ring {
                        at,
                        radius: radius.plus(Binary32::one()),
                        width: Binary32::one(),
                        color: plain_white(),
                    },
                );
                if self.show_point_labels && self.routes[sel].points[i].label.is_some() {
                    marks.push(
                        Mark::Label {
                            at: at.plus(
                                Spot {
                                    x: Binary32::zero(),
                                    y: radius.negated().minus(Binary32::of_bits(LABEL_GAP)),
                                },
                            ),
                            point: i,
                        },
                    );
                }
            }
            assert(marks@ =~= before + self.dot(area, center, i as int));
            assert(marks@ =~= under + self.dots(area, center, i + 1));
            i = i + 1;
        }
        marks
    }

    /// The signs of the first `n` resources that are shown and seen.
    pub open spec fn icons(&self, area: Area, center: Spot, n: int) -> Seq<Mark>
        decreases n,
    {
        if n <= 0 {
            Seq::empty()
        } else {
            let res = self.resources@[n - 1];
            let at = self.on_screen(Spot { x: res.x, y: res.y }, center);
            if self.show_resource@[res.kind.place()] && area.holds(at) {
                self.icons(area, center, n - 1).push(Mark::Icon { at, kind: res.kind })
            } else {
                self.icons(area, center, n - 1)
            }
        }
    }

    /// The signs of the resources of the kinds that are shown.
    pub fn resource_marks(&self, area: Area, center: Spot) -> (r: Vec<Mark>)
        ensures
            r@ == self.icons(area, center, self.resources@.len() as int),
    {
        let mut marks: Vec<Mark> = Vec::new();
        let mut i: usize = 0;
        while i < self.resources.len()
            invariant
                0 <= i <= self.resources@.len(),
                marks@ == self.icons(area, center, i as int),
            decreases self.resources@.len() - i,
        {
            let res: Resource = self.resources[i];
            let at: Spot = self.world_to_screen(Spot { x: res.x, y: res.y }, center);
            if self.show_resource[res.kind.index()] && area.holds(at) {
                marks.push(Mark::Icon { at, kind: res.kind });
            }
            i = i + 1;
        }
        marks
    }

    /// The player's disc and ring.
    pub open spec fn player_spot(at: Spot) -> Seq<Mark> {
        seq![
            Mark::Disc {
                at,
                radius: Binary32::of_bits(PLAYER_DISC),
                color: Rgba { r: 255, g: 80, b: 80, a: 255 },
            },
            Mark::Ring {
                at,
                radius: Binary32::of_bits(PLAYER_RING),
                width: Binary32::two(),
                color: white(),
            },
        ]
    }

    /// The player's heading, given the way of length one that it takes.
    pub open spec fn heading_lines(at: Spot, dir: Spot) -> Seq<Mark> {
        let from = at.plus(dir.times(Binary32::of_bits(PLAYER_RING)));
        let to = at.plus(dir.times(Binary32::of_bits(HEADING_TIP)));
        seq![
            Mark::Segment {
                from,
                to,
                width: Binary32::of_bits(HEADING_OUTLINE),
                color: Rgba { r: 20, g: 20, b: 20, a: 180 },
            },
            Mark::Segment {
                from,
                to,
                width: Binary32::of_bits(HEADING_LINE),
                color: Rgba { r: 255, g: 210, b: 60, a: 255 },
            },
        ]
    }

    /// How far a minimap of `size` pixels reaches at a scale, in map pixels.
    pub open spec fn reach_of(size: int, scale: Binary32) -> Binary32 {
        convert::of_int(size).times(Binary32::half()).times(
            scale.abs().max(Binary32::of_bits(SCALE_MIN)),
        )
    }

    /// The ring of the minimap's reach with its text, unless it is too small to
    /// see.
    pub open spec fn coverage(&self, at: Spot, size: int, scale: Binary32) -> Seq<Mark> {
        let reach = OverlayApp::reach_of(size, scale);
        let radius = reach.times(self.cam_zoom);
        if radius.gt(Binary32::one()) {
            seq![
                Mark::Ring {
                    at,
                    radius,
                    width: Binary32::two(),
                    color: Rgba { r: 255, g: 220, b: 0, a: 200 },
                },
                Mark::Coverage {
                    at: at.plus(
                        Spot {
                            x: radius.plus(Binary32::of_bits(COVERAGE_GAP)),
                            y: Binary32::zero(),
                        },
                    ),
                    reach,
                },
            ]
        } else {
            Seq::empty()
        }
    }

    /// The player: its place, its heading if it is known, and the minimap's
    /// reach once a minimap has been captured. `dir` is the way of length one
    /// that the heading takes.
    pub fn player_marks(
        &self,
        player: &PlayerPos,
        dir: Option<Spot>,
        debug: Option<MinimapDebug>,
        center: Spot,
    ) -> (r: Vec<Mark>)
        ensures
            ({
                let at = self.on_screen(Spot { x: player.x, y: player.y }, center);
                r@ == OverlayApp::player_spot(at) + (match dir {
                    None => Seq::empty(),
                    Some(d) => OverlayApp::heading_lines(at, d),
                }) + (match debug {
                    None => Seq::empty(),
                    Some(d) => self.coverage(at, d.region_size as int, player.scale),
                })
            }),
    {
        let mut marks: Vec<Mark> = Vec::new();
        let at: Spot = self.world_to_screen(Spot { x: player.x, y: player.y }, center);
        marks.push(
            Mark::Disc {
                at,
                radius: Binary32::of_bits(PLAYER_DISC),
                color: Rgba { r: 255, g: 80, b: 80, a: 255 },
            },
        );
        marks.push(
            Mark::Ring {
                at,
                radius: Binary32::of_bits(PLAYER_RING),
                width: Binary32::two(),
                color: plain_white(),
            },
        );
        let ghost spot = marks@;
        assert(spot =~= OverlayApp::player_spot(at));
        if let Some(d) = dir {
            let from: Spot = at.plus(d.times(Binary32::of_bits(PLAYER_RING)));
            let to: Spot = at.plus(d.times(Binary32::of_bits(HEADING_TIP)));
            marks.push(
                Mark::Segment {
                    from,
                    to,
                    width: Binary32::of_bits(HEADING_OUTLINE),
                    color: Rgba { r: 20, g: 20, b: 20, a: 180 },
                },
            );
            marks.push(
                Mark::Segment {
                    from,
                    to,
                    width: Binary32::of_bits(HEADING_LINE),
                    color: Rgba { r: 255, g: 210, b: 60, a: 255 },
                },
            );
        }
        let ghost headed = marks@;
        assert(headed =~= spot + (match dir {
            None => Seq::empty(),
            Some(d) => OverlayApp::heading_lines(at, d),
        }));
        if let Some(d) = debug {
            let reach: Binary32 = Binary32::of_i32(d.region_size).times(Binary32::half()).times(
                player.scale.abs().max(Binary32::of_bits(SCALE_MIN)),
            );
            let radius: Binary32 = reach.times(self.cam_zoom);
            if radius.gt(Binary32::one()) {
                marks.push(
                    Mark::Ring {
                        at,
                        radius,
                        width: Binary32::two(),
                        color: Rgba { r: 255, g: 220, b: 0, a: 200 },
                    },
                );
                marks.push(
                    Mark::Coverage {
                        at: at.plus(
                            Spot {
                                x: radius.plus(Binary32::of_bits(COVERAGE_GAP)),
                                y: Binary32::zero(),
                            },
                        ),
                        reach,
                    },
                );
            }
        }
        assert(marks@ =~= headed + (match debug {
            None => Seq::empty(),
            Some(d) => self.coverage(at, d.region_size as int, player.scale),
        }));
        marks
    }
}

/// The corners of a mineral's sign: above, right, below and left.
pub fn mineral_corners(at: Spot) -> (r: [Spot; 4])
    ensures
        ({
            let far = Binary32::of_bits(ICON_RADIUS);
            let zero = Binary32::zero();
            r@ == seq![
                at.plus(Spot { x: zero, y: far.negated() }),
                at.plus(Spot { x: far, y: zero }),
                at.plus(Spot { x: zero, y: far }),
                at.plus(Spot { x: far.negated(), y: zero }),
            ]
        }),
{
    let far: Binary32 = Binary32::of_bits(ICON_RADIUS);
    let zero: Binary32 = Binary32::zero();
    let r: [Spot; 4] = [
        at.plus(Spot { x: zero, y: far.negated() }),
        at.plus(Spot { x: far, y: zero }),
        at.plus(Spot { x: zero, y: far }),
        at.plus(Spot { x: far.negated(), y: zero }),
    ];
    assert(r@ =~= seq![
        at.plus(Spot { x: zero, y: far.negated() }),
        at.plus(Spot { x: far, y: zero }),
        at.plus(Spot { x: zero, y: far }),
        at.plus(Spot { x: far.negated(), y: zero }),
    ]);
    r
}

/// The marks of a flower's sign: its disc, the ring around it and its heart.
pub fn flower_marks(at: Spot) -> (r: [Mark; 3])
    ensures
        r@ == seq![
            Mark::Disc {
                at,
                radius: Binary32::of_bits(ICON_RADIUS),
                color: Rgba { r: 255, g: 105, b: 180, a: 255 },
            },
            Mark::Ring {
                at,
                radius: Binary32::of_bits(ICON_RADIUS),
                width: Binary32::of_bits(ICON_LINE),
                color: white(),
            },
            Mark::Disc {
                at,
                radius: Binary32::of_bits(ICON_RADIUS).times(Binary32::of_bits(FLOWER_HEART)),
                color: Rgba { r: 255, g: 235, b: 120, a: 255 },
            },
        ],
{
    let disc: Mark = Mark::Disc {
        at,
        radius: Binary32::of_bits(ICON_RADIUS),
        color: Rgba { r: 255, g: 105, b: 180, a: 255 },
    };
    let ring: Mark = Mark::Ring {
        at,
        radius: Binary32::of_bits(ICON_RADIUS),
        width: Binary32::of_bits(ICON_LINE),
        color: plain_white(),
    };
    let heart: Mark = Mark::Disc {
        at,
        radius: Binary32::of_bits(ICON_RADIUS).times(Binary32::of_bits(FLOWER_HEART)),
        color: Rgba { r: 255, g: 235, b: 120, a: 255 },
    };
    let r: [Mark; 3] = [disc, ring, heart];
    assert(r@ =~= seq![disc, ring, heart]);
    r
}

/// The direction of the `i`th corner of a star, in radians.
pub fn star_angle(i: u32) -> (r: Binary32)
    ensures
        r == Binary32::of_bits(angle::PI).times(convert::of_int(i as int)).over(
            Binary32::of_bits(STAR_STEPS),
        ).minus(Binary32::of_bits(QUARTER)),
{
    Binary32::of_bits(angle::PI).times(Binary32::of_u32(i)).over(
        Binary32::of_bits(STAR_STEPS),
    ).minus(Binary32::of_bits(QUARTER))
}

/// The `i`th corner of a star: outer and inner ones in turn.
pub open spec fn star_corner(at: Spot, dir: Spot, i: int) -> Spot {
    let far = Binary32::of_bits(ICON_RADIUS);
    at.plus(
        dir.times(
            if i % 2 == 0 {
                far
            } else {
                far.times(Binary32::of_bits(STAR_INNER))
            },
        ),
    )
}

/// The corners of a star's sign, given the ways of length one to them.
pub fn star_corners(at: Spot, dirs: &Vec<Spot>) -> (r: Vec<Spot>)
    ensures
        r@.len() == dirs@.len(),
        forall|i: int|
            0 <= i < r@.len() ==> #[trigger] r@[i] == star_corner(at, dirs@[i], i),
{
    let far: Binary32 = Binary32::of_bits(ICON_RADIUS);
    let near: Binary32 = far.times(Binary32::of_bits(STAR_INNER));
    let mut r: Vec<Spot> = Vec::new();
    let mut i: usize = 0;
    while i < dirs.len()
        invariant
            0 <= i <= dirs@.len(),
            far == Binary32::of_bits(ICON_RADIUS),
            near == far.times(Binary32::of_bits(STAR_INNER)),
            r@.len() == i,
            forall|k: int| 0 <= k < i ==> #[trigger] r@[k] == star_corner(at, dirs@[k], k),
        decreases dirs@.len() - i,
    {
        let rad: Binary32 = if i % 2 == 0 {
            far
        } else {
            near
        };
        r.push(at.plus(dirs[i].times(rad)));
        i = i + 1;
    }
    r
}

/// While the view follows the player, the player is seen in the middle of the
/// area that shows the map.
pub proof fn a_followed_player_is_seen_in_the_middle(a: &OverlayApp, p: PlayerPos, center: Spot)
    requires
        a.follow_player,
        p.x.is_finite_spec(),
        p.y.is_finite_spec(),
        a.cam_zoom.is_finite_spec(),
        center.x.is_finite_spec(),
        center.y.is_finite_spec(),
    ensures
        ({
            let b = OverlayApp { cam_focus: a.settled(Some(p)), cam_inited: true, ..*a };
            let at = b.on_screen(Spot { x: p.x, y: p.y }, center);
            at.x.same(center.x) && at.y.same(center.y)
        }),
{
    lemma_no_way(p.x, a.cam_zoom, center.x);
    lemma_no_way(p.y, a.cam_zoom, center.y);
}

proof fn lemma_no_way(f: Binary32, z: Binary32, c: Binary32)
    requires
        f.is_finite_spec(),
        z.is_finite_spec(),
        c.is_finite_spec(),
    ensures
        c.plus(f.minus(f).times(z)).same(c),
{
    let way = f.minus(f);
    exact::lemma_negated(f);
    exact::lemma_difference_of_equals(f);
    exact::lemma_zero_times(way, z);
    let none = way.times(z);
    exact::lemma_plus_keeps_order(c, none, c);
}

} // verus!
