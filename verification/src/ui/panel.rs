//! The texts of the side panel.

use vstd::prelude::*;
use vstd::string::*;

use crate::binary32::convert;
use crate::binary32::Binary32;
use crate::state::MinimapDebug;
use crate::text;
use crate::ui::OverlayApp;

verus! {

/// `200` pixels: the width at which the piece of the map is shown.
pub const PATCH_WIDTH: u32 = 0x4348_0000;

/// The line with the status.
pub fn status_line(status: &str) -> (r: String)
    ensures
        r@ == "状态: "@ + status@,
{
    let mut r: String = "状态: ".to_owned();
    r.append(status);
    r
}

/// The player's position and score in decimal.
pub struct PlayerTexts {
    pub x: String,
    pub y: String,
    pub score: String,
}

/// The lines with the player's position.
pub open spec fn position_of(player: Option<PlayerTexts>) -> Seq<Seq<char>> {
    match player {
        None => seq!["坐标: --"@],
        Some(t) => seq![
            "坐标: ("@ + t.x@ + ", "@ + t.y@ + ")"@,
            "匹配度: "@ + t.score@,
        ],
    }
}

/// The lines with the player's position.
pub fn position_lines(player: &Option<PlayerTexts>) -> (r: Vec<String>)
    ensures
        text::views(r@) == position_of(*player),
{
    let mut r: Vec<String> = Vec::new();
    match player {
        Some(t) => {
            let mut at: String = text::glue("坐标: (", t.x.as_str(), ", ");
            at.append(t.y.as_str());
            at.append(")");
            r.push(at);
            let mut score: String = "匹配度: ".to_owned();
            score.append(t.score.as_str());
            r.push(score);
        },
        None => {
            r.push("坐标: --".to_owned());
        },
    }
    assert(text::views(r@) =~= position_of(*player));
    r
}

/// The lines on the captured square.
pub open spec fn debug_of(debug: Option<MinimapDebug>) -> Seq<Seq<char>> {
    match debug {
        None => seq!["等待首帧截图..."@],
        Some(d) => seq![
            "客户区: "@ + text::decimal_of(d.client_w as int) + " x "@ + text::decimal_of(
                d.client_h as int,
            ),
            "小地图屏幕位置: ("@ + text::decimal_of(d.region_x as int) + ", "@
                + text::decimal_of(d.region_y as int) + ")"@,
            "小地图边长: "@ + text::decimal_of(d.region_size as int) + " px"@,
        ],
    }
}

/// The lines on the captured square.
pub fn debug_lines(debug: Option<MinimapDebug>) -> (r: Vec<String>)
    ensures
        text::views(r@) == debug_of(debug),
{
    let mut r: Vec<String> = Vec::new();
    match debug {
        Some(d) => {
            let w: String = text::decimal(d.client_w as i64);
            let h: String = text::decimal(d.client_h as i64);
            let x: String = text::decimal(d.region_x as i64);
            let y: String = text::decimal(d.region_y as i64);
            let size: String = text::decimal(d.region_size as i64);
            let mut area: String = text::glue("客户区: ", w.as_str(), " x ");
            area.append(h.as_str());
            r.push(area);
            let mut place: String = text::glue("小地图屏幕位置: (", x.as_str(), ", ");
            place.append(y.as_str());
            place.append(")");
            r.push(place);
            r.push(text::glue("小地图边长: ", size.as_str(), " px"));
        },
        None => {
            r.push("等待首帧截图...".to_owned());
        },
    }
    assert(text::views(r@) =~= debug_of(debug));
    r
}

/// The size at which a piece of the map of `w` by `h` pixels is shown.
pub fn patch_size(w: u32, h: u32) -> (r: (Binary32, Binary32))
    ensures
        r.0 == Binary32::of_bits(PATCH_WIDTH),
        r.1 == r.0.over(
            convert::of_int(w as int).over(
                convert::of_int(
                    if h < 1 {
                        1
                    } else {
                        h as int
                    },
                ),
            ),
        ),
{
    let rows: u32 = if h < 1 {
        1
    } else {
        h
    };
    let aspect: Binary32 = Binary32::of_u32(w).over(Binary32::of_u32(rows));
    let width: Binary32 = Binary32::of_bits(PATCH_WIDTH);
    (width, width.over(aspect))
}

impl OverlayApp {
    /// The name of the route in use.
    pub fn route_name(&self) -> (r: String)
        ensures
            r@ == if self.has_route() {
                self.routes@[self.selected as int].name@
            } else {
                Seq::empty()
            },
    {
        if self.selected < self.routes.len() {
            self.routes[self.selected].name.as_str().to_owned()
        } else {
            String::new()
        }
    }

    /// The line with the number of points of the route in use.
    pub fn point_count_line(&self) -> (r: Option<String>)
        ensures
            match r {
                None => !self.has_route(),
                Some(line) => self.has_route() && line@ == "当前路线: "@ + text::decimal_of(
                    self.points().len() as int,
                ) + " 个点位"@,
            },
    {
        if self.selected < self.routes.len() {
            let n: String = text::natural(self.routes[self.selected].points.len() as u64);
            Some(text::glue("当前路线: ", n.as_str(), " 个点位"))
        } else {
            None
        }
    }
}

} // verus!
