//! What the worker and the window share.

use vstd::prelude::*;
use vstd::string::*;

use crate::binary32::Binary32;
use crate::pixels::{Colours, Rgb8};

verus! {

/// The size of the client area and the captured square on the screen, for
/// diagnostics.
#[derive(Clone, Copy, Debug, PartialEq, Eq, Structural)]
pub struct MinimapDebug {
    pub client_w: i32,
    pub client_h: i32,
    pub region_x: i32,
    pub region_y: i32,
    pub region_size: i32,
}

/// Where the player is on the map, in its pixels.
#[derive(Clone, Copy, Debug, PartialEq, Eq, Structural)]
pub struct PlayerPos {
    pub x: Binary32,
    pub y: Binary32,
    pub score: Binary32,
    /// Map pixels per minimap pixel.
    pub scale: Binary32,
}

/// What the worker tells the window, and what the window asks of the worker.
pub struct Shared {
    pub status: String,
    pub locate_debug: String,
    pub player: Option<PlayerPos>,
    /// The heading last seen, in radians, from right towards down.
    pub heading_rad: Option<Binary32>,
    pub minimap: Option<Rgb8>,
    /// Counts the minimaps.
    pub minimap_seq: u64,
    /// The piece of the map around the player.
    pub tracking_patch: Option<Rgb8>,
    /// Counts the pieces.
    pub tracking_patch_seq: u64,
    pub debug: Option<MinimapDebug>,
    /// The window asks for locating on the whole map.
    pub relocalize: bool,
    /// The window asks for tracking from this position.
    pub manual_pos: Option<(Binary32, Binary32)>,
    pub tracking_enabled: bool,
    /// The game's client area on the screen: its corner, its width and its
    /// height.
    pub game_rect: Option<[i32; 4]>,
}

/// What [`Shared`] holds.
pub struct Board {
    pub status: Seq<char>,
    pub locate_debug: Seq<char>,
    pub player: Option<PlayerPos>,
    pub heading_rad: Option<Binary32>,
    pub minimap: Option<Colours>,
    pub minimap_seq: u64,
    pub tracking_patch: Option<Colours>,
    pub tracking_patch_seq: u64,
    pub debug: Option<MinimapDebug>,
    pub relocalize: bool,
    pub manual_pos: Option<(Binary32, Binary32)>,
    pub tracking_enabled: bool,
    pub game_rect: Option<Seq<i32>>,
}

/// The numbers of a rectangle, if there is one.
pub open spec fn numbers_of(rect: Option<[i32; 4]>) -> Option<Seq<i32>> {
    match rect {
        None => None,
        Some(r) => Some(r@),
    }
}

/// What a picture shows, if there is one.
pub open spec fn shown(picture: Option<Rgb8>) -> Option<Colours> {
    match picture {
        None => None,
        Some(p) => Some(p@),
    }
}

impl View for Shared {
    type V = Board;

    open spec fn view(&self) -> Board {
        Board {
            status: self.status@,
            locate_debug: self.locate_debug@,
            player: self.player,
            heading_rad: self.heading_rad,
            minimap: shown(self.minimap),
            minimap_seq: self.minimap_seq,
            tracking_patch: shown(self.tracking_patch),
            tracking_patch_seq: self.tracking_patch_seq,
            debug: self.debug,
            relocalize: self.relocalize,
            manual_pos: self.manual_pos,
            tracking_enabled: self.tracking_enabled,
            game_rect: numbers_of(self.game_rect),
        }
    }
}

/// What is shared before anything has happened.
pub fn new_shared() -> (s: Shared)
    ensures
        s@ == (Board {
            status: "初始化..."@,
            locate_debug: Seq::empty(),
            player: None,
            heading_rad: None,
            minimap: None,
            minimap_seq: 0,
            tracking_patch: None,
            tracking_patch_seq: 0,
            debug: None,
            relocalize: false,
            manual_pos: None,
            tracking_enabled: false,
            game_rect: None,
        }),
{
    Shared {
        status: "初始化...".to_owned(),
        locate_debug: String::new(),
        player: None,
        heading_rad: None,
        minimap: None,
        minimap_seq: 0,
        tracking_patch: None,
        tracking_patch_seq: 0,
        debug: None,
        relocalize: false,
        manual_pos: None,
        tracking_enabled: false,
        game_rect: None,
    }
}

impl Shared {
    pub fn set_status(&mut self, msg: &str)
        ensures
            final(self)@ == (Board { status: msg@, ..old(self)@ }),
    {
        self.status = msg.to_owned();
    }

    /// The user starts tracking, which begins on the whole map.
    pub fn start_tracking(&mut self)
        ensures
            final(self)@ == (Board {
                tracking_enabled: true,
                relocalize: true,
                player: None,
                ..old(self)@
            }),
    {
        self.tracking_enabled = true;
        self.relocalize = true;
        self.player = None;
    }

    /// The user stops tracking.
    pub fn stop_tracking(&mut self)
        ensures
            final(self)@ == (Board { tracking_enabled: false, player: None, ..old(self)@ }),
    {
        self.tracking_enabled = false;
        self.player = None;
    }

    /// The user asks for locating on the whole map.
    pub fn ask_relocalize(&mut self)
        ensures
            final(self)@ == (Board {
                relocalize: true,
                tracking_enabled: true,
                player: None,
                ..old(self)@
            }),
    {
        self.relocalize = true;
        self.tracking_enabled = true;
        self.player = None;
    }

    /// The user says where the player is.
    pub fn place_player(&mut self, x: Binary32, y: Binary32)
        ensures
            final(self)@ == (Board {
                player: Some(
                    PlayerPos { x, y, score: Binary32::one(), scale: Binary32::one() },
                ),
                manual_pos: Some((x, y)),
                status: "手动定位完成，等待跟踪确认..."@,
                ..old(self)@
            }),
    {
        self.player = Some(PlayerPos { x, y, score: Binary32::one(), scale: Binary32::one() });
        self.manual_pos = Some((x, y));
        self.status = "手动定位完成，等待跟踪确认...".to_owned();
    }
}

} // verus!
