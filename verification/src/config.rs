//! The settings, and what they are when a file leaves them out.

use vstd::prelude::*;

use crate::binary32::Binary32;

verus! {

/// All settings.
#[derive(Clone, Debug)]
pub struct Config {
    pub window: WindowConfig,
    pub matching: MatchingConfig,
    pub locating: LocatingConfig,
    pub tracking: TrackingConfig,
    pub capture: CaptureConfig,
    pub display: DisplayConfig,
    pub route: RouteConfig,
    pub nav: NavConfig,
    pub resource: ResourceConfig,
    pub debug: DebugConfig,
}

/// Which window to look for.
#[derive(Clone, Debug)]
pub struct WindowConfig {
    pub title: String,
}

/// Template matching, for locating and tracking alike.
#[derive(Clone, Copy, Debug, PartialEq, Eq, Structural)]
pub struct MatchingConfig {
    /// Outer radius of the part of the minimap that counts, as a share of its
    /// half width.
    pub inner_ratio: Binary32,
    /// Radius of the part around the player's arrow that does not count.
    pub center_exclude_ratio: Binary32,
    /// Guess of map pixels per minimap pixel.
    pub scale: Binary32,
    /// How far around the guess locating searches, as a share of it.
    pub scale_search: Binary32,
    /// A score below this is no match.
    pub min_score: Binary32,
    /// Weight of a new position when positions are smoothed.
    pub ema_alpha: Binary32,
}

/// Locating on the whole map.
#[derive(Clone, Copy, Debug, PartialEq, Eq, Structural)]
pub struct LocatingConfig {
    /// Width of the reduced map that is searched.
    pub coarse_width: u32,
    /// How many scales are tried.
    pub scale_steps: u32,
    /// Diameter of the template when the position is refined.
    pub refine_diam: u32,
    /// Milliseconds between attempts.
    pub interval_ms: u64,
}

/// Following a known position.
#[derive(Clone, Copy, Debug, PartialEq, Eq, Structural)]
pub struct TrackingConfig {
    /// How far around the last position to search, in map pixels.
    pub search_radius: Binary32,
    /// Diameter of the template in the first pass.
    pub coarse_diam: u32,
    /// Diameter of the template in the second pass.
    pub fine_diam: u32,
    /// Milliseconds between attempts.
    pub interval_ms: u64,
    /// How many misses in a row end tracking.
    pub lost_patience: u32,
}

/// Where the map is.
#[derive(Clone, Debug)]
pub struct CaptureConfig {
    pub big_map_path: String,
}

/// How the map is shown.
#[derive(Clone, Copy, Debug, PartialEq, Eq, Structural)]
pub struct DisplayConfig {
    /// Longest side of the picture of the map that is shown.
    pub max_texture: u32,
    pub view_zoom: Binary32,
}

/// Where routes come from and how they are drawn.
#[derive(Clone, Debug)]
pub struct RouteConfig {
    pub dir: String,
    pub line_width: Binary32,
    pub point_radius: Binary32,
    /// How near to a point counts as having reached it, in map pixels.
    pub reach_radius: Binary32,
    /// Red, green, blue and opacity.
    pub color: [u8; 4],
    /// Opacity of what has been passed, as a share.
    pub passed_opacity: Binary32,
}

/// The arrow over the game.
#[derive(Clone, Copy, Debug, PartialEq, Eq, Structural)]
pub struct NavConfig {
    /// Time constant of smoothed turning, in milliseconds.
    pub turn_smooth_ms: Binary32,
}

/// Where the points of interest are.
#[derive(Clone, Debug)]
pub struct ResourceConfig {
    pub file: String,
}

/// Diagnostics.
#[derive(Clone, Debug)]
pub struct DebugConfig {
    pub enabled: bool,
    /// Whether to keep every minimap on disk.
    pub save_minimap: bool,
    pub save_path: String,
}

/// 0.92.
pub fn d_inner_ratio() -> (r: Binary32)
    ensures
        r.bits == 0x3f6b_851f,
{
    Binary32::of_bits(0x3f6b_851f)
}

/// 0.22.
pub fn d_center_exclude_ratio() -> (r: Binary32)
    ensures
        r.bits == 0x3e61_47ae,
{
    Binary32::of_bits(0x3e61_47ae)
}

/// 1.45.
pub fn d_scale() -> (r: Binary32)
    ensures
        r.bits == 0x3fb9_999a,
{
    Binary32::of_bits(0x3fb9_999a)
}

/// 0.18.
pub fn d_scale_search() -> (r: Binary32)
    ensures
        r.bits == 0x3e38_51ec,
{
    Binary32::of_bits(0x3e38_51ec)
}

/// 0.45.
pub fn d_min_score() -> (r: Binary32)
    ensures
        r.bits == 0x3ee6_6666,
{
    Binary32::of_bits(0x3ee6_6666)
}

/// 0.5.
pub fn d_ema_alpha() -> (r: Binary32)
    ensures
        r.bits == 0x3f00_0000,
{
    Binary32::of_bits(0x3f00_0000)
}

pub fn d_coarse_width() -> (r: u32)
    ensures
        r == 640,
{
    640
}

pub fn d_scale_steps() -> (r: u32)
    ensures
        r == 13,
{
    13
}

pub fn d_refine_diam() -> (r: u32)
    ensures
        r == 110,
{
    110
}

pub fn d_locate_interval_ms() -> (r: u64)
    ensures
        r == 700,
{
    700
}

/// 150.
pub fn d_search_radius() -> (r: Binary32)
    ensures
        r.bits == 0x4316_0000,
{
    Binary32::of_bits(0x4316_0000)
}

pub fn d_track_coarse_diam() -> (r: u32)
    ensures
        r == 56,
{
    56
}

pub fn d_track_fine_diam() -> (r: u32)
    ensures
        r == 120,
{
    120
}

pub fn d_track_interval_ms() -> (r: u64)
    ensures
        r == 40,
{
    40
}

pub fn d_lost_patience() -> (r: u32)
    ensures
        r == 4,
{
    4
}

/// 120.
pub fn d_nav_turn_smooth_ms() -> (r: Binary32)
    ensures
        r.bits == 0x42f0_0000,
{
    Binary32::of_bits(0x42f0_0000)
}

pub fn d_route_dir() -> (r: String)
    ensures
        r@ == "res/routes"@,
{
    "res/routes".to_owned()
}

impl Default for LocatingConfig {
    fn default() -> (r: Self)
        ensures
            r.coarse_width == 640,
            r.scale_steps == 13,
            r.refine_diam == 110,
            r.interval_ms == 700,
    {
        LocatingConfig {
            coarse_width: d_coarse_width(),
            scale_steps: d_scale_steps(),
            refine_diam: d_refine_diam(),
            interval_ms: d_locate_interval_ms(),
        }
    }
}

impl Default for TrackingConfig {
    fn default() -> (r: Self)
        ensures
            r.search_radius.bits == 0x4316_0000,
            r.coarse_diam == 56,
            r.fine_diam == 120,
            r.interval_ms == 40,
            r.lost_patience == 4,
    {
        TrackingConfig {
            search_radius: d_search_radius(),
            coarse_diam: d_track_coarse_diam(),
            fine_diam: d_track_fine_diam(),
            interval_ms: d_track_interval_ms(),
            lost_patience: d_lost_patience(),
        }
    }
}

impl Default for DisplayConfig {
    fn default() -> (r: Self)
        ensures
            r.max_texture == 2048,
            r.view_zoom == Binary32::one(),
    {
        DisplayConfig { max_texture: 2048, view_zoom: Binary32::one() }
    }
}

impl Default for RouteConfig {
    /// Lines of 1.5, points of 3, reached within 10, passed at 0.12.
    fn default() -> (r: Self)
        ensures
            r.dir@ == "res/routes"@,
            r.line_width.bits == 0x3fc0_0000,
            r.point_radius.bits == 0x4040_0000,
            r.reach_radius.bits == 0x4120_0000,
            r.color@ == seq![220u8, 50, 50, 255],
            r.passed_opacity.bits == 0x3df5_c28f,
    {
        RouteConfig {
            dir: d_route_dir(),
            line_width: Binary32::of_bits(0x3fc0_0000),
            point_radius: Binary32::of_bits(0x4040_0000),
            reach_radius: Binary32::of_bits(0x4120_0000),
            color: [220, 50, 50, 255],
            passed_opacity: Binary32::of_bits(0x3df5_c28f),
        }
    }
}

impl Default for NavConfig {
    fn default() -> (r: Self)
        ensures
            r.turn_smooth_ms.bits == 0x42f0_0000,
    {
        NavConfig { turn_smooth_ms: d_nav_turn_smooth_ms() }
    }
}

impl Default for ResourceConfig {
    fn default() -> (r: Self)
        ensures
            r.file@ == "res/resources.json"@,
    {
        ResourceConfig { file: "res/resources.json".to_owned() }
    }
}

impl Default for DebugConfig {
    fn default() -> (r: Self)
        ensures
            r.enabled,
            !r.save_minimap,
            r.save_path@ == "debug_minimap.png"@,
    {
        DebugConfig {
            enabled: true,
            save_minimap: false,
            save_path: "debug_minimap.png".to_owned(),
        }
    }
}

} // verus!
