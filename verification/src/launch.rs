//! How the program is started, and the picture of its self test.

use vstd::prelude::*;
use vstd::string::*;

use crate::binary32::convert;
use crate::binary32::Binary32;
use crate::locator::WorldPos;
use crate::pixels;
use crate::pixels::Rgb8;

verus! {

/// What the program is asked to do.
#[derive(Clone, Debug)]
pub enum LaunchMode {
    /// Navigate.
    Run,
    /// Locate the minimap in a file.
    SelfTest(String),
    /// Say how the program is used.
    Help,
}

/// The side of the picture that the self test leaves, in pixels.
pub const SELFTEST_SIDE: u32 = 144;

/// How the program is used.
pub fn usage_text() -> (r: &'static str)
    ensures
        r@
            == "用法:\n  roco-nav                 启动导航叠加窗口\n  roco-nav selftest [图片]  用一张小地图截图离线验证定位并保存匹配处裁切（默认 debug_minimap.png）\n"@,
{
    "用法:\n  roco-nav                 启动导航叠加窗口\n  roco-nav selftest [图片]  用一张小地图截图离线验证定位并保存匹配处裁切（默认 debug_minimap.png）\n"
}

/// A command asks for help.
pub open spec fn asks_help(cmd: Seq<char>) -> bool {
    cmd == "-h"@ || cmd == "--help"@ || cmd == "help"@
}

/// What the arguments after the program's name ask for. An unknown command is
/// answered with how the program is used.
pub fn parse_launch_mode(args: &Vec<String>) -> (r: Result<LaunchMode, String>)
    ensures
        args@.len() == 0 ==> (r matches Ok(m) && m is Run),
        args@.len() > 0 ==> ({
            let cmd = args@[0]@;
            if cmd == "selftest"@ {
                r matches Ok(m) && m matches LaunchMode::SelfTest(path) && path@ == if args@.len()
                    > 1 {
                    args@[1]@
                } else {
                    "debug_minimap.png"@
                }
            } else if cmd == "run"@ {
                r matches Ok(m) && m is Run
            } else if asks_help(cmd) {
                r matches Ok(m) && m is Help
            } else {
                r matches Err(e) && e@ == "未知命令: "@ + cmd + "\n\n"@
                    + "用法:\n  roco-nav                 启动导航叠加窗口\n  roco-nav selftest [图片]  用一张小地图截图离线验证定位并保存匹配处裁切（默认 debug_minimap.png）\n"@
            }
        }),
{
    if args.len() == 0 {
        return Ok(LaunchMode::Run);
    }
    let cmd: &String = &args[0];
    if *cmd == "selftest".to_owned() {
        let path: String = if args.len() > 1 {
            args[1].as_str().to_owned()
        } else {
            "debug_minimap.png".to_owned()
        };
        Ok(LaunchMode::SelfTest(path))
    } else if *cmd == "run".to_owned() {
        Ok(LaunchMode::Run)
    } else if *cmd == "-h".to_owned() || *cmd == "--help".to_owned() || *cmd == "help".to_owned() {
        Ok(LaunchMode::Help)
    } else {
        let mut e: String = "未知命令: ".to_owned();
        e.append(cmd.as_str());
        e.append("\n\n");
        e.append(usage_text());
        Err(e)
    }
}

/// Half the side of the piece of the map that a minimap `mm_w` pixels wide
/// covers at a scale.
pub open spec fn half_cover(mm_w: int, scale: Binary32) -> i32 {
    convert::of_int(mm_w).times(scale).times(Binary32::half()).to_i32()
}

/// The first place and the length of a window of `2 * half` pixels around `c`
/// on an axis of `n` pixels; it holds at least one pixel and stays on the axis.
pub open spec fn window_on(c: int, half: int, n: int) -> (int, int) {
    let first = if c - half < 0 {
        0
    } else if c - half > n - 1 {
        n - 1
    } else {
        c - half
    };
    let length = if 2 * half < n - first {
        2 * half
    } else {
        n - first
    };
    (
        first,
        if length < 1 {
            1
        } else {
            length
        },
    )
}

fn window_along(c: i32, half: i32, n: u32) -> (r: (u32, u32))
    requires
        half >= 0,
        i32::MIN <= c - half,
        1 <= n <= i32::MAX,
    ensures
        (r.0 as int, r.1 as int) == window_on(c as int, half as int, n as int),
        r.0 + r.1 <= n,
{
    let low: i32 = c - half;
    let last: i32 = (n as i32) - 1;
    let first: u32 = if low < 0 {
        0
    } else if low > last {
        last as u32
    } else {
        low as u32
    };
    let wide: u32 = (half as u32) * 2;
    let left: u32 = n - first;
    let length: u32 = if wide < left {
        wide
    } else {
        left
    };
    (
        first,
        if length < 1 {
            1
        } else {
            length
        },
    )
}

/// The piece of the map where a minimap was found: its first column and row and
/// its width and height. There is none when the map is empty, when the scale is
/// negative, or when its places cannot be counted in 32 bits.
pub fn selftest_window(map_w: u32, map_h: u32, mm_w: u32, pos: &WorldPos) -> (r: Option<
    (u32, u32, u32, u32),
>)
    ensures
        ({
            let half = half_cover(mm_w as int, pos.scale);
            match r {
                None => {
                    ||| half < 0
                    ||| pos.x.to_i32() - half < i32::MIN
                    ||| pos.y.to_i32() - half < i32::MIN
                    ||| !(1 <= map_w <= i32::MAX)
                    ||| !(1 <= map_h <= i32::MAX)
                },
                Some((x0, y0, w, h)) => {
                    &&& half >= 0
                    &&& 1 <= map_w <= i32::MAX
                    &&& 1 <= map_h <= i32::MAX
                    &&& i32::MIN <= pos.x.to_i32() - half
                    &&& i32::MIN <= pos.y.to_i32() - half
                    &&& (x0 as int, w as int) == window_on(
                        pos.x.to_i32() as int,
                        half as int,
                        map_w as int,
                    )
                    &&& (y0 as int, h as int) == window_on(
                        pos.y.to_i32() as int,
                        half as int,
                        map_h as int,
                    )
                    &&& x0 + w <= map_w
                    &&& y0 + h <= map_h
                },
            }
        }),
{
    let half: i32 = Binary32::of_u32(mm_w).times(pos.scale).times(Binary32::half()).to_i32();
    let x: i32 = pos.x.to_i32();
    let y: i32 = pos.y.to_i32();
    if half < 0 || map_w < 1 || map_w > 0x7fff_ffff || map_h < 1 || map_h > 0x7fff_ffff {
        return None;
    }
    if (x as i64) - (half as i64) < -0x8000_0000 || (y as i64) - (half as i64) < -0x8000_0000 {
        return None;
    }
    let (x0, w) = window_along(x, half, map_w);
    let (y0, h) = window_along(y, half, map_h);
    Some((x0, y0, w, h))
}

/// The piece of the map where a minimap was found, at the size at which the
/// self test leaves it. There is none when it cannot be counted or resampled.
pub fn selftest_crop(big_map: &Rgb8, mm_w: u32, pos: &WorldPos) -> (r: Option<Rgb8>)
    requires
        big_map.wf(),
    ensures
        ({
            let half = half_cover(mm_w as int, pos.scale) as int;
            let w = big_map.width as int;
            let h = big_map.height as int;
            let cols = window_on(pos.x.to_i32() as int, half, w);
            let rows = window_on(pos.y.to_i32() as int, half, h);
            let side = SELFTEST_SIDE as int;
            match r {
                None => {
                    ||| half < 0
                    ||| pos.x.to_i32() - half < i32::MIN
                    ||| pos.y.to_i32() - half < i32::MIN
                    ||| !(1 <= w <= i32::MAX)
                    ||| !(1 <= h <= i32::MAX)
                    ||| !pixels::resizable(cols.1, rows.1, side, side, 3)
                },
                Some(img) => {
                    &&& half >= 0
                    &&& i32::MIN <= pos.x.to_i32() - half
                    &&& i32::MIN <= pos.y.to_i32() - half
                    &&& 1 <= w <= i32::MAX
                    &&& 1 <= h <= i32::MAX
                    &&& pixels::resizable(cols.1, rows.1, side, side, 3)
                    &&& img.wf()
                    &&& img.width == SELFTEST_SIDE
                    &&& img.height == SELFTEST_SIDE
                    &&& img.data@ == pixels::triangle_rgb(
                        pixels::window_rgb(big_map.data@, w, cols, rows),
                        cols.1,
                        rows.1,
                        side,
                        side,
                    )
                },
            }
        }),
{
    let (x0, y0, cw, ch) = match selftest_window(big_map.width, big_map.height, mm_w, pos) {
        Some(window) => window,
        None => {
            return None;
        },
    };
    let part: Rgb8 = pixels::crop_rgb(big_map, x0, y0, cw, ch);
    if !pixels::can_resize(part.width, part.height, SELFTEST_SIDE, SELFTEST_SIDE, 3) {
        return None;
    }
    Some(pixels::resize_rgb(&part, SELFTEST_SIDE, SELFTEST_SIDE))
}

/// The window about a place of the map holds that place and lies on the map. It is as
/// wide as asked for wherever the map goes on that far, and then starts half of that
/// before the place, or where the map starts.
pub proof fn a_window_about_a_place_holds_it(c: int, half: int, n: int)
    requires
        0 <= c < n,
        1 <= half,
    ensures
        ({
            let (first, length) = window_on(c, half, n);
            &&& 0 <= first <= c < first + length
            &&& first + length <= n
            &&& half <= c ==> first == c - half
            &&& c < half ==> first == 0
            &&& first + 2 * half <= n ==> length == 2 * half
            &&& first + 2 * half > n ==> first + length == n
        }),
{
}

} // verus!
