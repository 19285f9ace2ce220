use roco_nav::binary32::Binary32;
use roco_nav::launch::{
    parse_launch_mode, selftest_crop, selftest_window, usage_text, LaunchMode, SELFTEST_SIDE,
};
use roco_nav::locator::WorldPos;
use roco_nav::pixels::Rgb8;

fn of(x: f32) -> Binary32 {
    Binary32::of_bits(x.to_bits())
}

fn args(list: &[&str]) -> Vec<String> {
    list.iter().map(|s| s.to_string()).collect()
}

fn at(x: f32, y: f32, scale: f32) -> WorldPos {
    WorldPos { x: of(x), y: of(y), score: of(0.9), scale: of(scale) }
}

#[test]
fn commands_choose_what_to_do() {
    assert!(matches!(parse_launch_mode(&args(&[])), Ok(LaunchMode::Run)));
    assert!(matches!(parse_launch_mode(&args(&["run", "x"])), Ok(LaunchMode::Run)));
    for h in ["-h", "--help", "help"] {
        assert!(matches!(parse_launch_mode(&args(&[h])), Ok(LaunchMode::Help)));
    }
    match parse_launch_mode(&args(&["selftest"])) {
        Ok(LaunchMode::SelfTest(p)) => assert_eq!(p, "debug_minimap.png"),
        _ => panic!(),
    }
    match parse_launch_mode(&args(&["selftest", "a.png"])) {
        Ok(LaunchMode::SelfTest(p)) => assert_eq!(p, "a.png"),
        _ => panic!(),
    }
}

#[test]
fn an_unknown_command_is_answered_with_the_usage() {
    let e = parse_launch_mode(&args(&["Run"])).unwrap_err();
    assert_eq!(e, format!("未知命令: Run\n\n{}", usage_text()));
    assert!(usage_text().starts_with("用法:\n  roco-nav "));
}

#[test]
fn the_window_of_the_self_test_stays_on_the_map() {
    assert_eq!(selftest_window(1000, 800, 100, &at(500.0, 400.0, 1.5)), Some((425, 325, 150, 150)));
    assert_eq!(selftest_window(1000, 800, 100, &at(10.0, 790.0, 1.5)), Some((0, 715, 150, 85)));
    assert_eq!(selftest_window(1000, 800, 100, &at(5000.0, -90.0, 1.0)), Some((999, 0, 1, 100)));
    assert_eq!(selftest_window(1000, 800, 100, &at(10.4, 10.6, 0.0)), Some((10, 10, 1, 1)));
}

#[test]
fn the_window_of_the_self_test_needs_a_map_and_a_scale() {
    assert_eq!(selftest_window(0, 800, 100, &at(1.0, 1.0, 1.0)), None);
    assert_eq!(selftest_window(1000, 0, 100, &at(1.0, 1.0, 1.0)), None);
    assert_eq!(selftest_window(1000, 800, 100, &at(1.0, 1.0, -1.0)), None);
    assert_eq!(selftest_window(1000, 800, 100, &at(f32::NEG_INFINITY, 1.0, 1.0)), None);
}

#[test]
fn the_picture_of_the_self_test_is_the_resampled_window() {
    let (w, h) = (300u32, 200u32);
    let mut data = Vec::new();
    for y in 0..h {
        for x in 0..w {
            data.extend_from_slice(&[(x % 251) as u8, (y % 241) as u8, ((x * y) % 239) as u8]);
        }
    }
    let map = Rgb8 { width: w, height: h, data: data.clone() };
    let img = selftest_crop(&map, 60, &at(150.0, 90.0, 1.5)).unwrap();
    assert_eq!((img.width, img.height), (SELFTEST_SIDE, SELFTEST_SIDE));
    let whole = image::RgbImage::from_raw(w, h, data).unwrap();
    let part = image::imageops::crop_imm(&whole, 105, 45, 90, 90).to_image();
    let want = image::imageops::resize(&part, 144, 144, image::imageops::FilterType::Triangle);
    assert_eq!(img.data, want.into_raw());
    assert!(selftest_crop(&map, 60, &at(150.0, 90.0, -1.5)).is_none());
}
