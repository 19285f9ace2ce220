use roco_nav::binary32::Binary32;
use roco_nav::config::{
    CaptureConfig, Config, DebugConfig, DisplayConfig, LocatingConfig, MatchingConfig, NavConfig,
    ResourceConfig, RouteConfig, TrackingConfig, WindowConfig,
};
use roco_nav::pixels::Rgb8;
use roco_nav::resource::{Resource, ResourceKind};
use roco_nav::route::{Route, RoutePoint};
use roco_nav::spot::{Area, Spot};
use roco_nav::state::{new_shared, MinimapDebug, PlayerPos};
use roco_nav::ui::draw::{
    flower_marks, mineral_corners, star_angle, star_corners, Mark, Rgba,
};
use roco_nav::ui::panel::{debug_lines, patch_size, position_lines, status_line, PlayerTexts};
use roco_nav::ui::{
    arrow_to, find_label, map_texture, texture_size, to_color_image, Aim, OverlayApp,
};

fn of(x: f32) -> Binary32 {
    Binary32::of_bits(x.to_bits())
}

fn back(x: Binary32) -> f32 {
    f32::from_bits(x.bits)
}

fn spot(x: f32, y: f32) -> Spot {
    Spot { x: of(x), y: of(y) }
}

fn at(s: Spot) -> (f32, f32) {
    (back(s.x), back(s.y))
}

fn config(smooth_ms: f32) -> Config {
    Config {
        window: WindowConfig { title: "w".to_string() },
        matching: MatchingConfig {
            inner_ratio: of(0.92),
            center_exclude_ratio: of(0.22),
            scale: of(1.45),
            scale_search: of(0.18),
            min_score: of(0.45),
            ema_alpha: of(0.5),
        },
        locating: LocatingConfig::default(),
        tracking: TrackingConfig::default(),
        capture: CaptureConfig { big_map_path: "m".to_string() },
        display: DisplayConfig::default(),
        route: RouteConfig::default(),
        nav: NavConfig { turn_smooth_ms: of(smooth_ms) },
        resource: ResourceConfig::default(),
        debug: DebugConfig::default(),
    }
}

fn point(x: f32, y: f32, label: Option<&str>) -> RoutePoint {
    RoutePoint { x: of(x), y: of(y), label: label.map(|s| s.to_string()) }
}

fn route(name: &str, is_path: bool, points: Vec<RoutePoint>) -> Route {
    Route {
        name: name.to_string(),
        points,
        is_path,
        default_offset: [of(10.0), of(20.0)],
        default_scale: [of(2.0), of(3.0)],
    }
}

fn app() -> OverlayApp {
    let first = route(
        "one",
        true,
        vec![point(0.0, 0.0, Some("a")), point(50.0, 0.0, Some("b")), point(100.0, 0.0, None)],
    );
    let second = Route {
        default_offset: [of(0.0), of(0.0)],
        default_scale: [of(1.0), of(1.0)],
        ..route("two", false, vec![point(5.0, 5.0, None)])
    };
    let resources = vec![
        Resource { x: of(400.0), y: of(300.0), kind: ResourceKind::Flower },
        Resource { x: of(410.0), y: of(300.0), kind: ResourceKind::Star },
        Resource { x: of(9000.0), y: of(300.0), kind: ResourceKind::Flower },
    ];
    OverlayApp::new(config(120.0), 800, 600, vec![first, second], resources)
}

fn player(x: f32, y: f32) -> PlayerPos {
    PlayerPos { x: of(x), y: of(y), score: of(0.9), scale: of(1.5) }
}

#[test]
fn a_new_window_looks_at_the_whole_map() {
    let a = app();
    assert_eq!(at(a.map_world), (800.0, 600.0));
    assert_eq!(at(a.cam_focus), (400.0, 300.0));
    assert_eq!((back(a.display_scale), back(a.cam_zoom)), (1.0, 1.0));
    assert_eq!(a.reached, vec![vec![false, false, false], vec![false]]);
    assert_eq!((back(a.route_offset_x), back(a.route_scale_y)), (10.0, 3.0));
    assert!(a.follow_player && !a.cam_inited && a.show_point_labels);
    let none = OverlayApp::new(config(0.0), 5000, 100, Vec::new(), Vec::new());
    assert_eq!((back(none.route_offset_y), back(none.route_scale_x)), (0.0, 1.0));
    assert_eq!(back(none.display_scale), 2048.0 / 5000.0);
}

#[test]
fn the_picture_of_the_map_has_a_longest_side() {
    assert_eq!(texture_size(800, 600, 2048), (800, 600));
    assert_eq!(texture_size(4096, 1000, 2048), (2048, 500));
    assert_eq!(texture_size(3000, 7001, 2048), (878, 2048));
    assert_eq!(texture_size(0, 5000, 2048), (1, 2048));
    for (w, h, most) in [(0xff_fff1u32, 7u32, 0x40_0000u32), (0x80_0001, 0xff_ffff, 0x3f_ffff), (9_999_991, 12, 2048)] {
        let (tw, th) = texture_size(w, h, most);
        assert!(tw <= most && th <= most && (if w >= h { tw } else { th }) == most);
    }
    assert_eq!(texture_size(10581181, 1, 5492706).0, 5492707);
    for w in (2049..300_000u32).step_by(977) {
        let (tw, th) = texture_size(w, w / 3, 2048);
        assert!(tw <= 2048 && th <= 2048 && tw >= 2047);
    }
}

#[test]
fn the_picture_of_the_map_is_resampled() {
    let data: Vec<u8> = (0..60u32 * 40 * 3).map(|i| (i * 7 % 251) as u8).collect();
    let map = Rgb8 { width: 60, height: 40, data: data.clone() };
    assert_eq!(map_texture(&map, 100).unwrap().data, data);
    let small = map_texture(&map, 30).unwrap();
    assert_eq!((small.width, small.height), (30, 20));
    let whole = image::RgbImage::from_raw(60, 40, data).unwrap();
    let want = image::imageops::resize(&whole, 30, 20, image::imageops::FilterType::Triangle);
    assert_eq!(small.data, want.into_raw());
}

#[test]
fn colours_get_full_opacity() {
    let img = to_color_image(&Rgb8 { width: 2, height: 1, data: vec![1, 2, 3, 4, 5, 6] });
    assert_eq!(img.data, vec![1, 2, 3, 255, 4, 5, 6, 255]);
}

#[test]
fn only_newer_pictures_are_loaded() {
    let mut a = app();
    assert_eq!(a.refresh(0, 0), (true, true));
    assert_eq!(a.refresh(0, 0), (false, false));
    assert_eq!(a.refresh(1, 0), (true, false));
    assert_eq!(a.refresh(1, 5), (false, true));
}

#[test]
fn points_near_the_player_are_reached() {
    let mut a = app();
    a.mark_reached(&player(10.0 + 6.0, 20.0 + 8.0));
    assert_eq!(a.reached[0], vec![true, false, false]);
    a.mark_reached(&player(110.0, 30.5));
    assert_eq!(a.reached[0], vec![true, false, false]);
    a.mark_reached(&player(210.0, 20.0));
    assert_eq!(a.reached, vec![vec![true, false, true], vec![false]]);
    let (i, p) = a.next_unreached_target().unwrap();
    assert_eq!((i, back(p.x), back(p.y)), (1, 110.0, 20.0));
    assert_eq!(p.label.as_deref(), a.routes[0].points[1].label.as_deref());
}

#[test]
fn a_route_starts_at_its_label() {
    let mut a = app();
    a.set_start_label(" b ".to_string());
    assert_eq!(a.reached[0], vec![true, false, false]);
    assert_eq!(a.next_unreached_target().unwrap().0, 1);
    a.set_start_label("c".to_string());
    assert_eq!(a.reached[0], vec![false, false, false]);
    assert_eq!(a.next_unreached_target().unwrap().0, 0);
    a.set_start_label("b".to_string());
    a.set_start_label("  ".to_string());
    assert_eq!(a.reached[0], vec![false, false, false]);
    let twice = vec![point(0.0, 0.0, Some("x")), point(1.0, 0.0, None), point(2.0, 0.0, Some("x"))];
    assert_eq!(find_label(&twice, "x"), Some(0));
    assert_eq!(find_label(&twice, "y"), None);
}

#[test]
fn choosing_a_route_resets_its_place_and_progress() {
    let mut a = app();
    a.route_offset_x = of(77.0);
    a.reached[1][0] = true;
    a.select_route(0);
    assert_eq!(back(a.route_offset_x), 77.0);
    a.select_route(1);
    assert_eq!((back(a.route_offset_x), back(a.route_scale_y)), (0.0, 1.0));
    assert_eq!(a.reached[1], vec![false]);
    a.route_scale_x = of(9.0);
    a.reset_transform();
    assert_eq!(back(a.route_scale_x), 1.0);
    let mut none = OverlayApp::new(config(0.0), 800, 600, vec![], vec![]);
    none.select_route(0);
    assert!(none.next_unreached_target().is_none());
    assert_eq!((none.selected, none.route_name().as_str(), none.point_count_line()), (0, "", None));
}

#[test]
fn progress_can_be_reset() {
    let mut a = app();
    a.set_start_label("b".to_string());
    a.reached[1][0] = true;
    a.reset_progress();
    assert_eq!(a.reached, vec![vec![false; 3], vec![true]]);
    assert_eq!(a.start_labels[0], "");
}

#[test]
fn the_heading_turns_the_short_way() {
    let mut a = app();
    let left = 0.5f32;
    assert_eq!(a.turn_heading(None, of(left)), None);
    assert_eq!(a.turn_heading(Some(of(3.0)), of(left)), Some(of(3.0)));
    let h = back(a.turn_heading(Some(of(-3.0)), of(left)).unwrap());
    assert!((h.abs() - std::f32::consts::PI).abs() < 0.2, "{}", h);
    assert!(h > -std::f32::consts::PI && h <= std::f32::consts::PI);
    assert_eq!(a.turn_heading(None, of(left)), a.disp_heading);
    a.cfg.nav.turn_smooth_ms = of(0.0);
    assert_eq!(a.turn_heading(Some(of(1.0)), of(left)), Some(of(1.0)));
}

#[test]
fn easing_takes_the_time_between_frames() {
    let a = app();
    assert_eq!(back(a.ease(of(0.06))), -0.06 / (120.0 / 1000.0));
    assert_eq!(back(a.ease(of(9.0))), -0.1 / (120.0 / 1000.0));
    assert_eq!(back(a.ease(of(0.0))), -1e-4 / (120.0 / 1000.0));
}

#[test]
fn the_view_follows_the_player_until_it_is_dragged() {
    let mut a = app();
    a.settle(None);
    assert_eq!(at(a.cam_focus), (400.0, 300.0));
    a.settle(Some(player(50.0, 60.0)));
    assert_eq!(at(a.cam_focus), (50.0, 60.0));
    assert_eq!(at(a.world_to_screen(spot(50.0, 60.0), spot(320.0, 240.0))), (320.0, 240.0));
    a.drag(spot(0.0, -0.0));
    assert!(a.follow_player);
    a.drag(spot(10.0, -4.0));
    assert!(!a.follow_player);
    assert_eq!(at(a.cam_focus), (40.0, 64.0));
    a.settle(Some(player(0.0, 0.0)));
    assert_eq!(at(a.cam_focus), (40.0, 64.0));
    a.locate_self(None);
    assert!(!a.follow_player);
    a.locate_self(Some(player(7.0, 8.0)));
    assert!(a.follow_player);
    assert_eq!(at(a.cam_focus), (7.0, 8.0));
}

#[test]
fn zooming_keeps_to_its_bounds_and_to_the_pointer() {
    let mut a = app();
    assert_eq!(OverlayApp::scroll_exponent(of(0.0)), None);
    assert_eq!(OverlayApp::scroll_exponent(of(-0.0)), None);
    assert_eq!(OverlayApp::scroll_exponent(of(120.0)), Some(of(120.0 * 0.0015)));
    a.zoom(of(2.0), spot(420.0, 240.0), spot(320.0, 240.0));
    assert_eq!(back(a.cam_zoom), 2.0);
    assert_eq!(at(a.cam_focus), (450.0, 300.0));
    a.zoom(of(1000.0), spot(0.0, 0.0), spot(0.0, 0.0));
    assert_eq!(back(a.cam_zoom), 20.0);
    a.zoom(of(0.00001), spot(0.0, 0.0), spot(0.0, 0.0));
    assert_eq!(back(a.cam_zoom), 0.1);
}

#[test]
fn the_menu_places_the_player() {
    let mut a = app();
    let mut s = new_shared();
    a.locate_manually(&mut s);
    assert!(s.manual_pos.is_none());
    a.follow_player = false;
    a.remember_click(spot(330.0, 230.0), spot(320.0, 240.0));
    a.locate_manually(&mut s);
    assert_eq!(s.manual_pos, Some((of(410.0), of(290.0))));
    assert_eq!(
        s.player,
        Some(PlayerPos { x: of(410.0), y: of(290.0), score: of(1.0), scale: of(1.0) })
    );
    assert_eq!(s.status, "手动定位完成，等待跟踪确认...");
    assert!(a.follow_player);
    assert_eq!(at(a.cam_focus), (410.0, 290.0));
}

fn screen() -> Area {
    Area { min: spot(0.0, 0.0), max: spot(640.0, 480.0) }
}

#[test]
fn the_route_is_drawn_from_the_bottom_up() {
    let mut a = app();
    a.cam_focus = spot(10.0, 20.0);
    a.reached[0][0] = true;
    let center = screen().center();
    assert_eq!(at(center), (320.0, 240.0));
    let full = Rgba { r: 220, g: 50, b: 50, a: 255 };
    let passed = Rgba { a: (255.0f32 * 0.12) as u8, ..full };
    let white = Rgba { r: 255, g: 255, b: 255, a: 255 };
    let marks = a.route_marks(screen(), center);
    let place = |k: f32| spot(320.0 + k, 240.0);
    let line = |u: f32, v: f32, color: Rgba| Mark::Segment {
        from: place(u),
        to: place(v),
        width: of(1.5),
        color,
    };
    let disc = |u: f32, color: Rgba| Mark::Disc { at: place(u), radius: of(3.0), color };
    let ring = |u: f32| Mark::Ring { at: place(u), radius: of(4.0), width: of(1.0), color: white };
    let label = |u: f32, i: usize| Mark::Label { at: spot(320.0 + u, 229.0), point: i };
    assert_eq!(
        marks,
        vec![
            line(0.0, 100.0, passed),
            line(100.0, 200.0, full),
            disc(0.0, passed),
            ring(0.0),
            label(0.0, 0),
            disc(100.0, full),
            ring(100.0),
            label(100.0, 1),
            disc(200.0, full),
            ring(200.0),
        ]
    );
    a.show_point_labels = false;
    a.cam_focus = spot(10.0 + 400.0, 20.0);
    assert_eq!(a.route_marks(screen(), center).len(), 2 + 4);
    a.selected = 1;
    a.cam_focus = spot(5.0, 5.0);
    assert_eq!(a.route_marks(screen(), center).len(), 2);
    a.selected = 2;
    assert!(a.route_marks(screen(), center).is_empty());
}

#[test]
fn resources_are_drawn_by_kind() {
    let mut a = app();
    let center = screen().center();
    assert!(a.resource_marks(screen(), center).is_empty());
    a.show_resource[1] = true;
    assert_eq!(
        a.resource_marks(screen(), center),
        vec![Mark::Icon { at: spot(320.0, 240.0), kind: ResourceKind::Flower }]
    );
    a.show_resource[2] = true;
    assert_eq!(a.resource_marks(screen(), center).len(), 2);
}

#[test]
fn the_player_is_drawn_with_its_heading_and_reach() {
    let a = app();
    let center = screen().center();
    let p = player(400.0, 300.0);
    assert_eq!(a.player_marks(&p, None, None, center).len(), 2);
    let debug = MinimapDebug { client_w: 1, client_h: 1, region_x: 0, region_y: 0, region_size: 100 };
    let marks = a.player_marks(&p, Some(spot(1.0, 0.0)), Some(debug), center);
    assert_eq!(marks.len(), 6);
    assert_eq!(
        marks[2],
        Mark::Segment {
            from: spot(329.0, 240.0),
            to: spot(344.0, 240.0),
            width: of(4.0),
            color: Rgba { r: 20, g: 20, b: 20, a: 180 },
        }
    );
    assert_eq!(
        marks[4],
        Mark::Ring {
            at: spot(320.0, 240.0),
            radius: of(75.0),
            width: of(2.0),
            color: Rgba { r: 255, g: 220, b: 0, a: 200 },
        }
    );
    assert_eq!(marks[5], Mark::Coverage { at: spot(399.0, 240.0), reach: of(75.0) });
    let tiny = MinimapDebug { region_size: 1, ..debug };
    assert_eq!(a.player_marks(&p, None, Some(tiny), center).len(), 2);
}

#[test]
fn the_map_fills_its_rectangle() {
    let a = app();
    let r = a.map_rect(spot(320.0, 240.0));
    assert_eq!((at(r.min), at(r.max)), ((-80.0, -60.0), (720.0, 540.0)));
}

#[test]
fn signs_have_their_shapes() {
    let c = mineral_corners(spot(10.0, 20.0));
    assert_eq!(c.map(at), [(10.0, 13.0), (17.0, 20.0), (10.0, 27.0), (3.0, 20.0)]);
    let f = flower_marks(spot(1.0, 2.0));
    assert_eq!(
        f[2],
        Mark::Disc { at: spot(1.0, 2.0), radius: of(7.0 * 0.4), color: Rgba { r: 255, g: 235, b: 120, a: 255 } }
    );
    for i in 0..10u32 {
        let want = std::f32::consts::PI * (i as f32) / 5.0 - std::f32::consts::FRAC_PI_2;
        assert_eq!(back(star_angle(i)), want);
    }
    let s = star_corners(spot(0.0, 0.0), &vec![spot(0.0, -1.0), spot(1.0, 0.0)]);
    assert_eq!((at(s[0]), at(s[1])), ((0.0, -7.0), (7.0 * 0.45, 0.0)));
}

#[test]
fn the_arrow_points_to_the_next_point() {
    let mut a = app();
    let g = [1, 2, 3, 4];
    assert_eq!(a.game_nav_overlay(Some(player(0.0, 0.0)), None), Aim::Leave);
    assert_eq!(a.game_nav_overlay(None, Some(g)), Aim::Clear(g));
    assert_eq!(
        a.game_nav_overlay(Some(player(7.0, 16.0)), Some(g)),
        Aim::Point(g, spot(3.0, 4.0), of(5.0))
    );
    assert_eq!(a.game_nav_overlay(Some(player(10.5, 20.0)), Some(g)), Aim::Clear(g));
    a.reached[0] = vec![true, true, true];
    assert_eq!(a.game_nav_overlay(Some(player(0.0, 0.0)), Some(g)), Aim::Clear(g));
}

#[test]
fn without_a_heading_the_player_looks_up_the_map() {
    let up = -std::f32::consts::FRAC_PI_2;
    let a = arrow_to(of(0.25), None, of(9.0));
    assert_eq!((back(a.rel_angle), back(a.distance)), (0.25 - up, 9.0));
    assert_eq!(back(arrow_to(of(0.25), Some(of(1.0)), of(9.0)).rel_angle), -0.75);
}

#[test]
fn the_panel_says_what_is_known() {
    assert_eq!(status_line("ok"), "状态: ok");
    assert_eq!(position_lines(&None), vec!["坐标: --"]);
    let t = PlayerTexts { x: "12".to_string(), y: "34".to_string(), score: "0.900".to_string() };
    assert_eq!(position_lines(&Some(t)), vec!["坐标: (12, 34)", "匹配度: 0.900"]);
    assert_eq!(debug_lines(None), vec!["等待首帧截图..."]);
    let d = MinimapDebug { client_w: 1920, client_h: 1080, region_x: -5, region_y: 7, region_size: 166 };
    assert_eq!(
        debug_lines(Some(d)),
        vec!["客户区: 1920 x 1080", "小地图屏幕位置: (-5, 7)", "小地图边长: 166 px"]
    );
    let a = app();
    assert_eq!(a.route_name(), "one");
    assert_eq!(a.point_count_line().unwrap(), "当前路线: 3 个点位");
    let (w, h) = patch_size(50, 25);
    assert_eq!((back(w), back(h)), (200.0, 100.0));
}

#[test]
fn the_routes_stay_whatever_is_done() {
    let mut a = app();
    let points: Vec<usize> = a.routes.iter().map(|r| r.points.len()).collect();
    a.select_route(1);
    a.mark_reached(&player(3.0, 4.0));
    a.set_start_label("b".to_string());
    a.drag(spot(5.0, 6.0));
    a.zoom(of(1.5), spot(10.0, 10.0), spot(50.0, 50.0));
    a.select_route(0);
    a.reset_progress();
    a.settle(None);
    assert!(a.selected < a.routes.len());
    assert_eq!(a.routes.iter().map(|r| r.points.len()).collect::<Vec<usize>>(), points);
    assert_eq!(a.reached.iter().map(|r| r.len()).collect::<Vec<usize>>(), points);
    assert_eq!(a.start_labels.len(), a.routes.len());
}
