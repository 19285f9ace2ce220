use roco_nav::binary32::Binary32;
use roco_nav::capture::MinimapRegion;
use roco_nav::config::{LocatingConfig, MatchingConfig, TrackingConfig};
use roco_nav::locator::{LocateDebug, MapLocator, WorldPos};
use roco_nav::pixels::{Gray8, Rgb8};
use roco_nav::state::{new_shared, MinimapDebug, PlayerPos};
use roco_nav::worker::{
    capture_failed, client_missing, count, crop_display, window_found, window_missing, Attempt,
    Next, Sighting, Tracker,
};

fn of(x: f32) -> Binary32 {
    Binary32::of_bits(x.to_bits())
}

fn back(x: Binary32) -> f32 {
    f32::from_bits(x.bits)
}

fn matching(alpha: f32) -> MatchingConfig {
    MatchingConfig {
        inner_ratio: of(0.92),
        center_exclude_ratio: of(0.22),
        scale: of(1.5),
        scale_search: of(0.0),
        min_score: of(0.45),
        ema_alpha: of(alpha),
    }
}

fn tracking(patience: u32) -> TrackingConfig {
    TrackingConfig {
        search_radius: of(10.0),
        coarse_diam: 8,
        fine_diam: 12,
        interval_ms: 40,
        lost_patience: patience,
    }
}

fn locator() -> MapLocator {
    let map = Rgb8 { width: 200, height: 20, data: vec![7; 3 * 200 * 20] };
    let locating = LocatingConfig { coarse_width: 200, scale_steps: 1, refine_diam: 8, interval_ms: 700 };
    MapLocator::new(&map, &matching(0.5), &locating, &tracking(4))
}

fn hit(x: f32, y: f32) -> Option<WorldPos> {
    Some(WorldPos { x: of(x), y: of(y), score: of(0.8), scale: of(1.25) })
}

fn tracker(alpha: f32, patience: u32) -> Tracker {
    Tracker::new(&matching(alpha), &tracking(patience), of(1.5))
}

#[test]
fn settings_are_held_in_range() {
    assert_eq!(back(tracker(0.0, 3).alpha), 0.05);
    assert_eq!(back(tracker(7.0, 3).alpha), 1.0);
    assert_eq!(back(tracker(0.25, 3).alpha), 0.25);
    assert_eq!(tracker(0.5, 0).patience, 1);
    assert_eq!(tracker(0.5, 9).patience, 9);
}

#[test]
fn positions_are_smoothed() {
    let mut t = tracker(0.25, 4);
    t.absorb(hit(100.0, 200.0));
    assert_eq!(t.last, Some((of(100.0), of(200.0))));
    t.absorb(hit(110.0, 180.0));
    assert_eq!(t.last, Some((of(0.25 * 110.0 + 0.75 * 100.0), of(0.25 * 180.0 + 0.75 * 200.0))));
    assert_eq!((back(t.last_scale), back(t.last_score)), (1.25, 0.8));
}

#[test]
fn full_weight_follows_at_once() {
    let mut t = tracker(1.0, 4);
    t.absorb(hit(100.5, 200.25));
    t.absorb(hit(7.125, -3.0));
    assert_eq!(t.last, Some((of(7.125), of(-3.0))));
}

#[test]
fn misses_in_a_row_end_tracking() {
    let mut t = tracker(0.5, 3);
    t.absorb(None);
    assert_eq!((t.last, t.lost_count), (None, 0));
    t.absorb(hit(1.0, 2.0));
    t.absorb(None);
    t.absorb(None);
    assert_eq!((t.last.is_some(), t.lost_count), (true, 2));
    t.absorb(hit(1.0, 2.0));
    assert_eq!(t.lost_count, 0);
    for _ in 0..2 {
        t.absorb(None);
    }
    assert!(t.last.is_some());
    t.absorb(None);
    assert_eq!((t.last, t.lost_count), (None, 0));
}

#[test]
fn a_closed_window_stops_the_worker() {
    let (mut t, mut s, mut l) = (tracker(0.5, 3), new_shared(), locator());
    assert_eq!(t.begin(&mut s, &mut l, false, 700), Next::Stop);
    assert_eq!(s.status, "窗口已关闭");
}

#[test]
fn while_tracking_is_off_the_worker_rests() {
    let (mut t, mut s, mut l) = (tracker(0.5, 3), new_shared(), locator());
    assert_eq!(s.status, "初始化...");
    t.absorb(hit(3.0, 4.0));
    s.player = Some(PlayerPos { x: of(1.0), y: of(1.0), score: of(1.0), scale: of(1.0) });
    assert_eq!(t.begin(&mut s, &mut l, true, 700), Next::Wait(700));
    assert_eq!(s.status, "点击「开始跟踪」开始定位");
    assert!(s.player.is_none() && t.last.is_none());
}

#[test]
fn starting_searches_the_whole_map() {
    let (mut t, mut s, mut l) = (tracker(0.5, 3), new_shared(), locator());
    l.locked_scale = of(2.0);
    t.absorb(hit(3.0, 4.0));
    s.place_player(of(8.0), of(9.0));
    s.start_tracking();
    assert_eq!(t.begin(&mut s, &mut l, true, 700), Next::Capture);
    assert!(t.last.is_none() && !s.relocalize && s.manual_pos.is_none() && s.tracking_enabled);
    assert_eq!(s.status, "正在全局定位...");
    assert_eq!(back(l.locked_scale), 0.0);
}

#[test]
fn a_position_from_the_user_is_tracked_from() {
    let (mut t, mut s, mut l) = (tracker(0.5, 3), new_shared(), locator());
    s.place_player(of(8.0), of(9.0));
    assert_eq!(s.status, "手动定位完成，等待跟踪确认...");
    assert_eq!(t.begin(&mut s, &mut l, true, 700), Next::Capture);
    assert_eq!(t.last, Some((of(8.0), of(9.0))));
    assert_eq!(back(t.last_scale), 1.5);
    assert_eq!(s.status, "手动定位完成，开始跟踪...");
    assert!(s.manual_pos.is_none() && s.tracking_enabled);
    s.stop_tracking();
    assert!(!s.tracking_enabled && s.player.is_none());
    s.ask_relocalize();
    assert!(s.tracking_enabled && s.relocalize);
}

fn attempt(t: &Tracker, patch: Option<Rgb8>, result: Option<WorldPos>) -> Attempt {
    Attempt {
        frame: Rgb8 { width: 1, height: 1, data: vec![1, 2, 3] },
        result,
        tracker: *t,
        patch,
        debug: LocateDebug { mode: "跟踪", score: of(0.25), scale: of(1.5), ok: false },
    }
}

fn seen() -> Sighting {
    Sighting {
        heading_rad: Some(of(0.5)),
        origin: (7, 8),
        region: MinimapRegion { client_w: 640, client_h: 480, x: 5, y: 6, size: 40 },
    }
}

fn decimal(x: Binary32) -> String {
    format!("{:.3}", back(x))
}

#[test]
fn a_turn_is_told_to_the_window() {
    let (mut t, mut s) = (tracker(0.5, 3), new_shared());
    assert_eq!(attempt(&t, None, None).publish(&mut s, seen(), decimal, 700, 40), Next::Wait(700));
    assert_eq!(s.status, "全局定位中...");
    assert!(s.player.is_none() && s.tracking_patch.is_none());
    assert_eq!((s.minimap_seq, s.tracking_patch_seq), (1, 0));
    t.absorb(hit(3.0, 4.0));
    let patch = Rgb8 { width: 1, height: 1, data: vec![9, 9, 9] };
    let found = attempt(&t, Some(patch), hit(3.0, 4.0));
    assert_eq!(found.publish(&mut s, seen(), decimal, 700, 40), Next::Wait(40));
    assert_eq!(s.status, "跟踪中  分数 0.800");
    assert_eq!(
        s.player,
        Some(PlayerPos { x: of(3.0), y: of(4.0), score: of(0.8), scale: of(1.25) })
    );
    assert_eq!((s.minimap_seq, s.tracking_patch_seq), (2, 1));
    assert_eq!(s.minimap.as_ref().unwrap().data, vec![1, 2, 3]);
    assert_eq!(s.tracking_patch.as_ref().unwrap().data, vec![9, 9, 9]);
    assert_eq!(s.game_rect, Some([7, 8, 640, 480]));
    assert_eq!(
        s.debug,
        Some(MinimapDebug { client_w: 640, client_h: 480, region_x: 5, region_y: 6, region_size: 40 })
    );
    assert_eq!(s.locate_debug, "mode=跟踪 结果=失败 分数=0.250 尺度=1.500");
    assert_eq!(s.heading_rad, Some(of(0.5)));
    t.absorb(None);
    attempt(&t, None, None).publish(&mut s, seen(), decimal, 700, 40);
    assert_eq!(s.status, "跟踪不稳，正在重试...");
    assert_eq!(s.tracking_patch_seq, 1);
}

#[test]
fn counters_start_over_at_the_end() {
    assert_eq!(count(u64::MAX), 0);
    assert_eq!(count(41), 42);
}

#[test]
fn failures_are_told_to_the_window() {
    let mut s = new_shared();
    assert_eq!(capture_failed(&mut s, "BitBlt 失败", 40), Next::Wait(40));
    assert_eq!(s.status, "截图失败: BitBlt 失败");
    let (line, next) = client_missing("GetDC 失败");
    assert_eq!((line.as_str(), next), ("[圆检测] 截取客户区失败(GetDC 失败)，1s 后重试", Next::Wait(1000)));
    assert_eq!(window_missing(&mut s, "none"), Next::Wait(1000));
    assert_eq!(s.status, "none");
    window_found(&mut s, "洛克");
    assert_eq!(s.status, "已定位窗口: 洛克");
}

#[test]
fn the_piece_of_the_map_is_cut_out() {
    let data: Vec<u8> = (0..100u32 * 80).map(|i| (i % 253) as u8).collect();
    let map = Gray8 { width: 100, height: 80, data: data.clone() };
    let img = crop_display(&map, of(50.7), of(5.0), of(10.9));
    assert_eq!((img.width, img.height), (20, 15));
    for y in 0..15usize {
        for x in 0..20usize {
            let v = data[y * 100 + 40 + x];
            let i = 3 * (y * 20 + x);
            assert_eq!(&img.data[i..i + 3], &[v, v, v]);
        }
    }
    let least = crop_display(&map, of(50.0), of(40.0), of(1.0));
    assert_eq!((least.width, least.height), (16, 16));
    let off = crop_display(&map, of(500.0), of(5.0), of(10.0));
    assert_eq!((off.width, off.height, off.data), (1, 1, vec![0, 0, 0]));
}

#[test]
fn the_piece_of_the_map_is_the_square_cut_to_the_map() {
    let map = Gray8 { width: 100, height: 100, data: vec![3; 10000] };
    let size = |x: f32, y: f32, r: f32| {
        let img = crop_display(&map, of(x), of(y), of(r));
        (img.width, img.height)
    };
    assert_eq!(size(-5.0, 50.0, 10.0), (5, 20));
    assert_eq!(size(50.0, -5.0, 10.0), (20, 5));
    assert_eq!(size(-10.0, 50.0, 10.0), (1, 1));
    assert_eq!(size(104.0, 97.0, 10.0), (6, 13));
    assert_eq!(size(f32::MAX, 50.0, 10.0), (1, 1));
    assert_eq!(size(f32::MIN, f32::NAN, 10.0), (1, 1));
    assert_eq!(size(50.0, 50.0, f32::INFINITY), (100, 100));
}

#[test]
fn an_attempt_carries_what_its_turn_found() {
    let (mut t, mut l) = (tracker(0.5, 3), locator());
    t.last = Some((of(100.0), of(10.0)));
    let frame = Rgb8 { width: 8, height: 8, data: vec![50; 192] };
    let a = t.attempt(&mut l, frame);
    assert!(a.result.is_none());
    assert_eq!((t.lost_count, a.tracker), (1, t));
    assert_eq!((a.debug.mode, a.debug.ok), ("跟踪", false));
    let patch = a.patch.unwrap();
    assert_eq!((patch.width, patch.height, patch.data[0]), (16, 16, 7));
    assert_eq!(a.frame.width, 8);
}

#[test]
fn the_piece_of_the_map_follows_the_player() {
    let mut t = tracker(0.5, 3);
    let map = Gray8 { width: 100, height: 80, data: vec![5; 8000] };
    assert!(t.patch(&map, 40).is_none());
    t.absorb(hit(50.0, 40.0));
    let img = t.patch(&map, 40).unwrap();
    assert_eq!((img.width, img.height), (50, 50));
    t.absorb(hit(f32::NEG_INFINITY, 0.0));
    let gone = t.patch(&map, 40).unwrap();
    assert_eq!((gone.width, gone.height), (1, 1));
}
