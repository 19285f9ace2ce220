use roco_nav::binary32::Binary32;
use roco_nav::config::{LocatingConfig, MatchingConfig, TrackingConfig};
use roco_nav::locator::correlate::{best_in_image, parabolic, zncc_at};
use roco_nav::locator::search::{build_template, ncc_search, search_window, to_numbers};
use roco_nav::locator::limit::hold;
use roco_nav::locator::{reduced_size, LocateDebug, MapLocator};
use roco_nav::pixels::{Gray8, Rgb8};

fn of(x: f32) -> Binary32 {
    Binary32::of_bits(x.to_bits())
}

fn back(x: Binary32) -> f32 {
    f32::from_bits(x.bits)
}

/// A map with broad features that nowhere repeat.
fn shade(x: u32, y: u32) -> u8 {
    let (fx, fy) = (x as f32, y as f32);
    let v = 120.0
        + 50.0 * (fx * 0.071 + (fy * 0.043).sin() * 2.0).sin()
        + 40.0 * (fy * 0.057 + (fx * 0.031).cos() * 3.0).cos()
        + 20.0 * (fx * 0.13 - fy * 0.11).sin();
    v.clamp(0.0, 255.0) as u8
}

fn piece(x0: u32, y0: u32, w: u32, h: u32) -> Rgb8 {
    let mut data = Vec::new();
    for y in y0..y0 + h {
        for x in x0..x0 + w {
            let v = shade(x, y);
            data.extend_from_slice(&[v, v, v]);
        }
    }
    Rgb8 { width: w, height: h, data }
}

fn matching(scale_search: f32) -> MatchingConfig {
    MatchingConfig {
        inner_ratio: of(0.92),
        center_exclude_ratio: of(0.22),
        scale: of(1.0),
        scale_search: of(scale_search),
        min_score: of(0.45),
        ema_alpha: of(0.5),
    }
}

fn locator(scale_search: f32, steps: u32) -> MapLocator {
    let locating =
        LocatingConfig { coarse_width: 200, scale_steps: steps, refine_diam: 40, interval_ms: 700 };
    let tracking = TrackingConfig {
        search_radius: of(20.0),
        coarse_diam: 24,
        fine_diam: 48,
        interval_ms: 40,
        lost_patience: 4,
    };
    MapLocator::new(&piece(0, 0, 400, 300), &matching(scale_search), &locating, &tracking)
}

#[test]
fn a_piece_of_the_map_is_located() {
    let mut l = locator(0.0, 1);
    assert_eq!(back(l.scale_hint()), 1.0);
    let p = l.locate_global(&piece(210, 120, 80, 80)).unwrap();
    assert!((back(p.x) - 249.5).abs() < 2.0 && (back(p.y) - 159.5).abs() < 2.0, "{} {}", back(p.x), back(p.y));
    assert!(back(p.score) > 0.9, "{}", back(p.score));
    assert_eq!(l.locked_scale, p.scale);
    assert_eq!(l.scale_hint(), p.scale);
    let d = l.last_debug();
    assert_eq!((d.mode, d.ok, d.score, d.scale), ("全局定位", true, p.score, p.scale));
}

#[test]
fn several_scales_are_tried() {
    let mut l = locator(0.1, 3);
    let p = l.locate_global(&piece(100, 60, 80, 80)).unwrap();
    assert!((back(p.x) - 139.5).abs() < 2.0 && (back(p.y) - 99.5).abs() < 2.0);
    assert!((back(p.scale) - 1.0).abs() < 0.035, "{}", back(p.scale));
    let (lo, hi) = l.scale_range();
    assert_eq!((back(lo), back(hi)), (1.0 * (1.0 - 0.1), 1.0 * (1.0 + 0.1)));
}

#[test]
fn without_a_spread_one_scale_is_tried() {
    let mut l = locator(0.0, 5);
    let (lo, hi) = l.scale_range();
    assert_eq!((back(lo), back(hi)), (1.0, 1.0));
    let p = l.locate_global(&piece(210, 120, 80, 80)).unwrap();
    assert_eq!(back(p.scale), 1.0);
    let mut off = locator(0.0, 5);
    off.matching.scale = of(1.02);
    let q = off.locate_global(&piece(210, 120, 80, 80)).unwrap();
    assert_eq!((q.scale, off.scale_hint()), (of(1.02), of(1.02)));
}

#[test]
fn a_moving_piece_is_followed() {
    let mut l = locator(0.0, 1);
    let p = l.track(&piece(215, 112, 80, 80), (of(249.5), of(159.5))).unwrap();
    assert!((back(p.x) - 254.5).abs() < 1.5 && (back(p.y) - 151.5).abs() < 1.5, "{} {}", back(p.x), back(p.y));
    assert_eq!((l.last_debug().mode, l.last_debug().ok), ("跟踪", true));
    assert_eq!(back(l.locked_scale), 0.0);
    assert_eq!(back(p.scale), 1.0);
}

#[test]
fn a_step_is_held_within_the_search_radius() {
    let mut l = locator(0.0, 1);
    for (r, dx, dy) in [(2.0f32, 5u32, 3u32), (3.0, 9, 0), (0.5, 1, 1), (20.0, 6, 7)] {
        l.tracking.search_radius = of(r);
        let last = (249.5f32, 159.5f32);
        if let Some(p) = l.track(&piece(210 + dx, 120 + dy, 80, 80), (of(last.0), of(last.1))) {
            assert!((back(p.x) - last.0).abs() <= r && (back(p.y) - last.1).abs() <= r);
        }
    }
    l.tracking.search_radius = of(2.0);
    let p = l.track(&piece(215, 120, 80, 80), (of(249.5), of(159.5))).unwrap();
    assert_eq!(back(p.x), 251.5);
}

#[test]
fn a_place_is_held_within_reach() {
    let h = |x: f32, c: f32, r: f32| back(hold(of(x), of(c), of(r)));
    assert_eq!(h(12.0, 10.0, 3.0), 12.0);
    assert_eq!(h(15.0, 10.0, 3.0), 13.0);
    assert_eq!(h(-15.0, 10.0, 3.0), 7.0);
    assert_eq!(h(f32::NAN, 10.0, 3.0), 10.0);
    assert_eq!(h(f32::INFINITY, -10.0, 3.0), -7.0);
    assert_eq!(h(15.0, 10.0, -3.0), 15.0);
    assert_eq!(h(15.0, f32::NAN, 3.0), 15.0);
    assert_eq!(h(f32::INFINITY, 3.0e38, 3.0e38), f32::MAX);
    for i in 0..2000 {
        let c = (i as f32 * 0.731 - 700.0) * 1013.7;
        let r = 0.1 + i as f32 * 0.013;
        for x in [c + 2.0 * r, c - 2.0 * r, c + r, c - r] {
            assert!((h(x, c, r) - c).abs() <= r, "{x} {c} {r}");
        }
    }
}

#[test]
fn the_size_of_the_reduced_map_is_known() {
    assert_eq!(reduced_size(4000, 3000, 1000), Some((1000, 750)));
    assert_eq!(reduced_size(4000, 3000, 5), Some((200, 150)));
    assert_eq!(reduced_size(400, 1, 900), Some((400, 1)));
    assert_eq!(reduced_size(1000, 3, 250), Some((250, 1)));
    assert_eq!(reduced_size(199, 300, 100), None);
}

#[test]
fn the_scale_in_use_is_the_last_one_settled() {
    let mut l = locator(0.1, 3);
    let p = l.locate_global(&piece(100, 60, 80, 80)).unwrap();
    assert_eq!(l.scale_hint(), p.scale);
    l.track(&piece(102, 60, 80, 80), (p.x, p.y));
    assert_eq!(l.scale_hint(), p.scale);
    let blank = Rgb8 { width: 80, height: 80, data: vec![77; 3 * 6400] };
    assert!(l.locate_global(&blank).is_none());
    assert_eq!(l.scale_hint(), p.scale);
    l.lock_scale_for_manual();
    assert_eq!(back(l.scale_hint()), 1.0);
}

#[test]
fn something_else_is_not_found() {
    let mut l = locator(0.0, 1);
    let blank = Rgb8 { width: 80, height: 80, data: vec![77; 3 * 6400] };
    assert!(l.locate_global(&blank).is_none());
    assert_eq!(back(l.locked_scale), 0.0);
    l.matching.min_score = of(1.5);
    assert!(l.locate_global(&piece(210, 120, 80, 80)).is_none());
    assert!(!l.last_debug().ok && back(l.last_debug().score) > 0.9);
    assert!(l.track(&piece(210, 120, 80, 80), (of(249.5), of(159.5))).is_none());
    assert!(l.track(&piece(210, 120, 80, 80), (of(9000.0), of(9000.0))).is_none());
    let d = l.last_debug();
    assert_eq!((d.mode, d.ok, back(d.score)), ("跟踪", false, 0.0));
}

#[test]
fn the_scale_is_locked_and_cleared() {
    let mut l = locator(0.0, 1);
    l.matching.scale = of(1.7);
    l.lock_scale_for_manual();
    assert_eq!(back(l.locked_scale), 1.7);
    l.matching.scale = of(2.0);
    assert_eq!(back(l.scale_hint()), 1.7);
    l.clear_lock();
    assert_eq!(back(l.scale_hint()), 2.0);
    assert_eq!(l.big_map_gray().data[5], shade(5, 0));
}

#[test]
fn the_account_of_an_attempt_is_one_line() {
    let d = LocateDebug { mode: "跟踪", score: of(0.5), scale: of(1.0), ok: true };
    assert_eq!(d.brief("0.500", "1.000"), "mode=跟踪 结果=成功 分数=0.500 尺度=1.000");
    assert_eq!(
        LocateDebug::default().brief("0.000", "0.000"),
        "mode=全局定位 结果=失败 分数=0.000 尺度=0.000"
    );
}

fn gray(w: u32, h: u32) -> Gray8 {
    let mut data = Vec::new();
    for y in 0..h {
        for x in 0..w {
            data.push(shade(3 * x, 3 * y));
        }
    }
    Gray8 { width: w, height: h, data }
}

#[test]
fn templates_match_hardware_arithmetic() {
    let img = gray(40, 40);
    let t = build_template(&img, 20, &matching(0.0)).unwrap();
    let buffer = image::GrayImage::from_raw(40, 40, img.data.clone()).unwrap();
    let small = image::imageops::resize(&buffer, 20, 20, image::imageops::FilterType::Triangle);
    let (c, out, inner) = (19.0f32 * 0.5, 20.0f32 * 0.5 * 0.92, 20.0f32 * 0.5 * 0.22);
    let mut pts: Vec<(u32, u32, f32)> = Vec::new();
    let mut sum = 0.0f32;
    for y in 0..20u32 {
        for x in 0..20u32 {
            let d2 = (x as f32 - c) * (x as f32 - c) + (y as f32 - c) * (y as f32 - c);
            if d2 < inner * inner || d2 > out * out {
                continue;
            }
            let v = small.get_pixel(x, y).0[0] as f32;
            pts.push((x, y, v));
            sum += v;
        }
    }
    let mean = sum / pts.len() as f32;
    let mut norm = 0.0f32;
    for p in pts.iter_mut() {
        p.2 -= mean;
        norm += p.2 * p.2;
    }
    assert_eq!(t.pts.len(), pts.len());
    for (a, b) in t.pts.iter().zip(pts.iter()) {
        assert_eq!((a.0, a.1, back(a.2)), *b);
    }
    assert_eq!((back(t.norm), t.diam), (norm.sqrt().max(1e-6), 20));

    let field = gray(60, 50);
    let target = to_numbers(&field.data);
    let n = pts.len() as f32;
    let score = |x: usize, y: usize| {
        let (mut si, mut sii, mut num) = (0.0f32, 0.0f32, 0.0f32);
        for p in &pts {
            let v = field.data[(y + p.1 as usize) * 60 + x + p.0 as usize] as f32;
            si += v;
            sii += v * v;
            num += p.2 * v;
        }
        let var = sii - si * si / n;
        if var <= 1e-3 { f32::MIN } else { num / (norm.sqrt().max(1e-6) * var.sqrt()) }
    };
    let mut best = (f32::MIN, 0u32, 0u32);
    for y in 0..=30usize {
        for x in 0..=40usize {
            let s = score(x, y);
            assert_eq!(back(zncc_at(&target, 60, 50, &t, x as u32, y as u32)), s);
            if s > best.0 {
                best = (s, x as u32, y as u32);
            }
        }
    }
    let (s, x, y) = best_in_image(&target, 60, 50, &t).unwrap();
    assert_eq!((back(s), x, y), best);
}

#[test]
fn a_flat_picture_has_no_best_place() {
    let t = build_template(&gray(40, 40), 20, &matching(0.0)).unwrap();
    let flat = vec![of(50.0); 900];
    assert!(best_in_image(&flat, 30, 30, &t).is_none());
    assert!(best_in_image(&flat, 19, 30, &t).is_none());
}

#[test]
fn the_top_of_a_parabola_is_within_one_step() {
    let top = |a: f32, b: f32, c: f32| back(parabolic(of(a), of(b), of(c)));
    assert_eq!(top(0.5, 1.0, 0.5), 0.0);
    assert_eq!(top(0.0, 1.0, 0.5), 0.5 * (0.0 - 0.5) / (0.0 - 2.0 + 0.5));
    assert_eq!(top(1.0, 1.0, 1.0), 0.0);
    assert!(top(0.0, 0.1, 9.0).abs() <= 1.0);
}

#[test]
fn a_window_must_hold_the_template() {
    let w = search_window(400, 300, 80, of(1.0), of(249.5), of(159.5), of(20.0), 24).unwrap();
    assert_eq!((back(w.x0), back(w.y0), w.crop_w, w.crop_h), (189.0, 99.0, 121, 121));
    assert_eq!((w.tw, w.th), (36, 36));
    assert!(search_window(70, 300, 80, of(1.0), of(35.0), of(150.0), of(20.0), 24).is_none());
    assert!(search_window(400, 300, 80, of(1.0), of(200.0), of(150.0), of(0.0), 80).is_none());
}

#[test]
fn windows_lie_on_the_map() {
    for i in 0..400i32 {
        let (x, y) = ((i * 37 % 500 - 50) as f32 + 0.3, (i * 53 % 400 - 50) as f32 - 0.7);
        let scale = 0.3 + (i % 17) as f32 * 0.11;
        if let Some(w) = search_window(400, 300, 80, of(scale), of(x), of(y), of(25.5), 24) {
            assert!(w.x0.to_u32() + w.crop_w <= 400 && w.y0.to_u32() + w.crop_h <= 300);
        }
    }
}

#[test]
fn a_hit_lies_in_its_window() {
    let map = gray(120, 90);
    let mm = gray(30, 30);
    for i in 0..40i32 {
        let (x, y) = ((i * 17 % 130 - 5) as f32 + 0.25, (i * 29 % 100 - 5) as f32 - 0.4);
        let scale = 0.6 + (i % 5) as f32 * 0.2;
        let at = (of(scale), of(x), of(y), of(9.5));
        if let Some(h) = ncc_search(&map, &mm, &matching(0.0), at.0, at.1, at.2, at.3, 12) {
            let w = search_window(120, 90, 30, at.0, at.1, at.2, at.3, 12).unwrap();
            let (x1, y1) = (back(w.x0) + w.crop_w as f32, back(w.y0) + w.crop_h as f32);
            assert!(back(w.x0) <= back(h.x) && back(h.x) <= x1 && x1 <= 120.0);
            assert!(back(w.y0) <= back(h.y) && back(h.y) <= y1 && y1 <= 90.0);
            let room = 9.5 + 2.0 + 2.0 * (30.0 * scale) / 12.0;
            assert!((back(h.x) - x).abs() <= room && (back(h.y) - y).abs() <= room);
        }
    }
}

#[test]
fn ordinary_scores_are_at_most_one_but_for_rounding() {
    let t = build_template(&gray(40, 40), 20, &matching(0.0)).unwrap();
    let field = to_numbers(&gray(60, 50).data);
    for y in 0..=30u32 {
        for x in 0..=40u32 {
            let s = back(zncc_at(&field, 60, 50, &t, x, y));
            assert!(s == f32::MIN || s.abs() <= 1.0001, "{s}");
        }
    }
}

#[test]
fn an_infinite_guess_stays_in_use() {
    let mut l = locator(0.0, 1);
    l.matching.scale = of(f32::INFINITY);
    if let Some(p) = l.locate_global(&piece(100, 60, 80, 80)) {
        assert_eq!(l.scale_hint(), p.scale);
    }
    assert_eq!(back(l.scale_hint()), f32::INFINITY);
}
