use roco_nav::angle::wrap_by_turns;
use roco_nav::binary32::Binary32;
use roco_nav::direction::{
    collect_template_points, rgb_saturation, sample_rgb, template_axis, turn_radians,
    CandidateMatch, DirectionDetector, Turn, FARTHEST,
};
use roco_nav::pixels::{Rgb8, Rgba8};

fn of(x: f32) -> Binary32 {
    Binary32::of_bits(x.to_bits())
}

fn back(x: Binary32) -> f32 {
    f32::from_bits(x.bits)
}

fn turns() -> Vec<Turn> {
    (-FARTHEST..=FARTHEST)
        .map(|k| {
            let rad = back(turn_radians(k));
            Turn { sin: of(rad.sin()), cos: of(rad.cos()) }
        })
        .collect()
}

/// A picture of an arrow that points up, orange with a yellow tip.
fn arrow() -> Rgba8 {
    let n = 15i32;
    let mut data = Vec::new();
    for y in 0..n {
        for x in 0..n {
            let half = if y < 9 { y as f32 * 0.55 } else { 1.5 };
            let inside = (x - 7).abs() as f32 <= half;
            if inside {
                let tip = y < 4;
                data.extend_from_slice(if tip { &[255, 240, 60, 255] } else { &[230, 90, 20, 255] });
            } else {
                data.extend_from_slice(&[0, 0, 0, 0]);
            }
        }
    }
    Rgba8 { width: n as u32, height: n as u32, data }
}

fn load(template: &Rgba8) -> Result<DirectionDetector, String> {
    let arc = match template_axis(template) {
        Some((dx, dy)) => back(dy).atan2(back(dx)),
        None => 0.0,
    };
    DirectionDetector::load(template, "res/jt.png", of(arc), turns())
}

fn render_template(template: &Rgba8, angle_rad: f32, dx: f32, dy: f32) -> Rgb8 {
    let mut out = blank();
    let (sin, cos) = angle_rad.sin_cos();
    let (dst_cx, dst_cy) = (95.0 * 0.5 + dx, 95.0 * 0.5 + dy);
    let (src_cx, src_cy) =
        ((template.width as f32 - 1.0) * 0.5, (template.height as f32 - 1.0) * 0.5);
    for y in 0..96usize {
        for x in 0..96usize {
            let (rx, ry) = (x as f32 - dst_cx, y as f32 - dst_cy);
            let xi = (cos * rx + sin * ry + src_cx).round() as i32;
            let yi = (-sin * rx + cos * ry + src_cy).round() as i32;
            if xi < 0 || yi < 0 || xi >= template.width as i32 || yi >= template.height as i32 {
                continue;
            }
            let s = 4 * (yi as usize * template.width as usize + xi as usize);
            let alpha = template.data[s + 3] as f32 / 255.0;
            if alpha <= 0.0 {
                continue;
            }
            for i in 0..3 {
                let d = 3 * (y * 96 + x) + i;
                out.data[d] =
                    (template.data[s + i] as f32 * alpha + out.data[d] as f32 * (1.0 - alpha)).round() as u8;
            }
        }
    }
    out
}

fn blank() -> Rgb8 {
    let mut data = Vec::new();
    for _ in 0..96 * 96 {
        data.extend_from_slice(&[120, 160, 120]);
    }
    Rgb8 { width: 96, height: 96, data }
}

fn angle_diff(a: f32, b: f32) -> f32 {
    back(wrap_by_turns(of(a - b))).abs()
}

#[test]
fn detects_rotated_template_with_small_offset() {
    let template = arrow();
    let detector = load(&template).unwrap();
    let frame = render_template(&template, 1.2, 3.0, -2.0);
    let found = detector.detect(&frame).unwrap();
    let expected = back(wrap_by_turns(detector.base_heading_rad.plus(of(1.2))));
    let heading = back(found.heading_rad);
    assert!(angle_diff(heading, expected) < 0.08, "found={} expected={}", heading, expected);
    assert!(back(found.score) > 0.85, "score={}", back(found.score));
    assert!(back(found.score) <= 1.0);
    assert!(heading > -std::f32::consts::PI && heading <= std::f32::consts::PI);
}

#[test]
fn rejects_blank_frame() {
    let detector = load(&arrow()).unwrap();
    assert!(detector.detect(&blank()).is_none());
    let empty = Rgb8 { width: 0, height: 0, data: Vec::new() };
    assert!(detector.detect(&empty).is_none());
}

#[test]
fn the_arrow_points_along_its_axis() {
    let (dx, dy) = template_axis(&arrow()).unwrap();
    assert!(back(dy) < 0.0 && back(dx).abs() < back(dy).abs(), "{} {}", back(dx), back(dy));
    let clear = Rgba8 { width: 2, height: 2, data: vec![0; 16] };
    assert!(template_axis(&clear).is_none());
}

#[test]
fn a_template_with_few_pixels_is_refused() {
    let few = Rgba8 { width: 31, height: 1, data: vec![255; 4 * 31] };
    assert_eq!(load(&few).err().unwrap(), "方向模板有效像素过少: res/jt.png");
    let enough = Rgba8 { width: 32, height: 1, data: vec![255; 4 * 32] };
    assert!(load(&enough).is_ok());
    let faint = Rgba8 { width: 32, height: 2, data: vec![30; 4 * 64] };
    let d = load(&faint).ok().unwrap();
    assert_eq!((d.points.len(), back(d.base_heading_rad)), (64, 0.0));
}

#[test]
fn points_have_their_place_and_weight() {
    let img = Rgba8 {
        width: 2,
        height: 2,
        data: vec![0, 0, 0, 23, 200, 100, 50, 24, 9, 9, 9, 255, 1, 1, 0, 255],
    };
    let p = collect_template_points(&img);
    assert_eq!(p.len(), 3);
    assert_eq!((back(p[0].dx), back(p[0].dy)), (0.5, -0.5));
    assert_eq!((back(p[1].dx), back(p[1].dy)), (-0.5, 0.5));
    let sat: f32 = (200.0 - 50.0) / 200.0;
    assert_eq!(back(p[0].weight), 24.0 / 255.0 * (0.35 + sat * 0.65));
    assert_eq!(back(p[1].weight), 0.35);
    assert_eq!((back(p[0].red), back(p[0].green), back(p[0].blue)), (200.0, 100.0, 50.0));
}

#[test]
fn saturation_is_the_spread_of_the_colours() {
    assert_eq!(back(rgb_saturation(0, 0, 0)), 0.0);
    assert_eq!(back(rgb_saturation(1, 0, 0)), 0.0);
    assert_eq!(back(rgb_saturation(2, 1, 2)), 0.5);
    assert_eq!(back(rgb_saturation(10, 30, 20)), 20.0 / 30.0);
    assert_eq!(back(rgb_saturation(7, 7, 7)), 0.0);
}

#[test]
fn samples_lie_between_the_pixels() {
    let img = Rgb8 { width: 2, height: 2, data: vec![0, 10, 20, 100, 30, 20, 50, 90, 20, 150, 200, 20] };
    let at = |x: f32, y: f32| sample_rgb(&img, of(x), of(y)).map(|c| (back(c.0), back(c.1), back(c.2)));
    assert_eq!(at(0.0, 0.0), Some((0.0, 10.0, 20.0)));
    assert_eq!(at(1.0, 1.0), Some((150.0, 200.0, 20.0)));
    assert_eq!(at(0.5, 0.0), Some((50.0, 20.0, 20.0)));
    assert_eq!(at(0.25, 0.5), Some((50.0, 66.25, 20.0)));
    let none = Rgb8 { width: 0, height: 0, data: Vec::new() };
    assert!(sample_rgb(&none, of(0.0), of(0.0)).is_none());
    for (x, y) in [(-0.1f32, 0.0f32), (0.0, -0.1), (1.01, 0.0), (0.0, 1.5)] {
        assert_eq!(at(x, y), None);
    }
}

#[test]
fn turns_are_exact_half_degrees() {
    let mut deg = -180.0f32;
    let mut half = -360i32;
    while deg <= 180.0 + 10.0 * 0.25 {
        assert_eq!(deg, half as f32 * 0.5);
        deg += 10.0;
        half += 20;
    }
    assert_eq!(half, 380);
    let (mut fine, mut k) = (-182.0f32 - 2.0, -368i32);
    while fine <= -182.0 + 2.0 + 0.5 * 0.25 {
        assert_eq!(fine, k as f32 * 0.5);
        fine += 0.5;
        k += 1;
    }
    assert_eq!(k, -368 + 9);
}

#[test]
fn a_pass_takes_the_first_of_the_least_errors() {
    let detector = load(&arrow()).unwrap();
    let frame = render_template(&arrow(), 0.0, 0.0, 0.0);
    let (ax, ay) = (of(47.5), of(47.5));
    let best = detector.search_angles(&frame, ax, ay, -40, 40, 20);
    let mut want: Option<(i32, f32)> = None;
    for k in [-40i32, -20, 0, 20, 40] {
        let t = detector.turns[(k + FARTHEST) as usize];
        let (score, _) = detector.score_at(&frame, ax, ay, t.sin, t.cos);
        if want.map_or(true, |w| back(score) < w.1) {
            want = Some((k, back(score)));
        }
    }
    assert_eq!(Some((best.turn, back(best.score))), want);
    assert_eq!(best.turn, 0);
}

#[test]
fn a_poor_fit_is_no_heading() {
    let detector = load(&arrow()).unwrap();
    let fit = |score: f32, share: f32| {
        detector.judge(CandidateMatch { turn: 0, score: of(score), match_fraction: of(share) })
    };
    assert!(fit(0.15, 0.9).is_none());
    assert!(fit(0.1, 0.44).is_none());
    let m = fit(0.125, 0.45).unwrap();
    assert_eq!(back(m.score), 0.875);
    assert_eq!(m.heading_rad, detector.base_heading_rad);
}

#[test]
fn turns_are_converted_to_radians() {
    for k in -FARTHEST..=FARTHEST {
        assert_eq!(back(turn_radians(k)), (k as f32 * 0.5).to_radians());
    }
}
