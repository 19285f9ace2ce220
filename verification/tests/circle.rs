use roco_nav::binary32::Binary32;
use roco_nav::capture::MinimapCircle;
use roco_nav::circle::{
    count_votes, detect, detect_and_tell, fallback, highest, plan, try_hough, vote,
};
use roco_nav::pixels::{Gradient, Rgb8};

fn back(x: Binary32) -> f32 {
    f32::from_bits(x.bits)
}

/// A dark picture with a bright disc.
fn with_disc(w: u32, h: u32, cx: f32, cy: f32, r: f32) -> Rgb8 {
    let mut data = Vec::new();
    for y in 0..h {
        for x in 0..w {
            let d = ((x as f32 - cx).powi(2) + (y as f32 - cy).powi(2)).sqrt();
            let v = if d <= r { 230u8 } else { 20 };
            data.extend_from_slice(&[v, v, v]);
        }
    }
    Rgb8 { width: w, height: h, data }
}

#[test]
fn the_usual_circle_is_placed_by_proportion() {
    assert_eq!(fallback(1920, 1080), MinimapCircle { cx: 1810, cy: 129, r: 83 });
    assert_eq!(fallback(0, 0), MinimapCircle { cx: 0, cy: 0, r: 0 });
    for (w, h) in [(1280, 720), (2560, 1440), (333, 777), (-500, 20), (i32::MAX, i32::MAX), (i32::MIN, 7)] {
        let r = (0.043 * w as f32).round() as i32;
        let right = (0.014 * w as f32).round() as i32;
        let top = (0.043 * h as f32).round() as i32;
        let c = fallback(w, h);
        assert_eq!(c, MinimapCircle { cx: w - right - r, cy: top + r, r });
        if w >= 0 && h >= 0 {
            assert!(c.r >= 0 && c.cx + c.r <= w && c.cx - c.r >= 0 && c.cy - c.r >= 0);
        }
    }
}

#[test]
fn a_small_picture_is_not_searched() {
    assert!(plan(63, 200).is_none());
    assert!(plan(200, 63).is_none());
    assert!(plan(64, 64).is_some());
}

#[test]
fn a_wide_picture_is_searched_reduced() {
    let s = plan(1920, 1080).unwrap();
    assert_eq!((s.sw, s.sh, s.wx0, s.wx1, s.wy1), (800, 450, 480, 799, 225));
    assert_eq!(back(s.d), 800.0 / 1920.0);
    let (d, cw) = (800.0f32 / 1920.0, 1920.0f32);
    assert_eq!(back(s.r_min), (0.028 * cw * d).max(4.0));
    assert_eq!(back(s.r_max), (0.060 * cw * d).max(back(s.r_min) + 1.0));
    assert_eq!(s.r_steps, ((back(s.r_max) - back(s.r_min)).ceil() as i32).max(1));
    assert_eq!(plan(0x20_0000, 64).map(|s| s.sw), Some(800));
    assert_eq!(plan(0x100_0000, 0x4_0000).map(|s| s.sw), Some(800));
    assert_eq!(plan(64, 0x140_0000).map(|s| (s.sh, s.wy1)), Some((0x140_0000, 0xa0_0000)));
    assert!(plan(64, 0x8000_0100).is_none());
    let small = plan(640, 480).unwrap();
    assert_eq!((small.sw, small.sh, back(small.d)), (640, 480, 1.0));
}

/// The same search in hardware arithmetic.
fn plain_search(img: &Rgb8) -> Option<MinimapCircle> {
    let (cw, ch) = (img.width as f32, img.height as f32);
    let d = if cw > 800.0 { 800.0 / cw } else { 1.0 };
    let sw = (cw * d).round().max(8.0) as u32;
    let sh = (ch * d).round().max(8.0) as u32;
    let whole = image::RgbImage::from_raw(img.width, img.height, img.data.clone()).unwrap();
    let small = image::imageops::resize(&whole, sw, sh, image::imageops::FilterType::Triangle);
    let gray = image::imageops::grayscale(&small);
    let gx = imageproc::gradients::horizontal_sobel(&gray);
    let gy = imageproc::gradients::vertical_sobel(&gray);
    let r_min = (0.028 * cw * d).max(4.0);
    let r_max = (0.060 * cw * d).max(r_min + 1.0);
    let x0 = (0.60 * sw as f32).floor().max(0.0) as i32;
    let x1 = (sw as f32 - 1.0) as i32;
    let y1 = (0.50 * sh as f32).ceil().min(sh as f32 - 1.0) as i32;
    let cols = (x1 - x0 + 1) as usize;
    let steps = ((r_max - r_min).ceil() as i32).max(1);
    let mut edges: Vec<(f32, f32, f32, f32, f32)> = Vec::new();
    for y in 0..sh {
        for x in 0..sw {
            let a = gx.get_pixel(x, y).0[0] as f32;
            let b = gy.get_pixel(x, y).0[0] as f32;
            let mag = (a * a + b * b).sqrt();
            if mag >= 80.0 {
                edges.push((x as f32, y as f32, a, b, mag));
            }
        }
    }
    let mut acc = vec![0u32; cols * (y1 + 1) as usize];
    for e in &edges {
        for k in 0..=steps {
            let r = r_min + k as f32;
            if r > r_max {
                break;
            }
            for sign in [1.0f32, -1.0] {
                let x = (e.0 + sign * r * (e.2 / e.4)).round() as i32;
                let y = (e.1 + sign * r * (e.3 / e.4)).round() as i32;
                if x >= x0 && x <= x1 && y >= 0 && y <= y1 {
                    acc[y as usize * cols + (x - x0) as usize] += 1;
                }
            }
        }
    }
    let (i, v) = highest(&acc);
    let (bx, by) = ((i % cols) as i32 + x0, (i / cols) as i32);
    let mut bins = vec![0u32; steps as usize + 1];
    for e in &edges {
        let (dx, dy) = (e.0 - bx as f32, e.1 - by as f32);
        let dist = (dx * dx + dy * dy).sqrt();
        if dist < r_min || dist > r_max {
            continue;
        }
        let k = (dist - r_min).round() as usize;
        if (dx * e.2 + dy * e.3).abs() / (dist * e.4 + 1e-6) >= 0.7 && k < bins.len() {
            bins[k] += 1;
        }
    }
    let (k, n) = highest(&bins);
    let r = r_min + k as f32;
    let share = v as f32 / (2.0 * std::f32::consts::PI * r).max(1.0);
    if v == 0 || n == 0 || share < 0.12 {
        return None;
    }
    let inv = 1.0 / d;
    Some(MinimapCircle {
        cx: (bx as f32 * inv).round() as i32,
        cy: (by as f32 * inv).round() as i32,
        r: (r * inv).round() as i32,
    })
}

#[test]
fn a_disc_is_found() {
    let img = with_disc(800, 450, 720.0, 70.0, 34.0);
    let c = try_hough(&img).unwrap();
    assert_eq!(Some(c), plain_search(&img));
    assert!((c.cx - 720).abs() <= 8 && (c.cy - 70).abs() <= 8 && (c.r - 34).abs() <= 8, "{:?}", c);
    assert_eq!(detect(&img), c);
}

#[test]
fn a_disc_is_found_in_a_reduced_picture() {
    let img = with_disc(1600, 900, 1440.0, 140.0, 68.0);
    let c = detect(&img);
    assert_eq!(Some(c), plain_search(&img));
    assert!((c.cx - 1440).abs() <= 16 && (c.cy - 140).abs() <= 16, "{:?}", c);
}

#[test]
fn a_busy_picture_is_searched_as_in_hardware_arithmetic() {
    let mut data = Vec::new();
    for y in 0..300u32 {
        for x in 0..420u32 {
            let v = ((x * 13 + y * y) % 97 + ((x / 9 + y / 7) % 3) * 50) as u8;
            data.extend_from_slice(&[v, (v / 2).wrapping_add(x as u8), v ^ 0x3c]);
        }
    }
    let img = Rgb8 { width: 420, height: 300, data };
    assert_eq!(try_hough(&img), plain_search(&img));
}

#[test]
fn without_edges_the_usual_circle_is_taken() {
    let img = Rgb8 { width: 640, height: 360, data: vec![90; 3 * 640 * 360] };
    assert!(try_hough(&img).is_none());
    assert_eq!(detect(&img), fallback(640, 360));
}

#[test]
fn a_disc_outside_the_upper_right_does_not_count() {
    let img = with_disc(800, 450, 100.0, 70.0, 34.0);
    assert_eq!(detect(&img), fallback(800, 450));
}

#[test]
fn the_first_of_the_highest_counts_is_taken() {
    assert_eq!(highest(&vec![1, 5, 3, 5]), (1, 5));
    assert_eq!(highest(&vec![0, 0]), (0, 0));
    assert_eq!(highest(&Vec::new()), (0, 0));
}

#[test]
fn an_edge_votes_along_its_gradient() {
    let s = plan(100, 100).unwrap();
    let n = (s.sw * s.sh) as usize;
    let mut gx = vec![0i16; n];
    let gy = vec![0i16; n];
    gx[20 * 100 + 80] = 400;
    let across = Gradient { width: 100, height: 100, data: gx };
    let down = Gradient { width: 100, height: 100, data: gy };
    let acc = count_votes(&s, &across, &down);
    let cols = (s.wx1 - s.wx0 + 1) as usize;
    let mut want = vec![0u32; acc.len()];
    let mut step = 0;
    while step <= s.r_steps {
        let r = back(s.r_min) + step as f32;
        if r > back(s.r_max) {
            break;
        }
        for sign in [1.0f32, -1.0] {
            let x = (80.0f32 + sign * r).round() as i32;
            if x >= s.wx0 && x <= s.wx1 {
                want[20 * cols + (x - s.wx0) as usize] += 1;
            }
        }
        step += 1;
    }
    assert_eq!(acc, want);
    assert!(want.iter().sum::<u32>() > 0);
    assert!(vote(&s, &across, &down).is_none());
}

#[test]
fn what_was_found_is_told() {
    let (c, line) = detect_and_tell(&with_disc(640, 480, 560.0, 80.0, 28.0));
    assert_eq!(c, detect(&with_disc(640, 480, 560.0, 80.0, 28.0)));
    assert_eq!(line, format!("[圆检测] 成功: 圆心=({}, {}) 半径={}", c.cx, c.cy, c.r));
    assert!(c.cx >= 384 && c.cx <= 639 && c.cy >= 0 && c.cy <= 240);
    let dark = Rgb8 { width: 320, height: 200, data: vec![9; 3 * 320 * 200] };
    let (u, line) = detect_and_tell(&dark);
    assert_eq!(u, fallback(320, 200));
    assert_eq!(
        line,
        format!("[圆检测] 检测置信度低，回退到右上角默认圆: 圆心=({}, {}) 半径={}", u.cx, u.cy, u.r)
    );
}
