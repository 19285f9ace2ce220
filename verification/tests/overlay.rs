use roco_nav::binary32::Binary32;
use roco_nav::overlay::{
    draw_thick_line, fill_circle, fill_triangle, frame, premul, put_pixel, render_arrow, ArrowInfo,
    NavContent, Triangle,
};
use roco_nav::spot::Spot;

fn of(x: f32) -> Binary32 {
    Binary32::of_bits(x.to_bits())
}

fn spot(p: (f32, f32)) -> Spot {
    Spot { x: of(p.0), y: of(p.1) }
}

/// The same shapes in hardware arithmetic.
fn plot(buf: &mut [u8], w: i32, x: i32, y: i32, c: [u8; 4]) {
    let i = (4 * (y * w + x)) as usize;
    for k in 0..4 {
        buf[i + k] = ((c[k] as u32 * 255 + buf[i + k] as u32 * (255 - c[3] as u32)) / 255) as u8;
    }
}

fn plain_triangle(buf: &mut [u8], w: i32, h: i32, p: [(f32, f32); 3], c: [u8; 4]) {
    for y in 0..h {
        let low = p[0].1.min(p[1].1).min(p[2].1).floor() as i32;
        let high = p[0].1.max(p[1].1).max(p[2].1).ceil() as i32;
        if y < low || y > high {
            continue;
        }
        let yf = y as f32 + 0.5;
        let mut xs: Vec<f32> = Vec::new();
        for (a, b) in [(p[0], p[1]), (p[1], p[2]), (p[2], p[0])] {
            if (a.1 <= yf) != (b.1 <= yf) && xs.len() < 2 {
                xs.push(a.0 + (yf - a.1) / (b.1 - a.1) * (b.0 - a.0));
            }
        }
        if xs.len() == 2 {
            let (l, r) = if xs[0] < xs[1] { (xs[0], xs[1]) } else { (xs[1], xs[0]) };
            for x in 0..w {
                if l.floor() as i32 <= x && x <= r.ceil() as i32 {
                    plot(buf, w, x, y, c);
                }
            }
        }
    }
}

fn plain_line(buf: &mut [u8], w: i32, h: i32, a: (f32, f32), b: (f32, f32), t: f32, c: [u8; 4]) {
    let (dx, dy) = (b.0 - a.0, b.1 - a.1);
    let len = (dx * dx + dy * dy).sqrt();
    if len < 0.5 {
        return;
    }
    let (nx, ny, ht) = (-dy / len, dx / len, t / 2.0);
    let p = (a.0 + nx * ht, a.1 + ny * ht);
    let q = (a.0 - nx * ht, a.1 - ny * ht);
    let r = (b.0 - nx * ht, b.1 - ny * ht);
    let s = (b.0 + nx * ht, b.1 + ny * ht);
    plain_triangle(buf, w, h, [p, q, r], c);
    plain_triangle(buf, w, h, [p, r, s], c);
}

#[test]
fn colours_are_multiplied_by_their_opacity() {
    assert_eq!(premul(0, 255, 120, 230), [108, 230, 0, 230]);
    assert_eq!(premul(255, 128, 1, 255), [1, 128, 255, 255]);
    for a in 0..=255u8 {
        for k in 0..=255u8 {
            let c = premul(k, 0, 0, a);
            assert_eq!(c[2], (k as f32 * (a as f32 / 255.0)) as u8);
            assert!(c[2] <= a);
        }
    }
}

#[test]
fn a_pixel_is_blended_and_its_neighbours_stay() {
    let mut buf: Vec<u8> = (0..48).collect();
    let before = buf.clone();
    let c = premul(200, 100, 50, 128);
    put_pixel(&mut buf, 4, 3, 2, 1, c);
    for i in 0..48usize {
        if i / 4 == 6 {
            let want = (c[i % 4] as u32 * 255 + before[i] as u32 * 127) / 255;
            assert_eq!(buf[i] as u32, want);
        } else {
            assert_eq!(buf[i], before[i]);
        }
    }
    let after = buf.clone();
    for (x, y) in [(-1, 0), (0, -1), (4, 0), (0, 3)] {
        put_pixel(&mut buf, 4, 3, x, y, c);
    }
    put_pixel(&mut buf, 5, 5, 4, 4, c);
    assert_eq!(buf, after);
}

#[test]
fn opaque_colours_replace_and_clear_ones_do_nothing() {
    let mut buf: Vec<u8> = vec![17; 4];
    put_pixel(&mut buf, 1, 1, 0, 0, [0, 0, 0, 0]);
    assert_eq!(buf, vec![17; 4]);
    put_pixel(&mut buf, 1, 1, 0, 0, [1, 2, 3, 255]);
    assert_eq!(buf, vec![1, 2, 3, 255]);
}

#[test]
fn discs_match_hardware_arithmetic() {
    let c = premul(10, 200, 30, 100);
    for (cx, cy, r) in [(10.0f32, 7.5f32, 4.2f32), (-1.0, 3.0, 5.0), (19.5, 14.5, 0.4), (3.0, 3.0, 0.5)] {
        let mut buf = vec![40u8; 20 * 15 * 4];
        let mut want = buf.clone();
        fill_circle(&mut buf, 20, 15, of(cx), of(cy), of(r), c);
        for y in 0..15 {
            for x in 0..20 {
                let (dx, dy) = (x as f32 + 0.5 - cx, y as f32 + 0.5 - cy);
                if r >= 0.5 && dx * dx + dy * dy <= r * r {
                    plot(&mut want, 20, x, y, c);
                }
            }
        }
        assert_eq!(buf, want);
    }
}

#[test]
fn triangles_match_hardware_arithmetic() {
    let c = premul(250, 20, 130, 77);
    let shapes = [
        [(2.0f32, 1.0f32), (17.3, 5.5), (6.1, 13.9)],
        [(-5.0, -3.0), (30.0, 4.0), (8.0, 40.0)],
        [(4.0, 4.0), (9.0, 4.0), (6.5, 4.0)],
        [(1.0, 1.5), (10.0, 1.5), (1.0, 9.5)],
    ];
    for p in shapes {
        let mut buf = vec![9u8; 20 * 15 * 4];
        let mut want = buf.clone();
        let t = Triangle { a: spot(p[0]), b: spot(p[1]), c: spot(p[2]) };
        fill_triangle(&mut buf, 20, 15, t, c);
        plain_triangle(&mut want, 20, 15, p, c);
        assert_eq!(buf, want);
    }
}

#[test]
fn what_the_buffer_does_not_hold_is_left_out() {
    let c = premul(0, 0, 0, 255);
    let t = Triangle { a: spot((0.0, 0.0)), b: spot((40.0, 0.0)), c: spot((0.0, 40.0)) };
    let mut short = vec![7u8; 10];
    fill_triangle(&mut short, 4, 4, t, c);
    assert_eq!(short, vec![0, 0, 0, 255, 0, 0, 0, 255, 7, 7]);
    let mut buf = vec![7u8; 16];
    fill_triangle(&mut buf, 0, 4, t, c);
    fill_circle(&mut buf, -3, 4, of(1.0), of(1.0), of(3.0), c);
    fill_circle(&mut buf, 2, -2, of(1.0), of(1.0), of(3.0), c);
    assert_eq!(buf, vec![7u8; 16]);
}

#[test]
fn lines_match_hardware_arithmetic() {
    let c = premul(0, 255, 120, 230);
    for (a, b) in [((2.0f32, 2.0f32), (15.0f32, 11.0f32)), ((5.0, 5.0), (5.3, 5.2)), ((0.0, 14.0), (19.0, 0.5))] {
        let mut buf = vec![0u8; 20 * 15 * 4];
        let mut want = buf.clone();
        draw_thick_line(&mut buf, 20, 15, spot(a), spot(b), of(3.0), c);
        plain_line(&mut want, 20, 15, a, b, 3.0, c);
        assert_eq!(buf, want);
    }
}

#[test]
fn the_arrow_matches_hardware_arithmetic() {
    let (w, h) = (160i32, 120i32);
    for (angle, distance) in [(0.0f32, 50.0f32), (1.1, 240.0), (-2.5, 900.0)] {
        let info = ArrowInfo { rel_angle: of(angle), distance: of(distance) };
        let mut buf = vec![0u8; (w * h * 4) as usize];
        let mut want = buf.clone();
        render_arrow(&mut buf, w, h, &info, of(angle.sin()), of(angle.cos()));
        let (dx, dy) = (angle.sin(), -angle.cos());
        let (cx, cy) = (w as f32 / 2.0, h as f32 / 2.0);
        let most = (w as f32).min(h as f32) * 0.5;
        let least = most * (100.0 / 500.0);
        let t = (distance.clamp(100.0, 500.0) - 100.0) / 400.0;
        let len = least + t * (most - least);
        let start = (cx + dx * 25.0, cy + dy * 25.0);
        let end = (cx + dx * (25.0 + len), cy + dy * (25.0 + len));
        let dark = [0u8, 0, 0, 180];
        let green = [108u8, 230, 0, 230];
        plain_line(&mut want, w, h, start, end, 6.0, dark);
        plain_line(&mut want, w, h, start, end, 3.0, green);
        let (bx, by) = (end.0 - dx * 20.0, end.1 - dy * 20.0);
        let (px, py) = (-dy, dx);
        for (ahead, side, c) in [(4.0f32, 15.0f32, dark), (0.0, 12.0, green)] {
            let tip = if ahead == 0.0 { end } else { (end.0 + dx * ahead, end.1 + dy * ahead) };
            let p = [tip, (bx + px * side, by + py * side), (bx - px * side, by - py * side)];
            plain_triangle(&mut want, w, h, p, c);
        }
        assert_eq!(buf, want);
        let shown = frame(w, h, Some(NavContent::Arrow(&info)), of(angle.sin()), of(angle.cos()));
        assert_eq!(shown.unwrap(), want);
        for p in want.chunks(4) {
            assert!(p[0] <= p[3] && p[1] <= p[3] && p[2] <= p[3]);
        }
    }
}

#[test]
fn without_content_the_frame_is_transparent() {
    let none = of(0.0);
    assert_eq!(frame(3, 2, None, none, none).unwrap(), vec![0u8; 24]);
    assert!(frame(0, 2, None, none, none).is_none());
    assert!(frame(3, -1, None, none, none).is_none());
}
