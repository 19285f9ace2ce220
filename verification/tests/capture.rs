use roco_nav::capture::{
    apply_circular_mask, first_holding, from_bgra, MinimapCircle, MinimapRegion, WindowCapture,
};
use roco_nav::pixels::Rgb8;

fn windows(titles: &[&str]) -> Vec<(isize, String)> {
    titles.iter().enumerate().map(|(i, t)| (100 + i as isize, t.to_string())).collect()
}

#[test]
fn the_first_window_that_holds_the_title_is_taken() {
    let list = windows(&["Explorer", "My ROCO Kingdom", "roco kingdom two"]);
    assert_eq!(WindowCapture::find("  Roco Kingdom ", &list).unwrap().hwnd, 101);
    assert_eq!(WindowCapture::find("TWO", &list).unwrap().hwnd, 102);
    assert_eq!(WindowCapture::find("", &list).unwrap().hwnd, 100);
}

#[test]
fn letter_case_is_unicode_letter_case() {
    let list = windows(&["ÄPFEL"]);
    assert_eq!(WindowCapture::find("äpfel", &list).unwrap().hwnd, 100);
}

#[test]
fn a_missing_window_is_reported_with_those_that_are_there() {
    let list = windows(&["a", "b"]);
    assert_eq!(
        WindowCapture::find(" 洛克 ", &list).unwrap_err(),
        "未找到包含\" 洛克 \"的窗口。当前可见窗口: a | b"
    );
    assert_eq!(
        WindowCapture::find("x", &Vec::new()).unwrap_err(),
        "未找到包含\"x\"的窗口。当前可见窗口: "
    );
}

#[test]
fn the_first_text_that_holds_a_part_is_found() {
    let texts = vec!["one".to_string(), "two".to_string(), "twofold".to_string()];
    assert_eq!(first_holding(&texts, "two"), Some(1));
    assert_eq!(first_holding(&texts, "fold"), Some(2));
    assert_eq!(first_holding(&texts, "three"), None);
}

#[test]
fn the_client_size_is_the_difference_of_its_edges() {
    assert_eq!(WindowCapture::client_size(0, 0, 1920, 1080), (1920, 1080));
    assert_eq!(WindowCapture::client_size(-5, 7, 10, 9), (15, 2));
}

#[test]
fn the_square_of_a_circle_lies_around_it() {
    let c = MinimapCircle { cx: 1800, cy: 120, r: 80 };
    assert_eq!(WindowCapture::square_of(&c, (10, -20)), Ok((1730, 20, 160)));
    let none = MinimapCircle { cx: 5, cy: 5, r: 0 };
    assert_eq!(WindowCapture::square_of(&none, (0, 0)), Err("圆半径无效"));
    let less = MinimapCircle { cx: 5, cy: 5, r: -3 };
    assert_eq!(WindowCapture::square_of(&less, (0, 0)), Err("圆半径无效"));
}

fn filled(w: u32, h: u32, v: u8) -> Rgb8 {
    Rgb8 { width: w, height: h, data: vec![v; (3 * w * h) as usize] }
}

#[test]
fn a_capture_is_cut_to_the_circle_and_placed() {
    let c = MinimapCircle { cx: 50, cy: 40, r: 2 };
    let (img, region) = WindowCapture::capture_circle(&c, (640, 480), (100, -7), filled(4, 4, 9));
    assert_eq!(
        region,
        MinimapRegion { client_w: 640, client_h: 480, x: 148, y: 31, size: 4 }
    );
    assert_eq!(&img.data[0..3], &[0, 0, 0]);
    assert_eq!(&img.data[3..6], &[9, 9, 9]);
}

#[test]
fn the_mask_blackens_what_lies_outside_the_circle() {
    for (w, h) in [(1u32, 1u32), (4, 4), (5, 5), (9, 4), (33, 40), (0, 3)] {
        let mut img = filled(w, h, 200);
        apply_circular_mask(&mut img);
        let (cx, cy) = ((w as f32 - 1.0) * 0.5, (h as f32 - 1.0) * 0.5);
        let r = (w as f32).min(h as f32) * 0.5;
        for y in 0..h {
            for x in 0..w {
                let (dx, dy) = (x as f32 - cx, y as f32 - cy);
                let want = if dx * dx + dy * dy > r * r { 0 } else { 200 };
                let i = (3 * (y * w + x)) as usize;
                assert_eq!(&img.data[i..i + 3], &[want, want, want]);
            }
        }
        let once = img.data.clone();
        apply_circular_mask(&mut img);
        assert_eq!(img.data, once);
    }
}

#[test]
fn the_mask_is_the_disc_of_whole_numbers() {
    let (w, h) = (21i64, 15i64);
    let mut img = filled(w as u32, h as u32, 1);
    apply_circular_mask(&mut img);
    for y in 0..h {
        for x in 0..w {
            let (dx, dy) = (2 * x - w + 1, 2 * y - h + 1);
            let black = dx * dx + dy * dy > h * h;
            assert_eq!(img.data[(3 * (y * w + x)) as usize] == 0, black);
        }
    }
}

#[test]
fn screen_bytes_become_colours() {
    let buf = vec![1u8, 2, 3, 255, 4, 5, 6, 0];
    let img = from_bgra(&buf, 2, 1).unwrap();
    assert_eq!((img.width, img.height), (2, 1));
    assert_eq!(img.data, vec![3, 2, 1, 6, 5, 4]);
    assert!(from_bgra(&buf, 3, 1).is_none());
    assert!(from_bgra(&buf, 0, 9).unwrap().data.is_empty());
}
