use roco_nav::pixels::can_resize;
use roco_nav::shares::can_sample;

/// The same in hardware arithmetic.
fn every_place_has_a_pixel(from: u32, to: u32) -> bool {
    let ratio = from as f32 / to as f32;
    let broad = if ratio < 1.0 { 1.0 } else { ratio };
    (0..to).all(|o| {
        let place = (o as f32 + 0.5) * ratio;
        let first = ((place - broad).floor() as i64).clamp(0, from as i64 - 1);
        let past = ((place + broad).ceil() as i64).clamp(first + 1, from as i64);
        (first..past).any(|i| ((i as u32 as f32 - (place - 0.5)) / broad).abs() < 1.0)
    })
}

#[test]
fn ordinary_sides_are_resampled() {
    for (from, to) in [(1u32, 1u32), (1, 999), (999, 1), (640, 800), (800, 640), (4096, 37), (5, 4096)] {
        assert!(can_sample(from, to) && every_place_has_a_pixel(from, to));
    }
    assert!(can_sample(7, 0));
}

#[test]
fn long_sides_are_resampled_to_short_ones() {
    for from in [0x80_0000u32, 0x80_0001, 0xff_ffff, 0x8000_0003, u32::MAX] {
        for to in [1u32, 3, 800, 1001] {
            assert_eq!(can_sample(from, to), every_place_has_a_pixel(from, to));
            assert!(can_sample(from, to));
        }
    }
}

#[test]
fn what_a_picture_takes_to_be_resampled() {
    assert!(can_resize(0, 7, 100, 100, 3));
    assert!(can_resize(10, 10, 0, 5, 1));
    assert!(can_resize(640, 480, 320, 240, 3));
    assert!(can_resize(u32::MAX, 1, u32::MAX, 1, 1));
    assert!(!can_resize(u32::MAX, 1, 1, u32::MAX, 1));
    assert!(!can_resize(1, 1, u32::MAX, u32::MAX, 4));
}
