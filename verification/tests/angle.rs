use roco_nav::angle::{wrap_angle, wrap_by_turns};
use roco_nav::binary32::Binary32;

fn of(x: f32) -> Binary32 {
    Binary32::of_bits(x.to_bits())
}

fn back(x: Binary32) -> f32 {
    f32::from_bits(x.bits)
}

fn by_turns(a: f32) -> f32 {
    let mut x = a;
    while x <= -std::f32::consts::PI {
        x += std::f32::consts::TAU;
    }
    while x > std::f32::consts::PI {
        x -= std::f32::consts::TAU;
    }
    x
}

fn by_remainder(a: f32) -> f32 {
    let x = a % std::f32::consts::TAU;
    if x <= -std::f32::consts::PI {
        x + std::f32::consts::TAU
    } else if x > std::f32::consts::PI {
        x - std::f32::consts::TAU
    } else {
        x
    }
}

#[test]
fn angles_are_brought_within_half_a_turn() {
    let pi = std::f32::consts::PI;
    for a in [0.0f32, 1.0, -1.0, pi, -pi, 3.2, -3.2, 6.3, -6.3, 100.0, -100.0, 12345.6] {
        assert_eq!(back(wrap_by_turns(of(a))), by_turns(a));
        assert_eq!(back(wrap_angle(of(a))), by_remainder(a));
        for w in [back(wrap_by_turns(of(a))), back(wrap_angle(of(a)))] {
            assert!(-pi < w && w <= pi);
            assert_eq!((back(wrap_angle(of(w))), back(wrap_by_turns(of(w)))), (w, w));
        }
    }
    assert_eq!(back(wrap_angle(of(-pi))), pi);
    assert_eq!(back(wrap_by_turns(of(-pi))), pi);
}

#[test]
fn the_remainder_takes_any_finite_angle() {
    for a in [1.0e9f32, -7.5e20, f32::MAX, f32::MIN] {
        assert_eq!(back(wrap_angle(of(a))), by_remainder(a));
        assert!(back(wrap_angle(of(a))).abs() <= std::f32::consts::PI);
    }
    assert!(wrap_angle(of(f32::INFINITY)).is_nan());
}

#[test]
fn an_angle_that_a_turn_does_not_change_stays() {
    assert_eq!(back(wrap_by_turns(of(1.0e30))), 1.0e30);
    assert_eq!(back(wrap_by_turns(of(f32::NEG_INFINITY))), f32::NEG_INFINITY);
    assert!(wrap_by_turns(of(f32::NAN)).is_nan());
}
