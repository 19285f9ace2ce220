use roco_nav::binary32::Binary32;

fn of(x: f32) -> Binary32 {
    Binary32::of_bits(x.to_bits())
}

fn back(x: Binary32) -> f32 {
    f32::from_bits(x.bits)
}

/// Bit patterns that cover every binary exponent, the edges of the format and
/// a spread of fractions.
fn samples() -> Vec<f32> {
    let mut v: Vec<f32> = Vec::new();
    let fractions: [u32; 7] = [0, 1, 0x2a_aaaa, 0x40_0000, 0x55_5555, 0x7f_fffe, 0x7f_ffff];
    for e in 0..=255u32 {
        if e > 12 && e < 100 && e % 9 != 0 {
            continue;
        }
        if e > 160 && e < 240 && e % 9 != 0 {
            continue;
        }
        for f in fractions {
            v.push(f32::from_bits(e << 23 | f));
            v.push(f32::from_bits(0x8000_0000 | e << 23 | f));
        }
    }
    v
}

fn agree(x: Binary32, y: f32) -> bool {
    (x.is_nan() && y.is_nan()) || x.bits == y.to_bits()
}

#[test]
fn sums_match_the_hardware() {
    for a in samples() {
        for b in samples() {
            assert!(agree(of(a).plus(of(b)), a + b), "{} + {}", a, b);
            assert!(agree(of(a).minus(of(b)), a - b), "{} - {}", a, b);
        }
    }
}

#[test]
fn products_match_the_hardware() {
    for a in samples() {
        for b in samples() {
            assert!(agree(of(a).times(of(b)), a * b), "{} * {}", a, b);
        }
    }
}

#[test]
fn quotients_match_the_hardware() {
    for a in samples() {
        for b in samples() {
            assert!(agree(of(a).over(of(b)), a / b), "{} / {}", a, b);
        }
    }
}

#[test]
fn remainders_match_the_hardware() {
    for a in samples() {
        for b in samples() {
            assert!(agree(of(a).rem(of(b)), a % b), "{} % {}", a, b);
        }
    }
}

#[test]
fn one_operand_functions_match_the_hardware() {
    for a in samples() {
        assert!(agree(of(a).sqrt(), a.sqrt()), "sqrt {}", a);
        assert!(agree(of(a).floor(), a.floor()), "floor {}", a);
        assert!(agree(of(a).ceil(), a.ceil()), "ceil {}", a);
        assert!(agree(of(a).round(), a.round()), "round {}", a);
        assert!(agree(of(a).abs(), a.abs()), "abs {}", a);
        assert_eq!(of(a).to_i32(), a as i32, "{}", a);
        assert_eq!(of(a).to_u32(), a as u32, "{}", a);
        assert_eq!(of(a).to_u64(), a as u64, "{}", a);
        assert_eq!(of(a).to_u8(), a as u8, "{}", a);
    }
    let mut x: f32 = -40.0;
    while x < 40.0 {
        assert!(agree(of(x).floor(), x.floor()), "floor {}", x);
        assert!(agree(of(x).ceil(), x.ceil()), "ceil {}", x);
        assert!(agree(of(x).round(), x.round()), "round {}", x);
        x += 0.25;
    }
}

#[test]
fn integers_convert_like_the_hardware() {
    for k in [0u64, 1, 2, 255, 16_777_215, 16_777_216, 16_777_217, 16_777_219, u32::MAX as u64, u64::MAX] {
        assert!(agree(Binary32::of_u64(k), k as f32), "{}", k);
    }
    for k in [0i32, 1, -1, 16_777_217, -16_777_217, i32::MAX, i32::MIN] {
        assert!(agree(Binary32::of_i32(k), k as f32), "{}", k);
    }
}

#[test]
fn order_matches_the_hardware() {
    for a in samples() {
        for b in samples() {
            assert_eq!(of(a).lt(of(b)), a < b);
            assert_eq!(of(a).le(of(b)), a <= b);
            assert_eq!(of(a).same(of(b)), a == b);
        }
    }
    assert_eq!(back(of(f32::NAN).min(of(2.0))), 2.0);
    assert_eq!(back(of(2.0).max(of(f32::NAN))), 2.0);
    assert_eq!(back(of(7.0).clamp(of(-1.0), of(1.0))), 1.0);
}
