use roco_nav::text::{contains, decimal, glue, less, natural, trim, white};

#[test]
fn trimming_agrees_with_the_standard_library() {
    let texts = [
        "", " ", "\u{3000}洛克王国 \t", "a b", "\u{feff}x", "\u{2028}y\u{85}", "  inner  space  ",
    ];
    for t in texts {
        assert_eq!(trim(t), t.trim());
    }
}

#[test]
fn white_space_is_unicode_white_space() {
    for k in 0..0x3100u32 {
        if let Some(c) = char::from_u32(k) {
            assert_eq!(white(c), c.is_whitespace(), "{:x}", k);
        }
    }
}

#[test]
fn containment_agrees_with_the_standard_library() {
    let texts = ["", "a", "ab", "aab", "洛克王国：世界", "王国", "aaa", "b"];
    for a in texts {
        for b in texts {
            assert_eq!(contains(a, b), a.contains(b), "{:?} {:?}", a, b);
        }
    }
}

#[test]
fn order_agrees_with_the_standard_library() {
    let texts = ["", "a", "ab", "b", "Z", "10.json", "2.json", "洛", "克", "\u{10000}", "\u{ffff}"];
    for a in texts {
        for b in texts {
            assert_eq!(less(a, b), a < b, "{:?} {:?}", a, b);
        }
    }
}

#[test]
fn decimals_agree_with_the_standard_library() {
    for k in [0i64, 7, 10, -1, -90, 1234567890, i64::MAX, i64::MIN] {
        assert_eq!(decimal(k), k.to_string());
    }
    assert_eq!(natural(u64::MAX), u64::MAX.to_string());
    assert_eq!(glue("a", "b", "c"), "abc");
}
