use world_inspector::bytes::{
    bytes_equal, comes_before, push_i32_le, read_i32_le, read_u32_le, starts_with, wrap_32,
};
use world_inspector::resolve_db_path;
use world_inspector::text::{
    chars_of, contains_text, parse_i32, parse_u32, push_decimal, text_for_c, text_is, trim,
};

#[test]
fn byte_strings_are_compared() {
    assert!(bytes_equal(b"abc", b"abc"));
    assert!(!bytes_equal(b"abc", b"abd"));
    assert!(!bytes_equal(b"ab", b"abc"));
    assert!(starts_with(b"player_1", b"player_"));
    assert!(!starts_with(b"play", b"player_"));
    assert!(starts_with(b"x", b""));
}

#[test]
fn key_order_is_lexicographic() {
    assert!(comes_before(b"", b"a"));
    assert!(comes_before(b"a", b"ab"));
    assert!(comes_before(b"player_", b"~"));
    assert!(!comes_before(b"b", b"ab"));
    assert!(!comes_before(b"a", b"a"));
    assert!(comes_before(&[0x7f], &[0x80]));
}

#[test]
fn little_endian_integers() {
    assert_eq!(read_u32_le(&[9, 0x78, 0x56, 0x34, 0x12], 1), 0x1234_5678);
    assert_eq!(read_i32_le(&[0xff, 0xff, 0xff, 0xff], 0), -1);
    assert_eq!(read_i32_le(&[0, 0, 0, 0x80], 0), i32::MIN);
    for v in [0, 1, -1, 255, -256, i32::MAX, i32::MIN] {
        let mut out = vec![7u8];
        push_i32_le(&mut out, v);
        assert_eq!(out.len(), 5);
        assert_eq!(&out[1..], &v.to_le_bytes());
        assert_eq!(read_i32_le(&out, 1), v);
    }
}

#[test]
fn integers_wrap_to_32_bits() {
    assert_eq!(wrap_32(5), 5);
    assert_eq!(wrap_32(-5), -5);
    assert_eq!(wrap_32(0x8000_0000), i32::MIN);
    assert_eq!(wrap_32(0x1_0000_0007), 7);
    assert_eq!(wrap_32(i64::MAX), -1);
    assert_eq!(wrap_32(i64::MIN), 0);
}

#[test]
fn signed_numbers_are_parsed() {
    assert_eq!(parse_i32("42"), Some(42));
    assert_eq!(parse_i32("+42"), Some(42));
    assert_eq!(parse_i32("-60"), Some(-60));
    assert_eq!(parse_i32("-0"), Some(0));
    assert_eq!(parse_i32("0007"), Some(7));
    assert_eq!(parse_i32("2147483647"), Some(i32::MAX));
    assert_eq!(parse_i32("-2147483648"), Some(i32::MIN));
    for bad in ["", "+", "-", "--1", " 1", "1 ", "1.0", "x", "2147483648", "-2147483649"] {
        assert_eq!(parse_i32(bad), None, "{}", bad);
    }
}

#[test]
fn unsigned_numbers_are_parsed() {
    assert_eq!(parse_u32("256"), Some(256));
    assert_eq!(parse_u32("+1"), Some(1));
    assert_eq!(parse_u32("4294967295"), Some(u32::MAX));
    for bad in ["", "-1", "-0", "4294967296", "a", "99999999999999999999999"] {
        assert_eq!(parse_u32(bad), None, "{}", bad);
    }
}

#[test]
fn decimal_text_is_appended() {
    for v in [0i64, 7, 10, -1, 4095, -2048, i64::MAX, -i64::MAX] {
        let mut s = String::from(">");
        push_decimal(&mut s, v);
        assert_eq!(s, format!(">{}", v));
    }
}

#[test]
fn texts_are_searched() {
    assert!(contains_text("minecraft:chest", "chest"));
    assert!(contains_text("abc", ""));
    assert!(contains_text("aab", "ab"));
    assert!(!contains_text("ab", "abc"));
    assert!(text_is("é", "é"));
    assert!(!text_is("a", "b"));
    assert_eq!(chars_of("aé"), vec!['a', 'é']);
}

#[test]
fn white_space_is_trimmed() {
    assert_eq!(trim("  \t\na b\u{3000}\u{85} "), "a b");
    assert_eq!(trim(""), "");
    assert_eq!(trim(" \u{2028} "), "");
    assert_eq!(trim("\u{200b}x"), "\u{200b}x");
    for c in ['\u{9}', '\u{d}', '\u{a0}', '\u{1680}', '\u{2000}', '\u{200a}', '\u{2029}', '\u{202f}', '\u{205f}'] {
        let s: String = [c, 'x', c].iter().collect();
        assert_eq!(trim(&s), s.trim());
    }
}

#[test]
fn database_path_is_beside_the_level_file() {
    assert_eq!(resolve_db_path("/worlds/w", 0), "/worlds/w/db");
    assert_eq!(resolve_db_path("/worlds/w///", 2), "/worlds/w/db");
    assert_eq!(resolve_db_path("", 0), "/db");
}

#[test]
fn texts_for_c_hold_no_zero() {
    assert_eq!(text_for_c("minecraft:stone"), "minecraft:stone");
    assert_eq!(text_for_c("a\0b"), "");
    assert_eq!(text_for_c(""), "");
}
