use world_inspector::compress::{RawZlibCompressor, ZlibCompressor};
use world_inspector::encoding::{hex_decode, hex_encode, HexError};
use world_inspector::json::{parse_json, render_json, Json};
use world_inspector::nbt::{CompoundTag, Tag};
use world_inspector::nbt_json::tag_to_json;

#[test]
fn hex_is_lower_case() {
    assert_eq!(hex_encode(&[]), "");
    assert_eq!(hex_encode(&[0x00, 0x0a, 0xff, 0x61]), "000aff61");
}

#[test]
fn hex_is_read_in_either_case() {
    assert_eq!(hex_decode(" 0aFF\n").unwrap(), vec![0x0a, 0xff]);
    assert_eq!(hex_decode("").unwrap(), Vec::<u8>::new());
    assert_eq!(hex_decode("+f").unwrap(), vec![15]);
}

#[test]
fn hex_errors_name_the_place() {
    assert_eq!(hex_decode("abc"), Err(HexError::OddLength));
    assert_eq!(hex_decode("00zz"), Err(HexError::InvalidDigits(2)));
    assert_eq!(hex_decode("-100"), Err(HexError::InvalidDigits(0)));
    assert_eq!(hex_decode("é0"), Err(HexError::OddLength));
    assert_eq!(hex_decode("00é"), Err(HexError::InvalidDigits(2)));
}

#[test]
fn hex_round_trip() {
    let bytes: Vec<u8> = (0..=255).collect();
    assert_eq!(hex_decode(&hex_encode(&bytes)).unwrap(), bytes);
    let digits = hex_encode(&bytes).to_uppercase();
    assert_eq!(hex_decode(&format!("\t {}\u{3000}\n", digits)).unwrap(), bytes);
    for k in [0, 7, digits.len() - 1] {
        let fewer = format!(" {}{} ", &digits[..k], &digits[k + 1..]);
        assert_eq!(hex_decode(&fewer), Err(HexError::OddLength));
    }
}

#[test]
fn zlib_blocks_are_restored() {
    let block: Vec<u8> = b"subchunk ".iter().cloned().cycle().take(5000).collect();
    for level in 0..=10 {
        let c = ZlibCompressor::new(level);
        let packed = c.encode(block.clone());
        assert_ne!(packed, block);
        assert_eq!(ZlibCompressor::new(6).decode(packed).unwrap(), block);
    }
    assert!(ZlibCompressor::new(6).decode(vec![1, 2, 3]).is_err());
}

#[test]
fn raw_blocks_are_restored() {
    let block: Vec<u8> = (0..4096u32).map(|i| (i % 7) as u8).collect();
    let c = RawZlibCompressor::new(6);
    let packed = c.encode(block.clone());
    assert!(packed.len() < block.len());
    assert_eq!(c.decode(packed.clone()).unwrap(), block);
    assert_eq!(c.decode(c.encode(Vec::new())).unwrap(), Vec::<u8>::new());
    assert_eq!(
        c.decode(packed[..packed.len() - 3].to_vec()).unwrap_err(),
        "Truncated input stream"
    );
    // The zlib wrapper is what tells the two apart.
    assert!(ZlibCompressor::new(6).decode(packed).is_err());
}

#[test]
fn json_is_parsed() {
    let j = parse_json("{\"a\": [1, -2, null, true], \"b\": \"text\", \"c\": 1.5}").unwrap();
    let l = j.get_list("a").unwrap();
    assert_eq!(l.len(), 4);
    assert_eq!(l[0].integer(), Some(1));
    assert_eq!(l[1].integer(), Some(-2));
    assert!(matches!(l[2], Json::Null));
    assert!(matches!(l[3], Json::Bool(true)));
    assert_eq!(j.get_text("b").unwrap(), "text");
    assert!(matches!(j.get("c"), Some(Json::Double(bits)) if *bits == 1.5f64.to_bits()));
    assert_eq!(j.get_i64("c"), None);
    assert_eq!(j.get_u64("a"), None);
    assert!(j.get("d").is_none());
    assert!(l[0].get("a").is_none());
}

#[test]
fn large_integers_are_told_apart() {
    let j = parse_json("{\"big\": 18446744073709551615, \"small\": -9223372036854775808}").unwrap();
    assert_eq!(j.get_u64("big"), Some(u64::MAX));
    assert_eq!(j.get_i64("big"), None);
    assert_eq!(j.get_i64("small"), Some(i64::MIN));
    assert_eq!(j.get_u64("small"), None);
}

#[test]
fn json_errors_are_told() {
    let e = match parse_json("{") {
        Ok(_) => panic!("not JSON"),
        Err(e) => e,
    };
    assert_eq!(e, "EOF while parsing an object at line 1 column 1");
}

#[test]
fn json_is_rendered_and_read_back() {
    let doc = Json::Object(vec![
        ("list".to_string(), Json::List(vec![Json::Unsigned(1), Json::Negative(-2)])),
        ("text".to_string(), Json::Text("a\"b\nü".to_string())),
    ]);
    let text = render_json(doc).unwrap();
    assert_eq!(
        text,
        "{\n  \"list\": [\n    1,\n    -2\n  ],\n  \"text\": \"a\\\"b\\nü\"\n}"
    );
    let back = parse_json(&text).unwrap();
    assert_eq!(back.get_text("text").unwrap(), "a\"b\nü");
    assert_eq!(back.get_list("list").unwrap()[1].integer(), Some(-2));
}

fn is_text(j: &Json, s: &str) -> bool {
    matches!(j, Json::Text(t) if t == s)
}

#[test]
fn nbt_becomes_json() {
    assert!(matches!(tag_to_json(&Tag::End), Json::Null));
    assert!(matches!(tag_to_json(&Tag::Byte(-1)), Json::Negative(-1)));
    assert!(matches!(tag_to_json(&Tag::Short(7)), Json::Unsigned(7)));
    assert!(matches!(tag_to_json(&Tag::Long(i64::MIN)), Json::Negative(i64::MIN)));
    assert!(is_text(&tag_to_json(&Tag::Text("x".to_string())), "x"));
    match tag_to_json(&Tag::ByteArray(vec![1, -1])) {
        Json::List(l) => {
            assert!(matches!(l[0], Json::Unsigned(1)));
            assert!(matches!(l[1], Json::Negative(-1)));
        }
        _ => panic!("an array is a list"),
    }
    assert!(matches!(tag_to_json(&Tag::IntArray(vec![5])), Json::List(l) if l.len() == 1));
    assert!(matches!(tag_to_json(&Tag::LongArray(vec![5, 6])), Json::List(l) if l.len() == 2));
    let c = CompoundTag { entries: vec![("k".to_string(), Tag::List(vec![Tag::Int(3)]))] };
    let j = tag_to_json(&Tag::Compound(c));
    assert_eq!(j.get_list("k").unwrap()[0].integer(), Some(3));
    let entries = vec![("b".to_string(), Tag::Int(1)), ("a".to_string(), Tag::Int(2))];
    match tag_to_json(&Tag::Compound(CompoundTag { entries })) {
        Json::Object(o) => {
            assert_eq!(o[0].0, "a");
            assert_eq!(o[1].1.integer(), Some(1));
        }
        _ => panic!("a compound is an object"),
    }
}

#[test]
fn numbers_that_are_not_finite_are_named() {
    let single = |f: f32| tag_to_json(&Tag::Float(f.to_bits()));
    let double = |f: f64| tag_to_json(&Tag::Double(f.to_bits()));
    assert!(matches!(single(1.5), Json::Single(b) if b == 1.5f32.to_bits()));
    assert!(matches!(single(f32::MAX), Json::Single(_)));
    assert!(is_text(&single(f32::NAN), "NaN"));
    assert!(is_text(&single(-f32::NAN), "NaN"));
    assert!(is_text(&single(f32::INFINITY), "inf"));
    assert!(is_text(&single(f32::NEG_INFINITY), "-inf"));
    assert!(matches!(double(-0.0), Json::Double(b) if b == (-0.0f64).to_bits()));
    assert!(is_text(&double(f64::NAN), "NaN"));
    assert!(is_text(&double(f64::INFINITY), "inf"));
    assert!(is_text(&double(f64::NEG_INFINITY), "-inf"));
}
