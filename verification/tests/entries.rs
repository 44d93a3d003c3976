use std::collections::HashMap;

use patch_elf_symtab::entries::Entries;
use patch_elf_symtab::hex::{strip_optional_hex_prefix, HexBytes, HexError};

fn parse_hex_json(json: &str) -> Result<HexBytes, HexError> {
    let text: String = serde_json::from_str(json).unwrap();
    HexBytes::from_hex_str(&text)
}

fn entries_to_json(entries: &Entries) -> String {
    let mut m: HashMap<String, String> = HashMap::new();
    for i in 0..entries.len() {
        let (name, bytes) = entries.entry(i);
        m.insert(name.clone(), bytes.to_hex_string());
    }
    serde_json::to_string(&m).unwrap()
}

fn entries_from_json(json: &str) -> Entries {
    let m: HashMap<String, String> = serde_json::from_str(json).unwrap();
    let mut entries = Entries::new();
    for (name, hex) in m {
        entries.insert(name, HexBytes::from_hex_str(&hex).unwrap());
    }
    entries
}

#[test]
fn hex_bytes_roundtrip_json() {
    let original = HexBytes(vec![0xde, 0xad, 0xbe, 0xef]);
    let json = serde_json::to_string(&original.to_hex_string()).unwrap();
    assert_eq!(json, "\"deadbeef\"");
    let back: HexBytes = parse_hex_json(&json).unwrap();
    assert_eq!(original, back);
}

#[test]
fn entries_roundtrip_json() {
    let mut entries = Entries::new();
    entries.insert("sym_a".to_string(), HexBytes(vec![1, 2, 3]));

    let json = entries_to_json(&entries);
    assert!(json.contains("\"sym_a\":\"010203\""));

    let back: Entries = entries_from_json(&json);
    assert_eq!(entries, back);
}

#[test]
fn accepts_optional_0x_prefix() {
    let v: HexBytes = parse_hex_json("\"0x00ff\"").unwrap();
    assert_eq!(v.0, vec![0x00, 0xff]);
}

#[test]
fn accepts_optional_0x_uppercase_prefix() {
    let v: HexBytes = parse_hex_json("\"0X00ff\"").unwrap();
    assert_eq!(v.0, vec![0x00, 0xff]);
}

#[test]
fn accepts_uppercase_hex() {
    let v: HexBytes = parse_hex_json("\"DEADBEEF\"").unwrap();
    assert_eq!(v.0, vec![0xde, 0xad, 0xbe, 0xef]);
}

#[test]
fn accepts_mixed_case_hex() {
    let v: HexBytes = parse_hex_json("\"DeAdBeEf\"").unwrap();
    assert_eq!(v.0, vec![0xde, 0xad, 0xbe, 0xef]);
}

#[test]
fn hex_string_is_lowercase_two_digits_per_byte() {
    assert_eq!(HexBytes(vec![0x00, 0x0a, 0xf0, 0xff]).to_hex_string(), "000af0ff");
    assert_eq!(HexBytes(vec![]).to_hex_string(), "");
}

#[test]
fn hex_roundtrip_of_every_byte() {
    let all: Vec<u8> = (0..=255u8).collect();
    let text = HexBytes(all.clone()).to_hex_string();
    assert_eq!(HexBytes::from_hex_str(&text).unwrap().0, all);
}

#[test]
fn strip_prefix_only_at_start() {
    assert_eq!(strip_optional_hex_prefix("0x10"), "10");
    assert_eq!(strip_optional_hex_prefix("0X10"), "10");
    assert_eq!(strip_optional_hex_prefix("10xf"), "10xf");
    assert_eq!(strip_optional_hex_prefix("  \t0xab"), "ab");
    assert_eq!(strip_optional_hex_prefix("0x"), "");
    assert_eq!(strip_optional_hex_prefix("0"), "0");
    assert_eq!(strip_optional_hex_prefix(""), "");
    assert_eq!(strip_optional_hex_prefix("x0ab"), "x0ab");
}

#[test]
fn strip_prefix_keeps_trailing_space() {
    assert_eq!(strip_optional_hex_prefix(" 0xab "), "ab ");
    assert_eq!(strip_optional_hex_prefix("\n\r\x0cab"), "ab");
}

#[test]
fn strip_prefix_keeps_non_ascii_space() {
    assert_eq!(strip_optional_hex_prefix("\u{a0}0xab"), "\u{a0}0xab");
}

#[test]
fn decode_rejects_odd_length() {
    assert_eq!(HexBytes::from_hex_str("abc"), Err(HexError::OddLength));
    assert_eq!(HexBytes::from_hex_str("0xabc"), Err(HexError::OddLength));
}

#[test]
fn decode_reports_first_bad_character() {
    assert_eq!(
        HexBytes::from_hex_str("0g1z"),
        Err(HexError::InvalidHexCharacter { c: 'g', index: 1 })
    );
    assert_eq!(
        HexBytes::from_hex_str("0x12 4"),
        Err(HexError::InvalidHexCharacter { c: ' ', index: 2 })
    );
}

#[test]
fn decode_after_leading_space() {
    assert_eq!(HexBytes::from_hex_str(" \t0a0b").unwrap().0, vec![0x0a, 0x0b]);
    assert_eq!(HexBytes::from_hex_str("").unwrap().0, Vec::<u8>::new());
}

#[test]
fn entries_insert_get_and_order() {
    let mut e = Entries::new();
    assert_eq!(e.insert("b".to_string(), HexBytes(vec![2])), None);
    assert_eq!(e.insert("a".to_string(), HexBytes(vec![1])), None);
    assert_eq!(e.insert("c".to_string(), HexBytes(vec![3])), None);
    assert_eq!(e.len(), 3);
    assert_eq!(e.get("a"), Some(&HexBytes(vec![1])));
    assert_eq!(e.get("z"), None);
    assert_eq!(e.entry(0).0, "a");
    assert_eq!(e.entry(1).0, "b");
    assert_eq!(e.entry(2).0, "c");
    assert_eq!(e.insert("b".to_string(), HexBytes(vec![9])), Some(HexBytes(vec![2])));
    assert_eq!(e.len(), 3);
    assert_eq!(e.get("b"), Some(&HexBytes(vec![9])));
}

#[test]
fn entries_equal_whatever_the_insertion_order() {
    let mut a = Entries::new();
    a.insert("x".to_string(), HexBytes(vec![1]));
    a.insert("y".to_string(), HexBytes(vec![2]));
    let mut b = Entries::default();
    b.insert("y".to_string(), HexBytes(vec![2]));
    b.insert("x".to_string(), HexBytes(vec![1]));
    assert_eq!(a, b);
    assert_eq!(a.clone(), b);
}
