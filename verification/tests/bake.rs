use kv_store::bake::{bake, bake_with_order, check_bakeable, parse_input, parse_u64, trim_bounds, BakeError};
use kv_store::codec::ByteOrder;
use kv_store::storage::Storage;

fn trimmed(s: &str) -> &[u8] {
    let (a, b) = trim_bounds(s.as_bytes());
    &s.as_bytes()[a..b]
}

#[test]
fn trim_matches_str_trim() {
    let samples = [
        "", " ", "  a  ", "\t\r\n x y \x0b\x0c", "\u{00A0}12\u{3000}", "\u{2000}\u{200A}k\u{2028}",
        "\u{1680}\u{205F}\u{202F}\u{2029}\u{0085}", "é ", " ü", "a\u{200B}",
    ];
    for s in samples {
        assert_eq!(trimmed(s), s.trim().as_bytes(), "{:?}", s);
    }
}

#[test]
fn parse_u64_matches_str_parse() {
    let samples = [
        "0", "42", "+42", "-1", "+", "", "18446744073709551615", "18446744073709551616",
        "99999999999999999999", "1a", " 1", "007", "+-1",
    ];
    for s in samples {
        assert_eq!(parse_u64(s.as_bytes()), s.parse::<u64>().ok(), "{:?}", s);
    }
}

#[test]
fn parse_input_reads_entries_and_reports_lines() {
    let content = "1,hello\n\n2, world \r\n   \nno comma here\n+3,a,b,c\n 4 \u{00A0}, x\n";
    let parsed = parse_input(content.as_bytes());
    assert!(parsed.invalid_key.is_none());
    let entries: Vec<(u64, Vec<u8>)> = parsed.entries;
    assert_eq!(
        entries,
        vec![
            (1, b"hello".to_vec()),
            (2, b"world".to_vec()),
            (3, b"a,b,c".to_vec()),
            (4, b"x".to_vec()),
        ]
    );
    assert_eq!(parsed.skipped.len(), 1);
    assert_eq!(parsed.skipped[0].line, 5);
    assert_eq!(parsed.skipped[0].text, b"no comma here".to_vec());
}

#[test]
fn parse_input_stops_at_invalid_key() {
    let content = "1,a\nbad\nx2,b\n3,c\n";
    let parsed = parse_input(content.as_bytes());
    let err = parsed.invalid_key.expect("invalid key");
    assert_eq!(err.line, 3);
    assert_eq!(err.key_text, b"x2".to_vec());
    assert_eq!(parsed.entries, vec![(1, b"a".to_vec())]);
    assert_eq!(parsed.skipped.len(), 1);
    assert_eq!(parsed.skipped[0].line, 2);
}

#[test]
fn parse_input_rejects_overflowing_key() {
    let parsed = parse_input(b"18446744073709551616,v");
    assert_eq!(parsed.invalid_key.unwrap().line, 1);
    let parsed = parse_input(b"18446744073709551615,v");
    assert_eq!(parsed.entries, vec![(u64::MAX, b"v".to_vec())]);
}

#[test]
fn parse_input_handles_last_line_without_newline_and_empty_input() {
    let parsed = parse_input(b"5,last\r");
    assert_eq!(parsed.entries, vec![(5, b"last".to_vec())]);
    let parsed = parse_input(b"");
    assert!(parsed.entries.is_empty() && parsed.skipped.is_empty() && parsed.invalid_key.is_none());
    let parsed = parse_input(b"\n\n \n");
    assert!(parsed.entries.is_empty());
}

#[test]
fn bake_without_entries_fails() {
    assert_eq!(bake(Vec::new()).unwrap_err(), BakeError::NoEntries);
    assert_eq!(bake_with_order(Vec::new(), ByteOrder::Big).unwrap_err(), BakeError::NoEntries);
}

#[test]
fn baked_file_has_the_documented_layout() {
    let entries = vec![(7u64, b"abc".to_vec()), (2u64, b"12345678".to_vec())];
    let image = bake_with_order(entries, ByteOrder::Little).unwrap();
    // header(32) + 2 entries(48) + "12345678"(8) + "abc"(3) + padding(5)
    assert_eq!(image.len(), 32 + 48 + 8 + 8);
    assert_eq!(&image[0..8], &0xA016u64.to_le_bytes());
    assert_eq!(&image[8..16], &1u64.to_le_bytes());
    assert_eq!(&image[16..24], &2u64.to_le_bytes());
    let mut zeroed = image[0..32].to_vec();
    zeroed[24..28].copy_from_slice(&[0, 0, 0, 0]);
    assert_eq!(&image[24..28], &crc32fast::hash(&zeroed).to_le_bytes());
    // first index entry: key 2 at offset 80
    assert_eq!(&image[32..40], &2u64.to_le_bytes());
    assert_eq!(&image[40..48], &80u64.to_le_bytes());
    assert_eq!(&image[48..52], &8u32.to_le_bytes());
    assert_eq!(&image[52..56], &crc32fast::hash(b"12345678").to_le_bytes());
    // second: key 7 at offset 88
    assert_eq!(&image[56..64], &7u64.to_le_bytes());
    assert_eq!(&image[64..72], &88u64.to_le_bytes());
    assert_eq!(&image[80..88], b"12345678");
    assert_eq!(&image[88..91], b"abc");
    assert_eq!(&image[91..96], &[0, 0, 0, 0, 0]);
}

#[test]
fn baked_file_reads_back_every_value() {
    let mut entries = Vec::new();
    for k in (1..=200u64).rev() {
        entries.push((k * 7, format!("value_content_at_key_{}", k).into_bytes()));
    }
    entries.push((5000, Vec::new()));
    assert!(check_bakeable(&entries));
    let image = bake(entries.clone()).unwrap();
    let storage = Storage::new(&image).unwrap();
    for (k, v) in &entries {
        assert_eq!(storage.get(*k).unwrap().unwrap(), &v[..]);
    }
    assert!(matches!(storage.get(3), Ok(None)));
    assert!(matches!(storage.get(5001), Ok(None)));
}

#[test]
fn duplicate_keys_return_one_of_their_values() {
    let entries = vec![(1u64, b"first".to_vec()), (1u64, b"second".to_vec()), (0u64, b"z".to_vec())];
    let image = bake(entries).unwrap();
    let storage = Storage::new(&image).unwrap();
    let v = storage.get(1).unwrap().unwrap().to_vec();
    assert!(v == b"first".to_vec() || v == b"second".to_vec());
    assert_eq!(storage.get(0).unwrap().unwrap(), b"z");
}

#[test]
fn duplicate_keys_keep_input_order() {
    let entries = vec![(1u64, b"first".to_vec()), (1u64, b"second".to_vec())];
    let image = bake_with_order(entries, ByteOrder::Big).unwrap();
    // index entry 0 points at "first", entry 1 at "second"
    let off0 = u64::from_be_bytes(image[40..48].try_into().unwrap()) as usize;
    let off1 = u64::from_be_bytes(image[64..72].try_into().unwrap()) as usize;
    assert_eq!(&image[off0..off0 + 5], b"first");
    assert_eq!(&image[off1..off1 + 6], b"second");
}

#[test]
fn parse_then_bake_then_lookup() {
    let content = "1,hello\n2,world\n100,First value content\n";
    let parsed = parse_input(content.as_bytes());
    let image = bake(parsed.entries).unwrap();
    let storage = Storage::new(&image).unwrap();
    assert_eq!(storage.get(100).unwrap().unwrap(), b"First value content");
    assert_eq!(storage.get(1).unwrap().unwrap(), b"hello");
    assert!(matches!(storage.get(3), Ok(None)));
}
