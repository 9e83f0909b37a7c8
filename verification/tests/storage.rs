use kv_store::storage::check_header;
use kv_store::Header;
use kv_store::codec::ByteOrder;
use kv_store::storage::Storage;
use kv_store::EngineError;

fn header_bytes(magic: u64, version: u64, count: u64, checksum: u32) -> Vec<u8> {
    let mut b = Vec::new();
    b.extend_from_slice(&magic.to_ne_bytes());
    b.extend_from_slice(&version.to_ne_bytes());
    b.extend_from_slice(&count.to_ne_bytes());
    b.extend_from_slice(&checksum.to_ne_bytes());
    b.extend_from_slice(&0u32.to_ne_bytes());
    b
}

fn valid_header(count: u64) -> Vec<u8> {
    let zeroed = header_bytes(0xA016, 1, count, 0);
    header_bytes(0xA016, 1, count, crc32fast::hash(&zeroed))
}

fn entry_bytes(key: u64, offset: u64, len: u32, checksum: u32) -> Vec<u8> {
    let mut b = Vec::new();
    b.extend_from_slice(&key.to_ne_bytes());
    b.extend_from_slice(&offset.to_ne_bytes());
    b.extend_from_slice(&len.to_ne_bytes());
    b.extend_from_slice(&checksum.to_ne_bytes());
    b
}

fn one_entry_file() -> Vec<u8> {
    let mut file_content = valid_header(1);
    file_content.extend_from_slice(&entry_bytes(42, 56, 5, crc32fast::hash(b"hello")));
    file_content.extend_from_slice(b"hello");
    file_content
}

#[test]
fn test_basic_retrieval() {
    let file_content = one_entry_file();
    let storage = Storage::new(&file_content).expect("storage opens");
    let result = storage.get(42).expect("lookup succeeds");

    assert!(result.is_some());
    assert_eq!(result.unwrap(), b"hello");
}

#[test]
fn missing_key_is_not_found() {
    let file = one_entry_file();
    let storage = Storage::new(&file).unwrap();
    assert!(matches!(storage.get(41), Ok(None)));
    assert!(matches!(storage.get(43), Ok(None)));
    assert!(matches!(storage.get(0), Ok(None)));
    assert!(matches!(storage.get(u64::MAX), Ok(None)));
}

#[test]
fn accessors_expose_header_and_bytes() {
    let file = one_entry_file();
    let storage = Storage::new(&file).unwrap();
    assert_eq!(storage.header().count, 1);
    assert_eq!(storage.header().magic, 0xA016);
    assert_eq!(storage.object(), &file[..]);
}

#[test]
fn short_file_is_invalid_header() {
    assert!(matches!(Storage::new(&[0u8; 31]), Err(EngineError::InvalidHeader)));
    assert!(matches!(Storage::new(&[]), Err(EngineError::InvalidHeader)));
}

#[test]
fn wrong_magic_is_reported() {
    let bytes = header_bytes(0xA017, 1, 0, 0);
    assert!(matches!(Storage::new(&bytes), Err(EngineError::MagicMismatch)));
}

#[test]
fn wrong_version_is_reported_with_the_version() {
    let bytes = header_bytes(0xA016, 7, 0, 0);
    assert!(matches!(Storage::new(&bytes), Err(EngineError::VersionMismatch(7))));
}

#[test]
fn bad_header_checksum_is_invalid_header() {
    let mut bytes = valid_header(0);
    bytes[24] ^= 0xFF;
    assert!(matches!(Storage::new(&bytes), Err(EngineError::InvalidHeader)));
}

#[test]
fn index_beyond_file_is_size_mismatch() {
    // Two entries announced, one present.
    let mut file = valid_header(2);
    file.extend_from_slice(&entry_bytes(1, 0, 0, 0));
    assert!(matches!(Storage::new(&file), Err(EngineError::IndexSizeMismatch)));
    // A count whose index size overflows.
    assert!(matches!(Storage::new(&valid_header(u64::MAX)), Err(EngineError::IndexSizeMismatch)));
}

#[test]
fn empty_index_opens_and_finds_nothing() {
    let file = valid_header(0);
    let storage = Storage::new(&file).unwrap();
    assert!(matches!(storage.get(1), Ok(None)));
}

#[test]
fn corrupted_value_is_checksum_mismatch() {
    let mut file = one_entry_file();
    let last = file.len() - 1;
    file[last] = b'X';
    let storage = Storage::new(&file).unwrap();
    assert!(matches!(storage.get(42), Err(EngineError::ChecksumMismatch)));
}

#[test]
fn value_beyond_file_is_size_mismatch() {
    let mut file = valid_header(1);
    file.extend_from_slice(&entry_bytes(42, 56, 6, crc32fast::hash(b"hello")));
    file.extend_from_slice(b"hello");
    let storage = Storage::new(&file).unwrap();
    assert!(matches!(storage.get(42), Err(EngineError::IndexSizeMismatch)));

    let mut file = valid_header(1);
    file.extend_from_slice(&entry_bytes(42, u64::MAX, 1, 0));
    let storage = Storage::new(&file).unwrap();
    assert!(matches!(storage.get(42), Err(EngineError::IndexSizeMismatch)));
}

#[test]
fn binary_search_finds_every_key() {
    let keys: Vec<u64> = (0..50).map(|k| k * 3 + 1).collect();
    let n = keys.len() as u64;
    let mut file = valid_header(n);
    let data_start = 32 + 24 * n;
    let mut values = Vec::new();
    let mut offset = data_start;
    for k in &keys {
        let v = format!("v{}", k).into_bytes();
        file.extend_from_slice(&entry_bytes(*k, offset, v.len() as u32, crc32fast::hash(&v)));
        offset += v.len() as u64;
        values.push(v);
    }
    for v in &values {
        file.extend_from_slice(v);
    }
    let storage = Storage::new(&file).unwrap();
    for (k, v) in keys.iter().zip(values.iter()) {
        assert_eq!(storage.get(*k).unwrap().unwrap(), &v[..]);
        assert!(matches!(storage.get(*k + 1), Ok(None)));
    }
}

#[test]
fn check_header_reports_in_order() {
    let h = Header { magic: 0xA016, version: 1, count: 2, header_checksum: 5, _padding: 0 };
    assert!(check_header(&h, 5, 32 + 48).is_ok());
    assert!(matches!(check_header(&h, 5, 32 + 47), Err(EngineError::IndexSizeMismatch)));
    assert!(matches!(check_header(&h, 6, 1000), Err(EngineError::InvalidHeader)));
    let bad_version = Header { version: 3, ..h };
    assert!(matches!(check_header(&bad_version, 6, 0), Err(EngineError::VersionMismatch(3))));
    let bad_magic = Header { magic: 1, version: 3, ..h };
    assert!(matches!(check_header(&bad_magic, 6, 0), Err(EngineError::MagicMismatch)));
}

#[test]
fn opening_in_the_other_byte_order_fails() {
    let file = one_entry_file();
    let native = if 1u16.to_ne_bytes()[0] == 1 { ByteOrder::Little } else { ByteOrder::Big };
    let other = if native == ByteOrder::Little { ByteOrder::Big } else { ByteOrder::Little };
    assert!(Storage::new_with_order(&file, native).is_ok());
    assert!(matches!(Storage::new_with_order(&file, other), Err(EngineError::MagicMismatch)));
}

#[test]
fn repeated_lookups_agree() {
    let file = one_entry_file();
    let storage = Storage::new(&file).unwrap();
    for key in [41u64, 42, 43] {
        let a = storage.get(key).unwrap();
        let b = storage.get(key).unwrap();
        assert_eq!(a, b);
    }
}
