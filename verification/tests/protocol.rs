use kv_store::codec::order_of_one;
use kv_store::codec::ByteOrder;
use kv_store::IndexEntry;
use kv_store::{Header, OpCode, Request, ResponseHeader, ResponseStatus};

#[test]
fn test_protocol_roundtrip() {
    let request = Request {
        op: OpCode::Get.code(),
        _padding: 0,
        key: 0xDEADBEEFCAFEBABE,
    };

    let bytes = request.to_bytes();

    let decoded_req = Request::from_bytes(&bytes).expect("Failed to decode");

    assert_eq!(request.op, decoded_req.op);
    assert_eq!(request.key, decoded_req.key);
}

#[test]
fn request_bytes_are_big_endian_with_native_padding() {
    let req = Request { op: 1, _padding: 0x01020304, key: 0x0102030405060708 };
    let bytes = req.to_bytes();
    assert_eq!(&bytes[0..4], &[0, 0, 0, 1]);
    assert_eq!(&bytes[4..8], &0x01020304u32.to_ne_bytes());
    assert_eq!(&bytes[8..16], &[1, 2, 3, 4, 5, 6, 7, 8]);
    let back = Request::from_bytes(&bytes).unwrap();
    assert_eq!(back._padding, 0x01020304);
}

#[test]
fn request_from_bytes_needs_exactly_sixteen_bytes() {
    assert!(Request::from_bytes(&[0u8; 15]).is_none());
    assert!(Request::from_bytes(&[0u8; 17]).is_none());
    assert!(Request::from_bytes(&[]).is_none());
    let req = Request::from_bytes(&[0, 0, 0, 0, 9, 9, 9, 9, 0, 0, 0, 0, 0, 0, 0, 100]).unwrap();
    assert_eq!(req.op, 0);
    assert_eq!(req.key, 100);
}

#[test]
fn opcode_maps_wire_values() {
    let op = |v: u32| Request { op: v, _padding: 0, key: 0 }.opcode();
    assert_eq!(op(0), OpCode::Get);
    assert_eq!(op(1), OpCode::Exists);
    assert_eq!(op(2), OpCode::Unknown);
    assert_eq!(op(99), OpCode::Unknown);
    assert_eq!(op(u32::MAX), OpCode::Unknown);
    assert_eq!(OpCode::Get.code(), 0);
    assert_eq!(OpCode::Exists.code(), 1);
    assert_eq!(OpCode::Unknown.code(), 99);
}

#[test]
fn response_status_codes() {
    assert_eq!(ResponseStatus::Success.code(), 0);
    assert_eq!(ResponseStatus::NotFound.code(), 1);
    assert_eq!(ResponseStatus::Error.code(), 2);
}

#[test]
fn response_header_roundtrip_and_layout() {
    let h = ResponseHeader { status: 1, length: 0x0A0B0C0D };
    let bytes = h.to_bytes();
    assert_eq!(bytes, [0, 0, 0, 1, 0x0A, 0x0B, 0x0C, 0x0D]);
    let back = ResponseHeader::from_bytes(&bytes).unwrap();
    assert_eq!(back.status, 1);
    assert_eq!(back.length, 0x0A0B0C0D);
    assert!(ResponseHeader::from_bytes(&bytes[..7]).is_none());
    assert!(ResponseHeader::from_bytes(&[0u8; 9]).is_none());
}

#[test]
fn header_is_valid_checks_magic_and_version() {
    let mut h = Header { magic: 0xA016, version: 1, count: 3, header_checksum: 7, _padding: 0 };
    assert!(h.is_valid());
    h.version = 2;
    assert!(!h.is_valid());
    h.version = 1;
    h.magic = 0xA017;
    assert!(!h.is_valid());
}

#[test]
fn header_bytes_roundtrip_in_both_orders() {
    let h = Header { magic: 0xA016, version: 1, count: 5, header_checksum: 0xDEADBEEF, _padding: 3 };
    for order in [ByteOrder::Little, ByteOrder::Big] {
        let bytes = h.to_bytes(order);
        assert_eq!(bytes.len(), 32);
        let back = Header::read_from(&bytes, order).unwrap();
        assert_eq!(back.magic, h.magic);
        assert_eq!(back.version, h.version);
        assert_eq!(back.count, h.count);
        assert_eq!(back.header_checksum, h.header_checksum);
        assert_eq!(back._padding, h._padding);
    }
    let le = h.to_bytes(ByteOrder::Little);
    assert_eq!(&le[0..8], &0xA016u64.to_le_bytes());
    let be = h.to_bytes(ByteOrder::Big);
    assert_eq!(&be[0..8], &0xA016u64.to_be_bytes());
    assert!(Header::read_from(&le[..31], ByteOrder::Little).is_none());
}

#[test]
fn header_checksum_is_crc32_of_zeroed_header() {
    let h = Header { magic: 0xA016, version: 1, count: 1, header_checksum: 1234, _padding: 0 };
    let zeroed = Header { header_checksum: 0, ..h };
    let expected = crc32fast::hash(&zeroed.to_bytes(ByteOrder::Little));
    assert_eq!(h.expected_checksum(ByteOrder::Little), expected);
    assert_ne!(h.expected_checksum(ByteOrder::Little), 1234);
}

#[test]
fn index_entry_bytes_roundtrip() {
    let e = IndexEntry { key: 42, val_offset: 56, val_len: 5, val_checksum: 99 };
    for order in [ByteOrder::Little, ByteOrder::Big] {
        let bytes = e.to_bytes(order);
        assert_eq!(bytes.len(), 24);
        let back = IndexEntry::read_from(&bytes, order).unwrap();
        assert_eq!((back.key, back.val_offset, back.val_len, back.val_checksum), (42, 56, 5, 99));
    }
    assert!(IndexEntry::read_from(&[0u8; 23], ByteOrder::Big).is_none());
}

#[test]
fn request_roundtrip_with_explicit_order_keeps_padding() {
    let req = Request { op: 7, _padding: 0x0A0B0C0D, key: 99 };
    for order in [ByteOrder::Little, ByteOrder::Big] {
        let bytes = req.to_bytes_in(order);
        let back = Request::from_bytes_in(&bytes, order).unwrap();
        assert_eq!((back.op, back._padding, back.key), (7, 0x0A0B0C0D, 99));
        assert_eq!(back.to_bytes_in(order), bytes);
    }
    assert_eq!(&req.to_bytes_in(ByteOrder::Little)[4..8], &[0x0D, 0x0C, 0x0B, 0x0A]);
    assert_eq!(&req.to_bytes_in(ByteOrder::Big)[4..8], &[0x0A, 0x0B, 0x0C, 0x0D]);
    assert!(Request::from_bytes_in(&[0u8; 8], ByteOrder::Big).is_none());
}

#[test]
fn host_request_bytes_roundtrip() {
    let frame: [u8; 16] = [0, 0, 0, 1, 1, 2, 3, 4, 0, 0, 0, 0, 0, 0, 1, 0];
    let req = Request::from_bytes(&frame).unwrap();
    assert_eq!(req.to_bytes(), frame);
    assert_eq!(req._padding, u32::from_ne_bytes([1, 2, 3, 4]));
}

#[test]
fn order_of_one_reads_the_layout_of_one() {
    assert_eq!(order_of_one(1u64.to_le_bytes()), ByteOrder::Little);
    assert_eq!(order_of_one(1u64.to_be_bytes()), ByteOrder::Big);
    let host = order_of_one(1u64.to_ne_bytes());
    let frame = Request { op: 0, _padding: 5, key: 1 }.to_bytes();
    assert_eq!(frame, Request { op: 0, _padding: 5, key: 1 }.to_bytes_in(host));
}
