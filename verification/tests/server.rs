use kv_store::server::response_parts;
use kv_store::bake::bake;
use kv_store::server::{advance_write, process_batch, respond};
use kv_store::storage::Storage;
use kv_store::{Request, ResponseHeader};

fn image() -> Vec<u8> {
    let entries = vec![(100u64, b"a nonempty value".to_vec()), (7u64, Vec::new())];
    bake(entries).unwrap()
}

fn frame(op: u32, key: u64) -> [u8; 16] {
    Request { op, _padding: 0, key }.to_bytes()
}

#[test]
fn test_successful_lookup() {
    let image = image();
    let engine = Storage::new(&image).unwrap();
    let req = frame(0, 100);
    let batch = process_batch(&engine, &req);
    assert_eq!(batch.responses.len(), 1);
    let header_buf = batch.responses[0].header.to_bytes();
    let response_header =
        ResponseHeader::from_bytes(&header_buf).expect("server sent an invalid or malformed header frame");
    assert_eq!(response_header.status, 0, "server returned an error status code");
    let value_len = response_header.length as usize;
    assert!(value_len > 0, "database returned an empty or missing value payload");
    assert_eq!(batch.responses[0].data.unwrap().len(), value_len);
}

#[test]
fn test_lookup_miss() {
    let image = image();
    let engine = Storage::new(&image).unwrap();
    let req = frame(0, 999999999999);
    let batch = process_batch(&engine, &req);
    let header_buf = batch.responses[0].header.to_bytes();
    let response_header = ResponseHeader::from_bytes(&header_buf).expect("failed to decode response header");
    assert_eq!(response_header.status, 1, "engine failed to declare a key miss");
    assert_eq!(response_header.length, 0, "engine sent data bytes on a miss");
}

#[test]
fn exists_and_unknown_have_no_payload() {
    let image = image();
    let engine = Storage::new(&image).unwrap();
    let r = respond(&engine, &frame(1, 100));
    assert_eq!((r.header.status, r.header.length), (0, 0));
    assert!(r.data.is_none());
    let r = respond(&engine, &frame(1, 5));
    assert_eq!((r.header.status, r.header.length), (1, 0));
    let r = respond(&engine, &frame(2, 100));
    assert_eq!((r.header.status, r.header.length), (2, 0));
    assert!(r.data.is_none());
    let r = respond(&engine, &frame(0, 7));
    assert_eq!((r.header.status, r.header.length), (0, 0));
    assert_eq!(r.data.unwrap().len(), 0);
}

#[test]
fn corrupted_value_gives_error_status() {
    let mut image = bake(vec![(1u64, b"abc".to_vec())]).unwrap();
    let n = image.len();
    image[n - 8] = b'x';
    let engine = Storage::new(&image).unwrap();
    let r = respond(&engine, &frame(0, 1));
    assert_eq!((r.header.status, r.header.length), (2, 0));
    assert!(matches!(r.failure, Some((1, kv_store::EngineError::ChecksumMismatch))));
    let r = respond(&engine, &frame(1, 1));
    assert!(matches!(r.failure, Some((1, kv_store::EngineError::ChecksumMismatch))));
    let r = respond(&engine, &frame(5, 1));
    assert!(r.failure.is_none());
}

#[test]
fn batches_take_whole_frames_up_to_the_limit() {
    let image = image();
    let engine = Storage::new(&image).unwrap();
    let mut buf = Vec::new();
    for _ in 0..300 {
        buf.extend_from_slice(&frame(0, 100));
    }
    let batch = process_batch(&engine, &buf);
    assert_eq!(batch.responses.len(), 256);
    assert_eq!(batch.consumed, 256 * 16);

    let batch = process_batch(&engine, &buf[..16 * 3 + 5]);
    assert_eq!(batch.responses.len(), 3);
    assert_eq!(batch.consumed, 48);

    let batch = process_batch(&engine, &buf[..15]);
    assert_eq!(batch.responses.len(), 0);
    assert_eq!(batch.consumed, 0);
}

#[test]
fn advance_write_handles_partial_writes() {
    let a: &[u8] = &[1, 2, 3];
    let b: &[u8] = &[];
    let c: &[u8] = &[4, 5, 6, 7];
    let parts = [a, b, c];
    assert_eq!(advance_write(&parts, 0, 0, 2), (0, 2));
    assert_eq!(advance_write(&parts, 0, 2, 1), (1, 0));
    assert_eq!(advance_write(&parts, 0, 0, 4), (2, 1));
    assert_eq!(advance_write(&parts, 2, 1, 3), (3, 0));
    assert_eq!(advance_write(&parts, 0, 0, 0), (0, 0));
    assert_eq!(advance_write(&parts, 0, 0, 100), (3, 0));
}

#[test]
fn resuming_after_partial_writes_sends_the_whole_stream() {
    let a: &[u8] = b"header01";
    let b: &[u8] = b"payload";
    let c: &[u8] = b"header02";
    let parts = [a, b, c];
    let expected: Vec<u8> = parts.concat();
    let mut sent = Vec::new();
    let (mut idx, mut off) = (0usize, 0usize);
    let chunk = 5;
    while idx < parts.len() {
        // a writer that accepts at most `chunk` bytes per call
        let mut remaining_bytes: Vec<u8> = parts[idx][off..].to_vec();
        for p in &parts[idx + 1..] {
            remaining_bytes.extend_from_slice(p);
        }
        let n = remaining_bytes.len().min(chunk);
        sent.extend_from_slice(&remaining_bytes[..n]);
        let next = advance_write(&parts, idx, off, n);
        idx = next.0;
        off = next.1;
    }
    assert_eq!(sent, expected);
}

#[test]
fn response_parts_lay_out_headers_then_payloads() {
    let image = image();
    let engine = Storage::new(&image).unwrap();
    let mut buf = Vec::new();
    buf.extend_from_slice(&frame(0, 100));
    buf.extend_from_slice(&frame(0, 5));
    buf.extend_from_slice(&frame(1, 100));
    let batch = process_batch(&engine, &buf);
    let headers: Vec<[u8; 8]> = batch.responses.iter().map(|r| r.header.to_bytes()).collect();
    let parts = response_parts(&headers, &batch.responses);
    assert_eq!(parts.len(), 4);
    assert_eq!(parts[0], &headers[0][..]);
    assert_eq!(parts[1], b"a nonempty value");
    assert_eq!(parts[2], &headers[1][..]);
    assert_eq!(parts[3], &headers[2][..]);
}
