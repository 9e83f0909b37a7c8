//! A read-optimized key-value store over an immutable, baked storage file.
//!
//! The crate root holds the protocol types and the binary layout of the
//! storage file; `storage` looks keys up in a mapped file, `bake` compiles
//! `key,value` text into such a file, `server` turns request frames into
//! response frames, and `bench` holds the load generator's key sequence.
pub mod bake;
pub mod bench;
pub mod checksum;
pub mod codec;
pub mod server;
pub mod storage;

use crate::checksum::{crc32, crc32_hash};
use crate::codec::{
    decode_u32, decode_u64, encode_u32, encode_u64, native_byte_order, push_u32, push_u64,
    read_u32, read_u64, u32_at, u64_at, ByteOrder,
};
use vstd::prelude::*;

verus! {

pub const DEFAULT_STORAGE_PATH: &'static str = "storage.db";

pub const DEFAULT_SOCKET_PATH: &'static str = "/tmp/zero-kv.sock";

/// Size in bytes of the storage header.
pub const HEADER_SIZE: usize = 32;

/// Size in bytes of one index entry.
pub const INDEX_ENTRY_SIZE: usize = 24;

/// The magic number at the start of every storage file.
pub const STORAGE_MAGIC: u64 = 0xA016;

/// The only storage format version this engine reads.
pub const STORAGE_VERSION: u64 = 1;

/// `ResponseStatus` defines the machine-readable outcome of a request.
#[derive(Debug, PartialEq, Eq, Structural, Clone, Copy)]
pub enum ResponseStatus {
    Success,
    NotFound,
    Error,
}

impl ResponseStatus {
    /// The status's numeric value on the wire.
    pub open spec fn spec_code(self) -> u32 {
        match self {
            ResponseStatus::Success => 0,
            ResponseStatus::NotFound => 1,
            ResponseStatus::Error => 2,
        }
    }

    /// The status's numeric value on the wire: 0 for `Ok`, 1 for `NotFound`, 2 for `Error`.
    pub fn code(&self) -> (r: u32)
        ensures
            r == self.spec_code(),
    {
        match self {
            ResponseStatus::Success => 0,
            ResponseStatus::NotFound => 1,
            ResponseStatus::Error => 2,
        }
    }
}

#[verifier::external_type_specification]
#[verifier::external_body]
pub struct ExIoError(std::io::Error);

/// Errors reported by the storage engine.
#[derive(Debug)]
pub enum EngineError {
    ChecksumMismatch,
    Io(std::io::Error),
    FileCollision(String),
    MagicMismatch,
    VersionMismatch(u64),
    IndexSizeMismatch,
    InvalidHeader,
    KeyNotFound(u64),
    MmapFailed(String),
}

/// A 32-byte storage header at file offset zero, using native-endian integers.
#[derive(Debug, Copy, Clone)]
pub struct Header {
    pub magic: u64,
    pub version: u64,
    pub count: u64,
    pub header_checksum: u32,
    /// Explicit padding keeps the header at 32 bytes.
    pub _padding: u32,
}

/// A 24-byte native-endian index entry, stored in key order.
/// Lookups use binary search and verify CRC32 over the full value payload.
#[derive(Debug, Copy, Clone)]
pub struct IndexEntry {
    pub key: u64,
    pub val_offset: u64,
    pub val_len: u32,
    /// Checksum of the value payload.
    pub val_checksum: u32,
}

/// The 32 bytes of `h` in byte order `o`.
pub open spec fn header_bytes(h: Header, o: ByteOrder) -> Seq<u8> {
    encode_u64(h.magic, o) + encode_u64(h.version, o) + encode_u64(h.count, o) + encode_u32(
        h.header_checksum,
        o,
    ) + encode_u32(h._padding, o)
}

/// The header stored in the first 32 bytes of `b`.
pub open spec fn header_at(b: Seq<u8>, o: ByteOrder) -> Header {
    Header {
        magic: u64_at(b, 0, o),
        version: u64_at(b, 8, o),
        count: u64_at(b, 16, o),
        header_checksum: u32_at(b, 24, o),
        _padding: u32_at(b, 28, o),
    }
}

/// `h` with its checksum field set to zero.
pub open spec fn zero_checksum(h: Header) -> Header {
    Header { header_checksum: 0, ..h }
}

/// The checksum a header must carry: CRC32 over its 32 bytes with the
/// checksum field set to zero.
pub open spec fn header_crc(h: Header, o: ByteOrder) -> u32 {
    crc32(header_bytes(zero_checksum(h), o))
}

/// The 24 bytes of `e` in byte order `o`.
pub open spec fn entry_bytes(e: IndexEntry, o: ByteOrder) -> Seq<u8> {
    encode_u64(e.key, o) + encode_u64(e.val_offset, o) + encode_u32(e.val_len, o) + encode_u32(
        e.val_checksum,
        o,
    )
}

/// The index entry stored at byte offset `pos` of `b`.
pub open spec fn entry_at(b: Seq<u8>, pos: int, o: ByteOrder) -> IndexEntry {
    IndexEntry {
        key: u64_at(b, pos, o),
        val_offset: u64_at(b, pos + 8, o),
        val_len: u32_at(b, pos + 16, o),
        val_checksum: u32_at(b, pos + 20, o),
    }
}

/// Reading back the bytes of a header gives the header.
pub proof fn lemma_header_roundtrip(h: Header, o: ByteOrder)
    ensures
        header_bytes(h, o).len() == HEADER_SIZE,
        header_at(header_bytes(h, o), o) == h,
{
    let b = header_bytes(h, o);
    codec::lemma_u64_roundtrip(h.magic, o);
    codec::lemma_u64_roundtrip(h.version, o);
    codec::lemma_u64_roundtrip(h.count, o);
    codec::lemma_u32_roundtrip(h.header_checksum, o);
    codec::lemma_u32_roundtrip(h._padding, o);
    assert(b.subrange(0, 8) =~= encode_u64(h.magic, o));
    assert(b.subrange(8, 16) =~= encode_u64(h.version, o));
    assert(b.subrange(16, 24) =~= encode_u64(h.count, o));
    assert(b.subrange(24, 28) =~= encode_u32(h.header_checksum, o));
    assert(b.subrange(28, 32) =~= encode_u32(h._padding, o));
}

/// Reading back the bytes of an index entry gives the entry.
pub proof fn lemma_entry_roundtrip(e: IndexEntry, o: ByteOrder)
    ensures
        entry_bytes(e, o).len() == INDEX_ENTRY_SIZE,
        entry_at(entry_bytes(e, o), 0, o) == e,
{
    let b = entry_bytes(e, o);
    codec::lemma_u64_roundtrip(e.key, o);
    codec::lemma_u64_roundtrip(e.val_offset, o);
    codec::lemma_u32_roundtrip(e.val_len, o);
    codec::lemma_u32_roundtrip(e.val_checksum, o);
    assert(b.subrange(0, 8) =~= encode_u64(e.key, o));
    assert(b.subrange(8, 16) =~= encode_u64(e.val_offset, o));
    assert(b.subrange(16, 20) =~= encode_u32(e.val_len, o));
    assert(b.subrange(20, 24) =~= encode_u32(e.val_checksum, o));
}

impl Header {
    /// Checks the magic number and version, without validating the checksum or bounds.
    pub fn is_valid(&self) -> (r: bool)
        ensures
            r == (self.magic == STORAGE_MAGIC && self.version == STORAGE_VERSION),
    {
        self.magic == STORAGE_MAGIC && self.version == STORAGE_VERSION
    }

    /// Decodes a header from exactly 32 bytes in byte order `o`; `None` if the
    /// slice has another length.
    pub fn read_from(bytes: &[u8], o: ByteOrder) -> (r: Option<Header>)
        ensures
            bytes@.len() != HEADER_SIZE ==> r is None,
            bytes@.len() == HEADER_SIZE ==> r == Some(header_at(bytes@, o)),
    {
        if bytes.len() != HEADER_SIZE {
            return None;
        }
        Some(
            Header {
                magic: read_u64(bytes, 0, o),
                version: read_u64(bytes, 8, o),
                count: read_u64(bytes, 16, o),
                header_checksum: read_u32(bytes, 24, o),
                _padding: read_u32(bytes, 28, o),
            },
        )
    }

    /// The header's 32 bytes in byte order `o`.
    pub fn to_bytes(&self, o: ByteOrder) -> (r: Vec<u8>)
        ensures
            r@ == header_bytes(*self, o),
    {
        let mut out: Vec<u8> = Vec::new();
        push_u64(&mut out, self.magic, o);
        push_u64(&mut out, self.version, o);
        push_u64(&mut out, self.count, o);
        push_u32(&mut out, self.header_checksum, o);
        push_u32(&mut out, self._padding, o);
        assert(out@ =~= header_bytes(*self, o));
        out
    }

    /// The checksum this header must carry: CRC32 over its bytes in byte order
    /// `o` with the checksum field set to zero.
    pub fn expected_checksum(&self, o: ByteOrder) -> (r: u32)
        ensures
            r == header_crc(*self, o),
    {
        let zeroed = Header { header_checksum: 0, ..*self };
        let bytes = zeroed.to_bytes(o);
        crc32_hash(bytes.as_slice())
    }
}

impl IndexEntry {
    /// Decodes an index entry from exactly 24 bytes in byte order `o`; `None`
    /// if the slice has another length.
    pub fn read_from(bytes: &[u8], o: ByteOrder) -> (r: Option<IndexEntry>)
        ensures
            bytes@.len() != INDEX_ENTRY_SIZE ==> r is None,
            bytes@.len() == INDEX_ENTRY_SIZE ==> r == Some(entry_at(bytes@, 0, o)),
    {
        if bytes.len() != INDEX_ENTRY_SIZE {
            return None;
        }
        Some(read_entry(bytes, 0, o))
    }

    /// The entry's 24 bytes in byte order `o`.
    pub fn to_bytes(&self, o: ByteOrder) -> (r: Vec<u8>)
        ensures
            r@ == entry_bytes(*self, o),
    {
        let mut out: Vec<u8> = Vec::new();
        push_entry(&mut out, self, o);
        assert(out@ =~= entry_bytes(*self, o));
        out
    }
}

/// Reads the index entry at byte offset `pos`.
pub(crate) fn read_entry(b: &[u8], pos: usize, o: ByteOrder) -> (r: IndexEntry)
    requires
        pos + INDEX_ENTRY_SIZE <= b@.len(),
    ensures
        r == entry_at(b@, pos as int, o),
{
    assert(pos + INDEX_ENTRY_SIZE <= b.len());
    IndexEntry {
        key: read_u64(b, pos, o),
        val_offset: read_u64(b, pos + 8, o),
        val_len: read_u32(b, pos + 16, o),
        val_checksum: read_u32(b, pos + 20, o),
    }
}

/// Appends the 24 bytes of `e`.
pub(crate) fn push_entry(out: &mut Vec<u8>, e: &IndexEntry, o: ByteOrder)
    ensures
        final(out)@ == old(out)@ + entry_bytes(*e, o),
{
    let ghost start = out@;
    push_u64(out, e.key, o);
    push_u64(out, e.val_offset, o);
    push_u32(out, e.val_len, o);
    push_u32(out, e.val_checksum, o);
    assert(out@ =~= start + entry_bytes(*e, o));
}

// ---------------------------------------------------------------------------
// Wire protocol
// ---------------------------------------------------------------------------

/// Operation codes; unrecognized wire values map to `Unknown`.
#[derive(Debug, PartialEq, Eq, Structural, Clone, Copy)]
pub enum OpCode {
    Get,
    Exists,
    Unknown,
}

impl OpCode {
    /// The opcode's numeric value: 0 for `Get`, 1 for `Exists`, 99 for `Unknown`.
    pub fn code(&self) -> (r: u32)
        ensures
            r == (match self {
                OpCode::Get => 0u32,
                OpCode::Exists => 1u32,
                OpCode::Unknown => 99u32,
            }),
    {
        match self {
            OpCode::Get => 0,
            OpCode::Exists => 1,
            OpCode::Unknown => 99,
        }
    }
}

/// The opcode that a wire value denotes.
pub open spec fn opcode_of(op: u32) -> OpCode {
    if op == 0 {
        OpCode::Get
    } else if op == 1 {
        OpCode::Exists
    } else {
        OpCode::Unknown
    }
}

/// A 16-byte request frame: a big-endian operation code, four bytes of
/// padding kept in the host's byte order, and a big-endian key.
#[derive(Debug, Copy, Clone)]
pub struct Request {
    pub op: u32,
    /// Explicit padding so that the key is 8-byte aligned.
    pub _padding: u32,
    pub key: u64,
}

/// An 8-byte response header with big-endian status and payload length.
#[derive(Debug, Copy, Clone, Default)]
pub struct ResponseHeader {
    /// The status code of the response (0 ok, 1 not found, 2 error).
    pub status: u32,
    /// The length of the data payload that follows the header.
    pub length: u32,
}

/// Size in bytes of a request frame.
pub const REQUEST_SIZE: usize = 16;

/// Size in bytes of a response header.
pub const RESPONSE_HEADER_SIZE: usize = 8;

/// The 16 bytes of a request whose padding is written in byte order `o`.
pub open spec fn request_bytes(r: Request, o: ByteOrder) -> Seq<u8> {
    encode_u32(r.op, ByteOrder::Big) + encode_u32(r._padding, o) + encode_u64(
        r.key,
        ByteOrder::Big,
    )
}

/// The request held in 16 bytes whose padding is read in byte order `o`.
pub open spec fn request_at(b: Seq<u8>, o: ByteOrder) -> Request {
    Request {
        op: decode_u32(b.subrange(0, 4), ByteOrder::Big),
        _padding: decode_u32(b.subrange(4, 8), o),
        key: decode_u64(b.subrange(8, 16), ByteOrder::Big),
    }
}

/// The 8 bytes of a response header.
pub open spec fn response_header_bytes(h: ResponseHeader) -> Seq<u8> {
    encode_u32(h.status, ByteOrder::Big) + encode_u32(h.length, ByteOrder::Big)
}

/// The response header held in 8 bytes.
pub open spec fn response_header_at(b: Seq<u8>) -> ResponseHeader {
    ResponseHeader {
        status: decode_u32(b.subrange(0, 4), ByteOrder::Big),
        length: decode_u32(b.subrange(4, 8), ByteOrder::Big),
    }
}

/// Calls `zerocopy::byteorder::U32::<NetworkEndian>::get` on the four bytes.
/// Trusted: the result is the big-endian value of `b`.
#[verifier::external_body]
fn be_u32_get(b: [u8; 4]) -> (r: u32)
    ensures
        r == decode_u32(b@, ByteOrder::Big),
{
    zerocopy::byteorder::U32::<zerocopy::byteorder::NetworkEndian>::from_bytes(b).get()
}

/// Calls `zerocopy::byteorder::U32::<NetworkEndian>::new`. Trusted: the bytes
/// of the result are those of `v` in big-endian order.
#[verifier::external_body]
fn be_u32_new(v: u32) -> (r: [u8; 4])
    ensures
        r@ == encode_u32(v, ByteOrder::Big),
{
    zerocopy::byteorder::U32::<zerocopy::byteorder::NetworkEndian>::new(v).into()
}

/// Calls `zerocopy::byteorder::U64::<NetworkEndian>::get` on the eight bytes.
/// Trusted: the result is the big-endian value of `b`.
#[verifier::external_body]
fn be_u64_get(b: [u8; 8]) -> (r: u64)
    ensures
        r == decode_u64(b@, ByteOrder::Big),
{
    zerocopy::byteorder::U64::<zerocopy::byteorder::NetworkEndian>::from_bytes(b).get()
}

/// Calls `zerocopy::byteorder::U64::<NetworkEndian>::new`. Trusted: the bytes
/// of the result are those of `v` in big-endian order.
#[verifier::external_body]
fn be_u64_new(v: u64) -> (r: [u8; 8])
    ensures
        r@ == encode_u64(v, ByteOrder::Big),
{
    zerocopy::byteorder::U64::<zerocopy::byteorder::NetworkEndian>::new(v).into()
}

/// Copies four bytes starting at `pos` into an array.
fn array4(b: &[u8], pos: usize) -> (r: [u8; 4])
    requires
        pos + 4 <= b@.len(),
    ensures
        r@ == b@.subrange(pos as int, pos + 4),
{
    let r = [b[pos], b[pos + 1], b[pos + 2], b[pos + 3]];
    assert(r@ =~= b@.subrange(pos as int, pos + 4));
    r
}

/// Copies eight bytes starting at `pos` into an array.
fn array8(b: &[u8], pos: usize) -> (r: [u8; 8])
    requires
        pos + 8 <= b@.len(),
    ensures
        r@ == b@.subrange(pos as int, pos + 8),
{
    let r = [
        b[pos],
        b[pos + 1],
        b[pos + 2],
        b[pos + 3],
        b[pos + 4],
        b[pos + 5],
        b[pos + 6],
        b[pos + 7],
    ];
    assert(r@ =~= b@.subrange(pos as int, pos + 8));
    r
}

impl Request {
    /// Copies a request from exactly 16 bytes whose padding is in byte order
    /// `o`; `None` if the slice length differs.
    pub fn from_bytes_in(bytes: &[u8], o: ByteOrder) -> (r: Option<Request>)
        ensures
            bytes@.len() != REQUEST_SIZE ==> r is None,
            bytes@.len() == REQUEST_SIZE ==> r == Some(request_at(bytes@, o)),
    {
        if bytes.len() != REQUEST_SIZE {
            return None;
        }
        let op = be_u32_get(array4(bytes, 0));
        let _padding = read_u32(bytes, 4, o);
        let key = be_u64_get(array8(bytes, 8));
        Some(Request { op, _padding, key })
    }

    /// The request's 16 bytes, with the padding written in byte order `o`.
    pub fn to_bytes_in(&self, o: ByteOrder) -> (r: [u8; 16])
        ensures
            r@ == request_bytes(*self, o),
    {
        let op = be_u32_new(self.op);
        let mut pad: Vec<u8> = Vec::new();
        push_u32(&mut pad, self._padding, o);
        let key = be_u64_new(self.key);
        let r = [
            op[0],
            op[1],
            op[2],
            op[3],
            pad[0],
            pad[1],
            pad[2],
            pad[3],
            key[0],
            key[1],
            key[2],
            key[3],
            key[4],
            key[5],
            key[6],
            key[7],
        ];
        assert(r@ =~= request_bytes(*self, o));
        r
    }

    /// Copies a request from exactly 16 bytes, regardless of input alignment.
    /// Returns `None` if the slice length differs. The padding is read in the
    /// host's byte order.
    pub fn from_bytes(bytes: &[u8]) -> (r: Option<Request>)
        ensures
            bytes@.len() != REQUEST_SIZE ==> r is None,
            bytes@.len() == REQUEST_SIZE ==> (r == Some(request_at(bytes@, ByteOrder::Little))
                || r == Some(request_at(bytes@, ByteOrder::Big))),
    {
        Request::from_bytes_in(bytes, native_byte_order())
    }

    /// The request's 16 bytes; the padding is written in the host's byte order.
    pub fn to_bytes(&self) -> (r: [u8; 16])
        ensures
            r@ == request_bytes(*self, ByteOrder::Little) || r@ == request_bytes(
                *self,
                ByteOrder::Big,
            ),
    {
        self.to_bytes_in(native_byte_order())
    }

    /// Converts the raw numeric operation code into a typed `OpCode`.
    pub fn opcode(&self) -> (r: OpCode)
        ensures
            r == opcode_of(self.op),
    {
        match self.op {
            0 => OpCode::Get,
            1 => OpCode::Exists,
            _ => OpCode::Unknown,
        }
    }
}

impl ResponseHeader {
    /// Copies a response header from exactly 8 bytes; `None` if the slice
    /// length differs.
    pub fn from_bytes(bytes: &[u8]) -> (r: Option<ResponseHeader>)
        ensures
            bytes@.len() != RESPONSE_HEADER_SIZE ==> r is None,
            bytes@.len() == RESPONSE_HEADER_SIZE ==> r == Some(response_header_at(bytes@)),
    {
        if bytes.len() != RESPONSE_HEADER_SIZE {
            return None;
        }
        let status = be_u32_get(array4(bytes, 0));
        let length = be_u32_get(array4(bytes, 4));
        Some(ResponseHeader { status, length })
    }

    /// The header's 8 bytes.
    pub fn to_bytes(&self) -> (r: [u8; 8])
        ensures
            r@ == response_header_bytes(*self),
    {
        let s = be_u32_new(self.status);
        let l = be_u32_new(self.length);
        let r = [s[0], s[1], s[2], s[3], l[0], l[1], l[2], l[3]];
        assert(r@ =~= response_header_bytes(*self));
        r
    }
}

/// Decoding the bytes of a request gives the request back when both sides
/// use the same byte order for the padding; the operation code and the key
/// come back whatever byte orders the two sides use.
pub proof fn lemma_request_roundtrip(r: Request, written: ByteOrder, read: ByteOrder)
    ensures
        request_bytes(r, written).len() == REQUEST_SIZE,
        request_at(request_bytes(r, written), read).op == r.op,
        request_at(request_bytes(r, written), read).key == r.key,
        request_at(request_bytes(r, written), written) == r,
{
    let b = request_bytes(r, written);
    codec::lemma_u32_roundtrip(r.op, ByteOrder::Big);
    codec::lemma_u32_roundtrip(r._padding, written);
    codec::lemma_u64_roundtrip(r.key, ByteOrder::Big);
    assert(b.subrange(0, 4) =~= encode_u32(r.op, ByteOrder::Big));
    assert(b.subrange(4, 8) =~= encode_u32(r._padding, written));
    assert(b.subrange(8, 16) =~= encode_u64(r.key, ByteOrder::Big));
}

/// Encoding a decoded request gives back all 16 bytes, padding included,
/// when both use the same byte order for the padding.
pub proof fn lemma_request_bytes_roundtrip(b: Seq<u8>, o: ByteOrder)
    requires
        b.len() == REQUEST_SIZE,
    ensures
        request_bytes(request_at(b, o), o) == b,
{
    codec::lemma_u32_bytes_roundtrip(b.subrange(0, 4), ByteOrder::Big);
    codec::lemma_u32_bytes_roundtrip(b.subrange(4, 8), o);
    codec::lemma_u64_bytes_roundtrip(b.subrange(8, 16), ByteOrder::Big);
    assert(request_bytes(request_at(b, o), o) =~= b);
}

/// Decoding the bytes of a response header gives the header back.
pub proof fn lemma_response_header_roundtrip(h: ResponseHeader)
    ensures
        response_header_bytes(h).len() == RESPONSE_HEADER_SIZE,
        response_header_at(response_header_bytes(h)) == h,
{
    let b = response_header_bytes(h);
    codec::lemma_u32_roundtrip(h.status, ByteOrder::Big);
    codec::lemma_u32_roundtrip(h.length, ByteOrder::Big);
    assert(b.subrange(0, 4) =~= encode_u32(h.status, ByteOrder::Big));
    assert(b.subrange(4, 8) =~= encode_u32(h.length, ByteOrder::Big));
}

} // verus!
