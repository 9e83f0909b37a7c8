//! Fixed-width integer encodings used by the storage file and the wire protocol.
//!
//! The storage file keeps its integers in the host's byte order, so every
//! encoder and decoder here takes the byte order as an explicit value; the wire
//! protocol is big-endian.
use vstd::prelude::*;

verus! {

/// The two byte orders a Rust host can have.
#[derive(PartialEq, Eq, Structural, Clone, Copy, Debug)]
pub enum ByteOrder {
    Little,
    Big,
}

// ---------------------------------------------------------------------------
// Mathematical model of the encodings
// ---------------------------------------------------------------------------

/// Little-endian value of eight bytes.
pub open spec fn u64_from_le(b: Seq<u8>) -> u64 {
    (b[0] as u64) | ((b[1] as u64) << 8u64) | ((b[2] as u64) << 16u64) | ((b[3] as u64)
        << 24u64) | ((b[4] as u64) << 32u64) | ((b[5] as u64) << 40u64) | ((b[6] as u64)
        << 48u64) | ((b[7] as u64) << 56u64)
}

/// Little-endian bytes of a `u64`.
pub open spec fn u64_to_le(v: u64) -> Seq<u8> {
    seq![
        v as u8,
        (v >> 8u64) as u8,
        (v >> 16u64) as u8,
        (v >> 24u64) as u8,
        (v >> 32u64) as u8,
        (v >> 40u64) as u8,
        (v >> 48u64) as u8,
        (v >> 56u64) as u8,
    ]
}

/// Little-endian value of four bytes.
pub open spec fn u32_from_le(b: Seq<u8>) -> u32 {
    (b[0] as u32) | ((b[1] as u32) << 8u32) | ((b[2] as u32) << 16u32) | ((b[3] as u32) << 24u32)
}

/// Little-endian bytes of a `u32`.
pub open spec fn u32_to_le(v: u32) -> Seq<u8> {
    seq![v as u8, (v >> 8u32) as u8, (v >> 16u32) as u8, (v >> 24u32) as u8]
}

/// The value of `b` (eight bytes) read in byte order `o`.
pub open spec fn decode_u64(b: Seq<u8>, o: ByteOrder) -> u64 {
    match o {
        ByteOrder::Little => u64_from_le(b),
        ByteOrder::Big => u64_from_le(b.reverse()),
    }
}

/// The eight bytes of `v` in byte order `o`.
pub open spec fn encode_u64(v: u64, o: ByteOrder) -> Seq<u8> {
    match o {
        ByteOrder::Little => u64_to_le(v),
        ByteOrder::Big => u64_to_le(v).reverse(),
    }
}

/// The value of `b` (four bytes) read in byte order `o`.
pub open spec fn decode_u32(b: Seq<u8>, o: ByteOrder) -> u32 {
    match o {
        ByteOrder::Little => u32_from_le(b),
        ByteOrder::Big => u32_from_le(b.reverse()),
    }
}

/// The four bytes of `v` in byte order `o`.
pub open spec fn encode_u32(v: u32, o: ByteOrder) -> Seq<u8> {
    match o {
        ByteOrder::Little => u32_to_le(v),
        ByteOrder::Big => u32_to_le(v).reverse(),
    }
}

/// The `u64` stored at byte offset `pos` of `b`.
pub open spec fn u64_at(b: Seq<u8>, pos: int, o: ByteOrder) -> u64 {
    decode_u64(b.subrange(pos, pos + 8), o)
}

/// The `u32` stored at byte offset `pos` of `b`.
pub open spec fn u32_at(b: Seq<u8>, pos: int, o: ByteOrder) -> u32 {
    decode_u32(b.subrange(pos, pos + 4), o)
}

// ---------------------------------------------------------------------------
// Round trips
// ---------------------------------------------------------------------------

proof fn lemma_u64_le_roundtrip(v: u64)
    ensures
        u64_to_le(v).len() == 8,
        u64_from_le(u64_to_le(v)) == v,
{
    let b = u64_to_le(v);
    let (b0, b1, b2, b3, b4, b5, b6, b7) = (b[0], b[1], b[2], b[3], b[4], b[5], b[6], b[7]);
    assert((((v as u8) as u64) | ((((v >> 8u64) as u8) as u64) << 8u64) | ((((v >> 16u64) as u8)
        as u64) << 16u64) | ((((v >> 24u64) as u8) as u64) << 24u64) | ((((v >> 32u64) as u8)
        as u64) << 32u64) | ((((v >> 40u64) as u8) as u64) << 40u64) | ((((v >> 48u64) as u8)
        as u64) << 48u64) | ((((v >> 56u64) as u8) as u64) << 56u64)) == v) by (bit_vector);
}

proof fn lemma_u64_le_bytes_roundtrip(b: Seq<u8>)
    requires
        b.len() == 8,
    ensures
        u64_to_le(u64_from_le(b)) == b,
{
    let (b0, b1, b2, b3, b4, b5, b6, b7) = (b[0], b[1], b[2], b[3], b[4], b[5], b[6], b[7]);
    let v = u64_from_le(b);
    assert(v as u8 == b0 && (v >> 8u64) as u8 == b1 && (v >> 16u64) as u8 == b2 && (v >> 24u64)
        as u8 == b3 && (v >> 32u64) as u8 == b4 && (v >> 40u64) as u8 == b5 && (v >> 48u64)
        as u8 == b6 && (v >> 56u64) as u8 == b7) by (bit_vector)
        requires
            v == (b0 as u64) | ((b1 as u64) << 8u64) | ((b2 as u64) << 16u64) | ((b3 as u64)
                << 24u64) | ((b4 as u64) << 32u64) | ((b5 as u64) << 40u64) | ((b6 as u64)
                << 48u64) | ((b7 as u64) << 56u64),
    ;
    assert(u64_to_le(v) =~= b);
}

proof fn lemma_u32_le_roundtrip(v: u32)
    ensures
        u32_to_le(v).len() == 4,
        u32_from_le(u32_to_le(v)) == v,
{
    assert((((v as u8) as u32) | ((((v >> 8u32) as u8) as u32) << 8u32) | ((((v >> 16u32) as u8)
        as u32) << 16u32) | ((((v >> 24u32) as u8) as u32) << 24u32)) == v) by (bit_vector);
}

proof fn lemma_u32_le_bytes_roundtrip(b: Seq<u8>)
    requires
        b.len() == 4,
    ensures
        u32_to_le(u32_from_le(b)) == b,
{
    let (b0, b1, b2, b3) = (b[0], b[1], b[2], b[3]);
    let v = u32_from_le(b);
    assert(v as u8 == b0 && (v >> 8u32) as u8 == b1 && (v >> 16u32) as u8 == b2 && (v >> 24u32)
        as u8 == b3) by (bit_vector)
        requires
            v == (b0 as u32) | ((b1 as u32) << 8u32) | ((b2 as u32) << 16u32) | ((b3 as u32)
                << 24u32),
    ;
    assert(u32_to_le(v) =~= b);
}

/// Decoding what was encoded gives the value back, in either byte order.
pub proof fn lemma_u64_roundtrip(v: u64, o: ByteOrder)
    ensures
        encode_u64(v, o).len() == 8,
        decode_u64(encode_u64(v, o), o) == v,
{
    lemma_u64_le_roundtrip(v);
    assert(u64_to_le(v).reverse().reverse() =~= u64_to_le(v));
}

/// Encoding what was decoded gives the bytes back, in either byte order.
pub proof fn lemma_u64_bytes_roundtrip(b: Seq<u8>, o: ByteOrder)
    requires
        b.len() == 8,
    ensures
        encode_u64(decode_u64(b, o), o) == b,
{
    match o {
        ByteOrder::Little => lemma_u64_le_bytes_roundtrip(b),
        ByteOrder::Big => {
            lemma_u64_le_bytes_roundtrip(b.reverse());
            assert(b.reverse().reverse() =~= b);
        },
    }
}

/// Decoding what was encoded gives the value back, in either byte order.
pub proof fn lemma_u32_roundtrip(v: u32, o: ByteOrder)
    ensures
        encode_u32(v, o).len() == 4,
        decode_u32(encode_u32(v, o), o) == v,
{
    lemma_u32_le_roundtrip(v);
    assert(u32_to_le(v).reverse().reverse() =~= u32_to_le(v));
}

/// Encoding what was decoded gives the bytes back, in either byte order.
pub proof fn lemma_u32_bytes_roundtrip(b: Seq<u8>, o: ByteOrder)
    requires
        b.len() == 4,
    ensures
        encode_u32(decode_u32(b, o), o) == b,
{
    match o {
        ByteOrder::Little => lemma_u32_le_bytes_roundtrip(b),
        ByteOrder::Big => {
            lemma_u32_le_bytes_roundtrip(b.reverse());
            assert(b.reverse().reverse() =~= b);
        },
    }
}

/// Zero is encoded as four zero bytes, in either byte order.
pub proof fn lemma_u32_zero(o: ByteOrder)
    ensures
        encode_u32(0, o) == seq![0u8, 0u8, 0u8, 0u8],
{
    assert(((0u32 >> 8u32) as u8) == 0 && ((0u32 >> 16u32) as u8) == 0 && ((0u32 >> 24u32)
        as u8) == 0 && ((0u32) as u8) == 0) by (bit_vector);
    assert(u32_to_le(0) =~= seq![0u8, 0u8, 0u8, 0u8]);
    assert(u32_to_le(0).reverse() =~= seq![0u8, 0u8, 0u8, 0u8]);
}

// ---------------------------------------------------------------------------
// Executable encoders and decoders
// ---------------------------------------------------------------------------

/// Reads the `u64` at byte offset `pos`.
pub fn read_u64(b: &[u8], pos: usize, o: ByteOrder) -> (r: u64)
    requires
        pos + 8 <= b@.len(),
    ensures
        r == u64_at(b@, pos as int, o),
{
    assert(pos + 8 <= b.len());
    let (i0, i1, i2, i3, i4, i5, i6, i7) = match o {
        ByteOrder::Little => (pos, pos + 1, pos + 2, pos + 3, pos + 4, pos + 5, pos + 6, pos + 7),
        ByteOrder::Big => (pos + 7, pos + 6, pos + 5, pos + 4, pos + 3, pos + 2, pos + 1, pos),
    };
    let r = (b[i0] as u64) | ((b[i1] as u64) << 8u64) | ((b[i2] as u64) << 16u64) | ((b[i3] as u64)
        << 24u64) | ((b[i4] as u64) << 32u64) | ((b[i5] as u64) << 40u64) | ((b[i6] as u64)
        << 48u64) | ((b[i7] as u64) << 56u64);
    proof {
        let s = b@.subrange(pos as int, pos + 8);
        match o {
            ByteOrder::Little => {},
            ByteOrder::Big => {
                assert(s.reverse()[0] == b@[pos + 7]);
                assert(s.reverse()[7] == b@[pos as int]);
            },
        }
    }
    r
}

/// Reads the `u32` at byte offset `pos`.
pub fn read_u32(b: &[u8], pos: usize, o: ByteOrder) -> (r: u32)
    requires
        pos + 4 <= b@.len(),
    ensures
        r == u32_at(b@, pos as int, o),
{
    assert(pos + 4 <= b.len());
    let (i0, i1, i2, i3) = match o {
        ByteOrder::Little => (pos, pos + 1, pos + 2, pos + 3),
        ByteOrder::Big => (pos + 3, pos + 2, pos + 1, pos),
    };
    (b[i0] as u32) | ((b[i1] as u32) << 8u32) | ((b[i2] as u32) << 16u32) | ((b[i3] as u32)
        << 24u32)
}

/// Appends the eight bytes of `v` in byte order `o`.
pub fn push_u64(out: &mut Vec<u8>, v: u64, o: ByteOrder)
    ensures
        final(out)@ == old(out)@ + encode_u64(v, o),
{
    let bytes: [u8; 8] = [
        v as u8,
        (v >> 8u64) as u8,
        (v >> 16u64) as u8,
        (v >> 24u64) as u8,
        (v >> 32u64) as u8,
        (v >> 40u64) as u8,
        (v >> 48u64) as u8,
        (v >> 56u64) as u8,
    ];
    let ghost start = out@;
    let mut k: usize = 0;
    while k < 8
        invariant
            k <= 8,
            bytes@ == u64_to_le(v),
            out@.len() == start.len() + k,
            forall|j: int| 0 <= j < start.len() ==> out@[j] == start[j],
            forall|j: int|
                0 <= j < k ==> out@[start.len() + j] == encode_u64(v, o)[j],
        decreases 8 - k,
    {
        let idx: usize = match o {
            ByteOrder::Little => k,
            ByteOrder::Big => 7 - k,
        };
        out.push(bytes[idx]);
        k = k + 1;
    }
    assert(out@ =~= start + encode_u64(v, o));
}

/// Appends the four bytes of `v` in byte order `o`.
pub fn push_u32(out: &mut Vec<u8>, v: u32, o: ByteOrder)
    ensures
        final(out)@ == old(out)@ + encode_u32(v, o),
{
    let bytes: [u8; 4] = [v as u8, (v >> 8u32) as u8, (v >> 16u32) as u8, (v >> 24u32) as u8];
    let ghost start = out@;
    let mut k: usize = 0;
    while k < 4
        invariant
            k <= 4,
            bytes@ == u32_to_le(v),
            out@.len() == start.len() + k,
            forall|j: int| 0 <= j < start.len() ==> out@[j] == start[j],
            forall|j: int|
                0 <= j < k ==> out@[start.len() + j] == encode_u32(v, o)[j],
        decreases 4 - k,
    {
        let idx: usize = match o {
            ByteOrder::Little => k,
            ByteOrder::Big => 3 - k,
        };
        out.push(bytes[idx]);
        k = k + 1;
    }
    assert(out@ =~= start + encode_u32(v, o));
}

// ---------------------------------------------------------------------------
// The host's byte order
// ---------------------------------------------------------------------------

/// Calls `u64::to_ne_bytes`. Trusted: the result is `v` in the host's byte
/// order, which on every Rust target is either little- or big-endian; which
/// one is a property of the machine and is not stated.
#[verifier::external_body]
fn native_bytes_u64(v: u64) -> (r: [u8; 8])
    ensures
        r@ == encode_u64(v, ByteOrder::Little) || r@ == encode_u64(v, ByteOrder::Big),
{
    v.to_ne_bytes()
}

/// The byte order in which `one` holds the integer 1.
pub fn order_of_one(one: [u8; 8]) -> (o: ByteOrder)
    requires
        one@ == encode_u64(1, ByteOrder::Little) || one@ == encode_u64(1, ByteOrder::Big),
    ensures
        one@ == encode_u64(1, o),
{
    assert(((1u64) as u8) == 1 && ((1u64 >> 56u64) as u8) == 0) by (bit_vector);
    assert(encode_u64(1, ByteOrder::Little)[0] == 1);
    assert(encode_u64(1, ByteOrder::Big)[0] == 0);
    if one[0] == 1 {
        ByteOrder::Little
    } else {
        ByteOrder::Big
    }
}

/// The byte order of the host: the order in which `u64::to_ne_bytes` lays
/// out the integer 1, as `order_of_one` reads it. Which order that is is a
/// property of the machine, so no contract names it.
pub(crate) fn native_byte_order() -> ByteOrder {
    order_of_one(native_bytes_u64(1))
}

} // verus!
