//! Read-only lookups in a storage file image.
//!
//! The file is a 32-byte header, `count` fixed-width index entries sorted by
//! key, then the value bytes; all integers are in the host's byte order.
use crate::checksum::{crc32, crc32_hash};
use crate::codec::{native_byte_order, read_u64, ByteOrder};
use crate::{
    entry_at, header_at, header_crc, read_entry, EngineError, Header, IndexEntry, HEADER_SIZE,
    INDEX_ENTRY_SIZE, STORAGE_MAGIC, STORAGE_VERSION,
};
use vstd::prelude::*;
use vstd::slice::slice_subrange;

verus! {

/// Byte offset of index entry `i`.
pub open spec fn entry_pos(i: int) -> int {
    HEADER_SIZE + INDEX_ENTRY_SIZE * i
}

/// Index entry `i` of the file image `b`.
pub open spec fn index_entry(b: Seq<u8>, o: ByteOrder, i: int) -> IndexEntry {
    entry_at(b, entry_pos(i), o)
}

/// The key of index entry `i`.
pub open spec fn index_key(b: Seq<u8>, o: ByteOrder, i: int) -> u64 {
    index_entry(b, o, i).key
}

/// The first `n` index entries are in ascending key order.
pub open spec fn index_sorted(b: Seq<u8>, o: ByteOrder, n: int) -> bool {
    forall|i: int, j: int|
        #![trigger index_key(b, o, i), index_key(b, o, j)]
        0 <= i <= j < n ==> index_key(b, o, i) <= index_key(b, o, j)
}

/// The value bytes that entry `e` points at.
pub open spec fn entry_value(b: Seq<u8>, e: IndexEntry) -> Seq<u8> {
    b.subrange(e.val_offset as int, e.val_offset + e.val_len)
}

/// What a lookup reports once it has found entry `e`: the value if it lies
/// within the file and its CRC32 matches, an error otherwise.
pub open spec fn entry_outcome(b: Seq<u8>, e: IndexEntry) -> Result<Option<Seq<u8>>, EngineError> {
    if e.val_offset + e.val_len > b.len() {
        Err(EngineError::IndexSizeMismatch)
    } else if crc32(entry_value(b, e)) != e.val_checksum {
        Err(EngineError::ChecksumMismatch)
    } else {
        Ok(Some(entry_value(b, e)))
    }
}

/// The outcomes a lookup of `key` may report over the `n` index entries of
/// `b`: not found only if no entry has the key (provided the index is sorted,
/// as a baked file's is); otherwise the outcome of some entry with that key.
/// Which of several entries with the same key is not fixed.
pub open spec fn lookup_allowed(
    b: Seq<u8>,
    o: ByteOrder,
    n: int,
    key: u64,
    r: Result<Option<Seq<u8>>, EngineError>,
) -> bool {
    match r {
        Ok(None) => index_sorted(b, o, n) ==> forall|i: int|
            0 <= i < n ==> #[trigger] index_key(b, o, i) != key,
        _ => exists|i: int|
            0 <= i < n && #[trigger] index_key(b, o, i) == key && r == entry_outcome(
                b,
                index_entry(b, o, i),
            ),
    }
}

/// The entry that the engine's binary search over positions `lo..hi` lands
/// on for `key`, if any: it probes the middle position and keeps the half
/// where the key must lie in a sorted index.
pub open spec fn search(b: Seq<u8>, o: ByteOrder, key: u64, lo: int, hi: int) -> Option<int>
    decreases hi - lo,
{
    if lo >= hi {
        None
    } else {
        let mid = lo + (hi - lo) / 2;
        if index_key(b, o, mid) == key {
            Some(mid)
        } else if index_key(b, o, mid) < key {
            search(b, o, key, mid + 1, hi)
        } else {
            search(b, o, key, lo, mid)
        }
    }
}

/// What a lookup of `key` reports over the `n` index entries of `b`: not
/// found if the search lands on no entry, else the outcome of the entry it
/// lands on.
pub open spec fn lookup_result(b: Seq<u8>, o: ByteOrder, n: int, key: u64) -> Result<
    Option<Seq<u8>>,
    EngineError,
> {
    match search(b, o, key, 0, n) {
        None => Ok(None),
        Some(i) => entry_outcome(b, index_entry(b, o, i)),
    }
}

/// The search lands only on entries with the key, and in a sorted index it
/// misses only keys that no entry has.
pub proof fn lemma_search(b: Seq<u8>, o: ByteOrder, key: u64, lo: int, hi: int, n: int)
    requires
        0 <= lo,
        hi <= n,
        index_sorted(b, o, n) ==> forall|i: int| 0 <= i < lo ==> #[trigger] index_key(b, o, i) < key,
        index_sorted(b, o, n) ==> forall|i: int| hi <= i < n ==> #[trigger] index_key(b, o, i) > key,
    ensures
        match search(b, o, key, lo, hi) {
            Some(i) => lo <= i < hi && index_key(b, o, i) == key,
            None => index_sorted(b, o, n) ==> forall|i: int|
                0 <= i < n ==> #[trigger] index_key(b, o, i) != key,
        },
    decreases hi - lo,
{
    if lo < hi {
        let mid = lo + (hi - lo) / 2;
        if index_key(b, o, mid) == key {
        } else if index_key(b, o, mid) < key {
            if index_sorted(b, o, n) {
                assert forall|i: int| 0 <= i < mid + 1 implies #[trigger] index_key(b, o, i) < key by {
                    assert(index_key(b, o, i) <= index_key(b, o, mid));
                }
            }
            lemma_search(b, o, key, mid + 1, hi, n);
        } else {
            if index_sorted(b, o, n) {
                assert forall|i: int| mid <= i < n implies #[trigger] index_key(b, o, i) > key by {
                    assert(index_key(b, o, mid) <= index_key(b, o, i));
                }
            }
            lemma_search(b, o, key, lo, mid, n);
        }
    }
}

/// The lookup's result is one of the outcomes `lookup_allowed` describes.
pub proof fn lemma_lookup_result_allowed(b: Seq<u8>, o: ByteOrder, n: int, key: u64)
    requires
        0 <= n,
    ensures
        lookup_allowed(b, o, n, key, lookup_result(b, o, n, key)),
{
    lemma_search(b, o, key, 0, n, n);
    match search(b, o, key, 0, n) {
        Some(i) => {
            assert(index_key(b, o, i) == key);
        },
        None => {},
    }
}

/// The header checks, in the order the engine makes them, given the
/// checksum computed over the header and the length of the file.
pub open spec fn header_check_outcome(h: Header, calculated_checksum: u32, file_len: int) -> Result<
    (),
    EngineError,
> {
    if h.magic != STORAGE_MAGIC {
        Err(EngineError::MagicMismatch)
    } else if h.version != STORAGE_VERSION {
        Err(EngineError::VersionMismatch(h.version))
    } else if h.header_checksum != calculated_checksum {
        Err(EngineError::InvalidHeader)
    } else if file_len < HEADER_SIZE + INDEX_ENTRY_SIZE * h.count {
        Err(EngineError::IndexSizeMismatch)
    } else {
        Ok(())
    }
}

/// The outcome of opening the file image `b` whose integers are in byte order
/// `o`: its header, or the first check that fails.
pub open spec fn open_outcome(b: Seq<u8>, o: ByteOrder) -> Result<Header, EngineError> {
    if b.len() < HEADER_SIZE {
        Err(EngineError::InvalidHeader)
    } else {
        let h = header_at(b, o);
        match header_check_outcome(h, header_crc(h, o), b.len() as int) {
            Ok(_) => Ok(h),
            Err(e) => Err(e),
        }
    }
}

/// The view of a lookup result: the borrowed value replaced by its bytes.
pub open spec fn lookup_view(r: Result<Option<&[u8]>, EngineError>) -> Result<
    Option<Seq<u8>>,
    EngineError,
> {
    match r {
        Ok(Some(d)) => Ok(Some(d@)),
        Ok(None) => Ok(None),
        Err(e) => Err(e),
    }
}

/// Checks a header against the checksum computed over it and the length of
/// the file: magic number, version, checksum, then that the index fits.
pub fn check_header(header: &Header, calculated_checksum: u32, file_len: usize) -> (r: Result<
    (),
    EngineError,
>)
    ensures
        r == header_check_outcome(*header, calculated_checksum, file_len as int),
{
    if header.magic != STORAGE_MAGIC {
        return Err(EngineError::MagicMismatch);
    }
    if header.version != STORAGE_VERSION {
        return Err(EngineError::VersionMismatch(header.version));
    }
    if header.header_checksum != calculated_checksum {
        return Err(EngineError::InvalidHeader);
    }
    if file_len < HEADER_SIZE {
        return Err(EngineError::IndexSizeMismatch);
    }
    let room = (file_len - HEADER_SIZE) as u64;
    match header.count.checked_mul(INDEX_ENTRY_SIZE as u64) {
        None => Err(EngineError::IndexSizeMismatch),
        Some(index_size) => {
            if room < index_size {
                Err(EngineError::IndexSizeMismatch)
            } else {
                Ok(())
            }
        },
    }
}

/// Read-only storage over a borrowed file image (such as a memory mapping),
/// lending out value slices of that image.
pub struct Storage<'a> {
    object: &'a [u8],
    header: Header,
    order: ByteOrder,
}

impl<'a> Storage<'a> {
    #[verifier::type_invariant]
    spec fn well_formed(self) -> bool {
        open_outcome(self.object@, self.order) == Ok::<Header, EngineError>(self.header)
    }

    /// The bytes of the file image.
    pub closed spec fn spec_object(self) -> Seq<u8> {
        self.object@
    }

    /// The header read from the file image.
    pub closed spec fn spec_header(self) -> Header {
        self.header
    }

    /// The byte order of the file image's integers.
    pub closed spec fn spec_order(self) -> ByteOrder {
        self.order
    }

    /// The outcomes that a lookup of `key` may report on this storage.
    pub open spec fn lookup_allows(self, key: u64, r: Result<Option<Seq<u8>>, EngineError>) -> bool {
        lookup_allowed(self.spec_object(), self.spec_order(), self.spec_header().count as int, key, r)
    }

    /// What a lookup of `key` reports on this storage.
    pub open spec fn spec_lookup(self, key: u64) -> Result<Option<Seq<u8>>, EngineError> {
        lookup_result(self.spec_object(), self.spec_order(), self.spec_header().count as int, key)
    }

    /// Opens a file image whose integers are in byte order `order`: checks
    /// the header's length, magic number, version and CRC32, and that the
    /// index fits in the file.
    pub fn new_with_order(object: &'a [u8], order: ByteOrder) -> (r: Result<Storage<'a>, EngineError>)
        ensures
            match r {
                Ok(s) => {
                    &&& open_outcome(object@, order) == Ok::<Header, EngineError>(s.spec_header())
                    &&& s.spec_object() == object@
                    &&& s.spec_order() == order
                },
                Err(e) => open_outcome(object@, order) == Err::<Header, EngineError>(e),
            },
    {
        if object.len() < HEADER_SIZE {
            return Err(EngineError::InvalidHeader);
        }
        let header = Header {
            magic: read_u64(object, 0, order),
            version: read_u64(object, 8, order),
            count: read_u64(object, 16, order),
            header_checksum: crate::codec::read_u32(object, 24, order),
            _padding: crate::codec::read_u32(object, 28, order),
        };
        assert(header == header_at(object@, order));
        let calculated = header.expected_checksum(order);
        match check_header(&header, calculated, object.len()) {
            Err(e) => Err(e),
            Ok(()) => Ok(Storage { object, header, order }),
        }
    }

    /// Opens a file image written in the host's byte order.
    pub fn new(object: &'a [u8]) -> (r: Result<Storage<'a>, EngineError>)
        ensures
            match r {
                Ok(s) => {
                    &&& open_outcome(object@, s.spec_order()) == Ok::<Header, EngineError>(
                        s.spec_header(),
                    )
                    &&& s.spec_object() == object@
                },
                Err(e) => open_outcome(object@, ByteOrder::Little) == Err::<Header, EngineError>(
                    e,
                ) || open_outcome(object@, ByteOrder::Big) == Err::<Header, EngineError>(e),
            },
    {
        let order = native_byte_order();
        Storage::new_with_order(object, order)
    }

    /// The header read from the file image.
    pub fn header(&self) -> (h: Header)
        ensures
            h == self.spec_header(),
    {
        self.header
    }

    /// The bytes of the file image.
    pub fn object(&self) -> (b: &'a [u8])
        ensures
            b@ == self.spec_object(),
    {
        self.object
    }

    /// Binary search over the index for an entry with `key`.
    fn find(&self, key: u64) -> (r: Option<usize>)
        ensures
            r matches Some(i) ==> i < self.spec_header().count,
            match r {
                Some(i) => search(
                    self.spec_object(),
                    self.spec_order(),
                    key,
                    0,
                    self.spec_header().count as int,
                ) == Some(i as int),
                None => search(
                    self.spec_object(),
                    self.spec_order(),
                    key,
                    0,
                    self.spec_header().count as int,
                ) == None::<int>,
            },
    {
        proof {
            use_type_invariant(self);
        }
        let b = self.object;
        let o = self.order;
        let ghost bs = b@;
        let ghost count = self.header.count as int;
        assert(HEADER_SIZE + INDEX_ENTRY_SIZE * count <= b.len());
        let n = self.header.count as usize;
        let mut lo: usize = 0;
        let mut hi: usize = n;
        while lo < hi
            invariant
                b@ == bs,
                bs == self.spec_object(),
                o == self.spec_order(),
                count == self.spec_header().count,
                n == count,
                HEADER_SIZE + INDEX_ENTRY_SIZE * count <= b@.len(),
                lo <= hi <= n,
                search(bs, o, key, lo as int, hi as int) == search(bs, o, key, 0, count),
            decreases hi - lo,
        {
            let mid = lo + (hi - lo) / 2;
            assert(HEADER_SIZE + INDEX_ENTRY_SIZE * mid + INDEX_ENTRY_SIZE <= b.len()) by {
                assert(INDEX_ENTRY_SIZE * mid + INDEX_ENTRY_SIZE <= INDEX_ENTRY_SIZE * count)
                    by (nonlinear_arith)
                    requires
                        mid < count,
                        INDEX_ENTRY_SIZE == 24,
                ;
            }
            let mid_key = read_u64(b, HEADER_SIZE + INDEX_ENTRY_SIZE * mid, o);
            assert(mid_key == index_key(bs, o, mid as int));
            if mid_key == key {
                return Some(mid);
            } else if mid_key < key {
                lo = mid + 1;
            } else {
                hi = mid;
            }
        }
        None
    }

    /// Finds a key by binary search and verifies the value CRC32 before
    /// borrowing it. Cost is O(log n + value length) for a hit.
    pub fn get(&self, key: u64) -> (r: Result<Option<&'a [u8]>, EngineError>)
        ensures
            lookup_view(r) == self.spec_lookup(key),
            self.lookup_allows(key, lookup_view(r)),
    {
        proof {
            use_type_invariant(self);
            lemma_lookup_result_allowed(
                self.spec_object(),
                self.spec_order(),
                self.spec_header().count as int,
                key,
            );
        }
        let b = self.object;
        let pos = match self.find(key) {
            None => return Ok(None),
            Some(p) => p,
        };
        let ghost count = self.header.count as int;
        assert(HEADER_SIZE + INDEX_ENTRY_SIZE * count <= b.len());
        assert(HEADER_SIZE + INDEX_ENTRY_SIZE * pos + INDEX_ENTRY_SIZE <= b.len()) by {
            assert(INDEX_ENTRY_SIZE * pos + INDEX_ENTRY_SIZE <= INDEX_ENTRY_SIZE * count)
                by (nonlinear_arith)
                requires
                    pos < count,
                    INDEX_ENTRY_SIZE == 24,
            ;
        }
        let entry = read_entry(b, HEADER_SIZE + INDEX_ENTRY_SIZE * pos, self.order);
        let ghost outcome = entry_outcome(b@, entry);
        let file_len = b.len() as u64;
        let end = match entry.val_offset.checked_add(entry.val_len as u64) {
            None => {
                assert(outcome == Err::<Option<Seq<u8>>, EngineError>(
                    EngineError::IndexSizeMismatch,
                ));
                return Err(EngineError::IndexSizeMismatch);
            },
            Some(end) => end,
        };
        if end > file_len {
            return Err(EngineError::IndexSizeMismatch);
        }
        let data = slice_subrange(b, entry.val_offset as usize, end as usize);
        if crc32_hash(data) != entry.val_checksum {
            return Err(EngineError::ChecksumMismatch);
        }
        Ok(Some(data))
    }
}

/// Lookups are repeatable: two lookups of the same key on the same storage
/// report the same result, since each reports exactly `spec_lookup`.
pub proof fn lemma_lookup_repeatable(
    s: Storage,
    key: u64,
    r1: Result<Option<Seq<u8>>, EngineError>,
    r2: Result<Option<Seq<u8>>, EngineError>,
)
    requires
        r1 == s.spec_lookup(key),
        r2 == s.spec_lookup(key),
    ensures
        r1 == r2,
{
}

} // verus!
