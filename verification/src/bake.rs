//! Compiling `key,value` text into an immutable storage file image.
//!
//! The input is UTF-8 text, one `key,value` pair per line. The first comma
//! separates the key from the value; leading and trailing whitespace (as
//! `char::is_whitespace` defines it) is trimmed from both fields; blank lines
//! are ignored; lines without a comma are reported and skipped; a key that is
//! not an unsigned 64-bit integer stops the parse.
use crate::checksum::{crc32, crc32_hash};
use crate::codec::{native_byte_order, ByteOrder};
use crate::{
    entry_at, entry_bytes, header_at, header_bytes, push_entry, EngineError, Header, IndexEntry,
    HEADER_SIZE, INDEX_ENTRY_SIZE, STORAGE_MAGIC, STORAGE_VERSION,
};
use vstd::prelude::*;
use vstd::slice::{slice_subrange, slice_to_vec};

verus! {

// ---------------------------------------------------------------------------
// Whitespace
// ---------------------------------------------------------------------------

/// A one-byte whitespace character: tab, line feed, vertical tab, form feed,
/// carriage return or space.
pub open spec fn is_ascii_ws(c: u8) -> bool {
    c == 0x20 || (0x09 <= c && c <= 0x0D)
}

/// The UTF-8 encoding of a two-byte whitespace character (U+0085, U+00A0).
pub open spec fn is_ws2(a: u8, b: u8) -> bool {
    a == 0xC2 && (b == 0x85 || b == 0xA0)
}

/// The UTF-8 encoding of a three-byte whitespace character (U+1680,
/// U+2000..=U+200A, U+2028, U+2029, U+202F, U+205F, U+3000).
pub open spec fn is_ws3(a: u8, b: u8, c: u8) -> bool {
    ||| (a == 0xE1 && b == 0x9A && c == 0x80)
    ||| (a == 0xE2 && b == 0x80 && ((0x80 <= c && c <= 0x8A) || c == 0xA8 || c == 0xA9 || c
        == 0xAF))
    ||| (a == 0xE2 && b == 0x81 && c == 0x9F)
    ||| (a == 0xE3 && b == 0x80 && c == 0x80)
}

/// The length of the whitespace character encoded at `i`, or 0 if none is.
pub open spec fn ws_len_at(t: Seq<u8>, i: int) -> int {
    if i < 0 || i >= t.len() {
        0
    } else if is_ascii_ws(t[i]) {
        1
    } else if i + 1 < t.len() && is_ws2(t[i], t[i + 1]) {
        2
    } else if i + 2 < t.len() && is_ws3(t[i], t[i + 1], t[i + 2]) {
        3
    } else {
        0
    }
}

/// The length of the whitespace character whose encoding ends just before
/// `j`, or 0 if none does.
pub open spec fn ws_len_before(t: Seq<u8>, j: int) -> int {
    if j <= 0 || j > t.len() {
        0
    } else if is_ascii_ws(t[j - 1]) {
        1
    } else if j >= 2 && is_ws2(t[j - 2], t[j - 1]) {
        2
    } else if j >= 3 && is_ws3(t[j - 3], t[j - 2], t[j - 1]) {
        3
    } else {
        0
    }
}

/// The first position at or after `i` that does not start a whitespace character.
pub open spec fn skip_ws(t: Seq<u8>, i: int) -> int
    decreases t.len() - i,
{
    if 0 <= i < t.len() && ws_len_at(t, i) > 0 {
        skip_ws(t, i + ws_len_at(t, i))
    } else {
        i
    }
}

/// The end of `t[lo..j]` once whitespace characters are removed from its end.
pub open spec fn skip_ws_back(t: Seq<u8>, lo: int, j: int) -> int
    decreases j,
{
    if j > lo && ws_len_before(t, j) > 0 && j - ws_len_before(t, j) >= lo {
        skip_ws_back(t, lo, j - ws_len_before(t, j))
    } else {
        j
    }
}

/// `t` without its leading and trailing whitespace.
pub open spec fn trim(t: Seq<u8>) -> Seq<u8> {
    let s = skip_ws(t, 0);
    t.subrange(s, skip_ws_back(t, s, t.len() as int))
}

proof fn lemma_skip_ws_bounds(t: Seq<u8>, i: int)
    requires
        0 <= i <= t.len(),
    ensures
        i <= skip_ws(t, i) <= t.len(),
    decreases t.len() - i,
{
    if 0 <= i < t.len() && ws_len_at(t, i) > 0 {
        lemma_skip_ws_bounds(t, i + ws_len_at(t, i));
    }
}

proof fn lemma_skip_ws_back_bounds(t: Seq<u8>, lo: int, j: int)
    requires
        0 <= lo <= j <= t.len(),
    ensures
        lo <= skip_ws_back(t, lo, j) <= j,
    decreases j,
{
    if j > lo && ws_len_before(t, j) > 0 && j - ws_len_before(t, j) >= lo {
        lemma_skip_ws_back_bounds(t, lo, j - ws_len_before(t, j));
    }
}

/// Executable `ws_len_at`.
fn ws_len_at_exec(t: &[u8], i: usize) -> (r: usize)
    requires
        i < t@.len(),
    ensures
        r == ws_len_at(t@, i as int),
{
    let n = t.len();
    let a = t[i];
    if a == 0x20 || (0x09 <= a && a <= 0x0D) {
        1
    } else if n - i > 1 && a == 0xC2 && (t[i + 1] == 0x85 || t[i + 1] == 0xA0) {
        2
    } else if n - i > 2 && is_ws3_exec(a, t[i + 1], t[i + 2]) {
        3
    } else {
        0
    }
}

fn is_ws3_exec(a: u8, b: u8, c: u8) -> (r: bool)
    ensures
        r == is_ws3(a, b, c),
{
    (a == 0xE1 && b == 0x9A && c == 0x80) || (a == 0xE2 && b == 0x80 && ((0x80 <= c && c <= 0x8A)
        || c == 0xA8 || c == 0xA9 || c == 0xAF)) || (a == 0xE2 && b == 0x81 && c == 0x9F) || (a
        == 0xE3 && b == 0x80 && c == 0x80)
}

/// Executable `ws_len_before`.
fn ws_len_before_exec(t: &[u8], j: usize) -> (r: usize)
    requires
        0 < j <= t@.len(),
    ensures
        r == ws_len_before(t@, j as int),
{
    let a = t[j - 1];
    if a == 0x20 || (0x09 <= a && a <= 0x0D) {
        1
    } else if j >= 2 && t[j - 2] == 0xC2 && (a == 0x85 || a == 0xA0) {
        2
    } else if j >= 3 && is_ws3_exec(t[j - 3], t[j - 2], a) {
        3
    } else {
        0
    }
}

/// The bounds of `t` without its leading and trailing whitespace.
pub fn trim_bounds(t: &[u8]) -> (r: (usize, usize))
    ensures
        r.0 <= r.1 <= t@.len(),
        t@.subrange(r.0 as int, r.1 as int) == trim(t@),
{
    let n = t.len();
    let mut i: usize = 0;
    while i < n && ws_len_at_exec(t, i) > 0
        invariant
            0 <= i <= n,
            n == t@.len(),
            skip_ws(t@, i as int) == skip_ws(t@, 0),
        decreases n - i,
    {
        i = i + ws_len_at_exec(t, i);
    }
    proof {
        lemma_skip_ws_bounds(t@, 0);
    }
    let mut j: usize = n;
    while j > i && ws_len_before_exec(t, j) > 0 && j - ws_len_before_exec(t, j) >= i
        invariant
            i <= j <= n,
            n == t@.len(),
            i == skip_ws(t@, 0),
            skip_ws_back(t@, i as int, j as int) == skip_ws_back(t@, i as int, n as int),
        decreases j,
    {
        j = j - ws_len_before_exec(t, j);
    }
    (i, j)
}

// ---------------------------------------------------------------------------
// Unsigned integers
// ---------------------------------------------------------------------------

/// An ASCII decimal digit.
pub open spec fn is_digit(c: u8) -> bool {
    0x30 <= c && c <= 0x39
}

/// The value of a sequence of decimal digits.
pub open spec fn digits_value(d: Seq<u8>) -> nat
    decreases d.len(),
{
    if d.len() == 0 {
        0
    } else {
        digits_value(d.drop_last()) * 10 + (d.last() - 0x30) as nat
    }
}

/// The digits part of an unsigned integer's text: all of it but a leading `+`.
pub open spec fn unsigned_digits(s: Seq<u8>) -> Seq<u8> {
    if s.len() > 0 && s[0] == 0x2B {
        s.drop_first()
    } else {
        s
    }
}

/// Every byte of `d` is a decimal digit.
pub open spec fn all_digits(d: Seq<u8>) -> bool {
    forall|i: int| 0 <= i < d.len() ==> #[trigger] is_digit(d[i])
}

/// What `str::parse::<u64>` accepts: an optional `+`, then one or more
/// decimal digits whose value fits in 64 bits.
pub open spec fn parse_u64_spec(s: Seq<u8>) -> Option<u64> {
    let d = unsigned_digits(s);
    if d.len() == 0 || !all_digits(d) || digits_value(d) > u64::MAX {
        None
    } else {
        Some(digits_value(d) as u64)
    }
}

/// Parses an unsigned 64-bit decimal integer the way `str::parse::<u64>`
/// does.
pub fn parse_u64(s: &[u8]) -> (r: Option<u64>)
    ensures
        r == parse_u64_spec(s@),
{
    let n = s.len();
    let start: usize = if n > 0 && s[0] == 0x2B {
        1
    } else {
        0
    };
    let ghost d = s@.subrange(start as int, n as int);
    assert(d =~= unsigned_digits(s@));
    if start == n {
        assert(d.len() == 0);
        return None;
    }
    let mut acc: u64 = 0;
    let mut overflow = false;
    let mut i = start;
    while i < n
        invariant
            start <= i <= n,
            n == s@.len(),
            d == s@.subrange(start as int, n as int),
            d == unsigned_digits(s@),
            forall|k: int| start <= k < i ==> #[trigger] is_digit(s@[k]),
            !overflow ==> acc == digits_value(s@.subrange(start as int, i as int)),
            overflow ==> digits_value(s@.subrange(start as int, i as int)) > u64::MAX,
        decreases n - i,
    {
        let c = s[i];
        if !(0x30 <= c && c <= 0x39) {
            assert(!is_digit(d[i - start]));
            return None;
        }
        let ghost prefix = s@.subrange(start as int, i + 1);
        assert(prefix.drop_last() =~= s@.subrange(start as int, i as int));
        if !overflow {
            match acc.checked_mul(10) {
                None => {
                    overflow = true;
                },
                Some(m) => match m.checked_add((c - 0x30) as u64) {
                    None => {
                        overflow = true;
                    },
                    Some(v) => {
                        acc = v;
                    },
                },
            }
        }
        i = i + 1;
    }
    assert(s@.subrange(start as int, n as int) =~= d);
    assert forall|k: int| 0 <= k < d.len() implies #[trigger] is_digit(d[k]) by {
        assert(is_digit(s@[start + k]));
    }
    if overflow {
        None
    } else {
        Some(acc)
    }
}

// ---------------------------------------------------------------------------
// Lines
// ---------------------------------------------------------------------------

/// The first index at or after `i` holding byte `c`, or `t.len()`.
pub open spec fn find_from(t: Seq<u8>, c: u8, i: int) -> int
    decreases t.len() - i,
{
    if i < 0 || i >= t.len() {
        t.len() as int
    } else if t[i] == c {
        i
    } else {
        find_from(t, c, i + 1)
    }
}

pub proof fn lemma_find_from_bounds(t: Seq<u8>, c: u8, i: int)
    requires
        0 <= i <= t.len(),
    ensures
        i <= find_from(t, c, i) <= t.len(),
        find_from(t, c, i) < t.len() ==> t[find_from(t, c, i)] == c,
        forall|k: int| i <= k < find_from(t, c, i) ==> t[k] != c,
    decreases t.len() - i,
{
    if i < t.len() && t[i] != c {
        lemma_find_from_bounds(t, c, i + 1);
    }
}

fn find_byte(t: &[u8], c: u8, from: usize) -> (r: usize)
    requires
        from <= t@.len(),
    ensures
        r == find_from(t@, c, from as int),
        from <= r <= t@.len(),
{
    let n = t.len();
    let mut i = from;
    while i < n && t[i] != c
        invariant
            from <= i <= n,
            n == t@.len(),
            find_from(t@, c, i as int) == find_from(t@, c, from as int),
        decreases n - i,
    {
        i = i + 1;
    }
    i
}

/// The text of the line that starts at `start` and whose `\n` (or the end of
/// input) is at `end`, without a `\r` that precedes the `\n`.
pub open spec fn line_text(b: Seq<u8>, start: int, end: int) -> Seq<u8> {
    if end < b.len() && end > start && b[end - 1] == 0x0D {
        b.subrange(start, end - 1)
    } else {
        b.subrange(start, end)
    }
}

/// A key that does not parse: the line's number and the text before its comma.
pub struct InvalidKey {
    pub line: usize,
    pub key_text: Vec<u8>,
}

/// A non-blank line without a comma: its number and its text.
pub struct SkippedLine {
    pub line: usize,
    pub text: Vec<u8>,
}

/// What the parse of an input found: the entries in input order, the lines
/// skipped for want of a comma, and the line whose key stopped the parse.
pub struct ParsedInput {
    pub entries: Vec<(u64, Vec<u8>)>,
    pub skipped: Vec<SkippedLine>,
    pub invalid_key: Option<InvalidKey>,
}

/// The mathematical form of a parse: entries, skipped lines, and the invalid key.
pub type ParseView = (Seq<(u64, Seq<u8>)>, Seq<(int, Seq<u8>)>, Option<(int, Seq<u8>)>);

/// The parse of the lines from byte `pos` on, the first of them numbered `no`.
pub open spec fn parse_from(b: Seq<u8>, pos: int, no: int) -> ParseView
    decreases b.len() + 1 - pos via parse_from_decreases
{
    if pos < 0 || pos >= b.len() {
        (seq![], seq![], None)
    } else {
        let e = find_from(b, 0x0A, pos);
        let t = line_text(b, pos, e);
        let rest = parse_from(b, e + 1, no + 1);
        if trim(t).len() == 0 {
            rest
        } else {
            let p = find_from(t, 0x2C, 0);
            if p >= t.len() {
                (rest.0, seq![(no, t)] + rest.1, rest.2)
            } else {
                match parse_u64_spec(trim(t.subrange(0, p))) {
                    None => (seq![], seq![], Some((no, t.subrange(0, p)))),
                    Some(k) => (
                        seq![(k, trim(t.subrange(p + 1, t.len() as int)))] + rest.0,
                        rest.1,
                        rest.2,
                    ),
                }
            }
        }
    }
}

#[via_fn]
proof fn parse_from_decreases(b: Seq<u8>, pos: int, no: int) {
    if !(pos < 0 || pos >= b.len()) {
        lemma_find_from_bounds(b, 0x0A, pos);
    }
}

/// The parse of a whole input.
pub open spec fn parse_spec(b: Seq<u8>) -> ParseView {
    parse_from(b, 0, 1)
}

/// The entries of a parse as mathematical values.
pub open spec fn entries_view(es: Seq<(u64, Vec<u8>)>) -> Seq<(u64, Seq<u8>)> {
    es.map_values(|e: (u64, Vec<u8>)| (e.0, e.1@))
}

impl ParsedInput {
    /// The parse as mathematical values.
    pub open spec fn view(&self) -> ParseView {
        (
            entries_view(self.entries@),
            self.skipped@.map_values(|s: SkippedLine| (s.line as int, s.text@)),
            match self.invalid_key {
                Some(k) => Some((k.line as int, k.key_text@)),
                None => None,
            },
        )
    }
}

/// Parses `key,value` lines: each non-blank line with a comma gives an entry
/// of its trimmed, parsed key and its trimmed value; lines without a comma are
/// listed as skipped; the first key that does not parse stops the parse.
pub fn parse_input(content: &[u8]) -> (r: ParsedInput)
    ensures
        r.view() == parse_spec(content@),
{
    let n = content.len();
    let mut entries: Vec<(u64, Vec<u8>)> = Vec::new();
    let mut skipped: Vec<SkippedLine> = Vec::new();
    let mut pos: usize = 0;
    let mut done: usize = 0;
    while pos < n
        invariant
            n == content@.len(),
            pos <= n,
            done <= pos,
            parse_spec(content@) == ({
                let rest = parse_from(content@, pos as int, done + 1);
                (
                    entries_view(entries@) + rest.0,
                    skipped@.map_values(|s: SkippedLine| (s.line as int, s.text@)) + rest.1,
                    rest.2,
                )
            }),
        decreases n - pos,
    {
        let ghost old_entries = entries_view(entries@);
        let ghost old_skipped = skipped@.map_values(|s: SkippedLine| (s.line as int, s.text@));
        let no = done + 1;
        let e = find_byte(content, 0x0A, pos);
        proof {
            lemma_find_from_bounds(content@, 0x0A, pos as int);
        }
        let text_end = if e < n && e > pos && content[e - 1] == 0x0D {
            e - 1
        } else {
            e
        };
        let line = slice_subrange(content, pos, text_end);
        let ghost t = line_text(content@, pos as int, e as int);
        assert(line@ == t);
        let next: usize = if e < n {
            e + 1
        } else {
            n
        };
        let ghost rest = parse_from(content@, next as int, no + 1);
        assert(rest == parse_from(content@, e + 1, no + 1));
        let (ts, te) = trim_bounds(line);
        if ts == te {
            assert(trim(t).len() == 0);
        } else {
            let p = find_byte(line, 0x2C, 0);
            proof {
                lemma_find_from_bounds(t, 0x2C, 0);
            }
            if p == line.len() {
                skipped.push(SkippedLine { line: no, text: slice_to_vec(line) });
                proof {
                    let sk = skipped@.map_values(|s: SkippedLine| (s.line as int, s.text@));
                    assert(sk =~= old_skipped.push((no as int, t)));
                    assert(old_skipped + (seq![(no as int, t)] + rest.1) =~= sk + rest.1);
                }
            } else {
                let key_part = slice_subrange(line, 0, p);
                let (ks, ke) = trim_bounds(key_part);
                let key_text = slice_subrange(key_part, ks, ke);
                match parse_u64(key_text) {
                    None => {
                        proof {
                            assert(old_entries + seq![] =~= old_entries);
                            assert(old_skipped + seq![] =~= old_skipped);
                        }
                        return ParsedInput {
                            entries,
                            skipped,
                            invalid_key: Some(InvalidKey { line: no, key_text: slice_to_vec(key_part) }),
                        };
                    },
                    Some(k) => {
                        let val_part = slice_subrange(line, p + 1, line.len());
                        let (vs, ve) = trim_bounds(val_part);
                        let value = slice_to_vec(slice_subrange(val_part, vs, ve));
                        entries.push((k, value));
                        proof {
                            let ev = entries_view(entries@);
                            assert(ev =~= old_entries.push((k, trim(t.subrange(p + 1, t.len() as int)))));
                            assert(old_entries + (seq![(k, trim(t.subrange(p + 1, t.len() as int)))] + rest.0)
                                =~= ev + rest.0);
                        }
                    },
                }
            }
        }
        pos = next;
        done = done + 1;
    }
    let r = ParsedInput { entries, skipped, invalid_key: None };
    proof {
        assert(entries_view(r.entries@) + seq![] =~= entries_view(r.entries@));
        assert(r.skipped@.map_values(|s: SkippedLine| (s.line as int, s.text@)) + seq![]
            =~= r.skipped@.map_values(|s: SkippedLine| (s.line as int, s.text@)));
    }
    r
}

// ---------------------------------------------------------------------------
// Ordering the entries
// ---------------------------------------------------------------------------

/// `p` lists each of `0..n` exactly once.
pub open spec fn is_permutation(p: Seq<int>, n: int) -> bool {
    &&& p.len() == n
    &&& forall|i: int| 0 <= i < n ==> 0 <= #[trigger] p[i] < n
    &&& forall|i: int, j: int| 0 <= i < j < n ==> #[trigger] p[i] != #[trigger] p[j]
    &&& forall|k: int| 0 <= k < n ==> #[trigger] lists(p, k)
}

/// Some position of `p` holds `k`.
pub open spec fn lists(p: Seq<int>, k: int) -> bool {
    exists|i: int| 0 <= i < p.len() && #[trigger] p[i] == k
}

/// Taking the entries of `es` in the order `p` lists them gives them in
/// ascending key order, entries with equal keys in their input order: the
/// outcome of a stable sort by key.
pub open spec fn is_stable_key_order(es: Seq<(u64, Seq<u8>)>, p: Seq<int>) -> bool {
    &&& is_permutation(p, es.len() as int)
    &&& forall|i: int, j: int|
        #![trigger es[p[i]], es[p[j]]]
        0 <= i <= j < es.len() ==> es[p[i]].0 <= es[p[j]].0
    &&& forall|i: int, j: int|
        #![trigger es[p[i]], es[p[j]]]
        0 <= i < j < es.len() && es[p[i]].0 == es[p[j]].0 ==> p[i] < p[j]
}

/// The entries of `es` in the order `p` lists them.
pub open spec fn rearranged(es: Seq<(u64, Seq<u8>)>, p: Seq<int>) -> Seq<(u64, Seq<u8>)> {
    Seq::new(es.len(), |i: int| es[p[i]])
}

/// Calls `slice::sort_by_key` with the pair's first component as the key.
/// Trusted: std documents the sort as stable, so the result is a
/// rearrangement of the input, in ascending order of first components, in
/// which pairs with equal first components keep their relative order.
#[verifier::external_body]
fn sort_by_first(v: &mut Vec<(u64, usize)>)
    ensures
        final(v)@.len() == old(v)@.len(),
        forall|i: int, j: int|
            #![trigger final(v)@[i], final(v)@[j]]
            0 <= i <= j < final(v)@.len() ==> final(v)@[i].0 <= final(v)@[j].0,
        exists|p: Seq<int>|
            {
                &&& is_permutation(p, old(v)@.len() as int)
                &&& forall|i: int|
                    0 <= i < old(v)@.len() ==> #[trigger] final(v)@[i] == old(v)@[p[i]]
                &&& forall|i: int, j: int|
                    #![trigger final(v)@[i], final(v)@[j]]
                    0 <= i < j < old(v)@.len() && final(v)@[i].0 == final(v)@[j].0 ==> p[i]
                        < p[j]
            },
{
    v.sort_by_key(|e| e.0);
}

// ---------------------------------------------------------------------------
// The layout of a baked file
// ---------------------------------------------------------------------------

/// The zero bytes that follow a value of length `l` so that the next value
/// starts on an 8-byte boundary.
pub open spec fn pad_len(l: nat) -> nat {
    if l % 8 == 0 {
        0
    } else {
        (8 - l % 8) as nat
    }
}

/// A value followed by its padding.
pub open spec fn padded(v: Seq<u8>) -> Seq<u8> {
    v + Seq::new(pad_len(v.len()), |_i: int| 0u8)
}

/// The value section: every value, padded, in order.
pub open spec fn data_section(s: Seq<(u64, Seq<u8>)>) -> Seq<u8>
    decreases s.len(),
{
    if s.len() == 0 {
        seq![]
    } else {
        data_section(s.drop_last()) + padded(s.last().1)
    }
}

/// The length of the value section.
pub open spec fn data_size(s: Seq<(u64, Seq<u8>)>) -> nat
    decreases s.len(),
{
    if s.len() == 0 {
        0
    } else {
        data_size(s.drop_last()) + s.last().1.len() + pad_len(s.last().1.len())
    }
}

/// Where the value section starts in a file of `n` entries.
pub open spec fn data_start(n: nat) -> int {
    HEADER_SIZE + INDEX_ENTRY_SIZE * n
}

/// The size of the file baked from `s`.
pub open spec fn baked_size(s: Seq<(u64, Seq<u8>)>) -> int {
    data_start(s.len()) + data_size(s)
}

/// Where the value of entry `i` starts.
pub open spec fn value_offset(s: Seq<(u64, Seq<u8>)>, i: int) -> int {
    data_start(s.len()) + data_size(s.take(i))
}

/// The index entry of `s[i]`.
pub open spec fn baked_entry(s: Seq<(u64, Seq<u8>)>, i: int) -> IndexEntry {
    IndexEntry {
        key: s[i].0,
        val_offset: value_offset(s, i) as u64,
        val_len: s[i].1.len() as u32,
        val_checksum: crc32(s[i].1),
    }
}

/// The first `k` index entries of the file baked from `s`.
pub open spec fn index_section(s: Seq<(u64, Seq<u8>)>, o: ByteOrder, k: int) -> Seq<u8>
    decreases k,
{
    if k <= 0 {
        seq![]
    } else {
        index_section(s, o, k - 1) + entry_bytes(baked_entry(s, k - 1), o)
    }
}

/// The header of a file of `n` entries, with its CRC32.
pub open spec fn baked_header(n: nat, o: ByteOrder) -> Header {
    let h0 = Header {
        magic: STORAGE_MAGIC,
        version: STORAGE_VERSION,
        count: n as u64,
        header_checksum: 0,
        _padding: 0,
    };
    Header { header_checksum: crc32(header_bytes(h0, o)), ..h0 }
}

/// The file baked from the entries `s`, already in key order.
pub open spec fn baked_image(s: Seq<(u64, Seq<u8>)>, o: ByteOrder) -> Seq<u8> {
    header_bytes(baked_header(s.len(), o), o) + index_section(s, o, s.len() as int)
        + data_section(s)
}

/// `image` is the file baked from `es`: the entries stably sorted by key, then
/// laid out as header, index and padded values.
pub open spec fn is_baked_image(es: Seq<(u64, Seq<u8>)>, o: ByteOrder, image: Seq<u8>) -> bool {
    exists|p: Seq<int>| is_stable_key_order(es, p) && image == baked_image(rearranged(es, p), o)
}

/// Inputs that a file can hold: each value's length fits the 32-bit length
/// field, and the whole file fits in memory.
pub open spec fn bakeable(es: Seq<(u64, Seq<u8>)>) -> bool {
    &&& forall|i: int| 0 <= i < es.len() ==> #[trigger] es[i].1.len() <= u32::MAX
    &&& baked_size(es) <= usize::MAX
}

/// Why a bake produced no file.
#[derive(Debug, PartialEq, Eq, Structural, Clone, Copy)]
pub enum BakeError {
    /// The input held no entry.
    NoEntries,
}

// ---------------------------------------------------------------------------
// Facts about the layout
// ---------------------------------------------------------------------------

proof fn lemma_data_section_len(s: Seq<(u64, Seq<u8>)>)
    ensures
        data_section(s).len() == data_size(s),
    decreases s.len(),
{
    if s.len() > 0 {
        lemma_data_section_len(s.drop_last());
    }
}

/// The value section of the first `i` entries starts the value section of the
/// first `j`.
proof fn lemma_data_prefix(s: Seq<(u64, Seq<u8>)>, i: int, j: int)
    requires
        0 <= i <= j <= s.len(),
    ensures
        data_size(s.take(i)) <= data_size(s.take(j)),
        data_section(s.take(j)).subrange(0, data_size(s.take(i)) as int) == data_section(
            s.take(i),
        ),
    decreases j - i,
{
    lemma_data_section_len(s.take(i));
    lemma_data_section_len(s.take(j));
    if i == j {
        assert(data_section(s.take(j)).subrange(0, data_size(s.take(i)) as int) =~= data_section(
            s.take(i),
        ));
    } else {
        lemma_data_prefix(s, i, j - 1);
        assert(s.take(j).drop_last() =~= s.take(j - 1));
        lemma_data_section_len(s.take(j - 1));
        assert(data_section(s.take(j)).subrange(0, data_size(s.take(i)) as int) =~= data_section(
            s.take(j - 1),
        ).subrange(0, data_size(s.take(i)) as int));
    }
}

/// The value of entry `i` lies in the value section at its offset.
proof fn lemma_value_in_data(s: Seq<(u64, Seq<u8>)>, i: int)
    requires
        0 <= i < s.len(),
    ensures
        data_size(s.take(i)) + s[i].1.len() <= data_size(s),
        data_section(s).subrange(
            data_size(s.take(i)) as int,
            (data_size(s.take(i)) + s[i].1.len()) as int,
        ) == s[i].1,
{
    lemma_data_prefix(s, i + 1, s.len() as int);
    assert(s.take(s.len() as int) =~= s);
    let t = s.take(i + 1);
    assert(t.drop_last() =~= s.take(i));
    lemma_data_section_len(s.take(i));
    lemma_data_section_len(t);
    let d = data_size(s.take(i)) as int;
    let l = s[i].1.len() as int;
    lemma_data_section_len(s);
    assert(data_section(t).subrange(d, d + l) =~= s[i].1);
    let prefix = data_section(s).subrange(0, data_size(t) as int);
    assert(prefix == data_section(t));
    assert(d + l <= data_size(t));
    assert(data_section(s).subrange(d, d + l) =~= prefix.subrange(d, d + l));
}

proof fn lemma_data_size_remove(s: Seq<(u64, Seq<u8>)>, k: int)
    requires
        0 <= k < s.len(),
    ensures
        data_size(s) == data_size(s.remove(k)) + s[k].1.len() + pad_len(s[k].1.len()),
    decreases s.len(),
{
    if k == s.len() - 1 {
        assert(s.remove(k) =~= s.drop_last());
    } else {
        lemma_data_size_remove(s.drop_last(), k);
        assert(s.remove(k).drop_last() =~= s.drop_last().remove(k));
        assert(s.remove(k).last() == s.last());
    }
}

/// Rearranging the entries does not change the size of the value section.
proof fn lemma_data_size_rearranged(es: Seq<(u64, Seq<u8>)>, p: Seq<int>)
    requires
        is_permutation(p, es.len() as int),
    ensures
        data_size(rearranged(es, p)) == data_size(es),
    decreases es.len(),
{
    let n = es.len() as int;
    let t = rearranged(es, p);
    if n == 0 {
        assert(t =~= Seq::<(u64, Seq<u8>)>::empty());
        return;
    }
    assert(lists(p, n - 1));
    let k = choose|i: int| 0 <= i < p.len() && p[i] == n - 1;
    let es2 = es.drop_last();
    let p2 = p.remove(k);
    assert forall|i: int| 0 <= i < n - 1 implies 0 <= #[trigger] p2[i] < n - 1 by {
        if i < k {
            assert(p2[i] == p[i]);
            assert(p[i] != p[k]);
        } else {
            assert(p2[i] == p[i + 1]);
            assert(p[k] != p[i + 1]);
        }
    }
    assert forall|i: int, j: int| 0 <= i < j < n - 1 implies #[trigger] p2[i] != #[trigger] p2[j] by {
        let a = if i < k { i } else { i + 1 };
        let b = if j < k { j } else { j + 1 };
        assert(p2[i] == p[a]);
        assert(p2[j] == p[b]);
        assert(p[a] != p[b]);
    }
    assert forall|m: int| 0 <= m < n - 1 implies #[trigger] lists(p2, m) by {
        assert(lists(p, m));
        let i = choose|i: int| 0 <= i < p.len() && p[i] == m;
        assert(i != k);
        if i < k {
            assert(p2[i] == m);
        } else {
            assert(p2[i - 1] == m);
        }
    }
    lemma_data_size_rearranged(es2, p2);
    assert(rearranged(es2, p2) =~= t.remove(k)) by {
        assert forall|i: int| 0 <= i < n - 1 implies rearranged(es2, p2)[i] == t.remove(k)[i] by {
            if i < k {
                assert(t.remove(k)[i] == t[i]);
            } else {
                assert(t.remove(k)[i] == t[i + 1]);
            }
        }
    }
    lemma_data_size_remove(t, k);
    assert(t[k] == es.last());
}

/// The index section holds one 24-byte entry per position.
proof fn lemma_index_section(s: Seq<(u64, Seq<u8>)>, o: ByteOrder, k: int)
    requires
        0 <= k,
    ensures
        index_section(s, o, k).len() == INDEX_ENTRY_SIZE * k,
        forall|i: int|
            0 <= i < k ==> index_section(s, o, k).subrange(
                INDEX_ENTRY_SIZE * i,
                INDEX_ENTRY_SIZE * i + INDEX_ENTRY_SIZE,
            ) == entry_bytes(#[trigger] baked_entry(s, i), o),
    decreases k,
{
    if k > 0 {
        lemma_index_section(s, o, k - 1);
        crate::lemma_entry_roundtrip(baked_entry(s, k - 1), o);
        let a = index_section(s, o, k - 1);
        let b = entry_bytes(baked_entry(s, k - 1), o);
        assert forall|i: int| 0 <= i < k implies index_section(s, o, k).subrange(
            INDEX_ENTRY_SIZE * i,
            INDEX_ENTRY_SIZE * i + INDEX_ENTRY_SIZE,
        ) == entry_bytes(#[trigger] baked_entry(s, i), o) by {
            if i < k - 1 {
                assert(INDEX_ENTRY_SIZE * i + INDEX_ENTRY_SIZE <= INDEX_ENTRY_SIZE * (k - 1));
                assert((a + b).subrange(INDEX_ENTRY_SIZE * i, INDEX_ENTRY_SIZE * i + INDEX_ENTRY_SIZE)
                    =~= a.subrange(INDEX_ENTRY_SIZE * i, INDEX_ENTRY_SIZE * i + INDEX_ENTRY_SIZE));
            } else {
                assert((a + b).subrange(INDEX_ENTRY_SIZE * i, INDEX_ENTRY_SIZE * i + INDEX_ENTRY_SIZE)
                    =~= b);
            }
        }
    }
}

// ---------------------------------------------------------------------------
// Baking
// ---------------------------------------------------------------------------

/// Appends `count` zero bytes.
fn push_zeros(out: &mut Vec<u8>, count: usize)
    ensures
        final(out)@ == old(out)@ + Seq::new(count as nat, |_i: int| 0u8),
{
    let ghost start = out@;
    let mut z: usize = 0;
    while z < count
        invariant
            z <= count,
            out@ == start + Seq::new(z as nat, |_i: int| 0u8),
        decreases count - z,
    {
        out.push(0);
        z = z + 1;
        assert(out@ =~= start + Seq::new(z as nat, |_i: int| 0u8));
    }
}

/// Compiles entries into a storage file image whose integers are in byte
/// order `order`: the entries stably sorted by key, a header with its CRC32,
/// one index entry per value (offset, length and CRC32 of the value), then
/// the values, each padded to an 8-byte boundary.
pub fn bake_with_order(entries: Vec<(u64, Vec<u8>)>, order: ByteOrder) -> (r: Result<
    Vec<u8>,
    BakeError,
>)
    requires
        bakeable(entries_view(entries@)),
    ensures
        entries@.len() == 0 ==> r == Err::<Vec<u8>, BakeError>(BakeError::NoEntries),
        entries@.len() > 0 ==> (r matches Ok(image) && is_baked_image(
            entries_view(entries@),
            order,
            image@,
        )),
{
    let n = entries.len();
    if n == 0 {
        return Err(BakeError::NoEntries);
    }
    let ghost es = entries_view(entries@);
    let mut keys: Vec<(u64, usize)> = Vec::new();
    let mut i: usize = 0;
    while i < n
        invariant
            i <= n,
            n == entries@.len(),
            es == entries_view(entries@),
            keys@.len() == i,
            forall|k: int| 0 <= k < i ==> #[trigger] keys@[k] == (es[k].0, k as usize),
        decreases n - i,
    {
        keys.push((entries[i].0, i));
        i = i + 1;
    }
    let ghost before = keys@;
    sort_by_first(&mut keys);
    let ghost p = choose|p: Seq<int>|
        {
            &&& is_permutation(p, before.len() as int)
            &&& forall|i: int| 0 <= i < before.len() ==> #[trigger] keys@[i] == before[p[i]]
            &&& forall|i: int, j: int|
                #![trigger keys@[i], keys@[j]]
                0 <= i < j < before.len() && keys@[i].0 == keys@[j].0 ==> p[i] < p[j]
        };
    let ghost s = rearranged(es, p);
    proof {
        assert forall|k: int| 0 <= k < n implies #[trigger] keys@[k] == (s[k].0, p[k] as usize) by {
            assert(keys@[k] == before[p[k]]);
        }
        assert forall|a: int, b: int| 0 <= a <= b < n implies #[trigger] es[p[a]].0 <= #[trigger] es[
            p[b]].0 by {
            assert(keys@[a] == before[p[a]]);
            assert(keys@[b] == before[p[b]]);
        }
        assert forall|a: int, b: int|
            0 <= a < b < n && #[trigger] es[p[a]].0 == #[trigger] es[p[b]].0 implies p[a] < p[b] by {
            assert(keys@[a] == before[p[a]]);
            assert(keys@[b] == before[p[b]]);
        }
        assert(is_stable_key_order(es, p));
        lemma_data_size_rearranged(es, p);
        lemma_data_section_len(s);
    }
    let h0 = Header {
        magic: STORAGE_MAGIC,
        version: STORAGE_VERSION,
        count: n as u64,
        header_checksum: 0,
        _padding: 0,
    };
    let zeroed = h0.to_bytes(order);
    let checksum = crc32_hash(zeroed.as_slice());
    let header = Header { header_checksum: checksum, ..h0 };
    assert(header == baked_header(s.len(), order));
    let mut image = header.to_bytes(order);
    let ghost head = image@;
    let mut offset: u64 = (HEADER_SIZE + INDEX_ENTRY_SIZE * n) as u64;
    assert(s.take(0) =~= Seq::<(u64, Seq<u8>)>::empty());
    let mut k: usize = 0;
    while k < n
        invariant
            k <= n,
            n == entries@.len(),
            n == s.len(),
            es == entries_view(entries@),
            s == rearranged(es, p),
            is_permutation(p, n as int),
            bakeable(es),
            baked_size(s) <= usize::MAX,
            keys@.len() == n,
            forall|j: int| 0 <= j < n ==> #[trigger] keys@[j] == (s[j].0, p[j] as usize),
            image@ == head + index_section(s, order, k as int),
            offset == value_offset(s, k as int),
            offset % 8 == 0,
        decreases n - k,
    {
        let idx = keys[k].1;
        let value = &entries[idx].1;
        assert(value@ == s[k as int].1);
        proof {
            lemma_data_prefix(s, k as int + 1, n as int);
            assert(s.take(n as int) =~= s);
            assert(s.take(k + 1).drop_last() =~= s.take(k as int));
        }
        let len = value.len();
        let entry = IndexEntry {
            key: keys[k].0,
            val_offset: offset,
            val_len: len as u32,
            val_checksum: crc32_hash(value.as_slice()),
        };
        assert(entry == baked_entry(s, k as int));
        push_entry(&mut image, &entry, order);
        offset = offset + len as u64;
        let rem = offset % 8;
        assert(rem == len % 8) by (nonlinear_arith)
            requires
                offset == value_offset(s, k as int) + len,
                value_offset(s, k as int) % 8 == 0,
                rem == offset % 8,
        ;
        if rem != 0 {
            offset = offset + (8 - rem);
        }
        k = k + 1;
    }
    let ghost with_index = image@;
    let mut k: usize = 0;
    while k < n
        invariant
            k <= n,
            n == entries@.len(),
            n == s.len(),
            es == entries_view(entries@),
            s == rearranged(es, p),
            is_permutation(p, n as int),
            keys@.len() == n,
            forall|j: int| 0 <= j < n ==> #[trigger] keys@[j] == (s[j].0, p[j] as usize),
            image@ == with_index + data_section(s.take(k as int)),
        decreases n - k,
    {
        let idx = keys[k].1;
        let value = &entries[idx].1;
        assert(value@ == s[k as int].1);
        let ghost before_value = image@;
        image.extend_from_slice(value.as_slice());
        assert(image@ =~= before_value + value@);
        let rem = value.len() % 8;
        if rem != 0 {
            push_zeros(&mut image, 8 - rem);
        } else {
            push_zeros(&mut image, 0);
        }
        proof {
            assert(s.take(k + 1).drop_last() =~= s.take(k as int));
            assert(image@ =~= with_index + data_section(s.take(k + 1)));
        }
        k = k + 1;
    }
    assert(s.take(n as int) =~= s);
    Ok(image)
}

/// Whether the entries can be baked: every value's length fits the 32-bit
/// length field and the whole file fits in memory.
pub fn check_bakeable(entries: &Vec<(u64, Vec<u8>)>) -> (r: bool)
    ensures
        r == bakeable(entries_view(entries@)),
{
    let ghost es = entries_view(entries@);
    let n = entries.len();
    // The file size so far: header, index, and the padded values of the first `i` entries.
    let mut size: usize = HEADER_SIZE;
    let mut i: usize = 0;
    while i < n
        invariant
            i <= n,
            n == es.len(),
            es == entries_view(entries@),
            size == HEADER_SIZE + INDEX_ENTRY_SIZE * i,
            forall|k: int| 0 <= k < i ==> #[trigger] es[k].1.len() <= u32::MAX,
        decreases n - i,
    {
        let len = entries[i].1.len();
        assert(es[i as int].1.len() == len);
        if len > u32::MAX as usize {
            return false;
        }
        if size > usize::MAX - INDEX_ENTRY_SIZE {
            proof {
                lemma_baked_size_grows(es, i as int);
            }
            return false;
        }
        size = size + INDEX_ENTRY_SIZE;
        i = i + 1;
    }
    let mut j: usize = 0;
    while j < n
        invariant
            j <= n,
            n == es.len(),
            es == entries_view(entries@),
            size == HEADER_SIZE + INDEX_ENTRY_SIZE * n + data_size(es.take(j as int)),
            forall|k: int| 0 <= k < n ==> #[trigger] es[k].1.len() <= u32::MAX,
        decreases n - j,
    {
        let len = entries[j].1.len();
        let pad: usize = if len % 8 == 0 {
            0
        } else {
            8 - len % 8
        };
        proof {
            assert(es.take(j + 1).drop_last() =~= es.take(j as int));
            lemma_data_prefix(es, j + 1, n as int);
            assert(es.take(n as int) =~= es);
        }
        if size > usize::MAX - len || size + len > usize::MAX - pad {
            return false;
        }
        size = size + len + pad;
        j = j + 1;
    }
    assert(es.take(n as int) =~= es);
    true
}

/// A file of `i` or more entries is at least as large as its header and the
/// index entries of the first `i + 1` of them.
proof fn lemma_baked_size_grows(es: Seq<(u64, Seq<u8>)>, i: int)
    requires
        0 <= i < es.len(),
    ensures
        baked_size(es) >= HEADER_SIZE + INDEX_ENTRY_SIZE * (i + 1),
{
    assert(INDEX_ENTRY_SIZE * (i + 1) <= INDEX_ENTRY_SIZE * es.len()) by (nonlinear_arith)
        requires
            i + 1 <= es.len(),
            INDEX_ENTRY_SIZE == 24,
    ;
}

/// Compiles entries into a storage file image in the host's byte order.
pub fn bake(entries: Vec<(u64, Vec<u8>)>) -> (r: Result<Vec<u8>, BakeError>)
    requires
        bakeable(entries_view(entries@)),
    ensures
        entries@.len() == 0 ==> r == Err::<Vec<u8>, BakeError>(BakeError::NoEntries),
        entries@.len() > 0 ==> (r matches Ok(image) && (is_baked_image(
            entries_view(entries@),
            ByteOrder::Little,
            image@,
        ) || is_baked_image(entries_view(entries@), ByteOrder::Big, image@))),
{
    let order = native_byte_order();
    bake_with_order(entries, order)
}

// ---------------------------------------------------------------------------
// Reading back a baked file
// ---------------------------------------------------------------------------

proof fn lemma_header_at_prefix(b: Seq<u8>, c: Seq<u8>, o: ByteOrder)
    requires
        c.len() == HEADER_SIZE,
        b.len() >= HEADER_SIZE,
        b.subrange(0, HEADER_SIZE as int) == c,
    ensures
        header_at(b, o) == header_at(c, o),
{
    assert(b.subrange(0, 8) =~= c.subrange(0, 8));
    assert(b.subrange(8, 16) =~= c.subrange(8, 16));
    assert(b.subrange(16, 24) =~= c.subrange(16, 24));
    assert(b.subrange(24, 28) =~= c.subrange(24, 28));
    assert(b.subrange(28, 32) =~= c.subrange(28, 32));
}

proof fn lemma_entry_at_slice(b: Seq<u8>, pos: int, c: Seq<u8>, o: ByteOrder)
    requires
        c.len() == INDEX_ENTRY_SIZE,
        0 <= pos,
        pos + INDEX_ENTRY_SIZE <= b.len(),
        b.subrange(pos, pos + INDEX_ENTRY_SIZE) == c,
    ensures
        entry_at(b, pos, o) == entry_at(c, 0, o),
{
    assert(b.subrange(pos, pos + 8) =~= c.subrange(0, 8));
    assert(b.subrange(pos + 8, pos + 16) =~= c.subrange(8, 16));
    assert(b.subrange(pos + 16, pos + 20) =~= c.subrange(16, 20));
    assert(b.subrange(pos + 20, pos + 24) =~= c.subrange(20, 24));
}

/// In a baked file, index entry `i` is the entry baked for `s[i]`.
proof fn lemma_baked_index_entry(s: Seq<(u64, Seq<u8>)>, o: ByteOrder, i: int)
    requires
        0 <= i < s.len(),
    ensures
        crate::storage::index_entry(baked_image(s, o), o, i) == baked_entry(s, i),
{
    let n = s.len() as int;
    let image = baked_image(s, o);
    let hb = header_bytes(baked_header(s.len(), o), o);
    let ib = index_section(s, o, n);
    crate::lemma_header_roundtrip(baked_header(s.len(), o), o);
    lemma_index_section(s, o, n);
    let pos = HEADER_SIZE + INDEX_ENTRY_SIZE * i;
    assert(INDEX_ENTRY_SIZE * i + INDEX_ENTRY_SIZE <= INDEX_ENTRY_SIZE * n) by (nonlinear_arith)
        requires
            i < n,
            INDEX_ENTRY_SIZE == 24,
    ;
    let eb = entry_bytes(baked_entry(s, i), o);
    assert(ib.subrange(INDEX_ENTRY_SIZE * i, INDEX_ENTRY_SIZE * i + INDEX_ENTRY_SIZE) == eb);
    assert(image.subrange(pos, pos + INDEX_ENTRY_SIZE) =~= eb);
    crate::lemma_entry_roundtrip(baked_entry(s, i), o);
    lemma_entry_at_slice(image, pos, eb, o);
}

/// In a baked file, a lookup that lands on the entry baked for `s[i]`
/// reports `s[i]`'s value.
proof fn lemma_baked_value(s: Seq<(u64, Seq<u8>)>, o: ByteOrder, i: int)
    requires
        0 <= i < s.len(),
        bakeable(s),
    ensures
        crate::storage::entry_outcome(baked_image(s, o), baked_entry(s, i)) == Ok::<
            Option<Seq<u8>>,
            EngineError,
        >(Some(s[i].1)),
{
    let n = s.len() as int;
    let image = baked_image(s, o);
    let hb = header_bytes(baked_header(s.len(), o), o);
    let ib = index_section(s, o, n);
    let db = data_section(s);
    crate::lemma_header_roundtrip(baked_header(s.len(), o), o);
    lemma_index_section(s, o, n);
    lemma_data_section_len(s);
    lemma_value_in_data(s, i);
    lemma_data_prefix(s, i, n);
    assert(s.take(n) =~= s);
    let d = data_size(s.take(i)) as int;
    let l = s[i].1.len() as int;
    let start = data_start(s.len()) + d;
    assert(start + l <= baked_size(s));
    assert(l <= u32::MAX);
    let e = baked_entry(s, i);
    assert(e.val_offset == start);
    assert(e.val_len == l);
    assert(image.len() == baked_size(s));
    assert(image.subrange(start, start + l) =~= db.subrange(d, d + l));
    assert(crate::storage::entry_value(image, e) == s[i].1);
}

/// A file baked from entries opens: its header passes every check.
pub proof fn lemma_baked_image_opens(es: Seq<(u64, Seq<u8>)>, o: ByteOrder, image: Seq<u8>)
    requires
        bakeable(es),
        is_baked_image(es, o, image),
    ensures
        crate::storage::open_outcome(image, o) == Ok::<Header, EngineError>(
            baked_header(es.len(), o),
        ),
        image.len() == baked_size(es),
{
    let p = choose|p: Seq<int>| is_stable_key_order(es, p) && image == baked_image(rearranged(es, p), o);
    let s = rearranged(es, p);
    let n = es.len() as int;
    let h = baked_header(es.len(), o);
    let hb = header_bytes(h, o);
    crate::lemma_header_roundtrip(h, o);
    lemma_index_section(s, o, n);
    lemma_data_section_len(s);
    lemma_data_size_rearranged(es, p);
    assert(image.subrange(0, HEADER_SIZE as int) =~= hb);
    lemma_header_at_prefix(image, hb, o);
    let h0 = Header {
        magic: STORAGE_MAGIC,
        version: STORAGE_VERSION,
        count: es.len() as u64,
        header_checksum: 0,
        _padding: 0,
    };
    assert(crate::zero_checksum(h) == h0);
}

/// What a lookup reports in a file baked from entries: it never fails, it
/// reports not found exactly for keys that no entry has, and a value it
/// reports is the value of an entry with the key looked up.
pub proof fn lemma_baked_lookup(
    es: Seq<(u64, Seq<u8>)>,
    o: ByteOrder,
    image: Seq<u8>,
    key: u64,
    r: Result<Option<Seq<u8>>, EngineError>,
)
    requires
        bakeable(es),
        is_baked_image(es, o, image),
        crate::storage::lookup_allowed(image, o, es.len() as int, key, r),
    ensures
        r is Ok,
        r == Ok::<Option<Seq<u8>>, EngineError>(None) <==> forall|j: int|
            0 <= j < es.len() ==> #[trigger] es[j].0 != key,
        forall|v: Seq<u8>|
            r == Ok::<Option<Seq<u8>>, EngineError>(Some(v)) ==> exists|j: int|
                0 <= j < es.len() && #[trigger] es[j] == (key, v),
{
    let p = choose|p: Seq<int>| is_stable_key_order(es, p) && image == baked_image(rearranged(es, p), o);
    let s = rearranged(es, p);
    let n = es.len() as int;
    assert forall|i: int| 0 <= i < n implies #[trigger] s[i].1.len() <= u32::MAX by {
        assert(es[p[i]].1.len() <= u32::MAX);
    }
    lemma_data_size_rearranged(es, p);
    assert(bakeable(s));
    assert forall|i: int| 0 <= i < n implies #[trigger] crate::storage::index_key(image, o, i)
        == es[p[i]].0 by {
        lemma_baked_index_entry(s, o, i);
    }
    assert(crate::storage::index_sorted(image, o, n)) by {
        assert forall|i: int, j: int| 0 <= i <= j < n implies crate::storage::index_key(image, o, i)
            <= crate::storage::index_key(image, o, j) by {
            assert(es[p[i]].0 <= es[p[j]].0);
        }
    }
    match r {
        Ok(None) => {
            assert forall|j: int| 0 <= j < n implies #[trigger] es[j].0 != key by {
                assert(lists(p, j));
                let i = choose|i: int| 0 <= i < p.len() && p[i] == j;
                assert(crate::storage::index_key(image, o, i) != key);
            }
        },
        _ => {
            let i = choose|i: int|
                0 <= i < n && #[trigger] crate::storage::index_key(image, o, i) == key && r
                    == crate::storage::entry_outcome(
                    image,
                    crate::storage::index_entry(image, o, i),
                );
            lemma_baked_index_entry(s, o, i);
            lemma_baked_value(s, o, i);
            assert(es[p[i]] == (key, s[i].1));
            assert(!(forall|j: int| 0 <= j < n ==> #[trigger] es[j].0 != key)) by {
                assert(es[p[i]].0 == key);
            }
        },
    }
}

proof fn lemma_data_size_aligned(s: Seq<(u64, Seq<u8>)>)
    ensures
        data_size(s) % 8 == 0,
    decreases s.len(),
{
    if s.len() > 0 {
        lemma_data_size_aligned(s.drop_last());
        let l = s.last().1.len();
        let before = data_size(s.drop_last());
        assert((before + l + pad_len(l)) % 8 == 0) by (nonlinear_arith)
            requires
                before % 8 == 0,
                pad_len(l) == (if l % 8 == 0 {
                    0
                } else {
                    8 - l % 8
                }),
        ;
    }
}

/// Every value in a baked file starts on an 8-byte boundary.
pub proof fn lemma_baked_values_aligned(
    es: Seq<(u64, Seq<u8>)>,
    o: ByteOrder,
    image: Seq<u8>,
    i: int,
)
    requires
        bakeable(es),
        is_baked_image(es, o, image),
        0 <= i < es.len(),
    ensures
        crate::storage::index_entry(image, o, i).val_offset % 8 == 0,
{
    let p = choose|p: Seq<int>| is_stable_key_order(es, p) && image == baked_image(rearranged(es, p), o);
    let s = rearranged(es, p);
    let n = es.len() as int;
    lemma_baked_index_entry(s, o, i);
    lemma_data_size_rearranged(es, p);
    lemma_data_prefix(s, i, n);
    assert(s.take(n) =~= s);
    lemma_data_size_aligned(s.take(i));
    let start = data_start(s.len()) + data_size(s.take(i));
    assert(start <= baked_size(s));
    assert(start % 8 == 0) by (nonlinear_arith)
        requires
            start == HEADER_SIZE + INDEX_ENTRY_SIZE * n + data_size(s.take(i)),
            data_size(s.take(i)) % 8 == 0,
            HEADER_SIZE == 32,
            INDEX_ENTRY_SIZE == 24,
    ;
}

/// The same law through the storage engine: a storage opened on a baked
/// file reports, for every key, the value of an entry with that key, or not
/// found exactly when no entry has the key, and never an error.
pub proof fn lemma_baked_storage_lookup(
    es: Seq<(u64, Seq<u8>)>,
    o: ByteOrder,
    storage: crate::storage::Storage,
    key: u64,
    r: Result<Option<Seq<u8>>, EngineError>,
)
    requires
        bakeable(es),
        is_baked_image(es, o, storage.spec_object()),
        storage.spec_order() == o,
        crate::storage::open_outcome(storage.spec_object(), o) == Ok::<Header, EngineError>(
            storage.spec_header(),
        ),
        storage.lookup_allows(key, r),
    ensures
        r is Ok,
        r == Ok::<Option<Seq<u8>>, EngineError>(None) <==> forall|j: int|
            0 <= j < es.len() ==> #[trigger] es[j].0 != key,
        forall|v: Seq<u8>|
            r == Ok::<Option<Seq<u8>>, EngineError>(Some(v)) ==> exists|j: int|
                0 <= j < es.len() && #[trigger] es[j] == (key, v),
{
    lemma_baked_image_opens(es, o, storage.spec_object());
    assert(storage.spec_header().count == es.len());
    lemma_baked_lookup(es, o, storage.spec_object(), key, r);
}

// ---------------------------------------------------------------------------
// Laws of parsing
// ---------------------------------------------------------------------------

/// The parse of the lines from `pos` on lists as skipped only lines that hold
/// no comma and are not blank.
proof fn lemma_skipped_from(b: Seq<u8>, pos: int, no: int)
    ensures
        forall|i: int|
            0 <= i < parse_from(b, pos, no).1.len() ==> {
                &&& !(#[trigger] parse_from(b, pos, no).1[i]).1.contains(0x2C)
                &&& trim(parse_from(b, pos, no).1[i].1).len() > 0
            },
    decreases b.len() + 1 - pos,
{
    if !(pos < 0 || pos >= b.len()) {
        let e = find_from(b, 0x0A, pos);
        lemma_find_from_bounds(b, 0x0A, pos);
        let t = line_text(b, pos, e);
        lemma_skipped_from(b, e + 1, no + 1);
        let rest = parse_from(b, e + 1, no + 1);
        if trim(t).len() != 0 {
            let p = find_from(t, 0x2C, 0);
            lemma_find_from_bounds(t, 0x2C, 0);
            if p >= t.len() {
                let r = parse_from(b, pos, no);
                assert(r.1 == seq![(no, t)] + rest.1);
                assert forall|i: int| 0 <= i < r.1.len() implies {
                    &&& !(#[trigger] r.1[i]).1.contains(0x2C)
                    &&& trim(r.1[i].1).len() > 0
                } by {
                    if i == 0 {
                        assert(r.1[0] == (no, t));
                    } else {
                        assert(r.1[i] == rest.1[i - 1]);
                    }
                }
            }
        }
    }
}

/// A line is reported as skipped only if it holds no comma (and is not
/// blank): a line with a comma is never skipped, whatever its value, an
/// empty one included.
pub proof fn lemma_skipped_lines_have_no_comma(b: Seq<u8>)
    ensures
        forall|i: int|
            0 <= i < parse_spec(b).1.len() ==> {
                &&& !(#[trigger] parse_spec(b).1[i]).1.contains(0x2C)
                &&& trim(parse_spec(b).1[i].1).len() > 0
            },
{
    lemma_skipped_from(b, 0, 1);
}

/// No whitespace character's encoding holds a comma byte.
proof fn lemma_comma_not_ws(t: Seq<u8>, p: int)
    requires
        0 <= p < t.len(),
        t[p] == 0x2C,
    ensures
        forall|i: int| 0 <= i <= p ==> #[trigger] ws_len_at(t, i) == 0 || i + ws_len_at(t, i) <= p,
        forall|j: int| p < j <= t.len() ==> #[trigger] ws_len_before(t, j) == 0 || j - ws_len_before(t, j) > p,
{
}

proof fn lemma_skip_ws_stops_at_comma(t: Seq<u8>, i: int, p: int)
    requires
        0 <= i <= p < t.len(),
        t[p] == 0x2C,
    ensures
        skip_ws(t, i) <= p,
    decreases t.len() - i,
{
    lemma_comma_not_ws(t, p);
    if 0 <= i < t.len() && ws_len_at(t, i) > 0 {
        assert(i + ws_len_at(t, i) <= p);
        lemma_skip_ws_stops_at_comma(t, i + ws_len_at(t, i), p);
    }
}

proof fn lemma_skip_ws_back_stops_at_comma(t: Seq<u8>, lo: int, j: int, p: int)
    requires
        0 <= lo <= p < j <= t.len(),
        t[p] == 0x2C,
    ensures
        skip_ws_back(t, lo, j) > p,
    decreases j,
{
    lemma_comma_not_ws(t, p);
    if j > lo && ws_len_before(t, j) > 0 && j - ws_len_before(t, j) >= lo {
        assert(j - ws_len_before(t, j) > p);
        lemma_skip_ws_back_stops_at_comma(t, lo, j - ws_len_before(t, j), p);
    }
}

/// A line that holds a comma is never blank.
proof fn lemma_comma_line_not_blank(t: Seq<u8>, p: int)
    requires
        0 <= p < t.len(),
        t[p] == 0x2C,
    ensures
        trim(t).len() > 0,
{
    lemma_skip_ws_stops_at_comma(t, 0, p);
    lemma_skip_ws_bounds(t, 0);
    let s = skip_ws(t, 0);
    lemma_skip_ws_back_stops_at_comma(t, s, t.len() as int, p);
    lemma_skip_ws_back_bounds(t, s, t.len() as int);
}

/// A one-line input (no line feed, a trailing carriage return aside) that
/// holds a comma, whose trimmed text before its first comma is an unsigned
/// integer `k`, parses as exactly one entry: `k` with the trimmed text after
/// the comma, whatever its length, an empty value included; nothing is
/// skipped and the parse does not stop.
pub proof fn lemma_comma_line_is_entry(t: Seq<u8>, p: int, k: u64)
    requires
        forall|j: int| 0 <= j < t.len() ==> #[trigger] t[j] != 0x0A,
        0 <= p < t.len(),
        t[p] == 0x2C,
        forall|j: int| 0 <= j < p ==> #[trigger] t[j] != 0x2C,
        parse_u64_spec(trim(t.subrange(0, p))) == Some(k),
    ensures
        parse_spec(t) == (
            seq![(k, trim(t.subrange(p + 1, t.len() as int)))],
            Seq::<(int, Seq<u8>)>::empty(),
            None::<(int, Seq<u8>)>,
        ),
{
    lemma_find_from_bounds(t, 0x0A, 0);
    assert(find_from(t, 0x0A, 0) == t.len());
    assert(line_text(t, 0, t.len() as int) =~= t);
    lemma_comma_line_not_blank(t, p);
    lemma_find_from_bounds(t, 0x2C, 0);
    assert(find_from(t, 0x2C, 0) == p);
    assert(parse_from(t, (t.len() + 1) as int, 2) == (
        Seq::<(u64, Seq<u8>)>::empty(),
        Seq::<(int, Seq<u8>)>::empty(),
        None::<(int, Seq<u8>)>,
    ));
    assert(seq![(k, trim(t.subrange(p + 1, t.len() as int)))] + Seq::<(u64, Seq<u8>)>::empty()
        =~= seq![(k, trim(t.subrange(p + 1, t.len() as int)))]);
}

} // verus!
