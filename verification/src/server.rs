//! The server's decisions: which response each request frame gets, how many
//! frames a batch takes, and where a partially written response batch
//! resumes. The socket I/O around them lies outside this crate's library.
use crate::codec::ByteOrder;
use crate::storage::{lookup_view, Storage};
use crate::{
    opcode_of, request_at, request_bytes, response_header_at, response_header_bytes, EngineError,
    OpCode, Request, ResponseHeader, ResponseStatus, REQUEST_SIZE, RESPONSE_HEADER_SIZE,
};
use vstd::prelude::*;
use vstd::array::array_as_slice;
use vstd::slice::slice_subrange;

verus! {

/// Most responses gathered into one batch.
pub const MAX_BATCH_RESPONSES: usize = 256;

/// Size of the buffer that request bytes are read into.
pub const READ_BUFFER_SIZE: usize = 4096;

/// A response: its header, the value bytes that follow it, if any, and, when
/// the lookup failed, the key and the error, for the server's log.
pub struct Response<'a> {
    pub header: ResponseHeader,
    pub data: Option<&'a [u8]>,
    pub failure: Option<(u64, EngineError)>,
}

/// The mathematical form of a response: header and payload bytes.
pub type ResponseView = (ResponseHeader, Option<Seq<u8>>);

impl<'a> Response<'a> {
    pub open spec fn view(&self) -> ResponseView {
        (
            self.header,
            match self.data {
                Some(d) => Some(d@),
                None => None,
            },
        )
    }
}

/// A response header with the given status and payload length.
pub open spec fn status_header(status: ResponseStatus, length: u32) -> ResponseHeader {
    ResponseHeader { status: status.spec_code(), length }
}

/// The response to a request with opcode `op` whose lookup had outcome
/// `outcome`: unknown operations and failed lookups give `Error` with no
/// payload, a missing key gives `NotFound`, a found key gives `Success` and,
/// for `Get` only, the value as payload.
pub open spec fn reply_for(op: OpCode, outcome: Result<Option<Seq<u8>>, EngineError>) -> ResponseView {
    match op {
        OpCode::Unknown => (status_header(ResponseStatus::Error, 0), None),
        _ => match outcome {
            Ok(Some(d)) => if op == OpCode::Exists {
                (status_header(ResponseStatus::Success, 0), None)
            } else {
                (status_header(ResponseStatus::Success, d.len() as u32), Some(d))
            },
            Ok(None) => (status_header(ResponseStatus::NotFound, 0), None),
            Err(_) => (status_header(ResponseStatus::Error, 0), None),
        },
    }
}

/// The failure a response reports for its log: the key and the error when a
/// `Get` or `Exists` lookup failed, none otherwise.
pub open spec fn failure_for(op: OpCode, key: u64, outcome: Result<Option<Seq<u8>>, EngineError>) -> Option<
    (u64, EngineError),
> {
    match op {
        OpCode::Unknown => None,
        _ => match outcome {
            Err(e) => Some((key, e)),
            _ => None,
        },
    }
}

/// The request in a 16-byte frame, as far as the server reads it (the
/// operation code and the key, both big-endian).
pub open spec fn frame_request(frame: Seq<u8>) -> Request {
    request_at(frame, ByteOrder::Big)
}

/// The response `storage` gives to the 16-byte request frame `frame`.
pub open spec fn response_to(storage: Storage, frame: Seq<u8>) -> ResponseView {
    reply_for(
        opcode_of(frame_request(frame).op),
        storage.spec_lookup(frame_request(frame).key),
    )
}

/// The failure logged for the 16-byte request frame `frame`.
pub open spec fn failure_to(storage: Storage, frame: Seq<u8>) -> Option<(u64, EngineError)> {
    failure_for(
        opcode_of(frame_request(frame).op),
        frame_request(frame).key,
        storage.spec_lookup(frame_request(frame).key),
    )
}

/// Builds the response to a request with opcode `op` for `key` from its
/// lookup result.
pub fn reply<'a>(op: OpCode, key: u64, result: Result<Option<&'a [u8]>, EngineError>) -> (r:
    Response<'a>)
    requires
        result matches Ok(Some(d)) ==> d@.len() <= u32::MAX,
    ensures
        r.view() == reply_for(op, lookup_view(result)),
        r.failure == failure_for(op, key, lookup_view(result)),
{
    match op {
        OpCode::Unknown => Response {
            header: ResponseHeader { status: ResponseStatus::Error.code(), length: 0 },
            data: None,
            failure: None,
        },
        _ => match result {
            Ok(Some(d)) => {
                if op == OpCode::Exists {
                    Response {
                        header: ResponseHeader { status: ResponseStatus::Success.code(), length: 0 },
                        data: None,
                        failure: None,
                    }
                } else {
                    Response {
                        header: ResponseHeader {
                            status: ResponseStatus::Success.code(),
                            length: d.len() as u32,
                        },
                        data: Some(d),
                        failure: None,
                    }
                }
            },
            Ok(None) => Response {
                header: ResponseHeader { status: ResponseStatus::NotFound.code(), length: 0 },
                data: None,
                failure: None,
            },
            Err(e) => Response {
                header: ResponseHeader { status: ResponseStatus::Error.code(), length: 0 },
                data: None,
                failure: Some((key, e)),
            },
        },
    }
}

/// Answers one 16-byte request frame: unknown operations get `Error`;
/// `Get` and `Exists` look the key up in `storage`.
pub fn respond<'a>(storage: &Storage<'a>, frame: &[u8]) -> (r: Response<'a>)
    requires
        frame@.len() == REQUEST_SIZE,
    ensures
        r.view() == response_to(*storage, frame@),
        r.failure == failure_to(*storage, frame@),
{
    let req = match Request::from_bytes(frame) {
        Some(req) => req,
        None => {
            assert(false);
            return Response {
                header: ResponseHeader { status: ResponseStatus::Error.code(), length: 0 },
                data: None,
                failure: None,
            };
        },
    };
    assert(req.op == frame_request(frame@).op);
    assert(req.key == frame_request(frame@).key);
    let op = req.opcode();
    if op == OpCode::Unknown {
        return reply(op, req.key, Ok(None));
    }
    let result = storage.get(req.key);
    proof {
        match result {
            Ok(Some(d)) => {
                let i = choose|i: int|
                    0 <= i < storage.spec_header().count && #[trigger] crate::storage::index_key(
                        storage.spec_object(),
                        storage.spec_order(),
                        i,
                    ) == req.key && lookup_view(result) == crate::storage::entry_outcome(
                        storage.spec_object(),
                        crate::storage::index_entry(storage.spec_object(), storage.spec_order(), i),
                    );
                let e = crate::storage::index_entry(storage.spec_object(), storage.spec_order(), i);
                assert(d@.len() == e.val_len);
            },
            _ => {},
        }
    }
    reply(op, req.key, result)
}

/// Response `k` is the one `storage` gives to frame `k` (bytes `16k..16k+16`
/// of `buf`), with its logged failure, for every response.
pub open spec fn answers_frames(storage: Storage, buf: Seq<u8>, responses: Seq<Response>) -> bool {
    forall|k: int|
        0 <= k < responses.len() ==> {
            let frame = buf.subrange(REQUEST_SIZE * k, REQUEST_SIZE * k + REQUEST_SIZE);
            &&& #[trigger] responses[k].view() == response_to(storage, frame)
            &&& responses[k].failure == failure_to(storage, frame)
        }
}

/// The responses to a batch of request frames and how many bytes they took.
pub struct Batch<'a> {
    pub responses: Vec<Response<'a>>,
    pub consumed: usize,
}

/// Answers the whole 16-byte frames at the start of `buf`, at most
/// `MAX_BATCH_RESPONSES` of them, one response per frame in frame order.
/// `consumed` is the number of bytes those frames take; the rest of `buf` is
/// an incomplete frame or waits for the next batch.
pub fn process_batch<'a>(storage: &Storage<'a>, buf: &[u8]) -> (r: Batch<'a>)
    ensures
        r.responses@.len() == (if buf@.len() / (REQUEST_SIZE as nat) < MAX_BATCH_RESPONSES {
            buf@.len() / (REQUEST_SIZE as nat)
        } else {
            MAX_BATCH_RESPONSES as nat
        }),
        r.consumed == REQUEST_SIZE * r.responses@.len(),
        answers_frames(*storage, buf@, r.responses@),
{
    let total = buf.len();
    let mut responses: Vec<Response<'a>> = Vec::new();
    let mut consumed: usize = 0;
    while total - consumed >= REQUEST_SIZE && responses.len() < MAX_BATCH_RESPONSES
        invariant
            total == buf@.len(),
            consumed == REQUEST_SIZE * responses@.len(),
            consumed <= total,
            responses@.len() <= MAX_BATCH_RESPONSES,
            answers_frames(*storage, buf@, responses@),
        decreases total - consumed,
    {
        let frame = slice_subrange(buf, consumed, consumed + REQUEST_SIZE);
        let resp = respond(storage, frame);
        responses.push(resp);
        consumed = consumed + REQUEST_SIZE;
    }
    assert(responses@.len() == (if total / REQUEST_SIZE < MAX_BATCH_RESPONSES {
        total / REQUEST_SIZE
    } else {
        MAX_BATCH_RESPONSES
    })) by (nonlinear_arith)
        requires
            consumed == REQUEST_SIZE * responses@.len(),
            consumed <= total,
            responses@.len() <= MAX_BATCH_RESPONSES,
            total - consumed < REQUEST_SIZE || responses@.len() == MAX_BATCH_RESPONSES,
            REQUEST_SIZE == 16,
    ;
    Batch { responses, consumed }
}

// ---------------------------------------------------------------------------
// The byte stream of a batch
// ---------------------------------------------------------------------------

/// The slices that the first `n` responses are written as: each response's
/// header bytes, then its payload if it has one.
pub open spec fn parts_of(headers: Seq<Seq<u8>>, data: Seq<Option<Seq<u8>>>, n: int) -> Seq<
    Seq<u8>,
>
    decreases n,
{
    if n <= 0 {
        seq![]
    } else {
        parts_of(headers, data, n - 1) + seq![headers[n - 1]] + match data[n - 1] {
            Some(d) => seq![d],
            None => seq![],
        }
    }
}

/// Lays out a batch's responses as the slices of one write: header `i`
/// (from `headers`), then the payload of response `i` if any, in order.
pub fn response_parts<'b>(headers: &'b [[u8; 8]], responses: &[Response<'b>]) -> (r: Vec<&'b [u8]>)
    requires
        responses@.len() <= headers@.len(),
    ensures
        part_views(r@) == parts_of(
            headers@.map_values(|h: [u8; 8]| h@),
            responses@.map_values(|x: Response<'b>| x.view().1),
            responses@.len() as int,
        ),
{
    let ghost hs = headers@.map_values(|h: [u8; 8]| h@);
    let ghost ds = responses@.map_values(|x: Response<'b>| x.view().1);
    let mut parts: Vec<&'b [u8]> = Vec::new();
    let mut i: usize = 0;
    while i < responses.len()
        invariant
            i <= responses@.len(),
            responses@.len() <= headers@.len(),
            hs == headers@.map_values(|h: [u8; 8]| h@),
            ds == responses@.map_values(|x: Response<'b>| x.view().1),
            part_views(parts@) == parts_of(hs, ds, i as int),
        decreases responses@.len() - i,
    {
        let ghost before = part_views(parts@);
        parts.push(array_as_slice(&headers[i]));
        match responses[i].data {
            Some(d) => {
                parts.push(d);
            },
            None => {},
        }
        proof {
            assert(hs[i as int] == headers@[i as int]@);
            assert(ds[i as int] == responses@[i as int].view().1);
            assert(part_views(parts@) =~= parts_of(hs, ds, i + 1));
        }
        i = i + 1;
    }
    parts
}

// ---------------------------------------------------------------------------
// Partial writes
// ---------------------------------------------------------------------------

/// The bytes of `parts` not yet written when part `idx` has had its first
/// `off` bytes written and every earlier part has been written whole.
pub open spec fn unsent(parts: Seq<Seq<u8>>, idx: int, off: int) -> Seq<u8>
    decreases parts.len() - idx,
{
    if idx < 0 || idx >= parts.len() {
        seq![]
    } else {
        parts[idx].skip(off) + unsent(parts, idx + 1, 0)
    }
}

/// The byte contents of a list of slices.
pub open spec fn part_views(parts: Seq<&[u8]>) -> Seq<Seq<u8>> {
    parts.map_values(|p: &[u8]| p@)
}

proof fn lemma_skip_skip(s: Seq<u8>, a: int, b: int)
    requires
        0 <= a,
        0 <= b,
        a + b <= s.len(),
    ensures
        s.skip(a).skip(b) == s.skip(a + b),
{
    assert(s.skip(a).skip(b) =~= s.skip(a + b));
}

/// Writing the rest of part `i` leaves the parts after it.
proof fn lemma_unsent_whole(ps: Seq<Seq<u8>>, i: int, o: int)
    requires
        0 <= i < ps.len(),
        0 <= o <= ps[i].len(),
    ensures
        unsent(ps, i, o).len() == ps[i].len() - o + unsent(ps, i + 1, 0).len(),
        unsent(ps, i, o).skip(ps[i].len() - o) == unsent(ps, i + 1, 0),
{
    assert(unsent(ps, i, o) == ps[i].skip(o) + unsent(ps, i + 1, 0));
    assert(unsent(ps, i, o).skip(ps[i].len() - o) =~= unsent(ps, i + 1, 0));
}

/// Writing `k` more bytes of part `i` without finishing it.
proof fn lemma_unsent_part(ps: Seq<Seq<u8>>, i: int, o: int, k: int)
    requires
        0 <= i < ps.len(),
        0 <= o,
        0 <= k,
        o + k <= ps[i].len(),
    ensures
        unsent(ps, i, o + k) == unsent(ps, i, o).skip(k),
{
    assert(unsent(ps, i, o) == ps[i].skip(o) + unsent(ps, i + 1, 0));
    assert(unsent(ps, i, o + k) == ps[i].skip(o + k) + unsent(ps, i + 1, 0));
    assert(unsent(ps, i, o + k) =~= unsent(ps, i, o).skip(k));
}

/// Where writing resumes after a vectored write reported `written` more bytes
/// sent: whole parts are passed over and the part the write stopped in is
/// entered. The bytes still to send are then exactly the earlier remainder
/// without its first `written` bytes; a report of more bytes than remained
/// ends the batch.
pub fn advance_write(parts: &[&[u8]], idx: usize, off: usize, written: usize) -> (r: (
    usize,
    usize,
))
    requires
        idx <= parts@.len(),
        idx < parts@.len() ==> off <= parts@[idx as int]@.len(),
    ensures
        r.0 <= parts@.len(),
        r.0 < parts@.len() ==> r.1 <= parts@[r.0 as int]@.len(),
        written <= unsent(part_views(parts@), idx as int, off as int).len() ==> unsent(
            part_views(parts@),
            r.0 as int,
            r.1 as int,
        ) == unsent(part_views(parts@), idx as int, off as int).skip(written as int),
        written > unsent(part_views(parts@), idx as int, off as int).len() ==> r.0
            == parts@.len(),
{
    let ghost ps = part_views(parts@);
    let ghost start = unsent(ps, idx as int, off as int);
    let n = parts.len();
    let mut i = idx;
    let mut o = if idx < n {
        off
    } else {
        0
    };
    let mut remaining = written;
    proof {
        assert(start.skip(0) =~= start);
    }
    while remaining > 0 && i < n
        invariant
            n == parts@.len(),
            ps == part_views(parts@),
            i <= n,
            i < n ==> o <= parts@[i as int]@.len(),
            remaining <= written,
            written - remaining <= start.len() ==> unsent(ps, i as int, o as int) == start.skip(
                written - remaining,
            ),
            written - remaining > start.len() ==> i == n,
            i == n ==> written - remaining >= start.len(),
        decreases n - i, remaining,
    {
        let part_len = parts[i].len();
        let left = part_len - o;
        let ghost done = written - remaining;
        proof {
            assert(ps[i as int] == parts@[i as int]@);
            lemma_unsent_whole(ps, i as int, o as int);
        }
        if left <= remaining {
            proof {
                lemma_skip_skip(start, done, left as int);
            }
            remaining = remaining - left;
            i = i + 1;
            o = 0;
        } else {
            proof {
                lemma_unsent_part(ps, i as int, o as int, remaining as int);
                lemma_skip_skip(start, done, remaining as int);
            }
            o = o + remaining;
            remaining = 0;
        }
    }
    proof {
        if i == n {
            assert(unsent(ps, i as int, o as int) == Seq::<u8>::empty());
        }
    }
    (i, o)
}

// ---------------------------------------------------------------------------
// Laws of the server's answers
// ---------------------------------------------------------------------------

/// How `Get` and `Exists` answer a lookup outcome: both report the same
/// status; `NotFound` exactly when the lookup found no entry, `Success`
/// exactly when it found one (whatever the value, empty or not), `Error`
/// exactly when it failed. `Exists` never carries a length or a payload;
/// `Get` carries the value found, and its length. Unknown operations get
/// `Error` whatever the lookup would give.
pub proof fn lemma_reply_statuses(outcome: Result<Option<Seq<u8>>, EngineError>)
    requires
        outcome matches Ok(Some(v)) ==> v.len() <= u32::MAX,
    ensures
        reply_for(OpCode::Exists, outcome).0.status == reply_for(OpCode::Get, outcome).0.status,
        reply_for(OpCode::Exists, outcome).0.length == 0,
        reply_for(OpCode::Exists, outcome).1 is None,
        forall|op: OpCode|
            op != OpCode::Unknown ==> {
                &&& (#[trigger] reply_for(op, outcome).0.status == ResponseStatus::NotFound.spec_code()
                    <==> outcome == Ok::<Option<Seq<u8>>, EngineError>(None))
                &&& (reply_for(op, outcome).0.status == ResponseStatus::Success.spec_code()
                    <==> outcome matches Ok(Some(_)))
                &&& (reply_for(op, outcome).0.status == ResponseStatus::Error.spec_code()
                    <==> outcome is Err)
            },
        outcome matches Ok(Some(v)) ==> reply_for(OpCode::Get, outcome).1 == Some(v)
            && reply_for(OpCode::Get, outcome).0.length == v.len(),
        outcome is Ok ==> (reply_for(OpCode::Get, outcome).1 matches Some(d)
            ==> reply_for(OpCode::Get, outcome).0.length == d.len()),
        reply_for(OpCode::Get, outcome).1 is None ==> reply_for(OpCode::Get, outcome).0.length == 0,
        reply_for(OpCode::Unknown, outcome) == reply_for(OpCode::Unknown, Ok(None)),
        reply_for(OpCode::Unknown, outcome).0.status == ResponseStatus::Error.spec_code(),
{
}

/// A frame that encodes a request is answered with the lookup of that
/// request's full 64-bit key under its operation code, whatever byte order
/// the request's padding was written in.
pub proof fn lemma_response_to_request(storage: Storage, r: Request, o: ByteOrder)
    ensures
        request_bytes(r, o).len() == REQUEST_SIZE,
        response_to(storage, request_bytes(r, o)) == reply_for(
            opcode_of(r.op),
            storage.spec_lookup(r.key),
        ),
        failure_to(storage, request_bytes(r, o)) == failure_for(
            opcode_of(r.op),
            r.key,
            storage.spec_lookup(r.key),
        ),
{
    crate::lemma_request_roundtrip(r, o, ByteOrder::Big);
}

/// The bytes of a list of slices written one after another.
pub open spec fn stream_bytes(ps: Seq<Seq<u8>>) -> Seq<u8>
    decreases ps.len(),
{
    if ps.len() == 0 {
        seq![]
    } else {
        stream_bytes(ps.drop_last()) + ps.last()
    }
}

/// How a client reads a response stream: an 8-byte header, then as many
/// payload bytes as the header's length says, again and again.
pub open spec fn read_responses(b: Seq<u8>) -> Seq<(ResponseHeader, Seq<u8>)>
    decreases b.len(),
{
    if b.len() < RESPONSE_HEADER_SIZE {
        seq![]
    } else {
        let h = response_header_at(b.subrange(0, RESPONSE_HEADER_SIZE as int));
        let end = if RESPONSE_HEADER_SIZE + h.length <= b.len() {
            RESPONSE_HEADER_SIZE + h.length
        } else {
            b.len() as int
        };
        seq![(h, b.subrange(RESPONSE_HEADER_SIZE as int, end))] + read_responses(
            b.subrange(end, b.len() as int),
        )
    }
}

/// The payload bytes of a response, empty when it has none.
pub open spec fn payload(d: Option<Seq<u8>>) -> Seq<u8> {
    match d {
        Some(v) => v,
        None => seq![],
    }
}

/// A response's header length matches its payload.
pub open spec fn length_matches(h: ResponseHeader, d: Option<Seq<u8>>) -> bool {
    h.length == payload(d).len()
}

proof fn lemma_stream_push(ps: Seq<Seq<u8>>, x: Seq<u8>)
    ensures
        stream_bytes(ps.push(x)) == stream_bytes(ps) + x,
{
    assert(ps.push(x).drop_last() =~= ps);
}

proof fn lemma_read_one_response(h: ResponseHeader, d: Seq<u8>, rest: Seq<u8>)
    requires
        h.length == d.len(),
    ensures
        read_responses(response_header_bytes(h) + d + rest) == seq![(h, d)] + read_responses(rest),
{
    crate::lemma_response_header_roundtrip(h);
    let b = response_header_bytes(h) + d + rest;
    assert(b.subrange(0, RESPONSE_HEADER_SIZE as int) =~= response_header_bytes(h));
    let end = RESPONSE_HEADER_SIZE + h.length;
    assert(b.subrange(RESPONSE_HEADER_SIZE as int, end) =~= d);
    assert(b.subrange(end, b.len() as int) =~= rest);
}

/// The stream of the first `k` responses is that of the first `k - 1`,
/// then header `k - 1`, then payload `k - 1`.
proof fn lemma_parts_step(hs: Seq<ResponseHeader>, ds: Seq<Option<Seq<u8>>>, k: int)
    requires
        0 < k <= hs.len(),
        k <= ds.len(),
    ensures
        stream_bytes(parts_of(hs.map_values(|h: ResponseHeader| response_header_bytes(h)), ds, k))
            == stream_bytes(
            parts_of(hs.map_values(|h: ResponseHeader| response_header_bytes(h)), ds, k - 1),
        ) + (response_header_bytes(hs[k - 1]) + payload(ds[k - 1])),
{
    let hb = hs.map_values(|h: ResponseHeader| response_header_bytes(h));
    let prev = parts_of(hb, ds, k - 1);
    lemma_stream_push(prev, hb[k - 1]);
    assert(hb[k - 1] == response_header_bytes(hs[k - 1]));
    match ds[k - 1] {
        Some(v) => {
            assert(parts_of(hb, ds, k) =~= prev.push(hb[k - 1]).push(v));
            lemma_stream_push(prev.push(hb[k - 1]), v);
        },
        None => {
            assert(parts_of(hb, ds, k) =~= prev.push(hb[k - 1]));
        },
    }
    assert(stream_bytes(parts_of(hb, ds, k)) =~= stream_bytes(prev) + (response_header_bytes(
        hs[k - 1],
    ) + payload(ds[k - 1])));
}

#[verifier::rlimit(30)]
proof fn lemma_read_frames(hs: Seq<ResponseHeader>, ds: Seq<Option<Seq<u8>>>, k: int, rest: Seq<u8>)
    requires
        0 <= k <= hs.len(),
        k <= ds.len(),
        forall|i: int| 0 <= i < k ==> length_matches(#[trigger] hs[i], ds[i]),
    ensures
        read_responses(
            stream_bytes(parts_of(hs.map_values(|h: ResponseHeader| response_header_bytes(h)), ds, k))
                + rest,
        ) == Seq::new(k as nat, |i: int| (hs[i], payload(ds[i]))) + read_responses(rest),
    decreases k,
{
    let hb = hs.map_values(|h: ResponseHeader| response_header_bytes(h));
    if k == 0 {
        assert(parts_of(hb, ds, 0) =~= Seq::<Seq<u8>>::empty());
        assert(stream_bytes(parts_of(hb, ds, 0)) + rest =~= rest);
        assert(Seq::new(0, |i: int| (hs[i], payload(ds[i]))) + read_responses(rest)
            =~= read_responses(rest));
    } else {
        let prev = stream_bytes(parts_of(hb, ds, k - 1));
        let h = hs[k - 1];
        let d = payload(ds[k - 1]);
        assert(length_matches(hs[k - 1], ds[k - 1]));
        let frame = response_header_bytes(h) + d;
        lemma_parts_step(hs, ds, k);
        lemma_read_frames(hs, ds, k - 1, frame + rest);
        assert((prev + frame) + rest =~= prev + (frame + rest));
        lemma_read_one_response(h, d, rest);
        assert(response_header_bytes(h) + d + rest =~= frame + rest);
        assert(Seq::new((k - 1) as nat, |i: int| (hs[i], payload(ds[i]))) + (seq![(h, d)]
            + read_responses(rest)) =~= Seq::new(k as nat, |i: int| (hs[i], payload(ds[i])))
            + read_responses(rest));
    }
}

/// The stream a batch is written as reads back, response by response, as
/// exactly the responses: each header, and after it exactly its payload
/// (every response's, the last one's too), provided each header's length is
/// its payload's length, as `reply_for` makes it. A client reading an 8-byte
/// header and then `length` bytes at a time gets back every response in order.
pub proof fn lemma_batch_stream_reads_back(hs: Seq<ResponseHeader>, ds: Seq<Option<Seq<u8>>>)
    requires
        hs.len() == ds.len(),
        forall|i: int| 0 <= i < hs.len() ==> length_matches(#[trigger] hs[i], ds[i]),
    ensures
        read_responses(
            stream_bytes(
                parts_of(
                    hs.map_values(|h: ResponseHeader| response_header_bytes(h)),
                    ds,
                    hs.len() as int,
                ),
            ),
        ) == Seq::new(hs.len(), |i: int| (hs[i], payload(ds[i]))),
{
    lemma_read_frames(hs, ds, hs.len() as int, seq![]);
    let hb = hs.map_values(|h: ResponseHeader| response_header_bytes(h));
    assert(stream_bytes(parts_of(hb, ds, hs.len() as int)) + seq![] =~= stream_bytes(
        parts_of(hb, ds, hs.len() as int),
    ));
    assert(read_responses(seq![]) =~= Seq::<(ResponseHeader, Seq<u8>)>::empty());
    assert(Seq::new(hs.len(), |i: int| (hs[i], payload(ds[i]))) + seq![] =~= Seq::new(
        hs.len(),
        |i: int| (hs[i], payload(ds[i])),
    ));
}

/// Every response the server builds has a header length equal to its
/// payload's length (the precondition of `lemma_batch_stream_reads_back`).
pub proof fn lemma_reply_length_matches(op: OpCode, outcome: Result<Option<Seq<u8>>, EngineError>)
    requires
        outcome matches Ok(Some(v)) ==> v.len() <= u32::MAX,
    ensures
        length_matches(reply_for(op, outcome).0, reply_for(op, outcome).1),
{
}

} // verus!
