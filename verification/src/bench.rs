//! The load generator's decisions: the pseudo-random keys each client asks
//! for, the request batches it pipelines, and which recorded latencies it
//! reports.
use crate::codec::ByteOrder;
use crate::{request_at, Request, REQUEST_SIZE};
use vstd::prelude::*;

verus! {

/// Number of concurrent clients.
pub const CONCURRENT_CONNECTIONS: usize = 100;

/// Requests each client pipelines per batch.
pub const PIPELINE_DEPTH: usize = 256;

/// How long each client runs, in seconds.
pub const RUN_DURATION_SECS: u64 = 10;

/// Keys are drawn from `1..=MAX_KEY`.
pub const MAX_KEY: u64 = 100_000;

/// Most batch latencies a client records.
pub const MAX_LATENCY_SAMPLES: usize = 10_000;

/// The multiplier of the linear congruential generator.
pub const LCG_MULTIPLIER: u64 = 1103515245;

/// The increment of the linear congruential generator.
pub const LCG_INCREMENT: u64 = 12345;

/// The generator state after `seed`: one step of the linear congruential
/// generator, kept to 31 bits.
pub open spec fn lcg_step(seed: u64) -> u64 {
    seed.wrapping_mul(LCG_MULTIPLIER).wrapping_add(LCG_INCREMENT) & 0x7fff_ffff
}

/// The generator state after `k` steps from `seed`.
pub open spec fn lcg_steps(seed: u64, k: nat) -> u64
    decreases k,
{
    if k == 0 {
        seed
    } else {
        lcg_step(lcg_steps(seed, (k - 1) as nat))
    }
}

/// The key a generator state stands for.
pub open spec fn key_of_state(seed: u64) -> u64 {
    (1 + seed % MAX_KEY) as u64
}

/// A client's pseudo-random key sequence.
pub struct KeyGenerator {
    pub seed: u64,
}

impl KeyGenerator {
    /// The generator of client `task_id`.
    pub fn new(task_id: u64) -> (r: KeyGenerator)
        requires
            (task_id + 42) * LCG_MULTIPLIER <= u64::MAX,
        ensures
            r.seed == (task_id + 42) * LCG_MULTIPLIER,
    {
        KeyGenerator { seed: (task_id + 42) * LCG_MULTIPLIER }
    }

    /// Advances the generator and returns the next key, in `1..=MAX_KEY`.
    pub fn next_key(&mut self) -> (r: u64)
        ensures
            final(self).seed == lcg_step(old(self).seed),
            r == key_of_state(final(self).seed),
            1 <= r <= MAX_KEY,
    {
        self.seed = self.seed.wrapping_mul(LCG_MULTIPLIER).wrapping_add(LCG_INCREMENT) & 0x7fff_ffff;
        1 + self.seed % MAX_KEY
    }

    /// The next `depth` `Get` requests, as the bytes of consecutive 16-byte
    /// frames, one per generated key.
    pub fn next_batch(&mut self, depth: usize) -> (r: Vec<u8>)
        requires
            depth * REQUEST_SIZE <= usize::MAX,
        ensures
            final(self).seed == lcg_steps(old(self).seed, depth as nat),
            r@.len() == depth * REQUEST_SIZE,
            forall|k: int|
                0 <= k < depth ==> {
                    let frame = #[trigger] r@.subrange(REQUEST_SIZE * k, REQUEST_SIZE * k + REQUEST_SIZE);
                    &&& request_at(frame, ByteOrder::Big).op == 0
                    &&& frame.subrange(4, 8) == seq![0u8, 0u8, 0u8, 0u8]
                    &&& request_at(frame, ByteOrder::Big).key == key_of_state(
                        lcg_steps(old(self).seed, (k + 1) as nat),
                    )
                },
    {
        let ghost seed0 = self.seed;
        let mut out: Vec<u8> = Vec::new();
        let mut k: usize = 0;
        while k < depth
            invariant
                k <= depth,
                depth * REQUEST_SIZE <= usize::MAX,
                self.seed == lcg_steps(seed0, k as nat),
                out@.len() == k * REQUEST_SIZE,
                forall|j: int|
                    0 <= j < k ==> {
                        let frame = #[trigger] out@.subrange(REQUEST_SIZE * j, REQUEST_SIZE * j + REQUEST_SIZE);
                        &&& request_at(frame, ByteOrder::Big).op == 0
                        &&& frame.subrange(4, 8) == seq![0u8, 0u8, 0u8, 0u8]
                        &&& request_at(frame, ByteOrder::Big).key == key_of_state(
                            lcg_steps(seed0, (j + 1) as nat),
                        )
                    },
            decreases depth - k,
        {
            let key = self.next_key();
            let req = Request { op: 0, _padding: 0, key };
            let bytes = req.to_bytes();
            let ghost before = out@;
            let mut b: usize = 0;
            while b < REQUEST_SIZE
                invariant
                    b <= REQUEST_SIZE,
                    bytes@.len() == REQUEST_SIZE,
                    out@ == before + bytes@.subrange(0, b as int),
                decreases REQUEST_SIZE - b,
            {
                out.push(bytes[b]);
                b = b + 1;
                assert(out@ =~= before + bytes@.subrange(0, b as int));
            }
            proof {
                assert(bytes@.subrange(0, REQUEST_SIZE as int) =~= bytes@);
                assert(k * REQUEST_SIZE + REQUEST_SIZE <= depth * REQUEST_SIZE) by (nonlinear_arith)
                    requires
                        k < depth,
                ;
                crate::lemma_request_roundtrip(req, ByteOrder::Little, ByteOrder::Big);
                crate::lemma_request_roundtrip(req, ByteOrder::Big, ByteOrder::Big);
                crate::codec::lemma_u32_zero(ByteOrder::Little);
                crate::codec::lemma_u32_zero(ByteOrder::Big);
                assert(bytes@.subrange(4, 8) =~= seq![0u8, 0u8, 0u8, 0u8]) by {
                    assert(crate::request_bytes(req, ByteOrder::Little).subrange(4, 8)
                        =~= crate::codec::encode_u32(0, ByteOrder::Little));
                    assert(crate::request_bytes(req, ByteOrder::Big).subrange(4, 8)
                        =~= crate::codec::encode_u32(0, ByteOrder::Big));
                }
                assert forall|j: int| 0 <= j < k + 1 implies {
                    let frame = #[trigger] out@.subrange(REQUEST_SIZE * j, REQUEST_SIZE * j + REQUEST_SIZE);
                    &&& request_at(frame, ByteOrder::Big).op == 0
                    &&& frame.subrange(4, 8) == seq![0u8, 0u8, 0u8, 0u8]
                    &&& request_at(frame, ByteOrder::Big).key == key_of_state(
                        lcg_steps(seed0, (j + 1) as nat),
                    )
                } by {
                    assert(REQUEST_SIZE * j + REQUEST_SIZE <= REQUEST_SIZE * (k + 1)) by (nonlinear_arith)
                        requires
                            j < k + 1,
                    ;
                    if j < k {
                        assert(REQUEST_SIZE * j + REQUEST_SIZE <= REQUEST_SIZE * k) by (nonlinear_arith)
                            requires
                                j < k,
                        ;
                        assert(out@.subrange(REQUEST_SIZE * j, REQUEST_SIZE * j + REQUEST_SIZE)
                            =~= before.subrange(REQUEST_SIZE * j, REQUEST_SIZE * j + REQUEST_SIZE));
                    } else {
                        assert(out@.subrange(REQUEST_SIZE * j, REQUEST_SIZE * j + REQUEST_SIZE)
                            =~= bytes@);
                        assert(bytes@.subrange(4, 8) =~= seq![0u8, 0u8, 0u8, 0u8]);
                    }
                }
            }
            k = k + 1;
        }
        out
    }
}

/// Steps of the generator compose: `a` steps then `b` more are `a + b`
/// steps. So the batches a client sends continue one key sequence: after
/// batches totalling `a` requests from state `seed`, request `k` (from 1) of
/// the next batch asks for `key_of_state(lcg_steps(seed, a + k))`, whatever
/// the replies or the timing.
pub proof fn lemma_lcg_steps_add(seed: u64, a: nat, b: nat)
    ensures
        lcg_steps(lcg_steps(seed, a), b) == lcg_steps(seed, a + b),
    decreases b,
{
    if b > 0 {
        lemma_lcg_steps_add(seed, a, (b - 1) as nat);
        assert((a + b - 1) as nat == a + (b - 1) as nat);
    }
}

/// The key of request `j` (from 1) that client `task_id` sends over its
/// whole run: it depends on `task_id` and `j` alone, so two runs of one
/// client ask for the same keys in the same order.
pub open spec fn client_key(task_id: u64, j: nat) -> u64 {
    key_of_state(lcg_steps(((task_id + 42) * LCG_MULTIPLIER) as u64, j))
}

/// A client that has sent batches totalling `sent` requests since it was
/// created asks, in request `k` (from 1) of its next batch, for
/// `client_key(task_id, sent + k)`.
pub proof fn lemma_client_keys(task_id: u64, sent: nat, k: nat)
    requires
        (task_id + 42) * LCG_MULTIPLIER <= u64::MAX,
    ensures
        key_of_state(
            lcg_steps(lcg_steps(((task_id + 42) * LCG_MULTIPLIER) as u64, sent), k),
        ) == client_key(task_id, sent + k),
{
    lemma_lcg_steps_add(((task_id + 42) * LCG_MULTIPLIER) as u64, sent, k);
}

/// What a client has recorded: the requests it has had answered and the
/// latencies of its first batches, at most `MAX_LATENCY_SAMPLES` of them.
pub struct ClientTally<T> {
    pub total_requests: u64,
    pub latencies: Vec<T>,
}

impl<T> ClientTally<T> {
    /// Nothing recorded yet.
    pub fn new() -> (r: ClientTally<T>)
        ensures
            r.total_requests == 0,
            r.latencies@.len() == 0,
    {
        ClientTally { total_requests: 0, latencies: Vec::new() }
    }

    /// Records an answered batch of `PIPELINE_DEPTH` requests and its
    /// latency; the latency is kept only while fewer than
    /// `MAX_LATENCY_SAMPLES` are held.
    pub fn record_batch(&mut self, latency: T)
        requires
            old(self).total_requests + PIPELINE_DEPTH <= u64::MAX,
        ensures
            final(self).total_requests == old(self).total_requests + PIPELINE_DEPTH,
            final(self).latencies@ == (if old(self).latencies@.len() < MAX_LATENCY_SAMPLES {
                old(self).latencies@.push(latency)
            } else {
                old(self).latencies@
            }),
    {
        if self.latencies.len() < MAX_LATENCY_SAMPLES {
            self.latencies.push(latency);
        }
        self.total_requests = self.total_requests + PIPELINE_DEPTH as u64;
    }
}

/// The positions of the median and the 99th percentile in `len` sorted
/// latencies.
pub fn latency_percentile_indices(len: usize) -> (r: (usize, usize))
    requires
        0 < len,
        len * 99 <= usize::MAX,
    ensures
        r.0 == len / 2,
        r.1 == len * 99 / 100,
        r.0 < len,
        r.1 < len,
{
    (len / 2, len * 99 / 100)
}

} // verus!
