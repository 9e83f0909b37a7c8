use kv_store::bench::{ClientTally, MAX_LATENCY_SAMPLES};
use kv_store::bench::{latency_percentile_indices, KeyGenerator, MAX_KEY, PIPELINE_DEPTH};
use kv_store::Request;

#[test]
fn key_generator_follows_the_lcg() {
    let mut g = KeyGenerator::new(0);
    assert_eq!(g.seed, 42 * 1103515245);
    let mut seed: u64 = 42 * 1103515245;
    for _ in 0..1000 {
        seed = (seed.wrapping_mul(1103515245).wrapping_add(12345)) & 0x7fffffff;
        let k = g.next_key();
        assert_eq!(k, 1 + (seed % MAX_KEY));
        assert!(k >= 1 && k <= MAX_KEY);
        assert_eq!(g.seed, seed);
    }
}

#[test]
fn batches_are_get_frames_for_the_next_keys() {
    let mut g = KeyGenerator::new(3);
    let mut expected = KeyGenerator::new(3);
    let batch = g.next_batch(PIPELINE_DEPTH);
    assert_eq!(batch.len(), PIPELINE_DEPTH * 16);
    for k in 0..PIPELINE_DEPTH {
        let req = Request::from_bytes(&batch[16 * k..16 * k + 16]).unwrap();
        assert_eq!(req.op, 0);
        assert_eq!(req._padding, 0);
        assert_eq!(&batch[16 * k + 4..16 * k + 8], &[0, 0, 0, 0]);
        assert_eq!(req.key, expected.next_key());
    }
    assert_eq!(g.seed, expected.seed);
}

#[test]
fn percentile_indices() {
    assert_eq!(latency_percentile_indices(1), (0, 0));
    assert_eq!(latency_percentile_indices(100), (50, 99));
    assert_eq!(latency_percentile_indices(1000), (500, 990));
}

#[test]
fn later_batches_continue_the_key_sequence() {
    let mut batched = KeyGenerator::new(7);
    let mut single = KeyGenerator::new(7);
    let first = batched.next_batch(3);
    let second = batched.next_batch(2);
    let all: Vec<u8> = [first, second].concat();
    for k in 0..5 {
        let req = Request::from_bytes(&all[16 * k..16 * k + 16]).unwrap();
        assert_eq!(req.key, single.next_key());
    }
}

#[test]
fn tally_counts_requests_and_caps_samples() {
    let mut t: ClientTally<u32> = ClientTally::new();
    for i in 0..(MAX_LATENCY_SAMPLES as u32 + 5) {
        t.record_batch(i);
    }
    assert_eq!(t.total_requests, (MAX_LATENCY_SAMPLES as u64 + 5) * PIPELINE_DEPTH as u64);
    assert_eq!(t.latencies.len(), MAX_LATENCY_SAMPLES);
    assert_eq!(t.latencies[0], 0);
    assert_eq!(*t.latencies.last().unwrap(), MAX_LATENCY_SAMPLES as u32 - 1);
}
