use std::collections::HashSet;

use cache_sim::access_times;

fn shuffled(len: usize, identifiers: u64, seed: u64) -> Vec<u64> {
    let mut state: u64 = seed;
    let mut trace: Vec<u64> = Vec::with_capacity(len);
    for _ in 0..len {
        state = state.wrapping_mul(2862933555777941757).wrapping_add(3037000493);
        trace.push((state >> 35) % identifiers);
    }
    trace
}

#[test]
fn access_times_of_mirrored_pattern() {
    let trace: Vec<u64> = vec![1, 2, 3, 3, 2, 1];
    let spans = access_times(&trace);
    assert_eq!(spans.len(), 3);
    assert_eq!(spans[&1], (0, 5));
    assert_eq!(spans[&2], (1, 4));
    assert_eq!(spans[&3], (2, 3));
}

#[test]
fn access_times_of_repeated_pattern() {
    let trace: Vec<u64> = vec![1, 2, 3, 1, 2, 3];
    let spans = access_times(&trace);
    assert_eq!(spans.len(), 3);
    assert_eq!(spans[&1], (0, 3));
    assert_eq!(spans[&2], (1, 4));
    assert_eq!(spans[&3], (2, 5));
}

#[test]
fn access_times_of_empty_trace_is_empty() {
    let trace: Vec<u64> = Vec::new();
    assert!(access_times(&trace).is_empty());
}

#[test]
fn access_times_of_single_access() {
    let trace: Vec<u16> = vec![42];
    let spans = access_times(&trace);
    assert_eq!(spans.len(), 1);
    assert_eq!(spans[&42], (0, 0));
}

#[test]
fn access_times_of_identifier_seen_once_has_equal_ends() {
    let trace: Vec<i64> = vec![5, 6, 5, 7, 5];
    let spans = access_times(&trace);
    assert_eq!(spans[&5], (0, 4));
    assert_eq!(spans[&6], (1, 1));
    assert_eq!(spans[&7], (3, 3));
    assert!(!spans.contains_key(&8));
}

#[test]
fn access_times_of_strings() {
    let trace: Vec<String> = ["get", "put", "get", "del"].iter().map(|s| s.to_string()).collect();
    let spans = access_times(&trace);
    assert_eq!(spans.len(), 3);
    assert_eq!(spans["get"], (0, 2));
    assert_eq!(spans["put"], (1, 1));
    assert_eq!(spans["del"], (3, 3));
}

#[test]
fn access_times_has_one_span_per_distinct_identifier() {
    for (len, identifiers, seed) in [(80usize, 6u64, 7u64), (250, 60, 8), (100, 1, 9)] {
        let trace = shuffled(len, identifiers, seed);
        let distinct: HashSet<u64> = trace.iter().copied().collect();
        let spans = access_times(&trace);
        assert_eq!(spans.len(), distinct.len());
        for id in distinct.iter() {
            assert!(spans.contains_key(id));
        }
    }
}

#[test]
fn span_runs_from_earliest_to_latest_access() {
    let trace = shuffled(180, 15, 13);
    let spans = access_times(&trace);
    for (id, (first, last)) in spans.iter() {
        assert!(first <= last);
        assert!(*last < trace.len());
        assert_eq!(trace.iter().position(|x| x == id), Some(*first));
        assert_eq!(trace.iter().rposition(|x| x == id), Some(*last));
    }
}
