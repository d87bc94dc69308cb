use std::collections::HashSet;

use cache_sim::{footprint, AvgFootprint};

fn mixed(len: usize, identifiers: u64, seed: u64) -> Vec<u64> {
    let mut state: u64 = seed;
    let mut trace: Vec<u64> = Vec::with_capacity(len);
    for _ in 0..len {
        state = state.wrapping_mul(6364136223846793005).wrapping_add(1);
        trace.push((state >> 40) % identifiers);
    }
    trace
}

fn value(entry: &AvgFootprint) -> f64 {
    entry.distinct as f64 - entry.missing as f64 / entry.windows as f64
}

fn covered(entry: &AvgFootprint) -> u128 {
    entry.distinct as u128 * entry.windows as u128 - entry.missing
}

fn distinct_in(window: &[u64]) -> u128 {
    let seen: HashSet<u64> = window.iter().copied().collect();
    seen.len() as u128
}

#[test]
fn footprint_of_distinct_trace() {
    let trace: Vec<u64> = vec![1, 2, 3, 4, 5, 6];
    let values: Vec<f64> = footprint(&trace).iter().map(value).collect();
    assert_eq!(values, vec![0.0, 1.0, 2.0, 3.0, 4.0, 5.0, 6.0]);
}

#[test]
fn footprint_of_mirrored_pattern() {
    let trace: Vec<u64> = vec![1, 2, 3, 3, 2, 1];
    let values: Vec<f64> = footprint(&trace).iter().map(value).collect();
    let expected: Vec<f64> = vec![0.0, 1.0, 1.8, 2.5, 8.0 / 3.0, 3.0, 3.0];
    assert_eq!(values.len(), expected.len());
    for (got, want) in values.iter().zip(expected.iter()) {
        assert!((got - want).abs() < 1e-12, "{} differs from {}", got, want);
    }
}

#[test]
fn footprint_of_mirrored_pattern_term_by_term() {
    let trace: Vec<u64> = vec![1, 2, 3, 3, 2, 1];
    let fp = footprint(&trace);
    let missing: Vec<u128> = fp.iter().map(|entry| entry.missing).collect();
    let windows: Vec<usize> = fp.iter().map(|entry| entry.windows).collect();
    assert_eq!(missing, vec![21, 12, 6, 2, 1, 0, 0]);
    assert_eq!(windows, vec![7, 6, 5, 4, 3, 2, 1]);
    for entry in fp.iter() {
        assert_eq!(entry.distinct, 3);
    }
}

#[test]
fn missing_pairs_from_gaps_inside_the_trace() {
    let trace: Vec<&str> = vec!["a", "b", "b", "b", "a"];
    let fp = footprint(&trace);
    assert_eq!(fp[2], AvgFootprint { distinct: 2, missing: 2, windows: 4 });
    assert_eq!(value(&fp[2]), 1.5);
}

#[test]
fn missing_pairs_from_gaps_at_the_start() {
    let trace: Vec<&str> = vec!["a", "a", "a", "b"];
    let fp = footprint(&trace);
    assert_eq!(fp[2], AvgFootprint { distinct: 2, missing: 2, windows: 3 });
    assert_eq!(fp[1], AvgFootprint { distinct: 2, missing: 4, windows: 4 });
}

#[test]
fn missing_pairs_from_gaps_at_the_end() {
    let trace: Vec<&str> = vec!["b", "a", "a", "a"];
    let fp = footprint(&trace);
    assert_eq!(fp[2], AvgFootprint { distinct: 2, missing: 2, windows: 3 });
    assert_eq!(fp[1], AvgFootprint { distinct: 2, missing: 4, windows: 4 });
}

#[test]
fn footprint_of_longer_trace_matches_window_by_window_count() {
    let trace = mixed(600, 37, 99);
    let fp = footprint(&trace);
    for w in [0usize, 1, 2, 3, 50, 299, 300, 598, 599, 600] {
        let mut sum: u128 = 0;
        for s in 0..=(trace.len() - w) {
            sum += distinct_in(&trace[s..s + w]);
        }
        assert_eq!(covered(&fp[w]), sum, "window length {}", w);
    }
}

#[test]
fn footprint_of_repeated_pattern() {
    let trace: Vec<u64> = vec![1, 2, 3, 1, 2, 3];
    let fp = footprint(&trace);
    let sums: Vec<u128> = fp.iter().map(covered).collect();
    assert_eq!(sums, vec![0, 6, 10, 12, 9, 6, 3]);
}

#[test]
fn footprint_of_empty_trace_is_one_zero() {
    let trace: Vec<u64> = Vec::new();
    let fp = footprint(&trace);
    assert_eq!(fp, vec![AvgFootprint { distinct: 0, missing: 0, windows: 1 }]);
    assert_eq!(value(&fp[0]), 0.0);
}

#[test]
fn footprint_of_single_access() {
    let trace: Vec<u64> = vec![8];
    let fp = footprint(&trace);
    assert_eq!(
        fp,
        vec![
            AvgFootprint { distinct: 1, missing: 2, windows: 2 },
            AvgFootprint { distinct: 1, missing: 0, windows: 1 },
        ]
    );
}

#[test]
fn footprint_of_one_identifier_repeated() {
    let trace: Vec<u64> = vec![3, 3, 3, 3, 3];
    let values: Vec<f64> = footprint(&trace).iter().map(value).collect();
    assert_eq!(values, vec![0.0, 1.0, 1.0, 1.0, 1.0, 1.0]);
}

#[test]
fn footprint_of_strings() {
    let trace: Vec<&str> = vec!["a", "b", "a"];
    let sums: Vec<u128> = footprint(&trace).iter().map(covered).collect();
    assert_eq!(sums, vec![0, 3, 4, 2]);
}

#[test]
fn footprint_has_one_entry_per_window_length() {
    for len in [0usize, 1, 2, 9, 64] {
        let trace = mixed(len, 5, 3);
        let fp = footprint(&trace);
        assert_eq!(fp.len(), len + 1);
        for (w, entry) in fp.iter().enumerate() {
            assert_eq!(entry.windows, len - w + 1);
        }
    }
}

#[test]
fn footprint_of_empty_window_is_zero() {
    for (len, identifiers, seed) in [(1usize, 1u64, 1u64), (40, 6, 2), (90, 30, 3)] {
        let trace = mixed(len, identifiers, seed);
        let fp = footprint(&trace);
        assert_eq!(covered(&fp[0]), 0);
        assert_eq!(value(&fp[0]), 0.0);
    }
}

#[test]
fn footprint_of_full_window_is_distinct_count() {
    for (len, identifiers, seed) in [(1usize, 1u64, 4u64), (40, 6, 5), (90, 30, 6), (70, 1000, 7)] {
        let trace = mixed(len, identifiers, seed);
        let distinct: HashSet<u64> = trace.iter().copied().collect();
        let fp = footprint(&trace);
        let full = fp[len];
        assert_eq!(full, AvgFootprint { distinct: distinct.len(), missing: 0, windows: 1 });
        assert_eq!(value(&full), distinct.len() as f64);
    }
}

#[test]
fn footprint_matches_window_by_window_count() {
    let cases = [(30usize, 4u64, 8u64), (75, 10, 9), (120, 50, 10), (33, 1, 11)];
    for (len, identifiers, seed) in cases {
        let trace = mixed(len, identifiers, seed);
        let fp = footprint(&trace);
        for w in 0..=len {
            let mut sum: u128 = 0;
            for s in 0..=(len - w) {
                sum += distinct_in(&trace[s..s + w]);
            }
            assert_eq!(covered(&fp[w]), sum, "window length {}", w);
        }
    }
}

#[test]
fn footprint_does_not_fall_as_the_window_grows() {
    for (len, identifiers, seed) in [(60usize, 5u64, 12u64), (110, 25, 13), (45, 45, 14)] {
        let trace = mixed(len, identifiers, seed);
        let fp = footprint(&trace);
        for w in 0..len {
            let short = covered(&fp[w]) * fp[w + 1].windows as u128;
            let long = covered(&fp[w + 1]) * fp[w].windows as u128;
            assert!(short <= long, "window length {}", w);
            assert!(value(&fp[w]) <= value(&fp[w + 1]) + 1e-9);
        }
    }
}

#[test]
fn footprint_is_bounded_by_window_length_and_distinct_count() {
    for (len, identifiers, seed) in [(60usize, 5u64, 15u64), (110, 25, 16), (45, 45, 17)] {
        let trace = mixed(len, identifiers, seed);
        let fp = footprint(&trace);
        for (w, entry) in fp.iter().enumerate() {
            let bound = w.min(entry.distinct) as u128;
            assert!(covered(entry) <= bound * entry.windows as u128);
            assert!(entry.missing <= entry.distinct as u128 * entry.windows as u128);
        }
    }
}
