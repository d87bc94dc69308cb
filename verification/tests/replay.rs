use std::collections::{HashSet, VecDeque};

use cache_sim::{count_access, AccessResult, CacheSim};

/// A cache that never evicts: it misses on the first access to an identifier
/// and hits ever after.
#[derive(Clone, Default)]
struct Unbounded {
    seen: HashSet<u64>,
}

impl CacheSim<u64> for Unbounded {
    fn step(mut self, access: u64) -> (Self, AccessResult) {
        let outcome = self.cache_access(access);
        (self, outcome)
    }

    fn cache_access(&mut self, access: u64) -> AccessResult {
        if self.seen.insert(access) {
            AccessResult::Miss
        } else {
            AccessResult::Hit
        }
    }

    fn set_capacity(&mut self, _cache_size: usize) -> &mut Self {
        self
    }
}

/// A cache that evicts the least recently used identifier.
#[derive(Clone, Default)]
struct Lru {
    capacity: usize,
    order: VecDeque<&'static str>,
}

impl CacheSim<&'static str> for Lru {
    fn step(mut self, access: &'static str) -> (Self, AccessResult) {
        let outcome = self.cache_access(access);
        (self, outcome)
    }

    fn cache_access(&mut self, access: &'static str) -> AccessResult {
        if let Some(at) = self.order.iter().position(|held| *held == access) {
            self.order.remove(at);
            self.order.push_back(access);
            return AccessResult::Hit;
        }
        self.order.push_back(access);
        while self.order.len() > self.capacity {
            self.order.pop_front();
        }
        AccessResult::Miss
    }

    fn set_capacity(&mut self, cache_size: usize) -> &mut Self {
        self.capacity = cache_size;
        while self.order.len() > self.capacity {
            self.order.pop_front();
        }
        self
    }
}

/// A cache that holds nothing.
struct AlwaysMiss;

impl CacheSim<u8> for AlwaysMiss {
    fn step(self, _access: u8) -> (Self, AccessResult) {
        (self, AccessResult::Miss)
    }

    fn cache_access(&mut self, _access: u8) -> AccessResult {
        AccessResult::Miss
    }

    fn set_capacity(&mut self, _cache_size: usize) -> &mut Self {
        self
    }
}

fn miss_ratio(counts: (usize, usize)) -> f64 {
    counts.1 as f64 / counts.0 as f64
}

#[test]
fn count_access_adds_a_hit() {
    assert_eq!(count_access((3, 1), AccessResult::Hit), (4, 1));
}

#[test]
fn count_access_adds_a_miss() {
    assert_eq!(count_access((3, 1), AccessResult::Miss), (4, 2));
}

#[test]
fn count_access_starts_from_nothing() {
    assert_eq!(count_access((0, 0), AccessResult::Miss), (1, 1));
    assert_eq!(count_access((0, 0), AccessResult::Hit), (1, 0));
}

#[test]
fn unbounded_cache_misses_once_per_identifier() {
    let mut sim = Unbounded::default();
    sim.set_capacity(10);
    let trace: Vec<u64> = vec![1, 2, 3, 1, 2, 3];
    assert_eq!(sim.get_total_miss(trace.into_iter()), (6, 3));
}

#[test]
fn replay_of_empty_trace_counts_nothing() {
    let mut sim = Unbounded::default();
    let trace: Vec<u64> = Vec::new();
    assert_eq!(sim.get_total_miss(trace.into_iter()), (0, 0));
}

#[test]
fn miss_ratio_of_empty_trace_is_not_a_number() {
    let mut sim = Unbounded::default();
    let trace: Vec<u64> = Vec::new();
    let counts = sim.get_total_miss(trace.into_iter());
    assert!(miss_ratio(counts).is_nan());
}

#[test]
fn miss_ratio_of_cache_that_never_evicts() {
    let mut sim = Unbounded::default();
    let trace: Vec<u64> = vec![1, 2, 1, 2];
    let counts = sim.set_capacity(100).get_total_miss(trace.iter().copied());
    assert_eq!(counts, (4, 2));
    assert_eq!(miss_ratio(counts), 0.5);
}

#[test]
fn cache_that_never_evicts_misses_once_per_distinct_identifier() {
    let trace: Vec<u64> = vec![5, 1, 5, 2, 2, 9, 1, 5, 7, 9, 9, 3];
    let distinct: HashSet<u64> = trace.iter().copied().collect();
    let mut sim = Unbounded::default();
    let (total, miss) = sim.get_total_miss(trace.iter().copied());
    assert_eq!(total, trace.len());
    assert_eq!(miss, distinct.len());
}

#[test]
fn miss_ratio_counts_misses_over_accesses() {
    let mut sim = Unbounded::default();
    let trace: Vec<u64> = vec![7, 7, 7, 7, 8, 8, 8, 8];
    let counts = sim.get_total_miss(trace.into_iter());
    assert_eq!(counts, (8, 2));
    assert_eq!(miss_ratio(counts), 0.25);
}

#[test]
fn replay_of_cache_that_holds_nothing_misses_always() {
    let mut sim = AlwaysMiss;
    let trace: Vec<u8> = vec![1, 1, 1, 2, 2];
    assert_eq!(sim.get_total_miss(trace.into_iter()), (5, 5));
}

#[test]
fn replay_goes_through_the_trace_in_order() {
    let mut sim = Lru::default();
    sim.set_capacity(2);
    assert_eq!(sim.get_total_miss(["a", "b", "a", "c", "b", "a"].into_iter()), (6, 5));
    let mut sim = Lru::default();
    sim.set_capacity(2);
    assert_eq!(sim.get_total_miss(["a", "a", "b", "b", "c", "a"].into_iter()), (6, 4));
}

#[test]
fn replay_with_room_for_every_identifier() {
    let mut sim = Lru::default();
    let counts = sim.set_capacity(3).get_total_miss(["a", "b", "c", "a", "b", "c"].into_iter());
    assert_eq!(counts, (6, 3));
}

#[test]
fn replay_with_too_little_room_for_a_loop() {
    let mut sim = Lru::default();
    let counts = sim.set_capacity(2).get_total_miss(["a", "b", "c", "a", "b", "c"].into_iter());
    assert_eq!(counts, (6, 6));
}

#[test]
fn replay_leaves_the_simulator_in_its_last_state() {
    let mut sim = Lru::default();
    sim.set_capacity(2).get_total_miss(["a", "b", "c"].into_iter());
    assert_eq!(sim.cache_access("c"), AccessResult::Hit);
    assert_eq!(sim.cache_access("b"), AccessResult::Hit);
    assert_eq!(sim.cache_access("a"), AccessResult::Miss);
}

#[test]
fn replay_in_two_parts_counts_as_replay_of_the_whole() {
    let trace: Vec<&'static str> = vec!["a", "b", "c", "a", "d", "b", "a", "c", "c", "d", "a"];
    for capacity in 0..5 {
        let mut whole = Lru::default();
        let expected = whole.set_capacity(capacity).get_total_miss(trace.iter().copied());
        for cut in 0..=trace.len() {
            let mut parts = Lru::default();
            parts.set_capacity(capacity);
            let (total_a, miss_a) = parts.get_total_miss(trace[..cut].iter().copied());
            let (total_b, miss_b) = parts.get_total_miss(trace[cut..].iter().copied());
            assert_eq!((total_a + total_b, miss_a + miss_b), expected);
            assert_eq!(parts.order, whole.order);
        }
    }
}

#[test]
fn step_answers_as_cache_access_does() {
    let mut sim = Lru::default();
    sim.set_capacity(1);
    let (after, outcome) = sim.clone().step("a");
    assert_eq!(outcome, sim.cache_access("a"));
    assert_eq!(after.order, sim.order);
}
