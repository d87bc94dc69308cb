use cache_sim::{footprint, materialize, reuse_interval, INF};

#[test]
fn materialize_keeps_every_access_in_order() {
    let buffer = materialize(vec![3u64, 1, 4, 1, 5, 9, 2, 6].into_iter());
    assert_eq!(buffer, vec![3, 1, 4, 1, 5, 9, 2, 6]);
}

#[test]
fn materialize_of_nothing_is_empty() {
    let buffer: Vec<u32> = materialize(std::iter::empty());
    assert!(buffer.is_empty());
}

#[test]
fn materialize_reads_a_sequence_that_is_produced_once() {
    let mut produced = 0;
    let source = (0..5u64).map(|i| {
        produced += 1;
        i % 2
    });
    let buffer = materialize(source);
    assert_eq!(buffer, vec![0, 1, 0, 1, 0]);
    assert_eq!(produced, 5);
}

#[test]
fn materialized_trace_can_be_analysed_more_than_once() {
    let buffer = materialize("abcab".chars().map(|c| c.to_string()));
    assert_eq!(reuse_interval(&buffer), vec![INF, INF, INF, 3, 3]);
    assert_eq!(footprint(&buffer).len(), 6);
    assert_eq!(reuse_interval(&buffer), vec![INF, INF, INF, 3, 3]);
}
