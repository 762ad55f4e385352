use w3s_cli::progress::{ProgressAggregator, Snapshot};

fn summary(s: &Snapshot) -> (u128, u128, Vec<usize>) {
    (s.sum_position, s.sum_total, s.active_parts.clone())
}

#[test]
fn fresh_aggregator_is_empty() {
    let agg = ProgressAggregator::new();
    assert_eq!(summary(&agg.snapshot()), (0, 0, vec![]));
}

#[test]
fn sums_over_distinct_parts_in_any_order() {
    let events = [(3usize, 10usize, 100usize), (1, 5, 50), (7, 0, 20), (2, 40, 40)];
    let mut forward = ProgressAggregator::new();
    let mut last = None;
    for &(id, pos, total) in events.iter() {
        last = Some(summary(&forward.update(id, pos, total)));
    }
    assert_eq!(last.take().unwrap(), (55, 210, vec![1, 3, 7]));
    let mut backward = ProgressAggregator::new();
    for &(id, pos, total) in events.iter().rev() {
        last = Some(summary(&backward.update(id, pos, total)));
    }
    assert_eq!(last.take().unwrap(), (55, 210, vec![1, 3, 7]));
}

#[test]
fn latest_event_of_a_part_counts() {
    let mut agg = ProgressAggregator::new();
    agg.update(4, 10, 100);
    agg.update(4, 60, 100);
    let s = agg.update(9, 1, 2);
    assert_eq!(summary(&s), (61, 102, vec![4, 9]));
}

#[test]
fn part_complete_on_first_event_is_not_active() {
    let mut agg = ProgressAggregator::new();
    agg.update(2, 0, 10);
    let s = agg.update(5, 30, 30);
    assert_eq!(summary(&s), (30, 40, vec![2]));
}

#[test]
fn finished_part_stays_out_on_duplicate_event() {
    let mut agg = ProgressAggregator::new();
    agg.update(1, 5, 10);
    let s = agg.update(1, 10, 10);
    assert_eq!(summary(&s), (10, 10, vec![]));
    let s = agg.update(1, 10, 10);
    assert_eq!(summary(&s), (10, 10, vec![]));
    let s = agg.update(0, 1, 10);
    assert_eq!(summary(&s), (11, 20, vec![0]));
}

#[test]
fn active_parts_are_sorted_numerically() {
    let mut agg = ProgressAggregator::new();
    for id in [30usize, 2, 100, 11, 0] {
        agg.update(id, 1, 5);
    }
    assert_eq!(agg.snapshot().active_parts, vec![0, 2, 11, 30, 100]);
}

#[test]
fn large_values_do_not_overflow() {
    let mut agg = ProgressAggregator::new();
    agg.update(0, usize::MAX, usize::MAX);
    let s = agg.update(1, usize::MAX, usize::MAX);
    assert_eq!(s.sum_position, 2 * usize::MAX as u128);
    assert_eq!(s.sum_total, 2 * usize::MAX as u128);
    assert!(s.active_parts.is_empty());
}

/// A small linear congruential generator, so interleavings are reproducible.
fn next(seed: &mut u64) -> u64 {
    *seed = seed.wrapping_mul(6364136223846793005).wrapping_add(1442695040888963407);
    *seed >> 33
}

#[test]
fn interleaved_parts_match_sequential_replay() {
    let parts = 8usize;
    let steps = 100usize;
    let total = 1000usize;
    let mut sequential = ProgressAggregator::new();
    for p in 0..parts {
        for k in 1..=steps {
            sequential.update(p, k * total / steps, total);
        }
    }
    let expected = summary(&sequential.snapshot());
    assert_eq!(expected, ((parts * total) as u128, (parts * total) as u128, vec![]));

    for seed0 in [1u64, 42, 7777] {
        let mut seed = seed0;
        let mut sent = vec![0usize; parts];
        let mut agg = ProgressAggregator::new();
        let mut remaining = parts * steps;
        while remaining > 0 {
            let p = (next(&mut seed) as usize) % parts;
            if sent[p] < steps {
                sent[p] += 1;
                agg.update(p, sent[p] * total / steps, total);
                remaining -= 1;
            }
        }
        assert_eq!(summary(&agg.snapshot()), expected);
    }
}
