use echo::array_spec::ArraySpec;
use echo::metrics::Metrics;
use echo::ring_buf::RingDefect;
use echo::selector::{FifoRemover, FifoSampler};
use echo::store::{
    find_defect, ConsumerView, InsertReport, InsertStep, SampleStep, Store, StoreDefect,
};

type FifoStore = Store<FifoSampler, FifoRemover>;

fn make_store(batch_size: usize, num_batches: usize) -> FifoStore {
    let specs = vec![ArraySpec::new(vec![2], 1)]; // 2 bytes per sample
    let capacity = batch_size * num_batches;
    Store::new(
        specs,
        batch_size,
        num_batches,
        FifoSampler::new(batch_size, capacity),
        FifoRemover::new(),
    )
}

fn read_data(store: &FifoStore, view: &ConsumerView) -> Vec<u8> {
    assert_eq!(view.arrays.len(), 1);
    store.view_bytes(view, 0).to_vec()
}

fn sampled(step: (SampleStep, bool)) -> ConsumerView {
    match step.0 {
        SampleStep::Ready(view) => view,
        other => panic!("no batch: {other:?}"),
    }
}

#[test]
fn test_insert_and_sample_basic() {
    let mut store = make_store(2, 2);
    store.insert_sync(&[&[0xAA, 0xBB]]);
    store.insert_sync(&[&[0xCC, 0xDD]]);

    let view = store.try_sample().0.expect("should have a batch");
    assert_eq!(view.count, 2);
    assert_eq!(view.arrays, vec![(0, 4)]);
    assert_eq!(read_data(&store, &view), vec![0xAA, 0xBB, 0xCC, 0xDD]);
}

#[test]
fn test_multi_array() {
    let specs = vec![ArraySpec::new(vec![2], 1), ArraySpec::new(vec![3], 1)];
    let capacity = 4;
    let mut store = Store::new(
        specs,
        2,
        2,
        FifoSampler::new(2, capacity),
        FifoRemover::new(),
    );

    store.insert_sync(&[&[0x01, 0x02], &[0x10, 0x20, 0x30]]);
    store.insert_sync(&[&[0x03, 0x04], &[0x40, 0x50, 0x60]]);

    let view = store.try_sample().0.unwrap();
    assert_eq!(view.count, 2);

    let d0 = store.view_bytes(&view, 0);
    let d1 = store.view_bytes(&view, 1);
    assert_eq!(d0, &[0x01, 0x02, 0x03, 0x04]);
    assert_eq!(d1, &[0x10, 0x20, 0x30, 0x40, 0x50, 0x60]);
}

#[test]
fn test_pool_cycling() {
    let mut store = make_store(2, 3);

    store.insert_sync(&[&[0x01, 0x02]]);
    store.insert_sync(&[&[0x03, 0x04]]);
    let v1 = store.try_sample().0.unwrap();
    assert_eq!(read_data(&store, &v1), vec![0x01, 0x02, 0x03, 0x04]);

    store.insert_sync(&[&[0x05, 0x06]]);
    store.insert_sync(&[&[0x07, 0x08]]);
    let v2 = store.try_sample().0.unwrap();
    assert_eq!(read_data(&store, &v2), vec![0x05, 0x06, 0x07, 0x08]);

    store.insert_sync(&[&[0x09, 0x0A]]);
    store.insert_sync(&[&[0x0B, 0x0C]]);
    let v3 = store.try_sample().0.unwrap();
    assert_eq!(read_data(&store, &v3), vec![0x09, 0x0A, 0x0B, 0x0C]);
}

#[test]
fn test_try_sample_not_enough() {
    let mut store = make_store(4, 2);
    store.insert_sync(&[&[0x01, 0x02]]);
    store.insert_sync(&[&[0x03, 0x04]]);
    assert!(store.try_sample().0.is_none());
}

#[test]
fn test_try_sample_releases_previous() {
    let mut store = make_store(2, 2); // capacity=4

    store.insert_sync(&[&[0x01, 0x02]]);
    store.insert_sync(&[&[0x03, 0x04]]);
    let _v1 = store.try_sample().0.unwrap();

    store.insert_sync(&[&[0x05, 0x06]]);
    store.insert_sync(&[&[0x07, 0x08]]);
    assert_eq!(store.insert_sync(&[&[0x77, 0x77]]), InsertStep::Full);

    // Ring is full (4 used). try_sample releases previous batch first.
    let (v2, wake_writers) = store.try_sample();
    let v2 = v2.unwrap();
    assert!(wake_writers, "writers were waiting for room");
    assert_eq!(read_data(&store, &v2), vec![0x05, 0x06, 0x07, 0x08]);

    // After releasing v1's slots, we can insert again.
    assert_eq!(store.insert_sync(&[&[0x09, 0x0A]]), InsertStep::Inserted { wake: false });
    assert!(store.try_sample().0.is_none()); // only 1, need 2

    assert_eq!(store.insert_sync(&[&[0x0B, 0x0C]]), InsertStep::Inserted { wake: true });
    assert!(store.try_sample().0.is_some());
}

#[test]
fn test_shutdown_returns_none() {
    let mut store = make_store(2, 2);
    assert!(matches!(store.sample().0, SampleStep::Wait));
    assert!(!store.is_shutdown());

    store.shutdown();

    assert!(store.is_shutdown());
    assert!(matches!(store.sample().0, SampleStep::Shutdown));
}

#[test]
fn test_backpressure() {
    let mut store = make_store(2, 2); // capacity=4

    store.insert_sync(&[&[0x01, 0x02]]);
    store.insert_sync(&[&[0x02, 0x03]]);
    store.insert_sync(&[&[0x03, 0x04]]);
    store.insert_sync(&[&[0x04, 0x05]]);
    // Ring full.

    assert_eq!(store.insert_sync(&[&[0xFF, 0xFE]]), InsertStep::Full);

    // sample() releases previous batch's slots on next call.
    let _v1 = sampled(store.sample()); // consumes batch, marks has_previous
    assert_eq!(store.insert(&[&[0xFF, 0xFE]]), InsertStep::Full);
    let _v2 = sampled(store.sample()); // releases batch 1, consumes batch 2

    assert_eq!(store.insert(&[&[0xFF, 0xFE]]), InsertStep::Inserted { wake: false });
}

#[test]
fn test_num_batches_minimum() {
    let specs = vec![ArraySpec::new(vec![2], 1)];
    assert_eq!(find_defect(&specs, 2, 1), Some(StoreDefect::TooFewBatches));
    assert_eq!(find_defect(&specs, 2, 2), None);
}

#[test]
fn test_other_store_defects() {
    let specs = vec![ArraySpec::new(vec![2], 1)];
    assert_eq!(find_defect(&specs, usize::MAX, 2), Some(StoreDefect::CapacityOverflow));
    assert_eq!(
        find_defect(&specs, 0, 2),
        Some(StoreDefect::Ring(RingDefect::NoCapacity))
    );
    assert_eq!(
        find_defect(&vec![], 2, 2),
        Some(StoreDefect::Ring(RingDefect::NoArrays))
    );
    let huge = vec![ArraySpec::new(vec![usize::MAX / 4], 1)];
    assert_eq!(find_defect(&huge, 2, 2), Some(StoreDefect::TooLarge));
}

#[test]
fn test_store_size_tracks_commits_and_samples() {
    let mut store = make_store(2, 2);
    assert_eq!(store.size(), 0, "empty store");

    store.insert_sync(&[&[0xAA, 0xBB]]);
    store.insert_sync(&[&[0xCC, 0xDD]]);
    assert_eq!(store.size(), 2, "2 inserted, none sampled");

    let _view = store.try_sample().0.expect("batch ready");
    assert_eq!(store.size(), 0, "batch sampled → queue empty");
}

#[test]
fn test_many_batches_sequential() {
    let mut store = make_store(2, 3);
    for batch_idx in 0u8..10 {
        let a = batch_idx * 2;
        let b = batch_idx * 2 + 1;
        store.insert_sync(&[&[a, 0]]);
        store.insert_sync(&[&[b, 0]]);
        let view = sampled(store.sample());
        let data = read_data(&store, &view);
        assert_eq!(data[0], a);
        assert_eq!(data[2], b);
    }
}

#[test]
fn test_insert_batch_splits_across_batch_boundary() {
    // batch_size=4, num_batches=3, capacity=12. Inserting 10 samples in one
    // call forces 3 reservations: 4+4+2.
    let mut store = make_store(4, 3);
    let mut metrics = Metrics::detailed(1);
    let array_sizes = vec![2usize]; // one array, 2 bytes per sample

    // Each sample is 2 bytes. Tag byte 0 = index; byte 1 = 0xEE.
    let samples: Vec<Vec<u8>> = (0u8..10).map(|i| vec![i, 0xEE]).collect();
    let refs: Vec<&[u8]> = samples.iter().map(|v| v.as_slice()).collect();

    let report = store.insert_batch(&refs, &array_sizes, 0, Some(metrics.drainer_mut(0)));
    assert_eq!(report, InsertReport { done: 10, wakes: 2 });

    // Drainer-path samples are counted, so we can assert the exact count.
    assert_eq!(metrics.samples_inserted_total(), 10);
    assert_eq!(metrics.cas_success_total(), 3);
    assert_eq!(metrics.memcpy_aggregate().count, 3);

    // Pull batch 0 (samples 0..4) and batch 1 (samples 4..8). Batch 2
    // (only 2 of 4 slots filled) is not ready yet.
    let v0 = store.try_sample().0.expect("batch 0 ready");
    assert_eq!(v0.count, 4);
    assert_eq!(read_data(&store, &v0), vec![0, 0xEE, 1, 0xEE, 2, 0xEE, 3, 0xEE]);

    let v1 = store.try_sample().0.expect("batch 1 ready");
    assert_eq!(v1.count, 4);
    assert_eq!(read_data(&store, &v1), vec![4, 0xEE, 5, 0xEE, 6, 0xEE, 7, 0xEE]);

    assert!(store.try_sample().0.is_none(), "batch 2 only half full");
}

#[test]
fn test_insert_batch_concurrent_preserves_count_and_integrity() {
    // Writers must neither lose nor duplicate samples. batch=4, num_batches=6,
    // capacity=24; 4 writers × 4 samples = 16 (no backpressure).
    const WRITERS: u8 = 4;
    const PER_WRITER: u8 = 4;
    const TOTAL: usize = (WRITERS as usize) * (PER_WRITER as usize);

    let mut store = make_store(4, 6);
    let mut metrics = Metrics::detailed(WRITERS as usize);
    let array_sizes = vec![2usize];

    // Each writer submits its samples in a single call, having been beaten to
    // the store by those before it.
    for t in 0..WRITERS {
        let samples: Vec<Vec<u8>> = (0..PER_WRITER).map(|i| vec![t, i]).collect();
        let refs: Vec<&[u8]> = samples.iter().map(|v| v.as_slice()).collect();
        let drainer = metrics.drainer_mut(t as usize);
        let report = store.insert_batch(&refs, &array_sizes, t as u64, Some(drainer));
        assert_eq!(report.done, PER_WRITER as usize);
    }
    assert_eq!(metrics.cas_failure_total(), 1 + 2 + 3);
    assert_eq!(metrics.cas_success_total(), 4);

    // Each drainer reports its own samples_inserted; aggregate must equal total.
    assert_eq!(metrics.samples_inserted_total(), TOTAL as u64);
    check_pairs(&mut store, WRITERS, PER_WRITER);
}

#[test]
fn test_insert_run_in_turns_preserves_count_and_integrity() {
    // Runs of different lengths: the claims do not end with the batches.
    const WRITERS: u8 = 4;
    const PER_WRITER: u8 = 4;

    let mut store = make_store(4, 6);
    let mut metrics = Metrics::new(WRITERS as usize);
    let mut done = [0u8; WRITERS as usize];
    let mut turn = 0usize;
    while done.iter().any(|&d| d < PER_WRITER) {
        let t = turn % WRITERS as usize;
        let upto = PER_WRITER.min(done[t] + 1 + (turn % 3) as u8);
        let samples: Vec<Vec<u8>> = (done[t]..upto).map(|i| vec![t as u8, i]).collect();
        let refs: Vec<&[u8]> = samples.iter().map(|v| v.as_slice()).collect();
        let drainer = metrics.drainer_mut(t);
        if let Some(report) = store.insert_run(&refs, &[2], 0, Some(drainer)) {
            done[t] += report.done as u8;
        }
        turn += 1;
    }
    assert_eq!(metrics.samples_inserted_total(), 16);
    check_pairs(&mut store, WRITERS, PER_WRITER);
}

/// Pulls every committed sample and rebuilds the multiset. Regardless of
/// arrival order, each (writer, index) pair must be there exactly once.
fn check_pairs(store: &mut FifoStore, writers: u8, per_writer: u8) {
    let total = (writers as usize) * (per_writer as usize);
    let mut seen: Vec<(u8, u8)> = Vec::with_capacity(total);
    for _ in 0..(total / 4) {
        let v = sampled(store.sample());
        let data = read_data(store, &v);
        for chunk in data.chunks(2) {
            seen.push((chunk[0], chunk[1]));
        }
    }
    seen.sort();
    let mut expected: Vec<(u8, u8)> = (0..writers)
        .flat_map(|t| (0..per_writer).map(move |i| (t, i)))
        .collect();
    expected.sort();
    assert_eq!(seen, expected, "no loss, no duplication, no corruption");
}

#[test]
fn test_interleaved_claims_preserve_count_and_integrity() {
    // Writers that take turns at single reservations must neither lose nor
    // duplicate samples. batch=4, num_batches=6, capacity=24; 4 writers × 4
    // samples = 16.
    const WRITERS: u8 = 4;
    const PER_WRITER: u8 = 4;
    const TOTAL: usize = (WRITERS as usize) * (PER_WRITER as usize);

    let mut store = make_store(4, 6);
    let mut metrics = Metrics::new(WRITERS as usize);
    let array_sizes = vec![2usize];

    // Every writer claims before any of them copies, and they commit in
    // reverse.
    let mut claims = Vec::new();
    for round in 0..PER_WRITER {
        for t in 0..WRITERS {
            let claim = store
                .try_reserve_slots(1, 0, Some(metrics.drainer_mut(t as usize)))
                .expect("there is room");
            assert_eq!(claim.1, 1);
            claims.push((t, round, claim.0));
        }
    }
    for &(t, i, start) in claims.iter().rev() {
        let sample = [t, i];
        store.write_reserved(start, &[&sample], &array_sizes);
        store.commit_reserved(start, 1);
        metrics.drainer_mut(t as usize).record_samples_inserted(1);
    }

    // Each drainer reports its own samples_inserted; aggregate must equal total.
    assert_eq!(metrics.samples_inserted_total(), TOTAL as u64);

    check_pairs(&mut store, WRITERS, PER_WRITER);
}

#[test]
fn test_concurrent_insert_data_integrity() {
    let mut store = make_store(4, 3); // batch=4, capacity=12

    for i in 0u8..12 {
        assert_ne!(store.insert_sync(&[&[i, i + 100]]), InsertStep::Full);
    }

    let mut all_values = vec![];
    for _ in 0..3 {
        let view = sampled(store.sample());
        let data = read_data(&store, &view);
        for chunk in data.chunks(2) {
            all_values.push((chunk[0], chunk[1]));
        }
    }

    all_values.sort();
    let expected: Vec<(u8, u8)> = (0u8..12).map(|i| (i, i + 100)).collect();
    assert_eq!(all_values, expected);
}

#[test]
fn test_insert_batch_stops_when_the_ring_is_full() {
    let mut store = make_store(4, 2); // capacity=8
    let array_sizes = vec![2usize];
    let samples: Vec<Vec<u8>> = (0u8..11).map(|i| vec![i, 0]).collect();
    let refs: Vec<&[u8]> = samples.iter().map(|v| v.as_slice()).collect();

    let report = store.insert_batch(&refs, &array_sizes, 0, None);
    assert_eq!(report, InsertReport { done: 8, wakes: 2 });
    assert_eq!(
        store.insert_batch(&refs[8..], &array_sizes, 0, None),
        InsertReport { done: 0, wakes: 0 }
    );

    // The consumer takes one batch and gives it back with the next.
    let (v0, wake) = store.try_sample();
    assert!(!wake, "nothing was given back yet");
    assert_eq!(read_data(&store, &v0.unwrap()), vec![0, 0, 1, 0, 2, 0, 3, 0]);
    let (v1, wake) = store.try_sample();
    assert!(wake);
    assert_eq!(read_data(&store, &v1.unwrap()), vec![4, 0, 5, 0, 6, 0, 7, 0]);

    let report = store.insert_batch(&refs[8..], &array_sizes, 0, None);
    assert_eq!(report, InsertReport { done: 3, wakes: 0 });
    assert_eq!(store.size(), 3);
}

#[test]
fn test_insert_batch_of_nothing() {
    let mut store = make_store(4, 2);
    let mut metrics = Metrics::detailed(1);
    let report = store.insert_batch(&[], &[2], 5, Some(metrics.drainer_mut(0)));
    assert_eq!(report, InsertReport { done: 0, wakes: 0 });
    assert_eq!(metrics.cas_failure_total(), 0);
    assert_eq!(metrics.cas_success_total(), 0);
}

#[test]
fn test_lost_claims_are_counted() {
    let mut store = make_store(4, 2);
    let mut metrics = Metrics::detailed(1);
    let claim = store.try_reserve_slots(3, 2, Some(metrics.drainer_mut(0)));
    assert_eq!(claim, Some((0, 3)));
    assert_eq!(metrics.cas_success_total(), 1);
    assert_eq!(metrics.cas_failure_total(), 2);
    assert_eq!(metrics.reservation_retries_total(), 2);
    // One position is left in the batch.
    assert_eq!(store.try_reserve_slots(9, 0, None), Some((3, 1)));
    assert_eq!(store.try_reserve_slots(9, 0, None), Some((4, 4)));
    // Full now.
    let claim = store.try_reserve_slots(1, 1, Some(metrics.drainer_mut(0)));
    assert_eq!(claim, None);
    assert_eq!(metrics.cas_success_total(), 1);
    assert_eq!(metrics.cas_failure_total(), 3);
    assert_eq!(metrics.reservation_retries_total(), 3);
}

#[test]
fn test_samples_are_cut_into_arrays() {
    let specs = vec![ArraySpec::new(vec![2], 1), ArraySpec::new(vec![1], 2)];
    let mut store = Store::new(specs, 2, 2, FifoSampler::new(2, 4), FifoRemover::new());
    let a = [1u8, 2, 3, 4];
    let b = [5u8, 6, 7, 8];
    let report = store.insert_run(&[&a, &b], &[2, 2], 0, None);
    assert_eq!(report, Some(InsertReport { done: 2, wakes: 1 }));
    let view = store.try_sample().0.unwrap();
    assert_eq!(store.view_bytes(&view, 0), &[1, 2, 5, 6]);
    assert_eq!(store.view_bytes(&view, 1), &[3, 4, 7, 8]);
}

#[test]
fn test_a_batch_stays_untouched_until_it_is_given_back() {
    let mut store = make_store(2, 2);
    store.insert_sync(&[&[1, 1]]);
    store.insert_sync(&[&[2, 2]]);
    let view = store.try_sample().0.unwrap();
    // Two more fit beside the batch that is being read; a third does not.
    assert_ne!(store.insert_sync(&[&[3, 3]]), InsertStep::Full);
    assert_ne!(store.insert_sync(&[&[4, 4]]), InsertStep::Full);
    assert_eq!(store.insert_sync(&[&[5, 5]]), InsertStep::Full);
    assert_eq!(read_data(&store, &view), vec![1, 1, 2, 2]);
}

#[test]
fn test_store_accessors() {
    let store = make_store(4, 3);
    assert_eq!(store.batch_size(), 4);
    assert_eq!(store.capacity(), 12);
    assert_eq!(store.specs().len(), 1);
    assert_eq!(store.specs()[0].shape, vec![2]);
    assert_eq!(store.specs()[0].dtype_size, 1);
}

#[test]
fn buffer_holds_all_slots_of_an_array() {
    let specs = vec![ArraySpec::new(vec![2], 1), ArraySpec::new(vec![1], 1)];
    let mut store = Store::new(specs, 2, 2, FifoSampler::new(2, 4), FifoRemover::new());
    assert_eq!(store.num_arrays(), 2);
    assert_eq!(store.write_pos(), 0);
    assert_eq!(store.buffer(0), &[0u8; 8]);

    store.insert_sync(&[&[1, 2], &[3]]);
    store.insert_sync(&[&[4, 5], &[6]]);
    assert_eq!(store.write_pos(), 2);
    assert_eq!(store.buffer(0), &[1, 2, 4, 5, 0, 0, 0, 0]);
    assert_eq!(store.buffer(1), &[3, 6, 0, 0]);
}

#[test]
fn the_consumer_is_woken_once_per_full_batch() {
    let mut store = make_store(2, 3);
    let sample: &[u8] = &[7, 8];
    let report = store.insert_batch(&[sample; 5], &[2], 0, None);
    assert_eq!(report, InsertReport { done: 5, wakes: 2 });
    assert_eq!(
        store.insert_sync(&[sample]),
        InsertStep::Inserted { wake: true }
    );
}

#[test]
fn a_held_batch_stays_while_writers_fill_the_ring() {
    let mut store = make_store(2, 3);
    for i in 0..2u8 {
        store.insert_sync(&[&[i, i + 10]]);
    }
    let view = sampled(store.sample());
    let held = read_data(&store, &view);
    for _ in 0..4 {
        assert!(matches!(
            store.insert_sync(&[&[0xEE, 0xEE]]),
            InsertStep::Inserted { .. }
        ));
    }
    assert_eq!(store.insert_sync(&[&[0xEE, 0xEE]]), InsertStep::Full);
    assert_eq!(read_data(&store, &view), held);
    assert_eq!(held, vec![0, 10, 1, 11]);
}

#[test]
fn inserting_together_is_inserting_one_by_one() {
    let samples: Vec<Vec<u8>> = (0u8..5).map(|i| vec![i, 100 + i]).collect();
    let slices: Vec<&[u8]> = samples.iter().map(|s| s.as_slice()).collect();
    let mut together = make_store(2, 3);
    assert_eq!(together.insert_batch(&slices, &[2], 0, None).done, 5);
    let mut each = make_store(2, 3);
    for &sample in &slices {
        each.insert_sync(&[sample]);
    }
    assert_eq!(together.buffer(0), each.buffer(0));
    assert_eq!(together.size(), each.size());
    assert_eq!(together.write_pos(), each.write_pos());
}

#[test]
fn reservations_are_adjacent_and_end_with_their_batch() {
    let mut store = make_store(4, 2);
    assert_eq!(store.try_reserve_slots(3, 0, None), Some((0, 3)));
    assert_eq!(store.try_reserve_slots(3, 0, None), Some((3, 1)));
    assert_eq!(store.try_reserve_slots(0, 0, None), None);
    assert_eq!(store.try_reserve_slots(9, 0, None), Some((4, 4)));
    assert_eq!(store.try_reserve_slots(1, 0, None), None);
}

#[test]
fn a_batch_is_given_back_once() {
    let mut store = make_store(2, 2);
    for i in 0u8..4 {
        store.insert_sync(&[&[i, i]]);
    }
    assert!(store.try_sample().0.is_some());
    assert_eq!(store.insert_sync(&[&[9, 9]]), InsertStep::Full);
    let (second, wake) = store.try_sample();
    assert!(second.is_some() && wake);
    // Nothing is ready, but the batch that was held is given back.
    let (none, wake) = store.try_sample();
    assert!(none.is_none() && !wake);
    assert!(store.try_sample().0.is_none());
    for i in 0u8..4 {
        assert!(matches!(store.insert_sync(&[&[i, i]]), InsertStep::Inserted { .. }));
    }
    assert_eq!(store.insert_sync(&[&[9, 9]]), InsertStep::Full);
}
