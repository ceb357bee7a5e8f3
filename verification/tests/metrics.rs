use echo::array_spec::{array_sizes, ArraySpec};
use echo::ingress::{
    drain_round, finish_round, DrainerPool, PushStep, SampleSender, TransportHandle,
    TransportQueueItem,
};
use echo::metrics::Metrics;
use echo::selector::{FifoRemover, FifoSampler};
use echo::store::Store;

type FifoStore = Store<FifoSampler, FifoRemover>;

fn make_transport(id: u64, capacity: usize) -> TransportHandle {
    TransportHandle::new(id, 2, capacity)
}

fn fill(transport: &mut TransportHandle, metrics: &mut Metrics, n: usize, now: u64) {
    let sender = SampleSender { id: transport.id(), drainer: 0 };
    for _ in 0..n {
        let item = TransportQueueItem::new(vec![0u8; 2], now);
        assert!(matches!(sender.push(transport, item, metrics), PushStep::Queued));
    }
}

fn make_store_and_sizes() -> (FifoStore, Vec<usize>) {
    let specs = vec![ArraySpec::new(vec![2], 1)];
    let batch_size = 4;
    let num_batches = 4;
    let capacity = batch_size * num_batches;
    let sizes = array_sizes(&specs);
    let store = Store::new(
        specs,
        batch_size,
        num_batches,
        FifoSampler::new(batch_size, capacity),
        FifoRemover::new(),
    );
    (store, sizes)
}

fn make_store() -> FifoStore {
    make_store_and_sizes().0
}

// ---------------------------------------------------------------------------
// Metrics smoke tests — only exercise the public API.
// ---------------------------------------------------------------------------

#[test]
fn test_metrics_starts_zeroed() {
    let m = Metrics::new(4);
    assert_eq!(m.num_drainers(), 4);
    assert_eq!(m.active_connections(), 0);
    assert_eq!(m.push_blocked_count(), 0);
    assert_eq!(m.notify_count(), 0);
    assert_eq!(m.queue_depth_sum(), 0);
    assert_eq!(m.queue_depth_max(), 0);
    assert_eq!(m.samples_inserted_total(), 0);
}

#[test]
fn test_metrics_queue_depth_sum_and_max() {
    let mut m = Metrics::new(3);
    m.drainer_mut(0).record_queue_depth(10, 4);
    m.drainer_mut(1).record_queue_depth(3, 11);
    m.drainer_mut(2).record_queue_depth(7, 2);
    assert_eq!(m.queue_depth_sum(), 20);
    assert_eq!(m.queue_depth_max(), 11);
}

#[test]
fn test_metrics_active_connections_and_push_blocked() {
    let mut m = Metrics::new(1);
    m.record_connection_opened();
    m.record_connection_opened();
    m.record_connection_opened();
    m.record_connection_closed();
    assert_eq!(m.active_connections(), 2);

    for _ in 0..42 {
        m.record_push_blocked();
    }
    assert_eq!(m.push_blocked_count(), 42);
}

#[test]
fn test_metrics_notify_count() {
    let mut m = Metrics::new(1);
    m.record_notify();
    m.record_notifies(3);
    assert_eq!(m.notify_count(), 4);
}

// ---------------------------------------------------------------------------
// drain_round — public behaviour.
// ---------------------------------------------------------------------------

#[test]
fn test_drain_round_publishes_pre_drain_sum_and_max() {
    let (mut store, array_sizes) = make_store_and_sizes();
    let mut metrics = Metrics::new(1);

    let mut t1 = make_transport(1, 16);
    let mut t2 = make_transport(2, 16);
    // t1 has 3 items, t2 has 5 → sum=8, max=5.
    fill(&mut t1, &mut metrics, 3, 0);
    fill(&mut t2, &mut metrics, 5, 0);

    let mut transports = vec![t1, t2];
    let (round, _) =
        drain_round(&mut transports, &mut store, &array_sizes, &mut metrics, 0, 0, 0, 0);

    assert!(round.did_work());
    assert_eq!(metrics.drainer(0).queue_depth_sum(), 8);
    assert_eq!(metrics.drainer(0).queue_depth_max(), 5);
    assert_eq!(transports[0].depth(), 0, "q1 fully drained");
    assert_eq!(transports[1].depth(), 0, "q2 fully drained");
}

#[test]
fn test_drain_round_empty_queues_zero_sum() {
    let (mut store, array_sizes) = make_store_and_sizes();
    let mut metrics = Metrics::new(1);

    let mut transports = vec![make_transport(1, 16)];
    let (round, wakes) =
        drain_round(&mut transports, &mut store, &array_sizes, &mut metrics, 0, 0, 0, 0);

    assert!(!round.did_work());
    assert_eq!(wakes, 0);
    assert_eq!(metrics.drainer(0).queue_depth_sum(), 0);
    assert_eq!(metrics.drainer(0).queue_depth_max(), 0);
}

#[test]
fn test_drain_round_without_any_queue() {
    let (mut store, array_sizes) = make_store_and_sizes();
    let mut metrics = Metrics::new(1);
    let mut transports = vec![];
    let (round, _) =
        drain_round(&mut transports, &mut store, &array_sizes, &mut metrics, 0, 7, 0, 0);
    assert!(!round.did_work());
}

#[test]
fn test_drain_round_records_samples_inserted() {
    let (mut store, array_sizes) = make_store_and_sizes();
    let mut metrics = Metrics::new(1);

    let mut transport = make_transport(1, 16);
    fill(&mut transport, &mut metrics, 4, 0);
    let mut transports = vec![transport];

    let (round, _) =
        drain_round(&mut transports, &mut store, &array_sizes, &mut metrics, 0, 0, 0, 0);
    assert!(round.did_work());
    assert_eq!(metrics.drainer(0).samples_inserted(), 4);
    assert_eq!(metrics.samples_inserted_total(), 4);
}

#[test]
fn test_drain_round_records_detailed_counters() {
    let (mut store, array_sizes) = make_store_and_sizes();
    let mut metrics = Metrics::detailed(1);

    let mut transport = make_transport(1, 16);
    fill(&mut transport, &mut metrics, 4, 1_000);
    let mut transports = vec![transport];

    let (round, _) =
        drain_round(&mut transports, &mut store, &array_sizes, &mut metrics, 0, 0, 1_500, 0);
    assert!(round.is_done());
    finish_round(&mut transports, metrics.drainer_mut(0), round, 1_700);

    assert!(metrics.cas_success_total() >= 1);
    assert_eq!(metrics.memcpy_aggregate().count, 1);
    assert_eq!(metrics.queue_dwell_aggregate().count, 4);
    assert_eq!(metrics.queue_dwell_aggregate().recorded, vec![(500, 4)]);
    assert_eq!(metrics.drain_round_aggregate().count, 1);
    assert_eq!(metrics.drain_round_aggregate().recorded, vec![(200, 1)]);
}

#[test]
fn test_drain_round_notifies_consumer_after_batch_fills() {
    let specs = vec![ArraySpec::new(vec![2], 1)];
    let batch_size = 4;
    let num_batches = 2;
    let capacity = batch_size * num_batches;
    let mut metrics = Metrics::new(1);
    let array_sizes = array_sizes(&specs);
    let mut store = Store::new(
        specs,
        batch_size,
        num_batches,
        FifoSampler::new(batch_size, capacity),
        FifoRemover::new(),
    );

    let mut transport = make_transport(1, 16);
    fill(&mut transport, &mut metrics, batch_size, 0);
    let mut transports = vec![transport];

    assert_eq!(metrics.notify_count(), 0);

    let (_, wakes) =
        drain_round(&mut transports, &mut store, &array_sizes, &mut metrics, 0, 0, 0, 0);

    assert_eq!(wakes, 1);
    assert_eq!(metrics.notify_count(), 1);
    let _ = store.try_sample().0.expect("batch should be ready");
}

#[test]
fn test_drain_round_notifies_space_available() {
    // A drain round must ask for the producer of every queue that it popped
    // from to be woken, or a producer that waits after a failed push will sit
    // there forever.
    let (mut store, array_sizes) = make_store_and_sizes();
    let mut metrics = Metrics::new(1);

    let mut transport = make_transport(9, 2);
    fill(&mut transport, &mut metrics, 2, 0);
    assert_eq!(transport.depth(), 2, "queue is full");
    let sender = SampleSender { id: 9, drainer: 0 };
    let item = TransportQueueItem::new(vec![1, 2], 0);
    let PushStep::Full(item) = sender.push(&mut transport, item, &mut metrics) else {
        panic!("a full queue takes nothing");
    };
    assert_eq!(item.data, vec![1, 2], "the sample comes back");
    assert_eq!(metrics.push_blocked_count(), 1);

    let idle = make_transport(10, 2);
    let mut transports = vec![idle, transport];
    let (round, _) =
        drain_round(&mut transports, &mut store, &array_sizes, &mut metrics, 0, 0, 0, 0);
    assert_eq!(round.wakes, vec![9], "only the queue that was popped from");
    assert!(matches!(
        sender.push(&mut transports[1], item, &mut metrics),
        PushStep::Queued
    ));
}

#[test]
fn test_sender_lifecycle_tracks_active_connections() {
    let store = make_store();
    let mut metrics = Metrics::new(2);
    let mut pool = DrainerPool::new(&store, 2, 16);

    let (s1, mut t1) = pool.new_sender(&mut metrics);
    let (s2, mut t2) = pool.new_sender(&mut metrics);
    assert_eq!(metrics.active_connections(), 2);

    s1.close(&mut t1, &mut metrics);
    assert!(t1.is_closed());
    assert_eq!(metrics.active_connections(), 1);

    let (s3, mut t3) = pool.new_sender(&mut metrics);
    assert_eq!(metrics.active_connections(), 2);

    s2.close(&mut t2, &mut metrics);
    s3.close(&mut t3, &mut metrics);
    assert_eq!(metrics.active_connections(), 0);

    pool.shutdown();
    assert!(pool.is_shutdown());
}

#[test]
fn test_drainer_reset_histograms_clears_counts_and_extremes() {
    let mut m = Metrics::detailed(1);
    let d = m.drainer_mut(0);

    d.record_memcpy_ns(1_000);
    d.record_memcpy_ns(50_000_000); // big value → hits high bucket
    d.record_drain_round_ns(2_000);
    d.record_queue_dwell_ns(3_000);

    let pre = m.memcpy_aggregate();
    assert_eq!(pre.count, 2);
    assert!(pre.max_ns >= 50_000_000);
    assert!(pre.min_ns <= 1_000);
    assert_eq!(m.drain_round_aggregate().count, 1);
    assert_eq!(m.queue_dwell_aggregate().count, 1);

    m.drainer_mut(0).reset_histograms();

    let post_mc = m.memcpy_aggregate();
    let post_dr = m.drain_round_aggregate();
    let post_qd = m.queue_dwell_aggregate();
    // Counts cleared.
    assert_eq!(post_mc.count, 0);
    assert_eq!(post_dr.count, 0);
    assert_eq!(post_qd.count, 0);
    // Nothing is left to take a mean over.
    assert!(post_mc.recorded.is_empty());
    // After reset(), max should be back to the sentinel (0), not 50_000_000.
    assert_eq!(post_mc.max_ns, 0);

    // Recording again starts a fresh window.
    m.drainer_mut(0).record_memcpy_ns(7_000);
    let next = m.memcpy_aggregate();
    assert_eq!(next.count, 1);
    assert!(next.min_ns <= 7_000);
    assert!(next.max_ns >= 7_000);
    // Should NOT see the 50_000_000 from before reset.
    assert!(next.max_ns < 50_000_000);
}

#[test]
fn test_metrics_reset_histograms_clears_all_drainers() {
    let mut m = Metrics::detailed(3);
    m.drainer_mut(0).record_memcpy_ns(1_000);
    m.drainer_mut(1).record_memcpy_ns(2_000);
    m.drainer_mut(2).record_memcpy_ns(3_000);
    m.drainer_mut(0).record_drain_round_ns(4_000);
    m.drainer_mut(2).record_queue_dwell_ns(5_000);
    assert_eq!(m.memcpy_aggregate().count, 3);
    assert_eq!(m.drain_round_aggregate().count, 1);
    assert_eq!(m.queue_dwell_aggregate().count, 1);

    m.reset_histograms();

    assert_eq!(m.memcpy_aggregate().count, 0);
    assert_eq!(m.drain_round_aggregate().count, 0);
    assert_eq!(m.queue_dwell_aggregate().count, 0);
}

#[test]
fn test_concurrent_record_and_reset_no_panic() {
    let mut m = Metrics::detailed(2);
    for i in 0u64..2_000 {
        for drainer in 0..2 {
            let d = m.drainer_mut(drainer);
            d.record_memcpy_ns(1_000 + (i % 1_000_000));
            d.record_drain_round_ns(2_000 + (i % 1_000_000));
            d.record_queue_dwell_ns(3_000 + (i % 1_000_000));
        }
        if i % 100 == 0 {
            m.reset_histograms();
        }
    }
    m.reset_histograms();
    for snap in [
        m.memcpy_aggregate(),
        m.drain_round_aggregate(),
        m.queue_dwell_aggregate(),
    ] {
        assert_eq!(snap.count, 0);
        assert_eq!(snap.max_ns, 0);
        assert!(snap.recorded.is_empty());
    }
}

#[test]
fn test_reset_keeps_counters_and_gauges() {
    let mut m = Metrics::detailed(1);
    let d = m.drainer_mut(0);
    d.record_queue_depth(5, 3);
    d.record_samples_inserted(7);
    d.record_cas_success();
    d.record_cas_failure();
    d.record_cas_failure();
    d.record_reservation_retries(4);
    d.record_memcpy_ns(10);
    m.record_notify();
    m.reset_histograms();
    assert_eq!(m.queue_depth_sum(), 5);
    assert_eq!(m.queue_depth_max(), 3);
    assert_eq!(m.samples_inserted_total(), 7);
    assert_eq!(m.cas_success_total(), 1);
    assert_eq!(m.cas_failure_total(), 2);
    assert_eq!(m.reservation_retries_total(), 4);
    assert_eq!(m.notify_count(), 1);
    assert_eq!(m.memcpy_aggregate().count, 0);
}

#[test]
fn test_without_detail_everything_detailed_is_zero() {
    let mut m = Metrics::new(2);
    let d = m.drainer_mut(1);
    d.record_cas_success();
    d.record_cas_failure();
    d.record_reservation_retries(9);
    d.record_memcpy_ns(100);
    d.record_drain_round_ns(100);
    d.record_queue_dwell_ns(100);
    d.reset_histograms();
    assert_eq!(m.cas_success_total(), 0);
    assert_eq!(m.cas_failure_total(), 0);
    assert_eq!(m.reservation_retries_total(), 0);
    let snap = m.memcpy_aggregate();
    assert_eq!((snap.count, snap.min_ns, snap.max_ns), (0, 0, 0));
    assert!(snap.recorded.is_empty());
}

#[test]
fn test_small_durations_are_exact() {
    let mut m = Metrics::detailed(2);
    m.drainer_mut(0).record_memcpy_ns(5);
    m.drainer_mut(1).record_memcpy_ns(5);
    m.drainer_mut(1).record_memcpy_ns(2047);
    let snap = m.memcpy_aggregate();
    assert_eq!(snap.count, 3);
    assert_eq!(snap.min_ns, 5);
    assert_eq!(snap.max_ns, 2047);
    assert_eq!(snap.recorded, vec![(5, 2), (2047, 1)]);
}

#[test]
fn test_zero_duration_counts_as_one_nanosecond() {
    let mut m = Metrics::detailed(1);
    m.drainer_mut(0).record_drain_round_ns(0);
    assert_eq!(m.drain_round_aggregate().recorded, vec![(1, 1)]);
}

#[test]
fn test_large_durations_share_a_level() {
    let mut m = Metrics::detailed(1);
    // From 2048 on two neighbours fall together, from 4096 on four.
    m.drainer_mut(0).record_queue_dwell_ns(2048);
    m.drainer_mut(0).record_queue_dwell_ns(2049);
    m.drainer_mut(0).record_queue_dwell_ns(4101);
    let snap = m.queue_dwell_aggregate();
    assert_eq!(snap.count, 3);
    assert_eq!(snap.min_ns, 2048);
    assert_eq!(snap.max_ns, 4103);
    assert_eq!(snap.recorded, vec![(2049, 2), (4103, 1)]);
}

#[test]
fn test_durations_out_of_range_are_dropped() {
    let mut m = Metrics::detailed(1);
    m.drainer_mut(0).record_memcpy_ns(u64::MAX);
    assert_eq!(m.memcpy_aggregate().count, 0);
    m.drainer_mut(0).record_memcpy_ns(10_000_000_000);
    assert_eq!(m.memcpy_aggregate().count, 1);
    // 2048 * 2^23 is the first doubling above ten seconds.
    m.drainer_mut(0).record_memcpy_ns(17_179_869_183);
    assert_eq!(m.memcpy_aggregate().count, 2);
    m.drainer_mut(0).record_memcpy_ns(17_179_869_184);
    assert_eq!(m.memcpy_aggregate().count, 2);
}
