//! Tests for the ingress pipeline: per-connection queues, buffer pooling, the
//! producer's end, and the drainer's rounds.

use echo::array_spec::{array_sizes, ArraySpec};
use echo::ingress::{
    drain_round, finish_round, position, prune, resume_round, Drainer, DrainerPool, DrainerStep,
    PushStep, SampleSender, TransportHandle, TransportQueueItem,
};
use echo::metrics::Metrics;
use echo::selector::{FifoRemover, FifoSampler};
use echo::store::Store;

type FifoStore = Store<FifoSampler, FifoRemover>;

fn make_store(batch_size: usize, num_batches: usize, elem_bytes: usize) -> FifoStore {
    let specs = vec![ArraySpec::new(vec![elem_bytes], 1)];
    let capacity = batch_size * num_batches;
    Store::new(
        specs,
        batch_size,
        num_batches,
        FifoSampler::new(batch_size, capacity),
        FifoRemover::new(),
    )
}

fn push(sender: &SampleSender, transport: &mut TransportHandle, metrics: &mut Metrics, data: Vec<u8>) -> bool {
    let item = TransportQueueItem::new(data, 0);
    matches!(sender.push(transport, item, metrics), PushStep::Queued)
}

// ---------------------------------------------------------------------------
// Buffer recycling into the free pool.
// ---------------------------------------------------------------------------

#[test]
fn test_item_drop_recycles_buffer_into_pool() {
    // Length is preserved so a subsequent read overwrites the buffer in place.
    let mut transport = TransportHandle::new(0, 4, 4);
    let sender = SampleSender { id: 0, drainer: 0 };
    let item = TransportQueueItem::new(vec![0xAA, 0xBB, 0xCC, 0xDD], 0);
    transport.recycle(item);

    assert_eq!(transport.pooled(), 1);
    let buf = sender.acquire(&mut transport, 4);
    assert_eq!(buf.len(), 4, "len preserved");
    assert_eq!(
        buf,
        vec![0xAA, 0xBB, 0xCC, 0xDD],
        "bytes preserved (stale-OK)"
    );
    assert_eq!(transport.pooled(), 0);
}

#[test]
fn test_item_drop_with_full_pool_does_not_panic() {
    // The free pool is bounded: a buffer too many is dropped.
    let mut transport = TransportHandle::new(0, 8, 1);
    for _ in 0..3 {
        transport.recycle(TransportQueueItem::new(vec![0u8; 8], 0));
    }
    assert_eq!(transport.pooled(), 3, "2Q+1");
    transport.recycle(TransportQueueItem::new(vec![1u8; 8], 0));
    assert_eq!(transport.pooled(), 3, "full pool still holds what it held");
}

// ---------------------------------------------------------------------------
// acquire — empty pool returns a fresh zeroed buffer.
// ---------------------------------------------------------------------------

#[test]
fn test_acquire_returns_fresh_zeroed_buffer_when_pool_empty() {
    let store = make_store(4, 2, 16);
    let mut metrics = Metrics::new(1);
    let mut pool = DrainerPool::new(&store, 1, 4);
    let (sender, mut transport) = pool.new_sender(&mut metrics);

    let buf = sender.acquire(&mut transport, 16);
    assert_eq!(buf.len(), 16);
    assert!(buf.iter().all(|&b| b == 0), "fresh allocation is zeroed");

    pool.shutdown();
}

#[test]
fn test_acquire_takes_the_oldest_buffer_whatever_its_length() {
    let mut transport = TransportHandle::new(3, 1, 2);
    let sender = SampleSender { id: 3, drainer: 0 };
    transport.recycle(TransportQueueItem::new(vec![1], 0));
    transport.recycle(TransportQueueItem::new(vec![2, 2], 0));
    assert_eq!(sender.acquire(&mut transport, 9), vec![1]);
    assert_eq!(sender.acquire(&mut transport, 9), vec![2, 2]);
    assert_eq!(sender.acquire(&mut transport, 2), vec![0, 0]);
}

// ---------------------------------------------------------------------------
// Full pipeline: push -> drain round -> store.
// ---------------------------------------------------------------------------

#[test]
fn test_push_lands_samples_in_store() {
    let batch_size = 4;
    let elem_bytes = 2;
    let mut store = make_store(batch_size, 4, elem_bytes);
    let sizes = array_sizes(store.specs());
    let mut metrics = Metrics::new(1);
    let mut pool = DrainerPool::new(&store, 1, 16);
    let (sender, transport) = pool.new_sender(&mut metrics);
    let mut drainer = Drainer::new();
    drainer.adopt(transport);

    for i in 0u8..4 {
        let at = position(&drainer.transports, sender.id).unwrap();
        let mut buf = sender.acquire(&mut drainer.transports[at], elem_bytes);
        buf[0] = i;
        buf[1] = 0xEE;
        assert!(push(&sender, &mut drainer.transports[at], &mut metrics, buf));
    }

    assert_eq!(drainer.next_step(&pool), DrainerStep::Round);
    let (round, wakes) = drain_round(
        &mut drainer.transports,
        &mut store,
        &sizes,
        &mut metrics,
        sender.drainer,
        drainer.round_counter,
        0,
        0,
    );
    assert_eq!(wakes, 1);
    assert!(round.is_done());
    finish_round(&mut drainer.transports, metrics.drainer_mut(0), round, 0);
    drainer.end_turn();
    assert_eq!(drainer.round_counter, 1);

    let view = store.try_sample().0.expect("batch is ready");
    assert_eq!(view.count, 4);
    assert_eq!(store.view_bytes(&view, 0), &[0, 0xEE, 1, 0xEE, 2, 0xEE, 3, 0xEE]);

    // The buffers are back where they came from.
    assert_eq!(drainer.transports[0].pooled(), 4);
    assert_eq!(sender.acquire(&mut drainer.transports[0], elem_bytes), vec![0, 0xEE]);
}

/// One turn of each drainer whose pool is not shut down.
fn turns(
    pool: &DrainerPool,
    drainers: &mut [Drainer],
    store: &mut FifoStore,
    metrics: &mut Metrics,
) {
    let sizes = array_sizes(store.specs());
    for (d, drainer) in drainers.iter_mut().enumerate() {
        if drainer.next_step(pool) == DrainerStep::Stop {
            continue;
        }
        let (round, _) = drain_round(
            &mut drainer.transports,
            store,
            &sizes,
            metrics,
            d,
            drainer.round_counter,
            0,
            0,
        );
        assert!(round.is_done());
        finish_round(&mut drainer.transports, metrics.drainer_mut(d), round, 0);
        drainer.end_turn();
    }
}

#[test]
fn test_multi_drainer_pool_distributes_load() {
    // Round-robin assignment + N senders => every drainer gets at least one
    // transport, so every drainer's `samples_inserted` should be non-zero.
    let batch_size = 4;
    let elem_bytes = 2;
    let num_drainers = 4;
    let mut store = make_store(batch_size, 16, elem_bytes); // capacity 64
    let mut metrics = Metrics::new(num_drainers);
    let mut pool = DrainerPool::new(&store, num_drainers, 16);
    let mut drainers: Vec<Drainer> = (0..num_drainers).map(|_| Drainer::new()).collect();

    let mut senders = Vec::new();
    for _ in 0..num_drainers {
        let (sender, transport) = pool.new_sender(&mut metrics);
        drainers[sender.drainer].adopt(transport);
        senders.push(sender);
    }
    for (i, sender) in senders.iter().enumerate() {
        let transport = &mut drainers[sender.drainer].transports[0];
        for j in 0u8..4 {
            let mut buf = sender.acquire(transport, elem_bytes);
            buf[0] = i as u8;
            buf[1] = j;
            assert!(push(sender, transport, &mut metrics, buf));
        }
    }

    turns(&pool, &mut drainers, &mut store, &mut metrics);
    let total = (num_drainers * 4) as u64;
    assert_eq!(metrics.samples_inserted_total(), total);
    for d in 0..num_drainers {
        assert!(
            metrics.drainer(d).samples_inserted() > 0,
            "drainer {d} should have processed at least one sample under round-robin",
        );
    }
}

#[test]
fn test_connections_are_counted_and_spread() {
    let store = make_store(4, 16, 2);
    let mut metrics = Metrics::new(3);
    let mut pool = DrainerPool::new(&store, 3, 16);
    let mut made = Vec::new();
    for k in 0..7 {
        let (sender, transport) = pool.new_sender(&mut metrics);
        assert_eq!(sender.drainer, k % 3);
        made.push((sender, transport));
        if k % 2 == 1 {
            let (sender, transport) = &mut made[k - 1];
            sender.close(transport, &mut metrics);
        }
    }
    assert_eq!(metrics.active_connections(), 7 - 3);
    assert_eq!(pool.num_drainers(), 3);
    assert_eq!(pool.producer_queue_size(), 16);
}

#[test]
fn test_each_connection_has_an_id_of_its_own() {
    let store = make_store(4, 16, 2);
    let mut metrics = Metrics::new(2);
    let mut pool = DrainerPool::new(&store, 2, 1);
    let (s0, t0) = pool.new_sender(&mut metrics);
    let (s1, t1) = pool.new_sender(&mut metrics);
    assert_eq!(s0.id, t0.id());
    assert_eq!(s1.id, t1.id());
    assert_ne!(s0.id, s1.id);
    assert_eq!(t0.payload(), 2);
    let transports = vec![t0, t1];
    assert_eq!(position(&transports, s1.id), Some(1));
    assert_eq!(position(&transports, 77), None);
}

// ---------------------------------------------------------------------------
// Backpressure: push must be refused (and counted) when the queue is full
// because downstream is saturated.
// ---------------------------------------------------------------------------

#[test]
fn test_push_blocks_and_records_metric_when_saturated() {
    // Queue size 1 + a 4-slot store with no consumer: the store fills up, the
    // round keeps what does not fit, the queue fills up behind it.
    let elem_bytes = 2;
    let mut store = make_store(2, 2, elem_bytes); // capacity 4
    let sizes = array_sizes(store.specs());
    let mut metrics = Metrics::new(1);
    let mut pool = DrainerPool::new(&store, 1, 1);
    let (sender, transport) = pool.new_sender(&mut metrics);
    let mut transports = vec![transport];

    for i in 0u8..4 {
        assert!(push(&sender, &mut transports[0], &mut metrics, vec![i, 0]));
        let (round, _) =
            drain_round(&mut transports, &mut store, &sizes, &mut metrics, 0, i as usize, 0, 0);
        assert!(round.is_done());
        finish_round(&mut transports, metrics.drainer_mut(0), round, 0);
    }
    assert!(push(&sender, &mut transports[0], &mut metrics, vec![4, 0]));
    let (mut round, wakes) =
        drain_round(&mut transports, &mut store, &sizes, &mut metrics, 0, 4, 0, 0);
    assert!(round.did_work());
    assert!(!round.is_done(), "the store is full");
    assert_eq!(wakes, 0);
    assert!(push(&sender, &mut transports[0], &mut metrics, vec![5, 0]));
    assert!(!push(&sender, &mut transports[0], &mut metrics, vec![6, 0]));
    assert_eq!(metrics.push_blocked_count(), 1);

    // A consumer makes room; the round goes on.
    assert!(store.try_sample().0.is_some());
    assert_eq!(resume_round(&mut round, &mut store, &sizes, &mut metrics, 0, 0), 0);
    assert!(!round.is_done(), "nothing was given back yet");
    assert!(store.try_sample().0.is_some());
    assert_eq!(resume_round(&mut round, &mut store, &sizes, &mut metrics, 0, 0), 0);
    assert!(round.is_done());
    assert_eq!(metrics.samples_inserted_total(), 5);
}

#[test]
fn test_shutdown_stops_drainers() {
    let elem_bytes = 2;
    let mut store = make_store(4, 4, elem_bytes); // capacity 16
    let mut metrics = Metrics::new(1);
    let mut pool = DrainerPool::new(&store, 1, 16);
    let (sender, transport) = pool.new_sender(&mut metrics);
    let mut drainers = vec![Drainer::default()];
    drainers[0].adopt(transport);

    // Push and confirm the drainer was alive.
    for i in 0u8..4 {
        let mut buf = sender.acquire(&mut drainers[0].transports[0], elem_bytes);
        buf[0] = i;
        buf[1] = 0;
        assert!(push(&sender, &mut drainers[0].transports[0], &mut metrics, buf));
    }
    turns(&pool, &mut drainers, &mut store, &mut metrics);
    assert!(store.try_sample().0.is_some(), "batch ready");
    let before = metrics.samples_inserted_total();
    assert_eq!(before, 4);

    pool.shutdown();
    assert_eq!(drainers[0].next_step(&pool), DrainerStep::Stop);

    // Push more: these can sit in the queue but the drainer is gone, so they
    // must not reach the store.
    for i in 4u8..8 {
        let mut buf = sender.acquire(&mut drainers[0].transports[0], elem_bytes);
        buf[0] = i;
        buf[1] = 0;
        assert!(push(&sender, &mut drainers[0].transports[0], &mut metrics, buf));
    }
    turns(&pool, &mut drainers, &mut store, &mut metrics);
    assert_eq!(
        metrics.samples_inserted_total(),
        before,
        "no new samples should reach the store after shutdown",
    );
}

// ---------------------------------------------------------------------------
// Rotation, order and pruning.
// ---------------------------------------------------------------------------

fn round_of(round_counter: usize) -> Vec<u8> {
    let mut store = make_store(8, 2, 1);
    let sizes = array_sizes(store.specs());
    let mut metrics = Metrics::new(1);
    let mut transports = Vec::new();
    for id in 0u64..3 {
        let mut t = TransportHandle::new(id, 1, 4);
        let sender = SampleSender { id, drainer: 0 };
        for k in 0u8..2 {
            assert!(push(&sender, &mut t, &mut metrics, vec![10 * id as u8 + k]));
        }
        transports.push(t);
    }
    let (round, _) =
        drain_round(&mut transports, &mut store, &sizes, &mut metrics, 0, round_counter, 0, 0);
    round.items.iter().map(|x| x.item.data[0]).collect()
}

#[test]
fn test_rounds_start_one_queue_further_on() {
    assert_eq!(round_of(0), vec![0, 1, 10, 11, 20, 21]);
    assert_eq!(round_of(1), vec![10, 11, 20, 21, 0, 1]);
    assert_eq!(round_of(2), vec![20, 21, 0, 1, 10, 11]);
    assert_eq!(round_of(3), round_of(0));
}

#[test]
fn test_closed_connections_are_pruned_after_they_are_drained() {
    let mut store = make_store(4, 2, 1);
    let sizes = array_sizes(store.specs());
    let mut metrics = Metrics::new(1);
    let mut pool = DrainerPool::new(&store, 1, 4);
    let mut drainer = Drainer::new();
    let mut senders = Vec::new();
    for _ in 0..3 {
        let (s, t) = pool.new_sender(&mut metrics);
        senders.push(s);
        drainer.adopt(t);
    }
    assert!(push(&senders[1], &mut drainer.transports[1], &mut metrics, vec![9]));
    senders[1].close(&mut drainer.transports[1], &mut metrics);
    senders[2].close(&mut drainer.transports[2], &mut metrics);

    let (round, _) = drain_round(
        &mut drainer.transports,
        &mut store,
        &sizes,
        &mut metrics,
        0,
        drainer.round_counter,
        0,
        0,
    );
    drainer.end_turn();
    assert_eq!(drainer.transports.len(), 1);
    assert_eq!(drainer.transports[0].id(), senders[0].id);
    assert_eq!(round.items[0].item.data, vec![9], "what was queued still came");

    // The owner of the buffer is gone, and so is the buffer.
    finish_round(&mut drainer.transports, metrics.drainer_mut(0), round, 0);
    assert_eq!(drainer.transports[0].pooled(), 0);
    assert_eq!(store.size(), 1);
}

#[test]
fn test_prune_keeps_the_order_of_the_others() {
    let mut metrics = Metrics::new(1);
    let mut transports: Vec<TransportHandle> =
        (0u64..5).map(|id| TransportHandle::new(id, 1, 1)).collect();
    for id in [0u64, 3] {
        SampleSender { id, drainer: 0 }.close(&mut transports[id as usize], &mut metrics);
    }
    prune(&mut transports);
    let ids: Vec<u64> = transports.iter().map(|t| t.id()).collect();
    assert_eq!(ids, vec![1, 2, 4]);
}

#[test]
fn test_one_round_is_inserted_in_as_few_reservations_as_batches() {
    let mut store = make_store(4, 4, 1);
    let sizes = array_sizes(store.specs());
    let mut metrics = Metrics::detailed(1);
    let mut t = TransportHandle::new(0, 1, 16);
    let sender = SampleSender { id: 0, drainer: 0 };
    for k in 0u8..11 {
        assert!(push(&sender, &mut t, &mut metrics, vec![k]));
    }
    let mut transports = vec![t];
    let (round, wakes) =
        drain_round(&mut transports, &mut store, &sizes, &mut metrics, 0, 0, 0, 0);
    assert_eq!(round.done, 11);
    assert_eq!(wakes, 2);
    assert_eq!(metrics.cas_success_total(), 3, "ceil(11 / 4)");
}

#[test]
fn test_what_was_queued_before_the_close_is_not_forgotten() {
    let mut store = make_store(2, 2, 1);
    let mut metrics = Metrics::new(1);
    let mut pool = DrainerPool::new(&store, 1, 4);
    let (sender, transport) = pool.new_sender(&mut metrics);
    let mut drainer = Drainer::new();
    drainer.adopt(transport);
    let sizes = array_sizes(store.specs());

    // A round that finds nothing; then a push and a hang-up, before the turn
    // ends.
    let (round, _) =
        drain_round(&mut drainer.transports, &mut store, &sizes, &mut metrics, 0, 0, 0, 0);
    assert!(!round.did_work());
    assert!(push(&sender, &mut drainer.transports[0], &mut metrics, vec![42]));
    sender.close(&mut drainer.transports[0], &mut metrics);
    drainer.end_turn();
    assert_eq!(drainer.transports.len(), 1, "there is still something queued");

    let mut drainers = vec![drainer];
    turns(&pool, &mut drainers, &mut store, &mut metrics);
    assert_eq!(store.size(), 1);
    assert_eq!(store.buffer(0)[0], 42);
    assert!(drainers[0].transports.is_empty());
}

#[test]
fn test_a_round_counts_how_often_it_was_beaten() {
    let mut store = make_store(4, 4, 1);
    let sizes = array_sizes(store.specs());
    let mut metrics = Metrics::detailed(2);
    let sender = SampleSender { id: 0, drainer: 1 };
    let mut transports = vec![TransportHandle::new(0, 1, 4)];

    // With nothing to insert there is nothing to be beaten at.
    let (round, _) =
        drain_round(&mut transports, &mut store, &sizes, &mut metrics, 1, 0, 0, 5);
    assert!(!round.did_work());
    assert_eq!(metrics.cas_failure_total(), 0);

    assert!(push(&sender, &mut transports[0], &mut metrics, vec![1]));
    let (round, _) =
        drain_round(&mut transports, &mut store, &sizes, &mut metrics, 1, 1, 0, 3);
    assert!(round.is_done());
    assert_eq!(metrics.cas_failure_total(), 3);
    assert_eq!(metrics.reservation_retries_total(), 3);
    assert_eq!(metrics.cas_success_total(), 1);
}
