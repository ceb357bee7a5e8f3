use echo::selector::{FifoRemover, FifoSampler, Remover, SampleResult, Sampler, SelectStep};

// === FifoSampler ===

fn ready(start: usize, count: usize) -> SelectStep {
    SelectStep::Ready(SampleResult::Contiguous { start, count })
}

#[test]
fn test_sampler_commit_and_select() {
    let mut sampler = FifoSampler::new(3, 6);
    sampler.commit(0);
    sampler.commit(1);
    sampler.commit(2);

    let result = sampler.select(3);
    assert_eq!(result, ready(0, 3));
}

#[test]
fn test_sampler_try_select_not_enough() {
    let mut sampler = FifoSampler::new(3, 6);
    sampler.commit(0);
    sampler.commit(1);
    assert!(sampler.try_select(3).is_none());
}

#[test]
fn test_sampler_try_select_enough() {
    let mut sampler = FifoSampler::new(3, 6);
    sampler.commit(0);
    sampler.commit(1);
    sampler.commit(2);
    let result = sampler.try_select(3).unwrap();
    assert_eq!(result, SampleResult::Contiguous { start: 0, count: 3 });
}

#[test]
fn test_sampler_advances_head() {
    let mut sampler = FifoSampler::new(2, 6);
    for i in 0..4 {
        sampler.commit(i);
    }
    let r1 = sampler.select(2);
    assert_eq!(r1, ready(0, 2));
    let r2 = sampler.select(2);
    assert_eq!(r2, ready(2, 2));
}

#[test]
fn test_sampler_wrap_around() {
    let mut sampler = FifoSampler::new(3, 6);
    for i in 0..6 {
        sampler.commit(i);
    }
    assert_eq!(sampler.select(3), ready(0, 3)); // head = 3
    assert_eq!(sampler.select(3), ready(3, 3)); // head = 6 → wraps to 0
    for i in 6..9 {
        sampler.commit(i);
    }
    let r = sampler.select(3);
    assert_eq!(r, ready(0, 3));
}

#[test]
fn test_sampler_shutdown_unblocks() {
    let mut sampler = FifoSampler::new(3, 6);
    assert_eq!(sampler.select(3), SelectStep::Wait);
    sampler.shutdown();
    assert!(sampler.is_shutdown());
    assert_eq!(sampler.select(3), SelectStep::Shutdown);
}

#[test]
fn test_ready_batch_comes_before_shutdown() {
    let mut sampler = FifoSampler::new(2, 4);
    sampler.commit(0);
    sampler.commit(1);
    sampler.shutdown();
    assert_eq!(sampler.select(2), ready(0, 2));
    assert_eq!(sampler.select(2), SelectStep::Shutdown);
}

#[test]
fn test_sampler_out_of_order_writers() {
    // 3 writers claim slots 0,1,2 but commit out of order.
    let mut sampler = FifoSampler::new(3, 6);

    // Writer 2 and 1 commit first, writer 0 commits last.
    assert!(!sampler.commit(2));
    assert!(!sampler.commit(1));
    assert!(sampler.try_select(3).is_none());
    assert!(sampler.commit(0), "the last commit of a batch wakes the consumer");

    let result = sampler.try_select(3).unwrap();
    assert_eq!(result, SampleResult::Contiguous { start: 0, count: 3 });
}

#[test]
fn test_commit_batch_is_like_single_commits() {
    let mut one_by_one = FifoSampler::new(4, 8);
    let mut together = FifoSampler::new(4, 8);
    let mut wakes = 0;
    for pos in 4..8 {
        if one_by_one.commit(pos) {
            wakes += 1;
        }
    }
    assert_eq!(together.commit_batch(4, 4), wakes);
    assert_eq!(wakes, 1);
    assert_eq!(one_by_one.queue_size(), together.queue_size());
    // Neither can select: the batch at position 0 comes first.
    assert!(one_by_one.try_select(4).is_none());
    assert!(together.try_select(4).is_none());
    assert_eq!(one_by_one.commit_batch(0, 2) + one_by_one.commit_batch(2, 2), 1);
    assert_eq!(together.commit_batch(0, 4), 1);
    assert_eq!(one_by_one.select(4), ready(0, 4));
    assert_eq!(together.select(4), ready(0, 4));
    assert_eq!(one_by_one.select(4), ready(4, 4));
    assert_eq!(together.select(4), ready(4, 4));
}

#[test]
fn test_partial_commit_batch_does_not_wake() {
    let mut sampler = FifoSampler::new(4, 8);
    assert_eq!(sampler.commit_batch(0, 3), 0);
    assert_eq!(sampler.commit_batch(3, 1), 1);
    assert_eq!(sampler.commit_batch(4, 0), 0);
}

// === FifoRemover ===

#[test]
fn test_remover_advance_and_read_pos() {
    let mut remover = FifoRemover::new();
    assert_eq!(remover.read_pos(), 0);
    remover.remove(3);
    assert_eq!(remover.read_pos(), 3);
    remover.remove(3);
    assert_eq!(remover.read_pos(), 6);
}

#[test]
fn test_remover_default_starts_at_zero_and_wraps() {
    let mut remover = FifoRemover::default();
    assert_eq!(remover.read_pos(), 0);
    remover.remove(usize::MAX);
    remover.remove(2);
    assert_eq!(remover.read_pos(), 1);
}

// === FifoSampler::queue_size ===

#[test]
fn test_fifo_sampler_queue_size_empty() {
    let s = FifoSampler::new(2, 8);
    assert_eq!(s.queue_size(), 0);
}

#[test]
fn test_fifo_sampler_queue_size_after_commits() {
    let mut s = FifoSampler::new(2, 8);
    s.commit(0);
    s.commit(1);
    s.commit(2);
    assert_eq!(s.queue_size(), 3, "3 items committed, none sampled");
}

#[test]
fn test_fifo_sampler_queue_size_after_select() {
    let mut s = FifoSampler::new(2, 8);
    s.commit(0);
    s.commit(1);
    let _ = s.try_select(2).expect("should have a batch");
    assert_eq!(s.queue_size(), 0, "2 committed, 2 sampled -> 0 ready");
}

#[test]
fn test_sampler_alone_in_a_run_of_calls() {
    // Two batches ahead of the consumer, committed from the back.
    let mut sampler = FifoSampler::new(2, 6);
    assert!(!sampler.commit(3));
    assert_eq!(sampler.commit_batch(4, 2), 1);
    assert_eq!(sampler.try_select(2), None);
    assert_eq!(sampler.queue_size(), 3);
    assert!(!sampler.commit(1));
    assert!(sampler.commit(0));
    assert_eq!(
        sampler.try_select(2),
        Some(SampleResult::Contiguous { start: 0, count: 2 })
    );
    assert_eq!(sampler.try_select(2), None, "position 2 is missing");
    assert_eq!(sampler.queue_size(), 5 - 2);
    // The slots of the first batch, a cycle later.
    assert_eq!(sampler.commit_batch(6, 2), 1);
    assert!(sampler.commit(2));
    for start in [2, 4, 0] {
        assert_eq!(
            sampler.try_select(2),
            Some(SampleResult::Contiguous { start, count: 2 })
        );
    }
    assert_eq!(sampler.queue_size(), 8 - 2 * 4);
}
