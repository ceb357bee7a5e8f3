use echo::server::{build_specs, ConfigError, Server};
use echo::store::{InsertStep, SampleStep};

#[test]
fn test_specs_are_zipped() {
    let specs = build_specs(vec![vec![2, 3], vec![]], vec![4, 8]).unwrap();
    assert_eq!(specs.len(), 2);
    assert_eq!(specs[0].shape, vec![2, 3]);
    assert_eq!(specs[0].dtype_size, 4);
    assert_eq!(specs[1].num_bytes(), 8);
}

#[test]
fn test_lengths_must_agree() {
    assert!(matches!(
        build_specs(vec![vec![2]], vec![4, 8]),
        Err(ConfigError::LengthMismatch)
    ));
    assert!(matches!(build_specs(vec![vec![2]], vec![]), Err(ConfigError::LengthMismatch)));
}

#[test]
fn test_submit_then_sample() {
    let specs = build_specs(vec![vec![2], vec![1]], vec![1, 2]).unwrap();
    let mut server = Server::new(specs, 2, 2, 3, false);
    assert_eq!(
        server.submit(&vec![vec![1, 2], vec![3, 4]]),
        InsertStep::Inserted { wake: false }
    );
    assert_eq!(
        server.submit(&vec![vec![5, 6], vec![7, 8]]),
        InsertStep::Inserted { wake: true }
    );
    let info = server.sample_info();
    assert_eq!(info.store_size, 2);
    assert_eq!(info.notify_count, 1);
    assert_eq!(info.samples_inserted_total, 0, "submits are not a drainer's work");

    let (step, _) = server.store.sample();
    let SampleStep::Ready(view) = step else {
        panic!("a batch is ready");
    };
    assert_eq!(server.store.view_bytes(&view, 0), &[1, 2, 5, 6]);
    assert_eq!(server.store.view_bytes(&view, 1), &[3, 4, 7, 8]);
    assert_eq!(server.sample_info().store_size, 0);
}

#[test]
fn test_submit_to_a_full_server() {
    let specs = build_specs(vec![vec![1]], vec![1]).unwrap();
    let mut server = Server::new(specs, 1, 2, 1, false);
    assert_eq!(server.submit(&vec![vec![1]]), InsertStep::Inserted { wake: true });
    assert_eq!(server.submit(&vec![vec![2]]), InsertStep::Inserted { wake: true });
    assert_eq!(server.submit(&vec![vec![3]]), InsertStep::Full);
    assert_eq!(server.sample_info().notify_count, 2);
}

#[test]
fn test_info_gathers_the_metrics() {
    let specs = build_specs(vec![vec![1]], vec![1]).unwrap();
    let mut server = Server::new(specs, 2, 2, 2, true);
    server.metrics.record_connection_opened();
    server.metrics.record_push_blocked();
    server.metrics.drainer_mut(0).record_queue_depth(4, 3);
    server.metrics.drainer_mut(1).record_queue_depth(5, 2);
    server.metrics.drainer_mut(1).record_samples_inserted(6);
    server.metrics.drainer_mut(0).record_cas_success();
    server.metrics.drainer_mut(0).record_cas_failure();
    server.metrics.drainer_mut(1).record_reservation_retries(2);
    server.metrics.drainer_mut(0).record_drain_round_ns(11);
    server.metrics.drainer_mut(0).record_memcpy_ns(12);
    server.metrics.drainer_mut(1).record_queue_dwell_ns(13);
    let info = server.sample_info();
    assert_eq!(info.active_connections, 1);
    assert_eq!(info.push_blocked_count, 1);
    assert_eq!(info.queue_depth_sum, 9);
    assert_eq!(info.queue_depth_max, 3);
    assert_eq!(info.samples_inserted_total, 6);
    assert_eq!(info.cas_success_total, 1);
    assert_eq!(info.cas_failure_total, 1);
    assert_eq!(info.reservation_retries_total, 2);
    assert_eq!(info.drain_round.recorded, vec![(11, 1)]);
    assert_eq!(info.memcpy.recorded, vec![(12, 1)]);
    assert_eq!(info.queue_dwell.recorded, vec![(13, 1)]);
}

#[test]
fn test_a_new_server_is_zeroed() {
    let specs = build_specs(vec![vec![2], vec![1]], vec![1, 3]).unwrap();
    let server = Server::new(specs, 2, 2, 1, true);
    assert_eq!(server.store.buffer(0), &[0u8; 8]);
    assert_eq!(server.store.buffer(1), &[0u8; 12]);
}
