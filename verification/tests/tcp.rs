use echo::array_spec::{array_sizes, ArraySpec};
use echo::ingress::{
    drain_round, finish_round, position, Drainer, DrainerPool, PushStep, TransportQueueItem,
};
use echo::metrics::Metrics;
use echo::selector::{FifoRemover, FifoSampler};
use echo::store::Store;
use echo::transport::tcp::{
    encode_handshake, ConnectionAction, ConnectionEvent, ConnectionState, ACK, PROTOCOL_MAGIC,
    PROTOCOL_VERSION,
};
use echo::transport::{StartError, TcpTransport, Transport};

#[test]
fn test_handshake_bytes() {
    let specs = vec![ArraySpec::new(vec![4], 1), ArraySpec::new(vec![84, 300], 8)];
    let bytes = encode_handshake(&specs);
    let expected: Vec<u8> = vec![
        b'E', b'C', b'H', b'O', // magic
        1,    // version
        2, 0, 0, 0, // two arrays
        1, 0, 0, 0, // element size
        1, 0, 0, 0, // one dimension
        4, 0, 0, 0, //
        8, 0, 0, 0, // element size
        2, 0, 0, 0, // two dimensions
        84, 0, 0, 0, //
        44, 1, 0, 0, // 300
    ];
    assert_eq!(bytes, expected);
    assert_eq!(PROTOCOL_MAGIC, *b"ECHO");
    assert_eq!(PROTOCOL_VERSION, 1);
}

#[test]
fn test_handshake_without_arrays() {
    assert_eq!(encode_handshake(&[]), vec![b'E', b'C', b'H', b'O', 1, 0, 0, 0, 0]);
}

#[test]
fn test_handshake_keeps_the_lowest_32_bits() {
    let specs = vec![ArraySpec::new(vec![0x1_0203_0405], 1)];
    let bytes = encode_handshake(&specs);
    assert_eq!(&bytes[17..21], &[0x05, 0x04, 0x03, 0x02]);
}

#[test]
fn test_different_specs_have_different_handshakes() {
    let a = encode_handshake(&[ArraySpec::new(vec![1, 2], 4)]);
    let b = encode_handshake(&[ArraySpec::new(vec![2, 1], 4)]);
    let c = encode_handshake(&[ArraySpec::new(vec![1], 4), ArraySpec::new(vec![], 2)]);
    assert_ne!(a, b);
    assert_ne!(a, c);
    assert_ne!(b, c);
}

#[test]
fn test_no_handshake_begins_another() {
    let handshakes: Vec<Vec<u8>> = [
        vec![],
        vec![ArraySpec::new(vec![], 4)],
        vec![ArraySpec::new(vec![1], 4)],
        vec![ArraySpec::new(vec![1, 2], 4)],
        vec![ArraySpec::new(vec![1], 4), ArraySpec::new(vec![], 4)],
    ]
    .iter()
    .map(|specs| encode_handshake(specs))
    .collect();
    for (i, a) in handshakes.iter().enumerate() {
        for (j, b) in handshakes.iter().enumerate() {
            assert_eq!(b.starts_with(a), i == j, "{i} and {j}");
        }
    }
}

#[test]
fn test_server_sends_handshake_on_connect() {
    let transport = TcpTransport::new(1, vec![ArraySpec::new(vec![4], 1)], 50051);
    assert_eq!(transport.handshake(), encode_handshake(&[ArraySpec::new(vec![4], 1)]));
    assert_eq!(transport.payload_size(), 4);
    assert_eq!(transport.port(), 50051);
    assert_eq!(transport.num_threads(), 1);
    let (state, action) = ConnectionState::open();
    assert_eq!(action, ConnectionAction::SendHandshake);
    assert_eq!(
        state.next(ConnectionEvent::Completed),
        (ConnectionState::Reading, ConnectionAction::ReadSample)
    );
}

type FifoStore = Store<FifoSampler, FifoRemover>;

/// A server without sockets: one drainer behind a pool.
struct Pipeline {
    store: FifoStore,
    pool: DrainerPool,
    metrics: Metrics,
    drainer: Drainer,
}

impl Pipeline {
    fn new(specs: Vec<ArraySpec>, batch_size: usize, num_batches: usize) -> Self {
        let store = Store::new(
            specs,
            batch_size,
            num_batches,
            FifoSampler::new(batch_size, batch_size * num_batches),
            FifoRemover::new(),
        );
        let pool = DrainerPool::new(&store, 1, 16);
        Self { store, pool, metrics: Metrics::new(1), drainer: Drainer::new() }
    }

    /// Serves a client that sends `input` and hangs up. Returns what the client
    /// receives.
    fn serve(&mut self, transport: &TcpTransport, mut input: &[u8]) -> Vec<u8> {
        let (sender, handle) = self.pool.new_sender(&mut self.metrics);
        self.drainer.adopt(handle);
        let payload = transport.payload_size();
        let mut output = Vec::new();
        let mut buf = Vec::new();
        let (mut state, mut action) = ConnectionState::open();
        loop {
            let at = position(&self.drainer.transports, sender.id).unwrap();
            let link = &mut self.drainer.transports[at];
            let event = match action {
                ConnectionAction::SendHandshake => {
                    output.extend(transport.handshake());
                    ConnectionEvent::Completed
                }
                ConnectionAction::ReadSample if input.len() < payload => {
                    ConnectionEvent::EndOfStream
                }
                ConnectionAction::ReadSample => {
                    buf = sender.acquire(link, payload);
                    buf.copy_from_slice(&input[..payload]);
                    input = &input[payload..];
                    ConnectionEvent::Completed
                }
                ConnectionAction::QueueSample => {
                    let item = TransportQueueItem::new(buf.split_off(0), 0);
                    let step = sender.push(link, item, &mut self.metrics);
                    assert!(matches!(step, PushStep::Queued));
                    ConnectionEvent::Completed
                }
                ConnectionAction::SendAck => {
                    output.push(ACK);
                    ConnectionEvent::Completed
                }
                ConnectionAction::Close => {
                    sender.close(link, &mut self.metrics);
                    return output;
                }
                ConnectionAction::Abort => panic!("nothing fails here"),
            };
            (state, action) = state.next(event);
        }
    }

    /// One turn of the drainer.
    fn turn(&mut self) {
        let sizes = array_sizes(self.store.specs());
        let (round, _) = drain_round(
            &mut self.drainer.transports,
            &mut self.store,
            &sizes,
            &mut self.metrics,
            0,
            self.drainer.round_counter,
            0,
            0,
        );
        assert!(round.is_done());
        finish_round(&mut self.drainer.transports, self.metrics.drainer_mut(0), round, 0);
        self.drainer.end_turn();
    }
}

#[test]
fn test_server_receives_sample_and_acks() {
    let payload = 4usize;
    let specs = vec![ArraySpec::new(vec![payload], 1)];
    let mut pipeline = Pipeline::new(specs.clone(), 4, 2);
    let transport = TcpTransport::new(1, specs.clone(), 1);

    // One batch worth of samples; a single-byte ack per sample.
    let expected: Vec<u8> = (0u8..4)
        .flat_map(|i| vec![i, i.wrapping_add(1), i.wrapping_add(2), i.wrapping_add(3)])
        .collect();
    let output = pipeline.serve(&transport, &expected);
    let hs = encode_handshake(&specs);
    assert_eq!(&output[..hs.len()], hs.as_slice());
    assert_eq!(&output[hs.len()..], &[0x01; 4], "server should ack every sample with 0x01");

    pipeline.turn();
    let view = pipeline.store.try_sample().0.expect("batch should land");
    assert_eq!(view.count, 4);
    assert_eq!(pipeline.store.view_bytes(&view, 0), expected.as_slice());
    assert!(pipeline.drainer.transports.is_empty(), "the client hung up");
    assert_eq!(pipeline.metrics.active_connections(), 0);
}

#[test]
fn test_server_handles_concurrent_connections() {
    let payload = 2usize;
    let specs = vec![ArraySpec::new(vec![payload], 1)];
    let mut pipeline = Pipeline::new(specs.clone(), 4, 4);
    let transport = TcpTransport::new(2, specs, 1);

    // The drainer has turns while clients come, send and hang up.
    let num_clients: u8 = 4;
    let samples_per_client: u8 = 2;
    let total = (num_clients as usize) * (samples_per_client as usize);
    for client in 0..num_clients {
        let input: Vec<u8> = (0..samples_per_client).flat_map(|i| vec![client, i]).collect();
        pipeline.serve(&transport, &input);
        if client % 2 == 1 {
            // A turn that ends without a round of its own takes nothing away.
            pipeline.drainer.end_turn();
        } else {
            pipeline.turn();
        }
    }
    pipeline.turn();

    // Every committed batch holds what the clients sent. Order isn't
    // observable across clients.
    let mut seen: Vec<(u8, u8)> = Vec::with_capacity(total);
    while let Some(view) = pipeline.store.try_sample().0 {
        for chunk in pipeline.store.view_bytes(&view, 0).chunks(payload) {
            seen.push((chunk[0], chunk[1]));
        }
    }
    seen.sort();
    let mut expected: Vec<(u8, u8)> = (0..num_clients)
        .flat_map(|c| (0..samples_per_client).map(move |i| (c, i)))
        .collect();
    expected.sort();
    assert_eq!(seen, expected, "every sample from every client should land");
    assert!(pipeline.drainer.transports.is_empty());
}

#[test]
fn test_samples_are_acked_one_by_one() {
    let (mut state, _) = ConnectionState::open();
    let mut actions = Vec::new();
    for _ in 0..7 {
        let (next, action) = state.next(ConnectionEvent::Completed);
        state = next;
        actions.push(action);
    }
    assert_eq!(
        actions,
        vec![
            ConnectionAction::ReadSample,
            ConnectionAction::QueueSample,
            ConnectionAction::SendAck,
            ConnectionAction::ReadSample,
            ConnectionAction::QueueSample,
            ConnectionAction::SendAck,
            ConnectionAction::ReadSample,
        ]
    );
}

#[test]
fn test_server_double_start_fails() {
    let mut transport = TcpTransport::new(1, vec![ArraySpec::new(vec![4], 1)], 1);
    assert_eq!(transport.start(), Ok(()));
    assert_eq!(
        transport.start(),
        Err(StartError::AlreadyStarted),
        "second start should fail while the first is still running",
    );
    transport.shutdown();
    assert_eq!(transport.start(), Ok(()));
}

#[test]
fn test_server_clean_disconnect_between_frames() {
    let reading = ConnectionState::Reading;
    assert_eq!(
        reading.next(ConnectionEvent::EndOfStream),
        (ConnectionState::Done, ConnectionAction::Close)
    );
}

#[test]
fn test_other_failures_abort() {
    for state in [
        ConnectionState::Greeting,
        ConnectionState::Reading,
        ConnectionState::Queueing,
        ConnectionState::Acking,
    ] {
        assert_eq!(
            state.next(ConnectionEvent::Failed),
            (ConnectionState::Done, ConnectionAction::Abort)
        );
    }
    assert_eq!(
        ConnectionState::Acking.next(ConnectionEvent::EndOfStream),
        (ConnectionState::Done, ConnectionAction::Abort)
    );
    assert_eq!(
        ConnectionState::Done.next(ConnectionEvent::Failed),
        (ConnectionState::Done, ConnectionAction::Close)
    );
}
