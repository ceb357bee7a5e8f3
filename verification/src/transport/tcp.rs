//! The TCP transport: wire format, and what happens on a connection.
//!
//! The server sends a handshake with the shapes of the arrays. After that the
//! client sends one sample after the other, all of the same size, and gets one
//! byte back for each.

use crate::arith::{sum_usize, wrap_usize};
use crate::array_spec::{payload_size, sizes_of, ArraySpec};
use crate::laws::wire::lemma_number_reads_back;
use crate::transport::{StartError, Transport};
use vstd::prelude::*;

verus! {

/// Wire-format identifier: clients verify these bytes before parsing
/// anything else, so that an unrelated server surfaces as a clear handshake
/// error. The bytes spell `ECHO`.
pub const PROTOCOL_MAGIC: [u8; 4] = [69, 67, 72, 79];

pub const PROTOCOL_VERSION: u8 = 1;

/// What the server sends for each sample that it has queued.
pub const ACK: u8 = 1;

/// The lowest 32 bits of a number in four bytes, the lowest first.
pub open spec fn le_u32(n: nat) -> Seq<u8> {
    seq![
        (n % 256) as u8,
        (n / 256 % 256) as u8,
        (n / 65536 % 256) as u8,
        (n / 16777216 % 256) as u8,
    ]
}

/// Several numbers, each in four bytes.
pub open spec fn le_u32s(numbers: Seq<usize>) -> Seq<u8>
    decreases numbers.len(),
{
    if numbers.len() == 0 {
        Seq::empty()
    } else {
        le_u32s(numbers.drop_last()) + le_u32(numbers.last() as nat)
    }
}

/// One array: element size, number of dimensions, and the dimensions.
pub open spec fn spec_bytes(spec: (Seq<usize>, usize)) -> Seq<u8> {
    le_u32(spec.1 as nat) + le_u32(spec.0.len()) + le_u32s(spec.0)
}

/// Several arrays, one after the other.
pub open spec fn all_spec_bytes(specs: Seq<(Seq<usize>, usize)>) -> Seq<u8>
    decreases specs.len(),
{
    if specs.len() == 0 {
        Seq::empty()
    } else {
        all_spec_bytes(specs.drop_last()) + spec_bytes(specs.last())
    }
}

/// The handshake: magic, version, number of arrays, and the arrays.
pub open spec fn handshake_bytes(specs: Seq<(Seq<usize>, usize)>) -> Seq<u8> {
    PROTOCOL_MAGIC@ + seq![PROTOCOL_VERSION] + le_u32(specs.len()) + all_spec_bytes(specs)
}

/// Appends the lowest 32 bits of a number, the lowest byte first.
fn push_le_u32(buf: &mut Vec<u8>, n: usize)
    ensures
        final(buf)@ == old(buf)@ + le_u32(n as nat),
{
    buf.push((n % 256) as u8);
    buf.push((n / 256 % 256) as u8);
    buf.push((n / 65536 % 256) as u8);
    buf.push((n / 16777216 % 256) as u8);
    assert(buf@ =~= old(buf)@ + le_u32(n as nat));
}

/// The views of several array specs.
pub open spec fn spec_views(specs: Seq<ArraySpec>) -> Seq<(Seq<usize>, usize)> {
    Seq::new(specs.len(), |i: int| specs[i]@)
}

/// Encodes the handshake message (magic + version + array specs) into bytes.
/// Format: [4 magic] [u8 version] [u32 num_arrays] then per array
/// [u32 dtype_size] [u32 ndim] [u32 x ndim shape], all little-endian. A number
/// that does not fit in 32 bits loses its upper bits.
pub fn encode_handshake(specs: &[ArraySpec]) -> (r: Vec<u8>)
    ensures
        r@ == handshake_bytes(spec_views(specs@)),
{
    let ghost views = spec_views(specs@);
    let mut buf: Vec<u8> = Vec::new();
    buf.push(PROTOCOL_MAGIC[0]);
    buf.push(PROTOCOL_MAGIC[1]);
    buf.push(PROTOCOL_MAGIC[2]);
    buf.push(PROTOCOL_MAGIC[3]);
    buf.push(PROTOCOL_VERSION);
    assert(buf@ =~= PROTOCOL_MAGIC@ + seq![PROTOCOL_VERSION]);
    push_le_u32(&mut buf, specs.len());
    let ghost head = PROTOCOL_MAGIC@ + seq![PROTOCOL_VERSION] + le_u32(views.len());
    assert(buf@ == head);
    assert(views.take(0) =~= Seq::<(Seq<usize>, usize)>::empty());
    assert(head + all_spec_bytes(views.take(0)) =~= head);
    let mut i: usize = 0;
    while i < specs.len()
        invariant
            i <= specs@.len(),
            views == spec_views(specs@),
            buf@ == head + all_spec_bytes(views.take(i as int)),
        decreases specs.len() - i,
    {
        let shape = &specs[i].shape;
        let ghost before = buf@;
        push_le_u32(&mut buf, specs[i].dtype_size);
        push_le_u32(&mut buf, shape.len());
        let ghost sized = buf@;
        assert(shape@.take(0) =~= Seq::<usize>::empty());
        assert(sized + le_u32s(shape@.take(0)) =~= sized);
        let mut d: usize = 0;
        while d < shape.len()
            invariant
                d <= shape@.len(),
                buf@ == sized + le_u32s(shape@.take(d as int)),
            decreases shape.len() - d,
        {
            push_le_u32(&mut buf, shape[d]);
            assert(shape@.take(d + 1).drop_last() =~= shape@.take(d as int));
            assert(buf@ =~= sized + le_u32s(shape@.take(d + 1)));
            d = d + 1;
        }
        proof {
            assert(shape@.take(d as int) =~= shape@);
            assert(views.take(i + 1).drop_last() =~= views.take(i as int));
            assert(buf@ =~= before + spec_bytes(views[i as int]));
            assert(buf@ =~= head + all_spec_bytes(views.take(i + 1)));
        }
        i = i + 1;
    }
    assert(views.take(i as int) =~= views);
    buf
}

/// Whether all numbers of an array spec fit in 32 bits.
pub open spec fn fits_u32(spec: (Seq<usize>, usize)) -> bool {
    &&& spec.1 <= u32::MAX
    &&& spec.0.len() <= u32::MAX
    &&& forall|d: int| 0 <= d < spec.0.len() ==> (#[trigger] spec.0[d]) <= u32::MAX
}

/// Equal texts with first parts of equal length have equal parts.
proof fn lemma_same_parts(first: Seq<u8>, rest: Seq<u8>, first2: Seq<u8>, rest2: Seq<u8>)
    requires
        first.len() == first2.len(),
        first + rest == first2 + rest2,
    ensures
        first == first2,
        rest == rest2,
{
    assert(first =~= (first + rest).take(first.len() as int));
    assert(first2 =~= (first2 + rest2).take(first2.len() as int));
    assert(rest =~= (first + rest).skip(first.len() as int));
    assert(rest2 =~= (first2 + rest2).skip(first2.len() as int));
}

/// A number that fits in 32 bits can be read back.
proof fn lemma_le_u32_injective(n: nat, m: nat)
    requires
        n <= u32::MAX,
        m <= u32::MAX,
        le_u32(n) == le_u32(m),
    ensures
        n == m,
{
    lemma_number_reads_back(n);
    lemma_number_reads_back(m);
    vstd::arithmetic::div_mod::lemma_small_mod(n, 4294967296);
    vstd::arithmetic::div_mod::lemma_small_mod(m, 4294967296);
}

/// Every number takes four bytes.
proof fn lemma_le_u32s_len(numbers: Seq<usize>)
    ensures
        le_u32s(numbers).len() == 4 * numbers.len(),
    decreases numbers.len(),
{
    if numbers.len() > 0 {
        lemma_le_u32s_len(numbers.drop_last());
    }
}

/// Several numbers that fit in 32 bits can be read back.
proof fn lemma_le_u32s_injective(a: Seq<usize>, b: Seq<usize>)
    requires
        a.len() == b.len(),
        forall|d: int| 0 <= d < a.len() ==> (#[trigger] a[d]) <= u32::MAX,
        forall|d: int| 0 <= d < b.len() ==> (#[trigger] b[d]) <= u32::MAX,
        le_u32s(a) == le_u32s(b),
    ensures
        a == b,
    decreases a.len(),
{
    if a.len() > 0 {
        lemma_le_u32s_len(a.drop_last());
        lemma_le_u32s_len(b.drop_last());
        lemma_same_parts(
            le_u32s(a.drop_last()),
            le_u32(a.last() as nat),
            le_u32s(b.drop_last()),
            le_u32(b.last() as nat),
        );
        lemma_le_u32_injective(a.last() as nat, b.last() as nat);
        lemma_le_u32s_injective(a.drop_last(), b.drop_last());
        assert(a =~= a.drop_last().push(a.last()));
        assert(b =~= b.drop_last().push(b.last()));
    } else {
        assert(a =~= b);
    }
}

/// The first array comes first.
proof fn lemma_first_spec(specs: Seq<(Seq<usize>, usize)>)
    requires
        specs.len() > 0,
    ensures
        all_spec_bytes(specs) == spec_bytes(specs.first()) + all_spec_bytes(specs.drop_first()),
    decreases specs.len(),
{
    if specs.len() == 1 {
        assert(specs.drop_last() =~= Seq::<(Seq<usize>, usize)>::empty());
        assert(specs.drop_first() =~= Seq::<(Seq<usize>, usize)>::empty());
        assert(all_spec_bytes(specs) =~= spec_bytes(specs.first()) + all_spec_bytes(
            specs.drop_first(),
        ));
    } else {
        lemma_first_spec(specs.drop_last());
        assert(specs.drop_last().drop_first() =~= specs.drop_first().drop_last());
        assert(specs.drop_last().first() == specs.first());
        assert(specs.drop_first().last() == specs.last());
        assert(all_spec_bytes(specs) =~= spec_bytes(specs.first()) + all_spec_bytes(
            specs.drop_first(),
        ));
    }
}

/// Grouping does not matter.
proof fn lemma_regroup(p: Seq<u8>, q: Seq<u8>, r: Seq<u8>, t: Seq<u8>)
    ensures
        p + q + r + t == p + (q + (r + t)),
{
    assert(p + q + r + t =~= p + (q + (r + t)));
}

/// One array can be read back, with what follows it.
proof fn lemma_spec_injective(
    x: (Seq<usize>, usize),
    x_rest: Seq<u8>,
    y: (Seq<usize>, usize),
    y_rest: Seq<u8>,
)
    requires
        fits_u32(x),
        fits_u32(y),
        spec_bytes(x) + x_rest == spec_bytes(y) + y_rest,
    ensures
        x == y,
        x_rest == y_rest,
{
    let (x1, x2, x3) = (le_u32(x.1 as nat), le_u32(x.0.len()), le_u32s(x.0));
    let (y1, y2, y3) = (le_u32(y.1 as nat), le_u32(y.0.len()), le_u32s(y.0));
    lemma_regroup(x1, x2, x3, x_rest);
    lemma_regroup(y1, y2, y3, y_rest);
    lemma_same_parts(x1, x2 + (x3 + x_rest), y1, y2 + (y3 + y_rest));
    lemma_le_u32_injective(x.1 as nat, y.1 as nat);
    lemma_same_parts(x2, x3 + x_rest, y2, y3 + y_rest);
    lemma_le_u32_injective(x.0.len(), y.0.len());
    lemma_le_u32s_len(x.0);
    lemma_le_u32s_len(y.0);
    lemma_same_parts(x3, x_rest, y3, y_rest);
    lemma_le_u32s_injective(x.0, y.0);
}

/// As many arrays can be read back one by one, with what follows them.
proof fn lemma_specs_injective(
    a: Seq<(Seq<usize>, usize)>,
    a_then: Seq<u8>,
    b: Seq<(Seq<usize>, usize)>,
    b_then: Seq<u8>,
)
    requires
        a.len() == b.len(),
        forall|i: int| 0 <= i < a.len() ==> fits_u32(#[trigger] a[i]),
        forall|i: int| 0 <= i < b.len() ==> fits_u32(#[trigger] b[i]),
        all_spec_bytes(a) + a_then == all_spec_bytes(b) + b_then,
    ensures
        a == b,
        a_then == b_then,
    decreases a.len(),
{
    if a.len() == 0 {
        assert(a =~= b);
        assert(all_spec_bytes(a) + a_then =~= a_then);
        assert(all_spec_bytes(b) + b_then =~= b_then);
    } else {
        let a_rest = a.drop_first();
        let b_rest = b.drop_first();
        lemma_first_spec(a);
        lemma_first_spec(b);
        assert(all_spec_bytes(a) + a_then =~= spec_bytes(a[0]) + (all_spec_bytes(a_rest)
            + a_then));
        assert(all_spec_bytes(b) + b_then =~= spec_bytes(b[0]) + (all_spec_bytes(b_rest)
            + b_then));
        lemma_spec_injective(
            a[0],
            all_spec_bytes(a_rest) + a_then,
            b[0],
            all_spec_bytes(b_rest) + b_then,
        );
        assert forall|i: int| 0 <= i < a_rest.len() implies fits_u32(#[trigger] a_rest[i]) by {
            assert(fits_u32(a[i + 1]));
        }
        assert forall|i: int| 0 <= i < b_rest.len() implies fits_u32(#[trigger] b_rest[i]) by {
            assert(fits_u32(b[i + 1]));
        }
        lemma_specs_injective(a_rest, a_then, b_rest, b_then);
        assert(a =~= seq![a[0]] + a_rest);
        assert(b =~= seq![b[0]] + b_rest);
    }
}

/// A handshake says all there is to know, and where it ends: of array specs
/// whose numbers fit in 32 bits, one handshake begins another if and only if
/// the specs are the same.
pub proof fn lemma_handshake_prefix_free(
    a: Seq<(Seq<usize>, usize)>,
    b: Seq<(Seq<usize>, usize)>,
)
    requires
        a.len() <= u32::MAX,
        b.len() <= u32::MAX,
        forall|i: int| 0 <= i < a.len() ==> fits_u32(#[trigger] a[i]),
        forall|i: int| 0 <= i < b.len() ==> fits_u32(#[trigger] b[i]),
    ensures
        handshake_bytes(a).is_prefix_of(handshake_bytes(b)) <==> a == b,
{
    let whole = handshake_bytes(b);
    if handshake_bytes(a).is_prefix_of(whole) {
        let then = whole.skip(handshake_bytes(a).len() as int);
        let none = Seq::<u8>::empty();
        let head = PROTOCOL_MAGIC@ + seq![PROTOCOL_VERSION];
        let (a_rest, b_rest) = (all_spec_bytes(a) + then, all_spec_bytes(b) + none);
        assert(handshake_bytes(a) + then =~= whole);
        assert(whole =~= head + (le_u32(a.len()) + a_rest));
        assert(whole =~= head + (le_u32(b.len()) + b_rest));
        lemma_same_parts(head, le_u32(a.len()) + a_rest, head, le_u32(b.len()) + b_rest);
        lemma_same_parts(le_u32(a.len()), a_rest, le_u32(b.len()), b_rest);
        lemma_le_u32_injective(a.len(), b.len());
        lemma_specs_injective(a, then, b, none);
    }
    if a == b {
        assert(whole.take(whole.len() as int) =~= whole);
    }
}

/// Where a connection stands.
#[derive(Debug, Clone, Copy, PartialEq, Eq, Structural)]
pub enum ConnectionState {
    /// The handshake is being sent.
    Greeting,
    /// The next sample is being read.
    Reading,
    /// The sample is being queued.
    Queueing,
    /// The byte for a queued sample is being sent.
    Acking,
    /// Over.
    Done,
}

/// What came of the last action on a connection.
#[derive(Debug, Clone, Copy, PartialEq, Eq, Structural)]
pub enum ConnectionEvent {
    /// It went through.
    Completed,
    /// The peer hung up before all bytes came.
    EndOfStream,
    /// Any other error.
    Failed,
}

/// What to do next on a connection.
#[derive(Debug, Clone, Copy, PartialEq, Eq, Structural)]
pub enum ConnectionAction {
    SendHandshake,
    /// Fill a buffer of the size of a sample.
    ReadSample,
    QueueSample,
    SendAck,
    /// Hang up; all is well.
    Close,
    /// Hang up and report the error.
    Abort,
}

/// The next state and action after `event`. Of the actions only a read can
/// find the end of the stream, which is a normal disconnect.
pub open spec fn connection_next(state: ConnectionState, event: ConnectionEvent) -> (
    ConnectionState,
    ConnectionAction,
) {
    match (state, event) {
        (ConnectionState::Done, _) => (ConnectionState::Done, ConnectionAction::Close),
        (ConnectionState::Reading, ConnectionEvent::EndOfStream) => (
            ConnectionState::Done,
            ConnectionAction::Close,
        ),
        (_, ConnectionEvent::Completed) => match state {
            ConnectionState::Reading => (
                ConnectionState::Queueing,
                ConnectionAction::QueueSample,
            ),
            ConnectionState::Queueing => (ConnectionState::Acking, ConnectionAction::SendAck),
            _ => (ConnectionState::Reading, ConnectionAction::ReadSample),
        },
        _ => (ConnectionState::Done, ConnectionAction::Abort),
    }
}

impl ConnectionState {
    /// A new connection, with the first thing to do.
    pub fn open() -> (r: (Self, ConnectionAction))
        ensures
            r == (ConnectionState::Greeting, ConnectionAction::SendHandshake),
    {
        (ConnectionState::Greeting, ConnectionAction::SendHandshake)
    }

    /// The next thing to do, after the last one came to `event`.
    pub fn next(self, event: ConnectionEvent) -> (r: (Self, ConnectionAction))
        ensures
            r == connection_next(self, event),
    {
        match event {
            ConnectionEvent::Completed => match self {
                ConnectionState::Greeting => (
                    ConnectionState::Reading,
                    ConnectionAction::ReadSample,
                ),
                ConnectionState::Reading => (
                    ConnectionState::Queueing,
                    ConnectionAction::QueueSample,
                ),
                ConnectionState::Queueing => (
                    ConnectionState::Acking,
                    ConnectionAction::SendAck,
                ),
                ConnectionState::Acking => (
                    ConnectionState::Reading,
                    ConnectionAction::ReadSample,
                ),
                ConnectionState::Done => (ConnectionState::Done, ConnectionAction::Close),
            },
            ConnectionEvent::EndOfStream => match self {
                ConnectionState::Reading => (ConnectionState::Done, ConnectionAction::Close),
                ConnectionState::Done => (ConnectionState::Done, ConnectionAction::Close),
                _ => (ConnectionState::Done, ConnectionAction::Abort),
            },
            ConnectionEvent::Failed => match self {
                ConnectionState::Done => (ConnectionState::Done, ConnectionAction::Close),
                _ => (ConnectionState::Done, ConnectionAction::Abort),
            },
        }
    }
}

/// A connection after several events.
pub open spec fn connection_after(events: Seq<ConnectionEvent>) -> ConnectionState
    decreases events.len(),
{
    if events.len() == 0 {
        ConnectionState::Greeting
    } else {
        connection_next(connection_after(events.drop_last()), events.last()).0
    }
}

/// What a connection does at the next event after `events`.
pub open spec fn action_after(events: Seq<ConnectionEvent>) -> ConnectionAction
    decreases events.len(),
{
    if events.len() == 0 {
        ConnectionAction::SendHandshake
    } else {
        connection_next(connection_after(events.drop_last()), events.last()).1
    }
}

/// How often an action was taken.
pub open spec fn times(events: Seq<ConnectionEvent>, action: ConnectionAction) -> nat
    decreases events.len(),
{
    (if action_after(events) == action {
        1nat
    } else {
        0nat
    }) + if events.len() == 0 {
        0nat
    } else {
        times(events.drop_last(), action)
    }
}

/// Every sample that is read is queued and then acknowledged before the next
/// one is read: at any time as many acknowledgements as queued samples have
/// been sent, or one less while a sample is being queued or after the
/// connection broke there. Nothing is acknowledged that was not queued.
pub proof fn lemma_acks_follow_samples(events: Seq<ConnectionEvent>)
    ensures
        times(events, ConnectionAction::SendAck) <= times(events, ConnectionAction::QueueSample),
        times(events, ConnectionAction::QueueSample) <= times(events, ConnectionAction::SendAck)
            + 1,
        action_after(events) is ReadSample ==> times(events, ConnectionAction::SendAck) == times(
            events,
            ConnectionAction::QueueSample,
        ),
        action_after(events) is SendHandshake <==> connection_after(events) is Greeting,
        action_after(events) is ReadSample <==> connection_after(events) is Reading,
        action_after(events) is QueueSample <==> connection_after(events) is Queueing,
        action_after(events) is SendAck <==> connection_after(events) is Acking,
        connection_after(events) is Greeting <==> events.len() == 0,
        connection_after(events) is Queueing ==> times(events, ConnectionAction::QueueSample)
            == times(events, ConnectionAction::SendAck) + 1,
        connection_after(events) is Acking ==> times(events, ConnectionAction::QueueSample)
            == times(events, ConnectionAction::SendAck),
        connection_after(events) is Greeting ==> times(events, ConnectionAction::QueueSample) == 0
            && times(events, ConnectionAction::SendAck) == 0,
    decreases events.len(),
{
    if events.len() > 0 {
        lemma_acks_follow_samples(events.drop_last());
    }
}

/// The TCP transport: what it serves and where, and whether it is running.
pub struct TcpTransport {
    num_threads: usize,
    specs: Vec<ArraySpec>,
    port: u16,
    started: bool,
}

impl TcpTransport {
    pub closed spec fn threads(&self) -> usize {
        self.num_threads
    }

    pub closed spec fn array_specs(&self) -> Seq<ArraySpec> {
        self.specs@
    }

    pub closed spec fn tcp_port(&self) -> u16 {
        self.port
    }

    pub fn new(num_threads: usize, specs: Vec<ArraySpec>, port: u16) -> (r: Self)
        ensures
            !r.running(),
            r.threads() == num_threads,
            r.array_specs() == specs@,
            r.tcp_port() == port,
    {
        Self { num_threads, specs, port, started: false }
    }

    pub fn num_threads(&self) -> (r: usize)
        ensures
            r == self.threads(),
    {
        self.num_threads
    }

    pub fn port(&self) -> (r: u16)
        ensures
            r == self.tcp_port(),
    {
        self.port
    }

    /// What is sent on every new connection.
    pub fn handshake(&self) -> (r: Vec<u8>)
        ensures
            r@ == handshake_bytes(spec_views(self.array_specs())),
    {
        encode_handshake(self.specs.as_slice())
    }

    /// The size in bytes of the samples that are read.
    pub fn payload_size(&self) -> (r: usize)
        ensures
            r == wrap_usize(sum_usize(sizes_of(self.array_specs()))),
            sum_usize(sizes_of(self.array_specs())) <= usize::MAX ==> r == sum_usize(
                sizes_of(self.array_specs()),
            ),
    {
        payload_size(&self.specs)
    }
}

impl Transport for TcpTransport {
    closed spec fn running(&self) -> bool {
        self.started
    }

    fn start(&mut self) -> (r: Result<(), StartError>)
        ensures
            final(self).threads() == old(self).threads(),
            final(self).array_specs() == old(self).array_specs(),
            final(self).tcp_port() == old(self).tcp_port(),
    {
        if self.started {
            return Err(StartError::AlreadyStarted);
        }
        self.started = true;
        Ok(())
    }

    fn shutdown(&mut self)
        ensures
            final(self).threads() == old(self).threads(),
            final(self).array_specs() == old(self).array_specs(),
            final(self).tcp_port() == old(self).tcp_port(),
    {
        self.started = false;
    }
}

} // verus!
