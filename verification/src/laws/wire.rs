//! What a client reads, and when.

use crate::arith::sum_usize;
use crate::array_spec::{sizes_of, ArraySpec};
use crate::transport::tcp::{
    action_after, all_spec_bytes, connection_after, connection_next, encode_handshake,
    handshake_bytes, le_u32, le_u32s, spec_bytes, spec_views, ConnectionAction, ConnectionEvent,
    ConnectionState, TcpTransport, PROTOCOL_MAGIC, PROTOCOL_VERSION,
};
use vstd::prelude::*;

verus! {

/// The number that a client reads at `at`: four bytes, the lowest first.
pub open spec fn u32_at(bytes: Seq<u8>, at: int) -> int {
    bytes[at] + 256 * bytes[at + 1] + 65536 * bytes[at + 2] + 16777216 * bytes[at + 3]
}

/// The bytes that the record of an array takes: two numbers, and one more for
/// each dimension.
pub open spec fn record_len(spec: ArraySpec) -> int {
    8 + 4 * (spec.shape@.len() as int)
}

/// Where the record of array number `i` begins.
pub open spec fn record_start(specs: Seq<ArraySpec>, i: int) -> int
    decreases i,
{
    if i <= 0 {
        9
    } else {
        record_start(specs, i - 1) + record_len(specs[i - 1])
    }
}

/// A number that was written is read back, as far as it fits in 32 bits.
pub(crate) proof fn lemma_number_reads_back(n: nat)
    ensures
        le_u32(n).len() == 4,
        u32_at(le_u32(n), 0) == n % 4294967296,
{
    let bytes = le_u32(n);
    assert(bytes[0] == n % 256);
    assert(bytes[1] == n / 256 % 256);
    assert(bytes[2] == n / 65536 % 256);
    assert(bytes[3] == n / 16777216 % 256);
    let n = n as int;
    let (q1, q2, q3, q4) = (n / 256, n / 65536, n / 16777216, n / 4294967296);
    assert(q2 == q1 / 256 && q3 == q2 / 256 && q4 == q3 / 256) by {
        vstd::arithmetic::div_mod::lemma_div_denominator(n, 256, 256);
        vstd::arithmetic::div_mod::lemma_div_denominator(n, 65536, 256);
        vstd::arithmetic::div_mod::lemma_div_denominator(n, 16777216, 256);
    }
    let low = n % 256 + 256 * (q1 % 256) + 65536 * (q2 % 256) + 16777216 * (q3 % 256);
    assert(n == q4 * 4294967296 + low && 0 <= low < 4294967296) by {
        vstd::arithmetic::div_mod::lemma_fundamental_div_mod(n, 256);
        vstd::arithmetic::div_mod::lemma_fundamental_div_mod(q1, 256);
        vstd::arithmetic::div_mod::lemma_fundamental_div_mod(q2, 256);
        vstd::arithmetic::div_mod::lemma_fundamental_div_mod(q3, 256);
    }
    vstd::arithmetic::div_mod::lemma_fundamental_div_mod_converse(n, 4294967296, q4, low);
}

/// What is read in the middle of bytes is read in the middle of the whole.
proof fn lemma_read_within(head: Seq<u8>, mid: Seq<u8>, tail: Seq<u8>, at: int)
    requires
        0 <= at,
        at + 4 <= mid.len(),
    ensures
        u32_at(head + mid + tail, head.len() + at) == u32_at(mid, at),
{
    let all = head + mid + tail;
    assert(all[head.len() + at] == mid[at]);
    assert(all[head.len() + at + 1] == mid[at + 1]);
    assert(all[head.len() + at + 2] == mid[at + 2]);
    assert(all[head.len() + at + 3] == mid[at + 3]);
}

/// Number `d` of several is at `4 * d`.
proof fn lemma_numbers_read_back(numbers: Seq<usize>, d: int)
    requires
        0 <= d < numbers.len(),
    ensures
        le_u32s(numbers).len() == 4 * numbers.len(),
        u32_at(le_u32s(numbers), 4 * d) == numbers[d] as int % 4294967296,
    decreases numbers.len(),
{
    let rest = numbers.drop_last();
    let last = le_u32(numbers.last() as nat);
    let none = Seq::<u8>::empty();
    lemma_numbers_len(rest);
    lemma_number_reads_back(numbers.last() as nat);
    if d < rest.len() {
        lemma_numbers_read_back(rest, d);
        lemma_read_within(none, le_u32s(rest), last, 4 * d);
        assert(none + le_u32s(rest) + last =~= le_u32s(numbers));
    } else {
        lemma_read_within(le_u32s(rest), last, none, 0);
        assert(le_u32s(rest) + last + none =~= le_u32s(numbers));
    }
}

/// Every number takes four bytes.
proof fn lemma_numbers_len(numbers: Seq<usize>)
    ensures
        le_u32s(numbers).len() == 4 * numbers.len(),
    decreases numbers.len(),
{
    if numbers.len() > 0 {
        lemma_numbers_len(numbers.drop_last());
    }
}

/// A record on its own is read back.
proof fn lemma_record_reads_back(spec: ArraySpec)
    ensures
        spec_bytes(spec@).len() == record_len(spec),
        u32_at(spec_bytes(spec@), 0) == spec.dtype_size as int % 4294967296,
        u32_at(spec_bytes(spec@), 4) == spec.shape@.len() as int % 4294967296,
        forall|d: int|
            0 <= d < spec.shape@.len() ==> #[trigger] u32_at(spec_bytes(spec@), 8 + 4 * d)
                == spec.shape@[d] as int % 4294967296,
{
    let (a, b, c) = (
        le_u32(spec.dtype_size as nat),
        le_u32(spec.shape@.len()),
        le_u32s(spec.shape@),
    );
    let none = Seq::<u8>::empty();
    lemma_number_reads_back(spec.dtype_size as nat);
    lemma_number_reads_back(spec.shape@.len());
    lemma_numbers_len(spec.shape@);
    lemma_read_within(none, a, b + c, 0);
    assert(none + a + (b + c) =~= spec_bytes(spec@));
    lemma_read_within(a, b, c, 0);
    assert(a + b + c =~= spec_bytes(spec@));
    assert forall|d: int| 0 <= d < spec.shape@.len() implies #[trigger] u32_at(
        spec_bytes(spec@),
        8 + 4 * d,
    ) == spec.shape@[d] as int % 4294967296 by {
        lemma_numbers_read_back(spec.shape@, d);
        lemma_read_within(a + b, c, none, 4 * d);
        assert(a + b + c + none =~= spec_bytes(spec@));
    }
}

/// Where records begin and end.
proof fn lemma_records_len(specs: Seq<ArraySpec>, n: int)
    requires
        0 <= n <= specs.len(),
    ensures
        all_spec_bytes(spec_views(specs).take(n)).len() + 9 == record_start(specs, n),
    decreases n,
{
    let views = spec_views(specs);
    if n == 0 {
        assert(views.take(0) =~= Seq::<(Seq<usize>, usize)>::empty());
    } else {
        lemma_records_len(specs, n - 1);
        assert(views.take(n).drop_last() =~= views.take(n - 1));
        assert(views.take(n).last() == specs[n - 1]@);
        lemma_record_reads_back(specs[n - 1]);
    }
}

/// The records before one, the one, and those behind.
proof fn lemma_record_between(specs: Seq<ArraySpec>, i: int, n: int) -> (tail: Seq<u8>)
    requires
        0 <= i < n <= specs.len(),
    ensures
        all_spec_bytes(spec_views(specs).take(n)) == all_spec_bytes(spec_views(specs).take(i))
            + spec_bytes(specs[i]@) + tail,
    decreases n,
{
    let views = spec_views(specs);
    assert(views.take(n).drop_last() =~= views.take(n - 1));
    assert(views.take(n).last() == specs[n - 1]@);
    if n == i + 1 {
        let tail = Seq::<u8>::empty();
        assert(all_spec_bytes(views.take(n)) =~= all_spec_bytes(views.take(i)) + spec_bytes(
            specs[i]@,
        ) + tail);
        tail
    } else {
        let before = lemma_record_between(specs, i, n - 1);
        let tail = before + spec_bytes(specs[n - 1]@);
        assert(all_spec_bytes(views.take(n)) =~= all_spec_bytes(views.take(i)) + spec_bytes(
            specs[i]@,
        ) + tail);
        tail
    }
}

/// Reading the handshake back by its format gives the array specs: the four
/// letters, version 1, the number of arrays, and then of each array the bytes
/// of an element, the number of dimensions, and the dimensions in the order of
/// the shape. Each number is read as its lowest 32 bits, and nothing follows.
pub proof fn lemma_handshake_reads_back(specs: Seq<ArraySpec>)
    ensures
        ({
            let bytes = handshake_bytes(spec_views(specs));
            &&& bytes.len() == record_start(specs, specs.len() as int)
            &&& bytes[0] == 0x45 && bytes[1] == 0x43 && bytes[2] == 0x48 && bytes[3] == 0x4F
            &&& bytes[4] == 1
            &&& u32_at(bytes, 5) == specs.len() as int % 4294967296
            &&& forall|i: int|
                0 <= i < specs.len() ==> u32_at(bytes, #[trigger] record_start(specs, i))
                    == specs[i].dtype_size as int % 4294967296
            &&& forall|i: int|
                0 <= i < specs.len() ==> u32_at(bytes, #[trigger] record_start(specs, i) + 4)
                    == specs[i].shape@.len() as int % 4294967296
            &&& forall|i: int, d: int|
                0 <= i < specs.len() && 0 <= d < specs[i].shape@.len() ==> #[trigger] u32_at(
                    bytes,
                    record_start(specs, i) + 8 + 4 * d,
                ) == specs[i].shape@[d] as int % 4294967296
        }),
{
    let views = spec_views(specs);
    let bytes = handshake_bytes(views);
    let magic = PROTOCOL_MAGIC@ + seq![PROTOCOL_VERSION];
    let count = le_u32(specs.len());
    let head = magic + count;
    assert(views.take(specs.len() as int) =~= views);
    lemma_records_len(specs, specs.len() as int);
    lemma_number_reads_back(specs.len());
    lemma_read_within(magic, count, all_spec_bytes(views), 0);
    assert(magic.len() == 5 && head.len() == 9);
    assert(bytes[0] == magic[0] && bytes[1] == magic[1] && bytes[2] == magic[2] && bytes[3]
        == magic[3] && bytes[4] == magic[4]);
    assert forall|i: int| 0 <= i < specs.len() implies ({
        let at = #[trigger] record_start(specs, i);
        &&& u32_at(bytes, at) == specs[i].dtype_size as int % 4294967296
        &&& u32_at(bytes, at + 4) == specs[i].shape@.len() as int % 4294967296
    }) by {
        lemma_record_in_place(specs, i, 0);
        lemma_record_in_place(specs, i, 4);
        lemma_record_reads_back(specs[i]);
    }
    assert forall|i: int, d: int|
        0 <= i < specs.len() && 0 <= d < specs[i].shape@.len() implies #[trigger] u32_at(
        bytes,
        record_start(specs, i) + 8 + 4 * d,
    ) == specs[i].shape@[d] as int % 4294967296 by {
        lemma_record_reads_back(specs[i]);
        lemma_record_in_place(specs, i, 8 + 4 * d);
        assert(u32_at(spec_bytes(specs[i]@), 8 + 4 * d) == specs[i].shape@[d] as int
            % 4294967296);
    }
}

/// What is read in a record is read at its place in the handshake.
proof fn lemma_record_in_place(specs: Seq<ArraySpec>, i: int, at: int)
    requires
        0 <= i < specs.len(),
        0 <= at,
        at + 4 <= record_len(specs[i]),
    ensures
        u32_at(handshake_bytes(spec_views(specs)), record_start(specs, i) + at) == u32_at(
            spec_bytes(specs[i]@),
            at,
        ),
{
    let views = spec_views(specs);
    let n = specs.len() as int;
    let head = PROTOCOL_MAGIC@ + seq![PROTOCOL_VERSION] + le_u32(specs.len());
    let tail = lemma_record_between(specs, i, n);
    assert(views.take(n) =~= views);
    lemma_records_len(specs, i);
    lemma_record_reads_back(specs[i]);
    let before = head + all_spec_bytes(views.take(i));
    assert(before.len() == record_start(specs, i));
    lemma_read_within(before, spec_bytes(specs[i]@), tail, at);
    assert(before + spec_bytes(specs[i]@) + tail =~= handshake_bytes(views));
}

/// As long as all goes well, a connection sends the handshake once and then
/// reads, queues and acknowledges one sample after the other.
pub proof fn lemma_connection_cycle(events: Seq<ConnectionEvent>)
    requires
        forall|i: int| 0 <= i < events.len() ==> #[trigger] events[i] is Completed,
    ensures
        events.len() == 0 ==> action_after(events) is SendHandshake,
        events.len() > 0 && (events.len() - 1) % 3 == 0 ==> action_after(events) is ReadSample,
        events.len() > 0 && (events.len() - 1) % 3 == 1 ==> action_after(events) is QueueSample,
        events.len() > 0 && (events.len() - 1) % 3 == 2 ==> action_after(events) is SendAck,
        events.len() == 0 ==> connection_after(events) is Greeting,
        events.len() > 0 && (events.len() - 1) % 3 == 0 ==> connection_after(events) is Reading,
        events.len() > 0 && (events.len() - 1) % 3 == 1 ==> connection_after(events) is Queueing,
        events.len() > 0 && (events.len() - 1) % 3 == 2 ==> connection_after(events) is Acking,
    decreases events.len(),
{
    if events.len() > 0 {
        let fewer = events.drop_last();
        assert forall|i: int| 0 <= i < fewer.len() implies #[trigger] fewer[i] is Completed by {
            assert(events[i] is Completed);
        }
        lemma_connection_cycle(fewer);
        assert(events[events.len() - 1] is Completed);
    }
}

/// The first thing that goes wrong ends a connection. The end of the stream
/// while a sample is read is no error; anything else is. After that nothing is
/// done but to hang up.
pub proof fn lemma_connection_ends(state: ConnectionState, event: ConnectionEvent)
    ensures
        !(state is Done) && !(event is Completed) ==> connection_next(state, event).0 is Done,
        !(state is Done) && event is Completed ==> !(connection_next(state, event).0 is Done),
        !(state is Done) && !(event is Completed) ==> (connection_next(state, event).1 is Close
            <==> state is Reading && event is EndOfStream),
        !(state is Done) && !(event is Completed) ==> (connection_next(state, event).1 is Close
            || connection_next(state, event).1 is Abort),
        state is Done ==> connection_next(state, event) == (
            ConnectionState::Done,
            ConnectionAction::Close,
        ),
{
}

/// A client that reads an encoded handshake in the documented format gets the
/// specs back: the number of arrays, and for each the size of an element, the
/// number of dimensions, and every dimension at its place.
pub proof fn lemma_encoded_handshake(specs: &[ArraySpec], bytes: Vec<u8>)
    requires
        call_ensures(encode_handshake, (specs,), bytes),
    ensures
        bytes@.len() == record_start(specs@, specs@.len() as int),
        bytes@[0] == 0x45 && bytes@[1] == 0x43 && bytes@[2] == 0x48 && bytes@[3] == 0x4F,
        bytes@[4] == 1,
        u32_at(bytes@, 5) == specs@.len() as int % 4294967296,
        forall|i: int|
            0 <= i < specs@.len() ==> u32_at(bytes@, #[trigger] record_start(specs@, i))
                == specs@[i].dtype_size as int % 4294967296,
        forall|i: int|
            0 <= i < specs@.len() ==> u32_at(bytes@, #[trigger] record_start(specs@, i) + 4)
                == specs@[i].shape@.len() as int % 4294967296,
        forall|i: int, d: int|
            0 <= i < specs@.len() && 0 <= d < specs@[i].shape@.len() ==> #[trigger] u32_at(
                bytes@,
                record_start(specs@, i) + 8 + 4 * d,
            ) == specs@[i].shape@[d] as int % 4294967296,
{
    lemma_handshake_reads_back(specs@);
}

/// A connection greets first. After that, each thing that was done leads to the
/// next one, and the first thing that goes wrong ends the connection.
pub proof fn lemma_connection_steps_on(
    state: ConnectionState,
    event: ConnectionEvent,
    r: (ConnectionState, ConnectionAction),
    first: (ConnectionState, ConnectionAction),
)
    requires
        call_ensures(ConnectionState::next, (state, event), r),
        call_ensures(ConnectionState::open, (), first),
    ensures
        first.0 is Greeting && first.1 is SendHandshake,
        event is Completed ==> match state {
            ConnectionState::Greeting => r.0 is Reading && r.1 is ReadSample,
            ConnectionState::Reading => r.0 is Queueing && r.1 is QueueSample,
            ConnectionState::Queueing => r.0 is Acking && r.1 is SendAck,
            ConnectionState::Acking => r.0 is Reading && r.1 is ReadSample,
            ConnectionState::Done => r.0 is Done && r.1 is Close,
        },
        !(event is Completed) ==> r.0 is Done,
        !(event is Completed) ==> r.1 is Close || r.1 is Abort,
        !(event is Completed) ==> (r.1 is Close <==> state is Done || (state is Reading
            && event is EndOfStream)),
{
}

/// A transport sends the handshake of its arrays, and its samples have as many
/// bytes as its arrays together.
pub proof fn lemma_transport_tells(
    num_threads: usize,
    specs: Vec<ArraySpec>,
    port: u16,
    transport: TcpTransport,
    threads: usize,
    at: u16,
    bytes: Vec<u8>,
    size: usize,
)
    requires
        call_ensures(TcpTransport::new, (num_threads, specs, port), transport),
        call_ensures(TcpTransport::num_threads, (&transport,), threads),
        call_ensures(TcpTransport::port, (&transport,), at),
        call_ensures(TcpTransport::handshake, (&transport,), bytes),
        call_ensures(TcpTransport::payload_size, (&transport,), size),
    ensures
        threads == num_threads,
        at == port,
        bytes@.len() == record_start(specs@, specs@.len() as int),
        u32_at(bytes@, 5) == specs@.len() as int % 4294967296,
        forall|i: int, d: int|
            0 <= i < specs@.len() && 0 <= d < specs@[i].shape@.len() ==> #[trigger] u32_at(
                bytes@,
                record_start(specs@, i) + 8 + 4 * d,
            ) == specs@[i].shape@[d] as int % 4294967296,
        sum_usize(sizes_of(specs@)) <= usize::MAX ==> size == sum_usize(sizes_of(specs@)),
{
    lemma_handshake_reads_back(specs@);
}

} // verus!
