//! What calls return: laws on the results of the library's functions, and on
//! how the results of several calls relate.

use crate::arith::sum_usize;
use crate::array_spec::{array_sizes, payload_size, shape_product, sizes_of, ArraySpec};
use crate::hist::level;
use crate::ingress::{
    collect_round, collected, drain_round, drained_views, finish_round, lemma_connection_order,
    lemma_visited_at_turn, nonempty_ids, owned, pending_samples, position, resume_round, rotated,
    rotation, samples_of, transport_views, turn_of, DrainedRound, Drainer, DrainerPool, PushStep,
    SampleSender, TransportHandle, TransportQueueItem, TransportView,
};
use crate::laws::bytes::{
    fits_slots, lemma_array_bytes, lemma_pieces, lemma_ring_with, lemma_room,
    lemma_store_can_be_built, lemma_view_points_at_batch, lemma_window,
};
use crate::laws::counts::lemma_duration_counted;
use crate::laws::flow::lemma_claim;
use crate::laws::rounds::{
    buffers_of, has_queued, lemma_buffers_go_back, lemma_forgotten, lemma_found_first,
    lemma_rotation_moves_on, lemma_round_wakes,
};
use crate::metrics::{DrainerMetrics, Metrics};
use crate::protocol::{
    holds, lemma_copies_sound, lemma_empty_log, lemma_first_in_first_out, lemma_log_grows,
    lemma_one_wake_per_batch, lemma_pieces_whole, lemma_shaped, lemma_sound_start, sound,
    whole_sample, FifoStore, History,
};
use crate::ring_buf::{joined, PytreeRingBuf};
use crate::selector::{
    commit_all, wake_count, FifoRemover, FifoSampler, Remover, Sampler, SamplerModel,
};
use crate::server::{build_specs, ConfigError, SampleInfo, Server};
use crate::store::{
    bytes_of, find_defect, pieces, split_samples, ConsumerView, InsertReport, InsertStep,
    SampleStep, Store, StoreDefect,
};
use vstd::prelude::*;

verus! {

/// The consumer gets the samples in the order in which they were stored, in
/// whole batches. Of every array, the bytes that its view names in the array's
/// buffer are those of the samples of the batch, joined in order; writers have
/// to be woken if and only if the store was full and a batch was given back.
pub proof fn lemma_sampled<R: Remover>(
    store: &mut Store<FifoSampler, R>,
    r: (SampleStep, bool),
    log: Seq<Seq<Seq<u8>>>,
    j: int,
)
    requires
        call_ensures(Store::<FifoSampler, R>::sample, (store,), r),
        old(store).wf(),
        sound(old(store)@, History::of_log(log)),
        old(store)@.write == log.len(),
        0 <= j < old(store)@.widths.len(),
    ensures
        r.0 is Ready <==> old(store)@.sampler.read + old(store)@.batch_size <= log.len(),
        r.0 matches SampleStep::Ready(view) ==> {
            let read = old(store)@.sampler.read as int;
            &&& view.arrays@.len() == old(store)@.widths.len()
            &&& joined(final(store)@.ring[j]).subrange(
                view.arrays@[j].0 as int,
                view.arrays@[j].0 + view.arrays@[j].1,
            ) == joined(
                log.subrange(read, read + old(store)@.batch_size).map_values(
                    |arrays: Seq<Seq<u8>>| arrays[j],
                ),
            )
            &&& final(store)@.sampler.read == read + old(store)@.batch_size
            &&& final(store)@.has_previous
        },
        !(r.0 is Ready) ==> !final(store)@.has_previous && final(store)@.sampler == old(
            store,
        )@.sampler,
        r.0 is Shutdown ==> FifoSampler::closed(old(store)@.sampler),
        r.1 <==> old(store)@.has_previous && old(store)@.write - old(store)@.freed == old(
            store,
        )@.capacity,
        final(store)@.ring == old(store)@.ring,
{
    let s = old(store)@;
    lemma_first_in_first_out(s, log, j);
    lemma_room(s, History::of_log(log));
    if let SampleStep::Ready(view) = r.0 {
        lemma_view_points_at_batch(&*final(store), &view, view.start, view.count, j);
    }
}

/// The same of a sampling that does not wait.
pub proof fn lemma_tried_sample<R: Remover>(
    store: &mut Store<FifoSampler, R>,
    r: (Option<ConsumerView>, bool),
    log: Seq<Seq<Seq<u8>>>,
    j: int,
)
    requires
        call_ensures(Store::<FifoSampler, R>::try_sample, (store,), r),
        old(store).wf(),
        sound(old(store)@, History::of_log(log)),
        old(store)@.write == log.len(),
        0 <= j < old(store)@.widths.len(),
    ensures
        r.0 is Some <==> old(store)@.sampler.read + old(store)@.batch_size <= log.len(),
        r.0 matches Some(view) ==> {
            let read = old(store)@.sampler.read as int;
            &&& view.arrays@.len() == old(store)@.widths.len()
            &&& joined(final(store)@.ring[j]).subrange(
                view.arrays@[j].0 as int,
                view.arrays@[j].0 + view.arrays@[j].1,
            ) == joined(
                log.subrange(read, read + old(store)@.batch_size).map_values(
                    |arrays: Seq<Seq<u8>>| arrays[j],
                ),
            )
            &&& final(store)@.sampler.read == read + old(store)@.batch_size
            &&& final(store)@.has_previous
        },
        r.0 is None ==> !final(store)@.has_previous && final(store)@.sampler == old(
            store,
        )@.sampler,
        r.1 <==> old(store)@.has_previous && old(store)@.write - old(store)@.freed == old(
            store,
        )@.capacity,
        final(store)@.ring == old(store)@.ring,
{
    let s = old(store)@;
    lemma_first_in_first_out(s, log, j);
    lemma_room(s, History::of_log(log));
    if let Some(view) = r.0 {
        lemma_view_points_at_batch(&*final(store), &view, view.start, view.count, j);
    }
}

/// What a store gives of a view is the part of the buffer that the view names.
pub proof fn lemma_view_bytes_in_buffer<S: Sampler, R: Remover>(
    store: &Store<S, R>,
    view: &ConsumerView,
    array_idx: usize,
    bytes: &[u8],
    buffer: &[u8],
)
    requires
        call_ensures(Store::<S, R>::view_bytes, (store, view, array_idx), bytes),
        call_ensures(Store::<S, R>::buffer, (store, array_idx), buffer),
        store.wf(),
        view.spans(view.start, view.count, store@.widths),
        view.start + view.count <= store@.capacity,
        array_idx < store@.widths.len(),
    ensures
        bytes@ == buffer@.subrange(
            view.arrays@[array_idx as int].0 as int,
            view.arrays@[array_idx as int].0 + view.arrays@[array_idx as int].1,
        ),
{
    lemma_view_points_at_batch(store, view, view.start, view.count, array_idx as int);
}

/// Inserting goes on until all samples are in or the ring is full. Every sample
/// that is in has all of its bytes in the slot of its position, one array after
/// the other.
pub proof fn lemma_inserted_batch<R: Remover>(
    store: &mut Store<FifoSampler, R>,
    samples: &[&[u8]],
    sizes: &[usize],
    lost: u64,
    metrics: Option<&mut DrainerMetrics>,
    r: InsertReport,
    h: History,
    k: int,
)
    requires
        call_ensures(
            Store::<FifoSampler, R>::insert_batch,
            (store, samples, sizes, lost, metrics),
            r,
        ),
        old(store).wf(),
        sound(old(store)@, h),
        sizes@ == old(store)@.widths,
        old(store)@.write + samples@.len() <= usize::MAX,
        forall|i: int|
            0 <= i < samples@.len() ==> sum_usize(sizes@) <= (#[trigger] samples@[i])@.len(),
        0 <= k < r.done,
    ensures
        r.done <= samples@.len(),
        r.done == samples@.len() || final(store)@.write - old(store)@.freed == old(
            store,
        )@.capacity,
        final(store)@.write == old(store)@.write + r.done,
        final(store)@.freed == old(store)@.freed,
        joined(
            Seq::new(
                sizes@.len(),
                |j: int|
                    final(store)@.ring[j][(old(store)@.write + k) % old(store)@.capacity as int],
            ),
        ) == samples@[k]@.take(sum_usize(sizes@) as int),
{
    let s = old(store)@;
    let all = split_samples(samples@, sizes@).take(r.done as int);
    let after = final(store)@;
    let slot = (s.write + k) % s.capacity as int;
    lemma_room(s, h);
    lemma_pieces(samples@[k]@, sizes@);
    assert forall|i: int| 0 <= i < all.len() implies fits_slots(s.ring, #[trigger] all[i]) by {
        lemma_pieces(samples@[i]@, sizes@);
    }
    let there = Seq::new(sizes@.len(), |j: int| after.ring[j][slot]);
    assert forall|j: int| 0 <= j < sizes@.len() implies there[j] == pieces(samples@[k]@, sizes@)[j]
        by {
        lemma_ring_with(s.ring, s.capacity as int, s.write as int, all, j);
        assert(all[k] == pieces(samples@[k]@, sizes@));
    }
    assert(there =~= pieces(samples@[k]@, sizes@));
}

/// A round wakes exactly the producers whose queues it emptied, and leaves
/// nothing in any queue; it takes the samples of each connection in the order
/// in which they were pushed.
pub proof fn lemma_round_collected(
    transports: &mut Vec<TransportHandle>,
    metrics: &mut DrainerMetrics,
    round_counter: usize,
    now: u64,
    round: DrainedRound,
    id: u64,
    j: int,
)
    requires
        call_ensures(collect_round, (transports, metrics, round_counter, now), round),
        0 <= j < old(transports)@.len(),
        forall|i: int, k: int|
            0 <= i < k < old(transports)@.len() ==> (#[trigger] old(transports)@[i])@.id != (
            #[trigger] old(transports)@[k])@.id,
    ensures
        round.wakes@.contains(id) <==> exists|i: int|
            0 <= i < old(transports)@.len() && (#[trigger] old(transports)@[i])@.id == id && old(
                transports,
            )@[i]@.queue.len() > 0,
        round.wakes@.len() == transport_views(old(transports)@).filter(has_queued()).len(),
        final(transports)@.len() == old(transports)@.len(),
        final(transports)@[j]@ == (TransportView {
            queue: Seq::empty(),
            ..old(transports)@[j]@
        }),
        samples_of(drained_views(round.items@), old(transports)@[j]@.id) == owned(
            old(transports)@[j]@,
        ),
{
    let views = transport_views(old(transports)@);
    let after = transport_views(final(transports)@);
    lemma_wakes_of(views, round_counter, id);
    lemma_order_of(views, round_counter, j);
    assert(after == views.map_values(|t: TransportView| t.emptied()));
    assert(after.len() == views.len());
    assert(after.len() == final(transports)@.len());
    assert(views[j] == old(transports)@[j]@);
    assert(after[j] == views[j].emptied());
    assert(after[j] == final(transports)@[j]@);
    if exists|i: int|
        0 <= i < views.len() && (#[trigger] views[i]).id == id && views[i].queue.len() > 0 {
        let i = choose|i: int|
            0 <= i < views.len() && (#[trigger] views[i]).id == id && views[i].queue.len() > 0;
        assert(old(transports)@[i]@.id == id);
    }
    if exists|i: int|
        0 <= i < old(transports)@.len() && (#[trigger] old(transports)@[i])@.id == id && old(
            transports,
        )@[i]@.queue.len() > 0 {
        let i = choose|i: int|
            0 <= i < old(transports)@.len() && (#[trigger] old(transports)@[i])@.id == id && old(
                transports,
            )@[i]@.queue.len() > 0;
        assert(views[i].id == id);
    }
}

/// Who is woken in a round.
proof fn lemma_wakes_of(views: Seq<TransportView>, round_counter: usize, id: u64)
    ensures
        ({
            let wakes = nonempty_ids(
                rotated(views, rotation(round_counter, views.len())),
            );
            &&& wakes.contains(id) <==> exists|i: int|
                0 <= i < views.len() && (#[trigger] views[i]).id == id && views[i].queue.len() > 0
            &&& wakes.len() == views.filter(has_queued()).len()
        }),
{
    if views.len() > 0 {
        lemma_rotation_moves_on(round_counter, views.len());
    }
    lemma_round_wakes(views, rotation(round_counter, views.len()), id);
}

/// In which order the samples of a connection are taken.
proof fn lemma_order_of(views: Seq<TransportView>, round_counter: usize, j: int)
    requires
        0 <= j < views.len(),
        forall|i: int, k: int|
            0 <= i < k < views.len() ==> (#[trigger] views[i]).id != (#[trigger] views[k]).id,
    ensures
        samples_of(collected(rotated(views, rotation(round_counter, views.len()))), views[j].id)
            == owned(views[j]),
{
    let n = views.len() as int;
    lemma_rotation_moves_on(round_counter, views.len());
    let offset = rotation(round_counter, views.len());
    let turns = rotated(views, offset);
    lemma_visited_at_turn(views, offset, j);
    assert forall|i: int, k: int| 0 <= i < k < turns.len() implies (#[trigger] turns[i]).id != (
    #[trigger] turns[k]).id by {
        let a = if i < n - offset {
            i + offset
        } else {
            i + offset - n
        };
        let b = if k < n - offset {
            k + offset
        } else {
            k + offset - n
        };
        assert(turns[i] == views[a] && turns[k] == views[b]);
        if a < b {
            assert(views[a].id != views[b].id);
        } else {
            assert(views[b].id != views[a].id);
        }
    }
    lemma_connection_order(turns, turn_of(j, offset, n));
}

/// The same wake-ups come of a round whose samples go to the store at once.
pub proof fn lemma_round_drained<S: Sampler, R: Remover>(
    transports: &mut Vec<TransportHandle>,
    store: &mut Store<S, R>,
    sizes: &[usize],
    metrics: &mut Metrics,
    drainer: usize,
    round_counter: usize,
    now: u64,
    lost: u64,
    r: (DrainedRound, usize),
    id: u64,
)
    requires
        call_ensures(
            drain_round::<S, R>,
            (transports, store, sizes, metrics, drainer, round_counter, now, lost),
            r,
        ),
    ensures
        r.0.wakes@.contains(id) <==> exists|i: int|
            0 <= i < old(transports)@.len() && (#[trigger] old(transports)@[i])@.id == id && old(
                transports,
            )@[i]@.queue.len() > 0,
        r.0.wakes@.len() == transport_views(old(transports)@).filter(has_queued()).len(),
        r.0.done <= r.0.items@.len(),
        r.0.started == now,
{
    let views = transport_views(old(transports)@);
    lemma_wakes_of(views, round_counter, id);
    if exists|i: int|
        0 <= i < views.len() && (#[trigger] views[i]).id == id && views[i].queue.len() > 0 {
        let i = choose|i: int|
            0 <= i < views.len() && (#[trigger] views[i]).id == id && views[i].queue.len() > 0;
        assert(old(transports)@[i]@.id == id);
    }
    if exists|i: int|
        0 <= i < old(transports)@.len() && (#[trigger] old(transports)@[i])@.id == id && old(
            transports,
        )@[i]@.queue.len() > 0 {
        let i = choose|i: int|
            0 <= i < old(transports)@.len() && (#[trigger] old(transports)@[i])@.id == id && old(
                transports,
            )@[i]@.queue.len() > 0;
        assert(views[i].id == id);
    }
}

/// A push goes to the end of the queue if there is room; if there is none, the
/// sample comes back and the blocked push is counted. Nothing else changes.
pub proof fn lemma_pushed(
    sender: &SampleSender,
    transport: &mut TransportHandle,
    item: TransportQueueItem,
    metrics: &mut Metrics,
    r: PushStep,
)
    requires
        call_ensures(SampleSender::push, (sender, transport, item, metrics), r),
    ensures
        r is Queued <==> old(transport)@.queue.len() < old(transport)@.queue_capacity,
        r is Queued ==> {
            &&& final(transport)@.queue.len() == old(transport)@.queue.len() + 1
            &&& final(transport)@.queue.last() == item@
            &&& final(transport)@.queue.drop_last() == old(transport)@.queue
            &&& final(transport)@.pool == old(transport)@.pool
            &&& final(metrics)@ == old(metrics)@
        },
        r matches PushStep::Full(back) ==> {
            &&& back == item
            &&& final(transport)@ == old(transport)@
            &&& old(metrics)@.push_blocked_count < u64::MAX ==> final(metrics)@.push_blocked_count
                == old(metrics)@.push_blocked_count + 1
            &&& final(metrics)@.drainers == old(metrics)@.drainers
            &&& final(metrics)@.notify_count == old(metrics)@.notify_count
            &&& final(metrics)@.active_connections == old(metrics)@.active_connections
        },
{
    assert(old(transport)@.queue.push(item@).drop_last() =~= old(transport)@.queue);
}

/// Buffers go round in order: of two that come back to an empty pool, the first
/// is acquired first, with the bytes that are left in it.
pub proof fn lemma_buffers_go_round(
    one: &mut TransportHandle,
    two: &mut TransportHandle,
    three: &mut TransportHandle,
    sender: &SampleSender,
    first: TransportQueueItem,
    second: TransportQueueItem,
    payload_size: usize,
    buffer: Vec<u8>,
)
    requires
        call_ensures(TransportHandle::recycle, (one, first), ()),
        call_ensures(TransportHandle::recycle, (two, second), ()),
        call_ensures(SampleSender::acquire, (sender, three, payload_size), buffer),
        *old(two) == *final(one),
        *old(three) == *final(two),
        old(one)@.pool.len() == 0,
        old(one)@.pool_capacity >= 2,
    ensures
        buffer@ == first.data@,
        final(three)@.pool == seq![second@],
        final(three)@.queue == old(one)@.queue,
{
    assert(final(two)@.pool == old(one)@.pool.push(first@).push(second@));
    assert(final(two)@.pool.first() == first@);
    assert(final(three)@.pool =~= seq![second@]);
}

/// An empty pool yields a buffer of zeros.
pub proof fn lemma_fresh_buffer(
    transport: &mut TransportHandle,
    sender: &SampleSender,
    payload_size: usize,
    buffer: Vec<u8>,
)
    requires
        call_ensures(SampleSender::acquire, (sender, transport, payload_size), buffer),
        old(transport)@.pool.len() == 0,
    ensures
        buffer@.len() == payload_size,
        forall|i: int| 0 <= i < payload_size ==> #[trigger] buffer@[i] == 0,
        final(transport)@ == old(transport)@,
{
}

/// Connections are spread over the drainers in turn, and told apart: the next
/// connection goes to the next drainer and has the next id. Both ends of a
/// connection agree, and a new one is empty and open.
pub proof fn lemma_connections_in_turn(
    one: &mut DrainerPool,
    two: &mut DrainerPool,
    metrics: &mut Metrics,
    later: &mut Metrics,
    first: (SampleSender, TransportHandle),
    second: (SampleSender, TransportHandle),
)
    requires
        call_ensures(DrainerPool::new_sender, (one, metrics), first),
        call_ensures(DrainerPool::new_sender, (two, later), second),
        *old(two) == *final(one),
        old(one)@.num_drainers > 0,
        old(one)@.next_drainer < usize::MAX,
        old(one)@.next_id < u64::MAX,
    ensures
        first.0.drainer < old(one)@.num_drainers,
        second.0.drainer == (first.0.drainer + 1) % old(one)@.num_drainers as int,
        second.0.id == first.0.id + 1,
        first.0.id == first.1@.id,
        first.1@.queue.len() == 0 && first.1@.pool.len() == 0 && !first.1@.closed,
        first.1@.queue_capacity == old(one)@.producer_queue_size,
        first.1@.pool_capacity == 2 * first.1@.queue_capacity + 1,
        first.1@.payload == old(one)@.payload,
        old(metrics)@.active_connections < usize::MAX ==> final(metrics)@.active_connections
            == old(metrics)@.active_connections + 1,
        final(metrics)@.drainers == old(metrics)@.drainers,
{
    let n = old(one)@.num_drainers as int;
    let k = old(one)@.next_drainer as int;
    vstd::arithmetic::div_mod::lemma_mod_bound(k, n);
    vstd::arithmetic::div_mod::lemma_add_mod_noop(k, 1, n);
    if n > 1 {
        vstd::arithmetic::div_mod::lemma_small_mod(1, n as nat);
    } else {
        vstd::arithmetic::div_mod::lemma_mod_bound(k + 1, 1);
        vstd::arithmetic::div_mod::lemma_mod_bound(first.0.drainer + 1, 1);
    }
}

/// A producer that is gone leaves what it has queued.
pub proof fn lemma_hung_up(
    sender: &SampleSender,
    transport: &mut TransportHandle,
    metrics: &mut Metrics,
)
    requires
        call_ensures(SampleSender::close, (sender, transport, metrics), ()),
    ensures
        final(transport)@ == (TransportView { closed: true, ..old(transport)@ }),
        old(metrics)@.active_connections > 0 ==> final(metrics)@.active_connections == old(
            metrics,
        )@.active_connections - 1,
        final(metrics)@.drainers == old(metrics)@.drainers,
{
}

/// When a round ends, every connection gets the buffers of its own samples
/// back, and the time from the start of the round is counted once.
pub proof fn lemma_round_finished(
    transports: &mut Vec<TransportHandle>,
    metrics: &mut DrainerMetrics,
    round: DrainedRound,
    now: u64,
    j: int,
)
    requires
        call_ensures(finish_round, (transports, metrics, round, now), ()),
        0 <= j < old(transports)@.len(),
        forall|i: int, k: int|
            0 <= i < k < old(transports)@.len() ==> (#[trigger] old(transports)@[i])@.id != (
            #[trigger] old(transports)@[k])@.id,
        old(transports)@[j]@.pool.len() + buffers_of(
            drained_views(round.items@),
            old(transports)@[j]@.id,
        ).len() <= old(transports)@[j]@.pool_capacity,
    ensures
        final(transports)@.len() == old(transports)@.len(),
        final(transports)@[j]@ == (TransportView {
            pool: old(transports)@[j]@.pool + buffers_of(
                drained_views(round.items@),
                old(transports)@[j]@.id,
            ),
            ..old(transports)@[j]@
        }),
        old(metrics)@.detail is None ==> final(metrics)@ == old(metrics)@,
        old(metrics)@.detail matches Some(d) ==> {
            &&& final(metrics)@.detail is Some
            &&& d.drain_round.len() < u64::MAX && round.started < now && now - round.started
                <= 10_000_000_000 ==> final(metrics)@.detail->0.drain_round == d.drain_round.insert(
                level((now - round.started) as nat) as u64,
            )
            &&& final(metrics)@.detail->0.memcpy == d.memcpy
            &&& final(metrics)@.detail->0.queue_dwell == d.queue_dwell
        },
{
    let views = transport_views(old(transports)@);
    let after = transport_views(final(transports)@);
    assert(views[j] == old(transports)@[j]@);
    lemma_buffers_go_back(views, drained_views(round.items@), j);
    assert(after.len() == final(transports)@.len());
    assert(after[j] == final(transports)@[j]@);
    if let Some(d) = old(metrics)@.detail {
        if round.started < now {
            lemma_duration_counted(d.drain_round, (now - round.started) as u64);
        }
    }
}

/// When a turn ends, exactly the connections whose producers are gone and whose
/// queues are empty are forgotten, and the next round starts one further on.
pub proof fn lemma_turn_ended(drainer: &mut Drainer)
    requires
        call_ensures(Drainer::end_turn, (drainer,), ()),
    ensures
        transport_views(final(drainer).transports@) == transport_views(
            old(drainer).transports@,
        ).filter(|t: TransportView| !(t.closed && t.queue.len() == 0)),
        old(drainer).round_counter < usize::MAX ==> final(drainer).round_counter == old(
            drainer,
        ).round_counter + 1,
{
    lemma_forgotten(transport_views(old(drainer).transports@));
}

/// What is written to a slot is read from it, and from no other.
pub proof fn lemma_slot_written(
    ring: &mut PytreeRingBuf,
    slot: usize,
    array_idx: usize,
    data: &[u8],
    other_slot: usize,
    other_array: usize,
    here: &[u8],
    there_before: &[u8],
    there: &[u8],
)
    requires
        call_ensures(PytreeRingBuf::write_slot, (ring, slot, array_idx, data), ()),
        call_ensures(PytreeRingBuf::slot_ref, (&*final(ring), slot, array_idx), here),
        call_ensures(PytreeRingBuf::slot_ref, (&*old(ring), other_slot, other_array), there_before),
        call_ensures(PytreeRingBuf::slot_ref, (&*final(ring), other_slot, other_array), there),
        old(ring).wf(),
        slot < old(ring).slot_count(),
        array_idx < old(ring).widths().len(),
        other_slot < old(ring).slot_count(),
        other_array < old(ring).widths().len(),
        data@.len() <= old(ring).widths()[array_idx as int],
        slot != other_slot || array_idx != other_array,
    ensures
        here@.len() == old(ring).widths()[array_idx as int],
        here@.take(data@.len() as int) == data@,
        there@ == there_before@,
{
    old(ring).lemma_shape();
    assert(here@.take(data@.len() as int) =~= data@);
}

/// Where adjacent slots lie in a buffer is where their bytes are.
pub proof fn lemma_range_lies_there(
    ring: &PytreeRingBuf,
    array_idx: usize,
    start: usize,
    count: usize,
    at: (usize, usize),
    bytes: &[u8],
    all: &[u8],
)
    requires
        call_ensures(PytreeRingBuf::range_ptr, (ring, array_idx, start, count), at),
        call_ensures(PytreeRingBuf::range_bytes, (ring, array_idx, start, count), bytes),
        call_ensures(
            PytreeRingBuf::range_bytes,
            (ring, array_idx, 0usize, ring.slot_count()),
            all,
        ),
        ring.wf(),
        array_idx < ring.widths().len(),
        start + count <= ring.slot_count(),
    ensures
        at.0 + at.1 <= all@.len(),
        bytes@ == all@.subrange(at.0 as int, at.0 + at.1),
        bytes@ == joined(ring@[array_idx as int].subrange(start as int, start + count)),
{
    ring.lemma_shape();
    let slots = ring@[array_idx as int];
    assert(slots.subrange(0, slots.len() as int) =~= slots);
    lemma_window(slots, ring.widths()[array_idx as int] as int, start as int, count as int);
}

/// The bytes of an array are its elements times the bytes of an element, those
/// of a sample are the bytes of its arrays together.
pub proof fn lemma_sizes_add_up(
    specs: &Vec<ArraySpec>,
    sizes: Vec<usize>,
    total: usize,
    j: int,
    bytes: usize,
)
    requires
        call_ensures(array_sizes, (specs,), sizes),
        call_ensures(payload_size, (specs,), total),
        0 <= j < specs@.len(),
        call_ensures(ArraySpec::num_bytes, (&specs@[j],), bytes),
    ensures
        sizes@.len() == specs@.len(),
        sizes@[j] == bytes,
        sum_usize(sizes@) <= usize::MAX ==> total == sum_usize(sizes@),
        shape_product(specs@[j].shape@) * specs@[j].dtype_size <= usize::MAX ==> bytes
            == shape_product(specs@[j].shape@) * specs@[j].dtype_size,
{
    lemma_array_bytes(specs@, j);
}

/// A claim starts at the next position, and yields as many as are wanted unless
/// the room ends or the batch does.
pub proof fn lemma_reserved<R: Remover>(
    store: &mut Store<FifoSampler, R>,
    want: usize,
    lost: u64,
    metrics: Option<&mut DrainerMetrics>,
    r: Option<(usize, usize)>,
    h: History,
)
    requires
        call_ensures(
            Store::<FifoSampler, R>::try_reserve_slots,
            (store, want, lost, metrics),
            r,
        ),
        sound(old(store)@, h),
        old(store)@.write + want <= usize::MAX,
    ensures
        r is Some <==> 0 < want && old(store)@.write - old(store)@.freed < old(store)@.capacity,
        r is None ==> final(store)@.write == old(store)@.write,
        r matches Some((start, n)) ==> {
            let room = old(store)@.freed + old(store)@.capacity - old(store)@.write;
            let at = start as int % old(store)@.batch_size as int;
            &&& start == old(store)@.write
            &&& final(store)@.write == start + n
            &&& n <= want && n <= room && at + n <= old(store)@.batch_size
            &&& n == want || n == room || at + n == old(store)@.batch_size
        },
        final(store)@.ring == old(store)@.ring,
        final(store)@.sampler == old(store)@.sampler,
        final(store)@.freed == old(store)@.freed,
{
    lemma_claim(old(store)@, h, want as nat);
}

/// An insert either finds the ring full and changes nothing, or puts the sample
/// into the slot of the next position, array by array.
pub proof fn lemma_inserted<R: Remover>(
    store: &mut Store<FifoSampler, R>,
    arrays: &[&[u8]],
    r: InsertStep,
    h: History,
    j: int,
)
    requires
        call_ensures(Store::<FifoSampler, R>::insert, (store, arrays), r),
        sound(old(store)@, h),
        old(store)@.write < usize::MAX,
        arrays@.len() == old(store)@.widths.len(),
        forall|k: int|
            0 <= k < arrays@.len() ==> (#[trigger] arrays@[k])@.len() == old(store)@.widths[k],
        0 <= j < arrays@.len(),
    ensures
        r is Full <==> old(store)@.write - old(store)@.freed == old(store)@.capacity,
        r is Full ==> final(store)@ == old(store)@,
        r is Inserted ==> {
            &&& final(store)@.write == old(store)@.write + 1
            &&& final(store)@.ring[j][old(store)@.write as int % old(store)@.capacity as int]
                == arrays@[j]@
        },
{
    let s = old(store)@;
    lemma_room(s, h);
    let one = seq![bytes_of(arrays@)];
    if r is Inserted {
        assert forall|k: int| 0 <= k < one.len() implies fits_slots(s.ring, #[trigger] one[k]) by {}
        lemma_ring_with(s.ring, s.capacity as int, s.write as int, one, j);
        assert(one[0][j] == arrays@[j]@);
        assert((s.write + 0) % s.capacity as int == s.write as int % s.capacity as int);
    }
}

/// What a reader is told is what the store and the metrics hold.
pub proof fn lemma_told(server: &Server, info: SampleInfo, size: usize)
    requires
        call_ensures(Server::sample_info, (server,), info),
        call_ensures(Store::<FifoSampler, FifoRemover>::size, (&server.store,), size),
    ensures
        info.store_size == size,
        info.shows(size as int, server.metrics@),
{
}

/// A new server has stored nothing and handed out nothing, and has room for all
/// of its batches.
pub proof fn lemma_new_server(
    specs: Vec<ArraySpec>,
    batch_size: usize,
    num_buffers: usize,
    num_drainers: usize,
    detailed: bool,
    server: Server,
)
    requires
        call_ensures(Server::new, (specs, batch_size, num_buffers, num_drainers, detailed), server),
    ensures
        sound(server.store@, History::of_log(Seq::empty())),
        server.store@.write == 0,
        server.store@.sampler.read == 0,
        server.store@.available() == batch_size * num_buffers,
        server.store@.batch_size == batch_size,
        server.store@.widths.len() == specs@.len(),
        server.metrics@.drainers.len() == num_drainers,
        forall|i: int|
            0 <= i < num_drainers ==> ((#[trigger] server.metrics@.drainers[i]).detail is Some
                <==> detailed) && server.metrics@.drainers[i].samples_inserted == 0,
{
    lemma_shaped(&server.store);
    lemma_sound_start(server.store@);
    lemma_empty_log();
    lemma_room(server.store@, History::of_log(Seq::empty()));
    server.store.lemma_dimensions();
}

/// How often the consumer is woken for samples that are stored in order: once
/// for each batch that they complete.
proof fn lemma_wakes_stored(s: FifoStore, log: Seq<Seq<Seq<u8>>>, samples: Seq<Seq<Seq<u8>>>)
    requires
        sound(s, History::of_log(log)),
        s.write == log.len(),
        samples.len() <= s.available(),
        s.write + samples.len() <= usize::MAX,
        forall|i: int| 0 <= i < samples.len() ==> whole_sample(s, #[trigger] samples[i]),
    ensures
        wake_count::<FifoSampler>(s.sampler, s.write as int, samples.len()) == (s.write
            + samples.len()) / s.batch_size as int - s.write as int / s.batch_size as int,
{
    let h = History::of_log(log);
    let w = s.write as int;
    let claimed = s.claimed(samples.len() as int);
    lemma_room(s, h);
    assert(sound(claimed, h)) by {
        assert forall|p: int| #[trigger]
            h.data.contains_key(p) && claimed.freed <= p implies p < claimed.write && holds(
            claimed,
            p,
            h.data[p],
        ) by {
            assert(holds(s, p, h.data[p]));
        }
    }
    assert forall|i: int| 0 <= i < samples.len() implies whole_sample(
        claimed,
        #[trigger] samples[i],
    ) by {
        assert(whole_sample(s, samples[i]));
    }
    lemma_copies_sound(claimed, h, w, samples);
    lemma_one_wake_per_batch(
        claimed.filled(w, samples),
        h.all_copied(w, samples),
        w,
        samples.len(),
    );
}

/// One position more ends a batch if and only if it is a multiple of the batch
/// size.
proof fn lemma_batch_ends(n: int, batch_size: int)
    requires
        0 <= n,
        0 < batch_size,
    ensures
        (n + 1) / batch_size - n / batch_size == if (n + 1) % batch_size == 0 {
            1int
        } else {
            0
        },
{
    let (q, r) = (n / batch_size, n % batch_size);
    vstd::arithmetic::div_mod::lemma_fundamental_div_mod(n, batch_size);
    vstd::arithmetic::div_mod::lemma_mod_bound(n, batch_size);
    if r + 1 < batch_size {
        assert(n + 1 == q * batch_size + (r + 1)) by (nonlinear_arith)
            requires
                n == batch_size * q + r,
        ;
        vstd::arithmetic::div_mod::lemma_fundamental_div_mod_converse(
            n + 1,
            batch_size,
            q,
            r + 1,
        );
    } else {
        assert(n + 1 == (q + 1) * batch_size + 0) by (nonlinear_arith)
            requires
                n == batch_size * q + r,
                r + 1 == batch_size,
        ;
        vstd::arithmetic::div_mod::lemma_fundamental_div_mod_converse(
            n + 1,
            batch_size,
            q + 1,
            0,
        );
    }
}

/// A sample that is submitted is either refused, because the store is full, or
/// is the last one stored. The consumer is woken, and the wake-up counted, if
/// and only if the sample completes a batch.
pub proof fn lemma_submitted(
    server: &mut Server,
    data: &Vec<Vec<u8>>,
    r: InsertStep,
    log: Seq<Seq<Seq<u8>>>,
)
    requires
        call_ensures(Server::submit, (server, data), r),
        sound(old(server).store@, History::of_log(log)),
        old(server).store@.write == log.len(),
        log.len() < usize::MAX,
        data@.len() == old(server).store@.widths.len(),
        forall|j: int|
            0 <= j < data@.len() ==> (#[trigger] data@[j])@.len() == old(server).store@.widths[j],
    ensures
        r is Full <==> old(server).store@.write - old(server).store@.freed == old(
            server,
        ).store@.capacity,
        r is Full ==> final(server).store@ == old(server).store@ && final(server).metrics@ == old(
            server,
        ).metrics@,
        r matches InsertStep::Inserted { wake } ==> {
            let arrays = Seq::new(data@.len(), |j: int| data@[j]@);
            &&& sound(final(server).store@, History::of_log(log.push(arrays)))
            &&& final(server).store@.write == log.len() + 1
            &&& wake <==> (log.len() as int + 1) % old(server).store@.batch_size as int == 0
            &&& !wake ==> final(server).metrics@ == old(server).metrics@
            &&& wake && old(server).metrics@.notify_count < u64::MAX
                ==> final(server).metrics@.notify_count == old(server).metrics@.notify_count + 1
        },
{
    let s = old(server).store@;
    lemma_room(s, History::of_log(log));
    if r is Inserted {
        let arrays = Seq::new(data@.len(), |j: int| data@[j]@);
        let one = seq![arrays];
        assert(whole_sample(s, arrays));
        assert forall|i: int| 0 <= i < one.len() implies whole_sample(s, #[trigger] one[i]) by {}
        lemma_log_grows(s, log, one);
        assert(log + one =~= log.push(arrays));
        lemma_wakes_stored(s, log, one);
        lemma_batch_ends(log.len() as int, s.batch_size as int);
        reveal_with_fuel(wake_count, 2);
        assert(commit_all::<FifoSampler>(s.sampler, s.write as int, 0) == s.sampler);
    }
}

/// A drainer's samples are stored behind those that are there, and the consumer
/// is woken once for each batch that they complete.
pub proof fn lemma_batch_logged<R: Remover>(
    store: &mut Store<FifoSampler, R>,
    samples: &[&[u8]],
    sizes: &[usize],
    lost: u64,
    metrics: Option<&mut DrainerMetrics>,
    r: InsertReport,
    log: Seq<Seq<Seq<u8>>>,
)
    requires
        call_ensures(
            Store::<FifoSampler, R>::insert_batch,
            (store, samples, sizes, lost, metrics),
            r,
        ),
        sound(old(store)@, History::of_log(log)),
        old(store)@.write == log.len(),
        sizes@ == old(store)@.widths,
        log.len() + samples@.len() <= usize::MAX,
        forall|i: int|
            0 <= i < samples@.len() ==> sum_usize(sizes@) <= (#[trigger] samples@[i])@.len(),
    ensures
        sound(
            final(store)@,
            History::of_log(log + split_samples(samples@, sizes@).take(r.done as int)),
        ),
        final(store)@.write == log.len() + r.done,
        r.wakes == (log.len() + r.done) / old(store)@.batch_size as int - log.len() as int / old(
            store,
        )@.batch_size as int,
{
    let s = old(store)@;
    let all = split_samples(samples@, sizes@).take(r.done as int);
    lemma_room(s, History::of_log(log));
    assert forall|i: int| 0 <= i < all.len() implies whole_sample(s, #[trigger] all[i]) by {
        lemma_pieces_whole(s, samples@[i]@);
    }
    lemma_log_grows(s, log, all);
    lemma_wakes_stored(s, log, all);
}

/// Which dimensions a store can have: at least two batches, at least one slot in
/// a batch, at least one array, and slots that can be counted and allocated.
pub proof fn lemma_defect_found(
    specs: &Vec<ArraySpec>,
    batch_size: usize,
    num_batches: usize,
    r: Option<StoreDefect>,
)
    requires
        call_ensures(find_defect, (specs, batch_size, num_batches), r),
    ensures
        r is None <==> {
            &&& 2 <= num_batches
            &&& 0 < batch_size
            &&& 0 < specs@.len()
            &&& batch_size * num_batches <= usize::MAX
            &&& forall|j: int|
                0 <= j < specs@.len() ==> (#[trigger] sizes_of(specs@)[j]) * (batch_size
                    * num_batches) <= isize::MAX
        },
        num_batches < 2 <==> r == Some(StoreDefect::TooFewBatches),
{
    lemma_store_can_be_built(specs@, batch_size, num_batches);
}

/// A round that is resumed goes on where it stopped, until its samples are all
/// in the store or the store is full. They are stored behind what is there, and
/// the consumer is woken, and the wake-ups counted, once for each batch that
/// they complete.
pub proof fn lemma_round_resumed<R: Remover>(
    round: &mut DrainedRound,
    store: &mut Store<FifoSampler, R>,
    sizes: &[usize],
    metrics: &mut Metrics,
    drainer: usize,
    lost: u64,
    wakes: usize,
    log: Seq<Seq<Seq<u8>>>,
)
    requires
        call_ensures(
            resume_round::<FifoSampler, R>,
            (round, store, sizes, metrics, drainer, lost),
            wakes,
        ),
        old(round).done <= old(round).items@.len(),
        sound(old(store)@, History::of_log(log)),
        old(store)@.write == log.len(),
        sizes@ == old(store)@.widths,
        log.len() + old(round).items@.len() <= usize::MAX,
        forall|i: int|
            0 <= i < old(round).items@.len() ==> sum_usize(sizes@) <= (#[trigger] old(
                round,
            ).items@[i]).item.data@.len(),
        drainer < old(metrics)@.drainers.len(),
    ensures
        final(round).items == old(round).items,
        old(round).done <= final(round).done <= old(round).items@.len(),
        final(round).done == old(round).items@.len() || final(store)@.write - old(store)@.freed
            == old(store)@.capacity,
        final(store)@.write == log.len() + (final(round).done - old(round).done),
        sound(
            final(store)@,
            History::of_log(
                log + pending_samples(old(round).items@, old(round).done as int, sizes@).take(
                    final(round).done - old(round).done,
                ),
            ),
        ),
        wakes == final(store)@.write as int / old(store)@.batch_size as int - log.len() as int
            / old(store)@.batch_size as int,
        old(metrics)@.notify_count + wakes <= u64::MAX ==> final(metrics)@.notify_count == old(
            metrics,
        )@.notify_count + wakes,
        forall|d: int|
            0 <= d < old(metrics)@.drainers.len() && d != drainer
                ==> #[trigger] final(metrics)@.drainers[d] == old(metrics)@.drainers[d],
{
    let s = old(store)@;
    let done = old(round).done as int;
    let all = pending_samples(old(round).items@, done, sizes@).take(final(round).done - done);
    lemma_room(s, History::of_log(log));
    assert forall|i: int| 0 <= i < all.len() implies whole_sample(s, #[trigger] all[i]) by {
        assert(sum_usize(sizes@) <= old(round).items@[done + i].item.data@.len());
        lemma_pieces_whole(s, old(round).items@[done + i].item.data@);
    }
    lemma_log_grows(s, log, all);
    lemma_wakes_stored(s, log, all);
}

/// A connection is found by its id: where the first one of that id stands, if
/// and only if there is one.
pub proof fn lemma_position(transports: &Vec<TransportHandle>, id: u64, r: Option<usize>)
    requires
        call_ensures(position, (transports, id), r),
    ensures
        r matches Some(i) ==> i < transports@.len() && transports@[i as int]@.id == id
            && forall|k: int| 0 <= k < i ==> (#[trigger] transports@[k])@.id != id,
        r is None ==> forall|k: int|
            0 <= k < transports@.len() ==> (#[trigger] transports@[k])@.id != id,
{
    let views = transport_views(transports@);
    lemma_found_first(views, id);
    assert forall|k: int| 0 <= k < views.len() && views[k].id != id implies (
    #[trigger] transports@[k])@.id != id by {
        assert(views[k] == transports@[k]@);
    }
    if let Some(i) = r {
        assert forall|k: int| 0 <= k < i implies (#[trigger] transports@[k])@.id != id by {
            assert(views[k].id != id);
        }
    } else {
        assert forall|k: int| 0 <= k < transports@.len() implies (#[trigger] transports@[k])@.id
            != id by {
            assert(views[k].id != id);
        }
    }
}

/// The items of a store are those that were stored and not yet handed out.
pub proof fn lemma_sized<R: Remover>(
    store: &Store<FifoSampler, R>,
    r: usize,
    log: Seq<Seq<Seq<u8>>>,
)
    requires
        call_ensures(Store::<FifoSampler, R>::size, (store,), r),
        sound(store@, History::of_log(log)),
        store@.write == log.len(),
        store@.widths.len() > 0,
    ensures
        r == log.len() - store@.sampler.read,
{
    lemma_first_in_first_out(store@, log, 0);
}

/// Specs are made of the shapes and element sizes of the same place; without an
/// element size for every shape there are none.
pub proof fn lemma_specs_built(
    shapes: Vec<Vec<usize>>,
    dtype_sizes: Vec<usize>,
    r: Result<Vec<ArraySpec>, ConfigError>,
    i: int,
)
    requires
        call_ensures(build_specs, (shapes, dtype_sizes), r),
        0 <= i < shapes@.len(),
    ensures
        r is Ok <==> shapes@.len() == dtype_sizes@.len(),
        r matches Ok(specs) ==> specs@.len() == shapes@.len() && specs@[i].shape@ == shapes@[i]@
            && specs@[i].dtype_size == dtype_sizes@[i],
{
}

} // verus!
