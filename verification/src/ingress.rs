//! Per-connection queues and the drainers that empty them into the store.
//!
//! Every connection writes samples into a bounded queue of its own. A fixed
//! number of drainers each own some of the queues; a drainer empties all of
//! its queues in a round and hands the samples to the store in one piece.
//! Buffers go round: from the connection's pool to the producer, into the
//! queue, to the drainer, and back into the pool.
//!
//! The types here are driven through exclusive references; whoever shares them
//! between tasks serialises the calls, waits where a call reports that a queue
//! is full or that there was nothing to do, and passes on wake-ups.

use crate::arith::{
    lemma_distinct_remainders, lemma_prefix_sum, lemma_sum_concat, sum_usize,
};
use crate::array_spec::{payload_size, sizes_of};
use crate::metrics::{
    greatest, lemma_greatest_concat, lemma_timed_next, DrainerMetrics, DrainerView, Metrics,
    MetricsView, Timing,
};
use crate::selector::{wake_count, Remover, Sampler};
use crate::store::{
    at_most, batches_touched, pieces, split_samples, stored, Store,
};
use crossbeam::queue::ArrayQueue;
use vstd::prelude::*;

verus! {

/// One entry of a connection's queue: the raw bytes of a sample, one array
/// after the other, with the time in nanoseconds at which it was pushed.
pub struct TransportQueueItem {
    pub pushed_at: u64,
    pub data: Vec<u8>,
}

impl View for TransportQueueItem {
    type V = (u64, Seq<u8>);

    open spec fn view(&self) -> (u64, Seq<u8>) {
        (self.pushed_at, self.data@)
    }
}

impl TransportQueueItem {
    pub fn new(data: Vec<u8>, now: u64) -> (r: Self)
        ensures
            r@ == (now, data@),
            r.data == data,
    {
        Self { pushed_at: now, data }
    }
}

/// The bounded queue of the `crossbeam` crate.
#[verifier::external_type_specification]
#[verifier::external_body]
#[verifier::reject_recursive_types(T)]
pub struct ExArrayQueue<T>(crossbeam::queue::ArrayQueue<T>);

/// What a queue holds, from the oldest entry on.
pub uninterp spec fn queue_items(q: ArrayQueue<TransportQueueItem>) -> Seq<(u64, Seq<u8>)>;

/// How many entries a queue has room for.
pub uninterp spec fn queue_capacity(q: ArrayQueue<TransportQueueItem>) -> nat;

/// The largest queue: its slots, of at most 64 bytes each, have to fit in an
/// allocation.
pub open spec fn largest_queue() -> int {
    isize::MAX as int / 64
}

/// Calls `ArrayQueue::new`: an empty queue for `capacity` entries. The call
/// panics for none, and for more than memory can hold.
#[verifier::external_body]
fn new_queue(capacity: usize) -> (r: ArrayQueue<TransportQueueItem>)
    requires
        0 < capacity <= largest_queue(),
    ensures
        queue_items(r) == Seq::<(u64, Seq<u8>)>::empty(),
        queue_capacity(r) == capacity,
{
    ArrayQueue::new(capacity)
}

/// Calls `ArrayQueue::push` on a queue that nobody else uses meanwhile: the
/// entry goes to the end, or comes back if the queue is full.
#[verifier::external_body]
fn push_item(q: &mut ArrayQueue<TransportQueueItem>, item: TransportQueueItem) -> (r: Result<
    (),
    TransportQueueItem,
>)
    ensures
        queue_capacity(*final(q)) == queue_capacity(*old(q)),
        r is Ok <==> queue_items(*old(q)).len() < queue_capacity(*old(q)),
        r is Ok ==> queue_items(*final(q)) == queue_items(*old(q)).push(item@),
        r is Err ==> queue_items(*final(q)) == queue_items(*old(q)),
        r is Err ==> r->Err_0 == item,
{
    q.push(item)
}

/// Calls `ArrayQueue::pop` on a queue that nobody else uses meanwhile: takes
/// the oldest entry, if there is one.
#[verifier::external_body]
fn pop_item(q: &mut ArrayQueue<TransportQueueItem>) -> (r: Option<TransportQueueItem>)
    ensures
        queue_capacity(*final(q)) == queue_capacity(*old(q)),
        r is Some <==> 0 < queue_items(*old(q)).len(),
        r is Some ==> r->0@ == queue_items(*old(q)).first(),
        r is Some ==> queue_items(*final(q)) == queue_items(*old(q)).drop_first(),
        r is None ==> queue_items(*final(q)) == queue_items(*old(q)),
{
    q.pop()
}

/// Calls `ArrayQueue::len`: the number of entries, which is never above the
/// capacity.
#[verifier::external_body]
fn queue_len(q: &ArrayQueue<TransportQueueItem>) -> (r: usize)
    ensures
        r == queue_items(*q).len(),
        r <= queue_capacity(*q),
{
    q.len()
}

/// A connection, as values.
#[verifier::ext_equal]
pub struct TransportView {
    pub id: u64,
    /// Every sample has at least this many bytes.
    pub payload: usize,
    pub queue: Seq<(u64, Seq<u8>)>,
    pub queue_capacity: nat,
    /// Buffers for reuse.
    pub pool: Seq<(u64, Seq<u8>)>,
    pub pool_capacity: nat,
    /// Whether the producer is gone.
    pub closed: bool,
}

impl TransportView {
    /// After a buffer was given back. It is dropped if the pool is full.
    pub open spec fn recycled(self, item: (u64, Seq<u8>)) -> TransportView {
        if self.pool.len() < self.pool_capacity {
            TransportView { pool: self.pool.push(item), ..self }
        } else {
            self
        }
    }

    /// Whether nothing more will come: the producer is gone and the queue is
    /// empty.
    pub open spec fn spent(self) -> bool {
        self.closed && self.queue.len() == 0
    }

    /// After a sample was pushed. There has to be room for it.
    pub open spec fn queued(self, item: (u64, Seq<u8>)) -> TransportView {
        TransportView { queue: self.queue.push(item), ..self }
    }

    /// After the producer was gone.
    pub open spec fn hung_up(self) -> TransportView {
        TransportView { closed: true, ..self }
    }

    /// After the queue was emptied.
    pub open spec fn emptied(self) -> TransportView {
        TransportView { queue: Seq::empty(), ..self }
    }
}

/// One connection: its queue, the pool that its buffers return to, and
/// whether its producer is gone.
pub struct TransportHandle {
    id: u64,
    payload: usize,
    queue: ArrayQueue<TransportQueueItem>,
    free_pool: ArrayQueue<TransportQueueItem>,
    closed: bool,
}

impl View for TransportHandle {
    type V = TransportView;

    closed spec fn view(&self) -> TransportView {
        TransportView {
            id: self.id,
            payload: self.payload,
            queue: queue_items(self.queue),
            queue_capacity: queue_capacity(self.queue),
            pool: queue_items(self.free_pool),
            pool_capacity: queue_capacity(self.free_pool),
            closed: self.closed,
        }
    }
}

/// What became of a push.
pub enum PushStep {
    /// The sample is in the queue; the drainer has to be woken.
    Queued,
    /// The queue is full; here is the sample for another try after the next
    /// wake-up.
    Full(TransportQueueItem),
}

/// A sample that a drainer holds, with the connection that it came from.
pub struct DrainedItem {
    pub owner: u64,
    pub item: TransportQueueItem,
}

impl View for DrainedItem {
    type V = (u64, (u64, Seq<u8>));

    open spec fn view(&self) -> (u64, (u64, Seq<u8>)) {
        (self.owner, self.item@)
    }
}

impl TransportHandle {
    /// Every queued sample has the bytes that the store will cut it into.
    pub closed spec fn wf(&self) -> bool {
        forall|i: int|
            0 <= i < queue_items(self.queue).len() ==> self.payload <= (#[trigger] queue_items(
                self.queue,
            )[i]).1.len()
    }

    /// What holds of every well-formed connection.
    pub proof fn lemma_samples_whole(&self)
        requires
            self.wf(),
        ensures
            forall|i: int|
                0 <= i < self@.queue.len() ==> self@.payload <= (
                #[trigger] self@.queue[i]).1.len(),
    {
    }

    /// A connection for samples of `payload` bytes, with a queue for
    /// `queue_size` of them. The pool holds every buffer that can be in use at
    /// a time: `queue_size` in the queue, as many with the drainer, and one
    /// that the producer is filling.
    pub fn new(id: u64, payload: usize, queue_size: usize) -> (r: Self)
        requires
            0 < queue_size,
            2 * queue_size + 1 <= largest_queue(),
        ensures
            r.wf(),
            r@ == (TransportView {
                id,
                payload,
                queue: Seq::empty(),
                queue_capacity: queue_size as nat,
                pool: Seq::empty(),
                pool_capacity: (2 * queue_size + 1) as nat,
                closed: false,
            }),
    {
        Self {
            id,
            payload,
            queue: new_queue(queue_size),
            free_pool: new_queue(2 * queue_size + 1),
            closed: false,
        }
    }

    pub fn id(&self) -> (r: u64)
        ensures
            r == self@.id,
    {
        self.id
    }

    pub fn is_closed(&self) -> (r: bool)
        ensures
            r == self@.closed,
    {
        self.closed
    }

    /// The bytes that every sample has to have.
    pub fn payload(&self) -> (r: usize)
        ensures
            r == self@.payload,
    {
        self.payload
    }

    /// The number of queued samples.
    pub fn depth(&self) -> (r: usize)
        ensures
            r == self@.queue.len(),
            r <= self@.queue_capacity,
    {
        queue_len(&self.queue)
    }

    /// The number of buffers in the pool.
    pub fn pooled(&self) -> (r: usize)
        ensures
            r == self@.pool.len(),
            r <= self@.pool_capacity,
    {
        queue_len(&self.free_pool)
    }

    /// Gives a buffer back to the pool, with the bytes that are in it. If the
    /// pool is full the buffer is dropped.
    pub fn recycle(&mut self, item: TransportQueueItem)
        requires
            old(self).wf(),
        ensures
            final(self).wf(),
            final(self)@ == old(self)@.recycled(item@),
    {
        let _ = push_item(&mut self.free_pool, item);
    }

    /// Moves what is in the queue to the end of `batch`, and returns how many
    /// samples that were.
    fn drain_into(&mut self, batch: &mut Vec<DrainedItem>) -> (r: usize)
        requires
            old(self).wf(),
        ensures
            final(self).wf(),
            r == old(self)@.queue.len(),
            final(self)@ == old(self)@.emptied(),
            drained_views(final(batch)@) == drained_views(old(batch)@) + owned(old(self)@),
    {
        let n: usize = queue_len(&self.queue);
        let ghost all = self@.queue;
        let mut taken: usize = 0;
        assert(drained_views(batch@) =~= drained_views(old(batch)@) + owned(old(self)@).take(0));
        while taken < n
            invariant
                n == all.len(),
                taken <= n,
                all == old(self)@.queue,
                self@ == (TransportView { queue: all.skip(taken as int), ..old(self)@ }),
                drained_views(batch@) == drained_views(old(batch)@) + owned(old(self)@).take(
                    taken as int,
                ),
            ensures
                taken == n,
            decreases n - taken,
        {
            match pop_item(&mut self.queue) {
                Some(item) => {
                    assert(all.skip(taken as int).drop_first() =~= all.skip(taken + 1));
                    assert(self@ =~= (TransportView { queue: all.skip(taken + 1), ..old(self)@ }));
                    assert(item@ == all[taken as int]);
                    let ghost before = drained_views(batch@);
                    let owner: u64 = self.id;
                    batch.push(DrainedItem { owner, item });
                    proof {
                        let from = owned(old(self)@);
                        assert(drained_views(batch@) =~= before.push((owner, item@)));
                        assert(from.take(taken + 1) =~= from.take(taken as int).push(
                            from[taken as int],
                        ));
                    }
                    taken = taken + 1;
                },
                None => {
                    break;
                },
            }
        }
        assert(self@ =~= old(self)@.emptied());
        assert(owned(old(self)@).take(n as int) =~= owned(old(self)@));
        n
    }
}

/// The producer's end of a connection: which connection it is, and which
/// drainer has to be woken when a sample is queued.
#[derive(Debug, Clone, Copy, PartialEq, Eq, Structural)]
pub struct SampleSender {
    pub id: u64,
    pub drainer: usize,
}

impl SampleSender {
    /// A buffer to fill: the one that has been in the pool for longest, with
    /// the bytes that are left in it, or a zeroed one of `payload_size` bytes
    /// if the pool is empty.
    pub fn acquire(&self, transport: &mut TransportHandle, payload_size: usize) -> (r: Vec<u8>)
        requires
            old(transport).wf(),
            old(transport)@.id == self.id,
        ensures
            final(transport).wf(),
            old(transport)@.pool.len() == 0 ==> r@ == Seq::new(payload_size as nat, |i: int| 0u8)
                && final(transport)@ == old(transport)@,
            old(transport)@.pool.len() > 0 ==> r@ == old(transport)@.pool.first().1,
            old(transport)@.pool.len() > 0 ==> final(transport)@ == (TransportView {
                pool: old(transport)@.pool.drop_first(),
                ..old(transport)@
            }),
    {
        match pop_item(&mut transport.free_pool) {
            Some(item) => item.data,
            None => {
                let fresh: Vec<u8> = vec![0u8; payload_size];
                assert(fresh@ =~= Seq::new(payload_size as nat, |i: int| 0u8));
                fresh
            },
        }
    }

    /// One attempt of a push whose caller waits while the queue is full. If it
    /// is, the sample comes back and the blocked push is counted.
    pub fn push(
        &self,
        transport: &mut TransportHandle,
        item: TransportQueueItem,
        metrics: &mut Metrics,
    ) -> (r: PushStep)
        requires
            old(transport).wf(),
            old(transport)@.id == self.id,
            old(metrics).wf(),
            old(transport)@.payload <= item.data@.len(),
        ensures
            final(transport).wf(),
            final(metrics).wf(),
            old(transport)@.queue.len() < old(transport)@.queue_capacity ==> {
                &&& r is Queued
                &&& final(transport)@ == old(transport)@.queued(item@)
                &&& final(metrics)@ == old(metrics)@
            },
            old(transport)@.queue.len() >= old(transport)@.queue_capacity ==> {
                &&& r == PushStep::Full(item)
                &&& final(transport)@ == old(transport)@
                &&& final(metrics)@ == (MetricsView {
                    push_blocked_count: old(metrics)@.push_blocked_count.wrapping_add(1),
                    ..old(metrics)@
                })
            },
    {
        match push_item(&mut transport.queue, item) {
            Ok(()) => PushStep::Queued,
            Err(rejected) => {
                metrics.record_push_blocked();
                PushStep::Full(rejected)
            },
        }
    }

    /// The producer is gone: no more samples will come.
    pub fn close(&self, transport: &mut TransportHandle, metrics: &mut Metrics)
        requires
            old(transport).wf(),
            old(transport)@.id == self.id,
            old(metrics).wf(),
        ensures
            final(transport).wf(),
            final(metrics).wf(),
            final(transport)@ == old(transport)@.hung_up(),
            final(metrics)@ == old(metrics)@.disconnected(),
    {
        transport.closed = true;
        metrics.record_connection_closed();
    }
}

/// The views of drained samples.
pub open spec fn drained_views(items: Seq<DrainedItem>) -> Seq<(u64, (u64, Seq<u8>))> {
    Seq::new(items.len(), |i: int| items[i]@)
}

/// What is queued on a connection, marked with the connection.
pub open spec fn owned(t: TransportView) -> Seq<(u64, (u64, Seq<u8>))> {
    Seq::new(t.queue.len(), |i: int| (t.id, t.queue[i]))
}

/// The views of several connections.
pub open spec fn transport_views(transports: Seq<TransportHandle>) -> Seq<TransportView> {
    Seq::new(transports.len(), |i: int| transports[i]@)
}

/// Every connection is well-formed.
pub open spec fn all_wf(transports: Seq<TransportHandle>) -> bool {
    forall|i: int| 0 <= i < transports.len() ==> (#[trigger] transports[i]).wf()
}

/// The depths of the queues.
pub open spec fn depths(transports: Seq<TransportView>) -> Seq<usize> {
    Seq::new(transports.len(), |i: int| transports[i].queue.len() as usize)
}

/// Where a round starts: the place moves on by one with every round, so that
/// no queue is always first and none always last.
pub open spec fn rotation(round_counter: usize, n: nat) -> int {
    if n == 0 {
        0
    } else {
        round_counter as int % n as int
    }
}

/// The order in which a round that starts at `offset` visits things.
pub open spec fn rotated<A>(s: Seq<A>, offset: int) -> Seq<A> {
    s.skip(offset) + s.take(offset)
}

/// What is queued on the connections, one connection after the other.
pub open spec fn collected(transports: Seq<TransportView>) -> Seq<(u64, (u64, Seq<u8>))>
    decreases transports.len(),
{
    if transports.len() == 0 {
        Seq::empty()
    } else {
        collected(transports.drop_last()) + owned(transports.last())
    }
}

/// The connections that have something queued, whose producers are to be woken
/// when it is taken.
pub open spec fn nonempty_ids(transports: Seq<TransportView>) -> Seq<u64>
    decreases transports.len(),
{
    if transports.len() == 0 {
        Seq::empty()
    } else if transports.last().queue.len() > 0 {
        nonempty_ids(transports.drop_last()).push(transports.last().id)
    } else {
        nonempty_ids(transports.drop_last())
    }
}

/// How long each of the samples was in its queue.
pub open spec fn dwells(items: Seq<(u64, (u64, Seq<u8>))>, now: u64) -> Seq<u64> {
    Seq::new(
        items.len(),
        |i: int|
            if items[i].1.0 <= now {
                (now - items[i].1.0) as u64
            } else {
                0
            },
    )
}

/// The samples that a drainer took in one round.
pub struct DrainedRound {
    /// When the round began, in nanoseconds.
    pub started: u64,
    pub items: Vec<DrainedItem>,
    /// How many of the samples are in the store, from the first on.
    pub done: usize,
    /// The connections whose producers have to be woken: there is room in
    /// their queues again.
    pub wakes: Vec<u64>,
}

impl DrainedRound {
    /// Whether the round found anything to do.
    pub fn did_work(&self) -> (r: bool)
        ensures
            r == (self.items@.len() > 0),
    {
        self.items.len() > 0
    }

    /// Whether all samples of the round are in the store.
    pub fn is_done(&self) -> (r: bool)
        ensures
            r == (self.done >= self.items@.len()),
    {
        self.done >= self.items.len()
    }
}

/// Rotating does not change the sum, nor the greatest.
proof fn lemma_rotated(values: Seq<usize>, offset: int)
    requires
        0 <= offset <= values.len(),
    ensures
        sum_usize(rotated(values, offset)) == sum_usize(values),
        greatest(rotated(values, offset)) == greatest(values),
{
    let head = values.take(offset);
    let tail = values.skip(offset);
    assert(head + tail =~= values);
    lemma_sum_concat(head, tail);
    lemma_sum_concat(tail, head);
    lemma_greatest_concat(head, tail);
    lemma_greatest_concat(tail, head);
}

/// Takes everything that is queued, from every connection, starting at the
/// connection whose turn it is; a queue gives at most what it holds when it is
/// visited, so that none can starve the others. Publishes the depths that were
/// found, and how long each sample was queued at time `now`.
pub fn collect_round(
    transports: &mut Vec<TransportHandle>,
    metrics: &mut DrainerMetrics,
    round_counter: usize,
    now: u64,
) -> (r: DrainedRound)
    requires
        all_wf(old(transports)@),
        old(metrics).wf(),
        sum_usize(depths(transport_views(old(transports)@))) <= usize::MAX,
    ensures
        all_wf(final(transports)@),
        final(metrics).wf(),
        transport_views(final(transports)@) == transport_views(old(transports)@).map_values(
            |t: TransportView| t.emptied(),
        ),
        r.started == now,
        r.done == 0,
        r.items@.len() == sum_usize(depths(transport_views(old(transports)@))),
        drained_views(r.items@) == collected(
            rotated(
                transport_views(old(transports)@),
                rotation(round_counter, old(transports)@.len()),
            ),
        ),
        r.wakes@ == nonempty_ids(
            rotated(
                transport_views(old(transports)@),
                rotation(round_counter, old(transports)@.len()),
            ),
        ),
        (DrainerView {
            queue_depth_sum: sum_usize(depths(transport_views(old(transports)@))) as usize,
            queue_depth_max: greatest(depths(transport_views(old(transports)@))),
            ..old(metrics)@
        }).all_timed(final(metrics)@, Timing::QueueDwell, dwells(drained_views(r.items@), now)),
{
    let n_queues: usize = transports.len();
    let offset: usize = if n_queues == 0 {
        0
    } else {
        round_counter % n_queues
    };
    let ghost before = transport_views(transports@);
    let ghost turns = rotated(before, offset as int);
    let mut round_sum: usize = 0;
    let mut round_max: usize = 0;
    let mut batch: Vec<DrainedItem> = Vec::new();
    let mut wakes: Vec<u64> = Vec::new();
    let mut step: usize = 0;
    proof {
        lemma_rotated(depths(before), offset as int);
        assert(rotated(depths(before), offset as int) =~= depths(turns));
        assert(turns.take(0) =~= Seq::<TransportView>::empty());
        assert(depths(turns).take(0) =~= Seq::<usize>::empty());
        assert(drained_views(batch@) =~= collected(turns.take(0)));
        assert(wakes@ =~= nonempty_ids(turns.take(0)));
    }
    while step < n_queues
        invariant
            all_wf(transports@),
            transports@.len() == n_queues == before.len() == turns.len(),
            step <= n_queues,
            n_queues > 0 ==> offset < n_queues,
            turns == rotated(before, offset as int),
            forall|j: int|
                0 <= j < n_queues ==> (#[trigger] transports@[j])@ == if turn_of(
                    j,
                    offset as int,
                    n_queues as int,
                ) < step {
                    before[j].emptied()
                } else {
                    before[j]
                },
            drained_views(batch@) == collected(turns.take(step as int)),
            wakes@ == nonempty_ids(turns.take(step as int)),
            sum_usize(depths(turns)) <= usize::MAX,
            round_sum == sum_usize(depths(turns).take(step as int)),
            batch@.len() == round_sum,
            round_max == greatest(depths(turns).take(step as int)),
        decreases n_queues - step,
    {
        let i: usize = if step < n_queues - offset {
            step + offset
        } else {
            step - (n_queues - offset)
        };
        assert(turn_of(i as int, offset as int, n_queues as int) == step);
        assert(transports@[i as int]@ == turns[step as int]);
        let ghost held = drained_views(batch@);
        let n: usize = transports[i].drain_into(&mut batch);
        proof {
            let ds = depths(turns);
            lemma_prefix_sum(ds, step + 1);
            assert(ds.take(step + 1).drop_last() =~= ds.take(step as int));
            assert(turns.take(step + 1).drop_last() =~= turns.take(step as int));
            assert(ds[step as int] == n);
            assert(drained_views(batch@).len() == held.len() + n);
        }
        round_sum = round_sum + n;
        if n > round_max {
            round_max = n;
        }
        if n > 0 {
            wakes.push(transports[i].id());
        }
        step = step + 1;
    }
    proof {
        assert(turns.take(step as int) =~= turns);
        assert(depths(turns).take(step as int) =~= depths(turns));
        assert(transport_views(transports@) =~= before.map_values(
            |t: TransportView| t.emptied(),
        ));
    }
    metrics.record_queue_depth(round_sum, round_max);
    let ghost published = metrics@;
    let ghost waited = dwells(drained_views(batch@), now);
    let mut k: usize = 0;
    assert(published.all_timed(metrics@, Timing::QueueDwell, waited.take(0))) by {
        assert(waited.take(0) =~= Seq::<u64>::empty());
    }
    while k < batch.len()
        invariant
            metrics.wf(),
            k <= batch@.len(),
            waited == dwells(drained_views(batch@), now),
            published.all_timed(metrics@, Timing::QueueDwell, waited.take(k as int)),
        decreases batch.len() - k,
    {
        let ghost mid = metrics@;
        let dwell: u64 = now.saturating_sub(batch[k].item.pushed_at);
        metrics.record_queue_dwell_ns(dwell);
        proof {
            lemma_timed_next(
                published,
                mid,
                metrics@,
                Timing::QueueDwell,
                waited.take(k as int),
                dwell,
            );
            assert(waited.take(k + 1) =~= waited.take(k as int).push(dwell));
        }
        k = k + 1;
    }
    assert(waited.take(k as int) =~= waited);
    DrainedRound { started: now, items: batch, done: 0, wakes }
}

/// The turn at which a round that starts at `offset` visits place `j` of `n`.
pub open spec fn turn_of(j: int, offset: int, n: int) -> int {
    if j >= offset {
        j - offset
    } else {
        j + n - offset
    }
}

/// The arrays of the samples of a round that are not in the store yet.
pub open spec fn pending_samples(
    items: Seq<DrainedItem>,
    done: int,
    sizes: Seq<usize>,
) -> Seq<Seq<Seq<u8>>> {
    Seq::new((items.len() - done) as nat, |i: int| pieces(items[done + i].item.data@, sizes))
}

impl DrainedRound {
    /// The number of samples that are not in the store yet.
    pub open spec fn pending(&self) -> int {
        self.items@.len() - self.done
    }

    /// Hands the samples that are not in the store yet to the store, until all
    /// are in or the ring is full. Returns how often the consumer has to be
    /// woken. `lost` is as in [`Store::insert_batch`].
    pub fn insert_into<S: Sampler, R: Remover>(
        &mut self,
        store: &mut Store<S, R>,
        array_sizes: &[usize],
        lost: u64,
        metrics: &mut DrainerMetrics,
    ) -> (wakes: usize)
        requires
            old(self).done <= old(self).items@.len(),
            old(store).wf(),
            old(metrics).wf(),
            old(store)@.write + at_most(old(self).pending(), old(store)@.available())
                <= usize::MAX,
            array_sizes@.len() <= old(store)@.widths.len(),
            forall|j: int|
                0 <= j < array_sizes@.len() ==> (#[trigger] array_sizes@[j]) <= old(
                    store,
                )@.widths[j],
            forall|i: int|
                0 <= i < old(self).items@.len() ==> sum_usize(array_sizes@) <= (#[trigger] old(
                    self,
                ).items@[i]).item.data@.len(),
        ensures
            final(store).wf(),
            final(store).array_specs() == old(store).array_specs(),
            final(metrics).wf(),
            final(self).started == old(self).started,
            final(self).items == old(self).items,
            final(self).wakes == old(self).wakes,
            final(self).done == old(self).done + at_most(
                old(self).pending(),
                old(store)@.available(),
            ),
            final(store)@ == stored::<S>(
                old(store)@,
                pending_samples(
                    old(self).items@,
                    old(self).done as int,
                    array_sizes@,
                ).take(final(self).done - old(self).done),
            ),
            wakes == wake_count::<S>(
                old(store)@.sampler,
                old(store)@.write as int,
                (final(self).done - old(self).done) as nat,
            ),
            old(metrics)@.batch_inserted(
                final(metrics)@,
                (final(self).done - old(self).done) as nat,
                batches_touched(
                    old(store)@.write as int,
                    final(self).done - old(self).done,
                    old(store)@.batch_size as int,
                ) as nat,
                if old(self).pending() == 0 {
                    0
                } else {
                    lost
                },
            ),
    {
        let from: usize = self.done;
        let total: usize = self.items.len();
        let mut slices: Vec<&[u8]> = Vec::new();
        while slices.len() < total - from
            invariant
                from <= total == self.items@.len(),
                slices@.len() <= total - from,
                forall|i: int|
                    0 <= i < slices@.len() ==> (#[trigger] slices@[i])@ == self.items@[from
                        + i].item.data@,
            decreases total - from - slices.len(),
        {
            slices.push(self.items[from + slices.len()].item.data.as_slice());
        }
        assert(split_samples(slices@, array_sizes@) =~= pending_samples(
            self.items@,
            from as int,
            array_sizes@,
        ));
        let report = store.insert_batch(slices.as_slice(), array_sizes, lost, Some(metrics));
        self.done = from + report.done;
        report.wakes
    }
}

/// The first connection with the given id.
pub open spec fn find_id(transports: Seq<TransportView>, id: u64) -> Option<int>
    decreases transports.len(),
{
    if transports.len() == 0 {
        None
    } else {
        match find_id(transports.drop_last(), id) {
            Some(i) => Some(i),
            None => if transports.last().id == id {
                Some(transports.len() - 1)
            } else {
                None
            },
        }
    }
}

/// What [`find_id`] finds is in range.
pub proof fn lemma_found(transports: Seq<TransportView>, id: u64)
    ensures
        find_id(transports, id) matches Some(i) ==> 0 <= i < transports.len() && transports[i].id
            == id,
        find_id(transports, id) is None <==> forall|i: int|
            0 <= i < transports.len() ==> (#[trigger] transports[i]).id != id,
    decreases transports.len(),
{
    if transports.len() > 0 {
        lemma_found(transports.drop_last(), id);
        assert forall|i: int| 0 <= i < transports.len() - 1 implies #[trigger] transports[i]
            == transports.drop_last()[i] by {}
    }
}

/// Finds a connection by its id.
pub fn position(transports: &Vec<TransportHandle>, id: u64) -> (r: Option<usize>)
    ensures
        r is Some <==> find_id(transport_views(transports@), id) is Some,
        r matches Some(i) ==> find_id(transport_views(transports@), id) == Some(i as int) && i
            < transports@.len(),
{
    let ghost views = transport_views(transports@);
    let mut i: usize = 0;
    assert(views.take(0) =~= Seq::<TransportView>::empty());
    while i < transports.len()
        invariant
            i <= transports@.len(),
            views == transport_views(transports@),
            find_id(views.take(i as int), id) is None,
        decreases transports.len() - i,
    {
        assert(views.take(i + 1).drop_last() =~= views.take(i as int));
        if transports[i].id() == id {
            proof {
                lemma_found_stays(views, i + 1, id);
            }
            return Some(i);
        }
        i = i + 1;
    }
    assert(views.take(i as int) =~= views);
    None
}

/// What is found in the first connections is found in all.
proof fn lemma_found_stays(transports: Seq<TransportView>, n: int, id: u64)
    requires
        0 <= n <= transports.len(),
        find_id(transports.take(n), id) is Some,
    ensures
        find_id(transports, id) == find_id(transports.take(n), id),
    decreases transports.len(),
{
    if n == transports.len() {
        assert(transports.take(n) =~= transports);
    } else {
        assert(transports.drop_last().take(n) =~= transports.take(n));
        lemma_found_stays(transports.drop_last(), n, id);
    }
}

/// The connections after a sample's buffer went back to where it came from.
/// Where that connection is gone, so is the buffer.
pub open spec fn given_back(
    transports: Seq<TransportView>,
    item: (u64, (u64, Seq<u8>)),
) -> Seq<TransportView> {
    match find_id(transports, item.0) {
        Some(i) => transports.update(i, transports[i].recycled(item.1)),
        None => transports,
    }
}

/// The connections after the buffers of several samples went back, in order.
pub open spec fn all_given_back(
    transports: Seq<TransportView>,
    items: Seq<(u64, (u64, Seq<u8>))>,
) -> Seq<TransportView>
    decreases items.len(),
{
    if items.len() == 0 {
        transports
    } else {
        given_back(all_given_back(transports, items.drop_last()), items.last())
    }
}

/// Gives the buffers of a round back to the pools that they came from.
pub fn recycle_round(transports: &mut Vec<TransportHandle>, round: DrainedRound)
    requires
        all_wf(old(transports)@),
    ensures
        all_wf(final(transports)@),
        transport_views(final(transports)@) == all_given_back(
            transport_views(old(transports)@),
            drained_views(round.items@),
        ),
{
    let ghost all = drained_views(round.items@);
    let ghost before = transport_views(transports@);
    let mut items: Vec<DrainedItem> = round.items;
    let mut backwards: Vec<DrainedItem> = Vec::new();
    while items.len() > 0
        invariant
            items@.len() + backwards@.len() == all.len(),
            forall|i: int| 0 <= i < items@.len() ==> (#[trigger] items@[i])@ == all[i],
            forall|i: int|
                0 <= i < backwards@.len() ==> (#[trigger] backwards@[i])@ == all[all.len() - 1 - i],
        decreases items.len(),
    {
        if let Some(entry) = items.pop() {
            backwards.push(entry);
        }
    }
    let ghost mut back: int = 0;
    assert(all.take(0) =~= Seq::<(u64, (u64, Seq<u8>))>::empty());
    while backwards.len() > 0
        invariant
            all_wf(transports@),
            before == transport_views(old(transports)@),
            backwards@.len() + back == all.len(),
            0 <= back,
            forall|i: int|
                0 <= i < backwards@.len() ==> (#[trigger] backwards@[i])@ == all[all.len() - 1 - i],
            transport_views(transports@) == all_given_back(before, all.take(back)),
        decreases backwards.len(),
    {
        if let Some(entry) = backwards.pop() {
            let ghost views = transport_views(transports@);
            proof {
                assert(entry@ == all[back]);
                assert(all.take(back + 1).drop_last() =~= all.take(back));
                lemma_found(views, entry.owner);
            }
            if let Some(i) = position(transports, entry.owner) {
                transports[i].recycle(entry.item);
                assert(transport_views(transports@) =~= given_back(views, all[back]));
            }
            proof {
                back = back + 1;
            }
        }
    }
    assert(all.take(back) =~= all);
}

/// The connections that are still needed: those whose producers are there, and
/// those that have something queued.
pub open spec fn open_transports(transports: Seq<TransportView>) -> Seq<TransportView>
    decreases transports.len(),
{
    if transports.len() == 0 {
        Seq::empty()
    } else if transports.last().spent() {
        open_transports(transports.drop_last())
    } else {
        open_transports(transports.drop_last()).push(transports.last())
    }
}

/// Forgets the connections whose producers are gone and whose queues are empty.
pub fn prune(transports: &mut Vec<TransportHandle>)
    requires
        all_wf(old(transports)@),
    ensures
        all_wf(final(transports)@),
        transport_views(final(transports)@) == open_transports(
            transport_views(old(transports)@),
        ),
{
    let ghost before = transport_views(transports@);
    let ghost mut seen: int = 0;
    let mut i: usize = 0;
    proof {
        assert(before.take(0) =~= Seq::<TransportView>::empty());
        assert(before.skip(0) =~= before);
        assert(transport_views(transports@) =~= open_transports(before.take(0)) + before.skip(0));
    }
    while i < transports.len()
        invariant
            all_wf(transports@),
            before == transport_views(old(transports)@),
            0 <= i <= seen <= before.len(),
            i <= transports@.len(),
            open_transports(before.take(seen)).len() == i,
            transport_views(transports@) == open_transports(before.take(seen)) + before.skip(seen),
        decreases transports.len() - i,
    {
        let ghost views = transport_views(transports@);
        proof {
            assert(views[i as int] == before.skip(seen)[0]);
            assert(before.take(seen + 1).drop_last() =~= before.take(seen));
            assert(before.take(seen + 1).last() == before[seen]);
        }
        if transports[i].is_closed() && transports[i].depth() == 0 {
            let _ = transports.remove(i);
            assert(transport_views(transports@) =~= views.remove(i as int));
            assert(views.remove(i as int) =~= open_transports(before.take(seen)) + before.skip(
                seen + 1,
            ));
        } else {
            i = i + 1;
            assert(views =~= open_transports(before.take(seen)).push(before[seen]) + before.skip(
                seen + 1,
            ));
        }
        proof {
            seen = seen + 1;
        }
    }
    assert(before.take(seen) =~= before);
    assert(open_transports(before) + before.skip(seen) =~= open_transports(before));
}

/// Samples that are long enough in their queues are long enough when they are
/// taken together.
proof fn lemma_collected_len(transports: Seq<TransportView>, low: int)
    requires
        forall|t: int, i: int|
            0 <= t < transports.len() && 0 <= i < transports[t].queue.len() ==> low <= (
            #[trigger] transports[t].queue[i]).1.len(),
    ensures
        forall|k: int|
            0 <= k < collected(transports).len() ==> low <= (#[trigger] collected(
                transports,
            )[k]).1.1.len(),
    decreases transports.len(),
{
    if transports.len() > 0 {
        let rest = transports.drop_last();
        let last = transports.last();
        assert forall|t: int, i: int|
            0 <= t < rest.len() && 0 <= i < rest[t].queue.len() implies low <= (
        #[trigger] rest[t].queue[i]).1.len() by {
            assert(low <= transports[t].queue[i].1.len());
        }
        lemma_collected_len(rest, low);
        assert forall|k: int| 0 <= k < collected(transports).len() implies low <= (
        #[trigger] collected(transports)[k]).1.1.len() by {
            let before = collected(rest).len();
            if k < before {
                assert(low <= collected(rest)[k].1.1.len());
            } else {
                assert(transports[transports.len() - 1].queue[k - before] == last.queue[k
                    - before]);
            }
        }
    }
}

/// What a round does to a drainer's counts: the depths of the queues are
/// published, each sample adds the time that it was queued, and then the
/// samples that get in are counted, and how often the drainer was beaten to the
/// store.
pub open spec fn round_counted(
    before: DrainerView,
    after: DrainerView,
    queued: Seq<usize>,
    waited: Seq<u64>,
    done: nat,
    runs: nat,
    lost: u64,
) -> bool {
    exists|between: DrainerView|
        (DrainerView {
            queue_depth_sum: sum_usize(queued) as usize,
            queue_depth_max: greatest(queued),
            ..before
        }).all_timed(between, Timing::QueueDwell, waited) && #[trigger] between.batch_inserted(
            after,
            done,
            runs,
            lost,
        )
}

/// Hands samples of a round that are not in the store yet to the store, and
/// counts the wake-ups of the consumer that this asks for. Returns their
/// number.
pub fn resume_round<S: Sampler, R: Remover>(
    round: &mut DrainedRound,
    store: &mut Store<S, R>,
    array_sizes: &[usize],
    metrics: &mut Metrics,
    drainer: usize,
    lost: u64,
) -> (wakes: usize)
    requires
        old(round).done <= old(round).items@.len(),
        old(store).wf(),
        old(metrics).wf(),
        drainer < old(metrics)@.drainers.len(),
        old(store)@.write + at_most(old(round).pending(), old(store)@.available()) <= usize::MAX,
        array_sizes@.len() <= old(store)@.widths.len(),
        forall|j: int|
            0 <= j < array_sizes@.len() ==> (#[trigger] array_sizes@[j]) <= old(store)@.widths[j],
        forall|i: int|
            0 <= i < old(round).items@.len() ==> sum_usize(array_sizes@) <= (#[trigger] old(
                round,
            ).items@[i]).item.data@.len(),
    ensures
        final(store).wf(),
        final(store).array_specs() == old(store).array_specs(),
        final(metrics).wf(),
        final(round).started == old(round).started,
        final(round).items == old(round).items,
        final(round).wakes == old(round).wakes,
        final(round).done == old(round).done + at_most(
            old(round).pending(),
            old(store)@.available(),
        ),
        final(store)@ == stored::<S>(
            old(store)@,
            pending_samples(old(round).items@, old(round).done as int, array_sizes@).take(
                final(round).done - old(round).done,
            ),
        ),
        wakes == wake_count::<S>(
            old(store)@.sampler,
            old(store)@.write as int,
            (final(round).done - old(round).done) as nat,
        ),
        final(metrics)@ == (MetricsView {
            notify_count: old(metrics)@.notify_count.wrapping_add(wakes as u64),
            drainers: old(metrics)@.drainers.update(
                drainer as int,
                final(metrics)@.drainers[drainer as int],
            ),
            ..old(metrics)@
        }),
        old(metrics)@.drainers[drainer as int].batch_inserted(
            final(metrics)@.drainers[drainer as int],
            (final(round).done - old(round).done) as nat,
            batches_touched(
                old(store)@.write as int,
                final(round).done - old(round).done,
                old(store)@.batch_size as int,
            ) as nat,
            if old(round).pending() == 0 {
                0
            } else {
                lost
            },
        ),
{
    let wakes: usize = round.insert_into(store, array_sizes, lost, metrics.drainer_mut(drainer));
    metrics.record_notifies(wakes as u64);
    assert(metrics@.drainers =~= old(metrics)@.drainers.update(
        drainer as int,
        metrics@.drainers[drainer as int],
    ));
    wakes
}

/// Empties every queue once and hands what was in them to the store, as far as
/// there is room. `now` is the time in nanoseconds, and `lost` how often the
/// round was beaten to the store by another writer. The wake-ups of the
/// consumer that this asks for are counted, and are their number in the second
/// value. What does not fit waits for [`resume_round`]; a round that found
/// work ends with [`finish_round`].
pub fn drain_round<S: Sampler, R: Remover>(
    transports: &mut Vec<TransportHandle>,
    store: &mut Store<S, R>,
    array_sizes: &[usize],
    metrics: &mut Metrics,
    drainer: usize,
    round_counter: usize,
    now: u64,
    lost: u64,
) -> (r: (DrainedRound, usize))
    requires
        all_wf(old(transports)@),
        old(store).wf(),
        old(metrics).wf(),
        drainer < old(metrics)@.drainers.len(),
        sum_usize(depths(transport_views(old(transports)@))) <= usize::MAX,
        old(store)@.write + at_most(
            sum_usize(depths(transport_views(old(transports)@))) as int,
            old(store)@.available(),
        ) <= usize::MAX,
        array_sizes@.len() <= old(store)@.widths.len(),
        forall|j: int|
            0 <= j < array_sizes@.len() ==> (#[trigger] array_sizes@[j]) <= old(store)@.widths[j],
        forall|t: int|
            0 <= t < old(transports)@.len() ==> sum_usize(array_sizes@) <= (#[trigger] old(
                transports,
            )@[t])@.payload,
    ensures
        all_wf(final(transports)@),
        final(store).wf(),
        final(store).array_specs() == old(store).array_specs(),
        final(metrics).wf(),
        transport_views(final(transports)@) == transport_views(old(transports)@).map_values(
            |t: TransportView| t.emptied(),
        ),
        r.0.started == now,
        drained_views(r.0.items@) == collected(
            rotated(
                transport_views(old(transports)@),
                rotation(round_counter, old(transports)@.len()),
            ),
        ),
        r.0.wakes@ == nonempty_ids(
            rotated(
                transport_views(old(transports)@),
                rotation(round_counter, old(transports)@.len()),
            ),
        ),
        forall|i: int|
            0 <= i < r.0.items@.len() ==> sum_usize(array_sizes@) <= (
            #[trigger] r.0.items@[i]).item.data@.len(),
        r.0.done == at_most(r.0.items@.len() as int, old(store)@.available()),
        final(store)@ == stored::<S>(
            old(store)@,
            pending_samples(r.0.items@, 0, array_sizes@).take(r.0.done as int),
        ),
        r.1 == wake_count::<S>(
            old(store)@.sampler,
            old(store)@.write as int,
            r.0.done as nat,
        ),
        final(metrics)@ == (MetricsView {
            notify_count: old(metrics)@.notify_count.wrapping_add(r.1 as u64),
            drainers: old(metrics)@.drainers.update(
                drainer as int,
                final(metrics)@.drainers[drainer as int],
            ),
            ..old(metrics)@
        }),
        round_counted(
            old(metrics)@.drainers[drainer as int],
            final(metrics)@.drainers[drainer as int],
            depths(transport_views(old(transports)@)),
            dwells(drained_views(r.0.items@), now),
            r.0.done as nat,
            batches_touched(
                old(store)@.write as int,
                r.0.done as int,
                old(store)@.batch_size as int,
            ) as nat,
            if r.0.items@.len() == 0 {
                0
            } else {
                lost
            },
        ),
{
    let ghost views = transport_views(transports@);
    let ghost turns = rotated(views, rotation(round_counter, views.len()));
    proof {
        let low = sum_usize(array_sizes@) as int;
        assert forall|t: int, i: int|
            0 <= t < turns.len() && 0 <= i < turns[t].queue.len() implies low <= (
        #[trigger] turns[t].queue[i]).1.len() by {
            let offset = rotation(round_counter, views.len());
            vstd::arithmetic::div_mod::lemma_mod_bound(round_counter as int, views.len() as int);
            let at = if t < views.len() - offset {
                t + offset
            } else {
                t - (views.len() - offset)
            };
            assert(turns[t] == views[at]);
            transports@[at].lemma_samples_whole();
            assert(low <= transports@[at]@.payload);
        }
        lemma_collected_len(turns, low);
    }
    let mut round = collect_round(
        transports,
        metrics.drainer_mut(drainer),
        round_counter,
        now,
    );
    let ghost between = metrics@;
    proof {
        assert forall|i: int| 0 <= i < round.items@.len() implies sum_usize(array_sizes@) <= (
        #[trigger] round.items@[i]).item.data@.len() by {
            assert(drained_views(round.items@)[i] == round.items@[i]@);
        }
    }
    let wakes: usize = resume_round(&mut round, store, array_sizes, metrics, drainer, lost);
    assert(between.drainers[drainer as int].batch_inserted(
        metrics@.drainers[drainer as int],
        round.done as nat,
        batches_touched(
            old(store)@.write as int,
            round.done as int,
            old(store)@.batch_size as int,
        ) as nat,
        if round.items@.len() == 0 {
            0
        } else {
            lost
        },
    ));
    assert(metrics@.drainers =~= old(metrics)@.drainers.update(
        drainer as int,
        metrics@.drainers[drainer as int],
    ));
    (round, wakes)
}

/// Ends a round whose samples are all in the store, at time `now` in
/// nanoseconds: counts how long it took, and gives the buffers back.
pub fn finish_round(
    transports: &mut Vec<TransportHandle>,
    metrics: &mut DrainerMetrics,
    round: DrainedRound,
    now: u64,
)
    requires
        all_wf(old(transports)@),
        old(metrics).wf(),
        round.done == round.items@.len(),
    ensures
        all_wf(final(transports)@),
        final(metrics).wf(),
        transport_views(final(transports)@) == all_given_back(
            transport_views(old(transports)@),
            drained_views(round.items@),
        ),
        old(metrics)@.timed(
            final(metrics)@,
            Timing::DrainRound,
            if round.started <= now {
                (now - round.started) as u64
            } else {
                0
            },
        ),
{
    metrics.record_drain_round_ns(now.saturating_sub(round.started));
    recycle_round(transports, round);
}

/// A pool of drainers, as values.
#[verifier::ext_equal]
pub struct PoolView {
    pub num_drainers: usize,
    pub producer_queue_size: usize,
    /// The bytes of a sample.
    pub payload: usize,
    /// How many connections have been made, as far as it fits.
    pub next_drainer: usize,
    pub next_id: u64,
    pub shutdown: bool,
}

impl PoolView {
    /// The drainer whose turn it is to get a connection.
    pub open spec fn turn(self) -> int {
        self.next_drainer as int % self.num_drainers as int
    }

    /// After a connection was made.
    pub open spec fn connected(self) -> PoolView {
        PoolView {
            next_drainer: self.next_drainer.wrapping_add(1),
            next_id: self.next_id.wrapping_add(1),
            ..self
        }
    }
}

/// What the drainers of a store share: how connections are made and spread
/// over the drainers, and whether the drainers are to stop.
pub struct DrainerPool {
    num_drainers: usize,
    producer_queue_size: usize,
    payload: usize,
    next_drainer: usize,
    next_id: u64,
    shutdown: bool,
}

impl View for DrainerPool {
    type V = PoolView;

    closed spec fn view(&self) -> PoolView {
        PoolView {
            num_drainers: self.num_drainers,
            producer_queue_size: self.producer_queue_size,
            payload: self.payload,
            next_drainer: self.next_drainer,
            next_id: self.next_id,
            shutdown: self.shutdown,
        }
    }
}

impl DrainerPool {
    /// A pool of `num_drainers` drainers for the samples of `store`, whose
    /// connections queue up to `producer_queue_size` samples.
    pub fn new<S: Sampler, R: Remover>(
        store: &Store<S, R>,
        num_drainers: usize,
        producer_queue_size: usize,
    ) -> (r: Self)
        requires
            0 < num_drainers,
            sum_usize(sizes_of(store.array_specs())) <= usize::MAX,
        ensures
            r@ == (PoolView {
                num_drainers,
                producer_queue_size,
                payload: sum_usize(sizes_of(store.array_specs())) as usize,
                next_drainer: 0,
                next_id: 0,
                shutdown: false,
            }),
    {
        Self {
            num_drainers,
            producer_queue_size,
            payload: payload_size(store.specs()),
            next_drainer: 0,
            next_id: 0,
            shutdown: false,
        }
    }

    /// Makes a connection and assigns it to the drainer whose turn it is. The
    /// drainer takes the handle in, and has to be woken.
    pub fn new_sender(&mut self, metrics: &mut Metrics) -> (r: (SampleSender, TransportHandle))
        requires
            0 < old(self)@.num_drainers,
            0 < old(self)@.producer_queue_size,
            2 * old(self)@.producer_queue_size + 1 <= largest_queue(),
            old(metrics).wf(),
        ensures
            final(metrics).wf(),
            r.1.wf(),
            r.0.drainer == old(self)@.turn(),
            r.0.id == old(self)@.next_id,
            r.1@ == (TransportView {
                id: old(self)@.next_id,
                payload: old(self)@.payload,
                queue: Seq::empty(),
                queue_capacity: old(self)@.producer_queue_size as nat,
                pool: Seq::empty(),
                pool_capacity: (2 * old(self)@.producer_queue_size + 1) as nat,
                closed: false,
            }),
            final(self)@ == old(self)@.connected(),
            final(metrics)@ == old(metrics)@.connected(),
    {
        let drainer: usize = self.next_drainer % self.num_drainers;
        let id: u64 = self.next_id;
        self.next_drainer = self.next_drainer.wrapping_add(1);
        self.next_id = self.next_id.wrapping_add(1);
        metrics.record_connection_opened();
        (
            SampleSender { id, drainer },
            TransportHandle::new(id, self.payload, self.producer_queue_size),
        )
    }

    pub fn num_drainers(&self) -> (r: usize)
        ensures
            r == self@.num_drainers,
    {
        self.num_drainers
    }

    pub fn producer_queue_size(&self) -> (r: usize)
        ensures
            r == self@.producer_queue_size,
    {
        self.producer_queue_size
    }

    /// The drainers are to stop. All of them have to be woken.
    pub fn shutdown(&mut self)
        ensures
            final(self)@ == (PoolView { shutdown: true, ..old(self)@ }),
    {
        self.shutdown = true;
    }

    pub fn is_shutdown(&self) -> (r: bool)
        ensures
            r == self@.shutdown,
    {
        self.shutdown
    }
}

/// What a drainer has to do next.
#[derive(Debug, Clone, Copy, PartialEq, Eq, Structural)]
pub enum DrainerStep {
    /// Stop: the pool was shut down.
    Stop,
    /// Do a round.
    Round,
}

/// One drainer: the connections that it owns, and how many rounds it has done.
pub struct Drainer {
    pub transports: Vec<TransportHandle>,
    pub round_counter: usize,
}

impl Drainer {
    pub fn new() -> (r: Self)
        ensures
            r.transports@.len() == 0,
            r.round_counter == 0,
    {
        Self { transports: Vec::new(), round_counter: 0 }
    }

    /// Takes in a connection that was handed over.
    pub fn adopt(&mut self, transport: TransportHandle)
        ensures
            final(self).transports@ == old(self).transports@.push(transport),
            final(self).round_counter == old(self).round_counter,
    {
        self.transports.push(transport);
    }

    /// What to do at the start of a turn, after new connections were taken in.
    pub fn next_step(&self, pool: &DrainerPool) -> (r: DrainerStep)
        ensures
            r == if pool@.shutdown {
                DrainerStep::Stop
            } else {
                DrainerStep::Round
            },
    {
        if pool.is_shutdown() {
            DrainerStep::Stop
        } else {
            DrainerStep::Round
        }
    }

    /// Ends a turn after a round: the next one starts one connection further
    /// on, and connections whose producers are gone are forgotten. One that had
    /// something queued since the round came to it stays for the next round.
    pub fn end_turn(&mut self)
        requires
            all_wf(old(self).transports@),
        ensures
            all_wf(final(self).transports@),
            final(self).round_counter == old(self).round_counter.wrapping_add(1),
            transport_views(final(self).transports@) == open_transports(
                transport_views(old(self).transports@),
            ),
    {
        self.round_counter = self.round_counter.wrapping_add(1);
        prune(&mut self.transports);
    }
}

impl Default for Drainer {
    fn default() -> (r: Self)
        ensures
            r.transports@.len() == 0,
            r.round_counter == 0,
    {
        Self::new()
    }
}

/// Over as many connections as there are drainers, each drainer is assigned
/// exactly one.
pub proof fn lemma_round_robin(first: int, drainers: int, d: int)
    requires
        0 <= first,
        0 <= d < drainers,
    ensures
        exists|k: int| first <= k < first + drainers && #[trigger] (k % drainers) == d,
        forall|k: int, l: int|
            first <= k < l < first + drainers ==> #[trigger] (k % drainers) != #[trigger] (l
                % drainers),
{
    vstd::arithmetic::div_mod::lemma_mod_bound(first, drainers);
    vstd::arithmetic::div_mod::lemma_fundamental_div_mod(first, drainers);
    let at = first % drainers;
    let q = first / drainers;
    let k = if d >= at {
        first + (d - at)
    } else {
        first + (d - at) + drainers
    };
    if d >= at {
        assert(k == q * drainers + d) by (nonlinear_arith)
            requires
                first == drainers * q + at,
                k == first + (d - at),
        ;
        vstd::arithmetic::div_mod::lemma_fundamental_div_mod_converse(k, drainers, q, d);
    } else {
        assert(k == (q + 1) * drainers + d) by (nonlinear_arith)
            requires
                first == drainers * q + at,
                k == first + (d - at) + drainers,
        ;
        vstd::arithmetic::div_mod::lemma_fundamental_div_mod_converse(k, drainers, q + 1, d);
    }
    assert forall|k: int, l: int| first <= k < l < first + drainers implies #[trigger] (k
        % drainers) != #[trigger] (l % drainers) by {
        lemma_distinct_remainders(k, l, first, drainers);
    }
}

/// Rotation is fair: over as many rounds as there are queues, each queue is
/// visited at each turn exactly once.
pub proof fn lemma_fair_rotation(first: int, queues: int, j: int, turn: int)
    requires
        0 <= first,
        0 <= j < queues,
        0 <= turn < queues,
    ensures
        exists|r: int|
            first <= r < first + queues && turn_of(j, #[trigger] (r % queues), queues) == turn,
        forall|r: int, s: int|
            first <= r < s < first + queues ==> turn_of(j, #[trigger] (r % queues), queues)
                != turn_of(j, #[trigger] (s % queues), queues),
{
    let offset = if turn <= j {
        j - turn
    } else {
        j - turn + queues
    };
    lemma_round_robin(first, queues, offset);
    let r = choose|k: int| first <= k < first + queues && #[trigger] (k % queues) == offset;
    assert(turn_of(j, r % queues, queues) == turn);
    assert forall|r: int, s: int| first <= r < s < first + queues implies turn_of(
        j,
        #[trigger] (r % queues),
        queues,
    ) != turn_of(j, #[trigger] (s % queues), queues) by {
        vstd::arithmetic::div_mod::lemma_mod_bound(r, queues);
        vstd::arithmetic::div_mod::lemma_mod_bound(s, queues);
    }
}

/// A round visits each connection exactly once, at the turn that
/// [`turn_of`] says.
pub proof fn lemma_visited_at_turn<A>(s: Seq<A>, offset: int, j: int)
    requires
        0 <= offset < s.len(),
        0 <= j < s.len(),
    ensures
        rotated(s, offset).len() == s.len(),
        0 <= turn_of(j, offset, s.len() as int) < s.len(),
        rotated(s, offset)[turn_of(j, offset, s.len() as int)] == s[j],
{
}

/// The buffers of a connection that are in use or pooled: in the queue, in the
/// pool, `held` with the drainer, and `filling` with the producer. Nothing is
/// over the count that the pool was sized for.
pub open spec fn buffers_bounded(t: TransportView, held: nat, filling: nat) -> bool {
    &&& t.pool_capacity == 2 * t.queue_capacity + 1
    &&& t.queue.len() <= t.queue_capacity
    &&& held <= t.queue_capacity
    &&& filling <= 1
    &&& t.queue.len() + t.pool.len() + held + filling <= t.pool_capacity
}

/// As long as every sample is pushed in a buffer that was acquired, one at a
/// time, and the drainer gives back what it holds before the next round, the
/// pool never overflows: a fresh buffer is made only when the pool is empty,
/// and there is room for every buffer that comes back.
pub proof fn lemma_pool_never_overflows(
    t: TransportView,
    held: nat,
    filling: nat,
    item: (u64, Seq<u8>),
)
    requires
        buffers_bounded(t, held, filling),
    ensures
        // A fresh buffer for an idle producer.
        filling == 0 && t.pool.len() == 0 ==> buffers_bounded(t, held, 1),
        // A pooled buffer for an idle producer.
        filling == 0 && t.pool.len() > 0 ==> buffers_bounded(
            TransportView { pool: t.pool.drop_first(), ..t },
            held,
            1,
        ),
        // The producer pushes what it has filled.
        filling == 1 && t.queue.len() < t.queue_capacity ==> buffers_bounded(
            TransportView { queue: t.queue.push(item), ..t },
            held,
            0,
        ),
        // The drainer, with empty hands, takes what is queued.
        held == 0 ==> buffers_bounded(t.emptied(), t.queue.len(), filling),
        // The drainer gives a buffer back: it goes into the pool.
        held > 0 ==> t.recycled(item).pool == t.pool.push(item) && buffers_bounded(
            t.recycled(item),
            (held - 1) as nat,
            filling,
        ),
{
}

/// What goes round keeps its length and its bytes: a buffer that is given back
/// to an empty pool is the next one to be acquired, as it is.
pub proof fn lemma_recycled_unchanged(t: TransportView, item: (u64, Seq<u8>))
    requires
        t.pool.len() == 0,
        0 < t.pool_capacity,
    ensures
        t.recycled(item).pool.first() == item,
        t.recycled(item).pool.drop_first() == t.pool,
{
    assert(t.recycled(item).pool.drop_first() =~= t.pool);
}

/// Forgetting connections loses no sample: what is queued on those that stay is
/// what was queued on all of them, in the same order.
pub proof fn lemma_prune_loses_nothing(transports: Seq<TransportView>)
    ensures
        collected(open_transports(transports)) == collected(transports),
    decreases transports.len(),
{
    if transports.len() > 0 {
        let rest = transports.drop_last();
        let last = transports.last();
        lemma_prune_loses_nothing(rest);
        if last.spent() {
            assert(collected(rest) + owned(last) =~= collected(rest));
        } else {
            let kept = open_transports(rest).push(last);
            assert(kept.drop_last() =~= open_transports(rest));
            assert(kept.last() == last);
        }
    }
}

/// What happens to a connection.
pub enum LinkEvent {
    /// The producer pushes a sample. It has to wait while the queue is full.
    Push { item: (u64, Seq<u8>) },
    /// The producer is gone.
    Close,
    /// A round of the drainer takes what is queued.
    Round,
    /// The drainer ends a turn.
    EndTurn,
}

/// A connection in the course of events.
#[verifier::ext_equal]
pub struct Link {
    pub transport: TransportView,
    /// Whether the drainer has forgotten it.
    pub forgotten: bool,
    /// The samples that were accepted, from the first on.
    pub pushed: Seq<(u64, Seq<u8>)>,
    /// The samples that rounds took, from the first on.
    pub taken: Seq<(u64, Seq<u8>)>,
}

impl Link {
    /// A new connection.
    pub open spec fn start(transport: TransportView) -> Link {
        Link { transport, forgotten: false, pushed: Seq::empty(), taken: Seq::empty() }
    }

    /// After one event. A push into a full queue changes nothing, and nothing
    /// can be pushed or taken once the connection is forgotten.
    pub open spec fn after(self, event: LinkEvent) -> Link {
        let t = self.transport;
        match event {
            LinkEvent::Push { item } => if !self.forgotten && t.queue.len() < t.queue_capacity {
                Link { transport: t.queued(item), pushed: self.pushed.push(item), ..self }
            } else {
                self
            },
            LinkEvent::Close => Link { transport: t.hung_up(), ..self },
            LinkEvent::Round => if self.forgotten {
                self
            } else {
                Link { transport: t.emptied(), taken: self.taken + t.queue, ..self }
            },
            LinkEvent::EndTurn => Link {
                forgotten: self.forgotten || open_transports(seq![t]).len() == 0,
                ..self
            },
        }
    }

    /// After several events.
    pub open spec fn after_all(self, events: Seq<LinkEvent>) -> Link
        decreases events.len(),
    {
        if events.len() == 0 {
            self
        } else {
            self.after_all(events.drop_last()).after(events.last())
        }
    }
}

/// A drainer forgets a connection only when its producer is gone and every
/// sample that was accepted from it has been taken, in the order of the pushes.
/// At any time, what was accepted is what was taken and what is queued, and no
/// more is queued than the queue has room for.
pub proof fn lemma_every_push_is_taken(transport: TransportView, events: Seq<LinkEvent>)
    requires
        transport.queue.len() == 0,
    ensures
        ({
            let link = Link::start(transport).after_all(events);
            &&& link.pushed == link.taken + link.transport.queue
            &&& link.transport.queue.len() <= link.transport.queue_capacity
            &&& link.transport.queue_capacity == transport.queue_capacity
            &&& link.forgotten ==> link.transport.closed && link.taken == link.pushed
        }),
    decreases events.len(),
{
    let start = Link::start(transport);
    if events.len() == 0 {
        assert(start.taken + transport.queue =~= start.pushed);
    } else {
        let before = start.after_all(events.drop_last());
        let after = before.after(events.last());
        let t = before.transport;
        lemma_every_push_is_taken(transport, events.drop_last());
        reveal_with_fuel(open_transports, 2);
        assert(open_transports(seq![t]).len() == 0 <==> t.spent());
        match events.last() {
            LinkEvent::Push { item } => {
                assert(before.taken + t.queue.push(item) =~= (before.taken + t.queue).push(item));
            },
            LinkEvent::Close => {},
            LinkEvent::Round => {
                assert((before.taken + t.queue) + Seq::<(u64, Seq<u8>)>::empty() =~= before.taken
                    + t.queue);
            },
            LinkEvent::EndTurn => {
                if t.spent() {
                    assert(before.taken + t.queue =~= before.taken);
                }
            },
        }
        if before.forgotten {
            assert(t.queue.len() == 0);
        }
    }
}

/// What happens to the connections of a pool.
pub enum PoolEvent {
    /// A connection is made.
    Open,
    /// A connection is closed.
    Close,
}

/// How many of the events make a connection.
pub open spec fn opened(events: Seq<PoolEvent>) -> nat
    decreases events.len(),
{
    if events.len() == 0 {
        0
    } else {
        opened(events.drop_last()) + if events.last() is Open {
            1nat
        } else {
            0nat
        }
    }
}

/// A pool and its metrics after several events.
pub open spec fn pool_after(
    pool: PoolView,
    metrics: MetricsView,
    events: Seq<PoolEvent>,
) -> (PoolView, MetricsView)
    decreases events.len(),
{
    if events.len() == 0 {
        (pool, metrics)
    } else {
        let before = pool_after(pool, metrics, events.drop_last());
        match events.last() {
            PoolEvent::Open => (before.0.connected(), before.1.connected()),
            PoolEvent::Close => (before.0, before.1.disconnected()),
        }
    }
}

/// Over any run of connections made and closed, the active connections are
/// those made less those closed, and connection number `k` goes to drainer
/// `k % num_drainers`. Both hold as far as the numbers fit in `usize`.
pub proof fn lemma_connections_counted(
    pool: PoolView,
    metrics: MetricsView,
    events: Seq<PoolEvent>,
)
    requires
        pool.next_drainer == 0,
        metrics.active_connections == 0,
    ensures
        ({
            let (after, counts) = pool_after(pool, metrics, events);
            let made = opened(events);
            let active = made - (events.len() - made);
            &&& 0 <= active <= usize::MAX ==> counts.active_connections == active
            &&& made <= usize::MAX ==> after.turn() == made as int % pool.num_drainers as int
        }),
{
    lemma_connections_wrapped(pool, metrics, events);
    let made = opened(events);
    let active = made - (events.len() - made);
    let span = usize::MAX + 1;
    if 0 <= active <= usize::MAX {
        vstd::arithmetic::div_mod::lemma_small_mod(active as nat, span as nat);
    }
    if made <= usize::MAX {
        vstd::arithmetic::div_mod::lemma_small_mod(made, span as nat);
    }
}

/// The counts of a pool wrap around in `usize`.
proof fn lemma_connections_wrapped(
    pool: PoolView,
    metrics: MetricsView,
    events: Seq<PoolEvent>,
)
    requires
        pool.next_drainer == 0,
        metrics.active_connections == 0,
    ensures
        ({
            let (after, counts) = pool_after(pool, metrics, events);
            let made = opened(events);
            let span = usize::MAX + 1;
            &&& made <= events.len()
            &&& after.num_drainers == pool.num_drainers
            &&& counts.active_connections == (made - (events.len() - made)) % span
            &&& after.next_drainer == made as int % span
        }),
    decreases events.len(),
{
    let span = usize::MAX + 1;
    if events.len() == 0 {
        vstd::arithmetic::div_mod::lemma_small_mod(0, span as nat);
    } else {
        let fewer = events.drop_last();
        lemma_connections_wrapped(pool, metrics, fewer);
        let made = opened(fewer) as int;
        let active = made - (fewer.len() - made);
        vstd::arithmetic::div_mod::lemma_add_mod_noop(made, 1, span);
        vstd::arithmetic::div_mod::lemma_add_mod_noop(active, 1, span);
        vstd::arithmetic::div_mod::lemma_sub_mod_noop(active, 1, span);
        vstd::arithmetic::div_mod::lemma_small_mod(1, span as nat);
        lemma_step_wraps(made % span);
        lemma_step_wraps(active % span);
    }
}

/// Counting up and down in `usize` is counting up and down modulo its range.
proof fn lemma_step_wraps(n: int)
    requires
        0 <= n <= usize::MAX,
    ensures
        (n as usize).wrapping_add(1) == (n + 1) % (usize::MAX + 1),
        (n as usize).wrapping_sub(1) == (n - 1) % (usize::MAX + 1),
{
    let span = usize::MAX + 1;
    if n == usize::MAX {
        vstd::arithmetic::div_mod::lemma_mod_self_0(span);
    } else {
        vstd::arithmetic::div_mod::lemma_small_mod((n + 1) as nat, span as nat);
    }
    if n == 0 {
        vstd::arithmetic::div_mod::lemma_fundamental_div_mod_converse(-1, span, -1, span - 1);
    } else {
        vstd::arithmetic::div_mod::lemma_small_mod((n - 1) as nat, span as nat);
    }
}

/// Filtering keeps everything that passes, and nothing that does not.
proof fn lemma_filter_uniform<A>(s: Seq<A>, pred: spec_fn(A) -> bool)
    ensures
        (forall|i: int| 0 <= i < s.len() ==> pred(#[trigger] s[i])) ==> s.filter(pred) == s,
        (forall|i: int| 0 <= i < s.len() ==> !pred(#[trigger] s[i])) ==> s.filter(pred).len() == 0,
    decreases s.len(),
{
    reveal(Seq::filter);
    if s.len() > 0 {
        let rest = s.drop_last();
        lemma_filter_uniform(rest, pred);
        if forall|i: int| 0 <= i < s.len() ==> pred(#[trigger] s[i]) {
            assert forall|i: int| 0 <= i < rest.len() implies pred(#[trigger] rest[i]) by {
                assert(pred(s[i]));
            }
            assert(pred(s[s.len() - 1]));
            assert(rest.push(s.last()) =~= s);
        }
        if forall|i: int| 0 <= i < s.len() ==> !pred(#[trigger] s[i]) {
            assert forall|i: int| 0 <= i < rest.len() implies !pred(#[trigger] rest[i]) by {
                assert(!pred(s[i]));
            }
            assert(!pred(s[s.len() - 1]));
        }
    } else {
        assert(s.filter(pred) =~= s);
    }
}

/// Whether a sample is one of connection `id`.
pub open spec fn owned_by(id: u64) -> spec_fn((u64, (u64, Seq<u8>))) -> bool {
    |x: (u64, (u64, Seq<u8>))| x.0 == id
}

/// The samples of one connection, out of those of several.
pub open spec fn samples_of(
    samples: Seq<(u64, (u64, Seq<u8>))>,
    id: u64,
) -> Seq<(u64, (u64, Seq<u8>))> {
    samples.filter(owned_by(id))
}

/// With one more connection, the samples of connection `id` are those before it
/// and its own, if it is that connection.
proof fn lemma_samples_of_next(rest: Seq<TransportView>, last: TransportView, id: u64)
    ensures
        samples_of(collected(rest) + owned(last), id) == if last.id == id {
            samples_of(collected(rest), id) + owned(last)
        } else {
            samples_of(collected(rest), id)
        },
{
    let pred = owned_by(id);
    Seq::filter_distributes_over_add(collected(rest), owned(last), pred);
    lemma_filter_uniform(owned(last), pred);
    if last.id == id {
        assert(owned(last).filter(pred) == owned(last));
    } else {
        assert(samples_of(collected(rest), id) + owned(last).filter(pred) =~= samples_of(
            collected(rest),
            id,
        ));
    }
}

/// There are no samples of a connection that is not among those visited.
proof fn lemma_none_of_connection(transports: Seq<TransportView>, id: u64)
    requires
        forall|i: int| 0 <= i < transports.len() ==> (#[trigger] transports[i]).id != id,
    ensures
        samples_of(collected(transports), id).len() == 0,
    decreases transports.len(),
{
    if transports.len() > 0 {
        let rest = transports.drop_last();
        assert forall|i: int| 0 <= i < rest.len() implies (#[trigger] rest[i]).id != id by {
            assert(transports[i].id != id);
        }
        lemma_none_of_connection(rest, id);
        assert(transports[transports.len() - 1].id != id);
        lemma_samples_of_next(rest, transports.last(), id);
    } else {
        lemma_filter_uniform(collected(transports), owned_by(id));
    }
}

/// A round takes the samples of each connection in the order in which they
/// were pushed: nothing of it is lost, doubled or overtaken.
pub proof fn lemma_connection_order(transports: Seq<TransportView>, j: int)
    requires
        0 <= j < transports.len(),
        forall|i: int, k: int|
            0 <= i < k < transports.len() ==> (#[trigger] transports[i]).id != (
            #[trigger] transports[k]).id,
    ensures
        samples_of(collected(transports), transports[j].id) == owned(transports[j]),
    decreases transports.len(),
{
    let id = transports[j].id;
    let rest = transports.drop_last();
    lemma_samples_of_next(rest, transports.last(), id);
    if j == transports.len() - 1 {
        assert forall|i: int| 0 <= i < rest.len() implies (#[trigger] rest[i]).id != id by {
            assert(transports[i].id != transports[transports.len() - 1].id);
        }
        lemma_none_of_connection(rest, id);
        assert(samples_of(collected(rest), id) + owned(transports[j]) =~= owned(transports[j]));
    } else {
        assert forall|i: int, k: int| 0 <= i < k < rest.len() implies (#[trigger] rest[i]).id != (
        #[trigger] rest[k]).id by {
            assert(transports[i].id != transports[k].id);
        }
        lemma_connection_order(rest, j);
        assert(transports[j].id != transports[transports.len() - 1].id);
    }
}

} // verus!
