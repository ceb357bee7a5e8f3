//! The flow of samples: room in the store, and what each step of a connection
//! changes.

use crate::ingress::{buffers_bounded, TransportView};
use crate::protocol::{sound, FifoStore, History};
use crate::selector::{FifoSampler, SamplerModel};
use crate::store::{stored, StoreState};
use vstd::prelude::*;

verus! {

/// A claim yields as many positions as are wanted, unless the room ends or the
/// batch does: it stops short of what is wanted only at one of these two. It
/// yields something whenever something is wanted and there is room.
pub proof fn lemma_claim(s: FifoStore, h: History, want: nat)
    requires
        sound(s, h),
    ensures
        ({
            let n = s.claim(want as int);
            let room = s.freed + s.capacity - s.write;
            let end = s.write + n;
            &&& 0 <= n <= want
            &&& n <= room
            &&& s.write % s.batch_size + n <= s.batch_size
            &&& n == want || n == room || s.write % s.batch_size + n == s.batch_size
            &&& 0 < n <==> 0 < want && 0 < room
        }),
{
    vstd::arithmetic::div_mod::lemma_mod_bound(s.write as int, s.batch_size as int);
}

/// A claim moves the next position on by what it yields, and changes nothing
/// else; copying changes nothing but the ring.
pub proof fn lemma_claimed_and_filled<T>(
    s: StoreState<T>,
    n: int,
    start: int,
    samples: Seq<Seq<Seq<u8>>>,
)
    requires
        0 <= n,
        s.write + n <= usize::MAX,
    ensures
        s.claimed(n).write == s.write + n,
        s.claimed(n) == (StoreState { write: s.claimed(n).write, ..s }),
        s.filled(start, samples) == (StoreState { ring: s.filled(start, samples).ring, ..s }),
{
}

/// Storing samples moves the next position on by their number, and leaves alone
/// what the consumer has and has given back.
pub proof fn lemma_stored_moves_on(s: FifoStore, samples: Seq<Seq<Seq<u8>>>)
    requires
        s.write + samples.len() <= usize::MAX,
    ensures
        ({
            let after = stored::<FifoSampler>(s, samples);
            &&& after.write == s.write + samples.len()
            &&& after.freed == s.freed
            &&& after.has_previous == s.has_previous
            &&& after.shutdown == s.shutdown
            &&& after.batch_size == s.batch_size
            &&& after.capacity == s.capacity
            &&& after.widths == s.widths
        }),
{
}

/// A store that is shut down stays what it was otherwise, and a sampler that is
/// shut down keeps what it counts and where it reads.
pub proof fn lemma_shut_keeps_samples(s: FifoStore)
    ensures
        FifoSampler::closed(FifoSampler::shut(s.sampler)),
        FifoSampler::queued(FifoSampler::shut(s.sampler)) == FifoSampler::queued(s.sampler),
        FifoSampler::shut(s.sampler).counts == s.sampler.counts,
        FifoSampler::shut(s.sampler).read == s.sampler.read,
        FifoSampler::shut(s.sampler).batch_size == s.sampler.batch_size,
        FifoSampler::selected(FifoSampler::shut(s.sampler)) is Some <==> FifoSampler::selected(
            s.sampler,
        ) is Some,
{
}

/// What the steps of a connection change: a push adds one sample at the end of
/// the queue, a round takes all of them, the end of the producer is marked, and
/// a buffer that comes back is put at the end of the pool while there is room.
/// Nothing else changes.
pub proof fn lemma_connection_steps(t: TransportView, item: (u64, Seq<u8>))
    ensures
        t.queued(item).queue.len() == t.queue.len() + 1,
        t.queued(item).queue.last() == item,
        t.queued(item).queue.drop_last() == t.queue,
        t.queued(item) == (TransportView { queue: t.queued(item).queue, ..t }),
        t.emptied().queue.len() == 0,
        t.emptied() == (TransportView { queue: t.emptied().queue, ..t }),
        t.hung_up().closed,
        t.hung_up() == (TransportView { closed: true, ..t }),
        t.pool.len() < t.pool_capacity ==> t.recycled(item).pool.len() == t.pool.len() + 1
            && t.recycled(item).pool.last() == item && t.recycled(item).pool.drop_last()
            == t.pool,
        t.pool.len() >= t.pool_capacity ==> t.recycled(item) == t,
        t.recycled(item) == (TransportView { pool: t.recycled(item).pool, ..t }),
        t.spent() <==> t.closed && t.queue.len() == 0,
{
    assert(t.queued(item).queue.drop_last() =~= t.queue);
    assert(t.queue.push(item).last() == item);
    if t.pool.len() < t.pool_capacity {
        assert(t.recycled(item).pool.drop_last() =~= t.pool);
    }
}

/// A new connection has room in its pool for all of its buffers.
pub proof fn lemma_pool_fits(id: u64, payload: usize, queue_size: nat)
    ensures
        buffers_bounded(
            TransportView {
                id,
                payload,
                queue: Seq::empty(),
                queue_capacity: queue_size,
                pool: Seq::empty(),
                pool_capacity: 2 * queue_size + 1,
                closed: false,
            },
            0,
            0,
        ),
{
}

} // verus!
