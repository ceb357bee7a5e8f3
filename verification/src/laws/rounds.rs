//! Drain rounds: what is taken and in which order, who is woken, and where the
//! buffers go.

use crate::arith::sum_usize;
use crate::ingress::{
    all_given_back, collected, depths, dwells, find_id, given_back, lemma_found, nonempty_ids,
    open_transports, opened, owned, owned_by, pending_samples, pool_after, rotated, rotation,
    round_counted, samples_of, DrainedItem, PoolEvent, PoolView, TransportView,
};
use crate::laws::bytes::lemma_pieces;
use crate::metrics::{greatest, with_durations, DrainerView, MetricsView};
use crate::ring_buf::joined;
use vstd::prelude::*;

verus! {

/// Whether a connection has something queued.
pub open spec fn has_queued() -> spec_fn(TransportView) -> bool {
    |t: TransportView| t.queue.len() > 0
}

/// The wake-ups of connections visited in order are those of the connections
/// that have something queued, in that order.
proof fn lemma_wakes_in_order(transports: Seq<TransportView>)
    ensures
        nonempty_ids(transports) == transports.filter(has_queued()).map_values(
            |t: TransportView| t.id,
        ),
    decreases transports.len(),
{
    reveal(Seq::filter);
    let ids = |t: TransportView| t.id;
    if transports.len() == 0 {
        assert(nonempty_ids(transports) =~= transports.filter(has_queued()).map_values(ids));
    } else {
        lemma_wakes_in_order(transports.drop_last());
        assert(nonempty_ids(transports) =~= transports.filter(has_queued()).map_values(ids));
    }
}

/// A round wakes exactly the producers whose queues it emptied: an id is among
/// the wake-ups if and only if a connection of that id had something queued,
/// and there are as many wake-ups as such connections.
pub proof fn lemma_round_wakes(transports: Seq<TransportView>, offset: int, id: u64)
    requires
        0 <= offset <= transports.len(),
    ensures
        nonempty_ids(rotated(transports, offset)).contains(id) <==> exists|i: int|
            0 <= i < transports.len() && (#[trigger] transports[i]).id == id
                && transports[i].queue.len() > 0,
        nonempty_ids(rotated(transports, offset)).len() == transports.filter(has_queued()).len(),
{
    let turns = rotated(transports, offset);
    let (head, tail) = (transports.take(offset), transports.skip(offset));
    lemma_wakes_in_order(turns);
    Seq::filter_distributes_over_add(tail, head, has_queued());
    Seq::filter_distributes_over_add(head, tail, has_queued());
    assert(head + tail =~= transports);
    lemma_woken(turns, id);
    if nonempty_ids(turns).contains(id) {
        let k = choose|k: int|
            0 <= k < turns.len() && (#[trigger] turns[k]).id == id && turns[k].queue.len() > 0;
        let i = if k < tail.len() {
            k + offset
        } else {
            k - tail.len()
        };
        assert(transports[i] == turns[k]);
    }
    if exists|i: int|
        0 <= i < transports.len() && (#[trigger] transports[i]).id == id
            && transports[i].queue.len() > 0 {
        let i = choose|i: int|
            0 <= i < transports.len() && (#[trigger] transports[i]).id == id
                && transports[i].queue.len() > 0;
        let k = if i >= offset {
            i - offset
        } else {
            i + tail.len()
        };
        assert(turns[k] == transports[i]);
    }
}

/// Who is woken has something queued.
proof fn lemma_woken(transports: Seq<TransportView>, id: u64)
    ensures
        nonempty_ids(transports).contains(id) <==> exists|i: int|
            0 <= i < transports.len() && (#[trigger] transports[i]).id == id
                && transports[i].queue.len() > 0,
    decreases transports.len(),
{
    if transports.len() > 0 {
        let rest = transports.drop_last();
        let last = transports.last();
        let before = nonempty_ids(rest);
        lemma_woken(rest, id);
        assert(transports[transports.len() - 1] == last);
        if before.contains(id) {
            let k = choose|k: int| 0 <= k < before.len() && before[k] == id;
            assert(nonempty_ids(transports)[k] == id);
            let i = choose|i: int|
                0 <= i < rest.len() && (#[trigger] rest[i]).id == id && rest[i].queue.len() > 0;
            assert(transports[i] == rest[i]);
        }
        if last.queue.len() > 0 && last.id == id {
            assert(nonempty_ids(transports)[before.len() as int] == id);
        }
        if nonempty_ids(transports).contains(id) && !before.contains(id) {
            let k = choose|k: int|
                0 <= k < nonempty_ids(transports).len() && nonempty_ids(transports)[k] == id;
            if k < before.len() {
                assert(before[k] == id);
            }
        }
        if exists|i: int|
            0 <= i < transports.len() && (#[trigger] transports[i]).id == id
                && transports[i].queue.len() > 0 {
            let i = choose|i: int|
                0 <= i < transports.len() && (#[trigger] transports[i]).id == id
                    && transports[i].queue.len() > 0;
            if i < rest.len() {
                assert(rest[i] == transports[i]);
            }
        }
    }
}

/// A round visits the connections one after the other from where it starts,
/// and goes on at the front when it comes to the end.
pub proof fn lemma_rotated_at<A>(s: Seq<A>, offset: int, k: int)
    requires
        0 <= offset < s.len(),
        0 <= k < s.len(),
    ensures
        rotated(s, offset).len() == s.len(),
        rotated(s, offset)[k] == s[(k + offset) % s.len() as int],
{
    let n = s.len() as int;
    if k + offset < n {
        vstd::arithmetic::div_mod::lemma_small_mod((k + offset) as nat, n as nat);
    } else {
        vstd::arithmetic::div_mod::lemma_fundamental_div_mod_converse(
            k + offset,
            n,
            1,
            k + offset - n,
        );
    }
}

/// The first round starts at the first connection, and every round one
/// connection further on than the one before.
pub proof fn lemma_rotation_moves_on(round_counter: usize, n: nat)
    requires
        0 < n,
    ensures
        rotation(0, n) == 0,
        0 <= rotation(round_counter, n) < n,
        round_counter < usize::MAX ==> rotation((round_counter + 1) as usize, n) == (rotation(
            round_counter,
            n,
        ) + 1) % n as int,
{
    vstd::arithmetic::div_mod::lemma_small_mod(0, n);
    vstd::arithmetic::div_mod::lemma_mod_bound(round_counter as int, n as int);
    vstd::arithmetic::div_mod::lemma_add_mod_noop(round_counter as int, 1, n as int);
    if n > 1 {
        vstd::arithmetic::div_mod::lemma_small_mod(1, n);
    } else {
        vstd::arithmetic::div_mod::lemma_mod_bound(round_counter + 1, 1);
        vstd::arithmetic::div_mod::lemma_mod_bound(rotation(round_counter, n) + 1, 1);
    }
}

/// What is taken: from one connection all that it has queued, in the order of
/// the queue and marked with its id; from several what is taken from each, one
/// after the other; in all as many samples as the queues are deep.
pub proof fn lemma_collected(
    first: Seq<TransportView>,
    then: Seq<TransportView>,
    one: TransportView,
)
    requires
        one.queue.len() <= usize::MAX,
        forall|i: int| 0 <= i < first.len() ==> (#[trigger] first[i]).queue.len() <= usize::MAX,
    ensures
        collected(seq![one]).len() == one.queue.len(),
        forall|i: int|
            0 <= i < one.queue.len() ==> #[trigger] collected(seq![one])[i] == (
                one.id,
                one.queue[i],
            ),
        collected(first + then) == collected(first) + collected(then),
        collected(first).len() == sum_usize(depths(first)),
        depths(first).len() == first.len(),
        forall|i: int|
            0 <= i < first.len() ==> #[trigger] depths(first)[i] == first[i].queue.len(),
{
    assert(seq![one].drop_last() =~= Seq::<TransportView>::empty());
    assert(collected(seq![one].drop_last()) =~= Seq::<(u64, (u64, Seq<u8>))>::empty());
    assert(collected(seq![one]) =~= owned(one));
    lemma_collected_both(first, then);
    lemma_collected_depth(first);
}

/// What is taken from some connections and then from others.
proof fn lemma_collected_both(first: Seq<TransportView>, then: Seq<TransportView>)
    ensures
        collected(first + then) == collected(first) + collected(then),
    decreases then.len(),
{
    if then.len() == 0 {
        assert(first + then =~= first);
        assert(collected(first) + collected(then) =~= collected(first));
    } else {
        lemma_collected_both(first, then.drop_last());
        assert((first + then).drop_last() =~= first + then.drop_last());
        assert(collected(first + then) =~= collected(first) + collected(then));
    }
}

/// As many samples as the queues are deep.
proof fn lemma_collected_depth(transports: Seq<TransportView>)
    requires
        forall|i: int|
            0 <= i < transports.len() ==> (#[trigger] transports[i]).queue.len() <= usize::MAX,
    ensures
        collected(transports).len() == sum_usize(depths(transports)),
    decreases transports.len(),
{
    if transports.len() > 0 {
        let rest = transports.drop_last();
        assert forall|i: int| 0 <= i < rest.len() implies (#[trigger] rest[i]).queue.len()
            <= usize::MAX by {
            assert(transports[i].queue.len() <= usize::MAX);
        }
        lemma_collected_depth(rest);
        assert(depths(transports).drop_last() =~= depths(rest));
        assert(transports[transports.len() - 1].queue.len() <= usize::MAX);
    }
}

/// How long a sample waited: from its push until now, and no time if the clock
/// went back.
pub proof fn lemma_dwells(items: Seq<(u64, (u64, Seq<u8>))>, now: u64, i: int)
    requires
        0 <= i < items.len(),
    ensures
        dwells(items, now).len() == items.len(),
        items[i].1.0 <= now ==> items[i].1.0 + dwells(items, now)[i] == now,
        now < items[i].1.0 ==> dwells(items, now)[i] == 0,
{
}

/// What a round counts: the depths of the queues that it found, added up and
/// the greatest of them; the samples that got in; and the time that each sample
/// waited. How long rounds took is not touched.
pub proof fn lemma_round_counts(
    before: DrainerView,
    after: DrainerView,
    queued: Seq<usize>,
    waited: Seq<u64>,
    done: nat,
    runs: nat,
    lost: u64,
)
    requires
        round_counted(before, after, queued, waited, done, runs, lost),
        sum_usize(queued) <= usize::MAX,
    ensures
        after.queue_depth_sum == sum_usize(queued),
        after.queue_depth_max == greatest(queued),
        after.samples_inserted == before.samples_inserted.wrapping_add(done as u64),
        after.detail is Some <==> before.detail is Some,
        before.detail matches Some(b) ==> {
            &&& after.detail matches Some(a)
            &&& a.cas_success == b.cas_success.wrapping_add(runs as u64)
            &&& a.cas_failure == b.cas_failure.wrapping_add(lost)
            &&& a.reservation_retries == b.reservation_retries.wrapping_add(lost)
            &&& a.drain_round == b.drain_round
            &&& b.queue_dwell.len() + waited.len() <= u64::MAX ==> a.queue_dwell
                == with_durations(b.queue_dwell, waited)
        },
{
}

/// Forgotten are exactly the connections whose producers are gone and whose
/// queues are empty; the others stay in their order.
pub proof fn lemma_forgotten(transports: Seq<TransportView>)
    ensures
        open_transports(transports) == transports.filter(
            |t: TransportView| !(t.closed && t.queue.len() == 0),
        ),
    decreases transports.len(),
{
    reveal(Seq::filter);
    if transports.len() == 0 {
        assert(open_transports(transports) =~= transports.filter(
            |t: TransportView| !(t.closed && t.queue.len() == 0),
        ));
    } else {
        lemma_forgotten(transports.drop_last());
    }
}

/// A connection is found where the first one of its id stands.
pub proof fn lemma_found_first(transports: Seq<TransportView>, id: u64)
    ensures
        find_id(transports, id) matches Some(i) ==> {
            &&& 0 <= i < transports.len()
            &&& transports[i].id == id
            &&& forall|k: int| 0 <= k < i ==> (#[trigger] transports[k]).id != id
        },
        find_id(transports, id) is None <==> forall|i: int|
            0 <= i < transports.len() ==> (#[trigger] transports[i]).id != id,
    decreases transports.len(),
{
    lemma_found(transports, id);
    if transports.len() > 0 {
        let rest = transports.drop_last();
        lemma_found_first(rest, id);
        lemma_found(rest, id);
        if let Some(i) = find_id(transports, id) {
            assert forall|k: int| 0 <= k < i implies (#[trigger] transports[k]).id != id by {
                assert(rest[k] == transports[k]);
            }
        }
    }
}

/// The bytes of the samples of one connection, out of those of several.
pub open spec fn buffers_of(items: Seq<(u64, (u64, Seq<u8>))>, id: u64) -> Seq<(u64, Seq<u8>)> {
    samples_of(items, id).map_values(|x: (u64, (u64, Seq<u8>))| x.1)
}

/// Buffers go back to where they came from: the pool of a connection gets the
/// buffers of its own samples, in order and as far as there is room, and
/// nothing else of any connection changes.
pub proof fn lemma_buffers_go_back(
    transports: Seq<TransportView>,
    items: Seq<(u64, (u64, Seq<u8>))>,
    j: int,
)
    requires
        0 <= j < transports.len(),
        forall|i: int, k: int|
            0 <= i < k < transports.len() ==> (#[trigger] transports[i]).id != (
            #[trigger] transports[k]).id,
        transports[j].pool.len() + buffers_of(items, transports[j].id).len()
            <= transports[j].pool_capacity,
    ensures
        all_given_back(transports, items).len() == transports.len(),
        all_given_back(transports, items)[j] == (TransportView {
            pool: transports[j].pool + buffers_of(items, transports[j].id),
            ..transports[j]
        }),
    decreases items.len(),
{
    lemma_all_given_back(transports, items);
    reveal(Seq::filter);
    let id = transports[j].id;
    let after = all_given_back(transports, items);
    if items.len() == 0 {
        assert(samples_of(items, id) =~= Seq::<(u64, (u64, Seq<u8>))>::empty());
        assert(transports[j].pool + buffers_of(items, id) =~= transports[j].pool);
    } else {
        let fewer = items.drop_last();
        let item = items.last();
        let before = all_given_back(transports, fewer);
        let pred = owned_by(id);
        assert(samples_of(items, id) == if pred(item) {
            samples_of(fewer, id).push(item)
        } else {
            samples_of(fewer, id)
        });
        lemma_buffers_go_back(transports, fewer, j);
        lemma_all_given_back(transports, fewer);
        lemma_found(before, item.0);
        if item.0 == id {
            assert(buffers_of(items, id) =~= buffers_of(fewer, id).push(item.1));
            assert(before[j].id == id);
            let i = find_id(before, id)->0;
            if i < j {
                assert(transports[i].id != transports[j].id);
            }
            if j < i {
                assert(transports[j].id != transports[i].id);
            }
            assert(i == j);
            assert(before[j].pool.push(item.1) =~= transports[j].pool + buffers_of(items, id));
        } else {
            assert(after[j] == before[j]);
        }
    }
}

/// Giving buffers back changes no connection's id.
proof fn lemma_all_given_back(transports: Seq<TransportView>, items: Seq<(u64, (u64, Seq<u8>))>)
    ensures
        all_given_back(transports, items).len() == transports.len(),
        forall|i: int|
            0 <= i < transports.len() ==> (#[trigger] all_given_back(transports, items)[i]).id
                == transports[i].id,
    decreases items.len(),
{
    if items.len() > 0 {
        let before = all_given_back(transports, items.drop_last());
        lemma_all_given_back(transports, items.drop_last());
        lemma_found(before, items.last().0);
        let after = given_back(before, items.last());
        assert forall|i: int| 0 <= i < transports.len() implies (#[trigger] after[i]).id
            == transports[i].id by {
            assert(before[i].id == transports[i].id);
        }
    }
}

/// What of a round is left for the store: the samples behind those that are in,
/// in order, each cut without loss.
pub proof fn lemma_pending_samples(
    items: Seq<DrainedItem>,
    done: int,
    sizes: Seq<usize>,
    i: int,
)
    requires
        0 <= done,
        0 <= i < items.len() - done,
        sum_usize(sizes) <= items[done + i].item.data@.len(),
    ensures
        pending_samples(items, done, sizes).len() == items.len() - done,
        pending_samples(items, done, sizes)[i].len() == sizes.len(),
        forall|j: int|
            0 <= j < sizes.len() ==> (#[trigger] pending_samples(items, done, sizes)[i][j]).len()
                == sizes[j],
        joined(pending_samples(items, done, sizes)[i]) == items[done + i].item.data@.take(
            sum_usize(sizes) as int,
        ),
{
    lemma_pieces(items[done + i].item.data@, sizes);
}

/// Connections are told apart: connection number `k` of a new pool has id `k`,
/// and making or closing connections changes nothing else of a pool.
pub proof fn lemma_connection_ids(
    pool: PoolView,
    metrics: MetricsView,
    events: Seq<PoolEvent>,
)
    requires
        pool.next_id == 0,
        opened(events) <= u64::MAX,
    ensures
        ({
            let (after, counts) = pool_after(pool, metrics, events);
            &&& after.next_id == opened(events)
            &&& after.num_drainers == pool.num_drainers
            &&& after.producer_queue_size == pool.producer_queue_size
            &&& after.payload == pool.payload
            &&& after.shutdown == pool.shutdown
            &&& counts.push_blocked_count == metrics.push_blocked_count
            &&& counts.notify_count == metrics.notify_count
            &&& counts.drainers == metrics.drainers
        }),
    decreases events.len(),
{
    if events.len() > 0 {
        lemma_connection_ids(pool, metrics, events.drop_last());
    }
}

} // verus!
