//! What the steps of writers and of the consumer keep of a FIFO store.
//!
//! Between its claim and its commit a position belongs to one writer. The
//! functions here show that every step, by whatever writer, keeps [`sound`]:
//! claims never overlap, a copy touches no slot that anybody else relies on,
//! and the consumer is handed whole batches, in order, holding exactly what
//! was copied for their positions.

use crate::arith::{
    lemma_distinct_remainders, lemma_prefix_sum, lemma_sum_update, lemma_sum_zeros,
    lemma_wrap_small, sum_usize,
};
use crate::ring_buf::{joined, overlaid};
use crate::selector::{
    commit_all, lemma_batch_in_range, lemma_same_batch, wake_count, FifoSampler, FifoState,
    Remover, SampleResult, SamplerModel,
};
use crate::store::{pieces, placed, ring_with, run_committed, stored, Store, StoreState};
use vstd::prelude::*;

verus! {

/// What has been done with the positions of a store so far.
#[verifier::ext_equal]
pub struct History {
    /// The positions that have been committed.
    pub committed: Set<int>,
    /// What was copied last for a position, array by array.
    pub data: Map<int, Seq<Seq<u8>>>,
}

impl History {
    /// Nothing claimed yet.
    pub open spec fn start() -> History {
        History { committed: Set::empty(), data: Map::empty() }
    }

    /// After `arrays` were copied for position `pos`.
    pub open spec fn copied(self, pos: int, arrays: Seq<Seq<u8>>) -> History {
        History { data: self.data.insert(pos, arrays), ..self }
    }

    /// After position `pos` was committed.
    pub open spec fn with_commit(self, pos: int) -> History {
        History { committed: self.committed.insert(pos), ..self }
    }

    /// After `samples` were copied for the positions from `start` on.
    pub open spec fn all_copied(self, start: int, samples: Seq<Seq<Seq<u8>>>) -> History
        decreases samples.len(),
    {
        if samples.len() == 0 {
            self
        } else {
            self.all_copied(start, samples.drop_last()).copied(
                start + samples.len() - 1,
                samples.last(),
            )
        }
    }

    /// After the `n` positions from `start` on were committed.
    pub open spec fn with_commits(self, start: int, n: nat) -> History
        decreases n,
    {
        if n == 0 {
            self
        } else {
            self.with_commits(start, (n - 1) as nat).with_commit(start + n - 1)
        }
    }
}

/// How many of the `n` positions from `start` on have been committed.
pub open spec fn committed_in(committed: Set<int>, start: int, n: nat) -> nat
    decreases n,
{
    if n == 0 {
        0
    } else {
        committed_in(committed, start, (n - 1) as nat) + if committed.contains(start + n - 1) {
            1nat
        } else {
            0nat
        }
    }
}

/// The state of a store with a FIFO sampler.
pub type FifoStore = StoreState<FifoState>;

/// A sample with one array for each slot of the ring, of the same width.
pub open spec fn whole_sample(s: FifoStore, arrays: Seq<Seq<u8>>) -> bool {
    &&& arrays.len() == s.widths.len()
    &&& forall|j: int| 0 <= j < arrays.len() ==> (#[trigger] arrays[j]).len() == s.widths[j]
}

/// The slot of position `pos` holds `arrays`.
pub open spec fn holds(s: FifoStore, pos: int, arrays: Seq<Seq<u8>>) -> bool {
    &&& arrays.len() == s.ring.len()
    &&& forall|j: int|
        0 <= j < arrays.len() ==> #[trigger] arrays[j] == s.ring[j][pos % s.capacity as int]
}

/// The dimensions fit together.
pub open spec fn shaped(s: FifoStore) -> bool {
    &&& 0 < s.batch_size
    &&& 0 < s.sampler.counts.len()
    &&& s.sampler.batch_size == s.batch_size
    &&& s.capacity == s.batch_size * s.sampler.counts.len()
    &&& s.ring.len() == s.widths.len()
    &&& forall|j: int| 0 <= j < s.ring.len() ==> (#[trigger] s.ring[j]).len() == s.capacity
    &&& forall|j: int, i: int|
        0 <= j < s.ring.len() && 0 <= i < s.capacity ==> (#[trigger] s.ring[j][i]).len()
            == s.widths[j]
}

/// The next batch to be sampled, counted from the first one ever.
pub open spec fn next_batch(s: FifoStore) -> int {
    s.sampler.read as int / s.batch_size as int
}

/// What every step keeps.
pub open spec fn sound(s: FifoStore, h: History) -> bool {
    &&& shaped(s)
    // The cursors: what the consumer holds, and the claimed positions.
    &&& s.sampler.read % s.batch_size == 0
    &&& s.sampler.read == s.freed + if s.has_previous {
        s.batch_size as int
    } else {
        0
    }
    &&& s.sampler.read <= s.write <= s.freed + s.capacity
    // Only claimed positions are committed, and all that were sampled.
    &&& forall|p: int| #[trigger] h.committed.contains(p) ==> 0 <= p < s.write
    &&& forall|p: int| 0 <= p < s.sampler.read ==> #[trigger] h.committed.contains(p)
    // The sampler counts the commits of every batch that may be in the ring.
    &&& forall|b: int|
        next_batch(s) <= b < next_batch(s) + s.sampler.counts.len() ==> s.sampler.counts[b
            % s.sampler.counts.len() as int] == #[trigger] committed_in(
            h.committed,
            b * s.batch_size,
            s.batch_size as nat,
        )
    // Its counts add up to the commits that are not sampled.
    &&& h.committed.finite()
    &&& s.sampler.read + sum_usize(s.sampler.counts) == h.committed.len()
    // What was copied for a position is there, until the position is released.
    &&& forall|p: int| #[trigger] h.committed.contains(p) ==> h.data.contains_key(p)
    &&& forall|p: int| #[trigger]
        h.data.contains_key(p) && s.freed <= p ==> p < s.write && holds(s, p, h.data[p])
}

/// At most all positions are committed, and all are if the count says so.
pub proof fn lemma_committed_bound(committed: Set<int>, start: int, n: nat)
    ensures
        committed_in(committed, start, n) <= n,
        committed_in(committed, start, n) == n <==> forall|p: int|
            start <= p < start + n ==> #[trigger] committed.contains(p),
        (forall|p: int| start <= p < start + n ==> !#[trigger] committed.contains(p)) ==>
            committed_in(committed, start, n) == 0,
    decreases n,
{
    if n > 0 {
        let fewer = (n - 1) as nat;
        lemma_committed_bound(committed, start, fewer);
        if committed_in(committed, start, n) == n {
            assert forall|p: int| start <= p < start + n implies #[trigger] committed.contains(
                p,
            ) by {
                assert(committed.contains(start + n - 1));
            }
        }
        if forall|p: int| start <= p < start + n ==> #[trigger] committed.contains(p) {
            assert(committed.contains(start + n - 1));
        }
    }
}

/// Committing a position adds one to the count of the range that it is in.
pub proof fn lemma_committed_insert(committed: Set<int>, pos: int, start: int, n: nat)
    requires
        !committed.contains(pos),
    ensures
        committed_in(committed.insert(pos), start, n) == committed_in(committed, start, n)
            + if start <= pos < start + n {
            1nat
        } else {
            0nat
        },
    decreases n,
{
    if n > 0 {
        lemma_committed_insert(committed, pos, start, (n - 1) as nat);
    }
}

/// A claimed position that is not sampled yet lies in one of the batches that
/// the sampler counts.
proof fn lemma_batch_of(s: FifoStore, h: History, pos: int)
    requires
        sound(s, h),
        s.sampler.read <= pos < s.write,
    ensures
        next_batch(s) <= pos / s.batch_size as int,
        (pos / s.batch_size as int) < next_batch(s) + s.sampler.counts.len(),
        (pos / s.batch_size as int) * s.batch_size <= pos,
        pos < (pos / s.batch_size as int) * s.batch_size + s.batch_size,
{
    let bs = s.batch_size as int;
    let nb = s.sampler.counts.len() as int;
    let b = pos / bs;
    let b0 = next_batch(s);
    vstd::arithmetic::div_mod::lemma_fundamental_div_mod(pos, bs);
    vstd::arithmetic::div_mod::lemma_mod_bound(pos, bs);
    vstd::arithmetic::div_mod::lemma_fundamental_div_mod(s.sampler.read as int, bs);
    assert(b * bs == bs * b && b0 * bs == bs * b0) by (nonlinear_arith);
    assert(pos < s.sampler.read + s.capacity);
    assert(b0 <= b) by (nonlinear_arith)
        requires
            b0 * bs <= pos < b * bs + bs,
            0 < bs,
    ;
    assert(b < b0 + nb) by (nonlinear_arith)
        requires
            b * bs <= pos,
            pos < b0 * bs + bs * nb,
            0 < bs,
    ;
}

/// An empty store is sound before anything has happened.
pub proof fn lemma_sound_start(s: FifoStore)
    requires
        shaped(s),
        s.write == 0,
        s.freed == 0,
        s.sampler.read == 0,
        !s.has_previous,
        forall|i: int| 0 <= i < s.sampler.counts.len() ==> #[trigger] s.sampler.counts[i] == 0,
    ensures
        sound(s, History::start()),
{
    let h = History::start();
    lemma_sum_zeros(s.sampler.counts);
    vstd::arithmetic::div_mod::lemma_small_mod(0, s.batch_size as nat);
    assert forall|b: int|
        next_batch(s) <= b < next_batch(s) + s.sampler.counts.len() implies s.sampler.counts[b
        % s.sampler.counts.len() as int] == #[trigger] committed_in(
        h.committed,
        b * s.batch_size,
        s.batch_size as nat,
    ) by {
        lemma_committed_bound(h.committed, b * s.batch_size, s.batch_size as nat);
        vstd::arithmetic::div_mod::lemma_mod_bound(b, s.sampler.counts.len() as int);
    }
}

/// A claim keeps the store sound. It takes positions that were never claimed
/// before, inside one batch, and whose slots belong to no position that is not
/// released.
pub proof fn lemma_claim_sound(s: FifoStore, h: History, want: nat)
    requires
        sound(s, h),
        s.write + s.claim(want as int) <= usize::MAX,
    ensures
        sound(s.claimed(s.claim(want as int)), h),
        0 <= s.claim(want as int) <= want,
        s.write as int % s.batch_size as int + s.claim(want as int) <= s.batch_size,
        forall|p: int|
            s.write <= p < s.write + s.claim(want as int) ==> !#[trigger] h.committed.contains(p),
        forall|p: int, q: int|
            s.write <= p < s.write + s.claim(want as int) && s.freed <= q < s.write ==> #[trigger] (p
                % s.capacity as int) != #[trigger] (q % s.capacity as int),
{
    let n = s.claim(want as int);
    vstd::arithmetic::div_mod::lemma_mod_bound(s.write as int, s.batch_size as int);
    assert(s.used() == s.write - s.freed);
    assert forall|p: int, q: int|
        s.write <= p < s.write + n && s.freed <= q < s.write implies #[trigger] (p
        % s.capacity as int) != #[trigger] (q % s.capacity as int) by {
        lemma_distinct_remainders(p, q, s.freed as int, s.capacity as int);
    }
    let after = s.claimed(n);
    assert(after.sampler == s.sampler && after.ring == s.ring);
    assert forall|p: int| #[trigger]
        h.data.contains_key(p) && after.freed <= p implies p < after.write && holds(
        after,
        p,
        h.data[p],
    ) by {
        assert(holds(s, p, h.data[p]));
    }
}

/// A copy for a claimed position that is not committed keeps the store sound:
/// the sample is in the slot of its position, and every other position that is
/// not released still has what was copied for it.
pub proof fn lemma_copy_sound(s: FifoStore, h: History, pos: int, arrays: Seq<Seq<u8>>)
    requires
        sound(s, h),
        s.sampler.read <= pos < s.write,
        !h.committed.contains(pos),
        whole_sample(s, arrays),
    ensures
        sound(s.filled(pos, seq![arrays]), h.copied(pos, arrays)),
        holds(s.filled(pos, seq![arrays]), pos, arrays),
{
    let one = seq![arrays];
    let cap = s.capacity as int;
    let after = s.filled(pos, one);
    let slot = pos % cap;
    vstd::arithmetic::div_mod::lemma_mod_bound(pos, cap);
    assert(one.drop_last() =~= Seq::<Seq<Seq<u8>>>::empty());
    assert(ring_with(s.ring, cap, pos, one.drop_last()) == s.ring);
    assert(after.ring == placed(s.ring, slot, arrays));
    assert forall|j: int| 0 <= j < arrays.len() implies overlaid(
        s.ring[j][slot],
        #[trigger] arrays[j],
    ) == arrays[j] by {
        assert(s.ring[j][slot].len() == s.widths[j]);
        assert(overlaid(s.ring[j][slot], arrays[j]) =~= arrays[j]);
    }
    assert(holds(after, pos, arrays));
    let h2 = h.copied(pos, arrays);
    assert forall|p: int| #[trigger]
        h2.data.contains_key(p) && after.freed <= p implies p < after.write && holds(
        after,
        p,
        h2.data[p],
    ) by {
        if p != pos {
            assert(holds(s, p, h.data[p]));
            lemma_distinct_remainders(p, pos, s.freed as int, cap);
            vstd::arithmetic::div_mod::lemma_mod_bound(p, cap);
        }
    }
}

/// Committing a claimed position that was copied keeps the store sound. The
/// consumer is woken if and only if this completes the batch of the position.
pub proof fn lemma_commit_sound(s: FifoStore, h: History, pos: int)
    requires
        sound(s, h),
        s.sampler.read <= pos < s.write,
        !h.committed.contains(pos),
        h.data.contains_key(pos),
    ensures
        sound(run_committed::<FifoSampler>(s, pos, 1), h.with_commit(pos)),
        FifoSampler::wakes(s.sampler, pos) <==> forall|q: int|
            (pos / s.batch_size as int) * s.batch_size <= q < (pos / s.batch_size as int)
                * s.batch_size + s.batch_size ==> #[trigger] h.with_commit(pos).committed.contains(
                q,
            ),
{
    let bs = s.batch_size as int;
    let nb = s.sampler.counts.len() as int;
    let b = pos / bs;
    let h2 = h.with_commit(pos);
    let after = run_committed::<FifoSampler>(s, pos, 1);
    let id = b % nb;
    lemma_batch_of(s, h, pos);
    vstd::arithmetic::div_mod::lemma_mod_bound(b, nb);
    assert(commit_all::<FifoSampler>(s.sampler, pos, 0) == s.sampler);
    assert(after.sampler == FifoSampler::committed(s.sampler, pos));
    let count = committed_in(h.committed, b * bs, bs as nat);
    assert(s.sampler.counts[id] == count);
    lemma_committed_insert(h.committed, pos, b * bs, bs as nat);
    lemma_sum_update(s.sampler.counts, id, s.sampler.counts[id].wrapping_add(1));
    lemma_committed_bound(h2.committed, b * bs, bs as nat);
    assert forall|c: int|
        next_batch(after) <= c < next_batch(after) + after.sampler.counts.len() implies
        after.sampler.counts[c % after.sampler.counts.len() as int] == #[trigger] committed_in(
        h2.committed,
        c * after.batch_size,
        after.batch_size as nat,
    ) by {
        vstd::arithmetic::div_mod::lemma_mod_bound(c, nb);
        assert(s.sampler.counts[c % nb] == committed_in(h.committed, c * bs, bs as nat));
        lemma_committed_insert(h.committed, pos, c * bs, bs as nat);
        if c != b {
            lemma_distinct_remainders(c, b, next_batch(s), nb);
            if c < b {
                assert(c * bs + bs <= b * bs) by (nonlinear_arith)
                    requires
                        c + 1 <= b,
                        0 < bs,
                ;
            } else {
                assert(b * bs + bs <= c * bs) by (nonlinear_arith)
                    requires
                        b + 1 <= c,
                        0 < bs,
                ;
            }
        }
    }
    assert forall|p: int| #[trigger]
        h2.data.contains_key(p) && after.freed <= p implies p < after.write && holds(
        after,
        p,
        h2.data[p],
    ) by {
        assert(holds(s, p, h.data[p]));
    }
}

/// Giving back the batch that the consumer holds keeps the store sound, and
/// makes room for exactly one batch; giving it back again changes nothing.
/// Waiting writers are woken if and only if there was no room before.
pub proof fn lemma_release_sound(s: FifoStore, h: History)
    requires
        sound(s, h),
    ensures
        sound(s.released(), h),
        s.released().available() == s.available() + if s.has_previous {
            s.batch_size as int
        } else {
            0
        },
        s.released().released() == s.released(),
        s.release_wakes() <==> s.has_previous && s.available() == 0,
{
    let after = s.released();
    assert(s.used() == s.write - s.freed);
    assert(after.used() == after.write - after.freed);
    assert forall|p: int| #[trigger]
        h.data.contains_key(p) && after.freed <= p implies p < after.write && holds(
        after,
        p,
        h.data[p],
    ) by {
        assert(holds(s, p, h.data[p]));
    }
}

/// Sampling keeps the store sound. The consumer gets a batch if and only if
/// all positions of the next batch are committed; it then gets exactly what
/// was copied for those positions, in order, in adjacent slots. Positions never
/// run out on the way.
pub proof fn lemma_sample_sound(s: FifoStore, h: History)
    requires
        sound(s, h),
    ensures
        FifoSampler::has_room(s.sampler),
        FifoSampler::selected(s.sampler) is Some <==> forall|p: int|
            s.sampler.read <= p < s.sampler.read + s.batch_size ==> #[trigger] h.committed.contains(
                p,
            ),
        FifoSampler::selected(s.sampler) matches Some(
            (after, SampleResult::Contiguous { start, count }),
        ) ==> {
            let sampled = StoreState { sampler: after, has_previous: true, ..s.released() };
            &&& sound(sampled, h)
            &&& after.read == s.sampler.read + s.batch_size
            &&& start == s.sampler.read as int % s.capacity as int
            &&& count == s.batch_size
            &&& start + count <= s.capacity
            &&& forall|i: int, j: int|
                0 <= i < count && 0 <= j < s.widths.len() ==> #[trigger] s.ring[j][start + i]
                    == h.data[s.sampler.read + i][j]
        },
{
    let bs = s.batch_size as int;
    let nb = s.sampler.counts.len() as int;
    let b = next_batch(s);
    let read = s.sampler.read as int;
    let rel = s.released();
    lemma_release_sound(s, h);
    vstd::arithmetic::div_mod::lemma_fundamental_div_mod(read, bs);
    assert(read == b * bs) by (nonlinear_arith)
        requires
            read == bs * b,
    ;
    vstd::arithmetic::div_mod::lemma_mod_bound(b, nb);
    lemma_committed_bound(h.committed, read, bs as nat);
    assert(s.sampler.counts[b % nb] == committed_in(h.committed, b * bs, bs as nat));
    if let Some((after, SampleResult::Contiguous { start, count })) = FifoSampler::selected(
        s.sampler,
    ) {
        let sampled = StoreState { sampler: after, has_previous: true, ..rel };
        assert(h.committed.contains(read + bs - 1));
        lemma_batch_in_range(read, bs, nb);
        lemma_sum_update(s.sampler.counts, b % nb, 0);
        assert(start == read % s.capacity as int);
        assert((read + bs) / bs == b + 1 && (read + bs) % bs == 0) by {
            assert((b + 1) * bs == b * bs + bs) by (nonlinear_arith);
            vstd::arithmetic::div_mod::lemma_fundamental_div_mod_converse(
                read + bs,
                bs,
                b + 1,
                0,
            );
        }
        assert forall|c: int|
            next_batch(sampled) <= c < next_batch(sampled) + sampled.sampler.counts.len() implies
            sampled.sampler.counts[c % sampled.sampler.counts.len() as int]
            == #[trigger] committed_in(
            h.committed,
            c * sampled.batch_size,
            sampled.batch_size as nat,
        ) by {
            vstd::arithmetic::div_mod::lemma_mod_bound(c, nb);
            if c < b + nb {
                lemma_distinct_remainders(c, b, b, nb);
                assert(s.sampler.counts[c % nb] == committed_in(h.committed, c * bs, bs as nat));
            } else {
                vstd::arithmetic::div_mod::lemma_mod_add_multiples_vanish(b, nb);
                assert(c * bs == read + s.capacity) by (nonlinear_arith)
                    requires
                        c == b + nb,
                        read == b * bs,
                        s.capacity == bs * nb,
                ;
                lemma_committed_bound(h.committed, c * bs, bs as nat);
            }
        }
        assert forall|i: int, j: int|
            0 <= i < count && 0 <= j < s.widths.len() implies #[trigger] s.ring[j][start + i]
            == h.data[read + i][j] by {
            assert(h.committed.contains(read + i));
            assert(h.data.contains_key(read + i));
            assert(holds(s, read + i, h.data[read + i]));
            lemma_same_batch(read, i, s.capacity as int);
            assert((read + i) % s.capacity as int == start + i);
            let arrays = h.data[read + i];
            assert(arrays[j] == s.ring[j][(read + i) % s.capacity as int]);
        }
        assert forall|p: int| #[trigger]
            h.data.contains_key(p) && sampled.freed <= p implies p < sampled.write && holds(
            sampled,
            p,
            h.data[p],
        ) by {
            assert(holds(rel, p, h.data[p]));
        }
    }
}

/// Copies for several claimed positions, none of them committed, keep the
/// store sound.
pub proof fn lemma_copies_sound(
    s: FifoStore,
    h: History,
    start: int,
    samples: Seq<Seq<Seq<u8>>>,
)
    requires
        sound(s, h),
        s.sampler.read <= start,
        start + samples.len() <= s.write,
        forall|p: int|
            start <= p < start + samples.len() ==> !#[trigger] h.committed.contains(p),
        forall|i: int| 0 <= i < samples.len() ==> whole_sample(s, #[trigger] samples[i]),
    ensures
        sound(s.filled(start, samples), h.all_copied(start, samples)),
        h.all_copied(start, samples).committed == h.committed,
        forall|p: int|
            start <= p < start + samples.len() ==> #[trigger] h.all_copied(
                start,
                samples,
            ).data.contains_key(p) && h.all_copied(start, samples).data[p] == samples[p - start],
        forall|p: int|
            !(start <= p < start + samples.len()) ==> (#[trigger] h.all_copied(
                start,
                samples,
            ).data.contains_key(p) <==> h.data.contains_key(p)) && (h.data.contains_key(p) ==>
                h.all_copied(start, samples).data[p] == h.data[p]),
    decreases samples.len(),
{
    if samples.len() == 0 {
        assert(s.filled(start, samples) == s);
    } else {
        let fewer = samples.drop_last();
        let pos = start + samples.len() - 1;
        lemma_copies_sound(s, h, start, fewer);
        let mid = s.filled(start, fewer);
        let one = seq![samples.last()];
        assert(whole_sample(mid, samples.last())) by {
            assert(whole_sample(s, samples[samples.len() - 1]));
        }
        lemma_copy_sound(mid, h.all_copied(start, fewer), pos, samples.last());
        assert(one.drop_last() =~= Seq::<Seq<Seq<u8>>>::empty());
        assert(ring_with(mid.ring, s.capacity as int, pos, one.drop_last()) == mid.ring);
        assert(mid.filled(pos, one) == s.filled(start, samples));
    }
}

/// Committing several claimed positions that were copied keeps the store
/// sound.
pub proof fn lemma_commits_sound(s: FifoStore, h: History, start: int, n: nat)
    requires
        sound(s, h),
        s.sampler.read <= start,
        start + n <= s.write,
        forall|p: int| start <= p < start + n ==> !#[trigger] h.committed.contains(p),
        forall|p: int| start <= p < start + n ==> #[trigger] h.data.contains_key(p),
    ensures
        sound(run_committed::<FifoSampler>(s, start, n), h.with_commits(start, n)),
        h.with_commits(start, n).data == h.data,
        forall|p: int| #[trigger]
            h.with_commits(start, n).committed.contains(p) <==> h.committed.contains(p) || start
                <= p < start + n,
    decreases n,
{
    if n == 0 {
        assert(run_committed::<FifoSampler>(s, start, n) == s);
    } else {
        let fewer = (n - 1) as nat;
        let pos = start + n - 1;
        lemma_commits_sound(s, h, start, fewer);
        let mid = run_committed::<FifoSampler>(s, start, fewer);
        lemma_commit_sound(mid, h.with_commits(start, fewer), pos);
        assert(commit_all::<FifoSampler>(mid.sampler, pos, 0) == mid.sampler);
        assert(run_committed::<FifoSampler>(mid, pos, 1) == run_committed::<FifoSampler>(
            s,
            start,
            n,
        ));
    }
}

/// While the consumer holds a batch, no writer touches it: a copy for a claimed
/// position that is not sampled leaves every slot of the batch as it is.
pub proof fn lemma_held_batch_stays(
    s: FifoStore,
    h: History,
    pos: int,
    arrays: Seq<Seq<u8>>,
    i: int,
    j: int,
)
    requires
        sound(s, h),
        s.has_previous,
        s.sampler.read <= pos < s.write,
        0 <= i < s.batch_size,
        0 <= j < s.widths.len(),
    ensures
        s.filled(pos, seq![arrays]).ring[j][(s.freed + i) % s.capacity as int] == s.ring[j][(
        s.freed + i) % s.capacity as int],
{
    let cap = s.capacity as int;
    let one = seq![arrays];
    assert(one.drop_last() =~= Seq::<Seq<Seq<u8>>>::empty());
    assert(ring_with(s.ring, cap, pos, one.drop_last()) == s.ring);
    assert(s.filled(pos, one).ring == placed(s.ring, pos % cap, arrays));
    lemma_distinct_remainders(s.freed + i, pos, s.freed as int, cap);
    vstd::arithmetic::div_mod::lemma_mod_bound(s.freed + i, cap);
    vstd::arithmetic::div_mod::lemma_mod_bound(pos, cap);
}

/// The consumer is woken exactly once per full batch: when positions are
/// committed in order, as often as a batch ends among them.
pub proof fn lemma_one_wake_per_batch(s: FifoStore, h: History, start: int, n: nat)
    requires
        sound(s, h),
        s.sampler.read <= start,
        start + n <= s.write,
        forall|p: int| #[trigger] h.committed.contains(p) <==> 0 <= p < start,
        forall|p: int| start <= p < start + n ==> #[trigger] h.data.contains_key(p),
    ensures
        wake_count::<FifoSampler>(s.sampler, start, n) == (start + n) / s.batch_size as int - start
            / s.batch_size as int,
    decreases n,
{
    if n > 0 {
        let bs = s.batch_size as int;
        let fewer = (n - 1) as nat;
        let pos = start + n - 1;
        let b = pos / bs;
        let mid = run_committed::<FifoSampler>(s, start, fewer);
        let before = h.with_commits(start, fewer);
        lemma_one_wake_per_batch(s, h, start, fewer);
        lemma_commits_sound(s, h, start, fewer);
        lemma_commit_sound(mid, before, pos);
        vstd::arithmetic::div_mod::lemma_fundamental_div_mod(pos, bs);
        vstd::arithmetic::div_mod::lemma_mod_bound(pos, bs);
        assert(bs * b == b * bs) by (nonlinear_arith);
        let after = before.with_commit(pos).committed;
        assert forall|p: int| #[trigger] after.contains(p) <==> 0 <= p <= pos by {
            assert(before.committed.contains(p) <==> h.committed.contains(p) || start <= p < pos);
        }
        if pos % bs == bs - 1 {
            assert(pos + 1 == (b + 1) * bs + 0) by (nonlinear_arith)
                requires
                    pos == b * bs + (bs - 1),
            ;
            vstd::arithmetic::div_mod::lemma_fundamental_div_mod_converse(pos + 1, bs, b + 1, 0);
            assert(0 <= b * bs) by (nonlinear_arith)
                requires
                    0 <= b,
                    0 < bs,
            ;
            assert(FifoSampler::wakes(mid.sampler, pos));
        } else {
            vstd::arithmetic::div_mod::lemma_fundamental_div_mod_converse(
                pos + 1,
                bs,
                b,
                pos % bs + 1,
            );
            assert(!after.contains(b * bs + bs - 1));
            assert(!FifoSampler::wakes(mid.sampler, pos));
        }
    }
}

/// Storing samples that there is room for keeps the store sound: the sample
/// number `i` is committed at position `write + i`, and earlier positions keep
/// what was copied for them.
pub proof fn lemma_stored_sound(s: FifoStore, h: History, samples: Seq<Seq<Seq<u8>>>)
    requires
        sound(s, h),
        samples.len() <= s.available(),
        s.write + samples.len() <= usize::MAX,
        forall|i: int| 0 <= i < samples.len() ==> whole_sample(s, #[trigger] samples[i]),
    ensures
        ({
            let after = h.all_copied(s.write as int, samples).with_commits(
                s.write as int,
                samples.len(),
            );
            &&& sound(stored::<FifoSampler>(s, samples), after)
            &&& forall|p: int| #[trigger]
                after.data.contains_key(p) <==> h.data.contains_key(p) || s.write <= p < s.write
                    + samples.len()
            &&& forall|p: int| #[trigger]
                after.committed.contains(p) <==> h.committed.contains(p) || s.write <= p < s.write
                    + samples.len()
            &&& forall|p: int|
                s.write <= p < s.write + samples.len() ==> #[trigger] after.data[p] == samples[p
                    - s.write]
            &&& forall|p: int| #[trigger]
                h.data.contains_key(p) ==> after.data[p] == h.data[p]
        }),
{
    let n = samples.len();
    let w = s.write as int;
    let claimed = s.claimed(n as int);
    assert(s.used() == s.write - s.freed);
    assert(sound(claimed, h)) by {
        assert(claimed.sampler == s.sampler && claimed.ring == s.ring);
        assert forall|p: int| #[trigger]
            h.data.contains_key(p) && claimed.freed <= p implies p < claimed.write && holds(
            claimed,
            p,
            h.data[p],
        ) by {
            assert(holds(s, p, h.data[p]));
        }
    }
    assert forall|i: int| 0 <= i < samples.len() implies whole_sample(
        claimed,
        #[trigger] samples[i],
    ) by {
        assert(whole_sample(s, samples[i]));
    }
    lemma_copies_sound(claimed, h, w, samples);
    let copied = h.all_copied(w, samples);
    lemma_commits_sound(claimed.filled(w, samples), copied, w, n);
    let after = copied.with_commits(w, n);
    assert forall|p: int| w <= p < w + n implies #[trigger] after.data[p] == samples[p - w] by {
        assert(copied.data.contains_key(p));
    }
    assert forall|p: int| #[trigger] h.data.contains_key(p) implies after.data[p] == h.data[p] by {
        assert(!(w <= p < w + n));
        assert(copied.data.contains_key(p) <==> h.data.contains_key(p));
    }
    assert forall|p: int| #[trigger]
        after.data.contains_key(p) <==> h.data.contains_key(p) || w <= p < w + n by {
        assert(copied.data.contains_key(p) == after.data.contains_key(p));
    }
}

/// The bytes that a view of the sampled batch shows for one array are those
/// that were copied for the positions of the batch, in order.
pub proof fn lemma_view_in_order(s: FifoStore, h: History, j: int)
    requires
        sound(s, h),
        0 <= j < s.widths.len(),
    ensures
        FifoSampler::selected(s.sampler) matches Some(
            (after, SampleResult::Contiguous { start, count }),
        ) ==> joined(s.ring[j].subrange(start as int, start + count)) == joined(
            Seq::new(s.batch_size as nat, |i: int| h.data[s.sampler.read + i][j]),
        ),
{
    lemma_sample_sound(s, h);
    if let Some((after, SampleResult::Contiguous { start, count })) = FifoSampler::selected(
        s.sampler,
    ) {
        let shown = s.ring[j].subrange(start as int, start + count);
        let copied = Seq::new(s.batch_size as nat, |i: int| h.data[s.sampler.read + i][j]);
        assert forall|i: int| 0 <= i < shown.len() implies shown[i] == copied[i] by {
            assert(s.ring[j][start + i] == h.data[s.sampler.read + i][j]);
        }
        assert(shown =~= copied);
    }
}

/// The size that a store reports is the number of positions committed and not
/// sampled.
pub proof fn lemma_size(s: FifoStore, h: History)
    requires
        sound(s, h),
    ensures
        FifoSampler::queued(s.sampler) == h.committed.len() - s.sampler.read,
        FifoSampler::queued(s.sampler) <= s.capacity,
{
    let claimed = vstd::set_lib::set_int_range(0, s.write as int);
    vstd::set_lib::lemma_int_range(0, s.write as int);
    assert(h.committed.subset_of(claimed));
    vstd::set_lib::lemma_len_subset(h.committed, claimed);
    lemma_wrap_small(sum_usize(s.sampler.counts));
}

impl History {
    /// What has been done when the samples of `log` were stored, one after the
    /// other, and no position is claimed beyond them.
    pub open spec fn of_log(log: Seq<Seq<Seq<u8>>>) -> History {
        History {
            committed: vstd::set_lib::set_int_range(0, log.len() as int),
            data: Map::new(|p: int| 0 <= p < log.len(), |p: int| log[p]),
        }
    }
}

/// Before anything was stored, nothing has happened.
pub proof fn lemma_empty_log()
    ensures
        History::of_log(Seq::empty()) == History::start(),
{
    assert(History::of_log(Seq::empty()).committed =~= History::start().committed);
    assert(History::of_log(Seq::empty()).data =~= History::start().data);
}

/// A sample with enough bytes, cut into arrays of the widths of the slots, is
/// whole.
pub proof fn lemma_pieces_whole(s: FifoStore, sample: Seq<u8>)
    requires
        sum_usize(s.widths) <= sample.len(),
    ensures
        whole_sample(s, pieces(sample, s.widths)),
{
    assert forall|j: int| 0 <= j < s.widths.len() implies (#[trigger] pieces(
        sample,
        s.widths,
    )[j]).len() == s.widths[j] by {
        lemma_prefix_sum(s.widths, j + 1);
        assert(s.widths.take(j + 1).drop_last() =~= s.widths.take(j));
    }
}

/// A well-formed store with a FIFO sampler has dimensions that fit together.
pub proof fn lemma_shaped<R: Remover>(store: &Store<FifoSampler, R>)
    requires
        store.wf(),
    ensures
        shaped(store@),
{
    store.lemma_dimensions();
    assert(store@.batch_size * 0 == 0);
}

/// Storing samples extends the log.
pub proof fn lemma_log_grows(
    s: FifoStore,
    log: Seq<Seq<Seq<u8>>>,
    samples: Seq<Seq<Seq<u8>>>,
)
    requires
        sound(s, History::of_log(log)),
        s.write == log.len(),
        samples.len() <= s.available(),
        s.write + samples.len() <= usize::MAX,
        forall|i: int| 0 <= i < samples.len() ==> whole_sample(s, #[trigger] samples[i]),
    ensures
        sound(stored::<FifoSampler>(s, samples), History::of_log(log + samples)),
        stored::<FifoSampler>(s, samples).write == (log + samples).len(),
{
    let h = History::of_log(log);
    lemma_stored_sound(s, h, samples);
    let after = h.all_copied(s.write as int, samples).with_commits(s.write as int, samples.len());
    let grown = History::of_log(log + samples);
    assert(after.committed =~= grown.committed);
    assert forall|p: int| after.data.contains_key(p) implies #[trigger] after.data[p]
        == grown.data[p] by {
        if p < s.write {
            assert(h.data.contains_key(p));
        }
    }
    assert(after.data =~= grown.data);
}

/// First in, first out, in whole batches, nothing lost and nothing twice: of
/// the samples stored so far, the consumer gets those that follow the ones it
/// already got, as soon as they make up a batch.
pub proof fn lemma_first_in_first_out(s: FifoStore, log: Seq<Seq<Seq<u8>>>, j: int)
    requires
        sound(s, History::of_log(log)),
        s.write == log.len(),
        0 <= j < s.widths.len(),
    ensures
        FifoSampler::queued(s.sampler) == log.len() - s.sampler.read,
        FifoSampler::selected(s.sampler) is Some <==> s.sampler.read + s.batch_size <= log.len(),
        FifoSampler::selected(s.sampler) matches Some(
            (after, SampleResult::Contiguous { start, count }),
        ) ==> {
            &&& after.read == s.sampler.read + s.batch_size
            &&& joined(s.ring[j].subrange(start as int, start + count)) == joined(
                log.subrange(
                    s.sampler.read as int,
                    s.sampler.read + s.batch_size,
                ).map_values(|arrays: Seq<Seq<u8>>| arrays[j]),
            )
            &&& sound(
                StoreState { sampler: after, has_previous: true, ..s.released() },
                History::of_log(log),
            )
        },
{
    let h = History::of_log(log);
    let read = s.sampler.read as int;
    let bs = s.batch_size as int;
    lemma_size(s, h);
    vstd::set_lib::lemma_int_range(0, log.len() as int);
    lemma_sample_sound(s, h);
    lemma_view_in_order(s, h, j);
    if forall|p: int| read <= p < read + bs ==> #[trigger] h.committed.contains(p) {
        assert(h.committed.contains(read + bs - 1));
        assert(log.subrange(read, read + bs).map_values(|arrays: Seq<Seq<u8>>| arrays[j])
            =~= Seq::new(s.batch_size as nat, |i: int| h.data[read + i][j]));
    }
}

} // verus!
