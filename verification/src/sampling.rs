//! Whole runs of a FIFO sampler that is used on its own: any number of commits
//! and selections, from a new sampler on.

use crate::arith::{
    lemma_distinct_remainders, lemma_sum_update, lemma_sum_zeros, lemma_wrap_small, sum_usize,
};
use crate::protocol::{committed_in, lemma_committed_bound, lemma_committed_insert};
use crate::selector::{
    commit_all, lemma_batch_in_range, wake_count, FifoSampler, FifoState, SampleResult,
    SamplerModel,
};
use vstd::prelude::*;

verus! {

/// One call on a sampler.
pub enum SamplerCall {
    /// A position is committed.
    Commit { pos: int },
    /// The `n` positions from `start` on are committed together.
    CommitBatch { start: int, n: nat },
    /// A batch is asked for.
    Select,
}

/// A sampler in the course of calls.
#[verifier::ext_equal]
pub struct SamplerRun {
    pub state: FifoState,
    /// The positions committed so far.
    pub committed: Set<int>,
    /// How many positions were committed.
    pub commits: nat,
    /// How many batches were selected.
    pub selects: nat,
    /// How often the consumer was to be woken.
    pub wakes: nat,
}

impl SamplerRun {
    /// A new sampler over `capacity` slots.
    pub open spec fn start(batch_size: usize, capacity: usize) -> SamplerRun {
        SamplerRun {
            state: FifoState {
                counts: Seq::new((capacity / batch_size) as nat, |i: int| 0usize),
                read: 0,
                batch_size,
                shutdown: false,
            },
            committed: Set::empty(),
            commits: 0,
            selects: 0,
            wakes: 0,
        }
    }

    /// A position that may be committed: not committed before, and not so far
    /// ahead of the consumer that its slot still belongs to another position.
    pub open spec fn free(self, pos: int) -> bool {
        &&& 0 <= pos < self.state.read + FifoSampler::span(self.state)
        &&& !self.committed.contains(pos)
    }

    /// What is asked of a call. Positions committed together lie in one batch,
    /// and the cursor of the sampler must not run out.
    pub open spec fn allowed(self, call: SamplerCall) -> bool {
        match call {
            SamplerCall::Commit { pos } => self.free(pos),
            SamplerCall::CommitBatch { start, n } => {
                &&& 0 <= start
                &&& start % self.state.batch_size as int + n <= self.state.batch_size
                &&& forall|p: int| start <= p < start + n ==> #[trigger] self.free(p)
            },
            SamplerCall::Select => FifoSampler::has_room(self.state),
        }
    }

    /// After one call.
    pub open spec fn after(self, call: SamplerCall) -> SamplerRun {
        match call {
            SamplerCall::Commit { pos } => SamplerRun {
                state: FifoSampler::committed(self.state, pos),
                committed: self.committed.insert(pos),
                commits: self.commits + 1,
                wakes: self.wakes + if FifoSampler::wakes(self.state, pos) {
                    1nat
                } else {
                    0nat
                },
                ..self
            },
            SamplerCall::CommitBatch { start, n } => SamplerRun {
                state: commit_all::<FifoSampler>(self.state, start, n),
                committed: self.committed.union(
                    vstd::set_lib::set_int_range(start, start + n),
                ),
                commits: self.commits + n,
                wakes: self.wakes + wake_count::<FifoSampler>(self.state, start, n),
                ..self
            },
            SamplerCall::Select => match FifoSampler::selected(self.state) {
                Some((after, _)) => SamplerRun {
                    state: after,
                    selects: self.selects + 1,
                    ..self
                },
                None => self,
            },
        }
    }

    /// After several calls.
    pub open spec fn after_all(self, calls: Seq<SamplerCall>) -> SamplerRun
        decreases calls.len(),
    {
        if calls.len() == 0 {
            self
        } else {
            self.after_all(calls.drop_last()).after(calls.last())
        }
    }

    /// Every call is allowed where it is made.
    pub open spec fn all_allowed(self, calls: Seq<SamplerCall>) -> bool
        decreases calls.len(),
    {
        if calls.len() == 0 {
            true
        } else {
            self.all_allowed(calls.drop_last()) && self.after_all(calls.drop_last()).allowed(
                calls.last(),
            )
        }
    }

    /// The next batch to be selected, counted from the first one ever.
    pub open spec fn next_batch(self) -> int {
        self.state.read as int / self.state.batch_size as int
    }

    /// What every call keeps.
    pub open spec fn counted(self) -> bool {
        let s = self.state;
        &&& 0 < s.batch_size
        &&& 0 < s.counts.len()
        &&& FifoSampler::span(s) <= usize::MAX
        &&& s.read % s.batch_size == 0
        &&& s.read == s.batch_size * self.selects
        &&& forall|p: int| #[trigger]
            self.committed.contains(p) ==> 0 <= p < s.read + FifoSampler::span(s)
        &&& forall|p: int| 0 <= p < s.read ==> #[trigger] self.committed.contains(p)
        &&& forall|b: int|
            self.next_batch() <= b < self.next_batch() + s.counts.len() ==> s.counts[b
                % s.counts.len() as int] == #[trigger] committed_in(
                self.committed,
                b * s.batch_size,
                s.batch_size as nat,
            )
        &&& self.committed.finite()
        &&& self.commits == self.committed.len()
        &&& s.read + sum_usize(s.counts) == self.commits
    }
}

/// The calls that commit `n` positions from `start` on, one by one.
pub open spec fn single_commits(start: int, n: nat) -> Seq<SamplerCall> {
    Seq::new(n, |i: int| SamplerCall::Commit { pos: start + i })
}

/// Committing positions together is committing them one by one: the sampler,
/// what it reports, and the wake-ups are the same, and so is all that follows.
pub proof fn lemma_commit_batch_one_by_one(r: SamplerRun, start: int, n: nat)
    ensures
        r.after(SamplerCall::CommitBatch { start, n }) == r.after_all(single_commits(start, n)),
    decreases n,
{
    let calls = single_commits(start, n);
    let range = vstd::set_lib::set_int_range(start, start + n);
    if n == 0 {
        assert(r.committed.union(range) =~= r.committed);
        assert(r.after(SamplerCall::CommitBatch { start, n }) =~= r);
    } else {
        let fewer = (n - 1) as nat;
        lemma_commit_batch_one_by_one(r, start, fewer);
        assert(calls.drop_last() =~= single_commits(start, fewer));
        assert(r.committed.union(range) =~= r.committed.union(
            vstd::set_lib::set_int_range(start, start + fewer),
        ).insert(start + fewer));
        assert(r.after(SamplerCall::CommitBatch { start, n }) =~= r.after_all(calls));
    }
}

/// A new sampler has counted nothing.
proof fn lemma_start_counted(batch_size: usize, capacity: usize)
    requires
        0 < batch_size,
        0 < capacity,
        capacity % batch_size == 0,
    ensures
        SamplerRun::start(batch_size, capacity).counted(),
        FifoSampler::span(SamplerRun::start(batch_size, capacity).state) == capacity,
{
    let r = SamplerRun::start(batch_size, capacity);
    let s = r.state;
    let bs = batch_size as int;
    vstd::arithmetic::div_mod::lemma_fundamental_div_mod(capacity as int, bs);
    assert(bs * 0 == 0);
    vstd::arithmetic::div_mod::lemma_small_mod(0, batch_size as nat);
    lemma_sum_zeros(s.counts);
    assert forall|b: int|
        r.next_batch() <= b < r.next_batch() + s.counts.len() implies s.counts[b
        % s.counts.len() as int] == #[trigger] committed_in(
        r.committed,
        b * s.batch_size,
        s.batch_size as nat,
    ) by {
        lemma_committed_bound(r.committed, b * s.batch_size, s.batch_size as nat);
        vstd::arithmetic::div_mod::lemma_mod_bound(b, s.counts.len() as int);
    }
}

/// A position that may be committed lies in one of the batches that are
/// counted.
proof fn lemma_free_batch(r: SamplerRun, pos: int)
    requires
        r.counted(),
        r.free(pos),
    ensures
        r.next_batch() <= pos / r.state.batch_size as int,
        (pos / r.state.batch_size as int) < r.next_batch() + r.state.counts.len(),
        (pos / r.state.batch_size as int) * r.state.batch_size <= pos,
        pos < (pos / r.state.batch_size as int) * r.state.batch_size + r.state.batch_size,
{
    let bs = r.state.batch_size as int;
    let nb = r.state.counts.len() as int;
    let b = pos / bs;
    let b0 = r.next_batch();
    assert(r.state.read <= pos);
    vstd::arithmetic::div_mod::lemma_fundamental_div_mod(pos, bs);
    vstd::arithmetic::div_mod::lemma_mod_bound(pos, bs);
    vstd::arithmetic::div_mod::lemma_fundamental_div_mod(r.state.read as int, bs);
    assert(b * bs == bs * b && b0 * bs == bs * b0) by (nonlinear_arith);
    assert(b0 <= b) by (nonlinear_arith)
        requires
            b0 * bs <= pos < b * bs + bs,
            0 < bs,
    ;
    assert(b < b0 + nb) by (nonlinear_arith)
        requires
            b * bs <= pos,
            pos < b0 * bs + bs * nb,
            0 < bs,
    ;
}

/// A commit is counted, in its batch and in all.
proof fn lemma_commit_counted(r: SamplerRun, pos: int)
    requires
        r.counted(),
        r.free(pos),
    ensures
        r.after(SamplerCall::Commit { pos }).counted(),
{
    let s = r.state;
    let bs = s.batch_size as int;
    let nb = s.counts.len() as int;
    let b = pos / bs;
    let id = b % nb;
    let after = r.after(SamplerCall::Commit { pos });
    lemma_free_batch(r, pos);
    vstd::arithmetic::div_mod::lemma_mod_bound(b, nb);
    assert(s.counts[id] == committed_in(r.committed, b * bs, bs as nat));
    lemma_committed_insert(r.committed, pos, b * bs, bs as nat);
    lemma_committed_bound(after.committed, b * bs, bs as nat);
    lemma_sum_update(s.counts, id, s.counts[id].wrapping_add(1));
    assert forall|c: int|
        after.next_batch() <= c < after.next_batch() + after.state.counts.len() implies
        after.state.counts[c % after.state.counts.len() as int] == #[trigger] committed_in(
        after.committed,
        c * after.state.batch_size,
        after.state.batch_size as nat,
    ) by {
        vstd::arithmetic::div_mod::lemma_mod_bound(c, nb);
        assert(s.counts[c % nb] == committed_in(r.committed, c * bs, bs as nat));
        lemma_committed_insert(r.committed, pos, c * bs, bs as nat);
        if c != b {
            lemma_distinct_remainders(c, b, r.next_batch(), nb);
            if c < b {
                assert(c * bs + bs <= b * bs) by (nonlinear_arith)
                    requires
                        c + 1 <= b,
                        0 < bs,
                ;
            } else {
                assert(b * bs + bs <= c * bs) by (nonlinear_arith)
                    requires
                        b + 1 <= c,
                        0 < bs,
                ;
            }
        }
    }
}

/// Commits one by one are counted.
proof fn lemma_commits_counted(r: SamplerRun, start: int, n: nat)
    requires
        r.counted(),
        forall|p: int| start <= p < start + n ==> #[trigger] r.free(p),
    ensures
        r.after_all(single_commits(start, n)).counted(),
        r.after_all(single_commits(start, n)).state.read == r.state.read,
        FifoSampler::span(r.after_all(single_commits(start, n)).state) == FifoSampler::span(
            r.state,
        ),
        forall|p: int| #[trigger]
            r.after_all(single_commits(start, n)).committed.contains(p) <==> r.committed.contains(
                p,
            ) || start <= p < start + n,
    decreases n,
{
    if n > 0 {
        let fewer = (n - 1) as nat;
        let pos = start + n - 1;
        let calls = single_commits(start, n);
        assert forall|p: int| start <= p < start + fewer implies #[trigger] r.free(p) by {}
        lemma_commits_counted(r, start, fewer);
        assert(calls.drop_last() =~= single_commits(start, fewer));
        let mid = r.after_all(single_commits(start, fewer));
        assert(r.free(pos));
        lemma_commit_counted(mid, pos);
        let after = r.after_all(calls);
        assert(after == mid.after(SamplerCall::Commit { pos }));
        assert(after.committed == mid.committed.insert(pos));
    }
}

/// When a batch is ready, and what is selected then.
proof fn lemma_selection(r: SamplerRun)
    requires
        r.counted(),
    ensures
        ({
            let s = r.state;
            let cap = FifoSampler::span(s) as int;
            &&& FifoSampler::selected(s) is Some <==> forall|p: int|
                s.read <= p < s.read + s.batch_size ==> #[trigger] r.committed.contains(p)
            &&& FifoSampler::selected(s) matches Some(
                (_, SampleResult::Contiguous { start, count }),
            ) ==> start == s.read as int % cap && count == s.batch_size && start + count <= cap
        }),
{
    let s = r.state;
    let bs = s.batch_size as int;
    let nb = s.counts.len() as int;
    let b = r.next_batch();
    let read = s.read as int;
    vstd::arithmetic::div_mod::lemma_fundamental_div_mod(read, bs);
    assert(read == b * bs) by (nonlinear_arith)
        requires
            read == bs * b,
    ;
    vstd::arithmetic::div_mod::lemma_mod_bound(b, nb);
    lemma_committed_bound(r.committed, read, bs as nat);
    assert(s.counts[b % nb] == committed_in(r.committed, b * bs, bs as nat));
    lemma_batch_in_range(read, bs, nb);
    assert(0 < bs * nb) by (nonlinear_arith)
        requires
            0 < bs,
            0 < nb,
    ;
    vstd::arithmetic::div_mod::lemma_mod_bound(read, bs * nb);
}

/// A selection takes one batch out of the count.
proof fn lemma_select_counted(r: SamplerRun)
    requires
        r.counted(),
        FifoSampler::has_room(r.state),
    ensures
        r.after(SamplerCall::Select).counted(),
{
    let s = r.state;
    lemma_selection(r);
    if FifoSampler::selected(s) is Some {
        let after = r.after(SamplerCall::Select);
        let bs = s.batch_size as int;
        let nb = s.counts.len() as int;
        let b = r.next_batch();
        let id = b % nb;
        let read = s.read as int;
        vstd::arithmetic::div_mod::lemma_mod_bound(b, nb);
        vstd::arithmetic::div_mod::lemma_fundamental_div_mod(read, bs);
        assert(read == b * bs && (b + 1) * bs == b * bs + bs) by (nonlinear_arith)
            requires
                read == bs * b,
        ;
        vstd::arithmetic::div_mod::lemma_fundamental_div_mod_converse(read + bs, bs, b + 1, 0);
        lemma_committed_bound(r.committed, read, bs as nat);
        assert(s.counts[id] == committed_in(r.committed, b * bs, bs as nat));
        lemma_sum_update(s.counts, id, 0);
        assert(s.batch_size * (r.selects + 1) == s.batch_size * r.selects + s.batch_size)
            by (nonlinear_arith);
        assert forall|c: int|
            after.next_batch() <= c < after.next_batch() + after.state.counts.len() implies
            after.state.counts[c % after.state.counts.len() as int] == #[trigger] committed_in(
            after.committed,
            c * after.state.batch_size,
            after.state.batch_size as nat,
        ) by {
            vstd::arithmetic::div_mod::lemma_mod_bound(c, nb);
            if c < b + nb {
                assert(s.counts[c % nb] == committed_in(r.committed, c * bs, bs as nat));
                lemma_distinct_remainders(c, b, b, nb);
            } else {
                vstd::arithmetic::div_mod::lemma_mod_add_multiples_vanish(b, nb);
                assert(c * bs == read + bs * nb) by (nonlinear_arith)
                    requires
                        c == b + nb,
                        read == b * bs,
                ;
                lemma_committed_bound(r.committed, c * bs, bs as nat);
            }
        }
    }
}

/// What holds of a sampler after any number of calls.
proof fn lemma_run_counted(batch_size: usize, capacity: usize, calls: Seq<SamplerCall>)
    requires
        0 < batch_size,
        0 < capacity,
        capacity % batch_size == 0,
        SamplerRun::start(batch_size, capacity).all_allowed(calls),
    ensures
        ({
            let r = SamplerRun::start(batch_size, capacity).after_all(calls);
            &&& r.counted()
            &&& r.state.batch_size == batch_size
            &&& FifoSampler::span(r.state) == capacity
        }),
    decreases calls.len(),
{
    let start = SamplerRun::start(batch_size, capacity);
    lemma_start_counted(batch_size, capacity);
    if calls.len() > 0 {
        let fewer = calls.drop_last();
        lemma_run_counted(batch_size, capacity, fewer);
        let mid = start.after_all(fewer);
        match calls.last() {
            SamplerCall::Commit { pos } => {
                lemma_commit_counted(mid, pos);
            },
            SamplerCall::CommitBatch { start: first, n } => {
                lemma_commits_counted(mid, first, n);
                lemma_commit_batch_one_by_one(mid, first, n);
                lemma_commits_keep_size(mid.state, first, n);
            },
            SamplerCall::Select => {
                lemma_select_counted(mid);
            },
        }
    }
}

/// Commits do not change the dimensions of a sampler.
proof fn lemma_commits_keep_size(s: FifoState, start: int, n: nat)
    requires
        0 < s.counts.len(),
    ensures
        commit_all::<FifoSampler>(s, start, n).batch_size == s.batch_size,
        commit_all::<FifoSampler>(s, start, n).counts.len() == s.counts.len(),
    decreases n,
{
    if n > 0 {
        lemma_commits_keep_size(s, start, (n - 1) as nat);
        vstd::arithmetic::div_mod::lemma_mod_bound(
            (start + n - 1) / s.batch_size as int,
            s.counts.len() as int,
        );
    }
}

/// Of a new sampler, after any number of calls: the next selection yields a
/// batch if and only if all positions of the next batch are committed, in
/// whatever order; the batch is then in adjacent slots, those of its positions.
/// The consumer reads from where the batches selected so far end.
pub proof fn lemma_selects_when_ready(
    batch_size: usize,
    capacity: usize,
    calls: Seq<SamplerCall>,
)
    requires
        0 < batch_size,
        0 < capacity,
        capacity % batch_size == 0,
        SamplerRun::start(batch_size, capacity).all_allowed(calls),
    ensures
        ({
            let r = SamplerRun::start(batch_size, capacity).after_all(calls);
            let read = batch_size * r.selects;
            &&& r.state.read == read
            &&& FifoSampler::selected(r.state) is Some <==> forall|p: int|
                read <= p < read + batch_size ==> #[trigger] r.committed.contains(p)
            &&& FifoSampler::selected(r.state) matches Some(
                (_, SampleResult::Contiguous { start, count }),
            ) ==> {
                &&& start == read % capacity as int
                &&& count == batch_size
                &&& start + count <= capacity
            }
            &&& FifoSampler::selected(r.state) is None ==> r.after(SamplerCall::Select) == r
        }),
{
    lemma_run_counted(batch_size, capacity, calls);
    lemma_selection(SamplerRun::start(batch_size, capacity).after_all(calls));
}

/// Of a new sampler, after any number of calls: the size that it reports is the
/// number of positions committed less those of the batches selected.
pub proof fn lemma_queue_size(batch_size: usize, capacity: usize, calls: Seq<SamplerCall>)
    requires
        0 < batch_size,
        0 < capacity,
        capacity % batch_size == 0,
        SamplerRun::start(batch_size, capacity).all_allowed(calls),
    ensures
        ({
            let r = SamplerRun::start(batch_size, capacity).after_all(calls);
            &&& r.commits == r.committed.len()
            &&& FifoSampler::queued(r.state) == r.commits - batch_size * r.selects
            &&& FifoSampler::queued(r.state) <= capacity
        }),
{
    lemma_run_counted(batch_size, capacity, calls);
    let r = SamplerRun::start(batch_size, capacity).after_all(calls);
    let range = vstd::set_lib::set_int_range(0, r.state.read + capacity);
    vstd::set_lib::lemma_int_range(0, r.state.read + capacity);
    assert(r.committed.subset_of(range));
    vstd::set_lib::lemma_len_subset(r.committed, range);
    lemma_wrap_small(sum_usize(r.state.counts));
}

} // verus!
