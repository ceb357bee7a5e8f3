//! Which items to sample, when they are ready, and which slots are free again.
//!
//! A [`Sampler`] is told of every written position and hands out ranges of
//! slots; a [`Remover`] keeps the position up to which slots have been given
//! back. Both are driven through exclusive references. Whoever shares one
//! between threads serialises the calls, parks on [`SelectStep::Wait`], and
//! wakes the consumer when a commit asks for it.

use crate::arith::{sum_usize, wrap_usize, wrapped_sum_usize};
use vstd::prelude::*;

verus! {

/// Result of a selection.
#[derive(Debug, Clone, Copy, PartialEq, Eq, Structural)]
pub enum SampleResult {
    /// Contiguous range of slots in the ring.
    Contiguous { start: usize, count: usize },
}

/// One attempt of a blocking selection.
#[derive(Debug, Clone, Copy, PartialEq, Eq, Structural)]
pub enum SelectStep {
    /// The items that were asked for.
    Ready(SampleResult),
    /// Not enough items, and no more waiting: the sampler was shut down.
    Shutdown,
    /// Not enough items yet; try again after the next wake-up.
    Wait,
}

/// A sampler as a transition system over its `State`.
pub trait SamplerModel: Sized {
    /// What the behaviour of the sampler depends on.
    type State;

    spec fn state(&self) -> Self::State;

    /// What constructors establish and every method keeps.
    spec fn wf(&self) -> bool;

    /// The number of slots that selections range over.
    spec fn span(s: Self::State) -> nat;

    /// The number of items per batch.
    spec fn batch(s: Self::State) -> nat;

    /// The state after position `pos` was committed.
    spec fn committed(s: Self::State, pos: int) -> Self::State;

    /// Whether committing position `pos` makes a selection possible, so that a
    /// waiting consumer has to be woken.
    spec fn wakes(s: Self::State, pos: int) -> bool;

    /// What a selection of one batch yields, with the state after it; `None`
    /// if too few items are ready.
    spec fn selected(s: Self::State) -> Option<(Self::State, SampleResult)>;

    /// Whether a selection that yields something leaves the cursor of the
    /// sampler in range.
    spec fn has_room(s: Self::State) -> bool;

    /// The number of items committed and not yet selected, in a machine word.
    spec fn queued(s: Self::State) -> int;

    /// Whether the sampler was shut down.
    spec fn closed(s: Self::State) -> bool;

    /// The state after a shutdown.
    spec fn shut(s: Self::State) -> Self::State;
}

/// The state after the positions `start`, `start + 1`, ... (`n` of them) have
/// been committed one after the other.
pub open spec fn commit_all<S: SamplerModel>(s: S::State, start: int, n: nat) -> S::State
    decreases n,
{
    if n == 0 {
        s
    } else {
        S::committed(commit_all::<S>(s, start, (n - 1) as nat), start + n - 1)
    }
}

/// How many of those commits ask for the consumer to be woken.
pub open spec fn wake_count<S: SamplerModel>(s: S::State, start: int, n: nat) -> nat
    decreases n,
{
    if n == 0 {
        0
    } else {
        wake_count::<S>(s, start, (n - 1) as nat) + if S::wakes(
            commit_all::<S>(s, start, (n - 1) as nat),
            start + n - 1,
        ) {
            1nat
        } else {
            0nat
        }
    }
}

/// Committing `n` positions and then the `m` that follow is committing `n + m`.
pub proof fn lemma_commit_all_then<S: SamplerModel>(s: S::State, start: int, n: nat, m: nat)
    ensures
        commit_all::<S>(commit_all::<S>(s, start, n), start + n, m) == commit_all::<S>(
            s,
            start,
            n + m,
        ),
        wake_count::<S>(s, start, n) + wake_count::<S>(
            commit_all::<S>(s, start, n),
            start + n,
            m,
        ) == wake_count::<S>(s, start, n + m),
    decreases m,
{
    if m > 0 {
        lemma_commit_all_then::<S>(s, start, n, (m - 1) as nat);
    }
}

/// Determines which items to sample and when they are ready. The methods
/// follow the transition system of the [`SamplerModel`] exactly.
pub trait Sampler: SamplerModel {
    /// Signals that the item at absolute position `pos` has been written.
    /// Returns whether a waiting consumer has to be woken.
    fn commit(&mut self, pos: usize) -> (wake: bool)
        requires
            old(self).wf(),
            0 < Self::span(old(self).state()),
        ensures
            final(self).wf(),
            final(self).state() == Self::committed(old(self).state(), pos as int),
            wake == Self::wakes(old(self).state(), pos as int),
            Self::span(final(self).state()) == Self::span(old(self).state()),
            Self::batch(final(self).state()) == Self::batch(old(self).state()),
    ;

    /// Signals that the `n` items from absolute position `start_pos` on have
    /// been written. They must lie within one batch. Has the effect of
    /// committing them one by one, and returns how many of those commits ask
    /// for the consumer to be woken.
    fn commit_batch(&mut self, start_pos: usize, n: usize) -> (wakes: usize)
        requires
            old(self).wf(),
            0 < Self::span(old(self).state()),
            0 < Self::batch(old(self).state()),
            start_pos as int % Self::batch(old(self).state()) as int + n <= Self::batch(
                old(self).state(),
            ),
            start_pos + n <= usize::MAX + 1,
        ensures
            final(self).wf(),
            final(self).state() == commit_all::<Self>(
                old(self).state(),
                start_pos as int,
                n as nat,
            ),
            wakes == wake_count::<Self>(old(self).state(), start_pos as int, n as nat),
            wakes <= n,
            Self::span(final(self).state()) == Self::span(old(self).state()),
            Self::batch(final(self).state()) == Self::batch(old(self).state()),
    {
        let mut wakes: usize = 0;
        let mut i: usize = 0;
        while i < n
            invariant
                i <= n,
                start_pos + n <= usize::MAX + 1,
                self.wf(),
                self.state() == commit_all::<Self>(old(self).state(), start_pos as int, i as nat),
                wakes == wake_count::<Self>(old(self).state(), start_pos as int, i as nat),
                wakes <= i,
                0 < Self::span(old(self).state()),
                Self::span(self.state()) == Self::span(old(self).state()),
                Self::batch(self.state()) == Self::batch(old(self).state()),
            decreases n - i,
        {
            let wake = self.commit(start_pos + i);
            if wake {
                wakes = wakes + 1;
            }
            i = i + 1;
        }
        wakes
    }

    /// Selects one batch if it is ready.
    fn try_select(&mut self, count: usize) -> (r: Option<SampleResult>)
        requires
            old(self).wf(),
            0 < Self::span(old(self).state()),
            count == Self::batch(old(self).state()),
            Self::has_room(old(self).state()),
        ensures
            final(self).wf(),
            match Self::selected(old(self).state()) {
                Some((after, result)) => r == Some(result) && final(self).state() == after,
                None => r is None && final(self).state() == old(self).state(),
            },
            r matches Some(SampleResult::Contiguous { start, count: c }) ==> c == count && start
                + c <= Self::span(old(self).state()),
            Self::span(final(self).state()) == Self::span(old(self).state()),
            Self::batch(final(self).state()) == Self::batch(old(self).state()),
    ;

    /// Whether the sampler was shut down.
    fn is_shutdown(&self) -> (r: bool)
        requires
            self.wf(),
        ensures
            r == Self::closed(self.state()),
    ;

    /// One attempt of a selection that blocks until a batch is ready: items
    /// that are ready come first, a shutdown second, waiting last.
    fn select(&mut self, count: usize) -> (r: SelectStep)
        requires
            old(self).wf(),
            0 < Self::span(old(self).state()),
            count == Self::batch(old(self).state()),
            Self::has_room(old(self).state()),
        ensures
            final(self).wf(),
            match Self::selected(old(self).state()) {
                Some((after, result)) => r == SelectStep::Ready(result) && final(self).state()
                    == after,
                None => {
                    &&& r == if Self::closed(old(self).state()) {
                        SelectStep::Shutdown
                    } else {
                        SelectStep::Wait
                    }
                    &&& final(self).state() == old(self).state()
                },
            },
            r matches SelectStep::Ready(SampleResult::Contiguous { start, count: c }) ==> c
                == count && start + c <= Self::span(old(self).state()),
            Self::span(final(self).state()) == Self::span(old(self).state()),
            Self::batch(final(self).state()) == Self::batch(old(self).state()),
    {
        match self.try_select(count) {
            Some(result) => SelectStep::Ready(result),
            None => {
                if self.is_shutdown() {
                    SelectStep::Shutdown
                } else {
                    SelectStep::Wait
                }
            },
        }
    }

    /// Number of items currently committed but not yet sampled.
    fn queue_size(&self) -> (r: usize)
        requires
            self.wf(),
        ensures
            r == Self::queued(self.state()),
    ;

    /// Ends all waiting: from now on an attempt that finds too few items
    /// reports the shutdown.
    fn shutdown(&mut self)
        requires
            old(self).wf(),
        ensures
            final(self).wf(),
            final(self).state() == Self::shut(old(self).state()),
            Self::closed(final(self).state()),
            Self::span(final(self).state()) == Self::span(old(self).state()),
            Self::batch(final(self).state()) == Self::batch(old(self).state()),
    ;
}

/// Tracks which slots the consumer is done with.
pub trait Remover: Sized {
    /// The position up to which slots have been released.
    spec fn pos(&self) -> usize;

    /// Advances the free cursor, releasing slots for writers.
    fn remove(&mut self, count: usize)
        ensures
            final(self).pos() == old(self).pos().wrapping_add(count),
    ;

    /// Current free position.
    fn read_pos(&self) -> (r: usize)
        ensures
            r == self.pos(),
    ;
}

/// What a FIFO sampler's behaviour depends on.
#[verifier::ext_equal]
pub struct FifoState {
    /// Commits since the last selection, for each batch-sized stretch of slots.
    pub counts: Seq<usize>,
    /// Next absolute position that the consumer reads from.
    pub read: usize,
    pub batch_size: usize,
    pub shutdown: bool,
}

impl FifoState {
    /// The stretch of slots that an absolute position falls into.
    pub open spec fn stretch(self, pos: int) -> int {
        (pos / self.batch_size as int) % (self.counts.len() as int)
    }
}

/// FIFO sampler. Commits count up per stretch of slots; the commit that brings
/// a count to `batch_size` wakes the consumer. The consumer sets the count back
/// to zero when it takes the batch.
pub struct FifoSampler {
    /// Per-batch commit count.
    batch_counts: Vec<usize>,
    /// Next absolute position the consumer will read from.
    read_cursor: usize,
    batch_size: usize,
    num_buffers: usize,
    shutdown: bool,
}

impl FifoSampler {
    /// A sampler over `capacity` slots in batches of `batch_size`. `capacity`
    /// has to be a multiple of `batch_size`.
    pub fn new(batch_size: usize, capacity: usize) -> (r: Self)
        requires
            0 < batch_size,
            capacity % batch_size == 0,
        ensures
            r.wf(),
            FifoSampler::span(r.state()) == capacity,
            r.state() == (FifoState {
                counts: Seq::new((capacity / batch_size) as nat, |i: int| 0usize),
                read: 0,
                batch_size,
                shutdown: false,
            }),
    {
        let num_buffers: usize = capacity / batch_size;
        proof {
            vstd::arithmetic::div_mod::lemma_fundamental_div_mod(
                capacity as int,
                batch_size as int,
            );
            vstd::arithmetic::div_mod::lemma_small_mod(0, batch_size as nat);
        }
        let batch_counts: Vec<usize> = vec![0usize; num_buffers];
        assert(batch_counts@ =~= Seq::new(num_buffers as nat, |i: int| 0usize));
        Self { batch_counts, read_cursor: 0, batch_size, num_buffers, shutdown: false }
    }

    /// The number of slots.
    fn capacity(&self) -> (r: usize)
        requires
            self.wf(),
        ensures
            r == FifoSampler::span(self.state()),
    {
        self.batch_size * self.num_buffers
    }

    /// The count that position `pos` is counted in.
    fn batch_id(&self, pos: usize) -> (r: usize)
        requires
            self.wf(),
            0 < FifoSampler::span(self.state()),
        ensures
            r == self.state().stretch(pos as int),
            r < self.state().counts.len(),
    {
        proof {
            self.lemma_some_stretch();
        }
        (pos / self.batch_size) % self.num_buffers
    }

    /// With a slot there is a stretch.
    proof fn lemma_some_stretch(&self)
        requires
            self.wf(),
            0 < FifoSampler::span(self.state()),
        ensures
            0 < self.num_buffers,
    {
        assert(self.batch_size * 0 == 0);
    }
}

impl SamplerModel for FifoSampler {
    type State = FifoState;

    closed spec fn state(&self) -> FifoState {
        FifoState {
            counts: self.batch_counts@,
            read: self.read_cursor,
            batch_size: self.batch_size,
            shutdown: self.shutdown,
        }
    }

    closed spec fn wf(&self) -> bool {
        &&& 0 < self.batch_size
        &&& self.batch_counts@.len() == self.num_buffers
        &&& self.batch_size * self.num_buffers <= usize::MAX
        &&& self.read_cursor % self.batch_size == 0
    }

    open spec fn span(s: FifoState) -> nat {
        s.batch_size as nat * s.counts.len()
    }

    open spec fn batch(s: FifoState) -> nat {
        s.batch_size as nat
    }

    open spec fn committed(s: FifoState, pos: int) -> FifoState {
        let id = s.stretch(pos);
        FifoState { counts: s.counts.update(id, s.counts[id].wrapping_add(1)), ..s }
    }

    open spec fn wakes(s: FifoState, pos: int) -> bool {
        s.counts[s.stretch(pos)] + 1 == s.batch_size
    }

    open spec fn selected(s: FifoState) -> Option<(FifoState, SampleResult)> {
        let id = s.stretch(s.read as int);
        if s.counts[id] < s.batch_size {
            None
        } else {
            Some(
                (
                    FifoState {
                        counts: s.counts.update(id, 0),
                        read: (s.read + s.batch_size) as usize,
                        ..s
                    },
                    SampleResult::Contiguous {
                        start: (s.read as int % Self::span(s) as int) as usize,
                        count: s.batch_size,
                    },
                ),
            )
        }
    }

    open spec fn has_room(s: FifoState) -> bool {
        Self::selected(s) is Some ==> s.read + s.batch_size <= usize::MAX
    }

    open spec fn queued(s: FifoState) -> int {
        wrap_usize(sum_usize(s.counts)) as int
    }

    open spec fn closed(s: FifoState) -> bool {
        s.shutdown
    }

    open spec fn shut(s: FifoState) -> FifoState {
        FifoState { shutdown: true, ..s }
    }
}

impl Sampler for FifoSampler {
    fn commit(&mut self, pos: usize) -> (wake: bool) {
        let batch_id: usize = self.batch_id(pos);
        let prev: usize = self.batch_counts[batch_id];
        self.batch_counts[batch_id] = prev.wrapping_add(1);
        assert(self.state() =~= FifoSampler::committed(old(self).state(), pos as int));
        prev < self.batch_size && prev + 1 == self.batch_size
    }

    fn commit_batch(&mut self, start_pos: usize, n: usize) -> (wakes: usize) {
        let batch_id: usize = self.batch_id(start_pos);
        let prev: usize = self.batch_counts[batch_id];
        proof {
            lemma_fifo_commit_all(self.state(), start_pos as int, n as nat);
        }
        self.batch_counts[batch_id] = prev.wrapping_add(n);
        assert(self.state() =~= commit_all::<FifoSampler>(
            old(self).state(),
            start_pos as int,
            n as nat,
        ));
        if prev < self.batch_size && n >= self.batch_size - prev {
            1
        } else {
            0
        }
    }

    fn try_select(&mut self, count: usize) -> (r: Option<SampleResult>) {
        let read: usize = self.read_cursor;
        let batch_id: usize = self.batch_id(read);
        if self.batch_counts[batch_id] < self.batch_size {
            return None;
        }
        let capacity: usize = self.capacity();
        let start: usize = read % capacity;
        proof {
            self.lemma_some_stretch();
            lemma_batch_in_range(read as int, self.batch_size as int, self.num_buffers as int);
            lemma_next_batch(read as int, self.batch_size as int);
        }
        self.batch_counts[batch_id] = 0;
        self.read_cursor = read + count;
        assert(self.state() =~= (FifoState {
            counts: old(self).state().counts.update(batch_id as int, 0),
            read: (read + count) as usize,
            ..old(self).state()
        }));
        Some(SampleResult::Contiguous { start, count })
    }

    fn is_shutdown(&self) -> (r: bool) {
        self.shutdown
    }

    fn queue_size(&self) -> (r: usize) {
        wrapped_sum_usize(&self.batch_counts)
    }

    fn shutdown(&mut self) {
        self.shutdown = true;
    }
}

/// Positions of one batch fall into the same stretch, so that committing them
/// one by one adds their number to a single count and passes the batch size at
/// most once.
proof fn lemma_fifo_commit_all(s: FifoState, start: int, n: nat)
    requires
        0 < s.batch_size,
        0 < s.counts.len(),
        0 <= start,
        start % (s.batch_size as int) + n <= s.batch_size,
    ensures
        commit_all::<FifoSampler>(s, start, n) == (FifoState {
            counts: s.counts.update(
                s.stretch(start),
                s.counts[s.stretch(start)].wrapping_add(n as usize),
            ),
            ..s
        }),
        wake_count::<FifoSampler>(s, start, n) == (if s.counts[s.stretch(start)] < s.batch_size
            <= s.counts[s.stretch(start)] + n {
            1nat
        } else {
            0nat
        }),
    decreases n,
{
    let id = s.stretch(start);
    assert(0 <= id < s.counts.len()) by {
        vstd::arithmetic::div_mod::lemma_mod_bound(
            start / (s.batch_size as int),
            s.counts.len() as int,
        );
    }
    if n == 0 {
        assert(s.counts.update(id, s.counts[id]) =~= s.counts);
    } else {
        let fewer = (n - 1) as nat;
        lemma_fifo_commit_all(s, start, fewer);
        let mid = commit_all::<FifoSampler>(s, start, fewer);
        assert(mid.stretch(start + fewer) == id) by {
            lemma_same_batch(start, fewer as int, s.batch_size as int);
        }
        assert(commit_all::<FifoSampler>(s, start, n) =~= (FifoState {
            counts: s.counts.update(id, s.counts[id].wrapping_add(n as usize)),
            ..s
        }));
    }
}

/// Moving on by less than what is left of the batch stays in the batch.
pub proof fn lemma_same_batch(start: int, step: int, batch_size: int)
    requires
        0 < batch_size,
        0 <= step,
        start % batch_size + step < batch_size,
    ensures
        (start + step) / batch_size == start / batch_size,
        (start + step) % batch_size == start % batch_size + step,
{
    vstd::arithmetic::div_mod::lemma_fundamental_div_mod(start, batch_size);
    vstd::arithmetic::div_mod::lemma_mod_bound(start, batch_size);
    vstd::arithmetic::mul::lemma_mul_is_commutative(batch_size, start / batch_size);
    vstd::arithmetic::div_mod::lemma_fundamental_div_mod_converse(
        start + step,
        batch_size,
        start / batch_size,
        start % batch_size + step,
    );
}

/// A batch that starts at a multiple of the batch size does not span the
/// wrap-around point.
pub proof fn lemma_batch_in_range(read: int, batch_size: int, batches: int)
    requires
        0 <= read,
        0 < batch_size,
        0 < batches,
        read % batch_size == 0,
    ensures
        read % (batch_size * batches) == batch_size * ((read / batch_size) % batches),
        read % (batch_size * batches) + batch_size <= batch_size * batches,
{
    vstd::arithmetic::div_mod::lemma_breakdown(read, batch_size, batches);
    vstd::arithmetic::div_mod::lemma_mod_bound(read / batch_size, batches);
    let k = (read / batch_size) % batches;
    assert(batch_size * k + batch_size <= batch_size * batches) by (nonlinear_arith)
        requires
            k + 1 <= batches,
            0 < batch_size,
    ;
}

/// The next batch starts at a multiple of the batch size as well.
proof fn lemma_next_batch(read: int, batch_size: int)
    requires
        0 < batch_size,
        read % batch_size == 0,
    ensures
        (read + batch_size) % batch_size == 0,
{
    vstd::arithmetic::div_mod::lemma_mod_add_multiples_vanish(read, batch_size);
}

/// No wake-up is lost: when commits make a batch ready that was not, at least
/// one of them asks for the consumer to be woken.
pub proof fn lemma_no_lost_wake(s: FifoState, start: int, n: nat)
    requires
        0 < s.batch_size,
        0 < s.counts.len(),
        0 <= start,
    ensures
        FifoSampler::selected(s) is None && FifoSampler::selected(
            commit_all::<FifoSampler>(s, start, n),
        ) is Some ==> wake_count::<FifoSampler>(s, start, n) > 0,
        commit_all::<FifoSampler>(s, start, n).counts.len() == s.counts.len(),
        commit_all::<FifoSampler>(s, start, n).batch_size == s.batch_size,
        commit_all::<FifoSampler>(s, start, n).read == s.read,
    decreases n,
{
    if n > 0 {
        let fewer = (n - 1) as nat;
        let pos = start + n - 1;
        lemma_no_lost_wake(s, start, fewer);
        let mid = commit_all::<FifoSampler>(s, start, fewer);
        let len = s.counts.len() as int;
        vstd::arithmetic::div_mod::lemma_mod_bound(pos / s.batch_size as int, len);
        vstd::arithmetic::div_mod::lemma_mod_bound(s.read as int / s.batch_size as int, len);
    }
}

/// FIFO remover: a cursor that advances on each release.
pub struct FifoRemover {
    read_cursor: usize,
}

impl FifoRemover {
    pub fn new() -> (r: Self)
        ensures
            r.pos() == 0,
    {
        Self { read_cursor: 0 }
    }
}

impl Default for FifoRemover {
    fn default() -> (r: Self)
        ensures
            r.pos() == 0,
    {
        Self::new()
    }
}

impl Remover for FifoRemover {
    closed spec fn pos(&self) -> usize {
        self.read_cursor
    }

    fn remove(&mut self, count: usize) {
        self.read_cursor = self.read_cursor.wrapping_add(count);
    }

    fn read_pos(&self) -> (r: usize) {
        self.read_cursor
    }
}

} // verus!
