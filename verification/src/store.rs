//! The store: a ring of slots between many writers and one consumer.
//!
//! A writer claims adjacent positions on the write cursor, copies its samples
//! into their slots, and commits the positions to the sampler. The consumer
//! takes a whole batch at a time; its slots stay untouched until it asks for
//! the next one. A position `p` lives in slot `p % capacity`.
//!
//! The store is driven through exclusive references. Whoever shares it between
//! threads serialises the calls, waits where a call reports that there is
//! nothing to take or no room, and passes on the wake-ups that calls ask for.

use crate::arith::{lemma_prefix_sum, sum_usize, wrap_usize};
use crate::array_spec::{array_sizes, sizes_of, ArraySpec};
use crate::clock::{nanos_since, now};
use crate::metrics::{
    lemma_inserted_then, lemma_none_inserted, lemma_run_inserted, DrainerMetrics,
};
use crate::ring_buf::{joined, overlaid, ring_defect, PytreeRingBuf, RingDefect, Slots};
use crate::selector::{
    commit_all, lemma_commit_all_then, lemma_same_batch, wake_count, Remover, SampleResult,
    Sampler, SamplerModel, SelectStep,
};
use std::time::Instant;
use vstd::prelude::*;

verus! {

/// What a store's behaviour depends on; `T` is the state of its sampler.
#[verifier::ext_equal]
pub struct StoreState<T> {
    pub batch_size: usize,
    /// Number of slots, a multiple of `batch_size`.
    pub capacity: usize,
    /// Bytes per slot, for each array.
    pub widths: Seq<usize>,
    pub ring: Slots,
    pub sampler: T,
    /// The next position to be claimed.
    pub write: usize,
    /// Positions before this one have been released by the consumer.
    pub freed: usize,
    /// Whether the consumer holds a batch.
    pub has_previous: bool,
    pub shutdown: bool,
}

impl<T> StoreState<T> {
    /// Positions claimed and not yet released.
    pub open spec fn used(self) -> usize {
        self.write.wrapping_sub(self.freed)
    }

    /// Whether no position can be claimed.
    pub open spec fn full(self) -> bool {
        self.used() >= self.capacity
    }

    /// How many positions can be claimed before the next release.
    pub open spec fn available(self) -> int {
        if self.full() {
            0
        } else {
            self.capacity - self.used()
        }
    }

    /// How many positions are left in the batch of the next one.
    pub open spec fn batch_remainder(self) -> int {
        self.batch_size - self.write as int % self.batch_size as int
    }

    /// How many positions one claim yields when `want` are asked for: as many
    /// as there is room for, up to the end of the batch.
    pub open spec fn claim(self, want: int) -> int {
        if self.available() <= want && self.available() <= self.batch_remainder() {
            self.available()
        } else if self.batch_remainder() <= want {
            self.batch_remainder()
        } else {
            want
        }
    }

    /// The state after `n` positions have been claimed.
    pub open spec fn claimed(self, n: int) -> StoreState<T> {
        StoreState { write: (self.write + n) as usize, ..self }
    }

    /// The state after `samples`, each given by its arrays, have been copied
    /// into the slots of the positions from `start` on.
    pub open spec fn filled(self, start: int, samples: Seq<Seq<Seq<u8>>>) -> StoreState<T> {
        StoreState { ring: ring_with(self.ring, self.capacity as int, start, samples), ..self }
    }

    /// The state after the consumer has given back the batch that it holds, if
    /// it holds one.
    pub open spec fn released(self) -> StoreState<T> {
        if self.has_previous {
            StoreState {
                freed: self.freed.wrapping_add(self.batch_size),
                has_previous: false,
                ..self
            }
        } else {
            self
        }
    }

    /// Whether giving back the batch makes room where there was none, so that
    /// waiting writers have to be woken.
    pub open spec fn release_wakes(self) -> bool {
        self.has_previous && self.full()
    }
}

/// The state after the positions `start`, ... (`n` of them) have been
/// committed.
pub open spec fn run_committed<S: SamplerModel>(
    s: StoreState<S::State>,
    start: int,
    n: nat,
) -> StoreState<S::State> {
    StoreState { sampler: commit_all::<S>(s.sampler, start, n), ..s }
}

/// The state after `samples`, each given by its arrays, have been stored one
/// after the other: claimed, copied and committed.
pub open spec fn stored<S: SamplerModel>(
    s: StoreState<S::State>,
    samples: Seq<Seq<Seq<u8>>>,
) -> StoreState<S::State> {
    run_committed::<S>(
        s.claimed(samples.len() as int).filled(s.write as int, samples),
        s.write as int,
        samples.len(),
    )
}

/// The ring with the arrays of one sample copied over those of a slot. Where
/// an array is shorter than its slot, the bytes beyond it stay; so do arrays
/// that the sample does not have.
pub open spec fn placed(ring: Slots, slot: int, arrays: Seq<Seq<u8>>) -> Slots {
    Seq::new(
        ring.len(),
        |j: int|
            if j < arrays.len() {
                ring[j].update(slot, overlaid(ring[j][slot], arrays[j]))
            } else {
                ring[j]
            },
    )
}

/// The ring with `samples` in the slots of the positions from `start` on.
pub open spec fn ring_with(
    ring: Slots,
    capacity: int,
    start: int,
    samples: Seq<Seq<Seq<u8>>>,
) -> Slots
    decreases samples.len(),
{
    if samples.len() == 0 {
        ring
    } else {
        placed(
            ring_with(ring, capacity, start, samples.drop_last()),
            (start + samples.len() - 1) % capacity,
            samples.last(),
        )
    }
}

/// The arrays of a sample whose bytes come one array after the other.
pub open spec fn pieces(sample: Seq<u8>, sizes: Seq<usize>) -> Seq<Seq<u8>> {
    Seq::new(
        sizes.len(),
        |j: int|
            sample.subrange(
                sum_usize(sizes.take(j)) as int,
                sum_usize(sizes.take(j)) + sizes[j],
            ),
    )
}

/// The arrays of each of several samples.
pub open spec fn split_samples(samples: Seq<&[u8]>, sizes: Seq<usize>) -> Seq<Seq<Seq<u8>>> {
    Seq::new(samples.len(), |i: int| pieces(samples[i]@, sizes))
}

/// The bytes of several slices.
pub open spec fn bytes_of(slices: Seq<&[u8]>) -> Seq<Seq<u8>> {
    Seq::new(slices.len(), |i: int| slices[i]@)
}

/// How many batches the `n` positions from `start` on touch. A reservation
/// ends with its batch, so this many are made for them.
pub open spec fn batches_touched(start: int, n: int, batch_size: int) -> int {
    if n <= 0 {
        0
    } else {
        (start + n - 1) / batch_size - start / batch_size + 1
    }
}

/// Storing some samples and then others is storing both.
pub proof fn lemma_stored_then<S: SamplerModel>(
    s: StoreState<S::State>,
    first: Seq<Seq<Seq<u8>>>,
    then: Seq<Seq<Seq<u8>>>,
)
    requires
        s.write + first.len() + then.len() <= usize::MAX,
    ensures
        stored::<S>(stored::<S>(s, first), then) == stored::<S>(s, first + then),
        wake_count::<S>(s.sampler, s.write as int, first.len()) + wake_count::<S>(
            stored::<S>(s, first).sampler,
            s.write + first.len(),
            then.len(),
        ) == wake_count::<S>(s.sampler, s.write as int, first.len() + then.len()),
{
    lemma_commit_all_then::<S>(s.sampler, s.write as int, first.len(), then.len());
    lemma_ring_with_then(s.ring, s.capacity as int, s.write as int, first, then);
}

/// Copying some samples and then those that follow is copying both.
proof fn lemma_ring_with_then(
    ring: Slots,
    capacity: int,
    start: int,
    first: Seq<Seq<Seq<u8>>>,
    then: Seq<Seq<Seq<u8>>>,
)
    ensures
        ring_with(ring_with(ring, capacity, start, first), capacity, start + first.len(), then)
            == ring_with(ring, capacity, start, first + then),
    decreases then.len(),
{
    if then.len() == 0 {
        assert(first + then =~= first);
    } else {
        lemma_ring_with_then(ring, capacity, start, first, then.drop_last());
        assert((first + then).drop_last() =~= first + then.drop_last());
        assert((first + then).last() == then.last());
    }
}

/// Copies the arrays of one sample into a slot.
fn place_arrays(ring: &mut PytreeRingBuf, slot: usize, arrays: &[&[u8]])
    requires
        old(ring).wf(),
        slot < old(ring).slot_count(),
        arrays@.len() <= old(ring).widths().len(),
        forall|j: int|
            0 <= j < arrays@.len() ==> (#[trigger] arrays@[j])@.len() <= old(ring).widths()[j],
    ensures
        final(ring).wf(),
        final(ring).slot_count() == old(ring).slot_count(),
        final(ring).widths() == old(ring).widths(),
        final(ring)@ == placed(old(ring)@, slot as int, bytes_of(arrays@)),
{
    let ghost all = bytes_of(arrays@);
    proof {
        ring.lemma_shape();
        assert(placed(ring@, slot as int, all.take(0)) =~= ring@);
    }
    let mut j: usize = 0;
    while j < arrays.len()
        invariant
            j <= arrays@.len() <= old(ring).widths().len(),
            all == bytes_of(arrays@),
            ring.wf(),
            ring.slot_count() == old(ring).slot_count(),
            ring.widths() == old(ring).widths(),
            slot < ring.slot_count(),
            old(ring)@.len() == ring.widths().len(),
            forall|k: int|
                0 <= k < arrays@.len() ==> (#[trigger] arrays@[k])@.len() <= ring.widths()[k],
            ring@ == placed(old(ring)@, slot as int, all.take(j as int)),
        decreases arrays.len() - j,
    {
        ring.write_slot(slot, j, arrays[j]);
        j = j + 1;
        assert(ring@ =~= placed(old(ring)@, slot as int, all.take(j as int)));
    }
    assert(all.take(j as int) =~= all);
}

/// Copies one sample, whose bytes come one array after the other, into a slot.
fn place_sample(ring: &mut PytreeRingBuf, slot: usize, sample: &[u8], array_sizes: &[usize])
    requires
        old(ring).wf(),
        slot < old(ring).slot_count(),
        array_sizes@.len() <= old(ring).widths().len(),
        forall|j: int|
            0 <= j < array_sizes@.len() ==> (#[trigger] array_sizes@[j]) <= old(ring).widths()[j],
        sum_usize(array_sizes@) <= sample@.len(),
    ensures
        final(ring).wf(),
        final(ring).slot_count() == old(ring).slot_count(),
        final(ring).widths() == old(ring).widths(),
        final(ring)@ == placed(old(ring)@, slot as int, pieces(sample@, array_sizes@)),
{
    let ghost all = pieces(sample@, array_sizes@);
    proof {
        ring.lemma_shape();
        assert(placed(ring@, slot as int, all.take(0)) =~= ring@);
        assert(array_sizes@.take(0) =~= Seq::<usize>::empty());
    }
    let end: usize = sample.len();
    let mut offset: usize = 0;
    let mut j: usize = 0;
    while j < array_sizes.len()
        invariant
            j <= array_sizes@.len() <= old(ring).widths().len(),
            all == pieces(sample@, array_sizes@),
            sum_usize(array_sizes@) <= end == sample@.len(),
            offset == sum_usize(array_sizes@.take(j as int)),
            ring.wf(),
            ring.slot_count() == old(ring).slot_count(),
            ring.widths() == old(ring).widths(),
            slot < ring.slot_count(),
            old(ring)@.len() == ring.widths().len(),
            forall|k: int|
                0 <= k < array_sizes@.len() ==> (#[trigger] array_sizes@[k]) <= ring.widths()[k],
            ring@ == placed(old(ring)@, slot as int, all.take(j as int)),
        decreases array_sizes.len() - j,
    {
        let size: usize = array_sizes[j];
        proof {
            lemma_prefix_sum(array_sizes@, j + 1);
            assert(array_sizes@.take(j + 1).drop_last() =~= array_sizes@.take(j as int));
        }
        ring.write_slot(slot, j, vstd::slice::slice_subrange(sample, offset, offset + size));
        offset = offset + size;
        j = j + 1;
        assert(ring@ =~= placed(old(ring)@, slot as int, all.take(j as int)));
    }
    assert(all.take(j as int) =~= all);
}

/// A batch in the hands of the consumer: `count` slots from slot `start` on.
/// Each entry in `arrays` is (offset, total bytes) for one array across the
/// batch, in that array's buffer.
#[derive(Debug, Clone)]
pub struct ConsumerView {
    pub arrays: Vec<(usize, usize)>,
    pub start: usize,
    pub count: usize,
}

impl ConsumerView {
    /// Whether the view spans `count` slots from `start` on, for arrays of the
    /// given widths.
    pub open spec fn spans(&self, start: usize, count: usize, widths: Seq<usize>) -> bool {
        &&& self.start == start
        &&& self.count == count
        &&& self.arrays@.len() == widths.len()
        &&& forall|j: int|
            0 <= j < widths.len() ==> (#[trigger] self.arrays@[j]).0 == start * widths[j]
                && self.arrays@[j].1 == count * widths[j]
    }
}

/// One attempt of an insert that waits for room.
#[derive(Debug, Clone, Copy, PartialEq, Eq, Structural)]
pub enum InsertStep {
    /// The sample is in; `wake` says whether the consumer has to be woken.
    Inserted { wake: bool },
    /// The ring is full; try again after the next release.
    Full,
}

/// What one call of [`Store::insert_batch`] got done.
#[derive(Debug, Clone, Copy, PartialEq, Eq, Structural)]
pub struct InsertReport {
    /// How many of the samples are in, from the first on.
    pub done: usize,
    /// How often the consumer has to be woken.
    pub wakes: usize,
}

/// One attempt of a sampling that waits for a batch.
#[derive(Debug)]
pub enum SampleStep {
    /// The next batch.
    Ready(ConsumerView),
    /// No batch is ready, and there is no more waiting: the store was shut
    /// down.
    Shutdown,
    /// No batch is ready yet; try again after the next wake-up.
    Wait,
}

/// Why a store of the given dimensions cannot be built.
#[derive(Debug, Clone, Copy, PartialEq, Eq, Structural)]
pub enum StoreDefect {
    /// There are fewer than two batches.
    TooFewBatches,
    /// The number of slots does not fit in `usize`.
    CapacityOverflow,
    /// The ring cannot be built.
    Ring(RingDefect),
    /// The slots of an array do not fit in an allocation.
    TooLarge,
}

/// Whether the slots of every array fit in an allocation.
pub open spec fn allocatable(specs: Seq<ArraySpec>, capacity: int) -> bool {
    forall|j: int|
        0 <= j < specs.len() ==> wrap_usize((#[trigger] specs[j]).byte_count()) * capacity
            <= isize::MAX
}

/// The first of the demands on a store's dimensions that is not met.
pub open spec fn store_defect(
    specs: Seq<ArraySpec>,
    batch_size: usize,
    num_batches: usize,
) -> Option<StoreDefect> {
    if num_batches < 2 {
        Some(StoreDefect::TooFewBatches)
    } else if batch_size * num_batches > usize::MAX {
        Some(StoreDefect::CapacityOverflow)
    } else {
        match ring_defect(specs.len(), (batch_size * num_batches) as nat, batch_size as nat) {
            Some(defect) => Some(StoreDefect::Ring(defect)),
            None => if allocatable(specs, batch_size * num_batches) {
                None
            } else {
                Some(StoreDefect::TooLarge)
            },
        }
    }
}

/// Which demand on the dimensions of a store fails first, if any does.
pub fn find_defect(specs: &Vec<ArraySpec>, batch_size: usize, num_batches: usize) -> (r: Option<
    StoreDefect,
>)
    ensures
        r == store_defect(specs@, batch_size, num_batches),
{
    if num_batches < 2 {
        return Some(StoreDefect::TooFewBatches);
    }
    let capacity: usize = match batch_size.checked_mul(num_batches) {
        Some(capacity) => capacity,
        None => {
            return Some(StoreDefect::CapacityOverflow);
        },
    };
    let sizes = array_sizes(specs);
    if let Some(defect) = PytreeRingBuf::defect(&sizes, capacity, batch_size) {
        return Some(StoreDefect::Ring(defect));
    }
    let mut j: usize = 0;
    while j < sizes.len()
        invariant
            j <= sizes@.len() == specs@.len(),
            sizes@ == sizes_of(specs@),
            capacity == batch_size * num_batches,
            2 <= num_batches,
            ring_defect(specs@.len(), capacity as nat, batch_size as nat) is None,
            forall|k: int|
                0 <= k < j ==> wrap_usize((#[trigger] specs@[k]).byte_count()) * capacity
                    <= isize::MAX,
        decreases sizes.len() - j,
    {
        let fits = match sizes[j].checked_mul(capacity) {
            Some(bytes) => bytes <= isize::MAX as usize,
            None => false,
        };
        assert(sizes@[j as int] == wrap_usize(specs@[j as int].byte_count()));
        if !fits {
            assert(!allocatable(specs@, batch_size * num_batches)) by {
                assert(wrap_usize(specs@[j as int].byte_count()) * capacity > isize::MAX);
            }
            return Some(StoreDefect::TooLarge);
        }
        j = j + 1;
    }
    None
}

/// Ring, cursors, and the strategy that picks what to sample and to release.
pub struct Store<S: Sampler, R: Remover> {
    ring: PytreeRingBuf,
    sampler: S,
    remover: R,
    specs: Vec<ArraySpec>,
    batch_size: usize,
    capacity: usize,
    /// The next position to be claimed by a writer.
    write_cursor: usize,
    shutdown: bool,
    /// Whether the consumer holds a batch.
    has_previous_batch: bool,
}

impl<S: Sampler, R: Remover> View for Store<S, R> {
    type V = StoreState<S::State>;

    closed spec fn view(&self) -> StoreState<S::State> {
        StoreState {
            batch_size: self.batch_size,
            capacity: self.capacity,
            widths: self.ring.widths(),
            ring: self.ring@,
            sampler: self.sampler.state(),
            write: self.write_cursor,
            freed: self.remover.pos(),
            has_previous: self.has_previous_batch,
            shutdown: self.shutdown,
        }
    }
}

impl<S: Sampler, R: Remover> Store<S, R> {
    /// The shapes of the arrays of a sample.
    pub closed spec fn array_specs(&self) -> Seq<ArraySpec> {
        self.specs@
    }

    pub closed spec fn wf(&self) -> bool {
        &&& 0 < self.batch_size <= self.capacity
        &&& self.capacity % self.batch_size == 0
        &&& self.ring.wf()
        &&& self.ring.slot_count() == self.capacity
        &&& self.ring.widths().len() == self.specs@.len()
        &&& forall|j: int|
            0 <= j < self.specs@.len() ==> #[trigger] self.ring.widths()[j] == wrap_usize(
                self.specs@[j].byte_count(),
            )
        &&& self.sampler.wf()
        &&& S::span(self.sampler.state()) == self.capacity
        &&& S::batch(self.sampler.state()) == self.batch_size
    }

    /// What holds of the state of every well-formed store.
    pub proof fn lemma_dimensions(&self)
        requires
            self.wf(),
        ensures
            0 < self@.batch_size <= self@.capacity,
            self@.capacity % self@.batch_size == 0,
            0 < self@.widths.len(),
            self@.widths.len() == self.array_specs().len(),
            self@.ring.len() == self@.widths.len(),
            forall|j: int|
                0 <= j < self@.widths.len() ==> #[trigger] self@.widths[j] == wrap_usize(
                    self.array_specs()[j].byte_count(),
                ),
            forall|j: int|
                0 <= j < self@.ring.len() ==> (#[trigger] self@.ring[j]).len() == self@.capacity,
            forall|j: int, i: int|
                0 <= j < self@.ring.len() && 0 <= i < self@.capacity ==> (
                #[trigger] self@.ring[j][i]).len() == self@.widths[j],
            S::span(self@.sampler) == self@.capacity,
            S::batch(self@.sampler) == self@.batch_size,
    {
        self.ring.lemma_shape();
    }

    /// A store of `num_batches` batches of zeroed slots. The sampler has to
    /// range over as many slots, in batches of the same size.
    pub fn new(
        specs: Vec<ArraySpec>,
        batch_size: usize,
        num_batches: usize,
        sampler: S,
        remover: R,
    ) -> (r: Self)
        requires
            store_defect(specs@, batch_size, num_batches) is None,
            sampler.wf(),
            S::span(sampler.state()) == batch_size * num_batches,
            S::batch(sampler.state()) == batch_size,
        ensures
            r.wf(),
            r.array_specs() == specs@,
            r@.batch_size == batch_size,
            r@.capacity == batch_size * num_batches,
            r@.sampler == sampler.state(),
            r@.write == 0,
            r@.freed == remover.pos(),
            !r@.has_previous,
            !r@.shutdown,
            forall|j: int, i: int, k: int|
                0 <= j < r@.ring.len() && 0 <= i < r@.capacity && 0 <= k < r@.widths[j]
                    ==> #[trigger] r@.ring[j][i][k] == 0u8,
    {
        let capacity: usize = batch_size * num_batches;
        let slot_bytes: Vec<usize> = array_sizes(&specs);
        proof {
            assert(batch_size <= capacity) by (nonlinear_arith)
                requires
                    2 <= num_batches,
                    capacity == batch_size * num_batches,
            ;
            assert forall|j: int| 0 <= j < slot_bytes@.len() implies (#[trigger] slot_bytes@[j])
                * capacity <= isize::MAX by {
                assert(wrap_usize(specs@[j].byte_count()) * (batch_size * num_batches)
                    <= isize::MAX);
            }
        }
        let ring = PytreeRingBuf::new(slot_bytes, capacity, batch_size);
        Self {
            ring,
            sampler,
            remover,
            specs,
            batch_size,
            capacity,
            write_cursor: 0,
            shutdown: false,
            has_previous_batch: false,
        }
    }

    pub fn batch_size(&self) -> (r: usize)
        ensures
            r == self@.batch_size,
    {
        self.batch_size
    }

    pub fn specs(&self) -> (r: &Vec<ArraySpec>)
        ensures
            r@ == self.array_specs(),
    {
        &self.specs
    }

    pub fn capacity(&self) -> (r: usize)
        ensures
            r == self@.capacity,
    {
        self.capacity
    }

    /// The next position to be claimed.
    pub fn write_pos(&self) -> (r: usize)
        ensures
            r == self@.write,
    {
        self.write_cursor
    }

    /// The number of arrays of a sample.
    pub fn num_arrays(&self) -> (r: usize)
        ensures
            r == self@.widths.len(),
    {
        self.ring.num_arrays()
    }

    /// All slots of one array, one after the other.
    pub fn buffer(&self, array_idx: usize) -> (r: &[u8])
        requires
            self.wf(),
            array_idx < self@.widths.len(),
        ensures
            r@ == joined(self@.ring[array_idx as int]),
            r@.len() == self@.capacity * self@.widths[array_idx as int],
    {
        proof {
            self.lemma_dimensions();
            let slots = self@.ring[array_idx as int];
            assert(slots.subrange(0, self@.capacity as int) =~= slots);
        }
        self.ring.range_bytes(array_idx, 0, self.capacity)
    }

    /// Items currently committed but not yet sampled.
    pub fn size(&self) -> (r: usize)
        requires
            self.wf(),
        ensures
            r == S::queued(self@.sampler),
    {
        self.sampler.queue_size()
    }

    /// Claims up to `want` adjacent positions, no further than the end of the
    /// batch, and returns the first of them and their number; `None` if the
    /// ring is full or nothing was wanted. `lost` is how often this claim has
    /// been beaten by another writer so far.
    pub fn try_reserve_slots(
        &mut self,
        want: usize,
        lost: u64,
        metrics: Option<&mut DrainerMetrics>,
    ) -> (r: Option<(usize, usize)>)
        requires
            old(self).wf(),
            old(self)@.write + old(self)@.claim(want as int) <= usize::MAX,
            metrics matches Some(m) ==> m.wf(),
        ensures
            final(self).wf(),
            final(self).array_specs() == old(self).array_specs(),
            r is Some <==> 0 < old(self)@.claim(want as int),
            r matches Some((start, n)) ==> start == old(self)@.write && n == old(self)@.claim(
                want as int,
            ),
            final(self)@ == old(self)@.claimed(old(self)@.claim(want as int)),
            metrics matches Some(m) ==> final(m).wf() && final(m)@ == m@.reserved(lost, r is Some),
    {
        let write: usize = self.write_cursor;
        let freed: usize = self.remover.read_pos();
        let used: usize = write.wrapping_sub(freed);
        let mut n: usize = 0;
        if used < self.capacity {
            let available: usize = self.capacity - used;
            let in_batch_remain: usize = self.batch_size - write % self.batch_size;
            n = if want < available {
                want
            } else {
                available
            };
            if in_batch_remain < n {
                n = in_batch_remain;
            }
        }
        proof {
            vstd::arithmetic::div_mod::lemma_mod_bound(write as int, self.batch_size as int);
            assert(n == self@.claim(want as int));
        }
        if n > 0 {
            self.write_cursor = write + n;
        }
        if let Some(m) = metrics {
            if n > 0 {
                m.record_cas_success();
            }
            m.record_cas_failures(lost);
            m.record_reservation_retries(lost);
        }
        if n > 0 {
            Some((write, n))
        } else {
            None
        }
    }

    /// Copies `samples`, each with the bytes of one array after the other, into
    /// the slots of the positions from `start` on.
    pub fn write_reserved(&mut self, start: usize, samples: &[&[u8]], array_sizes: &[usize])
        requires
            old(self).wf(),
            start + samples@.len() <= usize::MAX,
            array_sizes@.len() <= old(self)@.widths.len(),
            forall|j: int|
                0 <= j < array_sizes@.len() ==> (#[trigger] array_sizes@[j]) <= old(
                    self,
                )@.widths[j],
            forall|i: int|
                0 <= i < samples@.len() ==> sum_usize(array_sizes@) <= (
                #[trigger] samples@[i])@.len(),
        ensures
            final(self).wf(),
            final(self).array_specs() == old(self).array_specs(),
            final(self)@ == old(self)@.filled(
                start as int,
                split_samples(samples@, array_sizes@),
            ),
    {
        let ghost all = split_samples(samples@, array_sizes@);
        let mut i: usize = 0;
        while i < samples.len()
            invariant
                self.wf(),
                start + samples@.len() <= usize::MAX,
                i <= samples@.len(),
                all == split_samples(samples@, array_sizes@),
                self.array_specs() == old(self).array_specs(),
                array_sizes@.len() <= self@.widths.len(),
                forall|j: int|
                    0 <= j < array_sizes@.len() ==> (#[trigger] array_sizes@[j]) <= self@.widths[j],
                forall|k: int|
                    0 <= k < samples@.len() ==> sum_usize(array_sizes@) <= (
                    #[trigger] samples@[k])@.len(),
                self@ == old(self)@.filled(start as int, all.take(i as int)),
            decreases samples.len() - i,
        {
            let slot: usize = (start + i) % self.capacity;
            proof {
                assert(all.take(i + 1).drop_last() =~= all.take(i as int));
                assert(all.take(i + 1).last() == pieces(samples@[i as int]@, array_sizes@));
            }
            place_sample(&mut self.ring, slot, samples[i], array_sizes);
            i = i + 1;
            assert(self@ =~= old(self)@.filled(start as int, all.take(i as int)));
        }
        assert(all.take(i as int) =~= all);
    }

    /// Commits the `n` positions from `start` on, which lie in one batch.
    /// Returns how often the consumer has to be woken.
    pub fn commit_reserved(&mut self, start: usize, n: usize) -> (wakes: usize)
        requires
            old(self).wf(),
            start as int % old(self)@.batch_size as int + n <= old(self)@.batch_size,
            start + n <= usize::MAX + 1,
        ensures
            final(self).wf(),
            final(self).array_specs() == old(self).array_specs(),
            final(self)@ == run_committed::<S>(old(self)@, start as int, n as nat),
            wakes == wake_count::<S>(old(self)@.sampler, start as int, n as nat),
            wakes <= n,
    {
        self.sampler.commit_batch(start, n)
    }

    /// Makes one reservation for as many of `samples`, from the first on, as
    /// fit in the ring and in the batch, copies them and commits them. Returns
    /// their number, with how often the consumer has to be woken; `None` if
    /// the ring is full or there are no samples. `metrics` and `lost` are as in
    /// [`Store::insert_batch`].
    pub fn insert_run(
        &mut self,
        samples: &[&[u8]],
        array_sizes: &[usize],
        lost: u64,
        metrics: Option<&mut DrainerMetrics>,
    ) -> (r: Option<InsertReport>)
        requires
            old(self).wf(),
            old(self)@.write + old(self)@.claim(samples@.len() as int) <= usize::MAX,
            array_sizes@.len() <= old(self)@.widths.len(),
            forall|j: int|
                0 <= j < array_sizes@.len() ==> (#[trigger] array_sizes@[j]) <= old(
                    self,
                )@.widths[j],
            forall|i: int|
                0 <= i < samples@.len() ==> sum_usize(array_sizes@) <= (
                #[trigger] samples@[i])@.len(),
            metrics matches Some(m) ==> m.wf(),
        ensures
            final(self).wf(),
            final(self).array_specs() == old(self).array_specs(),
            r is Some <==> 0 < old(self)@.claim(samples@.len() as int),
            r matches Some(report) ==> {
                &&& report.done == old(self)@.claim(samples@.len() as int)
                &&& report.wakes == wake_count::<S>(
                    old(self)@.sampler,
                    old(self)@.write as int,
                    report.done as nat,
                )
                &&& report.wakes <= report.done
            },
            final(self)@ == stored::<S>(
                old(self)@,
                split_samples(samples@, array_sizes@).take(
                    old(self)@.claim(samples@.len() as int),
                ),
            ),
            metrics matches Some(m) ==> final(m).wf() && m@.batch_inserted(
                final(m)@,
                old(self)@.claim(samples@.len() as int) as nat,
                if r is Some {
                    1
                } else {
                    0
                },
                lost,
            ),
    {
        let ghost before = self@;
        let ghost all = split_samples(samples@, array_sizes@);
        let ghost counts = (*metrics->0)@;
        let mut own: Option<&mut DrainerMetrics> = metrics;
        proof {
            self.lemma_dimensions();
            vstd::arithmetic::div_mod::lemma_mod_bound(
                before.write as int,
                before.batch_size as int,
            );
        }
        let again = match &mut own {
            Some(m) => Some(&mut **m),
            None => None,
        };
        match self.try_reserve_slots(samples.len(), lost, again) {
            None => {
                proof {
                    lemma_none_inserted(counts, lost);
                    assert(all.take(0) =~= Seq::<Seq<Seq<u8>>>::empty());
                    assert(self@ =~= stored::<S>(before, all.take(0)));
                    assert(own is Some ==> counts.batch_inserted((*own->0)@, 0, 0, lost));
                }
                None
            },
            Some((start, n)) => {
                let started: Option<Instant> = if own.is_some() {
                    Some(now())
                } else {
                    None
                };
                let chunk = vstd::slice::slice_subrange(samples, 0, n);
                assert(split_samples(chunk@, array_sizes@) =~= all.take(n as int));
                self.write_reserved(start, chunk, array_sizes);
                if let Some(m) = &mut own {
                    if let Some(t) = &started {
                        let ns: u64 = nanos_since(t);
                        m.record_memcpy_ns(ns);
                        proof {
                            lemma_run_inserted(counts, m@, lost, n as u64, ns);
                        }
                    }
                    m.record_samples_inserted(n as u64);
                }
                let wakes: usize = self.commit_reserved(start, n);
                assert(self@ =~= stored::<S>(before, all.take(n as int)));
                assert(own is Some ==> counts.batch_inserted((*own->0)@, n as nat, 1, lost));
                Some(InsertReport { done: n, wakes })
            },
        }
    }

    /// Inserts `samples`, each with the bytes of one array after the other,
    /// until all are in or the ring is full. Makes one reservation per batch
    /// touched. Pass `metrics` from a drainer to count on it, and in `lost` how
    /// often the call was beaten to the store by another writer.
    pub fn insert_batch(
        &mut self,
        samples: &[&[u8]],
        array_sizes: &[usize],
        lost: u64,
        metrics: Option<&mut DrainerMetrics>,
    ) -> (r: InsertReport)
        requires
            old(self).wf(),
            old(self)@.write + at_most(samples@.len() as int, old(self)@.available())
                <= usize::MAX,
            array_sizes@.len() <= old(self)@.widths.len(),
            forall|j: int|
                0 <= j < array_sizes@.len() ==> (#[trigger] array_sizes@[j]) <= old(
                    self,
                )@.widths[j],
            forall|i: int|
                0 <= i < samples@.len() ==> sum_usize(array_sizes@) <= (
                #[trigger] samples@[i])@.len(),
            metrics matches Some(m) ==> m.wf(),
        ensures
            final(self).wf(),
            final(self).array_specs() == old(self).array_specs(),
            r.done == at_most(samples@.len() as int, old(self)@.available()),
            final(self)@ == stored::<S>(
                old(self)@,
                split_samples(samples@, array_sizes@).take(r.done as int),
            ),
            r.wakes == wake_count::<S>(
                old(self)@.sampler,
                old(self)@.write as int,
                r.done as nat,
            ),
            metrics matches Some(m) ==> final(m).wf() && m@.batch_inserted(
                final(m)@,
                r.done as nat,
                batches_touched(
                    old(self)@.write as int,
                    r.done as int,
                    old(self)@.batch_size as int,
                ) as nat,
                if samples@.len() == 0 {
                    0
                } else {
                    lost
                },
            ),
    {
        let ghost before = self@;
        let ghost counts = (*metrics->0)@;
        let ghost all = split_samples(samples@, array_sizes@);
        let ghost target = at_most(samples@.len() as int, before.available());
        let ghost mut runs: nat = 0;
        let mut own: Option<&mut DrainerMetrics> = metrics;
        let mut to_count: u64 = lost;
        let mut done: usize = 0;
        let mut wakes: usize = 0;
        let mut blocked: bool = false;
        proof {
            assert(all.take(0) =~= Seq::<Seq<Seq<u8>>>::empty());
            assert(stored::<S>(before, all.take(0)) =~= before);
            lemma_none_inserted(counts, lost);
            self.lemma_dimensions();
        }
        while !blocked && done < samples.len()
            invariant
                self.wf(),
                self.array_specs() == old(self).array_specs(),
                before == old(self)@,
                0 < before.batch_size,
                all == split_samples(samples@, array_sizes@),
                target == at_most(samples@.len() as int, before.available()),
                before.write + target <= usize::MAX,
                array_sizes@.len() <= before.widths.len(),
                forall|j: int|
                    0 <= j < array_sizes@.len() ==> (#[trigger] array_sizes@[j])
                        <= before.widths[j],
                forall|i: int|
                    0 <= i < samples@.len() ==> sum_usize(array_sizes@) <= (
                    #[trigger] samples@[i])@.len(),
                0 <= done <= target,
                blocked ==> done == target && 0 < samples@.len(),
                done == 0 || (before.write + done) % before.batch_size as int == 0 || done
                    == target,
                self@ == stored::<S>(before, all.take(done as int)),
                wakes == wake_count::<S>(before.sampler, before.write as int, done as nat),
                wakes <= done,
                runs == batches_touched(
                    before.write as int,
                    done as int,
                    before.batch_size as int,
                ),
                runs <= done,
                to_count == if blocked || done > 0 {
                    0
                } else {
                    lost
                },
                own is Some == metrics is Some,
                own matches Some(m) ==> m.wf() && *final(m) == *final(metrics->0)
                    && counts.batch_inserted(
                    m@,
                    done as nat,
                    runs,
                    if blocked || done > 0 {
                        lost
                    } else {
                        0
                    },
                ),
            decreases
                    samples.len() - done + if blocked {
                        0int
                    } else {
                        1int
                    },
        {
            let ghost mid = self@;
            let ghost mid_counts = (*own->0)@;
            let ghost counted: u64 = if done > 0 {
                lost
            } else {
                0
            };
            let ghost first = all.take(done as int);
            let rest = vstd::slice::slice_subrange(samples, done, samples.len());
            let ghost n = mid.claim(rest@.len() as int);
            proof {
                lemma_room_left::<S>(before, first);
                vstd::arithmetic::div_mod::lemma_mod_bound(
                    mid.write as int,
                    mid.batch_size as int,
                );
                let then = split_samples(rest@, array_sizes@).take(n);
                assert(all.take(done + n) =~= first + then);
                lemma_stored_then::<S>(before, first, then);
                if 0 < n {
                    lemma_next_run(
                        before.write as int,
                        done as int,
                        n,
                        before.batch_size as int,
                    );
                }
            }
            let again = match &mut own {
                Some(m) => Some(&mut **m),
                None => None,
            };
            match self.insert_run(rest, array_sizes, to_count, again) {
                None => {
                    blocked = true;
                    proof {
                        if own is Some {
                            lemma_inserted_then(
                                counts,
                                mid_counts,
                                (*own->0)@,
                                (done as nat, runs, counted),
                                (0, 0, to_count),
                            );
                        }
                    }
                },
                Some(report) => {
                    proof {
                        if own is Some {
                            lemma_inserted_then(
                                counts,
                                mid_counts,
                                (*own->0)@,
                                (done as nat, runs, counted),
                                (report.done as nat, 1, to_count),
                            );
                        }
                        runs = runs + 1;
                    }
                    done = done + report.done;
                    wakes = wakes + report.wakes;
                },
            }
            to_count = 0;
        }
        InsertReport { done, wakes }
    }

    /// Claims one position, copies the arrays of a sample into its slot, and
    /// commits it; or reports that the ring is full.
    fn write_slot(&mut self, arrays: &[&[u8]], metrics: Option<&mut DrainerMetrics>) -> (r:
        InsertStep)
        requires
            old(self).wf(),
            !old(self)@.full() ==> old(self)@.write < usize::MAX,
            arrays@.len() <= old(self)@.widths.len(),
            forall|j: int|
                0 <= j < arrays@.len() ==> (#[trigger] arrays@[j])@.len() == old(self)@.widths[j],
            metrics matches Some(m) ==> m.wf(),
        ensures
            final(self).wf(),
            final(self).array_specs() == old(self).array_specs(),
            r == if old(self)@.full() {
                InsertStep::Full
            } else {
                InsertStep::Inserted { wake: S::wakes(old(self)@.sampler, old(self)@.write as int) }
            },
            final(self)@ == if old(self)@.full() {
                old(self)@
            } else {
                stored::<S>(old(self)@, seq![bytes_of(arrays@)])
            },
            metrics matches Some(m) ==> final(m).wf() && if old(self)@.full() {
                final(m)@ == m@
            } else {
                m@.batch_inserted(final(m)@, 1, 1, 0)
            },
    {
        let ghost counts = (*metrics->0)@;
        let write: usize = self.write_cursor;
        let freed: usize = self.remover.read_pos();
        if write.wrapping_sub(freed) >= self.capacity {
            return InsertStep::Full;
        }
        let mut own: Option<&mut DrainerMetrics> = metrics;
        self.write_cursor = write + 1;
        let slot: usize = write % self.capacity;
        let started: Option<Instant> = if own.is_some() {
            Some(now())
        } else {
            None
        };
        place_arrays(&mut self.ring, slot, arrays);
        if let Some(m) = &mut own {
            m.record_cas_success();
            if let Some(t) = &started {
                assert(m@ == counts.reserved(0, true));
                let ns: u64 = nanos_since(t);
                m.record_memcpy_ns(ns);
                proof {
                    lemma_run_inserted(counts, m@, 0, 1, ns);
                }
            }
            m.record_samples_inserted(1);
        }
        let wake = self.sampler.commit(write);
        proof {
            let one = seq![bytes_of(arrays@)];
            assert(one.drop_last() =~= Seq::<Seq<Seq<u8>>>::empty());
            assert(ring_with(old(self)@.ring, self.capacity as int, write as int, one.drop_last())
                == old(self)@.ring);
            assert(commit_all::<S>(old(self)@.sampler, write as int, 0) == old(self)@.sampler);
            assert(self@ =~= stored::<S>(old(self)@, one));
            assert(own is Some ==> counts.batch_inserted((*own->0)@, 1, 1, 0));
        }
        InsertStep::Inserted { wake }
    }

    /// One attempt of an insert whose caller waits for a wake-up when the ring
    /// is full. The sample is given by its arrays.
    pub fn insert(&mut self, arrays: &[&[u8]]) -> (r: InsertStep)
        requires
            old(self).wf(),
            !old(self)@.full() ==> old(self)@.write < usize::MAX,
            arrays@.len() <= old(self)@.widths.len(),
            forall|j: int|
                0 <= j < arrays@.len() ==> (#[trigger] arrays@[j])@.len() == old(self)@.widths[j],
        ensures
            final(self).wf(),
            final(self).array_specs() == old(self).array_specs(),
            r == if old(self)@.full() {
                InsertStep::Full
            } else {
                InsertStep::Inserted { wake: S::wakes(old(self)@.sampler, old(self)@.write as int) }
            },
            final(self)@ == if old(self)@.full() {
                old(self)@
            } else {
                stored::<S>(old(self)@, seq![bytes_of(arrays@)])
            },
    {
        self.write_slot(arrays, None)
    }

    /// One attempt of an insert whose caller spins while the ring is full. The
    /// sample is given by its arrays.
    pub fn insert_sync(&mut self, arrays: &[&[u8]]) -> (r: InsertStep)
        requires
            old(self).wf(),
            !old(self)@.full() ==> old(self)@.write < usize::MAX,
            arrays@.len() <= old(self)@.widths.len(),
            forall|j: int|
                0 <= j < arrays@.len() ==> (#[trigger] arrays@[j])@.len() == old(self)@.widths[j],
        ensures
            final(self).wf(),
            final(self).array_specs() == old(self).array_specs(),
            r == if old(self)@.full() {
                InsertStep::Full
            } else {
                InsertStep::Inserted { wake: S::wakes(old(self)@.sampler, old(self)@.write as int) }
            },
            final(self)@ == if old(self)@.full() {
                old(self)@
            } else {
                stored::<S>(old(self)@, seq![bytes_of(arrays@)])
            },
    {
        self.write_slot(arrays, None)
    }

    /// Releases the slots of the batch that the consumer holds, if it holds
    /// one. Returns whether waiting writers have to be woken.
    fn release_previous_batch(&mut self) -> (wake: bool)
        requires
            old(self).wf(),
        ensures
            final(self).wf(),
            final(self).array_specs() == old(self).array_specs(),
            final(self)@ == old(self)@.released(),
            wake == old(self)@.release_wakes(),
    {
        if !self.has_previous_batch {
            return false;
        }
        self.has_previous_batch = false;
        let write: usize = self.write_cursor;
        let freed: usize = self.remover.read_pos();
        let was_full = write.wrapping_sub(freed) >= self.capacity;
        self.remover.remove(self.batch_size);
        was_full
    }

    /// The view of a range of slots.
    fn build_view(&self, start: usize, count: usize) -> (r: ConsumerView)
        requires
            self.wf(),
            start + count <= self@.capacity,
        ensures
            r.spans(start, count, self@.widths),
    {
        let num_arrays: usize = self.ring.num_arrays();
        let mut arrays: Vec<(usize, usize)> = Vec::new();
        while arrays.len() < num_arrays
            invariant
                self.wf(),
                start + count <= self@.capacity,
                num_arrays == self@.widths.len(),
                arrays@.len() <= num_arrays,
                forall|j: int|
                    0 <= j < arrays@.len() ==> (#[trigger] arrays@[j]).0 == start * self@.widths[j]
                        && arrays@[j].1 == count * self@.widths[j],
            decreases num_arrays - arrays.len(),
        {
            arrays.push(self.ring.range_ptr(arrays.len(), start, count));
        }
        ConsumerView { arrays, start, count }
    }

    /// The bytes of one array of a batch, sample after sample.
    pub fn view_bytes(&self, view: &ConsumerView, array_idx: usize) -> (r: &[u8])
        requires
            self.wf(),
            view.start + view.count <= self@.capacity,
            array_idx < self@.widths.len(),
        ensures
            r@ == joined(
                self@.ring[array_idx as int].subrange(view.start as int, view.start + view.count),
            ),
            r@.len() == view.count * self@.widths[array_idx as int],
    {
        self.ring.range_bytes(array_idx, view.start, view.count)
    }

    /// One attempt of a sampling whose caller waits until a batch is ready.
    /// Releases the previous batch's slots first; the second value says
    /// whether waiting writers have to be woken on that account.
    pub fn sample(&mut self) -> (r: (SampleStep, bool))
        requires
            old(self).wf(),
            S::has_room(old(self)@.sampler),
        ensures
            final(self).wf(),
            final(self).array_specs() == old(self).array_specs(),
            r.1 == old(self)@.release_wakes(),
            match S::selected(old(self)@.sampler) {
                Some((after, SampleResult::Contiguous { start, count })) => {
                    &&& r.0 matches SampleStep::Ready(view)
                    &&& view.spans(start, count, old(self)@.widths)
                    &&& count == old(self)@.batch_size
                    &&& start + count <= old(self)@.capacity
                    &&& final(self)@ == (StoreState {
                        sampler: after,
                        has_previous: true,
                        ..old(self)@.released()
                    })
                },
                None => {
                    &&& r.0 == if S::closed(old(self)@.sampler) {
                        SampleStep::Shutdown
                    } else {
                        SampleStep::Wait
                    }
                    &&& final(self)@ == old(self)@.released()
                },
            },
    {
        let wake = self.release_previous_batch();
        match self.sampler.select(self.batch_size) {
            SelectStep::Ready(result) => {
                let SampleResult::Contiguous { start, count } = result;
                self.has_previous_batch = true;
                (SampleStep::Ready(self.build_view(start, count)), wake)
            },
            SelectStep::Shutdown => (SampleStep::Shutdown, wake),
            SelectStep::Wait => (SampleStep::Wait, wake),
        }
    }

    /// Takes the next batch if it is ready. Releases the previous batch's
    /// slots first; the second value says whether waiting writers have to be
    /// woken on that account.
    pub fn try_sample(&mut self) -> (r: (Option<ConsumerView>, bool))
        requires
            old(self).wf(),
            S::has_room(old(self)@.sampler),
        ensures
            final(self).wf(),
            final(self).array_specs() == old(self).array_specs(),
            r.1 == old(self)@.release_wakes(),
            match S::selected(old(self)@.sampler) {
                Some((after, SampleResult::Contiguous { start, count })) => {
                    &&& r.0 matches Some(view)
                    &&& view.spans(start, count, old(self)@.widths)
                    &&& count == old(self)@.batch_size
                    &&& start + count <= old(self)@.capacity
                    &&& final(self)@ == (StoreState {
                        sampler: after,
                        has_previous: true,
                        ..old(self)@.released()
                    })
                },
                None => {
                    &&& r.0 is None
                    &&& final(self)@ == old(self)@.released()
                },
            },
    {
        let wake = self.release_previous_batch();
        match self.sampler.try_select(self.batch_size) {
            Some(result) => {
                let SampleResult::Contiguous { start, count } = result;
                self.has_previous_batch = true;
                (Some(self.build_view(start, count)), wake)
            },
            None => (None, wake),
        }
    }

    /// Ends all waiting. Waiting writers and the consumer have to be woken.
    pub fn shutdown(&mut self)
        requires
            old(self).wf(),
        ensures
            final(self).wf(),
            final(self).array_specs() == old(self).array_specs(),
            final(self)@ == (StoreState {
                shutdown: true,
                sampler: S::shut(old(self)@.sampler),
                ..old(self)@
            }),
            S::closed(final(self)@.sampler),
    {
        self.shutdown = true;
        self.sampler.shutdown();
    }

    pub fn is_shutdown(&self) -> (r: bool)
        ensures
            r == self@.shutdown,
    {
        self.shutdown
    }
}

/// The lesser of two numbers.
pub open spec fn at_most(n: int, bound: int) -> int {
    if n <= bound {
        n
    } else {
        bound
    }
}

/// A run of positions that starts where a batch starts, or is the first one,
/// and stays in its batch touches one batch more.
proof fn lemma_next_run(start: int, done: int, n: int, batch_size: int)
    requires
        0 < batch_size,
        0 <= start,
        0 <= done,
        done == 0 || (start + done) % batch_size == 0,
        n <= batch_size - (start + done) % batch_size,
    ensures
        0 < n ==> batches_touched(start, done + n, batch_size) == batches_touched(
            start,
            done,
            batch_size,
        ) + 1,
        n == batch_size - (start + done) % batch_size ==> (start + done + n) % batch_size == 0,
{
    let p = start + done;
    if 0 < n {
        lemma_same_batch(p, n - 1, batch_size);
        if 0 < done {
            vstd::arithmetic::div_mod::lemma_fundamental_div_mod(p, batch_size);
            assert(p - 1 == (p / batch_size - 1) * batch_size + (batch_size - 1))
                by (nonlinear_arith)
                requires
                    p == batch_size * (p / batch_size),
            ;
            vstd::arithmetic::div_mod::lemma_fundamental_div_mod_converse(
                p - 1,
                batch_size,
                p / batch_size - 1,
                batch_size - 1,
            );
        }
    }
    if n == batch_size - p % batch_size {
        vstd::arithmetic::div_mod::lemma_fundamental_div_mod(p, batch_size);
        assert(p + n == (p / batch_size + 1) * batch_size + 0) by (nonlinear_arith)
            requires
                p == batch_size * (p / batch_size) + p % batch_size,
                n == batch_size - p % batch_size,
        ;
        vstd::arithmetic::div_mod::lemma_fundamental_div_mod_converse(
            p + n,
            batch_size,
            p / batch_size + 1,
            0,
        );
    }
}

/// Every sample stored takes up one position of what was available.
proof fn lemma_room_left<S: SamplerModel>(
    s: StoreState<S::State>,
    samples: Seq<Seq<Seq<u8>>>,
)
    requires
        samples.len() <= s.available(),
        s.write + samples.len() <= usize::MAX,
    ensures
        stored::<S>(s, samples).available() == s.available() - samples.len(),
{
}

} // verus!
