//! Whole runs of a FIFO store: any number of steps by any number of writers and
//! the consumer, in any order that the protocol allows.

use crate::protocol::{
    holds, lemma_claim_sound, lemma_commit_sound, lemma_copy_sound, lemma_empty_log,
    lemma_first_in_first_out, lemma_held_batch_stays, lemma_log_grows, lemma_release_sound,
    lemma_sample_sound, lemma_sound_start, shaped, sound, whole_sample, FifoStore, History,
};
use crate::ring_buf::joined;
use crate::selector::{
    commit_all, lemma_batch_in_range, FifoSampler, SampleResult, SamplerModel,
};
use crate::store::{lemma_stored_then, run_committed, stored, StoreState};
use vstd::prelude::*;

verus! {

/// One step on a store.
pub enum Step {
    /// A writer claims up to `want` positions.
    Claim { want: nat },
    /// A writer copies a sample into the slot of a position.
    Copy { pos: int, arrays: Seq<Seq<u8>> },
    /// A writer commits a position.
    Commit { pos: int },
    /// The consumer asks for the next batch.
    Sample,
    /// The store is shut down.
    Shutdown,
}

/// What the protocol asks of a step: writers copy and commit positions that are
/// claimed and not committed, and commit what they copied. Positions must not
/// run out.
pub open spec fn allowed(s: FifoStore, h: History, step: Step) -> bool {
    match step {
        Step::Claim { want } => s.write + s.claim(want as int) <= usize::MAX,
        Step::Copy { pos, arrays } => {
            &&& s.sampler.read <= pos < s.write
            &&& !h.committed.contains(pos)
            &&& whole_sample(s, arrays)
        },
        Step::Commit { pos } => {
            &&& s.sampler.read <= pos < s.write
            &&& !h.committed.contains(pos)
            &&& h.data.contains_key(pos)
        },
        Step::Sample => true,
        Step::Shutdown => true,
    }
}

/// The state after the consumer has asked for the next batch.
pub open spec fn sampled(s: FifoStore) -> FifoStore {
    match FifoSampler::selected(s.sampler) {
        Some((after, _)) => StoreState { sampler: after, has_previous: true, ..s.released() },
        None => s.released(),
    }
}

/// After one step.
pub open spec fn stepped(s: FifoStore, h: History, step: Step) -> (FifoStore, History) {
    match step {
        Step::Claim { want } => (s.claimed(s.claim(want as int)), h),
        Step::Copy { pos, arrays } => (s.filled(pos, seq![arrays]), h.copied(pos, arrays)),
        Step::Commit { pos } => (run_committed::<FifoSampler>(s, pos, 1), h.with_commit(pos)),
        Step::Sample => (sampled(s), h),
        Step::Shutdown => (
            StoreState { shutdown: true, sampler: FifoSampler::shut(s.sampler), ..s },
            h,
        ),
    }
}

/// After several steps.
pub open spec fn run(s: FifoStore, h: History, steps: Seq<Step>) -> (FifoStore, History)
    decreases steps.len(),
{
    if steps.len() == 0 {
        (s, h)
    } else {
        let (mid, past) = run(s, h, steps.drop_last());
        stepped(mid, past, steps.last())
    }
}

/// Every step of a run is allowed where it is taken.
pub open spec fn run_allowed(s: FifoStore, h: History, steps: Seq<Step>) -> bool
    decreases steps.len(),
{
    if steps.len() == 0 {
        true
    } else {
        let (mid, past) = run(s, h, steps.drop_last());
        run_allowed(s, h, steps.drop_last()) && allowed(mid, past, steps.last())
    }
}

/// How many batches the consumer gets in a run.
pub open spec fn batches_taken(s: FifoStore, h: History, steps: Seq<Step>) -> nat
    decreases steps.len(),
{
    if steps.len() == 0 {
        0
    } else {
        let (mid, _) = run(s, h, steps.drop_last());
        batches_taken(s, h, steps.drop_last()) + if steps.last() is Sample
            && FifoSampler::selected(mid.sampler) is Some {
            1nat
        } else {
            0nat
        }
    }
}

/// Whether a run shuts the store down.
pub open spec fn shuts_down(steps: Seq<Step>) -> bool {
    exists|k: int| 0 <= k < steps.len() && #[trigger] steps[k] is Shutdown
}

/// One step keeps a store sound, and its dimensions as they are.
proof fn lemma_step_sound(s: FifoStore, h: History, step: Step)
    requires
        sound(s, h),
        allowed(s, h, step),
    ensures
        ({
            let (after, past) = stepped(s, h, step);
            &&& sound(after, past)
            &&& after.batch_size == s.batch_size
            &&& after.capacity == s.capacity
            &&& after.widths == s.widths
            &&& after.sampler.read == s.sampler.read + if step is Sample
                && FifoSampler::selected(s.sampler) is Some {
                s.batch_size as int
            } else {
                0
            }
            &&& FifoSampler::closed(after.sampler) <==> FifoSampler::closed(s.sampler)
                || step is Shutdown
        }),
{
    match step {
        Step::Claim { want } => {
            lemma_claim_sound(s, h, want);
        },
        Step::Copy { pos, arrays } => {
            lemma_copy_sound(s, h, pos, arrays);
        },
        Step::Commit { pos } => {
            lemma_commit_sound(s, h, pos);
            assert(commit_all::<FifoSampler>(s.sampler, pos, 0) == s.sampler);
            assert(run_committed::<FifoSampler>(s, pos, 1).sampler == FifoSampler::committed(
                s.sampler,
                pos,
            ));
        },
        Step::Sample => {
            lemma_sample_sound(s, h);
            lemma_release_sound(s, h);
        },
        Step::Shutdown => {
            let (after, _) = stepped(s, h, step);
            assert(after.sampler.counts == s.sampler.counts);
            assert forall|p: int| #[trigger]
                h.data.contains_key(p) && after.freed <= p implies p < after.write
                && holds(after, p, h.data[p]) by {
                assert(holds(s, p, h.data[p]));
            }
        },
    }
}

/// Every run that the protocol allows keeps a store sound. The consumer moves
/// on by one batch for each that it gets. A sampling is told to stop waiting if
/// and only if the store was shut down.
pub proof fn lemma_run_sound(s: FifoStore, h: History, steps: Seq<Step>)
    requires
        sound(s, h),
        run_allowed(s, h, steps),
    ensures
        ({
            let (after, past) = run(s, h, steps);
            &&& sound(after, past)
            &&& after.batch_size == s.batch_size
            &&& after.capacity == s.capacity
            &&& after.widths == s.widths
            &&& after.sampler.read == s.sampler.read + s.batch_size * batches_taken(s, h, steps)
            &&& FifoSampler::closed(after.sampler) <==> FifoSampler::closed(s.sampler)
                || shuts_down(steps)
        }),
    decreases steps.len(),
{
    if steps.len() > 0 {
        let fewer = steps.drop_last();
        let (mid, past) = run(s, h, fewer);
        let taken = batches_taken(s, h, fewer);
        let step = steps.last();
        lemma_run_sound(s, h, fewer);
        lemma_step_sound(mid, past, step);
        assert(s.batch_size * (taken + 1) == s.batch_size * taken + s.batch_size)
            by (nonlinear_arith);
        if shuts_down(steps) {
            let k = choose|k: int| 0 <= k < steps.len() && #[trigger] steps[k] is Shutdown;
            if k < fewer.len() {
                assert(fewer[k] is Shutdown);
            }
        }
        if shuts_down(fewer) {
            let k = choose|k: int| 0 <= k < fewer.len() && #[trigger] fewer[k] is Shutdown;
            assert(steps[k] is Shutdown);
        }
        if step is Shutdown {
            assert(steps[steps.len() - 1] is Shutdown);
        }
    } else {
        assert(s.batch_size * 0 == 0);
    }
}

/// The first slot of the batch that the consumer holds.
pub open spec fn held_start(s: FifoStore) -> int {
    s.freed as int % s.capacity as int
}

/// The bytes of one array of the batch that the consumer holds.
pub open spec fn held_bytes(s: FifoStore, j: int) -> Seq<u8> {
    joined(s.ring[j].subrange(held_start(s), held_start(s) + s.batch_size))
}

/// After a sampling that yields a batch, the consumer holds that batch.
pub proof fn lemma_sampled_is_held(s: FifoStore, h: History, j: int)
    requires
        sound(s, h),
        0 <= j < s.widths.len(),
    ensures
        FifoSampler::selected(s.sampler) matches Some(
            (after, SampleResult::Contiguous { start, count }),
        ) ==> {
            &&& sampled(s).has_previous
            &&& held_start(sampled(s)) == start
            &&& count == s.batch_size
            &&& held_bytes(sampled(s), j) == joined(
                s.ring[j].subrange(start as int, start + count),
            )
        },
{
    lemma_sample_sound(s, h);
    lemma_release_sound(s, h);
}

/// A batch that the consumer holds keeps its bytes, whatever the writers claim,
/// copy and commit, until the consumer asks for the next one.
pub proof fn lemma_held_batch_stays_over_run(s: FifoStore, h: History, steps: Seq<Step>, j: int)
    requires
        sound(s, h),
        s.has_previous,
        run_allowed(s, h, steps),
        forall|k: int| 0 <= k < steps.len() ==> !(#[trigger] steps[k] is Sample),
        0 <= j < s.widths.len(),
    ensures
        run(s, h, steps).0.has_previous,
        run(s, h, steps).0.freed == s.freed,
        held_bytes(run(s, h, steps).0, j) == held_bytes(s, j),
    decreases steps.len(),
{
    if steps.len() > 0 {
        let fewer = steps.drop_last();
        let step = steps.last();
        let (mid, past) = run(s, h, fewer);
        let (after, _) = stepped(mid, past, step);
        assert forall|k: int| 0 <= k < fewer.len() implies !(#[trigger] fewer[k] is Sample) by {
            assert(!(steps[k] is Sample));
        }
        assert(!(steps[steps.len() - 1] is Sample));
        lemma_held_batch_stays_over_run(s, h, fewer, j);
        lemma_run_sound(s, h, fewer);
        if let Step::Copy { pos, arrays } = step {
            let at = held_start(mid);
            let bs = mid.batch_size as int;
            lemma_held_slots(mid, past);
            lemma_copy_sound(mid, past, pos, arrays);
            let was = mid.ring[j].subrange(at, at + bs);
            let is = after.ring[j].subrange(at, at + bs);
            assert forall|i: int| 0 <= i < bs implies was[i] == is[i] by {
                lemma_held_batch_stays(mid, past, pos, arrays, i, j);
                lemma_held_slot(mid, past, i);
            }
            assert(was =~= is);
        }
    }
}

/// The slots of the batch that the consumer holds are adjacent.
proof fn lemma_held_slots(s: FifoStore, h: History)
    requires
        sound(s, h),
        s.has_previous,
    ensures
        0 <= held_start(s),
        held_start(s) + s.batch_size <= s.capacity,
        s.freed as int % s.batch_size as int == 0,
{
    let bs = s.batch_size as int;
    vstd::arithmetic::div_mod::lemma_mod_bound(s.freed as int, s.capacity as int);
    vstd::arithmetic::div_mod::lemma_mod_sub_multiples_vanish(s.sampler.read as int, bs);
    assert(s.freed == -bs + s.sampler.read);
    lemma_batch_in_range(s.freed as int, bs, s.sampler.counts.len() as int);
}

/// Where the position number `i` of the batch that the consumer holds is.
proof fn lemma_held_slot(s: FifoStore, h: History, i: int)
    requires
        sound(s, h),
        s.has_previous,
        0 <= i < s.batch_size,
    ensures
        (s.freed + i) % s.capacity as int == held_start(s) + i,
{
    let cap = s.capacity as int;
    let freed = s.freed as int;
    lemma_held_slots(s, h);
    vstd::arithmetic::div_mod::lemma_fundamental_div_mod(freed, cap);
    assert(freed + i == (freed / cap) * cap + (freed % cap + i)) by (nonlinear_arith)
        requires
            freed == cap * (freed / cap) + freed % cap,
    ;
    vstd::arithmetic::div_mod::lemma_fundamental_div_mod_converse(
        freed + i,
        cap,
        freed / cap,
        freed % cap + i,
    );
}

/// A call by the only user of a store.
pub enum Call {
    /// Inserts a sample, if there is room.
    Insert { arrays: Seq<Seq<u8>> },
    /// Asks for the next batch.
    Sample,
}

/// After several calls: the store, the samples that went in, and how many
/// batches came out.
pub open spec fn called(s: FifoStore, calls: Seq<Call>) -> (FifoStore, Seq<Seq<Seq<u8>>>, nat)
    decreases calls.len(),
{
    if calls.len() == 0 {
        (s, Seq::empty(), 0)
    } else {
        let (mid, log, taken) = called(s, calls.drop_last());
        match calls.last() {
            Call::Insert { arrays } => if mid.full() {
                (mid, log, taken)
            } else {
                (stored::<FifoSampler>(mid, seq![arrays]), log.push(arrays), taken)
            },
            Call::Sample => (
                sampled(mid),
                log,
                taken + if FifoSampler::selected(mid.sampler) is Some {
                    1nat
                } else {
                    0nat
                },
            ),
        }
    }
}

/// Every sample that is to be inserted has the shape of the slots.
pub open spec fn calls_fit(s: FifoStore, calls: Seq<Call>) -> bool {
    forall|k: int|
        0 <= k < calls.len() ==> ((#[trigger] calls[k]) matches Call::Insert { arrays }
            ==> whole_sample(s, arrays))
}

/// What holds of an empty store after any number of calls.
proof fn lemma_calls_sound(s: FifoStore, calls: Seq<Call>)
    requires
        shaped(s),
        s.write == 0,
        s.freed == 0,
        s.sampler.read == 0,
        !s.has_previous,
        forall|i: int| 0 <= i < s.sampler.counts.len() ==> #[trigger] s.sampler.counts[i] == 0,
        calls_fit(s, calls),
        calls.len() <= usize::MAX,
    ensures
        ({
            let (after, log, taken) = called(s, calls);
            &&& sound(after, History::of_log(log))
            &&& after.write == log.len()
            &&& log.len() <= calls.len()
            &&& after.batch_size == s.batch_size
            &&& after.widths == s.widths
            &&& after.sampler.read == s.batch_size * taken
        }),
    decreases calls.len(),
{
    if calls.len() == 0 {
        lemma_sound_start(s);
        lemma_empty_log();
        assert(s.batch_size * 0 == 0);
    } else {
        let fewer = calls.drop_last();
        assert(calls_fit(s, fewer)) by {
            assert forall|k: int| 0 <= k < fewer.len() implies ((#[trigger] fewer[k]) matches
                Call::Insert { arrays } ==> whole_sample(s, arrays)) by {
                assert(fewer[k] == calls[k]);
            }
        }
        lemma_calls_sound(s, fewer);
        let (mid, log, taken) = called(s, fewer);
        let h = History::of_log(log);
        assert(calls[calls.len() - 1] == calls.last());
        match calls.last() {
            Call::Insert { arrays } => {
                if !mid.full() {
                    let one = seq![arrays];
                    assert(whole_sample(mid, one[0]));
                    lemma_log_grows(mid, log, one);
                    assert(log + one =~= log.push(arrays));
                    lemma_stored_keeps_read(mid, one);
                }
            },
            Call::Sample => {
                lemma_sample_sound(mid, h);
                lemma_release_sound(mid, h);
                assert(s.batch_size * (taken + 1) == s.batch_size * taken + s.batch_size)
                    by (nonlinear_arith);
            },
        }
    }
}

/// Storing one sample does not move the consumer.
proof fn lemma_stored_keeps_read(s: FifoStore, one: Seq<Seq<Seq<u8>>>)
    requires
        one.len() == 1,
    ensures
        stored::<FifoSampler>(s, one).sampler.read == s.sampler.read,
{
    assert(commit_all::<FifoSampler>(s.sampler, s.write as int, 0) == s.sampler);
    assert(commit_all::<FifoSampler>(s.sampler, s.write as int, 1) == FifoSampler::committed(
        s.sampler,
        s.write as int,
    ));
}

/// Of a store with one user: after `taken` batches came out, the next one comes
/// out if and only if `taken + 1` batches went in, and it holds, array by array,
/// exactly the samples that follow those that came out.
pub proof fn lemma_calls_first_in_first_out(s: FifoStore, calls: Seq<Call>, j: int)
    requires
        shaped(s),
        s.write == 0,
        s.freed == 0,
        s.sampler.read == 0,
        !s.has_previous,
        forall|i: int| 0 <= i < s.sampler.counts.len() ==> #[trigger] s.sampler.counts[i] == 0,
        calls_fit(s, calls),
        calls.len() <= usize::MAX,
        0 <= j < s.widths.len(),
    ensures
        ({
            let (after, log, taken) = called(s, calls);
            &&& FifoSampler::has_room(after.sampler)
            &&& FifoSampler::selected(after.sampler) is Some <==> s.batch_size * (taken + 1)
                <= log.len()
            &&& FifoSampler::selected(after.sampler) is Some ==> held_bytes(sampled(after), j)
                == joined(
                log.subrange(
                    s.batch_size * taken as int,
                    s.batch_size * (taken + 1) as int,
                ).map_values(|arrays: Seq<Seq<u8>>| arrays[j]),
            )
        }),
{
    lemma_calls_sound(s, calls);
    let (after, log, taken) = called(s, calls);
    assert(s.batch_size * (taken + 1) == s.batch_size * taken + s.batch_size)
        by (nonlinear_arith);
    lemma_first_in_first_out(after, log, j);
    lemma_sample_sound(after, History::of_log(log));
    lemma_sampled_is_held(after, History::of_log(log), j);
}

/// The state after samples have been stored, each by an insert of its own.
pub open spec fn stored_each<S: SamplerModel>(
    s: StoreState<S::State>,
    samples: Seq<Seq<Seq<u8>>>,
) -> StoreState<S::State>
    decreases samples.len(),
{
    if samples.len() == 0 {
        s
    } else {
        stored::<S>(stored_each::<S>(s, samples.drop_last()), seq![samples.last()])
    }
}

/// Storing samples together is storing them one by one.
pub proof fn lemma_stored_one_by_one<S: SamplerModel>(
    s: StoreState<S::State>,
    samples: Seq<Seq<Seq<u8>>>,
)
    requires
        s.write + samples.len() <= usize::MAX,
    ensures
        stored::<S>(s, samples) == stored_each::<S>(s, samples),
    decreases samples.len(),
{
    if samples.len() == 0 {
        assert(stored::<S>(s, samples) =~= s);
    } else {
        let fewer = samples.drop_last();
        lemma_stored_one_by_one::<S>(s, fewer);
        lemma_stored_then::<S>(s, fewer, seq![samples.last()]);
        assert(fewer + seq![samples.last()] =~= samples);
    }
}

/// The state after several claims, each for as many positions as `wants` says.
pub open spec fn claimed_all<T>(s: StoreState<T>, wants: Seq<nat>) -> StoreState<T>
    decreases wants.len(),
{
    if wants.len() == 0 {
        s
    } else {
        let mid = claimed_all(s, wants.drop_last());
        mid.claimed(mid.claim(wants.last() as int))
    }
}

/// The claim number `k` of several: its first position, and how many.
pub open spec fn claim_number<T>(s: StoreState<T>, wants: Seq<nat>, k: int) -> (int, int) {
    let before = claimed_all(s, wants.take(k));
    (before.write as int, before.claim(wants[k] as int))
}

/// No claim runs out of positions.
pub open spec fn claims_fit<T>(s: StoreState<T>, wants: Seq<nat>) -> bool
    decreases wants.len(),
{
    if wants.len() == 0 {
        true
    } else {
        let mid = claimed_all(s, wants.drop_last());
        claims_fit(s, wants.drop_last()) && mid.write + mid.claim(wants.last() as int)
            <= usize::MAX
    }
}

/// Successive claims are adjacent, disjoint, and each in one batch. A claim
/// takes as much as is wanted, available and left of the batch; nothing if and
/// only if nothing is wanted or the ring is full.
pub proof fn lemma_claims_tile<T>(s: StoreState<T>, wants: Seq<nat>, k: int)
    requires
        0 < s.batch_size,
        claims_fit(s, wants),
        0 <= k < wants.len(),
    ensures
        ({
            let before = claimed_all(s, wants.take(k));
            let (start, n) = claim_number(s, wants, k);
            &&& start == before.write
            &&& claimed_all(s, wants.take(k + 1)).write == start + n
            &&& 0 <= n <= wants[k]
            &&& n <= before.available()
            &&& start % s.batch_size as int + n <= s.batch_size
            &&& n == wants[k] || n == before.available() || n == s.batch_size - start
                % s.batch_size as int
            &&& n == 0 <==> wants[k] == 0 || before.full()
        }),
    decreases wants.len(),
{
    if k < wants.len() - 1 {
        let fewer = wants.drop_last();
        lemma_claims_tile(s, fewer, k);
        assert(fewer.take(k) =~= wants.take(k));
        assert(fewer.take(k + 1) =~= wants.take(k + 1));
    } else {
        let before = claimed_all(s, wants.take(k));
        assert(wants.drop_last() =~= wants.take(k));
        assert(wants.take(k + 1) =~= wants);
        lemma_claims_keep_size(s, wants.take(k));
        vstd::arithmetic::div_mod::lemma_mod_bound(before.write as int, s.batch_size as int);
    }
}

/// Claims do not change the dimensions of a store.
proof fn lemma_claims_keep_size<T>(s: StoreState<T>, wants: Seq<nat>)
    ensures
        claimed_all(s, wants).batch_size == s.batch_size,
        claimed_all(s, wants).capacity == s.capacity,
    decreases wants.len(),
{
    if wants.len() > 0 {
        lemma_claims_keep_size(s, wants.drop_last());
    }
}

} // verus!
