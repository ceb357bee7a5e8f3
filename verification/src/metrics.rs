//! Health counters and diagnostic metrics.
//!
//! Counters and gauges are always kept. The detailed part (counters on the
//! store's write cursor and three timing histograms) is kept when the metrics
//! were made with [`Metrics::detailed`]; otherwise recording into it does
//! nothing and reading it yields zeros.

use crate::arith::{sum_u64, sum_usize, wrap_u64, wrap_usize, wrapped_sum_u64, wrapped_sum_usize};
use crate::hist::{
    has_entry, hist_end, hist_levels, level, level_top, range_end, TimingHist, EXACT_BELOW,
};
use vstd::multiset::Multiset;
use vstd::prelude::*;

verus! {

/// Lowest duration that is told apart from zero, in nanoseconds.
pub const HIST_LOW_NS: u64 = 1;

/// Durations up to this many nanoseconds are always counted.
pub const HIST_HIGH_NS: u64 = 10_000_000_000;

/// Significant decimal digits that durations are kept to.
pub const HIST_SIGFIG: u8 = 3;

/// The bound below which durations are counted.
pub open spec fn timing_end() -> nat {
    range_end(HIST_HIGH_NS as nat, EXACT_BELOW as nat)
}

/// The duration that is recorded for a measurement of `ns` nanoseconds.
pub open spec fn at_least_low(ns: u64) -> u64 {
    if ns < HIST_LOW_NS {
        HIST_LOW_NS
    } else {
        ns
    }
}

/// A distribution after a measurement of `ns` nanoseconds: one more value at
/// the level of the duration, or the same distribution if the duration is out
/// of range.
pub open spec fn with_duration(levels: Multiset<u64>, ns: u64) -> Multiset<u64> {
    if at_least_low(ns) < timing_end() {
        levels.insert(level(at_least_low(ns) as nat) as u64)
    } else {
        levels
    }
}

/// A distribution after one measurement for each entry of `ns`.
pub open spec fn with_durations(levels: Multiset<u64>, ns: Seq<u64>) -> Multiset<u64>
    decreases ns.len(),
{
    if ns.len() == 0 {
        levels
    } else {
        with_duration(with_durations(levels, ns.drop_last()), ns.last())
    }
}

/// Whether `after` is what some `n` measurements make of `before`. Left open
/// where the distribution may fill up.
pub open spec fn took_in(before: Multiset<u64>, after: Multiset<u64>, n: nat) -> bool {
    before.len() + n <= u64::MAX ==> exists|ns: Seq<u64>|
        ns.len() == n && after == #[trigger] with_durations(before, ns)
}

/// A measurement adds at most one value.
proof fn lemma_durations_len(levels: Multiset<u64>, ns: Seq<u64>)
    ensures
        with_durations(levels, ns).len() <= levels.len() + ns.len(),
    decreases ns.len(),
{
    if ns.len() > 0 {
        lemma_durations_len(levels, ns.drop_last());
    }
}

/// Measurements after measurements are measurements.
proof fn lemma_durations_then(levels: Multiset<u64>, first: Seq<u64>, then: Seq<u64>)
    ensures
        with_durations(with_durations(levels, first), then) == with_durations(
            levels,
            first + then,
        ),
    decreases then.len(),
{
    if then.len() == 0 {
        assert(first + then =~= first);
    } else {
        lemma_durations_then(levels, first, then.drop_last());
        assert((first + then).drop_last() =~= first + then.drop_last());
    }
}

/// Some `n` measurements and then some `m`.
proof fn lemma_took_in_then(
    before: Multiset<u64>,
    between: Multiset<u64>,
    after: Multiset<u64>,
    n: nat,
    m: nat,
)
    requires
        took_in(before, between, n),
        took_in(between, after, m),
    ensures
        took_in(before, after, n + m),
{
    if before.len() + n + m <= u64::MAX {
        let first = choose|ns: Seq<u64>|
            ns.len() == n && between == #[trigger] with_durations(before, ns);
        lemma_durations_len(before, first);
        let then = choose|ns: Seq<u64>|
            ns.len() == m && after == #[trigger] with_durations(between, ns);
        lemma_durations_then(before, first, then);
        assert(after == with_durations(before, first + then));
    }
}

/// The timing distributions that a drainer keeps.
#[derive(Debug, Clone, Copy, PartialEq, Eq, Structural)]
pub enum Timing {
    Memcpy,
    DrainRound,
    QueueDwell,
}

/// The detailed part of a drainer's metrics, as values.
#[verifier::ext_equal]
pub struct DetailView {
    pub cas_success: u64,
    pub cas_failure: u64,
    pub reservation_retries: u64,
    pub memcpy: Multiset<u64>,
    pub drain_round: Multiset<u64>,
    pub queue_dwell: Multiset<u64>,
}

impl DetailView {
    /// One of the three distributions.
    pub open spec fn timing(self, which: Timing) -> Multiset<u64> {
        match which {
            Timing::Memcpy => self.memcpy,
            Timing::DrainRound => self.drain_round,
            Timing::QueueDwell => self.queue_dwell,
        }
    }

    /// The same with one of the three distributions replaced.
    pub open spec fn with_timing(self, which: Timing, levels: Multiset<u64>) -> DetailView {
        match which {
            Timing::Memcpy => DetailView { memcpy: levels, ..self },
            Timing::DrainRound => DetailView { drain_round: levels, ..self },
            Timing::QueueDwell => DetailView { queue_dwell: levels, ..self },
        }
    }

    /// The same with all three distributions emptied.
    pub open spec fn without_timings(self) -> DetailView {
        DetailView {
            memcpy: Multiset::empty(),
            drain_round: Multiset::empty(),
            queue_dwell: Multiset::empty(),
            ..self
        }
    }

    /// Nothing counted and nothing measured.
    pub open spec fn zero() -> DetailView {
        DetailView {
            cas_success: 0,
            cas_failure: 0,
            reservation_retries: 0,
            memcpy: Multiset::empty(),
            drain_round: Multiset::empty(),
            queue_dwell: Multiset::empty(),
        }
    }
}

/// A drainer's metrics, as values.
#[verifier::ext_equal]
pub struct DrainerView {
    pub queue_depth_sum: usize,
    pub queue_depth_max: usize,
    pub samples_inserted: u64,
    /// `None` where the detailed part is not kept.
    pub detail: Option<DetailView>,
}

impl DrainerView {
    /// The same with the detailed part, where it is kept, replaced.
    pub open spec fn with_detail(self, detail: DetailView) -> DrainerView {
        if self.detail is Some {
            DrainerView { detail: Some(detail), ..self }
        } else {
            self
        }
    }

    /// The detailed part; all zero where none is kept.
    pub open spec fn detail_or_zero(self) -> DetailView {
        match self.detail {
            Some(d) => d,
            None => DetailView::zero(),
        }
    }

    /// One of the three distributions; empty where none is kept.
    pub open spec fn timing(self, which: Timing) -> Multiset<u64> {
        self.detail_or_zero().timing(which)
    }

    /// The same with all three distributions emptied.
    pub open spec fn without_timings(self) -> DrainerView {
        self.with_detail(self.detail_or_zero().without_timings())
    }

    /// Whether `after` is what a measurement of `ns` nanoseconds makes of
    /// `self`: the one distribution takes the duration in, everything else
    /// stays. A distribution of `u64::MAX` values is full.
    pub open spec fn timed(self, after: DrainerView, which: Timing, ns: u64) -> bool {
        &&& self.detail is None ==> after == self
        &&& self.detail matches Some(d) ==> {
            &&& after.detail is Some
            &&& after == self.with_detail(d.with_timing(which, after.timing(which)))
            &&& self.timing(which).len() < u64::MAX ==> after.timing(which) == with_duration(
                self.timing(which),
                ns,
            )
        }
    }
}

impl DrainerView {
    /// The counts after a reservation that was beaten `lost` times by other
    /// writers, and was `won` in the end or given up.
    pub open spec fn reserved(self, lost: u64, won: bool) -> DrainerView {
        let d = self.detail_or_zero();
        self.with_detail(
            DetailView {
                cas_success: d.cas_success.wrapping_add(
                    if won {
                        1
                    } else {
                        0
                    },
                ),
                cas_failure: d.cas_failure.wrapping_add(lost),
                reservation_retries: d.reservation_retries.wrapping_add(lost),
                ..d
            },
        )
    }

    /// Whether `after` is what `done` samples in `runs` reservations make of
    /// `self`, the first of which was beaten `lost` times by other writers:
    /// the counters go up by these numbers, each reservation adds the duration
    /// of its copies, and everything else stays.
    pub open spec fn batch_inserted(
        self,
        after: DrainerView,
        done: nat,
        runs: nat,
        lost: u64,
    ) -> bool {
        let d = self.detail_or_zero();
        let a = after.detail_or_zero();
        &&& after == (DrainerView {
            samples_inserted: self.samples_inserted.wrapping_add(done as u64),
            ..self
        }).with_detail(
            DetailView {
                cas_success: d.cas_success.wrapping_add(runs as u64),
                cas_failure: d.cas_failure.wrapping_add(lost),
                reservation_retries: d.reservation_retries.wrapping_add(lost),
                memcpy: a.memcpy,
                ..d
            },
        )
        &&& self.detail is Some ==> took_in(d.memcpy, a.memcpy, runs)
    }
}

/// Nothing inserted, nothing counted but the lost claims.
pub(crate) proof fn lemma_none_inserted(before: DrainerView, lost: u64)
    ensures
        before.batch_inserted(before, 0, 0, 0),
        before.batch_inserted(before.reserved(lost, false), 0, 0, lost),
{
    let levels = before.detail_or_zero().memcpy;
    assert(with_durations(levels, Seq::<u64>::empty()) == levels);
}

/// One reservation of `n` samples, whose copies took `ns` nanoseconds.
pub(crate) proof fn lemma_run_inserted(
    before: DrainerView,
    timed: DrainerView,
    lost: u64,
    n: u64,
    ns: u64,
)
    requires
        before.reserved(lost, true).timed(timed, Timing::Memcpy, ns),
    ensures
        before.batch_inserted(
            DrainerView { samples_inserted: timed.samples_inserted.wrapping_add(n), ..timed },
            n as nat,
            1,
            lost,
        ),
{
    if before.detail is Some {
        let levels = before.detail_or_zero().memcpy;
        assert(seq![ns].drop_last() =~= Seq::<u64>::empty());
        assert(with_durations(levels, seq![ns].drop_last()) == levels);
        assert(levels.len() < u64::MAX ==> timed.detail_or_zero().memcpy == with_durations(
            levels,
            seq![ns],
        ));
    }
}

/// Some samples and then others.
pub(crate) proof fn lemma_inserted_then(
    before: DrainerView,
    between: DrainerView,
    after: DrainerView,
    first: (nat, nat, u64),
    then: (nat, nat, u64),
)
    requires
        before.batch_inserted(between, first.0, first.1, first.2),
        between.batch_inserted(after, then.0, then.1, then.2),
        first.2 == 0 || then.2 == 0,
        first.0 + then.0 <= u64::MAX,
        first.1 + then.1 <= u64::MAX,
    ensures
        before.batch_inserted(
            after,
            first.0 + then.0,
            first.1 + then.1,
            (first.2 + then.2) as u64,
        ),
{
    if before.detail is Some {
        lemma_took_in_then(
            before.detail_or_zero().memcpy,
            between.detail_or_zero().memcpy,
            after.detail_or_zero().memcpy,
            first.1,
            then.1,
        );
    }
}

impl DrainerView {
    /// Whether `after` is what one measurement for each entry of `ns` makes of
    /// `self`. Left open where the distribution may fill up.
    pub open spec fn all_timed(self, after: DrainerView, which: Timing, ns: Seq<u64>) -> bool {
        &&& self.detail is None ==> after == self
        &&& self.detail matches Some(d) ==> {
            &&& after.detail is Some
            &&& after == self.with_detail(d.with_timing(which, after.timing(which)))
            &&& self.timing(which).len() + ns.len() <= u64::MAX ==> after.timing(which)
                == with_durations(self.timing(which), ns)
        }
    }
}

/// One more measurement.
pub(crate) proof fn lemma_timed_next(
    before: DrainerView,
    between: DrainerView,
    after: DrainerView,
    which: Timing,
    taken: Seq<u64>,
    ns: u64,
)
    requires
        before.all_timed(between, which, taken),
        between.timed(after, which, ns),
    ensures
        before.all_timed(after, which, taken.push(ns)),
{
    lemma_durations_len(before.timing(which), taken);
    assert(taken.push(ns).drop_last() =~= taken);
}

/// The detailed part of a drainer's metrics.
struct Detail {
    cas_success: u64,
    cas_failure: u64,
    reservation_retries: u64,
    memcpy_ns_hist: TimingHist,
    drain_round_ns_hist: TimingHist,
    queue_dwell_ns_hist: TimingHist,
}

/// An empty histogram for durations.
fn new_timing_hist() -> (r: TimingHist)
    ensures
        hist_levels(r) == Multiset::<u64>::empty(),
        hist_end(r) == timing_end(),
{
    let made = TimingHist::new(HIST_LOW_NS, HIST_HIGH_NS, HIST_SIGFIG);
    made.unwrap()
}

/// Records a measurement of `ns` nanoseconds.
fn record_ns(hist: &mut TimingHist, ns: u64)
    requires
        hist_end(*old(hist)) == timing_end(),
    ensures
        hist_end(*final(hist)) == timing_end(),
        hist_levels(*old(hist)).len() < u64::MAX ==> hist_levels(*final(hist)) == with_duration(
            hist_levels(*old(hist)),
            ns,
        ),
{
    let duration: u64 = if ns < HIST_LOW_NS {
        HIST_LOW_NS
    } else {
        ns
    };
    let _ = hist.record(duration);
}

impl Detail {
    spec fn wf(&self) -> bool {
        &&& hist_end(self.memcpy_ns_hist) == timing_end()
        &&& hist_end(self.drain_round_ns_hist) == timing_end()
        &&& hist_end(self.queue_dwell_ns_hist) == timing_end()
    }

    spec fn view(&self) -> DetailView {
        DetailView {
            cas_success: self.cas_success,
            cas_failure: self.cas_failure,
            reservation_retries: self.reservation_retries,
            memcpy: hist_levels(self.memcpy_ns_hist),
            drain_round: hist_levels(self.drain_round_ns_hist),
            queue_dwell: hist_levels(self.queue_dwell_ns_hist),
        }
    }

    fn new() -> (r: Self)
        ensures
            r.wf(),
            r.view() == DetailView::zero(),
    {
        Self {
            cas_success: 0,
            cas_failure: 0,
            reservation_retries: 0,
            memcpy_ns_hist: new_timing_hist(),
            drain_round_ns_hist: new_timing_hist(),
            queue_dwell_ns_hist: new_timing_hist(),
        }
    }

    /// One of the three histograms.
    fn hist(&self, which: Timing) -> (r: &TimingHist)
        requires
            self.wf(),
        ensures
            hist_levels(*r) == self.view().timing(which),
            hist_end(*r) == timing_end(),
    {
        match which {
            Timing::Memcpy => &self.memcpy_ns_hist,
            Timing::DrainRound => &self.drain_round_ns_hist,
            Timing::QueueDwell => &self.queue_dwell_ns_hist,
        }
    }
}

/// Metrics owned by one drainer.
pub struct DrainerMetrics {
    queue_depth_sum: usize,
    queue_depth_max: usize,
    samples_inserted: u64,
    detail: Option<Detail>,
}

impl View for DrainerMetrics {
    type V = DrainerView;

    closed spec fn view(&self) -> DrainerView {
        DrainerView {
            queue_depth_sum: self.queue_depth_sum,
            queue_depth_max: self.queue_depth_max,
            samples_inserted: self.samples_inserted,
            detail: match self.detail {
                Some(d) => Some(d.view()),
                None => None,
            },
        }
    }
}

impl DrainerMetrics {
    pub closed spec fn wf(&self) -> bool {
        self.detail matches Some(d) ==> d.wf()
    }

    /// Everything at zero; the detailed part is kept if `detailed` says so.
    pub fn new(detailed: bool) -> (r: Self)
        ensures
            r.wf(),
            r@ == (DrainerView {
                queue_depth_sum: 0,
                queue_depth_max: 0,
                samples_inserted: 0,
                detail: if detailed {
                    Some(DetailView::zero())
                } else {
                    None
                },
            }),
    {
        let detail = if detailed {
            Some(Detail::new())
        } else {
            None
        };
        Self { queue_depth_sum: 0, queue_depth_max: 0, samples_inserted: 0, detail }
    }

    /// Records a batch of `n` samples inserted into the store by this drainer.
    pub fn record_samples_inserted(&mut self, n: u64)
        requires
            old(self).wf(),
        ensures
            final(self).wf(),
            final(self)@ == (DrainerView {
                samples_inserted: old(self)@.samples_inserted.wrapping_add(n),
                ..old(self)@
            }),
    {
        self.samples_inserted = self.samples_inserted.wrapping_add(n);
    }

    /// Publishes the sum and the maximum of the queue depths observed at the
    /// start of a drain round. The latest round wins.
    pub fn record_queue_depth(&mut self, sum: usize, max: usize)
        requires
            old(self).wf(),
        ensures
            final(self).wf(),
            final(self)@ == (DrainerView {
                queue_depth_sum: sum,
                queue_depth_max: max,
                ..old(self)@
            }),
    {
        self.queue_depth_sum = sum;
        self.queue_depth_max = max;
    }

    pub fn samples_inserted(&self) -> (r: u64)
        ensures
            r == self@.samples_inserted,
    {
        self.samples_inserted
    }

    pub fn queue_depth_sum(&self) -> (r: usize)
        ensures
            r == self@.queue_depth_sum,
    {
        self.queue_depth_sum
    }

    pub fn queue_depth_max(&self) -> (r: usize)
        ensures
            r == self@.queue_depth_max,
    {
        self.queue_depth_max
    }

    /// Counts a successful claim on the store's write cursor.
    pub fn record_cas_success(&mut self)
        requires
            old(self).wf(),
        ensures
            final(self).wf(),
            final(self)@ == (match old(self)@.detail {
                Some(d) => old(self)@.with_detail(
                    DetailView { cas_success: d.cas_success.wrapping_add(1), ..d },
                ),
                None => old(self)@,
            }),
    {
        if let Some(d) = &mut self.detail {
            d.cas_success = d.cas_success.wrapping_add(1);
        }
    }

    /// Counts a claim that lost against another writer.
    pub fn record_cas_failure(&mut self)
        requires
            old(self).wf(),
        ensures
            final(self).wf(),
            final(self)@ == (match old(self)@.detail {
                Some(d) => old(self)@.with_detail(
                    DetailView { cas_failure: d.cas_failure.wrapping_add(1), ..d },
                ),
                None => old(self)@,
            }),
    {
        self.record_cas_failures(1);
    }

    /// Counts `n` claims that lost against other writers.
    pub(crate) fn record_cas_failures(&mut self, n: u64)
        requires
            old(self).wf(),
        ensures
            final(self).wf(),
            final(self)@ == (match old(self)@.detail {
                Some(d) => old(self)@.with_detail(
                    DetailView { cas_failure: d.cas_failure.wrapping_add(n), ..d },
                ),
                None => old(self)@,
            }),
    {
        if let Some(d) = &mut self.detail {
            d.cas_failure = d.cas_failure.wrapping_add(n);
        }
    }

    /// Adds the retries of one reservation.
    pub fn record_reservation_retries(&mut self, n: u64)
        requires
            old(self).wf(),
        ensures
            final(self).wf(),
            final(self)@ == (match old(self)@.detail {
                Some(d) => old(self)@.with_detail(
                    DetailView { reservation_retries: d.reservation_retries.wrapping_add(n), ..d },
                ),
                None => old(self)@,
            }),
    {
        if let Some(d) = &mut self.detail {
            d.reservation_retries = d.reservation_retries.wrapping_add(n);
        }
    }

    /// Records how long the copies of one reservation took.
    pub fn record_memcpy_ns(&mut self, ns: u64)
        requires
            old(self).wf(),
        ensures
            final(self).wf(),
            old(self)@.timed(final(self)@, Timing::Memcpy, ns),
    {
        if let Some(d) = &mut self.detail {
            record_ns(&mut d.memcpy_ns_hist, ns);
        }
    }

    /// Records how long a drain round took that did work.
    pub fn record_drain_round_ns(&mut self, ns: u64)
        requires
            old(self).wf(),
        ensures
            final(self).wf(),
            old(self)@.timed(final(self)@, Timing::DrainRound, ns),
    {
        if let Some(d) = &mut self.detail {
            record_ns(&mut d.drain_round_ns_hist, ns);
        }
    }

    /// Records how long a sample waited in its queue.
    pub fn record_queue_dwell_ns(&mut self, ns: u64)
        requires
            old(self).wf(),
        ensures
            final(self).wf(),
            old(self)@.timed(final(self)@, Timing::QueueDwell, ns),
    {
        if let Some(d) = &mut self.detail {
            record_ns(&mut d.queue_dwell_ns_hist, ns);
        }
    }

    /// Empties the three timing distributions. Counters and gauges stay.
    pub fn reset_histograms(&mut self)
        requires
            old(self).wf(),
        ensures
            final(self).wf(),
            final(self)@ == old(self)@.without_timings(),
    {
        if let Some(d) = &mut self.detail {
            d.memcpy_ns_hist.reset();
            d.drain_round_ns_hist.reset();
            d.queue_dwell_ns_hist.reset();
        }
    }

    /// Claims on the write cursor that succeeded, failed, and were retried;
    /// zeros where the detailed part is not kept.
    fn cas_counts(&self) -> (r: (u64, u64, u64))
        ensures
            r.0 == self@.detail_or_zero().cas_success,
            r.1 == self@.detail_or_zero().cas_failure,
            r.2 == self@.detail_or_zero().reservation_retries,
    {
        match &self.detail {
            Some(d) => (d.cas_success, d.cas_failure, d.reservation_retries),
            None => (0, 0, 0),
        }
    }

    /// Adds the values of one of the three distributions to `merged`.
    fn merge_timing_into(&self, which: Timing, merged: &mut TimingHist)
        requires
            self.wf(),
            hist_end(*old(merged)) == timing_end(),
        ensures
            hist_end(*final(merged)) == timing_end(),
            hist_levels(*old(merged)).len() + self@.timing(which).len() <= u64::MAX ==> hist_levels(
                *final(merged),
            ) == hist_levels(*old(merged)).add(self@.timing(which)),
    {
        if let Some(d) = &self.detail {
            let _ = merged.merge(d.hist(which));
        } else {
            assert(hist_levels(*merged).add(Multiset::empty()) =~= hist_levels(*merged));
        }
    }
}

/// A snapshot of a timing distribution: number of values, least and greatest
/// duration, and for every level in use the greatest duration counted at it
/// with the number of values there, from the least level on.
#[derive(Debug, Clone)]
pub struct HistSnapshot {
    pub count: u64,
    pub min_ns: u64,
    pub max_ns: u64,
    pub recorded: Vec<(u64, u64)>,
}

impl HistSnapshot {
    /// Whether the snapshot shows the distribution `levels`. The number of
    /// values saturates and is left open beyond `u64::MAX` values.
    pub open spec fn shows(&self, levels: Multiset<u64>) -> bool {
        &&& levels.len() <= u64::MAX ==> self.count == levels.len()
        &&& levels.len() == 0 ==> self.min_ns == 0 && self.max_ns == 0
        &&& levels.len() > 0 ==> levels.contains(self.min_ns) && levels.contains(
            level(self.max_ns as nat) as u64,
        )
        &&& self.max_ns == level_top(self.max_ns as nat)
        &&& forall|l: u64| #[trigger]
            levels.contains(l) ==> self.min_ns <= l && level_top(l as nat) <= self.max_ns
        &&& forall|i: int, j: int|
            0 <= i < j < self.recorded@.len() ==> (#[trigger] self.recorded@[i]).0 < (
            #[trigger] self.recorded@[j]).0
        &&& forall|i: int|
            0 <= i < self.recorded@.len() ==> (#[trigger] self.recorded@[i]).0 == level_top(
                self.recorded@[i].0 as nat,
            ) && 0 < self.recorded@[i].1
        &&& levels.len() <= u64::MAX ==> forall|i: int|
            0 <= i < self.recorded@.len() ==> (#[trigger] self.recorded@[i]).1 == levels.count(
                level(self.recorded@[i].0 as nat) as u64,
            )
        &&& forall|l: u64| #[trigger]
            levels.contains(l) ==> has_entry(self.recorded@, level_top(l as nat))
    }

    /// Takes the snapshot of a histogram.
    fn from_hist(hist: &TimingHist) -> (r: Self)
        ensures
            r.shows(hist_levels(*hist)),
    {
        Self { count: hist.len(), min_ns: hist.min(), max_ns: hist.max(), recorded: hist.recorded() }
    }
}

impl Default for HistSnapshot {
    fn default() -> (r: Self)
        ensures
            r.count == 0,
            r.min_ns == 0,
            r.max_ns == 0,
            r.recorded@.len() == 0,
            r.shows(Multiset::empty()),
    {
        Self { count: 0, min_ns: 0, max_ns: 0, recorded: Vec::new() }
    }
}

/// The greatest of a sequence of depths; zero for none.
pub open spec fn greatest(values: Seq<usize>) -> usize
    decreases values.len(),
{
    if values.len() == 0 {
        0
    } else {
        let rest = greatest(values.drop_last());
        if rest < values.last() {
            values.last()
        } else {
            rest
        }
    }
}

/// The greatest of two parts is the greater of their greatest.
pub proof fn lemma_greatest_concat(first: Seq<usize>, then: Seq<usize>)
    ensures
        greatest(first + then) == if greatest(first) < greatest(then) {
            greatest(then)
        } else {
            greatest(first)
        },
    decreases then.len(),
{
    if then.len() == 0 {
        assert(first + then =~= first);
    } else {
        lemma_greatest_concat(first, then.drop_last());
        assert((first + then).drop_last() =~= first + then.drop_last());
    }
}

/// All values of one kind of timing, over all drainers.
pub open spec fn merged_timing(drainers: Seq<DrainerView>, which: Timing) -> Multiset<u64>
    decreases drainers.len(),
{
    if drainers.len() == 0 {
        Multiset::empty()
    } else {
        merged_timing(drainers.drop_last(), which).add(drainers.last().timing(which))
    }
}

/// Global metrics, as values.
#[verifier::ext_equal]
pub struct MetricsView {
    pub active_connections: usize,
    pub push_blocked_count: u64,
    pub notify_count: u64,
    pub drainers: Seq<DrainerView>,
}

impl MetricsView {
    /// After a connection was made.
    pub open spec fn connected(self) -> MetricsView {
        MetricsView { active_connections: self.active_connections.wrapping_add(1), ..self }
    }

    /// After a connection was closed.
    pub open spec fn disconnected(self) -> MetricsView {
        MetricsView { active_connections: self.active_connections.wrapping_sub(1), ..self }
    }
}

/// Global counters, with the metrics of every drainer.
pub struct Metrics {
    active_connections: usize,
    push_blocked_count: u64,
    notify_count: u64,
    drainers: Vec<DrainerMetrics>,
}

impl View for Metrics {
    type V = MetricsView;

    closed spec fn view(&self) -> MetricsView {
        MetricsView {
            active_connections: self.active_connections,
            push_blocked_count: self.push_blocked_count,
            notify_count: self.notify_count,
            drainers: self.drainers@.map_values(|d: DrainerMetrics| d@),
        }
    }
}

impl Metrics {
    pub closed spec fn wf(&self) -> bool {
        forall|i: int| 0 <= i < self.drainers@.len() ==> (#[trigger] self.drainers@[i]).wf()
    }

    /// Metrics for `num_drainers` drainers, without the detailed part.
    pub fn new(num_drainers: usize) -> (r: Self)
        ensures
            r.wf(),
            r@ == (MetricsView {
                active_connections: 0,
                push_blocked_count: 0,
                notify_count: 0,
                drainers: Seq::new(
                    num_drainers as nat,
                    |i: int|
                        DrainerView {
                            queue_depth_sum: 0,
                            queue_depth_max: 0,
                            samples_inserted: 0,
                            detail: None,
                        },
                ),
            }),
    {
        Self::with_detail(num_drainers, false)
    }

    /// Metrics for `num_drainers` drainers, with the detailed part.
    pub fn detailed(num_drainers: usize) -> (r: Self)
        ensures
            r.wf(),
            r@ == (MetricsView {
                active_connections: 0,
                push_blocked_count: 0,
                notify_count: 0,
                drainers: Seq::new(
                    num_drainers as nat,
                    |i: int|
                        DrainerView {
                            queue_depth_sum: 0,
                            queue_depth_max: 0,
                            samples_inserted: 0,
                            detail: Some(DetailView::zero()),
                        },
                ),
            }),
    {
        Self::with_detail(num_drainers, true)
    }

    /// Metrics for `num_drainers` drainers, with the detailed part if
    /// `detailed` says so.
    fn with_detail(num_drainers: usize, detailed: bool) -> (r: Self)
        ensures
            r.wf(),
            r@ == (MetricsView {
                active_connections: 0,
                push_blocked_count: 0,
                notify_count: 0,
                drainers: Seq::new(
                    num_drainers as nat,
                    |i: int|
                        DrainerView {
                            queue_depth_sum: 0,
                            queue_depth_max: 0,
                            samples_inserted: 0,
                            detail: if detailed {
                                Some(DetailView::zero())
                            } else {
                                None
                            },
                        },
                ),
            }),
    {
        let mut drainers: Vec<DrainerMetrics> = Vec::new();
        while drainers.len() < num_drainers
            invariant
                drainers@.len() <= num_drainers,
                forall|i: int|
                    0 <= i < drainers@.len() ==> (#[trigger] drainers@[i]).wf() && drainers@[i]@
                        == (DrainerView {
                        queue_depth_sum: 0,
                        queue_depth_max: 0,
                        samples_inserted: 0,
                        detail: if detailed {
                            Some(DetailView::zero())
                        } else {
                            None
                        },
                    }),
            decreases num_drainers - drainers.len(),
        {
            drainers.push(DrainerMetrics::new(detailed));
        }
        Self { active_connections: 0, push_blocked_count: 0, notify_count: 0, drainers }
    }

    pub fn num_drainers(&self) -> (r: usize)
        ensures
            r == self@.drainers.len(),
    {
        self.drainers.len()
    }

    /// The metrics of one drainer.
    pub fn drainer(&self, idx: usize) -> (r: &DrainerMetrics)
        requires
            self.wf(),
            idx < self@.drainers.len(),
        ensures
            r.wf(),
            r@ == self@.drainers[idx as int],
    {
        &self.drainers[idx]
    }

    /// The metrics of one drainer, for recording.
    pub fn drainer_mut(&mut self, idx: usize) -> (r: &mut DrainerMetrics)
        requires
            old(self).wf(),
            idx < old(self)@.drainers.len(),
        ensures
            r.wf(),
            r@ == old(self)@.drainers[idx as int],
            final(r).wf() ==> final(self).wf(),
            final(self)@ == (MetricsView {
                drainers: old(self)@.drainers.update(idx as int, final(r)@),
                ..old(self)@
            }),
    {
        &mut self.drainers[idx]
    }

    pub fn record_connection_opened(&mut self)
        requires
            old(self).wf(),
        ensures
            final(self).wf(),
            final(self)@ == old(self)@.connected(),
    {
        self.active_connections = self.active_connections.wrapping_add(1);
    }

    pub fn record_connection_closed(&mut self)
        requires
            old(self).wf(),
        ensures
            final(self).wf(),
            final(self)@ == old(self)@.disconnected(),
    {
        self.active_connections = self.active_connections.wrapping_sub(1);
    }

    /// Counts a push that found its queue full.
    pub fn record_push_blocked(&mut self)
        requires
            old(self).wf(),
        ensures
            final(self).wf(),
            final(self)@ == (MetricsView {
                push_blocked_count: old(self)@.push_blocked_count.wrapping_add(1),
                ..old(self)@
            }),
    {
        self.push_blocked_count = self.push_blocked_count.wrapping_add(1);
    }

    /// Counts a wake-up of the consumer.
    pub fn record_notify(&mut self)
        requires
            old(self).wf(),
        ensures
            final(self).wf(),
            final(self)@ == (MetricsView {
                notify_count: old(self)@.notify_count.wrapping_add(1),
                ..old(self)@
            }),
    {
        self.record_notifies(1);
    }

    /// Counts `n` wake-ups of the consumer.
    pub fn record_notifies(&mut self, n: u64)
        requires
            old(self).wf(),
        ensures
            final(self).wf(),
            final(self)@ == (MetricsView {
                notify_count: old(self)@.notify_count.wrapping_add(n),
                ..old(self)@
            }),
    {
        self.notify_count = self.notify_count.wrapping_add(n);
    }

    pub fn active_connections(&self) -> (r: usize)
        ensures
            r == self@.active_connections,
    {
        self.active_connections
    }

    pub fn push_blocked_count(&self) -> (r: u64)
        ensures
            r == self@.push_blocked_count,
    {
        self.push_blocked_count
    }

    pub fn notify_count(&self) -> (r: u64)
        ensures
            r == self@.notify_count,
    {
        self.notify_count
    }

    /// Samples moved into the store by all drainers together.
    pub fn samples_inserted_total(&self) -> (r: u64)
        ensures
            r == wrap_u64(
                sum_u64(self@.drainers.map_values(|d: DrainerView| d.samples_inserted)),
            ),
    {
        let mut values: Vec<u64> = Vec::new();
        while values.len() < self.drainers.len()
            invariant
                values@.len() <= self.drainers@.len(),
                forall|i: int|
                    0 <= i < values@.len() ==> #[trigger] values@[i]
                        == self.drainers@[i]@.samples_inserted,
            decreases self.drainers.len() - values.len(),
        {
            values.push(self.drainers[values.len()].samples_inserted());
        }
        assert(values@ =~= self@.drainers.map_values(|d: DrainerView| d.samples_inserted));
        wrapped_sum_u64(&values)
    }

    /// Samples queued in front of all drainers together, as of each drainer's
    /// latest round.
    pub fn queue_depth_sum(&self) -> (r: usize)
        ensures
            r == wrap_usize(
                sum_usize(self@.drainers.map_values(|d: DrainerView| d.queue_depth_sum)),
            ),
    {
        let mut values: Vec<usize> = Vec::new();
        while values.len() < self.drainers.len()
            invariant
                values@.len() <= self.drainers@.len(),
                forall|i: int|
                    0 <= i < values@.len() ==> #[trigger] values@[i]
                        == self.drainers@[i]@.queue_depth_sum,
            decreases self.drainers.len() - values.len(),
        {
            values.push(self.drainers[values.len()].queue_depth_sum());
        }
        assert(values@ =~= self@.drainers.map_values(|d: DrainerView| d.queue_depth_sum));
        wrapped_sum_usize(&values)
    }

    /// The deepest queue of all drainers, as of each drainer's latest round;
    /// zero if there is no drainer.
    pub fn queue_depth_max(&self) -> (r: usize)
        ensures
            r == greatest(self@.drainers.map_values(|d: DrainerView| d.queue_depth_max)),
    {
        let ghost depths = self@.drainers.map_values(|d: DrainerView| d.queue_depth_max);
        let mut max: usize = 0;
        let mut i: usize = 0;
        while i < self.drainers.len()
            invariant
                i <= self.drainers@.len(),
                depths == self@.drainers.map_values(|d: DrainerView| d.queue_depth_max),
                max == greatest(depths.take(i as int)),
            decreases self.drainers.len() - i,
        {
            let depth: usize = self.drainers[i].queue_depth_max();
            assert(depths.take(i + 1).drop_last() =~= depths.take(i as int));
            assert(depths.take(i + 1).last() == depth);
            if max < depth {
                max = depth;
            }
            i = i + 1;
        }
        assert(depths.take(i as int) =~= depths);
        max
    }

    /// Successful claims on the write cursor, over all drainers.
    pub fn cas_success_total(&self) -> (r: u64)
        ensures
            r == wrap_u64(
                sum_u64(self@.drainers.map_values(|d: DrainerView| d.detail_or_zero().cas_success)),
            ),
    {
        let mut values: Vec<u64> = Vec::new();
        while values.len() < self.drainers.len()
            invariant
                values@.len() <= self.drainers@.len(),
                forall|i: int|
                    0 <= i < values@.len() ==> #[trigger] values@[i]
                        == self.drainers@[i]@.detail_or_zero().cas_success,
            decreases self.drainers.len() - values.len(),
        {
            values.push(self.drainers[values.len()].cas_counts().0);
        }
        assert(values@ =~= self@.drainers.map_values(
            |d: DrainerView| d.detail_or_zero().cas_success,
        ));
        wrapped_sum_u64(&values)
    }

    /// Claims that lost against another writer, over all drainers.
    pub fn cas_failure_total(&self) -> (r: u64)
        ensures
            r == wrap_u64(
                sum_u64(self@.drainers.map_values(|d: DrainerView| d.detail_or_zero().cas_failure)),
            ),
    {
        let mut values: Vec<u64> = Vec::new();
        while values.len() < self.drainers.len()
            invariant
                values@.len() <= self.drainers@.len(),
                forall|i: int|
                    0 <= i < values@.len() ==> #[trigger] values@[i]
                        == self.drainers@[i]@.detail_or_zero().cas_failure,
            decreases self.drainers.len() - values.len(),
        {
            values.push(self.drainers[values.len()].cas_counts().1);
        }
        assert(values@ =~= self@.drainers.map_values(
            |d: DrainerView| d.detail_or_zero().cas_failure,
        ));
        wrapped_sum_u64(&values)
    }

    /// Retries of reservations, over all drainers.
    pub fn reservation_retries_total(&self) -> (r: u64)
        ensures
            r == wrap_u64(
                sum_u64(self@.drainers.map_values(|d: DrainerView| d.detail_or_zero().reservation_retries)),
            ),
    {
        let mut values: Vec<u64> = Vec::new();
        while values.len() < self.drainers.len()
            invariant
                values@.len() <= self.drainers@.len(),
                forall|i: int|
                    0 <= i < values@.len() ==> #[trigger] values@[i]
                        == self.drainers@[i]@.detail_or_zero().reservation_retries,
            decreases self.drainers.len() - values.len(),
        {
            values.push(self.drainers[values.len()].cas_counts().2);
        }
        assert(values@ =~= self@.drainers.map_values(
            |d: DrainerView| d.detail_or_zero().reservation_retries,
        ));
        wrapped_sum_u64(&values)
    }

    /// One kind of timing, merged over all drainers.
    fn aggregate(&self, which: Timing) -> (r: HistSnapshot)
        requires
            self.wf(),
        ensures
            merged_timing(self@.drainers, which).len() <= u64::MAX ==> r.shows(
                merged_timing(self@.drainers, which),
            ),
    {
        let ghost views = self@.drainers;
        let mut merged = new_timing_hist();
        let mut i: usize = 0;
        while i < self.drainers.len()
            invariant
                self.wf(),
                i <= self.drainers@.len(),
                views == self@.drainers,
                hist_end(merged) == timing_end(),
                merged_timing(views.take(i as int), which).len() <= u64::MAX ==> hist_levels(merged)
                    == merged_timing(views.take(i as int), which),
            decreases self.drainers.len() - i,
        {
            self.drainers[i].merge_timing_into(which, &mut merged);
            assert(views.take(i + 1).drop_last() =~= views.take(i as int));
            assert(views.take(i + 1).last() == self.drainers@[i as int]@);
            i = i + 1;
        }
        assert(views.take(i as int) =~= views);
        HistSnapshot::from_hist(&merged)
    }

    /// The durations of the copies into the store, over all drainers. Left
    /// open when more than `u64::MAX` durations come together.
    pub fn memcpy_aggregate(&self) -> (r: HistSnapshot)
        requires
            self.wf(),
        ensures
            merged_timing(self@.drainers, Timing::Memcpy).len() <= u64::MAX ==> r.shows(
                merged_timing(self@.drainers, Timing::Memcpy),
            ),
    {
        self.aggregate(Timing::Memcpy)
    }

    /// The durations of the drain rounds that did work, over all drainers.
    /// Left open when more than `u64::MAX` durations come together.
    pub fn drain_round_aggregate(&self) -> (r: HistSnapshot)
        requires
            self.wf(),
        ensures
            merged_timing(self@.drainers, Timing::DrainRound).len() <= u64::MAX ==> r.shows(
                merged_timing(self@.drainers, Timing::DrainRound),
            ),
    {
        self.aggregate(Timing::DrainRound)
    }

    /// The time that samples waited in their queues, over all drainers. Left
    /// open when more than `u64::MAX` durations come together.
    pub fn queue_dwell_aggregate(&self) -> (r: HistSnapshot)
        requires
            self.wf(),
        ensures
            merged_timing(self@.drainers, Timing::QueueDwell).len() <= u64::MAX ==> r.shows(
                merged_timing(self@.drainers, Timing::QueueDwell),
            ),
    {
        self.aggregate(Timing::QueueDwell)
    }

    /// Empties the timing histograms of all drainers, at the boundary of a
    /// metrics window. Counters and gauges are not affected.
    pub fn reset_histograms(&mut self)
        requires
            old(self).wf(),
        ensures
            final(self).wf(),
            final(self)@ == (MetricsView {
                drainers: old(self)@.drainers.map_values(|d: DrainerView| d.without_timings()),
                ..old(self)@
            }),
    {
        let mut i: usize = 0;
        while i < self.drainers.len()
            invariant
                self.wf(),
                i <= self.drainers@.len(),
                self.active_connections == old(self).active_connections,
                self.push_blocked_count == old(self).push_blocked_count,
                self.notify_count == old(self).notify_count,
                self.drainers@.len() == old(self).drainers@.len(),
                forall|k: int|
                    0 <= k < i ==> (#[trigger] self.drainers@[k])@ == old(
                        self,
                    ).drainers@[k]@.without_timings(),
                forall|k: int|
                    i <= k < self.drainers@.len() ==> #[trigger] self.drainers@[k] == old(
                        self,
                    ).drainers@[k],
            decreases self.drainers.len() - i,
        {
            self.drainers[i].reset_histograms();
            i = i + 1;
        }
        assert(self@.drainers =~= old(self)@.drainers.map_values(
            |d: DrainerView| d.without_timings(),
        ));
    }
}

/// A reset starts a new window: right after it every merged distribution is
/// empty, whatever was recorded before.
pub proof fn lemma_reset_empties(drainers: Seq<DrainerView>, which: Timing)
    ensures
        merged_timing(drainers.map_values(|d: DrainerView| d.without_timings()), which)
            == Multiset::<u64>::empty(),
    decreases drainers.len(),
{
    let reset = drainers.map_values(|d: DrainerView| d.without_timings());
    if drainers.len() > 0 {
        lemma_reset_empties(drainers.drop_last(), which);
        assert(reset.drop_last() =~= drainers.drop_last().map_values(
            |d: DrainerView| d.without_timings(),
        ));
        assert(reset.last() == drainers.last().without_timings());
        assert(Multiset::<u64>::empty().add(Multiset::empty()) =~= Multiset::<u64>::empty());
    }
}

/// A reset leaves every counter and gauge of a drainer as it was.
pub proof fn lemma_reset_keeps_counters(drainer: DrainerView)
    ensures
        ({
            let after = drainer.without_timings();
            &&& after.queue_depth_sum == drainer.queue_depth_sum
            &&& after.queue_depth_max == drainer.queue_depth_max
            &&& after.samples_inserted == drainer.samples_inserted
            &&& after.detail_or_zero().cas_success == drainer.detail_or_zero().cas_success
            &&& after.detail_or_zero().cas_failure == drainer.detail_or_zero().cas_failure
            &&& after.detail_or_zero().reservation_retries
                == drainer.detail_or_zero().reservation_retries
        }),
{
}

/// Without the detailed part every merged distribution is empty, and so is
/// every snapshot of one.
pub proof fn lemma_no_detail_no_timings(drainers: Seq<DrainerView>, which: Timing)
    requires
        forall|i: int| 0 <= i < drainers.len() ==> (#[trigger] drainers[i]).detail is None,
    ensures
        merged_timing(drainers, which) == Multiset::<u64>::empty(),
        forall|snapshot: HistSnapshot|
            #[trigger] snapshot.shows(merged_timing(drainers, which)) ==> snapshot.count == 0
                && snapshot.min_ns == 0 && snapshot.max_ns == 0 && snapshot.recorded@.len() == 0,
    decreases drainers.len(),
{
    if drainers.len() > 0 {
        lemma_no_detail_no_timings(drainers.drop_last(), which);
        assert(Multiset::<u64>::empty().add(Multiset::empty()) =~= Multiset::<u64>::empty());
    }
    assert forall|snapshot: HistSnapshot|
        #[trigger] snapshot.shows(merged_timing(drainers, which)) implies snapshot.count == 0
        && snapshot.min_ns == 0 && snapshot.max_ns == 0 && snapshot.recorded@.len() == 0 by {
        if snapshot.recorded@.len() > 0 {
            assert(0 < snapshot.recorded@[0].1);
        }
    }
}

/// The merged distribution holds as many durations as those of the drainers
/// do together.
pub proof fn lemma_merged_count(drainers: Seq<DrainerView>, which: Timing)
    ensures
        merged_timing(drainers, which).len() == drainers.fold_left(
            0nat,
            |n: nat, d: DrainerView| n + d.timing(which).len(),
        ),
    decreases drainers.len(),
{
    if drainers.len() > 0 {
        lemma_merged_count(drainers.drop_last(), which);
    }
}

} // verus!
