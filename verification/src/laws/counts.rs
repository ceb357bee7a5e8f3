//! Counters and timings: what is counted, what is kept of a duration, and what
//! a reader is shown of several drainers.

use crate::arith::{sum_u64, sum_usize, wrap_u64, wrap_usize};
use crate::hist::{level, level_top, range_end};
use crate::metrics::{
    greatest, merged_timing, timing_end, with_duration, with_durations, DetailView,
    DrainerMetrics, DrainerView, HistSnapshot, Metrics, MetricsView, Timing,
};
use crate::server::{SampleInfo, Server};
use vstd::multiset::Multiset;
use vstd::prelude::*;

verus! {

/// The greatest of several values is one of them, and none is greater; of no
/// values it is zero.
pub proof fn lemma_greatest(values: Seq<usize>)
    ensures
        forall|i: int| 0 <= i < values.len() ==> #[trigger] values[i] <= greatest(values),
        values.len() > 0 ==> values.contains(greatest(values)),
        values.len() == 0 ==> greatest(values) == 0,
    decreases values.len(),
{
    if values.len() > 0 {
        let rest = values.drop_last();
        lemma_greatest(rest);
        assert forall|i: int| 0 <= i < values.len() implies #[trigger] values[i] <= greatest(
            values,
        ) by {
            if i < rest.len() {
                assert(rest[i] <= greatest(rest));
            }
        }
        if greatest(rest) < values.last() || rest.len() == 0 {
            assert(values[values.len() - 1] == greatest(values));
        } else {
            let i = choose|i: int| 0 <= i < rest.len() && rest[i] == greatest(rest);
            assert(values[i] == greatest(values));
        }
    }
}

/// A value is kept within three significant digits: its level is no greater,
/// and less by no more than a thousandth; the top of the level is no smaller.
pub proof fn lemma_level(value: nat)
    ensures
        level(value) <= value <= level_top(value),
        1000 * (value - level(value)) <= value,
        1000 * (level_top(value) - value) <= value,
        level(level(value)) == level(value),
        level(level_top(value)) == level(value),
    decreases value,
{
    lemma_level_error(value);
    if value >= 2048 {
        lemma_level(value / 2);
        assert(level(value / 2) >= 1024) by {
            lemma_level_error(value / 2);
        }
        assert((2 * level(value / 2)) / 2 == level(value / 2));
        assert((2 * level_top(value / 2) + 1) / 2 == level_top(value / 2));
    }
}

/// How far a value is from its level and the top of it.
proof fn lemma_level_error(value: nat)
    ensures
        level(value) <= value <= level_top(value),
        value >= 1024 ==> 1024 * (value - level(value) + 1) <= value,
        value >= 1024 ==> 1024 * (level_top(value) - value + 1) <= value,
        value >= 1024 ==> level(value) >= 1024,
    decreases value,
{
    if value >= 2048 {
        lemma_level_error(value / 2);
    }
}

/// A measurement is counted once, at its level. No time at all counts as one
/// nanosecond; up to ten seconds everything is counted, and from a bound below
/// twenty seconds on nothing is.
pub proof fn lemma_duration_counted(levels: Multiset<u64>, ns: u64)
    ensures
        1 <= ns <= 10_000_000_000 ==> with_duration(levels, ns) == levels.insert(
            level(ns as nat) as u64,
        ),
        1 <= ns <= 10_000_000_000 ==> with_duration(levels, ns).len() == levels.len() + 1,
        with_duration(levels, 0) == with_duration(levels, 1),
        10_000_000_000 < timing_end() < 20_000_000_000,
        1 <= ns < timing_end() ==> with_duration(levels, ns) == levels.insert(
            level(ns as nat) as u64,
        ),
        ns >= timing_end() ==> with_duration(levels, ns) == levels,
{
    reveal_with_fuel(range_end, 26);
    assert(timing_end() == 0x4_0000_0000);
}

/// Measurements are counted one after the other.
pub proof fn lemma_durations_counted(
    levels: Multiset<u64>,
    first: Seq<u64>,
    then: Seq<u64>,
    ns: u64,
)
    ensures
        with_durations(levels, Seq::empty()) == levels,
        with_durations(levels, seq![ns]) == with_duration(levels, ns),
        with_durations(levels, first + then) == with_durations(
            with_durations(levels, first),
            then,
        ),
    decreases then.len(),
{
    assert(seq![ns].drop_last() =~= Seq::<u64>::empty());
    assert(with_durations(levels, seq![ns].drop_last()) == levels);
    if then.len() == 0 {
        assert(first + then =~= first);
    } else {
        lemma_durations_counted(levels, first, then.drop_last(), ns);
        assert((first + then).drop_last() =~= first + then.drop_last());
    }
}

/// As many values as measurements, if none was out of range.
pub proof fn lemma_every_duration_counted(levels: Multiset<u64>, ns: Seq<u64>)
    requires
        forall|i: int| 0 <= i < ns.len() ==> #[trigger] ns[i] <= 10_000_000_000,
    ensures
        with_durations(levels, ns).len() == levels.len() + ns.len(),
    decreases ns.len(),
{
    if ns.len() > 0 {
        let before = with_durations(levels, ns.drop_last());
        lemma_every_duration_counted(levels, ns.drop_last());
        assert(ns[ns.len() - 1] <= 10_000_000_000);
        lemma_duration_counted(before, ns.last());
        lemma_duration_counted(before, 1);
    }
}

/// The three distributions of a drainer are told apart, and none of them holds
/// anything where the detailed part is not kept.
pub proof fn lemma_timings(drainer: DrainerView)
    ensures
        drainer.detail matches Some(d) ==> {
            &&& drainer.timing(Timing::Memcpy) == d.memcpy
            &&& drainer.timing(Timing::DrainRound) == d.drain_round
            &&& drainer.timing(Timing::QueueDwell) == d.queue_dwell
        },
        drainer.detail is None ==> {
            &&& drainer.timing(Timing::Memcpy) == Multiset::<u64>::empty()
            &&& drainer.timing(Timing::DrainRound) == Multiset::<u64>::empty()
            &&& drainer.timing(Timing::QueueDwell) == Multiset::<u64>::empty()
        },
{
}

/// A measurement goes into the distribution that it is for, and changes nothing
/// else; where the detailed part is not kept it changes nothing.
pub proof fn lemma_timed(before: DrainerView, after: DrainerView, which: Timing, ns: u64)
    requires
        before.timed(after, which, ns),
    ensures
        before.detail is None ==> after == before,
        after.queue_depth_sum == before.queue_depth_sum,
        after.queue_depth_max == before.queue_depth_max,
        after.samples_inserted == before.samples_inserted,
        before.detail matches Some(b) ==> {
            &&& after.detail matches Some(a)
            &&& a.cas_success == b.cas_success
            &&& a.cas_failure == b.cas_failure
            &&& a.reservation_retries == b.reservation_retries
            &&& a.memcpy == if which is Memcpy {
                after.timing(which)
            } else {
                b.memcpy
            }
            &&& a.drain_round == if which is DrainRound {
                after.timing(which)
            } else {
                b.drain_round
            }
            &&& a.queue_dwell == if which is QueueDwell {
                after.timing(which)
            } else {
                b.queue_dwell
            }
            &&& before.timing(which).len() < u64::MAX && 1 <= ns <= 10_000_000_000 ==> after.timing(
                which,
            ) == before.timing(which).insert(level(ns as nat) as u64)
        },
{
    lemma_duration_counted(before.timing(which), ns);
}

/// A reservation counts its lost claims as failures and as retries, and a claim
/// that was won as a success; nothing else changes.
pub proof fn lemma_reservation_counts(before: DrainerView, lost: u64, won: bool)
    ensures
        ({
            let after = before.reserved(lost, won);
            &&& before.detail is None ==> after == before
            &&& after.queue_depth_sum == before.queue_depth_sum
            &&& after.queue_depth_max == before.queue_depth_max
            &&& after.samples_inserted == before.samples_inserted
            &&& before.detail matches Some(b) ==> {
                &&& after.detail matches Some(a)
                &&& b.cas_success < u64::MAX ==> a.cas_success == b.cas_success + if won {
                    1int
                } else {
                    0
                }
                &&& b.cas_failure + lost <= u64::MAX ==> a.cas_failure == b.cas_failure + lost
                &&& b.reservation_retries + lost <= u64::MAX ==> a.reservation_retries
                    == b.reservation_retries + lost
                &&& a.memcpy == b.memcpy
                &&& a.drain_round == b.drain_round
                &&& a.queue_dwell == b.queue_dwell
            }
        }),
{
}

/// What inserting samples counts: the samples, one claim for each reservation,
/// the lost claims, and for each reservation the time that its copies took.
pub proof fn lemma_insertion_counts(
    before: DrainerView,
    after: DrainerView,
    done: nat,
    runs: nat,
    lost: u64,
)
    requires
        before.batch_inserted(after, done, runs, lost),
        done <= u64::MAX,
        runs <= u64::MAX,
    ensures
        after.queue_depth_sum == before.queue_depth_sum,
        after.queue_depth_max == before.queue_depth_max,
        before.samples_inserted + done <= u64::MAX ==> after.samples_inserted
            == before.samples_inserted + done,
        before.detail is None ==> after.detail is None,
        before.detail matches Some(b) ==> {
            &&& after.detail matches Some(a)
            &&& b.cas_success + runs <= u64::MAX ==> a.cas_success == b.cas_success + runs
            &&& b.cas_failure + lost <= u64::MAX ==> a.cas_failure == b.cas_failure + lost
            &&& b.reservation_retries + lost <= u64::MAX ==> a.reservation_retries
                == b.reservation_retries + lost
            &&& a.drain_round == b.drain_round
            &&& a.queue_dwell == b.queue_dwell
            &&& b.memcpy.len() + runs <= u64::MAX ==> b.memcpy.len() <= a.memcpy.len()
                <= b.memcpy.len() + runs
        },
{
    if let Some(b) = before.detail {
        let a = after.detail->0;
        if b.memcpy.len() + runs <= u64::MAX {
            let ns = choose|ns: Seq<u64>|
                ns.len() == runs && a.memcpy == #[trigger] with_durations(b.memcpy, ns);
            lemma_durations_bound(b.memcpy, ns);
        }
    }
}

/// A measurement adds one value or none.
proof fn lemma_durations_bound(levels: Multiset<u64>, ns: Seq<u64>)
    ensures
        levels.len() <= with_durations(levels, ns).len() <= levels.len() + ns.len(),
    decreases ns.len(),
{
    if ns.len() > 0 {
        lemma_durations_bound(levels, ns.drop_last());
    }
}

/// The distributions of drainers come together without loss.
pub proof fn lemma_merged(
    first: Seq<DrainerView>,
    then: Seq<DrainerView>,
    one: DrainerView,
    which: Timing,
)
    ensures
        merged_timing(Seq::empty(), which) == Multiset::<u64>::empty(),
        merged_timing(seq![one], which) == one.timing(which),
        merged_timing(first + then, which) == merged_timing(first, which).add(
            merged_timing(then, which),
        ),
    decreases then.len(),
{
    assert(seq![one].drop_last() =~= Seq::<DrainerView>::empty());
    assert(merged_timing(seq![one].drop_last(), which) == Multiset::<u64>::empty());
    assert(merged_timing(seq![one], which) =~= one.timing(which));
    if then.len() == 0 {
        assert(first + then =~= first);
        assert(merged_timing(first + then, which) =~= merged_timing(first, which).add(
            merged_timing(then, which),
        ));
    } else {
        lemma_merged(first, then.drop_last(), one, which);
        assert((first + then).drop_last() =~= first + then.drop_last());
        assert(merged_timing(first + then, which) =~= merged_timing(first, which).add(
            merged_timing(then, which),
        ));
    }
}

/// What a snapshot tells of a distribution: how many values there are, the
/// least one, and that all lie between the least and the greatest.
pub proof fn lemma_snapshot(snapshot: HistSnapshot, levels: Multiset<u64>, value: u64)
    requires
        snapshot.shows(levels),
    ensures
        levels.len() <= u64::MAX ==> snapshot.count == levels.len(),
        levels.contains(value) ==> snapshot.min_ns <= value <= snapshot.max_ns,
        levels.len() > 0 ==> levels.contains(snapshot.min_ns),
        levels.len() == 0 ==> snapshot.count == 0 && snapshot.recorded@.len() == 0,
        levels.contains(value) ==> exists|i: int|
            0 <= i < snapshot.recorded@.len() && value <= (#[trigger] snapshot.recorded@[i]).0,
{
    lemma_level(value as nat);
    if levels.len() == 0 && snapshot.recorded@.len() > 0 {
        assert(snapshot.recorded@[0].1 == levels.count(
            level(snapshot.recorded@[0].0 as nat) as u64,
        ));
        assert(levels =~= Multiset::<u64>::empty());
    }
    if levels.contains(value) {
        let i = choose|i: int|
            0 <= i < snapshot.recorded@.len() && (#[trigger] snapshot.recorded@[i]).0 == level_top(
                value as nat,
            );
        assert(value <= snapshot.recorded@[i].0);
    }
}

/// A connection that is made is one more, and one that is closed one fewer;
/// closing it undoes making it. No other count changes.
pub proof fn lemma_connections_come_and_go(m: MetricsView)
    ensures
        m.active_connections < usize::MAX ==> m.connected().active_connections
            == m.active_connections + 1,
        m.active_connections > 0 ==> m.disconnected().active_connections == m.active_connections
            - 1,
        m.connected().disconnected() == m,
        m.connected().push_blocked_count == m.push_blocked_count,
        m.connected().notify_count == m.notify_count,
        m.connected().drainers == m.drainers,
{
}

/// A counter that takes in one more summand.
proof fn lemma_one_more_u64(values: Seq<u64>, value: u64)
    ensures
        wrap_u64(sum_u64(values.push(value))) == (wrap_u64(sum_u64(values)) as u64).wrapping_add(
            value,
        ),
{
    assert(values.push(value).drop_last() =~= values);
    lemma_one_more(sum_u64(values) as int, value as int, u64::MAX + 1);
}

/// A count that takes in one more summand.
proof fn lemma_one_more_usize(values: Seq<usize>, value: usize)
    ensures
        wrap_usize(sum_usize(values.push(value))) == (wrap_usize(
            sum_usize(values),
        ) as usize).wrapping_add(value),
{
    assert(values.push(value).drop_last() =~= values);
    lemma_one_more(sum_usize(values) as int, value as int, usize::MAX + 1);
}

/// A remainder after one more summand.
proof fn lemma_one_more(sum: int, value: int, m: int)
    requires
        0 <= sum,
        0 <= value < m,
    ensures
        0 <= sum % m < m,
        (sum + value) % m == if sum % m + value >= m {
            sum % m + value - m
        } else {
            sum % m + value
        },
{
    vstd::arithmetic::div_mod::lemma_mod_bound(sum, m);
    vstd::arithmetic::div_mod::lemma_add_mod_noop(sum, value, m);
    vstd::arithmetic::div_mod::lemma_small_mod(value as nat, m as nat);
    let part = sum % m + value;
    if part < m {
        vstd::arithmetic::div_mod::lemma_small_mod(part as nat, m as nat);
    } else {
        vstd::arithmetic::div_mod::lemma_fundamental_div_mod_converse(part, m, 1, part - m);
    }
}

/// What a reader sees without any drainer: the counts of the connections, and
/// zeros.
pub proof fn lemma_info_without_drainers(info: SampleInfo, size: int, m: MetricsView)
    requires
        info.shows(size, m),
        m.drainers.len() == 0,
    ensures
        info.store_size == size,
        info.active_connections == m.active_connections,
        info.push_blocked_count == m.push_blocked_count,
        info.notify_count == m.notify_count,
        info.queue_depth_sum == 0,
        info.queue_depth_max == 0,
        info.samples_inserted_total == 0,
        info.cas_success_total == 0,
        info.cas_failure_total == 0,
        info.reservation_retries_total == 0,
        info.drain_round.count == 0,
        info.memcpy.count == 0,
        info.queue_dwell.count == 0,
{
    vstd::arithmetic::div_mod::lemma_small_mod(0, usize::MAX as nat + 1);
    vstd::arithmetic::div_mod::lemma_small_mod(0, u64::MAX as nat + 1);
}

/// What one more drainer adds to what a reader sees: its samples, its queued
/// samples and its claims are added to the totals, its deepest queue counts if
/// it is deeper than the others, and its timings join those of the others.
pub proof fn lemma_info_with_one_more_drainer(
    info: SampleInfo,
    more: SampleInfo,
    size: int,
    m: MetricsView,
    d: DrainerView,
)
    requires
        info.shows(size, m),
        more.shows(size, MetricsView { drainers: m.drainers.push(d), ..m }),
    ensures
        more.store_size == info.store_size,
        more.active_connections == info.active_connections,
        more.push_blocked_count == info.push_blocked_count,
        more.notify_count == info.notify_count,
        more.queue_depth_sum == info.queue_depth_sum.wrapping_add(d.queue_depth_sum),
        more.queue_depth_max == if info.queue_depth_max < d.queue_depth_max {
            d.queue_depth_max
        } else {
            info.queue_depth_max
        },
        more.samples_inserted_total == info.samples_inserted_total.wrapping_add(
            d.samples_inserted,
        ),
        d.detail matches Some(detail) ==> {
            &&& more.cas_success_total == info.cas_success_total.wrapping_add(detail.cas_success)
            &&& more.cas_failure_total == info.cas_failure_total.wrapping_add(detail.cas_failure)
            &&& more.reservation_retries_total == info.reservation_retries_total.wrapping_add(
                detail.reservation_retries,
            )
            &&& info.memcpy.count + detail.memcpy.len() <= u64::MAX && merged_timing(
                m.drainers,
                Timing::Memcpy,
            ).len() <= u64::MAX ==> more.memcpy.count == info.memcpy.count + detail.memcpy.len()
            &&& info.drain_round.count + detail.drain_round.len() <= u64::MAX && merged_timing(
                m.drainers,
                Timing::DrainRound,
            ).len() <= u64::MAX ==> more.drain_round.count == info.drain_round.count
                + detail.drain_round.len()
            &&& info.queue_dwell.count + detail.queue_dwell.len() <= u64::MAX && merged_timing(
                m.drainers,
                Timing::QueueDwell,
            ).len() <= u64::MAX ==> more.queue_dwell.count == info.queue_dwell.count
                + detail.queue_dwell.len()
        },
        d.detail is None ==> {
            &&& more.cas_success_total == info.cas_success_total
            &&& more.cas_failure_total == info.cas_failure_total
            &&& more.reservation_retries_total == info.reservation_retries_total
        },
{
    let all = m.drainers.push(d);
    let depth_sum = |d: DrainerView| d.queue_depth_sum;
    let depth_max = |d: DrainerView| d.queue_depth_max;
    let samples = |d: DrainerView| d.samples_inserted;
    let success = |d: DrainerView| d.detail_or_zero().cas_success;
    let failure = |d: DrainerView| d.detail_or_zero().cas_failure;
    let retries = |d: DrainerView| d.detail_or_zero().reservation_retries;
    assert(all.map_values(depth_sum) =~= m.drainers.map_values(depth_sum).push(
        d.queue_depth_sum,
    ));
    assert(all.map_values(depth_max) =~= m.drainers.map_values(depth_max).push(
        d.queue_depth_max,
    ));
    assert(all.map_values(samples) =~= m.drainers.map_values(samples).push(d.samples_inserted));
    assert(all.map_values(success) =~= m.drainers.map_values(success).push(
        d.detail_or_zero().cas_success,
    ));
    assert(all.map_values(failure) =~= m.drainers.map_values(failure).push(
        d.detail_or_zero().cas_failure,
    ));
    assert(all.map_values(retries) =~= m.drainers.map_values(retries).push(
        d.detail_or_zero().reservation_retries,
    ));
    lemma_one_more_usize(m.drainers.map_values(depth_sum), d.queue_depth_sum);
    lemma_one_more_u64(m.drainers.map_values(samples), d.samples_inserted);
    lemma_one_more_u64(m.drainers.map_values(success), d.detail_or_zero().cas_success);
    lemma_one_more_u64(m.drainers.map_values(failure), d.detail_or_zero().cas_failure);
    lemma_one_more_u64(m.drainers.map_values(retries), d.detail_or_zero().reservation_retries);
    assert(m.drainers.map_values(depth_max).push(d.queue_depth_max).drop_last()
        =~= m.drainers.map_values(depth_max));
    assert(all.drop_last() =~= m.drainers);
    assert(DetailView::zero().cas_success == 0);
}

/// What is recorded is what is counted, and nothing else is: `n` samples are
/// `n` more, one lost claim is one more, `n` retries are `n` more, and the depths
/// of the latest round replace those before.
pub proof fn lemma_recorded(
    one: &mut DrainerMetrics,
    two: &mut DrainerMetrics,
    three: &mut DrainerMetrics,
    four: &mut DrainerMetrics,
    five: &mut DrainerMetrics,
    n: u64,
    sum: usize,
    max: usize,
)
    requires
        call_ensures(DrainerMetrics::record_samples_inserted, (one, n), ()),
        call_ensures(DrainerMetrics::record_cas_success, (two,), ()),
        call_ensures(DrainerMetrics::record_cas_failure, (three,), ()),
        call_ensures(DrainerMetrics::record_reservation_retries, (four, n), ()),
        call_ensures(DrainerMetrics::record_queue_depth, (five, sum, max), ()),
    ensures
        old(one)@.samples_inserted + n <= u64::MAX ==> final(one)@.samples_inserted == old(
            one,
        )@.samples_inserted + n,
        final(one)@ == (DrainerView {
            samples_inserted: final(one)@.samples_inserted,
            ..old(one)@
        }),
        old(two)@.detail matches Some(d) ==> (d.cas_success < u64::MAX ==> final(two)@ == (
        DrainerView {
            detail: Some(DetailView { cas_success: (d.cas_success + 1) as u64, ..d }),
            ..old(two)@
        })),
        old(three)@.detail matches Some(d) ==> (d.cas_failure < u64::MAX ==> final(three)@ == (
        DrainerView {
            detail: Some(DetailView { cas_failure: (d.cas_failure + 1) as u64, ..d }),
            ..old(three)@
        })),
        old(four)@.detail matches Some(d) ==> (d.reservation_retries + n <= u64::MAX
            ==> final(four)@ == (DrainerView {
            detail: Some(
                DetailView { reservation_retries: (d.reservation_retries + n) as u64, ..d },
            ),
            ..old(four)@
        })),
        final(five)@ == (DrainerView { queue_depth_sum: sum, queue_depth_max: max, ..old(five)@ }),
{
}

/// The totals of a reader are those of the metrics.
pub proof fn lemma_totals_agree(
    server: &Server,
    info: SampleInfo,
    samples: u64,
    success: u64,
    failure: u64,
    retries: u64,
    depth: usize,
)
    requires
        call_ensures(Server::sample_info, (server,), info),
        call_ensures(Metrics::samples_inserted_total, (&server.metrics,), samples),
        call_ensures(Metrics::cas_success_total, (&server.metrics,), success),
        call_ensures(Metrics::cas_failure_total, (&server.metrics,), failure),
        call_ensures(Metrics::reservation_retries_total, (&server.metrics,), retries),
        call_ensures(Metrics::queue_depth_max, (&server.metrics,), depth),
    ensures
        info.samples_inserted_total == samples,
        info.cas_success_total == success,
        info.cas_failure_total == failure,
        info.reservation_retries_total == retries,
        info.queue_depth_max == depth,
        forall|i: int|
            0 <= i < server.metrics@.drainers.len() ==> (
            #[trigger] server.metrics@.drainers[i]).queue_depth_max <= depth,
{
    let depths = server.metrics@.drainers.map_values(|d: DrainerView| d.queue_depth_max);
    lemma_greatest(depths);
    assert forall|i: int| 0 <= i < server.metrics@.drainers.len() implies (
    #[trigger] server.metrics@.drainers[i]).queue_depth_max <= depth by {
        assert(depths[i] <= depth);
    }
}

/// A reset empties the timings of every drainer, and leaves every count.
pub proof fn lemma_reset(metrics: &mut Metrics, i: int)
    requires
        call_ensures(Metrics::reset_histograms, (metrics,), ()),
        0 <= i < old(metrics)@.drainers.len(),
    ensures
        final(metrics)@.drainers.len() == old(metrics)@.drainers.len(),
        final(metrics)@.active_connections == old(metrics)@.active_connections,
        final(metrics)@.push_blocked_count == old(metrics)@.push_blocked_count,
        final(metrics)@.notify_count == old(metrics)@.notify_count,
        final(metrics)@.drainers[i].samples_inserted == old(metrics)@.drainers[i].samples_inserted,
        final(metrics)@.drainers[i].queue_depth_sum == old(metrics)@.drainers[i].queue_depth_sum,
        final(metrics)@.drainers[i].queue_depth_max == old(metrics)@.drainers[i].queue_depth_max,
        old(metrics)@.drainers[i].detail matches Some(d) ==> final(metrics)@.drainers[i].detail
            == Some(
            DetailView {
                memcpy: Multiset::empty(),
                drain_round: Multiset::empty(),
                queue_dwell: Multiset::empty(),
                ..d
            },
        ),
{
}

} // verus!
