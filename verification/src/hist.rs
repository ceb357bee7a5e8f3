//! Timing histograms, kept by the `hdrhistogram` crate.
//!
//! A histogram counts a value at its *level*: small values exactly, larger ones
//! with all but their leading bits cleared. The functions here are the only
//! ones that touch a histogram.

use hdrhistogram::Histogram;
use vstd::multiset::Multiset;
use vstd::prelude::*;

verus! {

/// Values below this are told apart exactly at three significant digits.
pub const EXACT_BELOW: u64 = 2048;

/// Histograms are made for values below this only, a quarter of the range of
/// `u64`. Close to the end of that range the crate caps the greatest value of a
/// level.
pub const LARGEST_HIGH: u64 = 0x4000_0000_0000_0000;

/// The level at which `value` is counted: the least value that the histogram
/// does not tell apart from it.
pub open spec fn level(value: nat) -> nat
    decreases value,
{
    if value < EXACT_BELOW {
        value
    } else {
        2 * level(value / 2)
    }
}

/// The greatest value that is counted at the same level as `value`.
pub open spec fn level_top(value: nat) -> nat
    decreases value,
{
    if value < EXACT_BELOW {
        value
    } else {
        2 * level_top(value / 2) + 1
    }
}

/// The first of `end`, `2 * end`, `4 * end`, ... that lies above `high`.
pub open spec fn range_end(high: nat, end: nat) -> nat
    decreases
            (if end <= high {
                high + 1 - end
            } else {
                0
            }),
{
    if high < end || end == 0 {
        end
    } else {
        range_end(high, 2 * end)
    }
}

/// Whether the entry for the values up to `top` occurs among `entries`.
pub open spec fn has_entry(entries: Seq<(u64, u64)>, top: nat) -> bool {
    exists|i: int| 0 <= i < entries.len() && (#[trigger] entries[i]).0 == top
}

/// A histogram of the `hdrhistogram` crate. It stands in a struct of its own
/// because the crate's type carries a trait bound that Verus cannot name.
#[verifier::external_body]
pub struct TimingHist {
    inner: Histogram<u64>,
}

/// The levels of the values recorded in a histogram, each as often as values
/// were counted at it.
pub uninterp spec fn hist_levels(h: TimingHist) -> Multiset<u64>;

/// The bound below which a histogram can count values.
pub uninterp spec fn hist_end(h: TimingHist) -> nat;

impl TimingHist {
    /// Calls `Histogram::new_with_bounds`. With 1 as the lowest value and three
    /// significant digits the call succeeds for every `high` from 2 on, of which
    /// those below [`LARGEST_HIGH`] are admitted here; the histogram is empty,
    /// and can count the values below the first doubling of [`EXACT_BELOW`] that
    /// lies above `high`.
    #[verifier::external_body]
    pub(crate) fn new(low: u64, high: u64, sigfig: u8) -> (r: Option<Self>)
        requires
            low == 1,
            2 <= high < LARGEST_HIGH,
            sigfig == 3,
        ensures
            r is Some,
            hist_levels(r->0) == Multiset::<u64>::empty(),
            hist_end(r->0) == range_end(high as nat, EXACT_BELOW as nat),
    {
        Histogram::new_with_bounds(low, high, sigfig).ok().map(|inner| Self { inner })
    }

    /// Calls `Histogram::record`. A value within the bound is counted at its
    /// level; another one is refused, and nothing changes. The counts saturate,
    /// so nothing is said of the levels once `u64::MAX` values are recorded.
    #[verifier::external_body]
    pub(crate) fn record(&mut self, value: u64) -> (r: bool)
        ensures
            r == (value < hist_end(*old(self))),
            hist_end(*final(self)) == hist_end(*old(self)),
            !r ==> hist_levels(*final(self)) == hist_levels(*old(self)),
            r && hist_levels(*old(self)).len() < u64::MAX ==> hist_levels(*final(self))
                == hist_levels(*old(self)).insert(level(value as nat) as u64),
    {
        self.inner.record(value).is_ok()
    }

    /// Calls `Histogram::add`. Between histograms of the same bound it succeeds
    /// and adds up the counts. The counts saturate, so nothing is said of the
    /// levels when more than `u64::MAX` values come together.
    #[verifier::external_body]
    pub(crate) fn merge(&mut self, other: &Self) -> (r: bool)
        requires
            hist_end(*old(self)) == hist_end(*other),
        ensures
            r,
            hist_end(*final(self)) == hist_end(*old(self)),
            hist_levels(*old(self)).len() + hist_levels(*other).len() <= u64::MAX ==> hist_levels(
                *final(self),
            ) == hist_levels(*old(self)).add(hist_levels(*other)),
    {
        self.inner.add(&other.inner).is_ok()
    }

    /// Calls `Histogram::reset`, which empties the histogram and keeps its
    /// bound.
    #[verifier::external_body]
    pub(crate) fn reset(&mut self)
        ensures
            hist_levels(*final(self)) == Multiset::<u64>::empty(),
            hist_end(*final(self)) == hist_end(*old(self)),
    {
        self.inner.reset()
    }

    /// Calls `Histogram::len`: the number of recorded values. It saturates, so
    /// nothing is said beyond `u64::MAX`.
    #[verifier::external_body]
    pub(crate) fn len(&self) -> (r: u64)
        ensures
            hist_levels(*self).len() <= u64::MAX ==> r == hist_levels(*self).len(),
    {
        self.inner.len()
    }

    /// Calls `Histogram::min`: the least level at which a value is counted, or
    /// zero if there is none.
    #[verifier::external_body]
    pub(crate) fn min(&self) -> (r: u64)
        ensures
            hist_levels(*self).len() == 0 ==> r == 0,
            hist_levels(*self).len() > 0 ==> hist_levels(*self).contains(r),
            forall|l: u64| #[trigger] hist_levels(*self).contains(l) ==> r <= l,
    {
        self.inner.min()
    }

    /// Calls `Histogram::max`: the greatest value that is counted at the
    /// greatest level in use, or zero if nothing was recorded.
    #[verifier::external_body]
    pub(crate) fn max(&self) -> (r: u64)
        ensures
            hist_levels(*self).len() == 0 ==> r == 0,
            hist_levels(*self).len() > 0 ==> hist_levels(*self).contains(level(r as nat) as u64),
            r == level_top(r as nat),
            forall|l: u64| #[trigger] hist_levels(*self).contains(l) ==> level_top(l as nat) <= r,
    {
        self.inner.max()
    }

    /// Calls `Histogram::iter_recorded`: for every level in use, from the least
    /// on, the greatest value counted at it and how often values were. The
    /// counts saturate, so nothing is said of them beyond `u64::MAX` values.
    #[verifier::external_body]
    pub(crate) fn recorded(&self) -> (r: Vec<(u64, u64)>)
        ensures
            forall|i: int, j: int|
                0 <= i < j < r@.len() ==> (#[trigger] r@[i]).0 < (#[trigger] r@[j]).0,
            forall|i: int|
                0 <= i < r@.len() ==> (#[trigger] r@[i]).0 == level_top(r@[i].0 as nat) && 0
                    < r@[i].1,
            hist_levels(*self).len() <= u64::MAX ==> forall|i: int|
                0 <= i < r@.len() ==> (#[trigger] r@[i]).1 == hist_levels(*self).count(
                    level(r@[i].0 as nat) as u64,
                ),
            forall|l: u64| #[trigger]
                hist_levels(*self).contains(l) ==> has_entry(r@, level_top(l as nat)),
    {
        self.inner.iter_recorded().map(|v| (v.value_iterated_to(), v.count_at_value())).collect()
    }
}

} // verus!
