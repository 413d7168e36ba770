//! The historical trace data model.
//!
//! A trace is an ordered sequence of recorded lines, each holding the exact
//! byte content of the line and the time elapsed, in milliseconds, since the
//! previous distinct line of that run, together with the total duration of
//! the run.  Contents are unique across a well-formed trace and the total is
//! at least the sum of the individual durations.

use vstd::prelude::*;

verus! {

/// One recorded output line: its exact byte content and the time in
/// milliseconds since the previous distinct line of the same run.
pub struct Line {
    pub data: Vec<u8>,
    pub dur: u64,
}

/// A recorded run: distinct lines in first-seen order, and the total
/// duration of the run in milliseconds.
pub struct OutputData {
    pub lines: Vec<Line>,
    pub total: u64,
}

/// The sum of `ds[from..to]`, as an unbounded integer.
pub open spec fn sum_durs(ds: Seq<u64>, from: int, to: int) -> int
    decreases to - from,
{
    if from >= to {
        0
    } else {
        ds[from] + sum_durs(ds, from + 1, to)
    }
}

/// The byte contents of a sequence of recorded lines, in order.
pub open spec fn line_contents_of(s: Seq<Line>) -> Seq<Seq<u8>> {
    s.map_values(|l: Line| l.data@)
}

/// The durations of a sequence of recorded lines, in order.
pub open spec fn line_durs_of(s: Seq<Line>) -> Seq<u64> {
    s.map_values(|l: Line| l.dur)
}

/// The (content, duration) pairs of a sequence of recorded lines, in order.
pub open spec fn line_pairs_of(s: Seq<Line>) -> Seq<(Seq<u8>, u64)> {
    s.map_values(|l: Line| (l.data@, l.dur))
}

impl OutputData {
    /// The byte contents of the recorded lines, in trace order.
    pub open spec fn contents(self) -> Seq<Seq<u8>> {
        line_contents_of(self.lines@)
    }

    /// The durations of the recorded lines, in trace order.
    pub open spec fn durs(self) -> Seq<u64> {
        line_durs_of(self.lines@)
    }

    /// The (content, duration) pairs of the recorded lines, in trace order.
    pub open spec fn pairs(self) -> Seq<(Seq<u8>, u64)> {
        line_pairs_of(self.lines@)
    }

    /// The sum of the durations of the lines with index in `[0, upto)`.
    pub open spec fn elapsed_upto(self, upto: int) -> int {
        sum_durs(self.durs(), 0, upto)
    }

    /// Well-formedness: contents are unique across the trace and the total
    /// duration covers the sum of the individual durations.
    pub open spec fn wf(self) -> bool {
        &&& forall|i: int, j: int|
            0 <= i < j < self.lines@.len() ==> self.lines@[i].data@ != self.lines@[j].data@
        &&& sum_durs(self.durs(), 0, self.lines@.len() as int) <= self.total
    }
}

/// Sums of non-negative entries grow with the range: extending `[from, to)`
/// on the right can only increase the sum.
pub proof fn lemma_sum_durs_monotone(ds: Seq<u64>, from: int, to1: int, to2: int)
    requires
        to1 <= to2,
    ensures
        sum_durs(ds, from, to1) <= sum_durs(ds, from, to2),
    decreases to1 - from,
{
    if from < to1 {
        lemma_sum_durs_monotone(ds, from + 1, to1, to2);
    } else {
        lemma_sum_durs_nonneg(ds, from, to2);
    }
}

/// A sum over any range is non-negative.
pub proof fn lemma_sum_durs_nonneg(ds: Seq<u64>, from: int, to: int)
    ensures
        0 <= sum_durs(ds, from, to),
    decreases to - from,
{
    if from < to {
        lemma_sum_durs_nonneg(ds, from + 1, to);
    }
}

/// Sums over adjacent ranges add up: `[from, mid)` plus `[mid, to)` covers
/// `[from, to)`.
pub proof fn lemma_sum_durs_split(ds: Seq<u64>, from: int, mid: int, to: int)
    requires
        from <= mid <= to,
    ensures
        sum_durs(ds, from, to) == sum_durs(ds, from, mid) + sum_durs(ds, mid, to),
    decreases mid - from,
{
    if from < mid {
        lemma_sum_durs_split(ds, from + 1, mid, to);
    }
}

/// Sums agree on a range where the sequences agree pointwise.
pub proof fn lemma_sum_equal_prefix(a: Seq<u64>, b: Seq<u64>, from: int, to: int)
    requires
        forall|k: int| from <= k < to ==> a[k] == b[k],
    ensures
        sum_durs(a, from, to) == sum_durs(b, from, to),
    decreases to - from,
{
    if from < to {
        lemma_sum_equal_prefix(a, b, from + 1, to);
    }
}

/// The sum only reads the entries inside the range, so it is unchanged when
/// the sequence is extended on the right.
pub proof fn lemma_sum_durs_push(ds: Seq<u64>, d: u64, from: int, to: int)
    requires
        0 <= from || to <= from,
        to <= ds.len(),
    ensures
        sum_durs(ds.push(d), from, to) == sum_durs(ds, from, to),
    decreases to - from,
{
    if from < to {
        lemma_sum_durs_push(ds, d, from + 1, to);
    }
}

} // verus!
