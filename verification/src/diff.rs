//! The historical-diff progress estimator.
//!
//! `OrigOutput` is the match engine: it walks a loaded historical trace and,
//! for every live output line, advances a monotone cursor and an accumulated
//! elapsed value that estimates how far into the historical run the live run
//! has progressed.  `CurrOutput` is the run recorder: it accumulates the
//! current run's distinct lines with their timing, to become the trace that
//! replaces the stored one.  `Writer` feeds both and applies the persistence
//! policy at the end of the run.

use vstd::prelude::*;

use crate::trace::{lemma_sum_durs_monotone, lemma_sum_durs_push, lemma_sum_durs_split};
use crate::trace::{lemma_sum_equal_prefix, line_pairs_of, sum_durs, Line, OutputData};

verus! {

impl OutputData {
    /// Whether some trace line has exactly the byte content `c`.
    pub open spec fn has_line(self, c: Seq<u8>) -> bool {
        exists|i: int| 0 <= i < self.lines@.len() && self.lines@[i].data@ == c
    }

    /// The sequence index of the trace line with content `c`; meaningful only
    /// when `has_line(c)` holds, and unique in a well-formed trace.
    pub open spec fn line_seq(self, c: Seq<u8>) -> int {
        choose|i: int| 0 <= i < self.lines@.len() && self.lines@[i].data@ == c
    }
}

/// In a well-formed trace the index of a content value is unique, so any
/// index that holds `c` is `line_seq(c)`.
pub proof fn lemma_line_seq_unique(t: OutputData, c: Seq<u8>, i: int)
    requires
        t.wf(),
        0 <= i < t.lines@.len(),
        t.lines@[i].data@ == c,
    ensures
        t.has_line(c),
        t.line_seq(c) == i,
{
    assert(t.has_line(c));
    let j = t.line_seq(c);
    assert(0 <= j < t.lines@.len() && t.lines@[j].data@ == c);
    if i < j {
        assert(t.lines@[i].data@ != t.lines@[j].data@);
    } else if j < i {
        assert(t.lines@[j].data@ != t.lines@[i].data@);
    }
}

/// The match cursor after consuming one live line `c`, starting from a
/// cursor that has consumed the historical lines `[0, upto)`: a line found at
/// or ahead of the cursor advances it just past that line; anything else
/// leaves it unchanged.
pub open spec fn step_upto(t: OutputData, upto: int, c: Seq<u8>) -> int {
    if t.has_line(c) && t.line_seq(c) >= upto {
        t.line_seq(c) + 1
    } else {
        upto
    }
}

/// The match cursor after consuming the live lines `ls` in order, starting
/// from a fresh cursor.
pub open spec fn upto_after(t: OutputData, ls: Seq<Seq<u8>>) -> int
    decreases ls.len(),
{
    if ls.len() == 0 {
        0
    } else {
        step_upto(t, upto_after(t, ls.drop_last()), ls.last())
    }
}

/// The accumulated elapsed estimate after consuming the live lines `ls`: the
/// sum of the durations of every historical line the cursor has consumed.
pub open spec fn elapsed_after(t: OutputData, ls: Seq<Seq<u8>>) -> int {
    t.elapsed_upto(upto_after(t, ls))
}

/// One step never moves the cursor backwards.
pub proof fn lemma_step_upto_monotone(t: OutputData, upto: int, c: Seq<u8>)
    ensures
        step_upto(t, upto, c) >= upto,
{
}

/// Consuming one more live line steps the cursor from the cursor of the
/// prefix before it.
proof fn lemma_upto_after_step_prefix(t: OutputData, ls: Seq<Seq<u8>>, j: int)
    requires
        1 <= j <= ls.len(),
    ensures
        upto_after(t, ls.take(j)) == step_upto(t, upto_after(t, ls.take(j - 1)), ls[j - 1]),
{
    assert(ls.take(j).drop_last() =~= ls.take(j - 1));
    assert(ls.take(j).last() == ls[j - 1]);
}

/// Monotonicity: for any live input sequence, the accumulated elapsed values
/// reported by the match engine never decrease as more lines are consumed:
/// any earlier prefix of the input reports at most what a later prefix
/// reports.
pub proof fn lemma_progress_monotone(t: OutputData, ls: Seq<Seq<u8>>, i: int, j: int)
    requires
        t.wf(),
        0 <= i <= j <= ls.len(),
    ensures
        elapsed_after(t, ls.take(i)) <= elapsed_after(t, ls.take(j)),
    decreases j - i,
{
    if i < j {
        lemma_progress_monotone(t, ls, i, j - 1);
        lemma_upto_after_step_prefix(t, ls, j);
        lemma_step_upto_monotone(t, upto_after(t, ls.take(j - 1)), ls[j - 1]);
        lemma_sum_durs_monotone(t.durs(), 0, upto_after(t, ls.take(j - 1)),
            upto_after(t, ls.take(j)));
    }
}

/// Replaying the first `k` historical lines in order consumes exactly them.
proof fn lemma_replay_prefix(t: OutputData, k: int)
    requires
        t.wf(),
        0 <= k <= t.lines@.len(),
    ensures
        upto_after(t, t.contents().take(k)) == k,
    decreases k,
{
    if k > 0 {
        lemma_replay_prefix(t, k - 1);
        lemma_upto_after_step_prefix(t, t.contents(), k);
        lemma_line_seq_unique(t, t.contents()[k - 1], k - 1);
    }
}

/// Idempotent replay: a live run whose line sequence exactly matches the
/// stored trace reaches a final accumulated elapsed value equal to the
/// trace's total, provided the total carries no trailing time beyond the
/// recorded durations.
pub proof fn lemma_idempotent_replay(t: OutputData)
    requires
        t.wf(),
        t.total == sum_durs(t.durs(), 0, t.lines@.len() as int),
    ensures
        elapsed_after(t, t.contents()) == t.total,
{
    lemma_replay_prefix(t, t.lines@.len() as int);
    assert(t.contents().take(t.lines@.len() as int) =~= t.contents());
}

/// A line that already occurred in the live stream lies strictly behind the
/// cursor once that stream has been consumed.
proof fn lemma_seen_line_behind(t: OutputData, p: Seq<Seq<u8>>, c: Seq<u8>)
    requires
        t.wf(),
        p.contains(c),
        t.has_line(c),
    ensures
        t.line_seq(c) < upto_after(t, p),
    decreases p.len(),
{
    if p.last() == c {
    } else {
        let i = choose|i: int| 0 <= i < p.len() && p[i] == c;
        assert(p.drop_last()[i] == c);
        lemma_seen_line_behind(t, p.drop_last(), c);
        lemma_step_upto_monotone(t, upto_after(t, p.drop_last()), p.last());
    }
}

/// Inserting a line that either already occurred or is absent from the trace
/// leaves the cursor of the whole stream unchanged.
proof fn lemma_insert_noop(t: OutputData, p: Seq<Seq<u8>>, q: Seq<Seq<u8>>, c: Seq<u8>)
    requires
        t.wf(),
        p.contains(c) || !t.has_line(c),
    ensures
        upto_after(t, p.push(c) + q) == upto_after(t, p + q),
    decreases q.len(),
{
    if q.len() == 0 {
        assert(p.push(c) + q =~= p.push(c));
        assert(p + q =~= p);
        assert(p.push(c).drop_last() =~= p);
        assert(p.push(c).last() == c);
        if t.has_line(c) {
            lemma_seen_line_behind(t, p, c);
        }
    } else {
        lemma_insert_noop(t, p, q.drop_last(), c);
        assert((p.push(c) + q).drop_last() =~= p.push(c) + q.drop_last());
        assert((p + q).drop_last() =~= p + q.drop_last());
        assert((p.push(c) + q).last() == q.last());
        assert((p + q).last() == q.last());
    }
}

/// Duplicate neutrality: inserting a repeated occurrence of a line that
/// already appeared in the live stream, anywhere after its first occurrence,
/// does not change the final accumulated elapsed value.
pub proof fn lemma_duplicate_neutral(t: OutputData, p: Seq<Seq<u8>>, q: Seq<Seq<u8>>, c: Seq<u8>)
    requires
        t.wf(),
        p.contains(c),
    ensures
        elapsed_after(t, p.push(c) + q) == elapsed_after(t, p + q),
{
    lemma_insert_noop(t, p, q, c);
}

/// Unmatched-line tolerance: inserting a line absent from the historical
/// trace, anywhere in the live stream, does not change the final accumulated
/// elapsed value.
pub proof fn lemma_unmatched_neutral(t: OutputData, p: Seq<Seq<u8>>, q: Seq<Seq<u8>>, c: Seq<u8>)
    requires
        t.wf(),
        !t.has_line(c),
    ensures
        elapsed_after(t, p.push(c) + q) == elapsed_after(t, p + q),
{
    lemma_insert_noop(t, p, q, c);
}

/// The match engine: the loaded historical trace, the cursor `seq` (the
/// number of historical lines consumed so far), the accumulated elapsed
/// value in milliseconds, a counter of matches that fell behind the cursor
/// (these never affect the reported progress), and the ghost history of
/// every live line consumed so far.
pub struct OrigOutput {
    pub data: OutputData,
    pub seq: usize,
    pub elapsed: u64,
    pub dups: u64,
    pub history: Ghost<Seq<Seq<u8>>>,
}

impl OrigOutput {
    /// Internal invariant: the cursor and the elapsed value are exactly what
    /// consuming the recorded history prescribes, so every law proved of
    /// `upto_after` and `elapsed_after` holds of the engine's state.
    pub open spec fn wf(self) -> bool {
        &&& self.data.wf()
        &&& self.seq <= self.data.lines@.len()
        &&& self.seq as int == upto_after(self.data, self.history@)
        &&& self.elapsed == elapsed_after(self.data, self.history@)
    }

    /// A fresh match engine over a loaded trace: nothing consumed yet.
    pub fn new(data: OutputData) -> (r: Self)
        requires
            data.wf(),
        ensures
            r.wf(),
            r.data == data,
            r.seq == 0,
            r.elapsed == 0,
            r.dups == 0,
            r.history@ == Seq::<Seq<u8>>::empty(),
    {
        OrigOutput { data, seq: 0, elapsed: 0, dups: 0, history: Ghost(Seq::empty()) }
    }

    /// Consume one live line: a line found at or ahead of the cursor advances
    /// the cursor past it and credits the durations of every line the jump
    /// consumed; a line found behind the cursor or absent from the trace
    /// leaves the estimate unchanged.
    pub fn write_line(&mut self, line: &Vec<u8>)
        requires
            old(self).wf(),
        ensures
            final(self).wf(),
            final(self).data == old(self).data,
            final(self).history@ == old(self).history@.push(line@),
            final(self).seq as int == step_upto(old(self).data, old(self).seq as int, line@),
            final(self).elapsed == old(self).data.elapsed_upto(final(self).seq as int),
            final(self).dups == if is_behind(old(self).data, old(self).seq as int, line@)
                && old(self).dups < u64::MAX { (old(self).dups + 1) as u64 } else { old(self).dups },
    {
        let found = lookup(&self.data, line);
        match found {
            None => {},
            Some(s) => {
                proof {
                    lemma_line_seq_unique(self.data, line@, s as int);
                }
                if s >= self.seq {
                    let ghost start_data = self.data;
                    let ghost start_seq = self.seq;
                    let ghost start_dups = self.dups;
                    let ghost start_history = self.history@;
                    let n = self.data.lines.len();
                    let mut i = self.seq;
                    while i <= s
                        invariant
                            self.data.wf(),
                            start_seq as int <= i as int <= s + 1,
                            s < n,
                            n == self.data.lines@.len(),
                            self.elapsed == self.data.elapsed_upto(i as int),
                            self.data == start_data,
                            self.seq == start_seq,
                            self.dups == start_dups,
                            self.history@ == start_history,
                        decreases s + 1 - i,
                    {
                        proof {
                            let ds = self.data.durs();
                            lemma_sum_durs_split(ds, 0, i as int, i as int + 1);
                            assert(sum_durs(ds, i as int + 1, i as int + 1) == 0);
                            assert(sum_durs(ds, i as int, i as int + 1) == ds[i as int]);
                            lemma_sum_durs_monotone(ds, 0, i as int + 1, n as int);
                            assert(ds[i as int] == self.data.lines@[i as int].dur);
                        }
                        self.elapsed = self.elapsed + self.data.lines[i].dur;
                        i = i + 1;
                    }
                    self.seq = s + 1;
                } else if s + 1 < self.seq {
                    if self.dups < u64::MAX {
                        self.dups = self.dups + 1;
                    }
                }
            },
        }
        proof {
            let h = self.history@;
            self.history@ = h.push(line@);
            assert(self.history@.drop_last() =~= h);
            assert(self.history@.last() == line@);
        }
    }
}

/// Monotonicity at the engine: an engine state reached from another by
/// consuming one more live line never shows a lower accumulated elapsed
/// value, whatever the line was.
pub proof fn lemma_engine_monotone(pre: OrigOutput, post: OrigOutput, c: Seq<u8>)
    requires
        pre.wf(),
        post.wf(),
        post.data == pre.data,
        post.history@ == pre.history@.push(c),
    ensures
        pre.elapsed <= post.elapsed,
{
    let ls = post.history@;
    assert(ls.take(ls.len() - 1) =~= pre.history@);
    assert(ls.take(ls.len() as int) =~= ls);
    lemma_progress_monotone(pre.data, ls, ls.len() - 1, ls.len() as int);
}

/// One line of the current run: its first-seen recording, and whether the
/// same content occurred again later in the run.
pub struct CurrLine {
    pub line: Line,
    pub dup: bool,
}

/// The run recorder: the current run's distinct lines in first-seen order,
/// each with the time since the previous distinct line and a duplicate mark,
/// plus the arrival time of the most recent distinct line (milliseconds
/// since the run started).
pub struct CurrOutput {
    pub lines: Vec<CurrLine>,
    pub last: u64,
}

/// The recorded lines that survive into the persisted trace, paired as
/// (content, duration): exactly the entries not marked duplicate, in order.
pub open spec fn kept_pairs_of(s: Seq<CurrLine>) -> Seq<(Seq<u8>, u64)>
    decreases s.len(),
{
    if s.len() == 0 {
        Seq::empty()
    } else {
        kept_pairs_of(s.drop_last()) + (if s.last().dup {
            Seq::empty()
        } else {
            seq![(s.last().line.data@, s.last().line.dur)]
        })
    }
}

/// The durations of a sequence of (content, duration) pairs.
pub open spec fn pair_durs(ps: Seq<(Seq<u8>, u64)>) -> Seq<u64> {
    ps.map_values(|p: (Seq<u8>, u64)| p.1)
}

/// The byte contents of a sequence of recorder entries, in order.
pub open spec fn curr_contents_of(s: Seq<CurrLine>) -> Seq<Seq<u8>> {
    s.map_values(|cl: CurrLine| cl.line.data@)
}

/// The recorded durations of a sequence of recorder entries, in order.
pub open spec fn curr_durs_of(s: Seq<CurrLine>) -> Seq<u64> {
    s.map_values(|cl: CurrLine| cl.line.dur)
}

/// The duplicate marks of a sequence of recorder entries, in order.
pub open spec fn curr_dups_of(s: Seq<CurrLine>) -> Seq<bool> {
    s.map_values(|cl: CurrLine| cl.dup)
}

impl CurrOutput {
    /// The byte contents of the recorded lines, in first-seen order.
    pub open spec fn contents(self) -> Seq<Seq<u8>> {
        curr_contents_of(self.lines@)
    }

    /// The recorded durations, in first-seen order.
    pub open spec fn durs(self) -> Seq<u64> {
        curr_durs_of(self.lines@)
    }

    /// The duplicate marks, in first-seen order.
    pub open spec fn dup_marks(self) -> Seq<bool> {
        curr_dups_of(self.lines@)
    }

    /// Whether content `c` has already been seen in this run.
    pub open spec fn has_seen(self, c: Seq<u8>) -> bool {
        exists|i: int| 0 <= i < self.lines@.len() && self.lines@[i].line.data@ == c
    }

    /// The slot of content `c`; meaningful only when `has_seen(c)` holds.
    pub open spec fn seen_seq(self, c: Seq<u8>) -> int {
        choose|i: int| 0 <= i < self.lines@.len() && self.lines@[i].line.data@ == c
    }

    /// The (content, duration) pairs that `finish` persists.
    pub open spec fn kept_pairs(self) -> Seq<(Seq<u8>, u64)> {
        kept_pairs_of(self.lines@)
    }

    /// Internal invariant: contents are unique and the recorded durations
    /// telescope to the arrival time of the most recent distinct line.
    pub open spec fn wf(self) -> bool {
        &&& forall|i: int, j: int|
            0 <= i < j < self.lines@.len()
                ==> self.lines@[i].line.data@ != self.lines@[j].line.data@
        &&& sum_durs(self.durs(), 0, self.lines@.len() as int) == self.last
    }
}

impl CurrOutput {
    /// A fresh recorder at the start of a run.
    pub fn new() -> (r: Self)
        ensures
            r.wf(),
            r.lines@.len() == 0,
            r.last == 0,
    {
        CurrOutput { lines: Vec::new(), last: 0 }
    }

    /// Record one live line arriving `now` milliseconds into the run.  A
    /// first-seen content gets the next slot with the time since the
    /// previous distinct line; a re-occurrence only marks its first
    /// occurrence as duplicate, perturbing neither slots nor timing.
    pub fn write_line(&mut self, line: Vec<u8>, now: u64)
        requires
            old(self).wf(),
            now >= old(self).last,
        ensures
            final(self).wf(),
            old(self).has_seen(line@) ==> {
                &&& final(self).contents() == old(self).contents()
                &&& final(self).durs() == old(self).durs()
                &&& final(self).dup_marks() == old(self).dup_marks().update(
                    old(self).seen_seq(line@), true)
                &&& final(self).last == old(self).last
            },
            !old(self).has_seen(line@) ==> {
                &&& final(self).contents() == old(self).contents().push(line@)
                &&& final(self).durs() == old(self).durs().push((now - old(self).last) as u64)
                &&& final(self).dup_marks() == old(self).dup_marks().push(false)
                &&& final(self).last == now
            },
    {
        let found = seen_lookup(self, &line);
        match found {
            Some(i) => {
                proof {
                    lemma_seen_seq_unique(*self, line@, i as int);
                }
                let ghost before = self.lines@;
                self.lines[i].dup = true;
                proof {
                    assert(self.lines@ =~= before.update(i as int,
                        (CurrLine { line: before[i as int].line, dup: true })));
                    assert(self.contents() =~= old(self).contents());
                    assert(self.durs() =~= old(self).durs());
                    assert(self.dup_marks() =~= old(self).dup_marks().update(i as int, true));
                    lemma_sum_equal_prefix(self.durs(), old(self).durs(), 0,
                        self.lines@.len() as int);
                }
            },
            None => {
                let dur = now - self.last;
                let ghost before = *self;
                self.lines.push(CurrLine { line: Line { data: line, dur }, dup: false });
                self.last = now;
                proof {
                    assert(self.contents() =~= before.contents().push(line@));
                    assert(self.durs() =~= before.durs().push(dur));
                    assert(self.dup_marks() =~= before.dup_marks().push(false));
                    let n = before.lines@.len() as int;
                    lemma_sum_durs_push(before.durs(), dur, 0, n);
                    lemma_sum_durs_split(self.durs(), 0, n, n + 1);
                    assert(sum_durs(self.durs(), n, n + 1) == self.durs()[n]) by {
                        assert(sum_durs(self.durs(), n + 1, n + 1) == 0);
                    }
                    lemma_sum_equal_prefix(self.durs(), before.durs().push(dur), 0, n);
                }
            },
        }
    }

    /// Produce the trace to persist: the entries not marked duplicate, in
    /// slot order, under the run's total duration.
    pub fn finish(&self, total: u64) -> (r: OutputData)
        requires
            self.wf(),
            total >= self.last,
        ensures
            r.wf(),
            r.total == total,
            r.pairs() == self.kept_pairs(),
    {
        let mut out: Vec<Line> = Vec::new();
        let n = self.lines.len();
        let mut i: usize = 0;
        while i < n
            invariant
                n == self.lines@.len(),
                i <= n,
                line_pairs_of(out@) == kept_pairs_of(self.lines@.take(i as int)),
            decreases n - i,
        {
            let ghost prefix = self.lines@.take(i as int);
            let ghost prefix1 = self.lines@.take(i as int + 1);
            proof {
                assert(prefix1.drop_last() =~= prefix);
                assert(prefix1.last() == self.lines@[i as int]);
            }
            if !self.lines[i].dup {
                let data = clone_bytes(&self.lines[i].line.data);
                let dur = self.lines[i].line.dur;
                out.push(Line { data, dur });
                proof {
                    assert(line_pairs_of(out@) =~= kept_pairs_of(prefix1));
                }
            } else {
                proof {
                    assert(kept_pairs_of(prefix1) =~= kept_pairs_of(prefix));
                }
            }
            i = i + 1;
        }
        proof {
            assert(self.lines@.take(n as int) =~= self.lines@);
        }
        let r = OutputData { lines: out, total };
        proof {
            assert(r.pairs() == self.kept_pairs());
            lemma_kept_props(self.lines@);
            assert forall|a: int, b: int|
                0 <= a < b < r.lines@.len() implies r.lines@[a].data@ != r.lines@[b].data@ by {
                assert(r.pairs()[a].0 == r.lines@[a].data@);
                assert(r.pairs()[b].0 == r.lines@[b].data@);
            }
            assert(r.durs() =~= pair_durs(self.kept_pairs()));
            lemma_sum_equal_prefix(r.durs(), pair_durs(self.kept_pairs()), 0, r.lines@.len() as int);
            assert(sum_durs(r.durs(), 0, r.lines@.len() as int) <= total);
        }
        r
    }
}

/// The in-memory half of a run: the match engine over the prior trace (if
/// one was loaded) and the recorder of the current run, fed together.
pub struct Writer {
    pub orig: Option<OrigOutput>,
    pub curr: CurrOutput,
}

impl Writer {
    /// Internal invariant: both halves are well formed.
    pub open spec fn wf(self) -> bool {
        &&& match self.orig {
            Some(o) => o.wf(),
            None => true,
        }
        &&& self.curr.wf()
    }

    /// Start a run over the previously stored trace, if any was found.
    pub fn new(orig: Option<OutputData>) -> (r: Self)
        requires
            match orig {
                Some(t) => t.wf(),
                None => true,
            },
        ensures
            r.wf(),
            r.orig.is_some() <==> orig.is_some(),
            orig.is_some() ==> {
                &&& r.orig.unwrap().data == orig.unwrap()
                &&& r.orig.unwrap().seq == 0
                &&& r.orig.unwrap().elapsed == 0
                &&& r.orig.unwrap().history@ == Seq::<Seq<u8>>::empty()
            },
            r.curr.lines@.len() == 0,
            r.curr.last == 0,
    {
        let orig = match orig {
            Some(data) => Some(OrigOutput::new(data)),
            None => None,
        };
        Writer { orig, curr: CurrOutput::new() }
    }

    /// The length to report progress against: the prior run's total
    /// duration, or nothing when no history is usable (progress is then
    /// indeterminate).
    pub fn len(&self) -> (r: Option<u64>)
        ensures
            r == match self.orig {
                Some(o) => Some(o.data.total),
                None => None::<u64>,
            },
    {
        match &self.orig {
            Some(o) => Some(o.data.total),
            None => None,
        }
    }

    /// The accumulated elapsed estimate so far, in milliseconds; zero when
    /// no history is usable.
    pub fn completed(&self) -> (r: u64)
        ensures
            r == match self.orig {
                Some(o) => o.elapsed,
                None => 0u64,
            },
    {
        match &self.orig {
            Some(o) => o.elapsed,
            None => 0,
        }
    }

    /// Feed one live line, arriving `now` milliseconds into the run, to both
    /// the match engine and the recorder.
    pub fn write_line(&mut self, line: Vec<u8>, now: u64)
        requires
            old(self).wf(),
            now >= old(self).curr.last,
        ensures
            final(self).wf(),
            final(self).orig.is_some() <==> old(self).orig.is_some(),
            old(self).orig.is_some() ==> {
                let o = old(self).orig.unwrap();
                let f = final(self).orig.unwrap();
                &&& f.data == o.data
                &&& f.history@ == o.history@.push(line@)
                &&& f.seq as int == step_upto(o.data, o.seq as int, line@)
                &&& f.elapsed == o.data.elapsed_upto(f.seq as int)
            },
            old(self).curr.has_seen(line@) ==> {
                &&& final(self).curr.contents() == old(self).curr.contents()
                &&& final(self).curr.durs() == old(self).curr.durs()
                &&& final(self).curr.dup_marks() == old(self).curr.dup_marks().update(
                    old(self).curr.seen_seq(line@), true)
                &&& final(self).curr.last == old(self).curr.last
            },
            !old(self).curr.has_seen(line@) ==> {
                &&& final(self).curr.contents() == old(self).curr.contents().push(line@)
                &&& final(self).curr.durs() == old(self).curr.durs().push(
                    (now - old(self).curr.last) as u64)
                &&& final(self).curr.dup_marks() == old(self).curr.dup_marks().push(false)
                &&& final(self).curr.last == now
            },
    {
        match &mut self.orig {
            Some(o) => o.write_line(&line),
            None => {},
        }
        self.curr.write_line(line, now);
    }

    /// End the run after `total` milliseconds.  The new trace replaces the
    /// stored one exactly when the child exited successfully or there was no
    /// prior trace to protect; a failed run never overwrites known-good
    /// history.
    pub fn finish(&self, success: bool, total: u64) -> (r: Option<OutputData>)
        requires
            self.wf(),
            total >= self.curr.last,
        ensures
            r.is_some() <==> (success || self.orig.is_none()),
            r.is_some() ==> {
                let t = r.unwrap();
                &&& t.wf()
                &&& t.total == total
                &&& t.pairs() == self.curr.kept_pairs()
            },
    {
        if success || self.orig.is_none() {
            Some(self.curr.finish(total))
        } else {
            None
        }
    }
}

/// Finds the slot of a line in the recorder, if its content has been seen.
fn seen_lookup(s: &CurrOutput, line: &Vec<u8>) -> (r: Option<usize>)
    ensures
        match r {
            Some(i) => i < s.lines@.len() && s.lines@[i as int].line.data@ == line@,
            None => !s.has_seen(line@),
        },
{
    let n = s.lines.len();
    let mut i: usize = 0;
    while i < n
        invariant
            n == s.lines@.len(),
            i <= n,
            forall|k: int| 0 <= k < i as int ==> s.lines@[k].line.data@ != line@,
        decreases n - i,
    {
        if bytes_eq(&s.lines[i].line.data, line) {
            return Some(i);
        }
        i = i + 1;
    }
    None
}

/// Copies a byte string.
pub fn clone_bytes(a: &Vec<u8>) -> (r: Vec<u8>)
    ensures
        r@ == a@,
{
    let mut r: Vec<u8> = Vec::new();
    let n = a.len();
    let mut i: usize = 0;
    while i < n
        invariant
            n == a@.len(),
            i <= n,
            r@ == a@.take(i as int),
        decreases n - i,
    {
        r.push(a[i]);
        proof {
            assert(r@ =~= a@.take(i as int + 1));
        }
        i = i + 1;
    }
    proof {
        assert(a@.take(n as int) =~= a@);
    }
    r
}

/// In a recorder with unique contents, any slot that holds `c` is
/// `seen_seq(c)`.
proof fn lemma_seen_seq_unique(s: CurrOutput, c: Seq<u8>, i: int)
    requires
        s.wf(),
        0 <= i < s.lines@.len(),
        s.lines@[i].line.data@ == c,
    ensures
        s.has_seen(c),
        s.seen_seq(c) == i,
{
    assert(s.has_seen(c));
    let j = s.seen_seq(c);
    if i < j {
        assert(s.lines@[i].line.data@ != s.lines@[j].line.data@);
    } else if j < i {
        assert(s.lines@[j].line.data@ != s.lines@[i].line.data@);
    }
}

/// The persisted pairs of a run with unique contents: their contents are
/// unique, every kept content comes from some recorded line, and their
/// durations sum to at most the sum of all recorded durations.
proof fn lemma_kept_props(s: Seq<CurrLine>)
    requires
        forall|i: int, j: int|
            0 <= i < j < s.len() ==> s[i].line.data@ != s[j].line.data@,
    ensures
        forall|a: int, b: int|
            0 <= a < b < kept_pairs_of(s).len()
                ==> #[trigger] kept_pairs_of(s)[a].0 != #[trigger] kept_pairs_of(s)[b].0,
        forall|k: int|
            0 <= k < kept_pairs_of(s).len()
                ==> exists|i: int| 0 <= i < s.len() && s[i].line.data@ == #[trigger] kept_pairs_of(s)[k].0,
        sum_durs(pair_durs(kept_pairs_of(s)), 0, kept_pairs_of(s).len() as int)
            <= sum_durs(curr_durs_of(s), 0, s.len() as int),
    decreases s.len(),
{
    if s.len() == 0 {
    } else {
        let sd = s.drop_last();
        let x = s.last();
        lemma_kept_props(sd);
        let kd = kept_pairs_of(sd);
        let kf = kept_pairs_of(s);
        let all_durs = curr_durs_of(s);
        let all_durs_d = curr_durs_of(sd);
        assert(all_durs.len() == s.len());
        assert(forall|k: int| 0 <= k < sd.len() ==> all_durs[k] == all_durs_d[k]);
        lemma_sum_durs_split(all_durs, 0, s.len() - 1, s.len() as int);
        assert(sum_durs(all_durs, s.len() - 1, s.len() as int) == all_durs[s.len() - 1]) by {
            assert(sum_durs(all_durs, s.len() as int, s.len() as int) == 0);
        }
        assert(sum_durs(all_durs, 0, s.len() - 1) == sum_durs(all_durs_d, 0, sd.len() as int)) by {
            lemma_sum_equal_prefix(all_durs, all_durs_d, 0, sd.len() as int);
        }
        if x.dup {
            assert(kf =~= kd);
            assert(pair_durs(kf) =~= pair_durs(kd));
        } else {
            assert(kf =~= kd.push((x.line.data@, x.line.dur)));
            assert(pair_durs(kf) =~= pair_durs(kd).push(x.line.dur));
            lemma_sum_durs_push(pair_durs(kd), x.line.dur, 0, kd.len() as int);
            lemma_sum_durs_split(pair_durs(kf), 0, kd.len() as int, kf.len() as int);
            assert(sum_durs(pair_durs(kf), kd.len() as int, kf.len() as int)
                == pair_durs(kf)[kd.len() as int]) by {
                assert(sum_durs(pair_durs(kf), kf.len() as int, kf.len() as int) == 0);
            }
            assert forall|a: int, b: int|
                0 <= a < b < kf.len() implies #[trigger] kf[a].0 != #[trigger] kf[b].0 by {
                if b < kd.len() {
                    assert(kf[a] == kd[a] && kf[b] == kd[b]);
                } else {
                    assert(kf[b].0 == x.line.data@);
                    assert(kf[a] == kd[a]);
                    let i = choose|i: int| 0 <= i < sd.len() && sd[i].line.data@ == kd[a].0;
                    assert(s[i].line.data@ != s[s.len() - 1].line.data@);
                }
            }
        }
    }
}

/// Whether a live line with content `c` falls strictly behind a cursor that
/// has consumed `[0, upto)`: it matches a historical line other than the last
/// consumed one, at an index the cursor has already passed.
pub open spec fn is_behind(t: OutputData, upto: int, c: Seq<u8>) -> bool {
    t.has_line(c) && t.line_seq(c) + 1 < upto
}

/// Compares two byte strings for exact equality.
pub fn bytes_eq(a: &Vec<u8>, b: &Vec<u8>) -> (r: bool)
    ensures
        r == (a@ == b@),
{
    if a.len() != b.len() {
        return false;
    }
    let n = a.len();
    let mut i: usize = 0;
    while i < n
        invariant
            n == a@.len() == b@.len(),
            i <= n,
            forall|k: int| 0 <= k < i as int ==> a@[k] == b@[k],
        decreases n - i,
    {
        if a[i] != b[i] {
            return false;
        }
        i = i + 1;
    }
    proof {
        assert(a@ =~= b@);
    }
    true
}

/// Finds the sequence index of a live line in the trace, if its content is
/// recorded there.
pub fn lookup(t: &OutputData, line: &Vec<u8>) -> (r: Option<usize>)
    ensures
        match r {
            Some(i) => i < t.lines@.len() && t.lines@[i as int].data@ == line@,
            None => !t.has_line(line@),
        },
{
    let n = t.lines.len();
    let mut i: usize = 0;
    while i < n
        invariant
            n == t.lines@.len(),
            i <= n,
            forall|k: int| 0 <= k < i as int ==> t.lines@[k].data@ != line@,
        decreases n - i,
    {
        if bytes_eq(&t.lines[i].data, line) {
            return Some(i);
        }
        i = i + 1;
    }
    None
}

} // verus!
