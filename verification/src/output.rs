//! The per-run coordinator.
//!
//! `Writer` owns the historical-diff state for one run and answers, for
//! every captured line, the position the progress sink should show; at the
//! end of the run it hands back the bytes to persist, if the persistence
//! policy says the stored trace is to be replaced.  Writing the captured
//! bytes to the output log file and to the terminal is the caller's.
//! `check_cmd` is the fingerprint-collision check over the side file.

use vstd::prelude::*;

use crate::cmd::CommandOptions;
use crate::codec::enc_trace;
use crate::diff;
use crate::diff::{bytes_eq, step_upto};
use crate::trace::OutputData;

verus! {

/// The in-memory state of one run: the match engine over the prior trace
/// and the recorder of the current one.
pub struct Writer {
    pub diff: diff::Writer,
}

impl Writer {
    /// Internal invariant: the underlying estimator state is well formed.
    pub open spec fn wf(self) -> bool {
        self.diff.wf()
    }

    /// Starts a run over the previously stored trace, if any was loaded.
    pub fn new(orig: Option<OutputData>) -> (r: Self)
        requires
            match orig {
                Some(t) => t.wf(),
                None => true,
            },
        ensures
            r.wf(),
            r.diff.orig is Some <==> orig is Some,
            orig is Some ==> {
                &&& r.diff.orig.unwrap().data == orig.unwrap()
                &&& r.diff.orig.unwrap().seq == 0
                &&& r.diff.orig.unwrap().elapsed == 0
                &&& r.diff.orig.unwrap().history@ == Seq::<Seq<u8>>::empty()
            },
            r.diff.curr.lines@.len() == 0,
            r.diff.curr.last == 0,
    {
        Writer { diff: diff::Writer::new(orig) }
    }

    /// The historical-diff state, for direct queries such as the reported
    /// length.
    pub fn diff(&mut self) -> (r: &mut diff::Writer)
        ensures
            *r == old(self).diff,
            final(self).diff == *final(r),
    {
        &mut self.diff
    }

    /// Feeds one standard-output line, arriving `now` milliseconds into the
    /// run, to the estimator, and reports the position the progress sink
    /// should now show.
    pub fn write_stdout(&mut self, line: Vec<u8>, now: u64) -> (pos: u64)
        requires
            old(self).wf(),
            now >= old(self).diff.curr.last,
        ensures
            final(self).wf(),
            final(self).diff.orig is Some <==> old(self).diff.orig is Some,
            old(self).diff.orig is Some ==> {
                let o = old(self).diff.orig.unwrap();
                let f = final(self).diff.orig.unwrap();
                &&& f.data == o.data
                &&& f.history@ == o.history@.push(line@)
                &&& f.seq as int == step_upto(o.data, o.seq as int, line@)
                &&& f.elapsed == o.data.elapsed_upto(f.seq as int)
            },
            !old(self).diff.curr.has_seen(line@) ==> {
                &&& final(self).diff.curr.contents()
                    == old(self).diff.curr.contents().push(line@)
                &&& final(self).diff.curr.durs() == old(self).diff.curr.durs().push(
                    (now - old(self).diff.curr.last) as u64)
                &&& final(self).diff.curr.dup_marks()
                    == old(self).diff.curr.dup_marks().push(false)
                &&& final(self).diff.curr.last == now
            },
            old(self).diff.curr.has_seen(line@) ==> {
                &&& final(self).diff.curr.contents() == old(self).diff.curr.contents()
                &&& final(self).diff.curr.durs() == old(self).diff.curr.durs()
                &&& final(self).diff.curr.dup_marks()
                    == old(self).diff.curr.dup_marks().update(
                    old(self).diff.curr.seen_seq(line@), true)
                &&& final(self).diff.curr.last == old(self).diff.curr.last
            },
            pos == (match final(self).diff.orig {
                Some(o) => o.elapsed,
                None => 0u64,
            }),
    {
        self.diff.write_line(line, now);
        self.diff.completed()
    }

    /// Feeds one standard-error line.  The two streams interleave
    /// arbitrarily, so their lines count the same as standard output's for
    /// matching and recording.
    pub fn write_stderr(&mut self, line: Vec<u8>, now: u64) -> (pos: u64)
        requires
            old(self).wf(),
            now >= old(self).diff.curr.last,
        ensures
            final(self).wf(),
            final(self).diff.orig is Some <==> old(self).diff.orig is Some,
            old(self).diff.orig is Some ==> {
                let o = old(self).diff.orig.unwrap();
                let f = final(self).diff.orig.unwrap();
                &&& f.data == o.data
                &&& f.history@ == o.history@.push(line@)
                &&& f.seq as int == step_upto(o.data, o.seq as int, line@)
                &&& f.elapsed == o.data.elapsed_upto(f.seq as int)
            },
            !old(self).diff.curr.has_seen(line@) ==> {
                &&& final(self).diff.curr.contents()
                    == old(self).diff.curr.contents().push(line@)
                &&& final(self).diff.curr.durs() == old(self).diff.curr.durs().push(
                    (now - old(self).diff.curr.last) as u64)
                &&& final(self).diff.curr.dup_marks()
                    == old(self).diff.curr.dup_marks().push(false)
                &&& final(self).diff.curr.last == now
            },
            old(self).diff.curr.has_seen(line@) ==> {
                &&& final(self).diff.curr.contents() == old(self).diff.curr.contents()
                &&& final(self).diff.curr.durs() == old(self).diff.curr.durs()
                &&& final(self).diff.curr.dup_marks()
                    == old(self).diff.curr.dup_marks().update(
                    old(self).diff.curr.seen_seq(line@), true)
                &&& final(self).diff.curr.last == old(self).diff.curr.last
            },
            pos == (match final(self).diff.orig {
                Some(o) => o.elapsed,
                None => 0u64,
            }),
    {
        self.write_stdout(line, now)
    }

    /// Ends the run after `total` milliseconds: returns the serialized new
    /// trace exactly when it is to replace the stored one — the child
    /// succeeded, or there was no prior trace to protect.
    pub fn finish(&self, success: bool, total: u64) -> (r: Option<Vec<u8>>)
        requires
            self.wf(),
            total >= self.diff.curr.last,
        ensures
            r is Some <==> (success || self.diff.orig is None),
            r is Some ==> r.unwrap()@ == enc_trace(self.diff.curr.kept_pairs(), total),
    {
        match self.diff.finish(success, total) {
            Some(data) => Some(crate::codec::encode_trace(&data)),
            None => None,
        }
    }
}

/// The collision check's verdict on the side file.
pub enum CmdCheck {
    /// No side file yet: write this canonical command encoding next to the
    /// trace.
    WriteNew(Vec<u8>),
    /// The stored spec is byte-identical to the current command's.
    Matches,
    /// A different command spec is stored under the same fingerprint; a
    /// warning, not a failure.
    Collision,
}

/// Compares the stored side file against the current command's canonical
/// encoding: a missing file is to be written, identical bytes mean the same
/// command, and anything else is a fingerprint collision.
pub fn check_cmd(stored: Option<&Vec<u8>>, curr: &CommandOptions) -> (r: CmdCheck)
    ensures
        match stored {
            None => r matches CmdCheck::WriteNew(b) && b@ == curr.canon_spec(),
            Some(s) => if s@ == curr.canon_spec() {
                r matches CmdCheck::Matches
            } else {
                r matches CmdCheck::Collision
            },
        },
{
    let canon = curr.encode_cmd();
    match stored {
        None => CmdCheck::WriteNew(canon),
        Some(s) => {
            if bytes_eq(s, &canon) {
                CmdCheck::Matches
            } else {
                CmdCheck::Collision
            }
        },
    }
}

} // verus!
