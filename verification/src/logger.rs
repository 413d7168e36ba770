//! Log level selection and the progress sink state.
//!
//! Rendering (colors, the bar itself) happens outside the library; here
//! live the decisions: which verbosity the flags select, whether a line is
//! emitted at all, and the position/length state the sink displays, kept as
//! an explicit context object rather than process-wide state.

use vstd::prelude::*;

use crate::diff::clone_bytes;

verus! {

/// Logging verbosity, from silence to full tracing.
#[derive(Clone, Copy, PartialEq, Eq, Structural, Debug)]
pub enum LevelFilter {
    Off,
    Error,
    Warn,
    Info,
    Debug,
    Trace,
}

/// A total order on verbosity: higher admits more.
pub open spec fn level_rank(l: LevelFilter) -> int {
    match l {
        LevelFilter::Off => 0,
        LevelFilter::Error => 1,
        LevelFilter::Warn => 2,
        LevelFilter::Info => 3,
        LevelFilter::Debug => 4,
        LevelFilter::Trace => 5,
    }
}

impl LevelFilter {
    /// Whether this verbosity admits messages at level `other`.
    pub fn admits(&self, other: &LevelFilter) -> (r: bool)
        ensures
            r == (level_rank(*self) >= level_rank(*other)),
    {
        self.rank() >= other.rank()
    }

    /// The numeric rank of the verbosity.
    pub fn rank(&self) -> (r: u8)
        ensures
            r as int == level_rank(*self),
    {
        match self {
            LevelFilter::Off => 0,
            LevelFilter::Error => 1,
            LevelFilter::Warn => 2,
            LevelFilter::Info => 3,
            LevelFilter::Debug => 4,
            LevelFilter::Trace => 5,
        }
    }
}

/// The logging flags of an invocation.
#[derive(Clone, Copy, PartialEq, Eq, Structural, Debug)]
pub struct Opts {
    pub debug: bool,
    pub trace: bool,
    pub quiet: bool,
}

/// The verbosity the flags select.
pub open spec fn level_filter_spec(o: Opts) -> LevelFilter {
    if o.quiet {
        LevelFilter::Off
    } else if o.trace {
        LevelFilter::Trace
    } else if o.debug {
        LevelFilter::Debug
    } else {
        LevelFilter::Info
    }
}

impl Opts {
    /// Quiet silences everything; otherwise the most verbose flag wins,
    /// with informational logging as the default.
    pub fn level_filter(self) -> (r: LevelFilter)
        ensures
            r == level_filter_spec(self),
    {
        if self.quiet {
            LevelFilter::Off
        } else if self.trace {
            LevelFilter::Trace
        } else if self.debug {
            LevelFilter::Debug
        } else {
            LevelFilter::Info
        }
    }
}

/// Decides whether a captured output line is logged: informational
/// verbosity or more hands the exact bytes to the terminal sink, anything
/// less drops them.
pub fn log_bytes(filter: LevelFilter, bytes: &Vec<u8>) -> (r: Option<Vec<u8>>)
    ensures
        r is Some <==> level_rank(filter) >= level_rank(LevelFilter::Info),
        r is Some ==> r.unwrap()@ == bytes@,
{
    if filter.admits(&LevelFilter::Info) {
        Some(clone_bytes(bytes))
    } else {
        None
    }
}

/// The progress sink state: the length to render against (absent while
/// progress is indeterminate), the current position, and whether the bar
/// has finished.  All updates are idempotent.
pub struct Progress {
    pub len: Option<u64>,
    pub pos: u64,
    pub finished: bool,
}

impl Progress {
    /// A fresh, indeterminate, unfinished sink.
    pub fn new() -> (r: Self)
        ensures
            r.len is None,
            r.pos == 0,
            !r.finished,
    {
        Progress { len: None, pos: 0, finished: false }
    }
}

/// Gives the sink a length to render against.
pub fn start_progress(p: &mut Progress, len: u64)
    ensures
        final(p).len == Some(len),
        final(p).pos == old(p).pos,
        final(p).finished == old(p).finished,
{
    p.len = Some(len);
}

/// Moves the sink to a position.
pub fn set_progress_position(p: &mut Progress, pos: u64)
    ensures
        final(p).pos == pos,
        final(p).len == old(p).len,
        final(p).finished == old(p).finished,
{
    p.pos = pos;
}

/// Marks the sink finished.
pub fn finish_progress(p: &mut Progress)
    ensures
        final(p).finished,
        final(p).len == old(p).len,
        final(p).pos == old(p).pos,
{
    p.finished = true;
}

} // verus!
