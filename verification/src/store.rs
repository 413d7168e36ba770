//! The trace store's decisions.
//!
//! The filesystem work — creating the per-identity directory, opening the
//! trace file, taking the advisory lock, reading and rewriting bytes — is
//! the caller's; the store's logic is here: what the bytes read off disk
//! mean (a valid trace, no trace at all, or corruption), and the locking
//! protocol that keeps two runs of the same command from interfering.

use vstd::prelude::*;

use crate::codec::{decode_trace, parse_trace, trace_pairs_wf};
use crate::trace::OutputData;
use crate::Error;

verus! {

/// Interprets the stored bytes for a command identity: no file is a valid
/// degraded mode with no history; bytes must form a canonical valid trace,
/// and anything else is a hard corruption error, reported distinctly from
/// "no history".
pub fn load_trace(bytes: Option<&Vec<u8>>) -> (r: Result<Option<OutputData>, Error>)
    ensures
        match bytes {
            None => r matches Ok(t) && t is None,
            Some(b) => match r {
                Ok(t) => t matches Some(d) && parse_trace(b@) == Some((d.pairs(), d.total))
                    && d.wf(),
                Err(e) => {
                    &&& e == Error::TraceCorrupt
                    &&& match parse_trace(b@) {
                        None => true,
                        Some(pt) => !trace_pairs_wf(pt.0, pt.1),
                    }
                },
            },
        },
{
    match bytes {
        None => Ok(None),
        Some(b) => match decode_trace(b) {
            Ok(d) => Ok(Some(d)),
            Err(e) => Err(e),
        },
    }
}

/// The advisory lock on one command identity's trace, as its abstract
/// state: whether some run currently holds it.
pub struct TraceLock {
    pub held: bool,
}

/// What one acquisition attempt does to the lock: it succeeds exactly when
/// the lock is free, fails at once with `ResourceBusy` otherwise (it never
/// blocks), and the lock is held afterwards either way.
pub open spec fn try_acquire_spec(l: TraceLock) -> (Result<(), Error>, TraceLock) {
    if l.held {
        (Err(Error::ResourceBusy), l)
    } else {
        (Ok(()), (TraceLock { held: true }))
    }
}

impl TraceLock {
    /// A lock nobody holds.
    pub fn new() -> (r: Self)
        ensures
            !r.held,
    {
        TraceLock { held: false }
    }

    /// Attempts to take the lock without waiting.
    pub fn try_acquire(&mut self) -> (r: Result<(), Error>)
        ensures
            (r, *final(self)) == try_acquire_spec(*old(self)),
    {
        if self.held {
            Err(Error::ResourceBusy)
        } else {
            self.held = true;
            Ok(())
        }
    }

    /// Releases the lock at the end of the run's scope.
    pub fn release(&mut self)
        ensures
            !final(self).held,
    {
        self.held = false;
    }
}

/// Lock exclusivity: when two runs contend for the same command identity's
/// free lock, whichever attempt comes first succeeds and the other fails at
/// once with `ResourceBusy` — exactly one of the two proceeds, and none
/// waits.
pub proof fn lemma_lock_exclusive(l: TraceLock)
    requires
        !l.held,
    ensures
        try_acquire_spec(l).0 == Ok::<(), Error>(()),
        try_acquire_spec(try_acquire_spec(l).1).0 == Err::<(), Error>(Error::ResourceBusy),
        try_acquire_spec(try_acquire_spec(l).1).1 == try_acquire_spec(l).1,
{
}

} // verus!
