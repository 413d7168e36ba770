//! Historical-diff progress estimation for wrapped commands.
//!
//! The library records, per command identity, a trace of the distinct output
//! lines of a run together with their timing, and matches the output of a
//! later run against that trace to estimate how far the command has
//! progressed.  The data model, the match engine, the run recorder, the
//! on-disk trace codec, and the persistence policy all live here; process
//! spawning, terminal rendering and file handling are left to the caller.

pub mod b64;
pub mod cmd;
pub mod codec;
pub mod config;
pub mod diff;
pub mod hash;
pub mod logger;
pub mod output;
pub mod store;
pub mod trace;

use vstd::prelude::*;

verus! {

/// The error kinds surfaced by the library.
#[derive(Clone, Copy, PartialEq, Eq, Structural, Debug)]
pub enum Error {
    /// A filesystem or pipe failure reported by the caller.
    IoError,
    /// Another process holds the lock for this command identity.
    ResourceBusy,
    /// The stored trace does not parse under the trace file format.
    TraceCorrupt,
    /// Two different command specs share one fingerprint.
    IdentityCollision,
    /// The child command could not be started.
    ChildSpawnFailed,
}

impl Error {
    /// A short human-readable description of the error kind.
    pub fn describe(&self) -> (r: &'static str)
        ensures
            r@ == self.describe_spec(),
    {
        match self {
            Error::IoError => "input/output failure",
            Error::ResourceBusy => "trace is being accessed by another process",
            Error::TraceCorrupt => "stored trace is malformed",
            Error::IdentityCollision => "fingerprint collision between different commands",
            Error::ChildSpawnFailed => "failed to execute process",
        }
    }

    /// What `describe` returns for each kind.
    pub open spec fn describe_spec(&self) -> Seq<char> {
        match self {
            Error::IoError => "input/output failure"@,
            Error::ResourceBusy => "trace is being accessed by another process"@,
            Error::TraceCorrupt => "stored trace is malformed"@,
            Error::IdentityCollision => "fingerprint collision between different commands"@,
            Error::ChildSpawnFailed => "failed to execute process"@,
        }
    }
}

} // verus!
