//! The configuration a run starts from.
//!
//! The configuration file itself is read and parsed outside the library;
//! what reaches the library is the list of environment variable names whose
//! values take part in the command identity.

use vstd::prelude::*;

verus! {

/// The configured environment passthrough: the names of the environment
/// variables that identify a command.
#[derive(Debug)]
pub struct Config {
    pub env: Vec<String>,
}

impl Default for Config {
    /// With no configuration file, no environment variables are captured.
    fn default() -> (r: Self)
        ensures
            r.env@.len() == 0,
    {
        Config { env: Vec::new() }
    }
}

} // verus!
