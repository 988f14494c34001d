//! What a run is asked to do.

use vstd::prelude::*;

verus! {

/// The request for one run: what to look for, what to write over it, and in
/// which guest.
#[derive(Debug, Clone)]
pub struct Cli {
    /// Pattern to search for, as hexadecimal digits with `??` in place of
    /// each byte that may be anything.
    pub pattern: String,
    /// Bytes to write at every match, as hexadecimal digits. Without it, or
    /// if it is empty, matches are only reported.
    pub patch: Option<String>,
    /// Name of the virtual machine to scan. Without it, the first one found.
    pub target: Option<String>,
}

} // verus!
