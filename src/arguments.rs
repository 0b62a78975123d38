//! The options of the command-line program, as plain values.
use vstd::prelude::*;

verus! {

/// What the program was asked to do.
#[derive(Debug, Clone, PartialEq, Eq)]
pub struct Args {
    /// The path to the structure file or to a directory of them.
    pub cif: Option<String>,
    /// Instructions as text, or a path to a file that holds them.
    pub instructions: Option<String>,
    /// Print examples of how to use the program.
    pub examples: bool,
    /// Show additional debug information.
    pub verbose: bool,
}

} // verus!
