//! What the command line hands the pipeline: the collected paths.
//!
//! Collecting and validating the arguments is I/O and stays outside
//! the crate; only the resulting value lives here.

use vstd::prelude::*;

verus! {

/// The two path lists a run works on.
pub struct Args {
    /// The code-table files, one per subsystem.
    pub mdb_files: Vec<String>,
    /// The target source files to rewrite.
    pub cpp_files: Vec<String>,
}

} // verus!
