//! Command-line configuration: which file to read, if any, and which
//! output format to write. The argument parsing itself lives with the
//! binary; this is the plain settings record it produces.

use vstd::prelude::*;

use crate::output_format::OutputFormat;

verus! {

/// The settings a run works with: an input file (standard input when
/// absent) and the output format.
pub struct Cli {
    /// File to read from; standard input is used when absent.
    pub file: Option<String>,
    /// Output format: JSON, YAML or a plain list.
    pub output_format: OutputFormat,
}

} // verus!
