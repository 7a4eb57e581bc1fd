//! Configuration carried into an analysis run.
//!
//! Plain data: the surrounding program parses its command line into these
//! and hands them over.

use vstd::prelude::*;

use crate::mark::MarkOpts;

verus! {

/// Options of a whole analysis run.
pub struct Args {
    /// The crate name to filter results by; superseded by `package`.
    pub crate_name: Option<String>,
    /// The package to analyse, when not the current one.
    pub package: Option<String>,
    /// Count unsafe usage in tests.
    pub include_tests: bool,
    /// Options of the source-annotation step.
    pub mark_opts: MarkOpts,
}

/// Options of a standalone graph-matching run over an already produced
/// call-graph file and tainted-names file.
pub struct MatchArgs {
    /// The call-graph input file.
    pub input_callgraph: String,
    /// The tainted-names input file.
    pub input_unsafe_deps_file: String,
    /// The crate name to filter results by.
    pub crate_name: String,
}

/// Options of a standalone demangling run.
pub struct DemangleArgs {
    /// The mangled input file.
    pub input_mangled: String,
    /// Where the demangled text goes.
    pub output_demangled: String,
}

} // verus!
