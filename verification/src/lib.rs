//! Unsafety taint analysis for compiled programs.
//!
//! The library canonicalizes fully-qualified function labels, models a call
//! graph of compiled functions keyed by those labels, scans source entities
//! for unsafe constructs, and propagates a per-function "badness" score: the
//! number of distinct unsafe origins a function can transitively reach
//! through its callers.

pub mod astpath;
pub mod canon;
pub mod canon_laws;
pub mod cli;
pub mod demangle;
pub mod graph;
pub mod mark;
pub mod report;
pub mod scanner;
pub mod strings;
pub mod taint;
pub mod taint_laws;
