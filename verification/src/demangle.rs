//! Demangling of compiler-internal symbol names.
//!
//! Turning a mangled symbol into its human-readable path is delegated to an
//! outside demangler; the analysis only needs that the result is a pure
//! function of the symbol text.

use vstd::prelude::*;

verus! {

/// The human-readable form of a mangled symbol name: what the demangler
/// prints for it. The result depends on the symbol text alone.
pub uninterp spec fn demangled_of(s: Seq<char>) -> Seq<char>;

/// Relies on `rustc_demangle::demangle` and the `Display` of its result:
/// a pure function of the symbol text that renders the human-readable path
/// (a symbol that does not look mangled is rendered unchanged).
#[verifier::external_body]
pub fn demangle_symbol(symbol: &str) -> (r: String)
    ensures
        r@ == demangled_of(symbol@),
{
    rustc_demangle::demangle(symbol).to_string()
}

} // verus!
