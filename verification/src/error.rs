use vstd::prelude::*;

verus! {

/// The error taxonomy of the parsing core.
///
/// Lexical errors abort the current token; parser errors signal a violated
/// structural invariant; the remaining two mark whole-file problems raised at
/// the reader boundary.
#[derive(Debug, Clone, PartialEq, Eq, Structural)]
pub enum Error {
    /// The whole file is unusable: `startxref` missing, trailer missing.
    InvalidFile,
    /// Unexpected end of input inside a token, an invalid character in a
    /// number, or a stray `)`.
    LexicalError,
    /// Token mismatch: the xref section did not begin with `xref`, the
    /// trailer is not a dictionary, or entry 0 is not free.
    ParserError,
    /// A field required by a consumer above the core is absent.
    MissingDataException,
}

} // verus!
