use vstd::prelude::*;

verus! {

/// Failures that scanning or classification surface to the caller.
///
/// All variants are propagated to the immediate caller unchanged; neither
/// the scanner nor the classifier retries or recovers.
#[derive(Debug, Clone, PartialEq, Eq)]
pub enum LexError {
    /// A candidate identifier run could not be decoded as text. A scan over
    /// a `&str` buffer never produces it — identifier runs are slices of
    /// valid text at character boundaries, and the scanner's contracts prove
    /// as much — but the taxonomy keeps the variant so callers can branch on
    /// malformed input uniformly when a buffer arrives through a fallible
    /// decoder.
    Decoding,
    /// A scanned word has no entry in the keyword table; carries the
    /// offending word.
    UnrecognizedKeyword(String),
    /// No identifier characters were available at the cursor: the byte
    /// there is no letter or underscore, or the buffer is exhausted.
    /// `token()` peels the exhausted case off first, answering with the
    /// end-of-input token, so from it this error means a byte no identifier
    /// may hold.
    EmptyIdentifier,
}

} // verus!
