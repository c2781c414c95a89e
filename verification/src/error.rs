//! The ways in which scanning can fail.

use vstd::prelude::*;

verus! {

/// A failure that is reported to the caller. A construct that merely is not
/// there is never one of these: it is a silent no-match.
#[derive(Debug, Clone, Copy, PartialEq, Eq, Structural)]
pub enum ScanError {
    /// A quoted attribute value was not closed before the end of input.
    UnterminatedString,
    /// The `=` of an attribute was not followed by a double quote.
    ExpectedQuoteAfterEquals,
    /// A backward move was asked for at the start of the buffer.
    CursorUnderflow,
}

} // verus!
