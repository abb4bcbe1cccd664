use vstd::prelude::*;

verus! {

/// Why a remote URL or a `path:line` argument was not accepted.
#[derive(Debug, Clone, Copy, PartialEq, Eq, Structural)]
pub enum ParseError {
    /// The remote URL is neither of the SSH nor of the HTTPS form.
    UnrecognizedFormat,
    /// The argument holds no separator.
    MissingSeparator,
    /// What follows the last separator is not a positive decimal number.
    InvalidLineNumber,
    /// The file path is empty.
    EmptyPath,
}

/// Why no pull-request page could be taken from the output of a push.
#[derive(Debug, Clone, Copy, PartialEq, Eq, Structural)]
pub enum PrUrlError {
    /// No line of the output announces such a page.
    PrUrlNotFound,
}

} // verus!
