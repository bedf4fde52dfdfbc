use vstd::prelude::*;

verus! {

/// Why a padding token or a frame pattern could not be decoded.
#[derive(Debug, Clone, Copy, PartialEq, Eq, Structural)]
pub enum PatternError {
    /// A padding token holds a character other than `#` and `@`.
    InvalidToken,
    /// A range token matches none of the accepted forms.
    MalformedPattern,
    /// The decoded start lies after the decoded stop.
    InvertedRange,
    /// The decoded step is zero.
    InvalidStep,
}

} // verus!
