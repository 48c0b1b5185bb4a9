use vstd::prelude::*;

verus! {

/// What can go wrong in this library.
#[derive(Clone, Copy, Debug, PartialEq, Eq, Structural)]
pub enum TunerError {
    /// The text is not a note name.
    InvalidNote,
    /// The pitch has no printable name.
    OutOfRange,
    /// A caller's obligation was not met: a sample window that is too
    /// short, an empty list of targets, a rate of zero.
    PrecondViolation,
}

} // verus!
