//! The ways in which an operation of this library can fail.

use vstd::prelude::*;

verus! {

/// Why an operation did not give a result.
#[derive(Clone, Copy, Debug, PartialEq, Eq, Structural)]
pub enum Error {
    /// A text is not of the form `<int>+<int>i`.
    ParseError,
    /// An arithmetic result lies outside the surds that can be stored: its
    /// radical parts do not combine into one, or a part exceeds the range.
    UnrepresentableRadicand,
    /// A handle does not designate a live entry.
    DanglingHandle,
    /// A handle was released whose count is already zero.
    DoubleRelease,
}

} // verus!
