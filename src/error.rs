//! Errors reported by the library.

use vstd::prelude::*;

verus! {

/// What went wrong in a lookup or a query.
#[derive(Clone, Copy, Debug, PartialEq, Eq, Structural)]
pub enum Error {
    /// A value lies outside the bounds of an axis.
    OutOfRange,
    /// Two positions of different dimensions were combined.
    DimensionMismatch,
    /// No entry is registered under a name.
    NotFound,
    /// Several entries are registered under a name.
    Ambiguous,
    /// One name was given two different definitions.
    InconsistentCatalog,
    /// A view port was given that is not a box.
    InvalidViewport,
    /// A point lies outside the view port.
    OutOfViewport,
    /// A shape does not meet the view port.
    EmptyIntersection,
    /// Input data is malformed.
    Deserialize,
}

} // verus!
