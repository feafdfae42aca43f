//! The ways in which an operation of the library can be refused.
use vstd::prelude::*;

verus! {

/// Why an operation was refused.
#[derive(Debug)]
pub enum FcaError {
    /// No object has this name.
    UnknownObject(String),
    /// No attribute has this name.
    UnknownAttribute(String),
    /// An object of this name exists already.
    DuplicateObject(String),
    /// An attribute of this name exists already.
    DuplicateAttribute(String),
    /// The context was to change while this many lazy generators are alive.
    MutationDuringLazy(u32),
    /// An index lies outside the sequence.
    IndexOutOfRange,
    /// The drawing algorithm is not one the library knows.
    UnknownAlgorithm(String),
    /// A drawing was asked for with a width or height that is not positive.
    NonPositiveSize,
    /// The covering edges of a poset form a cycle.
    EdgesFormCycle,
    /// A covering edge names a node that does not exist.
    EdgeOutOfRange,
}

} // verus!
