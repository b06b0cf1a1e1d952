//! The errors that the operations on pools report.

use vstd::prelude::*;

verus! {

/// Why an operation on a pool did not do what was asked.
#[derive(Clone, Copy, Debug, PartialEq, Eq, Structural)]
pub enum ResourcePoolError {
    /// No pool of that name is registered.
    PoolUnknown,
    /// The pool holds values of another type than the one given, or a value
    /// is not one of the pool's type.
    TypeMismatch,
    /// A text is not the canonical text of a value of its type, a range
    /// ends before it starts, or a prefix is malformed.
    InvalidValue,
    /// No value of the pool is free for automatic assignment.
    Empty,
    /// The value asked for is not in the pool, or the owner holds nothing.
    NotFound,
    /// The value asked for is allocated already.
    Conflict,
    /// The value to release is not allocated.
    NotAllocated,
    /// The store could not carry the operation out.
    Store,
}

} // verus!
