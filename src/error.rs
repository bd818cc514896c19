use vstd::prelude::*;

verus! {

/// The ways an operation of this library can fail.
#[derive(Debug, Clone, Copy, PartialEq, Eq, Structural)]
pub enum LsmError {
    /// A caller broke a contract the data structure relies on: an empty
    /// table, a malformed block, a read from an exhausted iterator.
    InvariantViolation,
    /// The storage layer failed to persist a table.
    Storage,
    /// A wrapped iteration source failed to advance.
    Source,
}

} // verus!
