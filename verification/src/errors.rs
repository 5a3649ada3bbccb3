use vstd::prelude::*;

verus! {

/// Failure returned when an operation that needs an existing node is given
/// a node value that the store does not hold.
#[derive(Clone, Copy, Debug, PartialEq, Eq, Structural)]
pub enum GraphError {
    NodeNotFound,
}

} // verus!
