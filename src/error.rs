use vstd::prelude::*;

verus! {

/// Failures of the node stores and of the graph operations built on them.
#[derive(Debug)]
pub enum Error {
    /// A precondition on the arguments was violated: reserved id 0, a
    /// neighbour set over the degree cap, a vector of the wrong length, a
    /// malformed or mismatching disk image.
    InvalidInput(String),
    /// The id is not that of a stored node.
    NotFound(u32),
    /// The underlying storage failed.
    IO(String),
}

} // verus!
