//! The errors of the library.

use vstd::prelude::*;

verus! {

/// The ways an operation of this library can be refused.
#[derive(Clone, Copy, Debug, PartialEq, Eq, Structural)]
pub enum GraphError {
    /// Bytes that stand for no graph, or a graph that cannot be taken in
    /// because the total weight would pass what a graph can hold.
    MalformedGraph,
    /// A partition count of zero, or one larger than the graph.
    InvalidArity,
    /// A message that cannot go over the transport.
    TransportFailure,
}

} // verus!
