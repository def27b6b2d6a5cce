use vstd::prelude::*;

verus! {

/// The two ways building a graph from an edge list can fail; both are
/// detected during construction and abort it with no partial graph.
#[derive(Debug, PartialEq, Eq)]
pub enum Error {
    /// An edge whose two endpoints are the same node.
    SelfLoop,
    /// An edge between two nodes that already have a direct connection,
    /// in either orientation.
    DuplicateEdge,
}

} // verus!
