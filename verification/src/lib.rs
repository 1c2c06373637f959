//! Execution graphs for a fleet of cooperating coverage-guided fuzzers:
//! the keyed graph that workers reconcile, the execution tree and its
//! balanced partitioner, the wire format, and the decisions a worker and the
//! coordinator take on each message.

pub mod error;
pub mod nodes;
pub mod partition;
pub mod packing;
pub mod egraph;
pub mod model;
pub mod dgraph;
pub mod graph_laws;
pub mod codec;
pub mod wire_laws;
pub mod wire;
pub mod feedback;
pub mod hook;
pub mod worker;
pub mod seeds;
