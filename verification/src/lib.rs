//! Multi-level significance clustering.
//!
//! Given a reference partition of a network into (possibly nested) modules and
//! a collection of comparison partitions, this library finds, for each
//! reference module, the largest subset of its nodes (the "significant core")
//! that recurs consistently across a caller-chosen fraction of the comparison
//! partitions.

use vstd::prelude::*;

pub mod anneal;
pub mod clustering;
pub mod confidence;
pub mod network;
pub mod output;
pub mod parse;
pub mod rng;
pub mod scorer;
pub mod similarity;

verus! {

/// Identifier of a node in the underlying network.
pub type NodeId = u32;

/// Identifier (index) of a comparison network.
pub type NetworkId = usize;

} // verus!
