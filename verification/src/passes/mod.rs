//! Rewrites of the graph that run before a backend lowers it.

pub mod builder_laws;
pub mod chain_coalesce;
pub mod chain_laws;
pub mod clamp_weights;
pub mod finding_laws;
pub mod replacement_laws;
pub mod success_laws;

use vstd::prelude::*;

use crate::compile_graph::NodeIdx;
use crate::world::TickPriority;

verus! {

/// What a backend has to do once, right after it has been compiled.
#[derive(Debug, Copy, Clone, PartialEq, Eq, Structural)]
pub enum RuntimeAction {
    /// Update a node.
    Update(NodeIdx),
    /// Schedule a tick for a node, after a delay.
    Tick(NodeIdx, u32, TickPriority),
    /// Break the links of a node, after a delay.
    BreakLink(NodeIdx, u32),
}

} // verus!
