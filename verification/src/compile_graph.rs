//! The graph of redstone components that the passes rewrite and the backends lower.

use petgraph::stable_graph::StableGraph;
use petgraph::Directed;
use vstd::prelude::*;

use crate::world::{BlockPos, ComparatorMode, Instrument};

verus! {

/// The index of a node in a [`CompileGraph`].
pub type NodeIdx = u32;

/// A directed graph of components; the indices of the others survive a removal.
pub type CompileGraph = StableGraph<CompileNode, CompileLink, Directed, u32>;

/// Which side of its target a link enters.
#[derive(Debug, Copy, Clone, PartialEq, Eq, Structural)]
pub enum LinkType {
    Default,
    Side,
}

/// A link between two components; `ss` is the signal strength lost on the way.
#[derive(Debug, Copy, Clone, PartialEq, Eq, Structural)]
pub struct CompileLink {
    pub ty: LinkType,
    pub ss: u8,
}

/// The kind of a component.
#[derive(Debug, Copy, Clone, PartialEq, Eq, Structural)]
pub enum NodeType {
    Repeater { delay: u8, facing_diode: bool },
    Torch { invert: bool },
    Comparator { mode: ComparatorMode, far_input: Option<u8>, facing_diode: bool },
    Lamp,
    Button,
    Lever,
    PressurePlate,
    Trapdoor,
    Wire,
    Constant,
    NoteBlock { instrument: Instrument, note: u32 },
    Chain { delay: u8, facing_diode: bool },
}

impl NodeType {
    /// The number of the kind, whatever its settings.
    pub open spec fn kind(self) -> u32 {
        match self {
            NodeType::Repeater { .. } => 0,
            NodeType::Torch { .. } => 1,
            NodeType::Comparator { .. } => 2,
            NodeType::Lamp => 3,
            NodeType::Button => 4,
            NodeType::Lever => 5,
            NodeType::PressurePlate => 6,
            NodeType::Trapdoor => 7,
            NodeType::Wire => 8,
            NodeType::Constant => 9,
            NodeType::NoteBlock { .. } => 10,
            NodeType::Chain { .. } => 11,
        }
    }

    /// The number of the kind, whatever its settings.
    pub fn kind_number(&self) -> (kind: u32)
        ensures
            kind == self.kind(),
    {
        match self {
            NodeType::Repeater { .. } => 0,
            NodeType::Torch { .. } => 1,
            NodeType::Comparator { .. } => 2,
            NodeType::Lamp => 3,
            NodeType::Button => 4,
            NodeType::Lever => 5,
            NodeType::PressurePlate => 6,
            NodeType::Trapdoor => 7,
            NodeType::Wire => 8,
            NodeType::Constant => 9,
            NodeType::NoteBlock { .. } => 10,
            NodeType::Chain { .. } => 11,
        }
    }
}

/// The state that a component is in when the graph is compiled.
#[derive(Debug, Copy, Clone, PartialEq, Eq, Structural)]
pub struct NodeState {
    pub powered: bool,
    pub repeater_locked: bool,
    pub output_strength: u8,
}

/// Notes that the front end leaves on a component.
#[derive(Debug, Copy, Clone, PartialEq, Eq, Structural)]
pub struct Annotations {}

/// A component of the graph, with the block it stands for, if any.
#[derive(Debug, Copy, Clone, PartialEq, Eq)]
pub struct CompileNode {
    pub ty: NodeType,
    pub block: Option<(BlockPos, u32)>,
    pub state: NodeState,
    pub is_input: bool,
    pub is_output: bool,
    pub annotations: Annotations,
}

impl CompileNode {
    /// Whether nothing outside the graph reads or sets this component.
    pub open spec fn removable(self) -> bool {
        !self.is_input && !self.is_output
    }

    /// Whether nothing outside the graph reads or sets this component.
    pub fn is_removable(&self) -> (r: bool)
        ensures
            r == self.removable(),
    {
        !self.is_input && !self.is_output
    }
}

/// A component that is read or set from outside the graph cannot be removed, and every other
/// one can.
pub proof fn law_what_is_used_outside_is_not_removable(node: CompileNode, r: bool)
    requires
        call_ensures(CompileNode::is_removable, (&node,), r),
    ensures
        node.is_input ==> !r,
        node.is_output ==> !r,
        r || node.is_input || node.is_output,
{
}

} // verus!
