//! The nodes that a direct backend runs.

use smallvec::SmallVec;
use vstd::prelude::*;

use crate::world::ComparatorMode;

verus! {

/// The index of a node in its list.
#[derive(Debug, Copy, Clone, PartialEq, Eq, PartialOrd, Ord, Hash, Structural)]
pub struct NodeId {
    pub id: u32,
}

impl NodeId {
    /// The index.
    pub fn index(self) -> (index: usize)
        ensures
            index == self.id,
    {
        self.id as usize
    }

    /// The node of this index; of an index beyond 32 bits only those remain.
    pub fn from_index(index: usize) -> (node: NodeId)
        ensures
            node.id == index as int % 0x1_0000_0000,
    {
        proof {
            assert(index as u32 == (index as u64) % 0x1_0000_0000u64) by (bit_vector);
        }
        NodeId { id: #[verifier::truncate] (index as u32) }
    }
}

/// A byte that is not the greatest one.
#[derive(Debug, Copy, Clone, PartialEq, Eq, Structural)]
pub struct NonMaxU8 {
    value: u8,
}

impl NonMaxU8 {
    /// The byte.
    pub closed spec fn byte(self) -> u8 {
        self.value
    }

    /// The byte as one that is not the greatest, if it is not.
    pub fn new(value: u8) -> (byte: Option<NonMaxU8>)
        ensures
            value == u8::MAX <==> byte is None,
            byte is Some ==> (byte->0).byte() == value,
    {
        if value == u8::MAX {
            None
        } else {
            Some(NonMaxU8 { value })
        }
    }

    /// The byte.
    pub fn get(self) -> (value: u8)
        ensures
            value == self.byte(),
    {
        self.value
    }
}

/// The kind of a node.
#[derive(Debug, Copy, Clone, PartialEq, Eq, Structural)]
pub enum NodeType {
    Repeater { delay: u8, facing_diode: bool },
    Torch,
    Comparator { mode: ComparatorMode, far_input: Option<NonMaxU8>, facing_diode: bool },
    Lamp,
    Button,
    Lever,
    PressurePlate,
    Trapdoor,
    Wire,
    Constant,
    NoteBlock { noteblock_id: u16 },
}

/// How many inputs of a node have each signal strength.
#[derive(Debug, Copy, Clone)]
pub struct NodeInput {
    pub ss_counts: [u8; 16],
}

/// A link to another node, in one word.
#[derive(Debug, Copy, Clone, PartialEq, Eq, Structural)]
pub struct ForwardLinkData {
    pub data: u32,
}

impl ForwardLinkData {
    pub fn new(data: u32) -> (link: ForwardLinkData)
        ensures
            link.data == data,
    {
        ForwardLinkData { data }
    }

    pub fn inner(self) -> (data: u32)
        ensures
            data == self.data,
    {
        self.data
    }
}

/// The words of the links of a node, in a `SmallVec` of `smallvec` that keeps up to ten
/// of them in place.
#[verifier::external_body]
#[derive(Debug)]
pub struct Updates {
    words: SmallVec<[u32; 10]>,
}

/// The words of the links of a node.
pub uninterp spec fn words_of(updates: Updates) -> Seq<u32>;

impl View for Updates {
    type V = Seq<u32>;

    open spec fn view(&self) -> Seq<u32> {
        words_of(*self)
    }
}

impl Updates {
    /// `SmallVec::new`: no links.
    #[verifier::external_body]
    pub(crate) fn new() -> (updates: Updates)
        ensures
            words_of(updates) == Seq::<u32>::empty(),
    {
        Updates { words: SmallVec::new() }
    }

    /// Collecting into a `SmallVec`: the items in order.
    #[verifier::external_body]
    pub(crate) fn collect(words: Vec<u32>) -> (updates: Updates)
        ensures
            words_of(updates) == words@,
    {
        Updates { words: words.into_iter().collect() }
    }

    /// `SmallVec::len`: the number of links.
    #[verifier::external_body]
    pub(crate) fn len(&self) -> (len: usize)
        ensures
            len == words_of(*self).len(),
    {
        self.words.len()
    }

    /// Indexing a `SmallVec`: the word at a place.
    #[verifier::external_body]
    pub(crate) fn word(&self, i: usize) -> (word: u32)
        requires
            i < words_of(*self).len(),
        ensures
            word == words_of(*self)[i as int],
    {
        self.words[i]
    }

    /// `SmallVec::clone`: the same items.
    #[verifier::external_body]
    pub(crate) fn duplicate(&self) -> (updates: Updates)
        ensures
            words_of(updates) == words_of(*self),
    {
        Updates { words: self.words.clone() }
    }
}

/// A node.
#[derive(Debug)]
pub struct Node {
    pub ty: NodeType,
    pub default_inputs: NodeInput,
    pub side_inputs: NodeInput,
    pub updates: Updates,
    pub is_io: bool,
    pub powered: bool,
    /// Only for repeaters
    pub locked: bool,
    pub output_power: u8,
    pub changed: bool,
    pub pending_tick: bool,
}

impl Node {
    /// Whether two nodes agree in everything.
    pub open spec fn same_as(self, other: Node) -> bool {
        &&& self.ty == other.ty
        &&& self.default_inputs.ss_counts@ == other.default_inputs.ss_counts@
        &&& self.side_inputs.ss_counts@ == other.side_inputs.ss_counts@
        &&& self.updates@ == other.updates@
        &&& self.is_io == other.is_io
        &&& self.powered == other.powered
        &&& self.locked == other.locked
        &&& self.output_power == other.output_power
        &&& self.changed == other.changed
        &&& self.pending_tick == other.pending_tick
    }

    /// A node like this one.
    pub fn duplicate(&self) -> (node: Node)
        ensures
            node.same_as(*self),
    {
        Node {
            ty: self.ty,
            default_inputs: self.default_inputs,
            side_inputs: self.side_inputs,
            updates: self.updates.duplicate(),
            is_io: self.is_io,
            powered: self.powered,
            locked: self.locked,
            output_power: self.output_power,
            changed: self.changed,
            pending_tick: self.pending_tick,
        }
    }
}

/// A list of nodes.
#[derive(Debug)]
pub struct Nodes {
    pub nodes: Vec<Node>,
}

impl Nodes {
    /// Whether two lists agree node by node.
    pub open spec fn same_as(self, other: Nodes) -> bool {
        self.nodes@.len() == other.nodes@.len() && forall|i: int|
            0 <= i < self.nodes@.len() ==> (#[trigger] self.nodes@[i]).same_as(other.nodes@[i])
    }

    pub fn new(nodes: Vec<Node>) -> (list: Nodes)
        ensures
            list.nodes@ == nodes@,
    {
        Nodes { nodes }
    }

    /// A list like this one.
    pub fn duplicate(&self) -> (list: Nodes)
        ensures
            list.same_as(*self),
    {
        let mut nodes: Vec<Node> = Vec::new();
        let mut i: usize = 0;
        while i < self.nodes.len()
            invariant
                i <= self.nodes@.len(),
                nodes@.len() == i,
                forall|j: int| 0 <= j < i ==> (#[trigger] nodes@[j]).same_as(self.nodes@[j]),
            decreases self.nodes@.len() - i,
        {
            nodes.push(self.nodes[i].duplicate());
            i += 1;
        }
        Nodes { nodes }
    }
}

/// A copy of some nodes has as many, and each is like the one that it was copied from.
pub proof fn law_copies_of_nodes_are_alike(nodes: Nodes, copy: Nodes, i: int)
    requires
        call_ensures(Nodes::duplicate, (&nodes,), copy),
        0 <= i < nodes.nodes@.len(),
    ensures
        copy.nodes@.len() == nodes.nodes@.len(),
        ({
            let a = copy.nodes@[i];
            let b = nodes.nodes@[i];
            &&& a.ty == b.ty
            &&& a.default_inputs.ss_counts@ == b.default_inputs.ss_counts@
            &&& a.side_inputs.ss_counts@ == b.side_inputs.ss_counts@
            &&& a.updates@ == b.updates@
            &&& a.is_io == b.is_io
            &&& a.powered == b.powered
            &&& a.locked == b.locked
            &&& a.output_power == b.output_power
            &&& a.changed == b.changed
            &&& a.pending_tick == b.pending_tick
        }),
{
    assert(copy.nodes@[i].same_as(nodes.nodes@[i]));
}

/// Every byte but the greatest comes back as it was, and only that one is refused.
pub proof fn law_bytes_but_the_greatest_come_back(
    value: u8,
    byte: Option<NonMaxU8>,
    back: u8,
)
    requires
        call_ensures(NonMaxU8::new, (value,), byte),
        byte is Some ==> call_ensures(NonMaxU8::get, (byte->0,), back),
    ensures
        byte is Some <==> value != 255,
        byte is Some ==> back == value,
{
}

/// A node is known by its index, if that fits 32 bits.
pub proof fn law_nodes_are_known_by_their_index(index: usize, node: NodeId, back: usize)
    requires
        index <= u32::MAX,
        call_ensures(NodeId::from_index, (index,), node),
        call_ensures(NodeId::index, (node,), back),
    ensures
        back == index,
{
}

} // verus!
