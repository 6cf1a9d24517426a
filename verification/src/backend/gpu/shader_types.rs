//! The words that the shader reads and writes.

use vstd::prelude::*;

verus! {

/// The priority of a tick, as the shader knows it.
#[derive(Debug, Copy, Clone, PartialEq, Eq, Structural)]
pub enum TickPriority {
    Highest,
    Higher,
    High,
    Normal,
}

impl TickPriority {
    /// The number that stands for the priority: the higher the priority, the lower it is.
    pub open spec fn number(self) -> u32 {
        match self {
            TickPriority::Highest => 0,
            TickPriority::Higher => 1,
            TickPriority::High => 2,
            TickPriority::Normal => 3,
        }
    }

    /// The number that stands for the priority.
    pub fn code(self) -> (code: u32)
        ensures
            code == self.number(),
    {
        match self {
            TickPriority::Highest => 0,
            TickPriority::Higher => 1,
            TickPriority::High => 2,
            TickPriority::Normal => 3,
        }
    }
}

/// The kind of a node, as the shader knows it.
#[derive(Debug, Copy, Clone, PartialEq, Eq, Structural)]
pub enum NodeType {
    Repeater,
    Torch,
    Comparator,
    Lamp,
    Button,
    Lever,
    PressurePlate,
    Trapdoor,
    Wire,
    Constant,
    NoteBlock,
}

impl NodeType {
    /// The number that stands for the kind.
    pub open spec fn number(self) -> u32 {
        match self {
            NodeType::Repeater => 0,
            NodeType::Torch => 1,
            NodeType::Comparator => 2,
            NodeType::Lamp => 3,
            NodeType::Button => 4,
            NodeType::Lever => 5,
            NodeType::PressurePlate => 6,
            NodeType::Trapdoor => 7,
            NodeType::Wire => 8,
            NodeType::Constant => 9,
            NodeType::NoteBlock => 10,
        }
    }

    /// The number that stands for the kind.
    pub fn code(self) -> (code: u32)
        ensures
            code == self.number(),
    {
        match self {
            NodeType::Repeater => 0,
            NodeType::Torch => 1,
            NodeType::Comparator => 2,
            NodeType::Lamp => 3,
            NodeType::Button => 4,
            NodeType::Lever => 5,
            NodeType::PressurePlate => 6,
            NodeType::Trapdoor => 7,
            NodeType::Wire => 8,
            NodeType::Constant => 9,
            NodeType::NoteBlock => 10,
        }
    }
}

/// One if the flag is set, else zero.
pub open spec fn bit(flag: bool) -> int {
    if flag {
        1
    } else {
        0
    }
}

/// One if the flag is set, else zero.
fn as_bit(flag: bool) -> (word: u32)
    ensures
        word == bit(flag),
{
    if flag {
        1
    } else {
        0
    }
}

/// Where the links of a node stand: `count` of them from `index` on.
#[derive(Debug, Copy, Clone, PartialEq, Eq, Structural)]
pub struct NeighborInfo {
    pub count: u8,
    pub index: usize,
}

impl NeighborInfo {
    /// The count in the low byte, and the low 24 bits of the index above it.
    pub open spec fn packed(self) -> int {
        self.count + 0x100 * (self.index % 0x100_0000)
    }

    pub fn as_packed(&self) -> (word: u32)
        ensures
            word == self.packed(),
    {
        let count: u32 = self.count as u32;
        let index: u32 = (#[verifier::truncate] (self.index as u32)) << 8;
        proof {
            let c = self.count;
            let i = self.index;
            assert((i as u32) << 8 == 0x100 * (i % 0x100_0000)) by (bit_vector);
            assert(c as u32 | index == c + index) by (bit_vector)
                requires
                    index % 0x100 == 0,
            ;
        }
        count | index
    }
}

/// A link from a node to another.
#[derive(Debug, Copy, Clone, PartialEq, Eq, Structural)]
pub struct ForwardLink {
    pub distance: u8,
    pub is_side: bool,
    pub node_index: usize,
}

impl ForwardLink {
    /// The distance in the low bits, the side flag as bit four, which a distance of
    /// sixteen or more runs into, and the low 27 bits of the index above it.
    pub open spec fn packed(self) -> u32 {
        self.distance as u32 | if self.is_side {
            0x10u32
        } else {
            0u32
        } | (0x20 * (self.node_index % 0x800_0000)) as u32
    }

    pub fn as_packed(&self) -> (word: u32)
        ensures
            word == self.packed(),
    {
        let distance: u32 = self.distance as u32;
        let is_side: u32 = as_bit(self.is_side) << 4;
        let node_index: u32 = (#[verifier::truncate] (self.node_index as u32)) << 5;
        proof {
            let i = self.node_index;
            assert((i as u32) << 5 == 0x20 * (i % 0x800_0000)) by (bit_vector);
            assert(1u32 << 4 == 0x10u32) by (bit_vector);
            assert(0u32 << 4 == 0u32) by (bit_vector);
        }
        distance | is_side | node_index
    }
}

/// What kind of node it is, with the settings of the kind.
#[derive(Debug, Copy, Clone, PartialEq, Eq, Structural)]
pub struct TypeInfo {
    pub ty: NodeType,
    /// Repeater: delay, Comparator: 1 if subtract, Note block: id
    pub data: u8,
    pub facing_diode: bool,
    /// Will be 255 for no input
    pub far_input: u8,
}

impl TypeInfo {
    /// The kind in the low byte, the data in the next, the diode flag as bit sixteen, and
    /// the far input above it.
    pub open spec fn packed(self) -> int {
        self.ty.number() + 0x100 * self.data + 0x1_0000 * bit(self.facing_diode) + 0x2_0000
            * self.far_input
    }

    pub fn as_packed(&self) -> (word: u32)
        ensures
            word == self.packed(),
    {
        let ty: u32 = self.ty.code();
        let data: u32 = (self.data as u32) << 8;
        let flag: u32 = as_bit(self.facing_diode);
        let facing: u32 = flag << 16;
        let far_input: u32 = (self.far_input as u32) << 17;
        proof {
            let d = self.data;
            let f = self.far_input;
            assert(ty | (d as u32) << 8 | flag << 16 | (f as u32) << 17 == ty + 0x100 * d
                + 0x1_0000 * flag + 0x2_0000 * f) by (bit_vector)
                requires
                    ty <= 10,
                    flag <= 1,
            ;
        }
        ty | data | facing | far_input
    }
}

/// The state that a node is in.
#[derive(Debug, Copy, Clone, PartialEq, Eq, Structural)]
pub struct State {
    pub output_strength: u8,
    pub repeater_locked: bool,
    pub changed: bool,
}

impl State {
    /// The output strength in the low byte, and the flags as bits eight and nine.
    pub open spec fn packed(self) -> int {
        self.output_strength + 0x100 * bit(self.repeater_locked) + 0x200 * bit(self.changed)
    }

    /// The state that a word stands for.
    pub open spec fn unpacked(word: int) -> State {
        State {
            output_strength: (word % 0x100) as u8,
            repeater_locked: word / 0x100 % 2 == 1,
            changed: word / 0x200 % 2 == 1,
        }
    }

    pub fn as_packed(&self) -> (word: u32)
        ensures
            word == self.packed(),
    {
        let output: u32 = self.output_strength as u32;
        let locked: u32 = as_bit(self.repeater_locked);
        let repeater_locked: u32 = locked << 8;
        let dirty: u32 = as_bit(self.changed);
        let changed: u32 = dirty << 9;
        proof {
            let o = self.output_strength;
            assert(o as u32 | locked << 8 | dirty << 9 == o + 0x100 * locked + 0x200 * dirty)
                by (bit_vector)
                requires
                    locked <= 1,
                    dirty <= 1,
            ;
        }
        output | repeater_locked | changed
    }

    pub fn from_packed(packed: u32) -> (state: State)
        ensures
            state == State::unpacked(packed as int),
    {
        proof {
            assert(packed & 0xFF == packed % 0x100) by (bit_vector);
            assert((packed >> 8) & 0x1 == packed / 0x100 % 2) by (bit_vector);
            assert((packed >> 9) & 0x1 == packed / 0x200 % 2) by (bit_vector);
        }
        State {
            output_strength: (packed & 0xFF) as u8,
            repeater_locked: (packed >> 8) & 0x1 != 0,
            changed: (packed >> 9) & 0x1 != 0,
        }
    }
}

/// A state comes back from its word as it was.
pub proof fn law_state_survives_packing(state: State)
    ensures
        State::unpacked(state.packed()) == state,
{
}

/// The word of a place in the link buffer gives back the count, and the index if it fits
/// in 24 bits.
pub proof fn law_neighbor_info_is_recoverable(info: NeighborInfo)
    requires
        info.index < 0x100_0000,
    ensures
        info.packed() % 0x100 == info.count,
        info.packed() / 0x100 == info.index,
{
}

/// The word of a link gives back the distance, if it is below sixteen, the side flag,
/// and the index, if it fits in 27 bits.
pub proof fn law_forward_link_is_recoverable(link: ForwardLink)
    requires
        link.distance < 0x10,
        link.node_index < 0x800_0000,
    ensures
        link.packed() % 0x10 == link.distance,
        link.packed() / 0x10 % 2 == bit(link.is_side),
        link.packed() / 0x20 == link.node_index,
{
    let d = link.distance;
    let i = (0x20 * link.node_index) as u32;
    let s = if link.is_side {
        0x10u32
    } else {
        0u32
    };
    assert(d as u32 | s | i == d + s + i) by (bit_vector)
        requires
            d < 0x10,
            s == 0x10 || s == 0,
            i % 0x20 == 0,
    ;
    let n = link.node_index as int;
    assert(n % 0x800_0000 == n);
    assert(link.packed() == d + 0x10 * bit(link.is_side) + 0x20 * n);
    assert((d + 0x10 * bit(link.is_side) + 0x20 * n) / 0x20 == n);
    assert((d + 0x10 * bit(link.is_side) + 0x20 * n) / 0x10 == 2 * n + bit(link.is_side));
}

/// The word of a kind gives back the kind and all its settings.
pub proof fn law_type_info_is_recoverable(info: TypeInfo)
    ensures
        info.packed() % 0x100 == info.ty.number(),
        info.packed() / 0x100 % 0x100 == info.data,
        info.packed() / 0x1_0000 % 2 == bit(info.facing_diode),
        info.packed() / 0x2_0000 == info.far_input,
{
}

} // verus!
