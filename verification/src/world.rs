//! Plain values that the compiler exchanges with the world it runs in.

use vstd::prelude::*;

verus! {

/// The position of a block.
#[derive(Debug, Copy, Clone, PartialEq, Eq, Structural)]
pub struct BlockPos {
    pub x: i32,
    pub y: i32,
    pub z: i32,
}

impl BlockPos {
    /// The coordinates.
    pub open spec fn coordinates(self) -> (i32, i32, i32) {
        (self.x, self.y, self.z)
    }

    /// The coordinates.
    pub fn key(&self) -> (key: (i32, i32, i32))
        ensures
            key == self.coordinates(),
    {
        (self.x, self.y, self.z)
    }
}

/// A block: its number, and those of its properties that a node sets.  A property that a
/// block of its kind lacks is missing.
#[derive(Debug, Copy, Clone, PartialEq, Eq, Structural)]
pub struct Block {
    pub id: u32,
    /// Whether the block is powered, or lit.
    pub powered: Option<bool>,
    /// The power of a wire.
    pub power: Option<u8>,
    /// Whether a repeater is locked.
    pub locked: Option<bool>,
}

/// The blocks by their numbers, as each of them is by itself.
#[derive(Debug)]
pub struct BlockTable {
    pub blocks: Vec<Block>,
}

impl Block {
    /// The block of this number, as it is by itself.  One that the table lacks has no
    /// property that a node sets.
    pub open spec fn listed(table: BlockTable, id: u32) -> Block {
        if id < table.blocks@.len() {
            Block { id, ..table.blocks@[id as int] }
        } else {
            Block { id, powered: None, power: None, locked: None }
        }
    }

    /// The block of this number, as it is by itself.
    pub fn from_id(table: &BlockTable, id: u32) -> (block: Block)
        ensures
            block == Block::listed(*table, id),
    {
        if (id as usize) < table.blocks.len() {
            let block = table.blocks[id as usize];
            Block { id, powered: block.powered, power: block.power, locked: block.locked }
        } else {
            Block { id, powered: None, power: None, locked: None }
        }
    }
}

/// The order in which the ticks of one game tick run: highest first.
#[derive(Debug, Copy, Clone, PartialEq, Eq, Structural)]
pub enum TickPriority {
    Highest,
    Higher,
    High,
    Normal,
}

/// A tick that the world has scheduled for a block.
#[derive(Debug, Copy, Clone, PartialEq, Eq, Structural)]
pub struct TickEntry {
    pub ticks_left: u32,
    pub tick_priority: TickPriority,
    pub pos: BlockPos,
}

/// How a comparator combines its inputs.
#[derive(Debug, Copy, Clone, PartialEq, Eq, Structural)]
pub enum ComparatorMode {
    Compare,
    Subtract,
}

/// The instrument of a note block, by its number.
#[derive(Debug, Copy, Clone, PartialEq, Eq, Structural)]
pub struct Instrument {
    pub id: u32,
}

/// A block keeps its number, and has the properties that the table has under that number, or
/// none if the table has no such number.
pub proof fn law_blocks_have_the_properties_of_the_table(
    table: BlockTable,
    id: u32,
    block: Block,
)
    requires
        call_ensures(Block::from_id, (&table, id), block),
    ensures
        block.id == id,
        id < table.blocks@.len() ==> block.powered == table.blocks@[id as int].powered
            && block.power == table.blocks@[id as int].power && block.locked
            == table.blocks@[id as int].locked,
        id >= table.blocks@.len() ==> block.powered is None && block.power is None
            && block.locked is None,
{
}

/// Positions are told apart by their coordinates.
pub proof fn law_positions_are_told_apart(
    a: BlockPos,
    b: BlockPos,
    a_key: (i32, i32, i32),
    b_key: (i32, i32, i32),
)
    requires
        call_ensures(BlockPos::key, (&a,), a_key),
        call_ensures(BlockPos::key, (&b,), b_key),
    ensures
        a_key == b_key <==> a == b,
        a_key == (a.x, a.y, a.z),
{
}

} // verus!
