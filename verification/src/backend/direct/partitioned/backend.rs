//! The partitions of a circuit, seen from outside.

use rustc_hash::FxHashMap;
use vstd::prelude::*;

use crate::backend::direct::node::{Node, NodeType, Nodes};
use crate::backend::direct::partitioned::compile::NoteInfo;
use crate::backend::direct::partitioned::partition::NodeLocation;
use crate::backend::direct::partitioned::{
    sets_node, GlobalMessage, PartitionInterface, PartitionMessage, Sent,
};
use crate::backend::direct::{bool_to_ss, on_or_off, Event};
use crate::maps;
use crate::world::{Block, BlockPos, Instrument, TickPriority};

verus! {

/// A circuit is split into no more partitions than this.
pub const MAX_PARTITIONS: usize = 128;

/// A partition holds at least this many nodes, unless it is the last.
pub const MIN_PARTITION_SIZE: usize = 32768;

/// The backend, apart from what connects it to its partitions.
#[derive(Debug)]
pub struct PartitionedBackend {
    pub partitions: Vec<PartitionInterface>,
    /// The block that the node at a location stands for.
    pub blocks: FxHashMap<(u16, u32), (BlockPos, Block)>,
    /// The node that stands for the block at a position.
    pub pos_map: FxHashMap<(i32, i32, i32), NodeLocation>,
    pub noteblock_info: Vec<NoteInfo>,
}

/// What the world is asked to do.
#[derive(Debug, Copy, Clone, PartialEq, Eq, Structural)]
pub enum WorldEffect {
    PlayNote { pos: BlockPos, instrument: Instrument, note: u32 },
    SetBlock { pos: BlockPos, block: Block },
    SetComparator { pos: BlockPos, output_strength: u8 },
}

/// What the reset of a partition takes: the world is asked to do something, and then the
/// partition is sent a message.
#[derive(Debug)]
pub struct ResetStep {
    pub effects: Vec<WorldEffect>,
    pub message: PartitionMessage,
}

/// The blocks of nodes, by the location of the node.
pub type Blocks = Map<(u16, u32), (BlockPos, Block)>;

/// The messages by which a node that is used changes, if it can be used: a button that
/// is not pressed is pressed and released ten ticks later, a lever is thrown.
pub open spec fn used(node: Node, location: NodeLocation) -> Option<Seq<Sent>> {
    let partition = location.partition as usize;
    match node.ty {
        NodeType::Button => if node.powered {
            Some(Seq::empty())
        } else {
            Some(
                seq![
                    Sent {
                        partition,
                        message: PartitionMessage::ScheduleTick {
                            node_id: location.index,
                            delay: 10,
                            priority: TickPriority::Normal,
                        },
                    },
                    Sent {
                        partition,
                        message: PartitionMessage::SetNode {
                            node_id: location.index,
                            powered: true,
                            new_power: 15,
                        },
                    },
                ],
            )
        },
        NodeType::Lever => Some(
            seq![
                Sent {
                    partition,
                    message: PartitionMessage::SetNode {
                        node_id: location.index,
                        powered: !node.powered,
                        new_power: on_or_off(!node.powered),
                    },
                },
            ],
        ),
        _ => None,
    }
}

/// The messages by which a pressure plate changes, if the node is one.
pub open spec fn pressed(node: Node, location: NodeLocation, powered: bool) -> Option<Seq<Sent>> {
    match node.ty {
        NodeType::PressurePlate => Some(
            seq![
                Sent {
                    partition: location.partition as usize,
                    message: PartitionMessage::SetNode {
                        node_id: location.index,
                        powered,
                        new_power: on_or_off(powered),
                    },
                },
            ],
        ),
        _ => None,
    }
}

/// Whether a list, if there is one, holds what is expected.
pub open spec fn sends(sent: Option<Vec<Sent>>, expected: Option<Seq<Sent>>) -> bool {
    match (sent, expected) {
        (Some(list), Some(messages)) => list@ =~= messages,
        (None, None) => true,
        _ => false,
    }
}

/// The note of an event.
pub open spec fn note_of(event: Event, info: Seq<NoteInfo>) -> WorldEffect {
    match event {
        Event::NoteBlockPlay { noteblock_id } => WorldEffect::PlayNote {
            pos: info[noteblock_id as int].0,
            instrument: info[noteblock_id as int].1,
            note: info[noteblock_id as int].2,
        },
    }
}

/// The notes of some events.
pub open spec fn notes_of(events: Seq<Event>, info: Seq<NoteInfo>) -> Seq<WorldEffect> {
    events.map_values(|event: Event| note_of(event, info))
}

/// Whether the note block of an event is known.
pub open spec fn known(event: Event, info: Seq<NoteInfo>) -> bool {
    match event {
        Event::NoteBlockPlay { noteblock_id } => noteblock_id < info.len(),
    }
}

/// Whether the state of a node is to be shown in the world.
pub open spec fn refreshes(node: Node, io_only: bool) -> bool {
    node.changed && (!io_only || node.is_io)
}

/// A block that shows the state of a node, as far as it has a property for it: whether the
/// node is powered, its power if the block is a wire, and its lock if it is a repeater.
pub open spec fn showing(block: Block, node: Node) -> Block {
    Block {
        id: block.id,
        powered: if block.powered is Some {
            Some(node.powered)
        } else {
            None
        },
        power: if block.power is Some {
            Some(node.output_power)
        } else {
            None
        },
        locked: if block.locked is Some {
            Some(node.locked)
        } else {
            None
        },
    }
}

/// Shows the state of a node in a block.
fn show(block: &mut Block, node: &Node)
    ensures
        *final(block) == showing(*old(block), *node),
{
    if block.powered.is_some() {
        block.powered = Some(node.powered);
    }
    if block.power.is_some() {
        block.power = Some(node.output_power);
    }
    if block.locked.is_some() {
        block.locked = Some(node.locked);
    }
}

/// The blocks that are set to show the states of the nodes of partition `p`.
pub open spec fn blocks_set(nodes: Seq<Node>, blocks: Blocks, p: int, io_only: bool) -> Seq<
    WorldEffect,
>
    decreases nodes.len(),
{
    if nodes.len() == 0 {
        Seq::empty()
    } else {
        let earlier = blocks_set(nodes.drop_last(), blocks, p, io_only);
        let key = (p as u16, (nodes.len() - 1) as u32);
        if blocks.contains_key(key) && refreshes(nodes.last(), io_only) {
            earlier.push(
                WorldEffect::SetBlock {
                    pos: blocks[key].0,
                    block: showing(blocks[key].1, nodes.last()),
                },
            )
        } else {
            earlier
        }
    }
}

/// What the world is asked to do to show the state of all partitions: for each, its notes
/// are played and then its blocks are set.
pub open spec fn flush_effects(
    partitions: Seq<PartitionInterface>,
    blocks: Blocks,
    info: Seq<NoteInfo>,
    io_only: bool,
) -> Seq<WorldEffect>
    decreases partitions.len(),
{
    if partitions.len() == 0 {
        Seq::empty()
    } else {
        flush_effects(partitions.drop_last(), blocks, info, io_only) + notes_of(
            partitions.last().events@,
            info,
        ) + blocks_set(partitions.last().nodes.nodes@, blocks, partitions.len() - 1, io_only)
    }
}

/// The block of a location once the states of `nodes`, which are those of partition `p`,
/// are shown.
pub open spec fn shown_block(
    nodes: Seq<Node>,
    p: int,
    io_only: bool,
    key: (u16, u32),
    block: (BlockPos, Block),
) -> (BlockPos, Block) {
    if key.0 == p && key.1 < nodes.len() && refreshes(nodes[key.1 as int], io_only) {
        (block.0, showing(block.1, nodes[key.1 as int]))
    } else {
        block
    }
}

/// Whether `after` are `blocks` with the states of `nodes`, which are those of partition
/// `p`, shown in them.
pub open spec fn shows_nodes(
    nodes: Seq<Node>,
    blocks: Blocks,
    p: int,
    io_only: bool,
    after: Blocks,
) -> bool {
    &&& after.dom() == blocks.dom()
    &&& forall|key: (u16, u32)| #[trigger]
        blocks.contains_key(key) ==> after[key] == shown_block(nodes, p, io_only, key, blocks[key])
}

/// Whether `after` are `nodes`, which are those of partition `p`, of which those that
/// stand for a block have no change left to show.
pub open spec fn settles(nodes: Seq<Node>, blocks: Blocks, p: int, after: Seq<Node>) -> bool {
    after.len() == nodes.len() && forall|i: int|
        0 <= i < nodes.len() ==> #[trigger] after[i] == if blocks.contains_key(
            (p as u16, i as u32),
        ) {
            Node { changed: false, ..nodes[i] }
        } else {
            nodes[i]
        }
}

/// What the world is asked to do when the nodes of partition `p` go back to it.
pub open spec fn reset_effects(nodes: Seq<Node>, blocks: Blocks, p: int, io_only: bool) -> Seq<
    WorldEffect,
>
    decreases nodes.len(),
{
    if nodes.len() == 0 {
        Seq::empty()
    } else {
        let earlier = reset_effects(nodes.drop_last(), blocks, p, io_only);
        let key = (p as u16, (nodes.len() - 1) as u32);
        let node = nodes.last();
        if blocks.contains_key(key) {
            let comparator = if node.ty is Comparator {
                seq![
                    WorldEffect::SetComparator {
                        pos: blocks[key].0,
                        output_strength: node.output_power,
                    },
                ]
            } else {
                Seq::empty()
            };
            let block = if io_only && !node.is_io {
                seq![WorldEffect::SetBlock { pos: blocks[key].0, block: blocks[key].1 }]
            } else {
                Seq::empty()
            };
            earlier + comparator + block
        } else {
            earlier
        }
    }
}

/// The blocks of the nodes of partition `p`, in the order of the nodes.
pub open spec fn block_list(count: nat, blocks: Blocks, p: int) -> Seq<Option<(BlockPos, Block)>> {
    Seq::new(
        count,
        |i: int|
            if blocks.contains_key((p as u16, i as u32)) {
                Some(blocks[(p as u16, i as u32)])
            } else {
                None
            },
    )
}

impl PartitionedBackend {
    /// Whether there is a node at a location.
    pub open spec fn has(self, location: NodeLocation) -> bool {
        location.partition < self.partitions@.len() && location.index.id
            < self.partitions@[location.partition as int].nodes.nodes@.len()
    }

    /// The node at a location.
    pub open spec fn node(self, location: NodeLocation) -> Node {
        self.partitions@[location.partition as int].nodes.nodes@[location.index.id as int]
    }

    /// Whether the locations of all nodes can be told, those of blocks lead to nodes, and
    /// the note blocks of all events are known.
    pub open spec fn wf(self) -> bool {
        &&& self.partitions@.len() <= MAX_PARTITIONS
        &&& forall|p: int|
            0 <= p < self.partitions@.len() ==> (#[trigger] self.partitions@[p]).nodes.nodes@.len()
                <= u32::MAX
        &&& forall|key: (i32, i32, i32)| #[trigger]
            self.pos_map@.contains_key(key) ==> self.has(self.pos_map@[key])
        &&& self.knows_notes()
    }

    /// Whether the note blocks of all events are known.
    pub open spec fn knows_notes(self) -> bool {
        forall|p: int, e: int|
            0 <= p < self.partitions@.len() && 0 <= e < self.partitions@[p].events@.len() ==> known(
                #[trigger] self.partitions@[p].events@[e],
                self.noteblock_info@,
            )
    }

    /// The message by which a tick is scheduled for a node.
    pub fn cross_schedule_tick(
        &self,
        location: NodeLocation,
        delay: usize,
        priority: TickPriority,
    ) -> (sent: Sent)
        ensures
            sent == (Sent {
                partition: location.partition as usize,
                message: PartitionMessage::ScheduleTick {
                    node_id: location.index,
                    delay,
                    priority,
                },
            }),
    {
        Sent {
            partition: location.partition(),
            message: PartitionMessage::ScheduleTick { node_id: location.index(), delay, priority },
        }
    }

    /// The messages by which the ticks of a priority are run: one to each partition.
    pub fn tick_with_priority(&self, priority: TickPriority) -> (sent: Vec<Sent>)
        ensures
            sent@ == Seq::new(
                self.partitions@.len(),
                |p: int| Sent { partition: p as usize, message: PartitionMessage::Tick(priority) },
            ),
    {
        let mut sent: Vec<Sent> = Vec::new();
        let mut p: usize = 0;
        while p < self.partitions.len()
            invariant
                p <= self.partitions@.len(),
                sent@ == Seq::new(
                    p as nat,
                    |p: int|
                        Sent { partition: p as usize, message: PartitionMessage::Tick(priority) },
                ),
            decreases self.partitions@.len() - p,
        {
            sent.push(Sent { partition: p, message: PartitionMessage::Tick(priority) });
            p += 1;
            assert(sent@ =~= Seq::new(
                p as nat,
                |p: int| Sent { partition: p as usize, message: PartitionMessage::Tick(priority) },
            ));
        }
        sent
    }

    /// The priorities in the order in which a tick runs them.
    pub fn tick(&self) -> (priorities: Vec<TickPriority>)
        ensures
            priorities@ == seq![
                TickPriority::Highest,
                TickPriority::Higher,
                TickPriority::High,
                TickPriority::Normal,
            ],
    {
        vec![
            TickPriority::Highest,
            TickPriority::Higher,
            TickPriority::High,
            TickPriority::Normal,
        ]
    }

    /// The node that stands for the block at a position, and its location, if there is
    /// one.
    pub fn inspect(&self, pos: BlockPos) -> (found: Option<(NodeLocation, &Node)>)
        requires
            self.wf(),
        ensures
            found == if self.pos_map@.contains_key(pos.coordinates()) {
                let location = self.pos_map@[pos.coordinates()];
                Some((location, &self.node(location)))
            } else {
                None
            },
    {
        match maps::get(&self.pos_map, pos.key()) {
            Some(location) => {
                let nodes = &self.partitions[location.partition()].nodes;
                Some((*location, &nodes.nodes[location.index().index()]))
            },
            None => None,
        }
    }

    /// The messages by which the node of a block that is used changes; none if it cannot
    /// be used.
    pub fn on_use_block(&self, pos: BlockPos) -> (sent: Option<Vec<Sent>>)
        requires
            self.wf(),
            self.pos_map@.contains_key(pos.coordinates()),
        ensures
            sends(
                sent,
                used(
                    self.node(self.pos_map@[pos.coordinates()]),
                    self.pos_map@[pos.coordinates()],
                ),
            ),
    {
        let (location, node) = match self.inspect(pos) {
            Some(found) => found,
            None => {
                return None;
            },
        };
        match node.ty {
            NodeType::Button => {
                if node.powered {
                    return Some(Vec::new());
                }
                let tick = Sent {
                    partition: location.partition(),
                    message: PartitionMessage::ScheduleTick {
                        node_id: location.index(),
                        delay: 10,
                        priority: TickPriority::Normal,
                    },
                };
                let set = Sent {
                    partition: location.partition(),
                    message: PartitionMessage::SetNode {
                        node_id: location.index(),
                        powered: true,
                        new_power: 15,
                    },
                };
                Some(vec![tick, set])
            },
            NodeType::Lever => {
                let set = Sent {
                    partition: location.partition(),
                    message: PartitionMessage::SetNode {
                        node_id: location.index(),
                        powered: !node.powered,
                        new_power: bool_to_ss(!node.powered),
                    },
                };
                Some(vec![set])
            },
            _ => None,
        }
    }

    /// The messages by which a pressure plate changes; none if the node is not one.
    pub fn set_pressure_plate(&self, pos: BlockPos, powered: bool) -> (sent: Option<Vec<Sent>>)
        requires
            self.wf(),
            self.pos_map@.contains_key(pos.coordinates()),
        ensures
            sends(
                sent,
                pressed(
                    self.node(self.pos_map@[pos.coordinates()]),
                    self.pos_map@[pos.coordinates()],
                    powered,
                ),
            ),
    {
        let (location, node) = match self.inspect(pos) {
            Some(found) => found,
            None => {
                return None;
            },
        };
        match node.ty {
            NodeType::PressurePlate => {
                let set = Sent {
                    partition: location.partition(),
                    message: PartitionMessage::SetNode {
                        node_id: location.index(),
                        powered,
                        new_power: bool_to_ss(powered),
                    },
                };
                Some(vec![set])
            },
            _ => None,
        }
    }
}

impl Default for PartitionedBackend {
    /// A backend without a circuit.
    fn default() -> (backend: PartitionedBackend)
        ensures
            backend.wf(),
            backend.partitions@ == Seq::<PartitionInterface>::empty(),
            backend.blocks@ == Blocks::empty(),
            backend.pos_map@ == Map::<(i32, i32, i32), NodeLocation>::empty(),
            backend.noteblock_info@ == Seq::<NoteInfo>::empty(),
    {
        PartitionedBackend {
            partitions: Vec::new(),
            blocks: FxHashMap::default(),
            pos_map: FxHashMap::default(),
            noteblock_info: Vec::new(),
        }
    }
}

/// Asks for the notes of some events.
fn play_notes(
    events: &Vec<Event>,
    noteblock_info: &Vec<NoteInfo>,
    effects: &mut Vec<WorldEffect>,
)
    requires
        forall|e: int| 0 <= e < events@.len() ==> known(#[trigger] events@[e], noteblock_info@),
    ensures
        final(effects)@ == old(effects)@ + notes_of(events@, noteblock_info@),
{
    let mut e: usize = 0;
    assert(effects@ =~= old(effects)@ + notes_of(events@.take(0), noteblock_info@));
    while e < events.len()
        invariant
            e <= events@.len(),
            forall|e: int| 0 <= e < events@.len() ==> known(#[trigger] events@[e], noteblock_info@),
            effects@ == old(effects)@ + notes_of(events@.take(e as int), noteblock_info@),
        decreases events@.len() - e,
    {
        match events[e] {
            Event::NoteBlockPlay { noteblock_id } => {
                assert(known(events@[e as int], noteblock_info@));
                let (pos, instrument, note) = noteblock_info[noteblock_id as usize];
                effects.push(WorldEffect::PlayNote { pos, instrument, note });
            },
        }
        e += 1;
        assert(effects@ =~= old(effects)@ + notes_of(events@.take(e as int), noteblock_info@));
    }
    assert(events@.take(e as int) =~= events@);
}

/// Shows the states of the nodes of a partition in their blocks, and asks for those
/// blocks to be set.
fn flush_nodes(
    nodes: &mut Nodes,
    partition_id: usize,
    blocks: &mut FxHashMap<(u16, u32), (BlockPos, Block)>,
    io_only: bool,
    effects: &mut Vec<WorldEffect>,
)
    requires
        partition_id < MAX_PARTITIONS,
        old(nodes).nodes@.len() <= u32::MAX,
    ensures
        settles(old(nodes).nodes@, old(blocks)@, partition_id as int, final(nodes).nodes@),
        shows_nodes(
            old(nodes).nodes@,
            old(blocks)@,
            partition_id as int,
            io_only,
            final(blocks)@,
        ),
        final(effects)@ == old(effects)@ + blocks_set(
            old(nodes).nodes@,
            old(blocks)@,
            partition_id as int,
            io_only,
        ),
{
    let ghost all = nodes.nodes@;
    let ghost before = blocks@;
    let ghost p = partition_id as int;
    let len: usize = nodes.nodes.len();
    let mut i: usize = 0;
    assert(effects@ =~= old(effects)@ + blocks_set(all.take(0), before, p, io_only));
    assert forall|key: (u16, u32)| #[trigger] before.contains_key(key) implies blocks@[key]
        == shown_block(all.take(0), p, io_only, key, before[key]) by {}
    while i < len
        invariant
            i <= len == all.len() == nodes.nodes@.len(),
            all == old(nodes).nodes@,
            before == old(blocks)@,
            len <= u32::MAX,
            p == partition_id,
            partition_id < MAX_PARTITIONS,
            blocks@.dom() == before.dom(),
            forall|key: (u16, u32)| #[trigger]
                before.contains_key(key) ==> blocks@[key] == shown_block(
                    all.take(i as int),
                    p,
                    io_only,
                    key,
                    before[key],
                ),
            forall|j: int| i <= j < len ==> #[trigger] nodes.nodes@[j] == all[j],
            forall|j: int|
                0 <= j < i ==> #[trigger] nodes.nodes@[j] == if before.contains_key(
                    (p as u16, j as u32),
                ) {
                    Node { changed: false, ..all[j] }
                } else {
                    all[j]
                },
            effects@ == old(effects)@ + blocks_set(all.take(i as int), before, p, io_only),
        decreases len - i,
    {
        let location = NodeLocation::from(partition_id, i);
        let ghost key = (p as u16, i as u32);
        let ghost here = blocks@;
        let ghost part = all.take(i + 1);
        proof {
            assert(location.parts() == key);
            assert(part.drop_last() =~= all.take(i as int));
            assert(part.last() == all[i as int]);
            assert(blocks@.contains_key(key) <==> before.contains_key(key)) by {
                assert(blocks@.dom().contains(key) <==> before.dom().contains(key));
            }
        }
        if let Some(entry) = maps::get(blocks, location.key()) {
            let (pos, block) = *entry;
            assert(before.contains_key(key));
            assert((pos, block) == before[key]);
            let node = &nodes.nodes[i];
            if node.changed && (!io_only || node.is_io) {
                let mut shown = block;
                show(&mut shown, node);
                maps::insert(blocks, location.key(), (pos, shown));
                effects.push(WorldEffect::SetBlock { pos, block: shown });
            }
            nodes.nodes[i].changed = false;
        }
        proof {
            assert(blocks@.dom() =~= before.dom());
            assert forall|k: (u16, u32)| #[trigger] before.contains_key(k) implies blocks@[k]
                == shown_block(part, p, io_only, k, before[k]) by {
                assert(here[k] == shown_block(all.take(i as int), p, io_only, k, before[k]));
            }
            assert(effects@ =~= old(effects)@ + blocks_set(part, before, p, io_only));
        }
        i += 1;
    }
    assert(all.take(i as int) =~= all);
}

/// The block of a location once the states of all nodes of `partitions` are shown.
pub open spec fn flushed_block(
    partitions: Seq<PartitionInterface>,
    io_only: bool,
    key: (u16, u32),
    block: (BlockPos, Block),
) -> (BlockPos, Block) {
    if key.0 < partitions.len() {
        shown_block(partitions[key.0 as int].nodes.nodes@, key.0 as int, io_only, key, block)
    } else {
        block
    }
}

/// What is set for the nodes of a partition depends on the blocks of those nodes only.
proof fn lemma_blocks_set_locally(
    nodes: Seq<Node>,
    blocks: Blocks,
    other: Blocks,
    p: int,
    io_only: bool,
)
    requires
        nodes.len() <= u32::MAX,
        0 <= p < MAX_PARTITIONS,
        blocks.dom() == other.dom(),
        forall|key: (u16, u32)| #[trigger]
            blocks.contains_key(key) && key.0 == p ==> other[key] == blocks[key],
    ensures
        blocks_set(nodes, blocks, p, io_only) == blocks_set(nodes, other, p, io_only),
    decreases nodes.len(),
{
    if nodes.len() > 0 {
        lemma_blocks_set_locally(nodes.drop_last(), blocks, other, p, io_only);
        let key = (p as u16, (nodes.len() - 1) as u32);
        assert(blocks.dom().contains(key) <==> other.dom().contains(key));
        assert(blocks.contains_key(key) <==> other.contains_key(key));
    }
}

impl PartitionedBackend {
    /// Shows the state of the circuit in the world: what the world is asked to do comes
    /// back.  With `io_only` only the inputs and outputs of the circuit are shown.
    pub fn flush(&mut self, io_only: bool) -> (effects: Vec<WorldEffect>)
        requires
            old(self).wf(),
        ensures
            effects@ == flush_effects(
                old(self).partitions@,
                old(self).blocks@,
                old(self).noteblock_info@,
                io_only,
            ),
            final(self).wf(),
            final(self).partitions@.len() == old(self).partitions@.len(),
            forall|p: int|
                0 <= p < old(self).partitions@.len() ==> {
                    &&& (#[trigger] final(self).partitions@[p]).events@ == Seq::<Event>::empty()
                    &&& settles(
                        old(self).partitions@[p].nodes.nodes@,
                        old(self).blocks@,
                        p,
                        final(self).partitions@[p].nodes.nodes@,
                    )
                },
            final(self).blocks@.dom() == old(self).blocks@.dom(),
            forall|key: (u16, u32)| #[trigger]
                old(self).blocks@.contains_key(key) ==> final(self).blocks@[key] == flushed_block(
                    old(self).partitions@,
                    io_only,
                    key,
                    old(self).blocks@[key],
                ),
            final(self).pos_map == old(self).pos_map,
            final(self).noteblock_info == old(self).noteblock_info,
    {
        let ghost all = self.partitions@;
        let ghost before = self.blocks@;
        let ghost info = self.noteblock_info@;
        let mut effects: Vec<WorldEffect> = Vec::new();
        let len: usize = self.partitions.len();
        let mut p: usize = 0;
        assert(effects@ =~= flush_effects(all.take(0), before, info, io_only));
        while p < len
            invariant
                p <= len == all.len() == self.partitions@.len(),
                all == old(self).partitions@,
                before == old(self).blocks@,
                info == old(self).noteblock_info@,
                self.noteblock_info == old(self).noteblock_info,
                self.pos_map == old(self).pos_map,
                old(self).wf(),
                forall|q: int| p <= q < len ==> #[trigger] self.partitions@[q] == all[q],
                forall|q: int|
                    0 <= q < p ==> {
                        &&& (#[trigger] self.partitions@[q]).events@ == Seq::<Event>::empty()
                        &&& settles(
                            all[q].nodes.nodes@,
                            before,
                            q,
                            self.partitions@[q].nodes.nodes@,
                        )
                    },
                self.blocks@.dom() == before.dom(),
                forall|key: (u16, u32)| #[trigger]
                    before.contains_key(key) ==> self.blocks@[key] == flushed_block(
                        all.take(p as int),
                        io_only,
                        key,
                        before[key],
                    ),
                effects@ == flush_effects(all.take(p as int), before, info, io_only),
            decreases len - p,
        {
            let ghost part = all.take(p + 1);
            let ghost here = self.blocks@;
            proof {
                assert(part.drop_last() =~= all.take(p as int));
                assert(part.last() == all[p as int]);
                assert forall|e: int| 0 <= e < all[p as int].events@.len() implies known(
                    #[trigger] all[p as int].events@[e],
                    info,
                ) by {
                    assert(known(old(self).partitions@[p as int].events@[e], info));
                }
                lemma_blocks_set_locally(
                    all[p as int].nodes.nodes@,
                    before,
                    here,
                    p as int,
                    io_only,
                );
            }
            play_notes(&self.partitions[p].events, &self.noteblock_info, &mut effects);
            self.partitions[p].local_events().clear();
            flush_nodes(
                self.partitions[p].local_nodes(),
                p,
                &mut self.blocks,
                io_only,
                &mut effects,
            );
            proof {
                assert(effects@ =~= flush_effects(part, before, info, io_only));
                assert forall|key: (u16, u32)| #[trigger]
                    before.contains_key(key) implies self.blocks@[key] == flushed_block(
                    part,
                    io_only,
                    key,
                    before[key],
                ) by {
                    assert(here.contains_key(key)) by {
                        assert(here.dom().contains(key));
                    }
                    assert(here[key] == flushed_block(
                        all.take(p as int),
                        io_only,
                        key,
                        before[key],
                    ));
                }
                assert(settles(
                    all[p as int].nodes.nodes@,
                    before,
                    p as int,
                    self.partitions@[p as int].nodes.nodes@,
                )) by {
                    assert forall|i: int| 0 <= i < all[p as int].nodes.nodes@.len() implies (
                    #[trigger] here.contains_key((p as u16, i as u32)) <==> before.contains_key(
                        (p as u16, i as u32),
                    )) by {
                        assert(here.dom().contains((p as u16, i as u32)) <==> before.dom().contains(
                            (p as u16, i as u32),
                        ));
                    }
                }
            }
            p += 1;
        }
        assert(all.take(p as int) =~= all);
        effects
    }
}

/// Whether nothing is left to be shown of any partition.
pub open spec fn all_shown(partitions: Seq<PartitionInterface>, blocks: Blocks) -> bool {
    forall|p: int| 0 <= p < partitions.len() ==> shown_out(#[trigger] partitions[p], blocks, p)
}

/// Whether nothing is left to be shown of partition `p`: it has no events, and no node
/// that stands for a block has changed.
pub open spec fn shown_out(partition: PartitionInterface, blocks: Blocks, p: int) -> bool {
    &&& partition.events@.len() == 0
    &&& forall|i: int|
        0 <= i < partition.nodes.nodes@.len() && blocks.contains_key((p as u16, i as u32)) ==> !(
        #[trigger] partition.nodes.nodes@[i]).changed
}

proof fn lemma_no_blocks_set(nodes: Seq<Node>, blocks: Blocks, p: int, io_only: bool)
    requires
        forall|i: int|
            0 <= i < nodes.len() && blocks.contains_key((p as u16, i as u32)) ==> !(
            #[trigger] nodes[i]).changed,
    ensures
        blocks_set(nodes, blocks, p, io_only).len() == 0,
    decreases nodes.len(),
{
    if nodes.len() > 0 {
        assert forall|i: int|
            0 <= i < nodes.drop_last().len() && blocks.contains_key(
                (p as u16, i as u32),
            ) implies !(#[trigger] nodes.drop_last()[i]).changed by {
            assert(nodes.drop_last()[i] == nodes[i]);
        }
        lemma_no_blocks_set(nodes.drop_last(), blocks, p, io_only);
        assert(nodes.last() == nodes[nodes.len() - 1]);
    }
}

/// Where nothing is left to be shown, a flush asks nothing of the world.
pub proof fn law_nothing_changed_nothing_flushed(
    partitions: Seq<PartitionInterface>,
    blocks: Blocks,
    info: Seq<NoteInfo>,
    io_only: bool,
)
    requires
        all_shown(partitions, blocks),
    ensures
        flush_effects(partitions, blocks, info, io_only).len() == 0,
    decreases partitions.len(),
{
    if partitions.len() > 0 {
        let rest = partitions.drop_last();
        let p = partitions.len() - 1;
        assert forall|q: int| 0 <= q < rest.len() implies shown_out(
            #[trigger] rest[q],
            blocks,
            q,
        ) by {
            assert(rest[q] == partitions[q]);
        }
        law_nothing_changed_nothing_flushed(rest, blocks, info, io_only);
        assert(shown_out(partitions[p], blocks, p));
        lemma_no_blocks_set(partitions.last().nodes.nodes@, blocks, p, io_only);
    }
}

/// A flush leaves nothing to be shown, so that the next one asks nothing of the world.
pub proof fn law_flush_leaves_nothing_to_show(
    before: PartitionedBackend,
    after: PartitionedBackend,
    io_only: bool,
)
    requires
        after.partitions@.len() == before.partitions@.len(),
        forall|p: int|
            0 <= p < before.partitions@.len() ==> {
                &&& (#[trigger] after.partitions@[p]).events@ == Seq::<Event>::empty()
                &&& settles(
                    before.partitions@[p].nodes.nodes@,
                    before.blocks@,
                    p,
                    after.partitions@[p].nodes.nodes@,
                )
            },
        after.blocks@.dom() == before.blocks@.dom(),
    ensures
        all_shown(after.partitions@, after.blocks@),
        flush_effects(
            after.partitions@,
            after.blocks@,
            after.noteblock_info@,
            io_only,
        ).len() == 0,
{
    assert forall|p: int| 0 <= p < after.partitions@.len() implies shown_out(
        #[trigger] after.partitions@[p],
        after.blocks@,
        p,
    ) by {
        let nodes = after.partitions@[p].nodes.nodes@;
        assert forall|i: int|
            0 <= i < nodes.len() && after.blocks@.contains_key((p as u16, i as u32)) implies !(
        #[trigger] nodes[i]).changed by {
            assert(after.blocks@.dom().contains((p as u16, i as u32)));
            assert(before.blocks@.contains_key((p as u16, i as u32)));
        }
    }
    law_nothing_changed_nothing_flushed(
        after.partitions@,
        after.blocks@,
        after.noteblock_info@,
        io_only,
    );
}

/// Whether `messages` are one, by which a node gets another state, and `after` is what
/// becomes of the node.
pub open spec fn follows(before: Node, messages: Option<Seq<Sent>>, after: Node) -> bool {
    &&& messages is Some
    &&& (messages->0).len() == 1
    &&& match (messages->0)[0].message {
        PartitionMessage::SetNode { powered, new_power, .. } => sets_node(
            before,
            powered,
            new_power,
            after,
        ),
        _ => false,
    }
}

/// A lever that is used twice is as it was, but for being marked as changed.
pub proof fn law_lever_used_twice(
    before: Node,
    between: Node,
    after: Node,
    location: NodeLocation,
)
    requires
        before.ty == NodeType::Lever,
        before.output_power == on_or_off(before.powered),
        follows(before, used(before, location), between),
        follows(between, used(between, location), after),
    ensures
        between.powered == !before.powered,
        between.output_power == on_or_off(between.powered),
        after == (Node { changed: true, ..before }),
{
}

/// A pressure plate has the state that it was set to last.
pub proof fn law_pressure_plate_set_twice(
    before: Node,
    between: Node,
    after: Node,
    location: NodeLocation,
    first: bool,
    second: bool,
)
    requires
        before.ty == NodeType::PressurePlate,
        follows(before, pressed(before, location, first), between),
        follows(between, pressed(between, location, second), after),
    ensures
        after.powered == second,
        after.output_power == on_or_off(second),
        follows(before, pressed(before, location, second), after),
{
}

/// The reset of one partition.
fn reset_partition(
    nodes: &Nodes,
    partition_idx: usize,
    blocks: &FxHashMap<(u16, u32), (BlockPos, Block)>,
    io_only: bool,
) -> (step: ResetStep)
    requires
        partition_idx < MAX_PARTITIONS,
        nodes.nodes@.len() <= u32::MAX,
    ensures
        resets(*nodes, blocks@, partition_idx as int, io_only, step),
{
    let ghost all = nodes.nodes@;
    let ghost p = partition_idx as int;
    let mut effects: Vec<WorldEffect> = Vec::new();
    // Create a vec of blocks from node id, needed for tick scheduler reset
    let mut block_vec: Vec<Option<(BlockPos, Block)>> = Vec::new();
    let len: usize = nodes.nodes.len();
    let mut i: usize = 0;
    assert(effects@ =~= reset_effects(all.take(0), blocks@, p, io_only));
    assert(block_vec@ =~= block_list(0, blocks@, p));
    while i < len
        invariant
            i <= len == all.len(),
            len <= u32::MAX,
            all == nodes.nodes@,
            p == partition_idx,
            partition_idx < MAX_PARTITIONS,
            effects@ == reset_effects(all.take(i as int), blocks@, p, io_only),
            block_vec@ == block_list(i as nat, blocks@, p),
        decreases len - i,
    {
        let location = NodeLocation::from(partition_idx, i);
        let ghost key = (p as u16, i as u32);
        let ghost part = all.take(i + 1);
        proof {
            assert(location.parts() == key);
            assert(part.drop_last() =~= all.take(i as int));
            assert(part.last() == all[i as int]);
        }
        let node = &nodes.nodes[i];
        let block = match maps::get(blocks, location.key()) {
            Some(entry) => Some(*entry),
            None => None,
        };
        block_vec.push(block);
        if let Some((pos, block)) = block {
            if let NodeType::Comparator { .. } = node.ty {
                effects.push(
                    WorldEffect::SetComparator { pos, output_strength: node.output_power },
                );
            }
            if io_only && !node.is_io {
                effects.push(WorldEffect::SetBlock { pos, block });
            }
        }
        i += 1;
        assert(effects@ =~= reset_effects(part, blocks@, p, io_only));
        assert(block_vec@ =~= block_list(i as nat, blocks@, p));
    }
    assert(all.take(i as int) =~= all);
    ResetStep { effects, message: PartitionMessage::RequestTickEntries(block_vec) }
}

/// Whether `step` is the reset of partition `p` with these nodes.
pub open spec fn resets(nodes: Nodes, blocks: Blocks, p: int, io_only: bool, step: ResetStep) -> bool {
    &&& step.effects@ == reset_effects(nodes.nodes@, blocks, p, io_only)
    &&& step.message is RequestTickEntries
    &&& step.message->RequestTickEntries_0@ == block_list(nodes.nodes@.len(), blocks, p)
}

impl PartitionedBackend {
    /// Gives the circuit back to the world.  What that takes for each partition comes
    /// back, and the partitions themselves; each is to answer with the ticks that are then
    /// to be scheduled in the world.
    pub fn reset(&mut self, io_only: bool) -> (given: (Vec<ResetStep>, Vec<PartitionInterface>))
        requires
            old(self).wf(),
        ensures
            given.0@.len() == old(self).partitions@.len(),
            forall|p: int|
                0 <= p < given.0@.len() ==> resets(
                    old(self).partitions@[p].nodes,
                    old(self).blocks@,
                    p,
                    io_only,
                    #[trigger] given.0@[p],
                ),
            given.1 == old(self).partitions,
            final(self).wf(),
            final(self).partitions@.len() == 0,
            final(self).blocks@ == Blocks::empty(),
            final(self).pos_map@ == Map::<(i32, i32, i32), NodeLocation>::empty(),
            final(self).noteblock_info@.len() == 0,
    {
        let mut partitions: Vec<PartitionInterface> = Vec::new();
        std::mem::swap(&mut partitions, &mut self.partitions);
        let mut steps: Vec<ResetStep> = Vec::new();
        let mut p: usize = 0;
        while p < partitions.len()
            invariant
                p <= partitions@.len(),
                partitions == old(self).partitions,
                self.blocks == old(self).blocks,
                old(self).wf(),
                self.partitions@.len() == 0,
                steps@.len() == p,
                forall|q: int|
                    0 <= q < p ==> resets(
                        partitions@[q].nodes,
                        self.blocks@,
                        q,
                        io_only,
                        #[trigger] steps@[q],
                    ),
            decreases partitions@.len() - p,
        {
            steps.push(reset_partition(&partitions[p].nodes, p, &self.blocks, io_only));
            p += 1;
        }
        self.pos_map.clear();
        self.noteblock_info.clear();
        self.blocks.clear();
        (steps, partitions)
    }
}

impl PartitionedBackend {
    /// Whether an answer can be one of partition `p`: it has as many nodes as before, and
    /// the note blocks of its events are known.
    pub open spec fn believes(self, p: int, answer: GlobalMessage) -> bool {
        0 <= p < self.partitions@.len() && match answer {
            GlobalMessage::TickEnd(nodes, events) => {
                &&& nodes.nodes@.len() == self.partitions@[p].nodes.nodes@.len()
                &&& forall|e: int|
                    0 <= e < events@.len() ==> known(#[trigger] events@[e], self.noteblock_info@)
            },
            GlobalMessage::TickEntries(_) => true,
        }
    }

    /// Whether an answer can be one of partition `p`.
    pub fn can_take(&self, p: usize, answer: &GlobalMessage) -> (r: bool)
        ensures
            r == self.believes(p as int, *answer),
    {
        if p >= self.partitions.len() {
            return false;
        }
        match answer {
            GlobalMessage::TickEnd(nodes, events) => {
                if nodes.nodes.len() != self.partitions[p].nodes.nodes.len() {
                    return false;
                }
                let mut e: usize = 0;
                while e < events.len()
                    invariant
                        e <= events@.len(),
                        *answer is TickEnd,
                        answer->TickEnd_1 == *events,
                        forall|i: int|
                            0 <= i < e ==> known(#[trigger] events@[i], self.noteblock_info@),
                    decreases events@.len() - e,
                {
                    match events[e] {
                        Event::NoteBlockPlay { noteblock_id } => {
                            if noteblock_id as usize >= self.noteblock_info.len() {
                                assert(!known(events@[e as int], self.noteblock_info@));
                                return false;
                            }
                        },
                    }
                    e += 1;
                }
                true
            },
            GlobalMessage::TickEntries(_) => true,
        }
    }

    /// Takes the answer of partition `p` to a tick.  Whether it was the expected one comes
    /// back.
    pub fn take_tick_end(&mut self, p: usize, answer: GlobalMessage) -> (expected: bool)
        requires
            old(self).wf(),
            old(self).believes(p as int, answer),
        ensures
            final(self).wf(),
            expected == (answer is TickEnd),
            final(self).partitions@.len() == old(self).partitions@.len(),
            forall|q: int|
                0 <= q < old(self).partitions@.len() && q != p ==> #[trigger] final(self).partitions@[q] == old(self).partitions@[q],
            match answer {
                GlobalMessage::TickEnd(nodes, events) => final(self).partitions@[p as int] == (
                PartitionInterface { nodes, events }),
                GlobalMessage::TickEntries(_) => final(self).partitions@[p as int] == old(self).partitions@[p as int],
            },
            final(self).blocks == old(self).blocks,
            final(self).pos_map == old(self).pos_map,
            final(self).noteblock_info == old(self).noteblock_info,
    {
        let ghost before = *self;
        let expected = self.partitions[p].wait_tick_end(answer);
        proof {
            assert forall|key: (i32, i32, i32)| #[trigger]
                self.pos_map@.contains_key(key) implies self.has(self.pos_map@[key]) by {
                assert(before.has(before.pos_map@[key]));
            }
            assert forall|q: int, e: int|
                0 <= q < self.partitions@.len() && 0 <= e
                    < self.partitions@[q].events@.len() implies known(
                #[trigger] self.partitions@[q].events@[e],
                self.noteblock_info@,
            ) by {
                if q != p || answer is TickEntries {
                    assert(known(before.partitions@[q].events@[e], before.noteblock_info@));
                }
            }
        }
        expected
    }
}

} // verus!
