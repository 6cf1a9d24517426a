//! A backend that splits the circuit into partitions, which run side by side and send
//! each other updates.

pub mod backend;
pub mod compile;
pub mod compile_laws;
pub mod counts;
pub mod dot;
pub mod dot_laws;
pub mod message_laws;
pub mod node_laws;
pub mod partition;
pub mod success_laws;
pub mod world_laws;

use vstd::prelude::*;

use crate::backend::direct::node::{ForwardLinkData, Node, NodeId, Nodes};
use crate::backend::direct::partitioned::partition::{lemma_link_of_word, PartitionForwardLink};
use crate::backend::direct::Event;
use crate::world::{Block, BlockPos, TickEntry, TickPriority};

verus! {

/// What a partition is told.
#[derive(Debug)]
pub enum PartitionMessage {
    Tick(TickPriority),
    Update { node_id: NodeId, side: bool, old_power: u8, new_power: u8 },
    ScheduleTick { node_id: NodeId, delay: usize, priority: TickPriority },
    SetNode { node_id: NodeId, powered: bool, new_power: u8 },
    RequestTickEntries(Vec<Option<(BlockPos, Block)>>),
}

/// What a partition answers.
#[derive(Debug)]
pub enum GlobalMessage {
    TickEnd(Nodes, Vec<Event>),
    TickEntries(Vec<TickEntry>),
}

/// A message and the partition that it is for.
#[derive(Debug)]
pub struct Sent {
    pub partition: usize,
    pub message: PartitionMessage,
}

/// What is known of a partition from outside.
#[derive(Debug)]
pub struct PartitionInterface {
    pub nodes: Nodes,
    pub events: Vec<Event>,
}

impl PartitionInterface {
    pub fn new(nodes: Nodes) -> (interface: PartitionInterface)
        ensures
            interface.nodes == nodes,
            interface.events@ == Seq::<Event>::empty(),
    {
        PartitionInterface { nodes, events: Vec::new() }
    }

    /// Takes the answer to a tick: what the partition holds now.  Of another answer
    /// nothing is taken; whether it was the expected one comes back.
    pub fn wait_tick_end(&mut self, answer: GlobalMessage) -> (expected: bool)
        ensures
            match answer {
                GlobalMessage::TickEnd(nodes, events) => expected && *final(self) == (
                PartitionInterface { nodes, events }),
                GlobalMessage::TickEntries(_) => !expected && *final(self) == *old(self),
            },
    {
        match answer {
            GlobalMessage::TickEnd(nodes, events) => {
                self.nodes = nodes;
                self.events = events;
                true
            },
            GlobalMessage::TickEntries(_) => false,
        }
    }

    /// Takes the answer to a request for tick entries.  Of another answer there are none;
    /// whether it was the expected one comes back, too.
    pub fn wait_tick_entries(&mut self, answer: GlobalMessage) -> (taken: (Vec<TickEntry>, bool))
        ensures
            match answer {
                GlobalMessage::TickEntries(entries) => taken.1 && taken.0 == entries,
                GlobalMessage::TickEnd(_, _) => !taken.1 && taken.0@ == Seq::<TickEntry>::empty(),
            },
            *final(self) == *old(self),
    {
        match answer {
            GlobalMessage::TickEntries(entries) => (entries, true),
            GlobalMessage::TickEnd(_, _) => (Vec::new(), false),
        }
    }

    pub fn local_nodes(&mut self) -> (nodes: &mut Nodes)
        ensures
            *nodes == old(self).nodes,
            *final(self) == (PartitionInterface { nodes: *final(nodes), ..*old(self) }),
    {
        &mut self.nodes
    }

    pub fn local_events(&mut self) -> (events: &mut Vec<Event>)
        ensures
            *events == old(self).events,
            *final(self) == (PartitionInterface { events: *final(events), ..*old(self) }),
    {
        &mut self.events
    }
}

/// The nodes whose ticks are due, by priority.
#[derive(Debug)]
pub struct Queues {
    pub highest: Vec<NodeId>,
    pub higher: Vec<NodeId>,
    pub high: Vec<NodeId>,
    pub normal: Vec<NodeId>,
}

impl Queues {
    /// The nodes whose ticks of a priority are due.
    pub open spec fn of(self, priority: TickPriority) -> Seq<NodeId> {
        match priority {
            TickPriority::Highest => self.highest@,
            TickPriority::Higher => self.higher@,
            TickPriority::High => self.high@,
            TickPriority::Normal => self.normal@,
        }
    }

    /// No ticks.
    pub fn empty() -> (queues: Queues)
        ensures
            forall|priority: TickPriority| #[trigger]
                queues.of(priority) == Seq::<NodeId>::empty(),
    {
        Queues { highest: Vec::new(), higher: Vec::new(), high: Vec::new(), normal: Vec::new() }
    }

    /// The nodes whose ticks of a priority are due.
    pub fn get(&self, priority: TickPriority) -> (queue: &Vec<NodeId>)
        ensures
            queue@ == self.of(priority),
    {
        match priority {
            TickPriority::Highest => &self.highest,
            TickPriority::Higher => &self.higher,
            TickPriority::High => &self.high,
            TickPriority::Normal => &self.normal,
        }
    }
}

/// A change of strength at the end of a link.
#[derive(Debug, Copy, Clone, PartialEq, Eq, Structural)]
pub struct Change {
    pub node_id: NodeId,
    pub side: bool,
    pub old_power: u8,
    pub new_power: u8,
}

impl Change {
    /// The message that tells the partition of the node about the change.
    pub fn message(self) -> (message: PartitionMessage)
        ensures
            message == (PartitionMessage::Update {
                node_id: self.node_id,
                side: self.side,
                old_power: self.old_power,
                new_power: self.new_power,
            }),
    {
        PartitionMessage::Update {
            node_id: self.node_id,
            side: self.side,
            old_power: self.old_power,
            new_power: self.new_power,
        }
    }
}

/// Where a change of strength goes.
#[derive(Debug, Copy, Clone, PartialEq, Eq, Structural)]
pub enum Delivery {
    /// To a node of the same partition, where it can be handled immediately.
    Local(Change),
    /// To another partition, from which an update is requested.
    Remote(usize, Change),
}

/// What is left to do about a message.
#[derive(Debug)]
pub enum Step {
    /// Run the ticks of a priority.  Before that the queues of this tick are to be taken
    /// from the scheduler if it begins here, after that they are to be given back if it
    /// ends here, and then [`Partition::tick_end`] is to be sent, once.
    Tick { priority: TickPriority, begins: bool, ends: bool },
    /// Let a node react to its inputs.
    React(NodeId),
    /// Schedule a tick.
    Schedule { node_id: NodeId, delay: usize, priority: TickPriority },
    /// Deliver changes of strength, in order.
    Deliver(Vec<Delivery>),
    /// Report the pending ticks of these blocks.
    ReportTickEntries(Vec<Option<(BlockPos, Block)>>),
}

/// What is left of a strength after a distance.
pub open spec fn weakened(power: u8, distance: u8) -> u8 {
    if power >= distance {
        (power - distance) as u8
    } else {
        0
    }
}

/// What goes over the link of a word from a node of partition `index` whose strength
/// changes.
pub open spec fn delivery(index: usize, word: u32, old_power: u8, new_power: u8) -> Delivery {
    let location = PartitionForwardLink::target(word);
    let distance = PartitionForwardLink::distance(word);
    let change = Change {
        node_id: location.index,
        side: PartitionForwardLink::enters_side(word),
        old_power: weakened(old_power, distance),
        new_power: weakened(new_power, distance),
    };
    if location.partition == index {
        Delivery::Local(change)
    } else {
        Delivery::Remote(location.partition as usize, change)
    }
}

/// Whether a change of strength arrives at the end of the link of a word.
pub open spec fn matters(word: u32, old_power: u8, new_power: u8) -> bool {
    let distance = PartitionForwardLink::distance(word);
    weakened(old_power, distance) != weakened(new_power, distance)
}

/// What goes over the links of a node of partition `index` whose strength changes: a
/// change for each link at whose end it arrives.
pub open spec fn deliveries(
    index: usize,
    words: Seq<u32>,
    old_power: u8,
    new_power: u8,
) -> Seq<Delivery>
    decreases words.len(),
{
    if words.len() == 0 {
        Seq::empty()
    } else {
        let earlier = deliveries(index, words.drop_last(), old_power, new_power);
        if matters(words.last(), old_power, new_power) {
            earlier.push(delivery(index, words.last(), old_power, new_power))
        } else {
            earlier
        }
    }
}

/// The counts of the inputs after one of strength `old_power` has got `new_power`.
pub open spec fn recounted(counts: Seq<u8>, old_power: u8, new_power: u8) -> Seq<u8> {
    let fewer = counts.update(old_power as int, (counts[old_power as int] - 1) as u8);
    fewer.update(new_power as int, (fewer[new_power as int] + 1) as u8)
}

/// Whether one of the inputs has strength `old_power`, and can be counted as `new_power`.
pub open spec fn can_recount(counts: Seq<u8>, old_power: u8, new_power: u8) -> bool {
    &&& old_power < 16
    &&& new_power < 16
    &&& counts[old_power as int] >= 1
    &&& new_power == old_power || counts[new_power as int] < 255
}

impl Node {
    /// The counts of the inputs of one type.
    pub open spec fn inputs(self, side: bool) -> Seq<u8> {
        if side {
            self.side_inputs.ss_counts@
        } else {
            self.default_inputs.ss_counts@
        }
    }

    /// Whether two nodes agree in everything but the counts of the inputs of one type.
    pub open spec fn same_but_inputs(self, other: Node, side: bool) -> bool {
        &&& self.ty == other.ty
        &&& self.inputs(!side) == other.inputs(!side)
        &&& self.updates == other.updates
        &&& self.is_io == other.is_io
        &&& self.powered == other.powered
        &&& self.locked == other.locked
        &&& self.output_power == other.output_power
        &&& self.changed == other.changed
        &&& self.pending_tick == other.pending_tick
    }
}

/// A part of the circuit.
#[derive(Debug)]
pub struct Partition {
    pub index: usize,
    pub nodes: Nodes,
    pub events: Vec<Event>,
    pub curr_queues: Queues,
}

impl Partition {
    pub fn new(index: usize, nodes: Nodes) -> (partition: Partition)
        ensures
            partition.index == index,
            partition.nodes == nodes,
            partition.events@ == Seq::<Event>::empty(),
            forall|priority: TickPriority| #[trigger]
                partition.curr_queues.of(priority) == Seq::<NodeId>::empty(),
    {
        Partition { index, nodes, events: Vec::new(), curr_queues: Queues::empty() }
    }

    /// Whether there is a node of this index.
    pub open spec fn has(self, node_id: NodeId) -> bool {
        node_id.id < self.nodes.nodes@.len()
    }

    /// The node of this index.
    pub open spec fn node(self, node_id: NodeId) -> Node {
        self.nodes.nodes@[node_id.id as int]
    }

    /// Whether nothing but the node of this index differs.
    pub open spec fn same_but_node(self, other: Partition, node_id: NodeId) -> bool {
        &&& self.index == other.index
        &&& self.events == other.events
        &&& self.curr_queues == other.curr_queues
        &&& self.nodes.nodes@.len() == other.nodes.nodes@.len()
        &&& forall|i: int|
            0 <= i < self.nodes.nodes@.len() && i != node_id.id ==> #[trigger] self.nodes.nodes@[i]
                == other.nodes.nodes@[i]
    }

    /// Takes the queues of this tick.
    pub fn start_tick(&mut self, queues: Queues)
        ensures
            *final(self) == (Partition { curr_queues: queues, ..*old(self) }),
    {
        self.curr_queues = queues;
    }

    /// The nodes to tick at a priority.
    pub fn tick_with_priority(&self, priority: TickPriority) -> (queue: Vec<NodeId>)
        ensures
            queue@ == self.curr_queues.of(priority),
    {
        let queue = self.curr_queues.get(priority);
        let mut nodes: Vec<NodeId> = Vec::new();
        let mut i: usize = 0;
        while i < queue.len()
            invariant
                i <= queue@.len(),
                nodes@ == queue@.take(i as int),
            decreases queue@.len() - i,
        {
            nodes.push(queue[i]);
            i += 1;
            assert(nodes@ =~= queue@.take(i as int));
        }
        assert(queue@.take(i as int) =~= queue@);
        nodes
    }

    /// Gives the queues of this tick back.
    pub fn end_tick(&mut self) -> (queues: Queues)
        ensures
            queues == old(self).curr_queues,
            final(self).index == old(self).index,
            final(self).nodes == old(self).nodes,
            final(self).events == old(self).events,
            forall|priority: TickPriority| #[trigger]
                final(self).curr_queues.of(priority) == Seq::<NodeId>::empty(),
    {
        let mut queues = Queues::empty();
        std::mem::swap(&mut queues, &mut self.curr_queues);
        queues
    }

    /// The answer to a tick: what the partition holds after it.
    pub fn tick_end(&self) -> (answer: GlobalMessage)
        ensures
            answer is TickEnd,
            answer->TickEnd_0.same_as(self.nodes),
            answer->TickEnd_1@ == self.events@,
    {
        let mut events: Vec<Event> = Vec::new();
        let mut i: usize = 0;
        while i < self.events.len()
            invariant
                i <= self.events@.len(),
                events@ == self.events@.take(i as int),
            decreases self.events@.len() - i,
        {
            events.push(self.events[i]);
            i += 1;
            assert(events@ =~= self.events@.take(i as int));
        }
        assert(self.events@.take(i as int) =~= self.events@);
        GlobalMessage::TickEnd(self.nodes.duplicate(), events)
    }

    /// Counts a change of strength among the inputs of a node.
    pub fn update(&mut self, node_id: NodeId, side: bool, old_power: u8, new_power: u8)
        requires
            old(self).has(node_id),
            can_recount(old(self).node(node_id).inputs(side), old_power, new_power),
        ensures
            final(self).same_but_node(*old(self), node_id),
            final(self).node(node_id).same_but_inputs(old(self).node(node_id), side),
            final(self).node(node_id).inputs(side) == recounted(
                old(self).node(node_id).inputs(side),
                old_power,
                new_power,
            ),
    {
        let update_ref = &mut self.nodes.nodes[node_id.index()];
        if side {
            let count: u8 = update_ref.side_inputs.ss_counts[old_power as usize];
            update_ref.side_inputs.ss_counts[old_power as usize] = count - 1;
            let count: u8 = update_ref.side_inputs.ss_counts[new_power as usize];
            update_ref.side_inputs.ss_counts[new_power as usize] = count + 1;
        } else {
            let count: u8 = update_ref.default_inputs.ss_counts[old_power as usize];
            update_ref.default_inputs.ss_counts[old_power as usize] = count - 1;
            let count: u8 = update_ref.default_inputs.ss_counts[new_power as usize];
            update_ref.default_inputs.ss_counts[new_power as usize] = count + 1;
        }
    }
}

/// Whether `after` is `before` with another state, and marked as changed.
pub open spec fn sets_node(before: Node, powered: bool, new_power: u8, after: Node) -> bool {
    after == (Node { changed: true, powered, output_power: new_power, ..before })
}

impl Partition {
    /// Gives a node another state.  What goes over its links comes back, in order.
    pub fn set_node(&mut self, node_id: NodeId, powered: bool, new_power: u8) -> (sent: Vec<
        Delivery,
    >)
        requires
            old(self).has(node_id),
        ensures
            final(self).same_but_node(*old(self), node_id),
            sets_node(
                old(self).node(node_id),
                powered,
                new_power,
                final(self).node(node_id),
            ),
            sent@ == deliveries(
                old(self).index,
                old(self).node(node_id).updates@,
                old(self).node(node_id).output_power,
                new_power,
            ),
    {
        let id: usize = node_id.index();
        let old_power: u8 = self.nodes.nodes[id].output_power;
        let node = &mut self.nodes.nodes[id];
        node.changed = true;
        node.powered = powered;
        node.output_power = new_power;

        let mut sent: Vec<Delivery> = Vec::new();
        let updates = &self.nodes.nodes[id].updates;
        let len: usize = updates.len();
        let mut i: usize = 0;
        assert(sent@ =~= deliveries(self.index, updates@.take(0), old_power, new_power));
        while i < len
            invariant
                i <= len == updates@.len(),
                sent@ == deliveries(self.index, updates@.take(i as int), old_power, new_power),
            decreases len - i,
        {
            let link_data = ForwardLinkData::new(updates.word(i));
            let update_link = PartitionForwardLink::from(link_data);
            proof {
                lemma_link_of_word(link_data);
                assert(updates@.take(i + 1).drop_last() =~= updates@.take(i as int));
                assert(updates@.take(i + 1).last() == updates@[i as int]);
            }
            let side = update_link.side();
            let distance: u8 = update_link.ss();
            let update = update_link.node();

            let old_power_there: u8 = old_power.saturating_sub(distance);
            let new_power_there: u8 = new_power.saturating_sub(distance);
            if old_power_there != new_power_there {
                let change = Change {
                    node_id: update.index(),
                    side,
                    old_power: old_power_there,
                    new_power: new_power_there,
                };
                if update.partition() == self.index {
                    sent.push(Delivery::Local(change));
                } else {
                    sent.push(Delivery::Remote(update.partition(), change));
                }
            }
            i += 1;
        }
        assert(updates@.take(i as int) =~= updates@);
        sent
    }

    /// Whether the partition can handle a message: the node that it is about exists, and
    /// an input that is updated has the strength that it is said to have had.
    pub open spec fn accepts(self, message: PartitionMessage) -> bool {
        match message {
            PartitionMessage::Tick(_) => true,
            PartitionMessage::Update { node_id, side, old_power, new_power } => self.has(node_id)
                && can_recount(self.node(node_id).inputs(side), old_power, new_power),
            PartitionMessage::ScheduleTick { node_id, .. } => self.has(node_id),
            PartitionMessage::SetNode { node_id, .. } => self.has(node_id),
            PartitionMessage::RequestTickEntries(_) => true,
        }
    }

    /// Whether the partition can handle a message.
    pub fn can_handle(&self, message: &PartitionMessage) -> (r: bool)
        ensures
            r == self.accepts(*message),
    {
        match message {
            PartitionMessage::Tick(_) => true,
            PartitionMessage::Update { node_id, side, old_power, new_power } => {
                if node_id.index() >= self.nodes.nodes.len() || *old_power >= 16 || *new_power
                    >= 16 {
                    return false;
                }
                let node = &self.nodes.nodes[node_id.index()];
                let inputs = if *side {
                    &node.side_inputs
                } else {
                    &node.default_inputs
                };
                inputs.ss_counts[*old_power as usize] >= 1 && (*new_power == *old_power
                    || inputs.ss_counts[*new_power as usize] < 255)
            },
            PartitionMessage::ScheduleTick { node_id, .. } => node_id.index()
                < self.nodes.nodes.len(),
            PartitionMessage::SetNode { node_id, .. } => node_id.index() < self.nodes.nodes.len(),
            PartitionMessage::RequestTickEntries(_) => true,
        }
    }

    /// Handles a message, as far as that concerns the nodes.  What is left to do comes
    /// back.
    pub fn handle_message(&mut self, message: PartitionMessage) -> (step: Step)
        requires
            old(self).accepts(message),
        ensures
            match message {
                PartitionMessage::Tick(priority) => *final(self) == *old(self) && step == (
                Step::Tick {
                    priority,
                    begins: priority == TickPriority::Highest,
                    ends: priority == TickPriority::Normal,
                }),
                PartitionMessage::Update { node_id, side, old_power, new_power } => {
                    &&& final(self).same_but_node(*old(self), node_id)
                    &&& final(self).node(node_id).same_but_inputs(old(self).node(node_id), side)
                    &&& final(self).node(node_id).inputs(side) == recounted(
                        old(self).node(node_id).inputs(side),
                        old_power,
                        new_power,
                    )
                    &&& step == Step::React(node_id)
                },
                PartitionMessage::ScheduleTick { node_id, delay, priority } => {
                    &&& final(self).same_but_node(*old(self), node_id)
                    &&& final(self).node(node_id) == (Node {
                        pending_tick: true,
                        ..old(self).node(node_id)
                    })
                    &&& step == (Step::Schedule { node_id, delay, priority })
                },
                PartitionMessage::SetNode { node_id, powered, new_power } => {
                    &&& final(self).same_but_node(*old(self), node_id)
                    &&& sets_node(
                        old(self).node(node_id),
                        powered,
                        new_power,
                        final(self).node(node_id),
                    )
                    &&& step is Deliver
                    &&& step->Deliver_0@ == deliveries(
                        old(self).index,
                        old(self).node(node_id).updates@,
                        old(self).node(node_id).output_power,
                        new_power,
                    )
                },
                PartitionMessage::RequestTickEntries(blocks) => *final(self) == *old(self)
                    && step == Step::ReportTickEntries(blocks),
            },
    {
        match message {
            PartitionMessage::Tick(priority) => Step::Tick {
                priority,
                begins: priority == TickPriority::Highest,
                ends: priority == TickPriority::Normal,
            },
            PartitionMessage::Update { node_id, side, old_power, new_power } => {
                self.update(node_id, side, old_power, new_power);
                Step::React(node_id)
            },
            PartitionMessage::ScheduleTick { node_id, delay, priority } => {
                self.nodes.nodes[node_id.index()].pending_tick = true;
                Step::Schedule { node_id, delay, priority }
            },
            PartitionMessage::SetNode { node_id, powered, new_power } => {
                let sent = self.set_node(node_id, powered, new_power);
                Step::Deliver(sent)
            },
            PartitionMessage::RequestTickEntries(blocks) => Step::ReportTickEntries(blocks),
        }
    }
}

/// How many inputs are counted.
pub open spec fn input_total(counts: Seq<u8>) -> int
    decreases counts.len(),
{
    if counts.len() == 0 {
        0
    } else {
        input_total(counts.drop_last()) + counts.last()
    }
}

/// Changing one count changes the total by as much.
proof fn lemma_total_of_update(counts: Seq<u8>, i: int, count: u8)
    requires
        0 <= i < counts.len(),
    ensures
        input_total(counts.update(i, count)) == input_total(counts) - counts[i] + count,
    decreases counts.len(),
{
    let changed = counts.update(i, count);
    if i == counts.len() - 1 {
        assert(changed.drop_last() =~= counts.drop_last());
    } else {
        assert(changed.drop_last() =~= counts.drop_last().update(i, count));
        lemma_total_of_update(counts.drop_last(), i, count);
    }
}

/// An update counts as many inputs as before, and counts them as before if the strength
/// goes back.
pub proof fn law_update_moves_one_input(counts: Seq<u8>, old_power: u8, new_power: u8)
    requires
        counts.len() == 16,
        can_recount(counts, old_power, new_power),
    ensures
        input_total(recounted(counts, old_power, new_power)) == input_total(counts),
        can_recount(recounted(counts, old_power, new_power), new_power, old_power),
        recounted(recounted(counts, old_power, new_power), new_power, old_power) == counts,
{
    let fewer = counts.update(old_power as int, (counts[old_power as int] - 1) as u8);
    lemma_total_of_update(counts, old_power as int, (counts[old_power as int] - 1) as u8);
    lemma_total_of_update(fewer, new_power as int, (fewer[new_power as int] + 1) as u8);
    assert(recounted(recounted(counts, old_power, new_power), new_power, old_power) =~= counts);
}

/// The change that a delivery carries.
pub open spec fn change_of(delivery: Delivery) -> Change {
    match delivery {
        Delivery::Local(change) => change,
        Delivery::Remote(_, change) => change,
    }
}

/// Whether two deliveries are the same change to the same node, there and back.
pub open spec fn reverse_of(there: Delivery, back: Delivery) -> bool {
    &&& change_of(back) == (Change {
        old_power: change_of(there).new_power,
        new_power: change_of(there).old_power,
        ..change_of(there)
    })
    &&& match (there, back) {
        (Delivery::Local(_), Delivery::Local(_)) => true,
        (Delivery::Remote(p, _), Delivery::Remote(q, _)) => p == q,
        _ => false,
    }
}

/// Setting a node back to the strength that it had takes every change back that setting
/// it had sent out, in the same order, and setting it to the strength that it has sends
/// out none.
pub proof fn law_setting_back_takes_changes_back(
    index: usize,
    words: Seq<u32>,
    old_power: u8,
    new_power: u8,
)
    ensures
        deliveries(index, words, new_power, old_power).len() == deliveries(
            index,
            words,
            old_power,
            new_power,
        ).len(),
        forall|i: int|
            0 <= i < deliveries(index, words, old_power, new_power).len() ==> reverse_of(
                #[trigger] deliveries(index, words, old_power, new_power)[i],
                deliveries(index, words, new_power, old_power)[i],
            ),
        old_power == new_power ==> deliveries(index, words, old_power, new_power).len() == 0,
    decreases words.len(),
{
    if words.len() > 0 {
        law_setting_back_takes_changes_back(index, words.drop_last(), old_power, new_power);
    }
}

/// Every change that is sent out is one, and its strengths are within those of the node.
pub proof fn law_deliveries_are_changes(
    index: usize,
    words: Seq<u32>,
    old_power: u8,
    new_power: u8,
)
    ensures
        deliveries(index, words, old_power, new_power).len() <= words.len(),
        forall|i: int|
            0 <= i < deliveries(index, words, old_power, new_power).len() ==> {
                let change = change_of(
                    #[trigger] deliveries(index, words, old_power, new_power)[i],
                );
                &&& change.old_power != change.new_power
                &&& change.old_power <= old_power
                &&& change.new_power <= new_power
            },
    decreases words.len(),
{
    if words.len() > 0 {
        law_deliveries_are_changes(index, words.drop_last(), old_power, new_power);
    }
}

/// No ticks are due in queues that are empty.
pub proof fn law_empty_queues_hold_no_ticks(
    queues: Queues,
    priority: TickPriority,
    queue: &Vec<NodeId>,
)
    requires
        call_ensures(Queues::empty, (), queues),
        call_ensures(Queues::get, (&queues, priority), queue),
    ensures
        queue@.len() == 0,
{
}

} // verus!
