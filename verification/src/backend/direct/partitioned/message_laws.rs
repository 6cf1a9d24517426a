//! What the messages to and from a partition do, told by the nodes of the partition, number
//! by number.

use vstd::prelude::*;

use crate::backend::direct::node::{Node, NodeId, Nodes};
use crate::backend::direct::partitioned::backend::{known, PartitionedBackend};
use crate::backend::direct::partitioned::partition::{
    law_link_survives_packing, NodeLocation, PartitionForwardLink,
};
use crate::backend::direct::partitioned::world_laws::{lemma_list_one, lists};
use crate::backend::direct::partitioned::{
    deliveries, Change, Delivery, GlobalMessage, Partition, PartitionInterface, PartitionMessage,
    Queues, Step,
};
use crate::backend::direct::{bool_to_ss, Event};
use crate::world::{TickEntry, TickPriority};

verus! {

/// What is left of a strength after a loss.
pub open spec fn left_of(power: u8, loss: int) -> int {
    if power > loss {
        power - loss
    } else {
        0
    }
}

/// The loss on the link of a word: its low four bits.
pub open spec fn loss_of(word: u32) -> int {
    word as int % 16
}

/// Whether the link of a word enters from the side: the bit above the loss.
pub open spec fn side_of(word: u32) -> bool {
    word as int / 16 % 2 == 1
}

/// The index of the node that the link of a word leads to: the twenty bits above the side.
pub open spec fn index_of(word: u32) -> int {
    word as int / 32 % 0x10_0000
}

/// The partition that the link of a word leads to: the seven bits above the index.
pub open spec fn partition_of(word: u32) -> int {
    word as int / 0x200_0000
}

/// Whether a change of strength arrives over the link at `k`.
pub open spec fn arrives_over(words: Seq<u32>, old_power: u8, new_power: u8) -> spec_fn(
    int,
) -> bool {
    |k: int| left_of(old_power, loss_of(words[k])) != left_of(new_power, loss_of(words[k]))
}

/// Whether a change tells the node at the end of the link of a word what arrives there.
pub open spec fn tells_of(change: Change, word: u32, old_power: u8, new_power: u8) -> bool {
    &&& change.node_id.id == index_of(word)
    &&& change.side == side_of(word)
    &&& change.old_power == left_of(old_power, loss_of(word))
    &&& change.new_power == left_of(new_power, loss_of(word))
}

/// Whether a delivery from partition `index` brings a change to where the link of a word leads.
pub open spec fn brings_to(
    delivery: Delivery,
    index: usize,
    word: u32,
    old_power: u8,
    new_power: u8,
) -> bool {
    if partition_of(word) == index {
        delivery is Local && tells_of(delivery->Local_0, word, old_power, new_power)
    } else {
        &&& delivery is Remote
        &&& delivery->Remote_0 == partition_of(word)
        &&& tells_of(delivery->Remote_1, word, old_power, new_power)
    }
}

/// Over which links changes are delivered.
proof fn lemma_deliveries(index: usize, words: Seq<u32>, old_power: u8, new_power: u8) -> (which:
    Seq<int>)
    ensures
        lists(which, words.len() as int, arrives_over(words, old_power, new_power)),
        deliveries(index, words, old_power, new_power).len() == which.len(),
        forall|j: int|
            0 <= j < which.len() ==> brings_to(
                deliveries(index, words, old_power, new_power)[j],
                index,
                words[#[trigger] which[j]],
                old_power,
                new_power,
            ),
    decreases words.len(),
{
    if words.len() == 0 {
        Seq::empty()
    } else {
        let rest = words.drop_last();
        let k = words.len() - 1;
        let earlier = lemma_deliveries(index, rest, old_power, new_power);
        let p = arrives_over(words, old_power, new_power);
        let p_rest = arrives_over(rest, old_power, new_power);
        assert(lists(earlier, k, p)) by {
            assert forall|i: int| 0 <= i < k implies p(i) == #[trigger] p_rest(i) by {
                assert(rest[i] == words[i]);
            }
            assert forall|i: int| 0 <= i < k && #[trigger] p(i) implies earlier.contains(i) by {
                assert(p_rest(i));
            }
        }
        lemma_list_one(earlier, k, p);
        assert forall|j: int| 0 <= j < earlier.len() implies rest[#[trigger] earlier[j]]
            == words[earlier[j]] by {}
        let word = words.last();
        assert(word / 16 % 2 == word as int / 16 % 2);
        assert(0 <= word as int / 0x200_0000 < 0x80);
        if p(k) {
            earlier.push(k)
        } else {
            earlier
        }
    }
}

/// Whether two nodes differ in nothing but their inputs from one side.
pub open spec fn differ_in_inputs(one: Node, other: Node, side: bool) -> bool {
    &&& one.ty == other.ty
    &&& one.updates == other.updates
    &&& one.is_io == other.is_io
    &&& one.powered == other.powered
    &&& one.locked == other.locked
    &&& one.output_power == other.output_power
    &&& one.changed == other.changed
    &&& one.pending_tick == other.pending_tick
    &&& side ==> one.default_inputs.ss_counts@ == other.default_inputs.ss_counts@
    &&& !side ==> one.side_inputs.ss_counts@ == other.side_inputs.ss_counts@
}

/// Whether partitions differ in nothing but the node at `i`.
pub open spec fn differ_in_node(one: Partition, other: Partition, i: int) -> bool {
    &&& one.index == other.index
    &&& one.events == other.events
    &&& one.curr_queues == other.curr_queues
    &&& one.nodes.nodes@.len() == other.nodes.nodes@.len()
    &&& forall|j: int|
        0 <= j < one.nodes.nodes@.len() && j != i ==> #[trigger] one.nodes.nodes@[j]
            == other.nodes.nodes@[j]
}

/// The counts of the inputs of a node from one side.
pub open spec fn counts_of(node: Node, side: bool) -> Seq<u8> {
    if side {
        node.side_inputs.ss_counts@
    } else {
        node.default_inputs.ss_counts@
    }
}

/// Whether one input has gone from one strength to another, and all others are as they were.
pub open spec fn one_moved(before: Seq<u8>, after: Seq<u8>, old_power: u8, new_power: u8) -> bool {
    &&& after.len() == before.len()
    &&& old_power != new_power ==> after[old_power as int] == before[old_power as int] - 1
        && after[new_power as int] == before[new_power as int] + 1
    &&& forall|ss: int|
        0 <= ss < before.len() && (old_power == new_power || ss != old_power && ss != new_power)
            ==> #[trigger] after[ss] == before[ss]
}

/// An update counts one input of the node, from the given side, under its new strength instead
/// of its old one, and changes nothing else.
pub proof fn law_update_counts_an_input_anew(
    partition: &mut Partition,
    node_id: NodeId,
    side: bool,
    old_power: u8,
    new_power: u8,
)
    requires
        old(partition).accepts(
            PartitionMessage::Update { node_id, side, old_power, new_power },
        ),
        call_ensures(Partition::update, (partition, node_id, side, old_power, new_power), ()),
    ensures
        differ_in_node(*final(partition), *old(partition), node_id.id as int),
        differ_in_inputs(
            final(partition).nodes.nodes@[node_id.id as int],
            old(partition).nodes.nodes@[node_id.id as int],
            side,
        ),
        one_moved(
            counts_of(old(partition).nodes.nodes@[node_id.id as int], side),
            counts_of(final(partition).nodes.nodes@[node_id.id as int], side),
            old_power,
            new_power,
        ),
{
}

/// Whether setting a node has given it a state and marked it as changed, and `sent` are the
/// changes that this brings to the ends of its links, in their order.
pub open spec fn is_set(
    before: Partition,
    node_id: NodeId,
    powered: bool,
    new_power: u8,
    after: Partition,
    sent: Seq<Delivery>,
) -> bool {
    let node = before.nodes.nodes@[node_id.id as int];
    let now = after.nodes.nodes@[node_id.id as int];
    &&& differ_in_node(after, before, node_id.id as int)
    &&& now.powered == powered
    &&& now.output_power == new_power
    &&& now.changed
    &&& now.ty == node.ty
    &&& now.default_inputs == node.default_inputs
    &&& now.side_inputs == node.side_inputs
    &&& now.updates == node.updates
    &&& now.is_io == node.is_io
    &&& now.locked == node.locked
    &&& now.pending_tick == node.pending_tick
    &&& exists|which: Seq<int>| #[trigger]
        lists(
            which,
            node.updates@.len() as int,
            arrives_over(node.updates@, node.output_power, new_power),
        ) && sent.len() == which.len() && forall|j: int|
            0 <= j < which.len() ==> brings_to(
                sent[j],
                before.index,
                node.updates@[#[trigger] which[j]],
                node.output_power,
                new_power,
            )
}

/// Setting a node gives it a state, and brings to the end of each of its links, in their order,
/// what changes there: to its own partition directly, to others by a message.
pub proof fn law_setting_a_node_tells_its_neighbours(
    partition: &mut Partition,
    node_id: NodeId,
    powered: bool,
    new_power: u8,
    sent: Vec<Delivery>,
)
    requires
        node_id.id < old(partition).nodes.nodes@.len(),
        call_ensures(Partition::set_node, (partition, node_id, powered, new_power), sent),
    ensures
        is_set(*old(partition), node_id, powered, new_power, *final(partition), sent@),
{
    let node = old(partition).nodes.nodes@[node_id.id as int];
    let which = lemma_deliveries(
        old(partition).index,
        node.updates@,
        node.output_power,
        new_power,
    );
    assert(lists(
        which,
        node.updates@.len() as int,
        arrives_over(node.updates@, node.output_power, new_power),
    ));
}

/// A partition handles a message as its kind calls for: a tick is run, beginning with the
/// highest priority and ending with the normal one; an update counts an input anew and lets the
/// node react; a tick is scheduled and the node waits for it; a node is set; and a request for
/// pending ticks is passed on.
pub proof fn law_messages_are_handled(
    partition: &mut Partition,
    message: PartitionMessage,
    step: Step,
)
    requires
        old(partition).accepts(message),
        call_ensures(Partition::handle_message, (partition, message), step),
    ensures
        message is Tick ==> {
            let priority = message->Tick_0;
            &&& *final(partition) == *old(partition)
            &&& step is Tick
            &&& step->Tick_priority == priority
            &&& step->begins <==> priority is Highest
            &&& step->ends <==> priority is Normal
        },
        message is Update ==> {
            let id = message->Update_node_id;
            let side = message->side;
            &&& differ_in_node(*final(partition), *old(partition), id.id as int)
            &&& differ_in_inputs(
                final(partition).nodes.nodes@[id.id as int],
                old(partition).nodes.nodes@[id.id as int],
                side,
            )
            &&& one_moved(
                counts_of(old(partition).nodes.nodes@[id.id as int], side),
                counts_of(final(partition).nodes.nodes@[id.id as int], side),
                message->old_power,
                message->Update_new_power,
            )
            &&& step is React && step->React_0 == id
        },
        message is ScheduleTick ==> {
            let id = message->ScheduleTick_node_id;
            let node = old(partition).nodes.nodes@[id.id as int];
            let now = final(partition).nodes.nodes@[id.id as int];
            &&& differ_in_node(*final(partition), *old(partition), id.id as int)
            &&& now.pending_tick
            &&& now.ty == node.ty && now.updates == node.updates && now.is_io == node.is_io
            &&& now.default_inputs == node.default_inputs && now.side_inputs == node.side_inputs
            &&& now.powered == node.powered && now.locked == node.locked
            &&& now.output_power == node.output_power && now.changed == node.changed
            &&& step is Schedule
            &&& step->Schedule_node_id == id
            &&& step->Schedule_delay == message->delay
            &&& step->Schedule_priority == message->priority
        },
        message is SetNode ==> step is Deliver && is_set(
            *old(partition),
            message->SetNode_node_id,
            message->powered,
            message->SetNode_new_power,
            *final(partition),
            step->Deliver_0@,
        ),
        message is RequestTickEntries ==> *final(partition) == *old(partition)
            && step is ReportTickEntries && step->ReportTickEntries_0
            == message->RequestTickEntries_0,
{
    if message is SetNode {
        let id = message->SetNode_node_id;
        let node = old(partition).nodes.nodes@[id.id as int];
        let which = lemma_deliveries(
            old(partition).index,
            node.updates@,
            node.output_power,
            message->SetNode_new_power,
        );
        assert(lists(
            which,
            node.updates@.len() as int,
            arrives_over(node.updates@, node.output_power, message->SetNode_new_power),
        ));
    }
}

/// A partition can handle a message about a node that it has; an input that is counted anew has
/// to be one that is counted, under strengths that there are, and there has to be room for it.
pub proof fn law_messages_about_nodes_can_be_handled(
    partition: Partition,
    message: PartitionMessage,
    r: bool,
)
    requires
        call_ensures(Partition::can_handle, (&partition, &message), r),
    ensures
        message is Tick || message is RequestTickEntries ==> r,
        message is ScheduleTick ==> (r <==> message->ScheduleTick_node_id.id
            < partition.nodes.nodes@.len()),
        message is SetNode ==> (r <==> message->SetNode_node_id.id < partition.nodes.nodes@.len()),
        message is Update ==> (r <==> {
            let counts = counts_of(
                partition.nodes.nodes@[message->Update_node_id.id as int],
                message->side,
            );
            &&& message->Update_node_id.id < partition.nodes.nodes@.len()
            &&& message->old_power <= 15 && message->Update_new_power <= 15
            &&& counts[message->old_power as int] > 0
            &&& message->old_power == message->Update_new_power
                || counts[message->Update_new_power as int] < 255
        }),
{
}

/// A change is told to the partition of its node as an update of that node.
pub proof fn law_changes_are_told_as_updates(change: Change, message: PartitionMessage)
    requires
        call_ensures(Change::message, (change,), message),
    ensures
        message is Update,
        message->Update_node_id == change.node_id,
        message->side == change.side,
        message->old_power == change.old_power,
        message->Update_new_power == change.new_power,
{
}

/// The queues that a tick starts with are run by priority and given back when it ends, which
/// leaves none.
pub proof fn law_queues_are_run_and_given_back(
    starting: &mut Partition,
    queues: Queues,
    running: Partition,
    priority: TickPriority,
    run: Vec<NodeId>,
    ending: &mut Partition,
    back: Queues,
)
    requires
        call_ensures(Partition::start_tick, (starting, queues), ()),
        running == *final(starting),
        call_ensures(Partition::tick_with_priority, (&running, priority), run),
        *old(ending) == running,
        call_ensures(Partition::end_tick, (ending,), back),
    ensures
        priority is Highest ==> run@ == queues.highest@,
        priority is Higher ==> run@ == queues.higher@,
        priority is High ==> run@ == queues.high@,
        priority is Normal ==> run@ == queues.normal@,
        back == queues,
        final(ending).index == old(starting).index,
        final(ending).nodes == old(starting).nodes,
        final(ending).events == old(starting).events,
        final(ending).curr_queues.highest@.len() == 0,
        final(ending).curr_queues.higher@.len() == 0,
        final(ending).curr_queues.high@.len() == 0,
        final(ending).curr_queues.normal@.len() == 0,
{
    assert(final(ending).curr_queues.of(TickPriority::Highest).len() == 0);
    assert(final(ending).curr_queues.of(TickPriority::Higher).len() == 0);
    assert(final(ending).curr_queues.of(TickPriority::High).len() == 0);
    assert(final(ending).curr_queues.of(TickPriority::Normal).len() == 0);
}

/// After the answer to a tick the backend knows the partition as it is; other partitions and
/// other answers change nothing.
pub proof fn law_backend_learns_what_a_tick_did(
    partition: Partition,
    answer: GlobalMessage,
    backend: &mut PartitionedBackend,
    p: usize,
    expected: bool,
    q: int,
)
    requires
        call_ensures(Partition::tick_end, (&partition,), answer),
        old(backend).wf(),
        p < old(backend).partitions@.len(),
        call_ensures(PartitionedBackend::take_tick_end, (backend, p, answer), expected),
        0 <= q < old(backend).partitions@.len(),
    ensures
        expected,
        final(backend).partitions@.len() == old(backend).partitions@.len(),
        q == p ==> final(backend).partitions@[q].events@ == partition.events@,
        q == p ==> final(backend).partitions@[q].nodes.nodes@.len()
            == partition.nodes.nodes@.len(),
        q == p ==> forall|i: int|
            0 <= i < partition.nodes.nodes@.len() ==> {
                let known = #[trigger] final(backend).partitions@[q].nodes.nodes@[i];
                let node = partition.nodes.nodes@[i];
                &&& known.ty == node.ty
                &&& known.default_inputs.ss_counts@ == node.default_inputs.ss_counts@
                &&& known.side_inputs.ss_counts@ == node.side_inputs.ss_counts@
                &&& known.updates@ == node.updates@
                &&& known.is_io == node.is_io
                &&& known.powered == node.powered
                &&& known.locked == node.locked
                &&& known.output_power == node.output_power
                &&& known.changed == node.changed
                &&& known.pending_tick == node.pending_tick
            },
        q != p ==> final(backend).partitions@[q] == old(backend).partitions@[q],
        final(backend).blocks@ == old(backend).blocks@,
        final(backend).pos_map@ == old(backend).pos_map@,
        final(backend).noteblock_info@ == old(backend).noteblock_info@,
{
    if q == p {
        assert forall|i: int| 0 <= i < partition.nodes.nodes@.len() implies (
        #[trigger] final(backend).partitions@[q].nodes.nodes@[i]).same_as(
            partition.nodes.nodes@[i],
        ) by {
            assert(answer->TickEnd_0.nodes@[i].same_as(partition.nodes.nodes@[i]));
        }
    }
}

/// An answer with tick entries is no answer to a tick, and the answer to a tick has none.
pub proof fn law_other_answers_are_not_taken(
    interface: &mut PartitionInterface,
    entries: Vec<TickEntry>,
    expected: bool,
    other: &mut PartitionInterface,
    answer: GlobalMessage,
    taken: (Vec<TickEntry>, bool),
)
    requires
        call_ensures(
            PartitionInterface::wait_tick_end,
            (interface, GlobalMessage::TickEntries(entries)),
            expected,
        ),
        call_ensures(PartitionInterface::wait_tick_entries, (other, answer), taken),
    ensures
        !expected,
        *final(interface) == *old(interface),
        *final(other) == *old(other),
        answer is TickEntries ==> taken.1 && taken.0 == answer->TickEntries_0,
        answer is TickEnd ==> !taken.1 && taken.0@.len() == 0,
{
}

/// An answer of a partition is believed if it has as many nodes as before and all its note
/// blocks are known.
pub proof fn law_answers_are_believed_if_they_fit(
    backend: PartitionedBackend,
    p: usize,
    answer: GlobalMessage,
    r: bool,
)
    requires
        call_ensures(PartitionedBackend::can_take, (&backend, p, &answer), r),
    ensures
        r <==> p < backend.partitions@.len() && (answer is TickEnd ==> {
            &&& answer->TickEnd_0.nodes@.len() == backend.partitions@[p as int].nodes.nodes@.len()
            &&& forall|e: int|
                0 <= e < answer->TickEnd_1@.len() ==> (
                #[trigger] answer->TickEnd_1@[e])->noteblock_id < backend.noteblock_info@.len()
        }),
{
    if answer is TickEnd {
        let events = answer->TickEnd_1@;
        let info = backend.noteblock_info@;
        assert forall|e: int| 0 <= e < events.len() implies (
        known(#[trigger] events[e], info)
            <==> events[e]->noteblock_id < info.len()) by {
            match events[e] {
                Event::NoteBlockPlay { .. } => {},
            }
        }
        if r {
            assert forall|e: int| 0 <= e < events.len() implies (
            #[trigger] events[e])->noteblock_id < info.len() by {
                assert(known(events[e], info));
            }
        }
    }
}

/// The word of a link is made of its parts, and they can be read from it.
pub proof fn law_link_words_are_made_of_their_parts(
    location: NodeLocation,
    side: bool,
    ss: u8,
    link: PartitionForwardLink,
    word: u32,
    node: NodeLocation,
    from_side: bool,
    loss: u8,
)
    requires
        location.partition < 0x80,
        location.index.id < 0x10_0000,
        ss < 15,
        call_ensures(PartitionForwardLink::new, (location, side, ss), link),
        call_ensures(PartitionForwardLink::inner, (link,), word),
        call_ensures(PartitionForwardLink::node, (link,), node),
        call_ensures(PartitionForwardLink::side, (link,), from_side),
        call_ensures(PartitionForwardLink::ss, (link,), loss),
    ensures
        loss_of(word) == ss && loss == ss,
        side_of(word) == side && from_side == side,
        index_of(word) == location.index.id,
        partition_of(word) == location.partition,
        node == location,
{
    law_link_survives_packing(
        location,
        side,
        ss,
        word,
    );
    assert(word / 16 % 2 == word as int / 16 % 2);
    let p = location.partition as int;
    let i = location.index.id as int;
    assert(word as int / 0x200_0000 == p);
    assert(word as int / 32 % 0x10_0000 == i);
}

/// What is on has full strength, what is off none.
pub proof fn law_on_is_full_strength(powered: bool, ss: u8)
    requires
        call_ensures(bool_to_ss, (powered,), ss),
    ensures
        powered ==> ss == 15,
        !powered ==> ss == 0,
{
}

/// A partition begins with the nodes that it is given, without events or due ticks, and so does
/// what the backend knows of it.
pub proof fn law_partitions_begin_with_their_nodes(
    index: usize,
    nodes: Nodes,
    partition: Partition,
    interface: PartitionInterface,
    priority: TickPriority,
    queue: Vec<NodeId>,
)
    requires
        call_ensures(Partition::new, (index, nodes), partition),
        call_ensures(PartitionInterface::new, (nodes,), interface),
        call_ensures(Partition::tick_with_priority, (&partition, priority), queue),
    ensures
        partition.index == index,
        partition.nodes == nodes,
        partition.events@.len() == 0,
        queue@.len() == 0,
        interface.nodes == nodes,
        interface.events@.len() == 0,
{
}

/// What is set through the parts of what the backend knows of a partition is known from then
/// on, and the other part stays.
pub proof fn law_parts_of_a_partition_can_be_set(
    one: &mut PartitionInterface,
    nodes: &mut Nodes,
    other: &mut PartitionInterface,
    events: &mut Vec<Event>,
)
    requires
        call_ensures(PartitionInterface::local_nodes, (one,), nodes),
        call_ensures(PartitionInterface::local_events, (other,), events),
    ensures
        *old(nodes) == old(one).nodes,
        final(one).nodes == *final(nodes),
        final(one).events == old(one).events,
        *old(events) == old(other).events,
        final(other).events == *final(events),
        final(other).nodes == old(other).nodes,
{
}

/// A new backend knows no partitions, no blocks and no note blocks.
pub proof fn law_new_backends_are_empty(backend: PartitionedBackend)
    requires
        call_ensures(PartitionedBackend::default, (), backend),
    ensures
        backend.partitions@.len() == 0,
        backend.noteblock_info@.len() == 0,
        forall|key: (u16, u32)| !#[trigger] backend.blocks@.contains_key(key),
        forall|pos: (i32, i32, i32)| !#[trigger] backend.pos_map@.contains_key(pos),
{
}

} // verus!
