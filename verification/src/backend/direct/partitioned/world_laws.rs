//! What the calls that show a circuit in the world, give it back or use its blocks come to,
//! told by the nodes and by what the world is asked to do.

use vstd::prelude::*;

use crate::backend::direct::node::{Node, NodeType};
use crate::backend::direct::partitioned::backend::{
    blocks_set, flush_effects, note_of, notes_of, reset_effects, Blocks, PartitionedBackend,
    ResetStep, WorldEffect,
};
use crate::backend::direct::partitioned::compile::NoteInfo;
use crate::backend::direct::partitioned::partition::NodeLocation;
use crate::backend::direct::partitioned::{PartitionInterface, PartitionMessage, Sent};
use crate::backend::direct::Event;
use crate::world::{Block, BlockPos, TickPriority};

verus! {

/// Whether `list` are the numbers below `n` for which `p` holds, in ascending order.
pub open spec fn lists(list: Seq<int>, n: int, p: spec_fn(int) -> bool) -> bool {
    &&& forall|j: int| 0 <= j < list.len() ==> 0 <= #[trigger] list[j] < n && p(list[j])
    &&& forall|j: int, k: int| 0 <= j < k < list.len() ==> list[j] < list[k]
    &&& forall|i: int| 0 <= i < n && #[trigger] p(i) ==> list.contains(i)
}

/// One number more can be listed.
pub proof fn lemma_list_one(list: Seq<int>, n: int, p: spec_fn(int) -> bool)
    requires
        0 <= n,
        lists(list, n, p),
    ensures
        p(n) ==> lists(list.push(n), n + 1, p),
        !p(n) ==> lists(list, n + 1, p),
{
    let longer = list.push(n);
    if p(n) {
        assert forall|i: int| 0 <= i < n + 1 && #[trigger] p(i) implies longer.contains(i) by {
            if i < n {
                let j = list.index_of(i);
                assert(longer[j] == i);
            } else {
                assert(longer[list.len() as int] == i);
            }
        }
    }
}

/// The place at `i` in partition `p`.
pub open spec fn spot(p: int, i: int) -> (u16, u32) {
    (p as u16, i as u32)
}

/// Whether an effect sets the block of a node so that it shows the state of the node, in all
/// properties that the block has and in no other.
pub open spec fn shows(effect: WorldEffect, entry: (BlockPos, Block), node: Node) -> bool {
    &&& effect is SetBlock
    &&& effect->SetBlock_pos == entry.0
    &&& displays(effect->SetBlock_block, entry.1, node)
}

/// Whether `block` is `before` with the state of a node shown, in all properties that it has
/// and in no other.
pub open spec fn displays(block: Block, before: Block, node: Node) -> bool {
    &&& block.id == before.id
    &&& block.powered is Some <==> before.powered is Some
    &&& block.power is Some <==> before.power is Some
    &&& block.locked is Some <==> before.locked is Some
    &&& block.powered is Some ==> (block.powered->0 <==> node.powered)
    &&& block.power is Some ==> block.power->0 == node.output_power
    &&& block.locked is Some ==> (block.locked->0 <==> node.locked)
}

/// Whether an effect plays the note of an event.
pub open spec fn plays(effect: WorldEffect, event: Event, info: Seq<NoteInfo>) -> bool {
    match event {
        Event::NoteBlockPlay { noteblock_id } => {
            &&& effect is PlayNote
            &&& effect->PlayNote_pos == info[noteblock_id as int].0
            &&& effect->PlayNote_instrument == info[noteblock_id as int].1
            &&& effect->PlayNote_note == info[noteblock_id as int].2
        },
    }
}

/// Whether the node at `i` in partition `p` is to be shown: it stands for a block and has
/// changed, and if only inputs and outputs are shown, it is one.
pub open spec fn due(nodes: Seq<Node>, blocks: Blocks, p: int, io_only: bool) -> spec_fn(
    int,
) -> bool {
    |i: int|
        blocks.contains_key(spot(p, i)) && nodes[i].changed && (io_only ==> nodes[i].is_io)
}

/// Whether `part` is what the world is asked to do to show partition `p`: the notes of its
/// events are played, and then the blocks of the nodes of `shown`, which are those that are
/// due, are set, each once.
pub open spec fn flushes(
    partition: PartitionInterface,
    blocks: Blocks,
    info: Seq<NoteInfo>,
    p: int,
    io_only: bool,
    part: Seq<WorldEffect>,
    shown: Seq<int>,
) -> bool {
    let nodes = partition.nodes.nodes@;
    let notes = partition.events@.len() as int;
    &&& lists(shown, nodes.len() as int, due(nodes, blocks, p, io_only))
    &&& part.len() == notes + shown.len()
    &&& forall|e: int| 0 <= e < notes ==> plays(#[trigger] part[e], partition.events@[e], info)
    &&& forall|j: int|
        0 <= j < shown.len() ==> shows(
            part[notes + j],
            blocks[spot(p, #[trigger] shown[j])],
            nodes[shown[j]],
        )
}

/// Whether `parts` are what the world is asked to do to show each of `partitions`.
pub open spec fn flushes_all(
    partitions: Seq<PartitionInterface>,
    blocks: Blocks,
    info: Seq<NoteInfo>,
    io_only: bool,
    parts: Seq<Seq<WorldEffect>>,
    shown: Seq<Seq<int>>,
) -> bool {
    &&& parts.len() == partitions.len()
    &&& shown.len() == partitions.len()
    &&& forall|p: int|
        0 <= p < partitions.len() ==> flushes(
            partitions[p],
            blocks,
            info,
            p,
            io_only,
            #[trigger] parts[p],
            shown[p],
        )
}

/// Which nodes the blocks are set for.
proof fn lemma_blocks_set(nodes: Seq<Node>, blocks: Blocks, p: int, io_only: bool) -> (shown: Seq<
    int,
>)
    ensures
        lists(shown, nodes.len() as int, due(nodes, blocks, p, io_only)),
        blocks_set(nodes, blocks, p, io_only).len() == shown.len(),
        forall|j: int|
            0 <= j < shown.len() ==> shows(
                blocks_set(nodes, blocks, p, io_only)[j],
                blocks[spot(p, #[trigger] shown[j])],
                nodes[shown[j]],
            ),
    decreases nodes.len(),
{
    if nodes.len() == 0 {
        Seq::empty()
    } else {
        let rest = nodes.drop_last();
        let i = nodes.len() - 1;
        let earlier = lemma_blocks_set(rest, blocks, p, io_only);
        let d = due(nodes, blocks, p, io_only);
        let d_rest = due(rest, blocks, p, io_only);
        assert(lists(earlier, i, d)) by {
            assert forall|k: int| 0 <= k < i implies d(k) == #[trigger] d_rest(k) by {
                assert(rest[k] == nodes[k]);
            }
            assert forall|k: int| 0 <= k < i && #[trigger] d(k) implies earlier.contains(k) by {
                assert(d_rest(k));
            }
        }
        lemma_list_one(earlier, i, d);
        assert forall|j: int| 0 <= j < earlier.len() implies rest[#[trigger] earlier[j]]
            == nodes[earlier[j]] by {}
        if d(i) {
            earlier.push(i)
        } else {
            earlier
        }
    }
}

/// What each partition asks the world to do.
proof fn lemma_flush_effects(
    partitions: Seq<PartitionInterface>,
    blocks: Blocks,
    info: Seq<NoteInfo>,
    io_only: bool,
) -> (parts: (Seq<Seq<WorldEffect>>, Seq<Seq<int>>))
    ensures
        parts.0.len() == partitions.len(),
        parts.1.len() == partitions.len(),
        flush_effects(partitions, blocks, info, io_only) == parts.0.flatten(),
        forall|p: int|
            0 <= p < partitions.len() ==> flushes(
                partitions[p],
                blocks,
                info,
                p,
                io_only,
                #[trigger] parts.0[p],
                parts.1[p],
            ),
    decreases partitions.len(),
{
    if partitions.len() == 0 {
        assert(flush_effects(partitions, blocks, info, io_only) =~= Seq::<
            Seq<WorldEffect>,
        >::empty().flatten());
        (Seq::empty(), Seq::empty())
    } else {
        let rest = partitions.drop_last();
        let p = partitions.len() - 1;
        let (earlier, lists_before) = lemma_flush_effects(rest, blocks, info, io_only);
        let nodes = partitions.last().nodes.nodes@;
        let shown = lemma_blocks_set(nodes, blocks, p, io_only);
        let notes = notes_of(
            partitions.last().events@,
            info,
        );
        let part = notes + blocks_set(nodes, blocks, p, io_only);
        earlier.lemma_flatten_push(part);
        assert(flush_effects(partitions, blocks, info, io_only) =~= earlier.push(part).flatten());
        let (parts, all) = (earlier.push(part), lists_before.push(shown));
        assert forall|q: int| 0 <= q < partitions.len() implies flushes(
            partitions[q],
            blocks,
            info,
            q,
            io_only,
            #[trigger] parts[q],
            all[q],
        ) by {
            if q < p {
                assert(flushes(rest[q], blocks, info, q, io_only, earlier[q], lists_before[q]));
            } else {
                assert forall|e: int| 0 <= e < notes.len() implies plays(
                    #[trigger] part[e],
                    partitions[q].events@[e],
                    info,
                ) by {
                    assert(part[e] == note_of(partitions[q].events@[e], info));
                }
            }
        }
        (parts, all)
    }
}

/// A flush asks the world, partition by partition, for the notes of all events and then for
/// the blocks of the nodes that have changed, in their order, and for nothing else.  With
/// `io_only` only inputs and outputs are shown.  A block that is set shows the state of its
/// node: what is not powered is shown as not powered, and what is not locked as not locked.
pub proof fn law_flush_shows_what_has_changed(
    backend: &mut PartitionedBackend,
    io_only: bool,
    effects: Vec<WorldEffect>,
)
    requires
        old(backend).wf(),
        call_ensures(PartitionedBackend::flush, (backend, io_only), effects),
    ensures
        exists|parts: Seq<Seq<WorldEffect>>, shown: Seq<Seq<int>>| #[trigger]
            flushes_all(
                old(backend).partitions@,
                old(backend).blocks@,
                old(backend).noteblock_info@,
                io_only,
                parts,
                shown,
            ) && effects@ == parts.flatten(),
{
    let (parts, shown) = lemma_flush_effects(
        old(backend).partitions@,
        old(backend).blocks@,
        old(backend).noteblock_info@,
        io_only,
    );
    assert(flushes_all(
        old(backend).partitions@,
        old(backend).blocks@,
        old(backend).noteblock_info@,
        io_only,
        parts,
        shown,
    ));
}

/// A flush leaves the circuit as it was, but for this: no event and no change of a node that
/// stands for a block is left to be shown, and the backend knows the blocks as they are now.
pub proof fn law_flush_takes_note_of_what_it_has_shown(
    backend: &mut PartitionedBackend,
    io_only: bool,
    effects: Vec<WorldEffect>,
    p: int,
    i: int,
)
    requires
        old(backend).wf(),
        call_ensures(PartitionedBackend::flush, (backend, io_only), effects),
        0 <= p < old(backend).partitions@.len(),
        0 <= i < old(backend).partitions@[p].nodes.nodes@.len(),
    ensures
        final(backend).wf(),
        final(backend).partitions@.len() == old(backend).partitions@.len(),
        final(backend).partitions@[p].events@.len() == 0,
        final(backend).partitions@[p].nodes.nodes@.len()
            == old(backend).partitions@[p].nodes.nodes@.len(),
        ({
            let node = old(backend).partitions@[p].nodes.nodes@[i];
            let after = final(backend).partitions@[p].nodes.nodes@[i];
            let key = spot(p, i);
            &&& after.ty == node.ty
            &&& after.default_inputs == node.default_inputs
            &&& after.side_inputs == node.side_inputs
            &&& after.updates == node.updates
            &&& after.is_io == node.is_io
            &&& after.powered == node.powered
            &&& after.locked == node.locked
            &&& after.output_power == node.output_power
            &&& after.pending_tick == node.pending_tick
            &&& old(backend).blocks@.contains_key(key) ==> !after.changed
            &&& !old(backend).blocks@.contains_key(key) ==> after.changed == node.changed
            &&& final(backend).blocks@.contains_key(key) <==> old(backend).blocks@.contains_key(key)
            &&& old(backend).blocks@.contains_key(key) ==> {
                let before = old(backend).blocks@[key];
                let now = final(backend).blocks@[key];
                &&& now.0 == before.0
                &&& node.changed && (io_only ==> node.is_io) ==> displays(now.1, before.1, node)
                &&& !(node.changed && (io_only ==> node.is_io)) ==> now.1 == before.1
            }
        }),
        final(backend).pos_map@ == old(backend).pos_map@,
        final(backend).noteblock_info@ == old(backend).noteblock_info@,
{
    let key = spot(p, i);
    assert(final(backend).partitions@[p].events@.len() == 0);
    assert(final(backend).blocks@.dom().contains(key) <==> old(backend).blocks@.dom().contains(key));
}

/// A lever that is used and then flushed shows in its block the opposite of what it showed.
pub proof fn law_lever_used_and_flushed_shows_the_opposite(
    before: PartitionedBackend,
    pos: BlockPos,
    sent: Option<Vec<Sent>>,
    backend: &mut PartitionedBackend,
    io_only: bool,
    effects: Vec<WorldEffect>,
)
    requires
        before.wf(),
        before.pos_map@.contains_key(pos.coordinates()),
        ({
            let location = before.pos_map@[pos.coordinates()];
            let key = location.parts();
            let lever = before.node(location);
            let thrown = old(backend).node(location);
            &&& lever.ty == NodeType::Lever
            &&& before.blocks@.contains_key(key)
            &&& before.blocks@[key].0 == pos
            &&& before.blocks@[key].1.powered == Some(lever.powered)
            &&& call_ensures(PartitionedBackend::on_use_block, (&before, pos), sent)
            // the node has taken the message
            &&& old(backend).wf()
            &&& old(backend).partitions@.len() == before.partitions@.len()
            &&& old(backend).has(location)
            &&& old(backend).blocks@ == before.blocks@
            &&& sent is Some && (sent->0)@.len() > 0 && (sent->0)@[0].message is SetNode
                ==> thrown.powered == (sent->0)@[0].message->SetNode_powered && thrown.changed
            &&& thrown.is_io == lever.is_io
            &&& io_only ==> lever.is_io
        }),
        call_ensures(PartitionedBackend::flush, (backend, io_only), effects),
    ensures
        sent is Some,
        exists|k: int|
            0 <= k < effects@.len() && (#[trigger] effects@[k]) is SetBlock
                && effects@[k]->SetBlock_pos == pos && effects@[k]->SetBlock_block.powered == Some(
                !(before.blocks@[before.pos_map@[pos.coordinates()].parts()].1.powered->0),
            ),
{
    let location = before.pos_map@[pos.coordinates()];
    let p = location.partition as int;
    let i = location.index.id as int;
    assert(before.has(location));
    assert(spot(p, i) == location.parts());
    let nodes = old(backend).partitions@[p].nodes.nodes@;
    assert(due(nodes, old(backend).blocks@, p, io_only)(i));
    lemma_shown(
        old(backend).partitions@,
        old(backend).blocks@,
        old(backend).noteblock_info@,
        io_only,
        p,
        i,
    );
}

/// What is due is shown.
proof fn lemma_shown(
    partitions: Seq<PartitionInterface>,
    blocks: Blocks,
    info: Seq<NoteInfo>,
    io_only: bool,
    p: int,
    i: int,
)
    requires
        0 <= p < partitions.len(),
        0 <= i < partitions[p].nodes.nodes@.len(),
        due(partitions[p].nodes.nodes@, blocks, p, io_only)(i),
    ensures
        exists|k: int|
            0 <= k < flush_effects(partitions, blocks, info, io_only).len() && shows(
                #[trigger] flush_effects(partitions, blocks, info, io_only)[k],
                blocks[spot(p, i)],
                partitions[p].nodes.nodes@[i],
            ),
    decreases partitions.len(),
{
    let all = flush_effects(partitions, blocks, info, io_only);
    let rest = partitions.drop_last();
    let last = partitions.len() - 1;
    let earlier = flush_effects(rest, blocks, info, io_only);
    let notes = notes_of(
        partitions.last().events@,
        info,
    );
    if p < last {
        assert(rest[p] == partitions[p]);
        lemma_shown(rest, blocks, info, io_only, p, i);
        let k = choose|k: int|
            0 <= k < earlier.len() && shows(
                #[trigger] earlier[k],
                blocks[spot(p, i)],
                partitions[p].nodes.nodes@[i],
            );
        assert(all[k] == earlier[k]);
    } else {
        let nodes = partitions.last().nodes.nodes@;
        let shown = lemma_blocks_set(nodes, blocks, p, io_only);
        let j = shown.index_of(i);
        assert(shown[j] == i);
        assert(all[earlier.len() + notes.len() + j] == blocks_set(nodes, blocks, p, io_only)[j]);
    }
}

/// An effect that sets a block does so for a node that is due.
proof fn lemma_shown_only(
    partitions: Seq<PartitionInterface>,
    blocks: Blocks,
    info: Seq<NoteInfo>,
    io_only: bool,
    k: int,
)
    requires
        0 <= k < flush_effects(partitions, blocks, info, io_only).len(),
        flush_effects(partitions, blocks, info, io_only)[k] is SetBlock,
    ensures
        exists|p: int, i: int|
            0 <= p < partitions.len() && 0 <= i < partitions[p].nodes.nodes@.len()
                && #[trigger] due(
                partitions[p].nodes.nodes@,
                blocks,
                p,
                io_only,
            )(i) && shows(
                flush_effects(partitions, blocks, info, io_only)[k],
                blocks[spot(p, i)],
                partitions[p].nodes.nodes@[i],
            ),
    decreases partitions.len(),
{
    let all = flush_effects(partitions, blocks, info, io_only);
    let rest = partitions.drop_last();
    let last = partitions.len() - 1;
    let earlier = flush_effects(rest, blocks, info, io_only);
    let notes = notes_of(
        partitions.last().events@,
        info,
    );
    if k < earlier.len() {
        assert(all[k] == earlier[k]);
        lemma_shown_only(rest, blocks, info, io_only, k);
        let (p, i) = choose|p: int, i: int|
            0 <= p < rest.len() && 0 <= i < rest[p].nodes.nodes@.len() && #[trigger] due(
                rest[p].nodes.nodes@,
                blocks,
                p,
                io_only,
            )(i) && shows(earlier[k], blocks[spot(p, i)], rest[p].nodes.nodes@[i]);
        assert(rest[p] == partitions[p]);
        assert(due(partitions[p].nodes.nodes@, blocks, p, io_only)(i));
    } else if k < earlier.len() + notes.len() {
        assert(all[k] == note_of(partitions.last().events@[k - earlier.len()], info));
        let event = partitions.last().events@[k - earlier.len()];
        match event {
            Event::NoteBlockPlay { .. } => {},
        }
    } else {
        let nodes = partitions.last().nodes.nodes@;
        let shown = lemma_blocks_set(nodes, blocks, last, io_only);
        let j = k - earlier.len() - notes.len();
        assert(all[k] == blocks_set(nodes, blocks, last, io_only)[j]);
        assert(due(nodes, blocks, last, io_only)(shown[j]));
        assert(partitions[last] == partitions.last());
        assert(due(partitions[last].nodes.nodes@, blocks, last, io_only)(shown[j]));
    }
}

/// A node whose block no other node stands for is shown by a flush if and only if it has
/// changed and, where only inputs and outputs are shown, is one.
pub proof fn law_block_is_set_if_its_node_is_due(
    backend: &mut PartitionedBackend,
    io_only: bool,
    effects: Vec<WorldEffect>,
    p: int,
    i: int,
)
    requires
        old(backend).wf(),
        call_ensures(PartitionedBackend::flush, (backend, io_only), effects),
        0 <= p < old(backend).partitions@.len(),
        0 <= i < old(backend).partitions@[p].nodes.nodes@.len(),
        old(backend).blocks@.contains_key(spot(p, i)),
        forall|key: (u16, u32)| #[trigger]
            old(backend).blocks@.contains_key(key)
                && old(backend).blocks@[key].0 == old(backend).blocks@[spot(p, i)].0
                    ==> key == spot(p, i),
    ensures
        ({
            let node = old(backend).partitions@[p].nodes.nodes@[i];
            node.changed && (io_only ==> node.is_io)
        }) <==> exists|k: int|
            0 <= k < effects@.len() && (#[trigger] effects@[k]) is SetBlock
                && effects@[k]->SetBlock_pos == old(backend).blocks@[spot(p, i)].0,
{
    let partitions = old(backend).partitions@;
    let blocks = old(backend).blocks@;
    let info = old(backend).noteblock_info@;
    let nodes = partitions[p].nodes.nodes@;
    if nodes[i].changed && (io_only ==> nodes[i].is_io) {
        assert(due(nodes, blocks, p, io_only)(i));
        lemma_shown(partitions, blocks, info, io_only, p, i);
    }
    if exists|k: int|
        0 <= k < effects@.len() && (#[trigger] effects@[k]) is SetBlock && effects@[k]->SetBlock_pos
            == blocks[spot(p, i)].0 {
        let k = choose|k: int|
            0 <= k < effects@.len() && (#[trigger] effects@[k]) is SetBlock
                && effects@[k]->SetBlock_pos == blocks[spot(p, i)].0;
        lemma_shown_only(partitions, blocks, info, io_only, k);
        let (q, m) = choose|q: int, m: int|
            0 <= q < partitions.len() && 0 <= m < partitions[q].nodes.nodes@.len()
                && #[trigger] due(
                partitions[q].nodes.nodes@,
                blocks,
                q,
                io_only,
            )(m) && shows(effects@[k], blocks[spot(q, m)], partitions[q].nodes.nodes@[m]);
        assert(blocks.contains_key(spot(q, m)));
        assert(spot(q, m) == spot(p, i));
        assert(partitions[q].nodes.nodes@.len() <= u32::MAX);
        assert(partitions[p].nodes.nodes@.len() <= u32::MAX);
        assert(q == p && m == i);
    }
}

/// Whether an effect is the one that a reset asks for under a number: under an even one a
/// comparator gets the output of its node, under an odd one a block is set.
pub open spec fn gives_back(
    effect: WorldEffect,
    nodes: Seq<Node>,
    blocks: Blocks,
    p: int,
    number: int,
) -> bool {
    let entry = blocks[spot(p, number / 2)];
    if number % 2 == 0 {
        &&& effect is SetComparator
        &&& effect->SetComparator_pos == entry.0
        &&& effect->SetComparator_output_strength == nodes[number / 2].output_power
    } else {
        effect is SetBlock && effect->SetBlock_pos == entry.0 && effect->SetBlock_block == entry.1
    }
}

/// Whether a reset asks for something under a number: under an even one if the node at half
/// of it is a comparator that stands for a block, under an odd one if the node at half of it
/// stands for a block that only this backend knows the state of.
pub open spec fn owed(nodes: Seq<Node>, blocks: Blocks, p: int, io_only: bool) -> spec_fn(
    int,
) -> bool {
    |number: int|
        blocks.contains_key(spot(p, number / 2)) && if number % 2 == 0 {
            nodes[number / 2].ty is Comparator
        } else {
            io_only && !nodes[number / 2].is_io
        }
}

/// What a reset asks for.
proof fn lemma_reset_effects(nodes: Seq<Node>, blocks: Blocks, p: int, io_only: bool) -> (numbers:
    Seq<int>)
    ensures
        lists(numbers, 2 * nodes.len() as int, owed(nodes, blocks, p, io_only)),
        reset_effects(nodes, blocks, p, io_only).len() == numbers.len(),
        forall|j: int|
            0 <= j < numbers.len() ==> gives_back(
                reset_effects(nodes, blocks, p, io_only)[j],
                nodes,
                blocks,
                p,
                #[trigger] numbers[j],
            ),
    decreases nodes.len(),
{
    if nodes.len() == 0 {
        Seq::empty()
    } else {
        let rest = nodes.drop_last();
        let i = nodes.len() - 1;
        let earlier = lemma_reset_effects(rest, blocks, p, io_only);
        let o = owed(nodes, blocks, p, io_only);
        let o_rest = owed(rest, blocks, p, io_only);
        assert(lists(earlier, 2 * i, o)) by {
            assert forall|k: int| 0 <= k < 2 * i implies o(k) == #[trigger] o_rest(k) by {
                assert(rest[k / 2] == nodes[k / 2]);
            }
            assert forall|k: int| 0 <= k < 2 * i && #[trigger] o(k) implies earlier.contains(k) by {
                assert(o_rest(k));
            }
        }
        assert(2 * i / 2 == i && (2 * i + 1) / 2 == i && 2 * i % 2 == 0 && (2 * i + 1) % 2 == 1);
        lemma_list_one(earlier, 2 * i, o);
        let then = if o(2 * i) {
            earlier.push(2 * i)
        } else {
            earlier
        };
        lemma_list_one(then, 2 * i + 1, o);
        let numbers = if o(2 * i + 1) {
            then.push(2 * i + 1)
        } else {
            then
        };
        let before = reset_effects(rest, blocks, p, io_only);
        let all = reset_effects(nodes, blocks, p, io_only);
        assert forall|j: int| 0 <= j < numbers.len() implies gives_back(
            all[j],
            nodes,
            blocks,
            p,
            #[trigger] numbers[j],
        ) by {
            if j < earlier.len() {
                assert(numbers[j] == earlier[j]);
                assert(all[j] == before[j]);
                assert(gives_back(before[j], rest, blocks, p, earlier[j]));
                assert(rest[earlier[j] / 2] == nodes[earlier[j] / 2]);
            }
        }
        numbers
    }
}

/// A reset asks the world, for each partition and in the order of its nodes, to give every
/// comparator that stands for a block the output of its node, whatever that is; and, if only
/// inputs and outputs were shown, to set the blocks of all other nodes.  It asks for nothing
/// else.  The partition is asked for the pending ticks of its blocks.
pub proof fn law_reset_gives_the_circuit_back(
    backend: &mut PartitionedBackend,
    io_only: bool,
    given: (Vec<ResetStep>, Vec<PartitionInterface>),
    p: int,
)
    requires
        old(backend).wf(),
        call_ensures(PartitionedBackend::reset, (backend, io_only), given),
        0 <= p < old(backend).partitions@.len(),
    ensures
        given.0@.len() == old(backend).partitions@.len(),
        given.1@ == old(backend).partitions@,
        ({
            let nodes = old(backend).partitions@[p].nodes.nodes@;
            let blocks = old(backend).blocks@;
            let effects = given.0@[p].effects@;
            exists|numbers: Seq<int>| #[trigger]
                lists(numbers, 2 * nodes.len() as int, owed(nodes, blocks, p, io_only))
                    && effects.len() == numbers.len() && forall|j: int|
                    0 <= j < numbers.len() ==> gives_back(
                        effects[j],
                        nodes,
                        blocks,
                        p,
                        #[trigger] numbers[j],
                    )
        }),
        given.0@[p].message is RequestTickEntries,
        ({
            let asked = given.0@[p].message->RequestTickEntries_0@;
            &&& asked.len() == old(backend).partitions@[p].nodes.nodes@.len()
            &&& forall|i: int|
                0 <= i < asked.len() ==> if old(backend).blocks@.contains_key(spot(p, i)) {
                    #[trigger] asked[i] == Some(old(backend).blocks@[spot(p, i)])
                } else {
                    asked[i] is None
                }
        }),
        final(backend).partitions@.len() == 0,
        final(backend).blocks@.len() == 0,
        final(backend).pos_map@.len() == 0,
        final(backend).noteblock_info@.len() == 0,
{
    let nodes = old(backend).partitions@[p].nodes.nodes@;
    let numbers = lemma_reset_effects(nodes, old(backend).blocks@, p, io_only);
    assert(given.0@[p].effects@ == reset_effects(nodes, old(backend).blocks@, p, io_only));
    assert(lists(
        numbers,
        2 * nodes.len() as int,
        owed(nodes, old(backend).blocks@, p, io_only),
    ));
}

/// After a reset every comparator whose block no other node of its partition stands for has
/// been set exactly once, to the output of its node, zero included.
pub proof fn law_reset_sets_every_comparator_once(
    backend: &mut PartitionedBackend,
    io_only: bool,
    given: (Vec<ResetStep>, Vec<PartitionInterface>),
    p: int,
    i: int,
)
    requires
        old(backend).wf(),
        call_ensures(PartitionedBackend::reset, (backend, io_only), given),
        0 <= p < old(backend).partitions@.len(),
        0 <= i < old(backend).partitions@[p].nodes.nodes@.len(),
        old(backend).partitions@[p].nodes.nodes@[i].ty is Comparator,
        old(backend).blocks@.contains_key(spot(p, i)),
        forall|key: (u16, u32)| #[trigger]
            old(backend).blocks@.contains_key(key)
                && old(backend).blocks@[key].0 == old(backend).blocks@[spot(p, i)].0
                    ==> key == spot(p, i),
    ensures
        ({
            let effects = given.0@[p].effects@;
            let pos = old(backend).blocks@[spot(p, i)].0;
            exists|j: int|
                0 <= j < effects.len() && (#[trigger] effects[j]) is SetComparator
                    && effects[j]->SetComparator_pos == pos
                    && effects[j]->SetComparator_output_strength
                        == old(backend).partitions@[p].nodes.nodes@[i].output_power
                            && forall|k: int|
                    0 <= k < effects.len() && (#[trigger] effects[k]) is SetComparator
                        && effects[k]->SetComparator_pos == pos ==> k == j
        }),
{
    law_reset_gives_the_circuit_back(backend, io_only, given, p);
    let nodes = old(backend).partitions@[p].nodes.nodes@;
    let blocks = old(backend).blocks@;
    let effects = given.0@[p].effects@;
    let pos = blocks[spot(p, i)].0;
    let o = owed(nodes, blocks, p, io_only);
    let numbers = choose|numbers: Seq<int>| #[trigger]
        lists(numbers, 2 * nodes.len() as int, o) && effects.len() == numbers.len() && forall|
            j: int,
        |
            0 <= j < numbers.len()
                ==> gives_back(effects[j], nodes, blocks, p, #[trigger] numbers[j]);
    assert(2 * i / 2 == i && 2 * i % 2 == 0);
    assert(o(2 * i));
    let j = numbers.index_of(2 * i);
    assert(numbers[j] == 2 * i);
    assert forall|k: int|
        0 <= k < effects.len() && (#[trigger] effects[k]) is SetComparator
            && effects[k]->SetComparator_pos == pos implies k == j by {
        let number = numbers[k];
        assert(gives_back(effects[k], nodes, blocks, p, numbers[k]));
        assert(o(number));
        let m = number / 2;
        assert(0 <= m < nodes.len());
        assert(blocks.contains_key(spot(p, m)));
        assert(spot(p, m) == spot(p, i));
        assert(old(backend).partitions@[p].nodes.nodes@.len() <= u32::MAX);
        assert(m == i);
        assert(number == 2 * i);
    }
    assert(gives_back(effects[j], nodes, blocks, p, numbers[j]));
}

/// A lever that is used gets the opposite state, at full strength or none.
pub proof fn law_used_lever_is_thrown(
    backend: PartitionedBackend,
    pos: BlockPos,
    sent: Option<Vec<Sent>>,
)
    requires
        backend.wf(),
        backend.pos_map@.contains_key(pos.coordinates()),
        backend.node(backend.pos_map@[pos.coordinates()]).ty == NodeType::Lever,
        call_ensures(PartitionedBackend::on_use_block, (&backend, pos), sent),
    ensures
        sent is Some,
        (sent->0)@.len() == 1,
        ({
            let location = backend.pos_map@[pos.coordinates()];
            let on = backend.node(location).powered;
            let message = (sent->0)@[0].message;
            &&& (sent->0)@[0].partition == location.partition
            &&& message is SetNode
            &&& message->SetNode_node_id == location.index
            &&& message->SetNode_powered != on
            &&& message->SetNode_new_power == if on {
                0u8
            } else {
                15u8
            }
        }),
{
}

/// A button that is used goes on at full strength, after its release has been scheduled ten
/// ticks later; while it is on, using it does nothing.
pub proof fn law_used_button_is_pressed(
    backend: PartitionedBackend,
    pos: BlockPos,
    sent: Option<Vec<Sent>>,
)
    requires
        backend.wf(),
        backend.pos_map@.contains_key(pos.coordinates()),
        backend.node(backend.pos_map@[pos.coordinates()]).ty == NodeType::Button,
        call_ensures(PartitionedBackend::on_use_block, (&backend, pos), sent),
    ensures
        sent is Some,
        backend.node(backend.pos_map@[pos.coordinates()]).powered ==> (sent->0)@.len() == 0,
        !backend.node(backend.pos_map@[pos.coordinates()]).powered ==> {
            let location = backend.pos_map@[pos.coordinates()];
            let tick = (sent->0)@[0].message;
            let set = (sent->0)@[1].message;
            &&& (sent->0)@.len() == 2
            &&& (sent->0)@[0].partition == location.partition
            &&& (sent->0)@[1].partition == location.partition
            &&& tick is ScheduleTick && set is SetNode
            &&& tick->ScheduleTick_node_id == location.index
            &&& tick->ScheduleTick_delay == 10
            &&& tick->ScheduleTick_priority == TickPriority::Normal
            &&& set->SetNode_node_id == location.index
            &&& set->SetNode_powered
            &&& set->SetNode_new_power == 15
        },
{
}

/// Nothing but levers and buttons can be used, and nothing but pressure plates be stepped on.
pub proof fn law_other_blocks_cannot_be_used(
    backend: PartitionedBackend,
    pos: BlockPos,
    used: Option<Vec<Sent>>,
    powered: bool,
    stepped: Option<Vec<Sent>>,
)
    requires
        backend.wf(),
        backend.pos_map@.contains_key(pos.coordinates()),
        call_ensures(PartitionedBackend::on_use_block, (&backend, pos), used),
        call_ensures(PartitionedBackend::set_pressure_plate, (&backend, pos, powered), stepped),
    ensures
        used is Some <==> {
            let ty = backend.node(backend.pos_map@[pos.coordinates()]).ty;
            ty == NodeType::Lever || ty == NodeType::Button
        },
        stepped is Some <==> backend.node(backend.pos_map@[pos.coordinates()]).ty
            == NodeType::PressurePlate,
{
}

/// A pressure plate gets the state that it is set to, at full strength or none.
pub proof fn law_pressure_plate_is_set(
    backend: PartitionedBackend,
    pos: BlockPos,
    powered: bool,
    sent: Option<Vec<Sent>>,
)
    requires
        backend.wf(),
        backend.pos_map@.contains_key(pos.coordinates()),
        backend.node(backend.pos_map@[pos.coordinates()]).ty == NodeType::PressurePlate,
        call_ensures(PartitionedBackend::set_pressure_plate, (&backend, pos, powered), sent),
    ensures
        sent is Some,
        (sent->0)@.len() == 1,
        ({
            let location = backend.pos_map@[pos.coordinates()];
            let message = (sent->0)@[0].message;
            &&& (sent->0)@[0].partition == location.partition
            &&& message is SetNode
            &&& message->SetNode_node_id == location.index
            &&& message->SetNode_powered == powered
            &&& message->SetNode_new_power == if powered {
                15u8
            } else {
                0u8
            }
        }),
{
}

/// Inspecting a position finds the node that the position leads to, and nothing elsewhere.
pub proof fn law_inspecting_finds_the_node(
    backend: PartitionedBackend,
    pos: BlockPos,
    found: Option<(NodeLocation, &Node)>,
)
    requires
        backend.wf(),
        call_ensures(PartitionedBackend::inspect, (&backend, pos), found),
    ensures
        found is Some <==> backend.pos_map@.contains_key((pos.x, pos.y, pos.z)),
        found is Some ==> {
            let location = (found->0).0;
            &&& location == backend.pos_map@[(pos.x, pos.y, pos.z)]
            &&& *(found->0).1
                == backend.partitions@[location.partition as int].nodes.nodes@[location.index.id as int]
        },
{
}

/// A tick runs all four priorities, the highest first, and asks each partition once for each.
pub proof fn law_tick_runs_highest_priorities_first(
    backend: PartitionedBackend,
    priorities: Vec<TickPriority>,
    priority: TickPriority,
    sent: Vec<Sent>,
)
    requires
        backend.wf(),
        call_ensures(PartitionedBackend::tick, (&backend,), priorities),
        call_ensures(PartitionedBackend::tick_with_priority, (&backend, priority), sent),
    ensures
        priorities@.len() == 4,
        priorities@[0] == TickPriority::Highest,
        priorities@[1] == TickPriority::Higher,
        priorities@[2] == TickPriority::High,
        priorities@[3] == TickPriority::Normal,
        sent@.len() == backend.partitions@.len(),
        forall|p: int|
            0 <= p < sent@.len() ==> (#[trigger] sent@[p]).partition == p && sent@[p].message
                == PartitionMessage::Tick(priority),
{
}

/// A tick is scheduled with the partition of the node, for the node, after the delay and with
/// the priority that are given.
pub proof fn law_ticks_are_scheduled_where_the_node_is(
    backend: PartitionedBackend,
    location: NodeLocation,
    delay: usize,
    priority: TickPriority,
    sent: Sent,
)
    requires
        call_ensures(
            PartitionedBackend::cross_schedule_tick,
            (&backend, location, delay, priority),
            sent,
        ),
    ensures
        sent.partition == location.partition,
        sent.message is ScheduleTick,
        sent.message->ScheduleTick_node_id == location.index,
        sent.message->ScheduleTick_delay == delay,
        sent.message->ScheduleTick_priority == priority,
{
}

} // verus!
