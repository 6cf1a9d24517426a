//! What a call that compiles a graph makes of each component, told by the graph and by what
//! is in the partitions afterwards.

use vstd::prelude::*;

use crate::backend::direct::node::{Node, NodeType};
use crate::backend::direct::partitioned::backend::{PartitionedBackend, WorldEffect};
use crate::backend::direct::partitioned::compile::{
    can_lower, can_lower_in, can_lower_node, compiles, files_blocks, held_by, holds_place, leads_of,
    lemma_located_in_partition, lemma_partition_sizes, lemma_place_in_range, links_fit,
    lowered_link, lowers_links, lowers_node, lowers_type, nodes_of, notes_after, partitions_for,
    place_of, placed_node, places_in, scheduled, size_for, supported, with_note, Compiled, NoteInfo,
};
use crate::backend::direct::partitioned::world_laws::{
    law_block_is_set_if_its_node_is_due, lists, spot,
};
use crate::backend::direct::partitioned::Sent;
use crate::backend::inputs::{edges_bringing, law_inputs_are_counted_by_edges, lemma_filter_ids};
use crate::backend::links::{arranges, lemma_arranged_count, Lead};
use crate::compile_graph::{CompileGraph, CompileNode, LinkType, NodeIdx, NodeType as CNodeType};
use crate::graph::{
    ascends, contents, lemma_ascends, lemma_ascends_unique, Direction, Edge, EdgeIdx, GraphView,
};
use crate::options::CompilerOptions;
use crate::world::{BlockTable, TickEntry, TickPriority};

verus! {

/// How many of `count` nodes a partition takes, unless it is the last: as many as it takes to
/// get by with 128 partitions, but no fewer than 32768.
pub open spec fn share(count: int) -> int {
    if (count + 127) / 128 > 32768 {
        (count + 127) / 128
    } else {
        32768
    }
}

/// The node that the component at `i` of all has become.
pub open spec fn node_at(compiled: Compiled, count: int, i: int) -> Node {
    compiled.partitions@[i / share(count)].nodes.nodes@[i % share(count)]
}

/// Whether a node is of the kind of a component, with the settings that it has.  A note block
/// goes by the number under which its position, instrument and note are known.
pub open spec fn is_kind_of(node: CompileNode, lowered: NodeType, info: Seq<NoteInfo>) -> bool {
    &&& node.ty is Repeater ==> lowered is Repeater && lowered->Repeater_delay
        == node.ty->Repeater_delay && lowered->Repeater_facing_diode
        == node.ty->Repeater_facing_diode
    &&& node.ty is Torch ==> lowered is Torch
    &&& node.ty is Comparator ==> {
        &&& lowered is Comparator
        &&& lowered->Comparator_mode == node.ty->Comparator_mode
        &&& lowered->Comparator_facing_diode == node.ty->Comparator_facing_diode
        &&& lowered->far_input is Some <==> node.ty->far_input is Some
        &&& lowered->far_input is Some ==> (lowered->far_input->0).byte() == node.ty->far_input->0
    }
    &&& node.ty is Lamp ==> lowered is Lamp
    &&& node.ty is Button ==> lowered is Button
    &&& node.ty is Lever ==> lowered is Lever
    &&& node.ty is PressurePlate ==> lowered is PressurePlate
    &&& node.ty is Trapdoor ==> lowered is Trapdoor
    &&& node.ty is Wire ==> lowered is Wire
    &&& node.ty is Constant ==> lowered is Constant
    &&& node.ty is NoteBlock ==> {
        &&& lowered is NoteBlock
        &&& lowered->noteblock_id < info.len()
        &&& node.block is Some
        &&& info[lowered->noteblock_id as int].0 == (node.block->0).0
        &&& info[lowered->noteblock_id as int].1 == node.ty->instrument
        &&& info[lowered->noteblock_id as int].2 == node.ty->note
    }
    &&& !(node.ty is Chain)
}

/// The word of a link to the node at `t` of `count`, entering from a side, on which `ss` is
/// lost: from the top seven bits of partition, twenty of index, one for the side, four of loss.
pub open spec fn word_to(count: int, t: int, side: bool, ss: u8) -> int {
    t / share(count) * 0x200_0000 + t % share(count) * 0x20 + ss + if side {
        0x10int
    } else {
        0
    }
}

/// The edges from `n` whose links have the word `word`.
pub open spec fn edges_as(g: GraphView, order: Seq<NodeIdx>, n: NodeIdx, word: int) -> Set<EdgeIdx> {
    Set::new(
        |id: EdgeIdx|
            g.edges.contains_key(id) && g.edges[id].source == n && word_to(
                order.len() as int,
                order.index_of(g.edges[id].target),
                g.edges[id].link.ty == LinkType::Side,
                g.edges[id].link.ss,
            ) == word,
    )
}

/// How many times `word` occurs in `words`.
pub open spec fn times(words: Seq<u32>, word: u32) -> nat {
    words.filter(is_word(word)).len()
}

/// Whether a word is `word`.
pub open spec fn is_word(word: u32) -> spec_fn(u32) -> bool {
    |w: u32| w == word
}

/// Whether a node is what a component becomes.
pub open spec fn becomes(
    g: GraphView,
    order: Seq<NodeIdx>,
    n: NodeIdx,
    info: Seq<NoteInfo>,
    node: Node,
) -> bool {
    let component = g.nodes[n];
    &&& is_kind_of(component, node.ty, info)
    &&& node.powered == component.state.powered
    &&& node.output_power == component.state.output_strength
    &&& node.locked == component.state.repeater_locked
    &&& node.is_io <==> component.is_input || component.is_output
    &&& !node.changed && !node.pending_tick
    // each input is counted under the strength that arrives over it
    &&& forall|ss: int|
        0 <= ss < 16 ==> #[trigger] node.default_inputs.ss_counts@[ss] == edges_bringing(
            g,
            n,
            LinkType::Default,
            ss,
        ).len()
    &&& forall|ss: int|
        0 <= ss < 16 ==> #[trigger] node.side_inputs.ss_counts@[ss] == edges_bringing(
            g,
            n,
            LinkType::Side,
            ss,
        ).len()
    // each edge is a link, but for those of constants
    &&& component.ty == CNodeType::Constant ==> node.updates@.len() == 0
    &&& component.ty != CNodeType::Constant ==> forall|word: u32| #[trigger]
        times(node.updates@, word) == edges_as(
            g,
            order,
            n,
            word as int,
        ).len()
}

/// What is known about note blocks only grows.
proof fn lemma_notes_grow(base: Seq<NoteInfo>, g: GraphView, order: Seq<NodeIdx>, i: int)
    requires
        0 <= i <= order.len(),
    ensures
        base.len() <= notes_after(base, g, order.take(i)).len() <= notes_after(base, g, order).len(),
        forall|k: int|
            0 <= k < notes_after(base, g, order.take(i)).len() ==> #[trigger] notes_after(
                base,
                g,
                order,
            )[k] == notes_after(base, g, order.take(i))[k],
        forall|k: int| 0 <= k < base.len() ==> #[trigger] notes_after(base, g, order)[k] == base[k],
    decreases order.len(),
{
    if order.len() > 0 {
        let rest = order.drop_last();
        if i < order.len() {
            lemma_notes_grow(base, g, rest, i);
            assert(rest.take(i) =~= order.take(i));
        } else {
            lemma_notes_grow(base, g, rest, i - 1);
            assert(order.take(i) =~= order);
            assert(rest.take(i - 1) =~= rest);
        }
    } else {
        assert(order.take(i) =~= order);
    }
}

/// Partitions are of the size that is their share.
pub proof fn lemma_share(count: int)
    requires
        0 <= count,
    ensures
        size_for(count) == share(count),
{
}

/// The kind that a component is lowered to is its kind.
proof fn lemma_kind(node: CompileNode, lowered: NodeType, notes: nat, info: Seq<NoteInfo>)
    requires
        supported(node),
        lowers_type(node.ty, notes, lowered),
        node.ty is NoteBlock ==> notes <= u16::MAX && notes < info.len() && info[notes as int] == (
            (node.block->0).0,
            node.ty->instrument,
            node.ty->note,
        ),
    ensures
        is_kind_of(node, lowered, info),
{
}

/// A node that a component is lowered to is what it becomes.
proof fn lemma_becomes(
    g: GraphView,
    order: Seq<NodeIdx>,
    base: Seq<NoteInfo>,
    i: int,
    node: Node,
)
    requires
        g.wf(),
        ascends(g, order),
        order.len() <= u32::MAX,
        can_lower_in(g, order, base),
        0 <= i < order.len(),
        lowers_node(g, order[i], places_in(order), notes_after(base, g, order.take(i)).len(), node),
    ensures
        becomes(g, order, order[i], notes_after(base, g, order), node),
{
    let n = order[i];
    let info = notes_after(base, g, order);
    lemma_ascends(g, order);
    assert(can_lower_node(g, order[i], places_in(order)));
    lemma_notes_grow(base, g, order, i + 1);
    lemma_notes_grow(base, g, order, i);
    assert(order.take(i + 1).drop_last() =~= order.take(i));
    assert(order.take(i + 1).last() == n);
    let id = notes_after(base, g, order.take(i)).len();
    let known = notes_after(base, g, order.take(i + 1));
    assert(known == with_note(notes_after(base, g, order.take(i)), g.nodes[n]));
    if g.nodes[n].ty is NoteBlock {
        assert(known[id as int] == info[id as int]);
    }
    lemma_kind(g.nodes[n], node.ty, id, info);
    assert forall|ss: int| 0 <= ss < 16 implies #[trigger] node.default_inputs.ss_counts@[ss]
        == edges_bringing(g, n, LinkType::Default, ss).len() by {
        law_inputs_are_counted_by_edges(g, n, LinkType::Default, ss);
    }
    assert forall|ss: int| 0 <= ss < 16 implies #[trigger] node.side_inputs.ss_counts@[ss]
        == edges_bringing(g, n, LinkType::Side, ss).len() by {
        law_inputs_are_counted_by_edges(g, n, LinkType::Side, ss);
    }
    if g.nodes[n].ty != CNodeType::Constant {
        assert forall|word: u32| #[trigger]
            times(node.updates@, word) == edges_as(
                g,
                order,
                n,
                word as int,
            ).len() by {
            lemma_words_count(g, order, n, node.updates@, word);
        }
    }
}

/// The word of a link is the one that its edge calls for.
proof fn lemma_word(g: GraphView, order: Seq<NodeIdx>, n: NodeIdx, edge: Edge)
    requires
        g.wf(),
        ascends(g, order),
        order.len() <= u32::MAX,
        g.nodes.contains_key(n),
        links_fit(g, n, places_in(order)),
        g.edges_of(n, Direction::Outgoing).contains(edge),
    ensures
        lowered_link(places_in(order))(lead_of(g, order)(edge)) == word_to(
            order.len() as int,
            order.index_of(edge.target),
            edge.link.ty == LinkType::Side,
            edge.link.ss,
        ),
{
    let count = order.len() as int;
    let list = g.edges_of(n, Direction::Outgoing);
    assert(g.lists_edges(n, Direction::Outgoing, g.outgoing[n]));
    let j = list.index_of(edge);
    assert(list[j] == edge);
    assert(g.nodes.contains_key(edge.target));
    assert(order.contains(edge.target));
    let t = order.index_of(edge.target);
    lemma_share(count);
    lemma_place_in_range(count, t);
    lemma_partition_sizes(count);
    let place = places_in(order)[edge.target];
    assert(place == place_of(count, t));
    assert(place.partition == t / share(count));
    assert(place.index.id == t % share(count));
    assert(0x200_0000 * place.partition + 0x20 * place.index.id <= u32::MAX - 0x1F);
}

/// The lead of an edge.
spec fn lead_of(g: GraphView, order: Seq<NodeIdx>) -> spec_fn(Edge) -> Lead {
    |edge: Edge|
        Lead {
            rank: places_in(order)[edge.target].order() as u64,
            kind: g.nodes[edge.target].ty.kind(),
            edge,
        }
}

/// There are as many links of a word as edges that call for it.
proof fn lemma_words_count(
    g: GraphView,
    order: Seq<NodeIdx>,
    n: NodeIdx,
    words: Seq<u32>,
    word: u32,
)
    requires
        g.wf(),
        ascends(g, order),
        order.len() <= u32::MAX,
        g.nodes.contains_key(n),
        g.nodes[n].ty != CNodeType::Constant,
        links_fit(g, n, places_in(order)),
        lowers_links(g, n, places_in(order), words),
    ensures
        times(words, word) == edges_as(g, order, n, word as int).len(),
{
    let places = places_in(order);
    let list = g.edges_of(n, Direction::Outgoing);
    let f = lead_of(g, order);
    assert(leads_of(g, n, places) =~= list.map_values(f));
    let leads = choose|leads: Seq<Lead>| #[trigger]
        arranges(leads_of(g, n, places), leads) && words == leads.map_values(lowered_link(places));
    let h = lowered_link(places);
    let q = is_word(word);
    let p = |edge: Edge| q(h(f(edge)));
    lemma_arranged_count(list, f, leads, h, q, p);
    assert(g.lists_edges(n, Direction::Outgoing, g.outgoing[n]));
    assert forall|id: EdgeIdx| #[trigger]
        edges_as(g, order, n, word as int).contains(id) <==> g.edges.contains_key(id)
            && g.edges[id].end(Direction::Outgoing) == n && p(g.edges[id]) by {
        if g.edges.contains_key(id) && g.edges[id].source == n {
            assert(list.contains(g.edges[id]));
            lemma_word(g, order, n, g.edges[id]);
        }
    }
    lemma_filter_ids(g, n, Direction::Outgoing, list, p, edges_as(g, order, n, word as int));
}

/// Every component becomes a node of its kind, with its settings and state, its inputs counted
/// and its edges as links; it is an input or output of the circuit if and only if it was marked
/// as one.  The nodes are in the order of the graph, as many to a partition as its share.
pub proof fn law_components_become_nodes(
    backend: &mut PartitionedBackend,
    graph: CompileGraph,
    ticks: Vec<TickEntry>,
    options: CompilerOptions,
    table: BlockTable,
    compiled: Compiled,
    order: Seq<NodeIdx>,
    i: int,
)
    requires
        contents(graph).wf(),
        contents(graph).nodes.len() <= u32::MAX,
        ascends(contents(graph), order),
        0 <= i < order.len(),
        can_lower(contents(graph), old(backend).noteblock_info@),
        call_ensures(
            PartitionedBackend::compile,
            (backend, graph, ticks, &options, &table),
            compiled,
        ) || call_ensures(
            PartitionedBackend::try_compile,
            (backend, graph, ticks, &options, &table),
            Some(compiled),
        ),
    ensures
        i / share(order.len() as int) < compiled.partitions@.len(),
        i % share(order.len() as int) < compiled.partitions@[i / share(
            order.len() as int,
        )].nodes.nodes@.len(),
        becomes(
            contents(graph),
            order,
            order[i],
            final(backend).noteblock_info@,
            node_at(compiled, order.len() as int, i),
        ),
{
    let g = contents(graph);
    let base = old(backend).noteblock_info@;
    lemma_compiled(backend, graph, ticks, options, table, compiled, order);
    let count = order.len() as int;
    lemma_ascends(g, order);
    lemma_share(count);
    lemma_place_in_range(count, i);
    let lists = nodes_of(compiled.partitions@);
    assert(placed_node(g, order, base, lists, i));
    lemma_located_in_partition(g, order, base, lists, i);
    assert(lists[i / share(count)] == compiled.partitions@[i / share(count)].nodes);
    assert(can_lower_in(g, order, base));
    lemma_becomes(g, order, base, i, node_at(compiled, count, i));
}

/// What a call of compile says, in the order of the graph.
pub proof fn lemma_compiled(
    backend: &mut PartitionedBackend,
    graph: CompileGraph,
    ticks: Vec<TickEntry>,
    options: CompilerOptions,
    table: BlockTable,
    compiled: Compiled,
    order: Seq<NodeIdx>,
)
    requires
        ascends(contents(graph), order),
        call_ensures(
            PartitionedBackend::compile,
            (backend, graph, ticks, &options, &table),
            compiled,
        ) || call_ensures(
            PartitionedBackend::try_compile,
            (backend, graph, ticks, &options, &table),
            Some(compiled),
        ),
    ensures
        compiles(
            contents(graph),
            order,
            old(backend).noteblock_info@,
            ticks@,
            options,
            table,
            *final(backend),
            compiled,
        ),
        final(backend).wf(),
{
    let g = contents(graph);
    let other = choose|other: Seq<NodeIdx>|
        #![trigger ascends(g, other)]
        ascends(g, other) && compiles(
            g,
            other,
            old(backend).noteblock_info@,
            ticks@,
            options,
            table,
            *final(backend),
            compiled,
        );
    lemma_ascends_unique(g, order, other);
}

/// The partitions are numbered, hold all nodes and no others, and are as many as it takes: all
/// but the last hold their share.  They start without events or ticks, and the backend knows
/// the nodes of each as they are.
pub proof fn law_partitions_hold_all_nodes(
    backend: &mut PartitionedBackend,
    graph: CompileGraph,
    ticks: Vec<TickEntry>,
    options: CompilerOptions,
    table: BlockTable,
    compiled: Compiled,
    p: int,
)
    requires
        contents(graph).nodes.len() <= u32::MAX,
        exists|order: Seq<NodeIdx>| ascends(contents(graph), order),
        call_ensures(
            PartitionedBackend::compile,
            (backend, graph, ticks, &options, &table),
            compiled,
        ),
        0 <= p < compiled.partitions@.len(),
    ensures
        compiled.partitions@.len() <= 128,
        ({
            let count = contents(graph).nodes.len() as int;
            let held = compiled.partitions@[p].nodes.nodes@.len();
            &&& p < compiled.partitions@.len() - 1 ==> held == share(count)
            &&& p == compiled.partitions@.len() - 1 ==> 0 < held <= share(count) && p * share(count)
                + held == count
        }),
        compiled.partitions@[p].index == p,
        compiled.partitions@[p].events@.len() == 0,
        forall|priority: TickPriority| #[trigger]
            compiled.partitions@[p].curr_queues.of(priority).len() == 0,
        final(backend).partitions@.len() == compiled.partitions@.len(),
        final(backend).partitions@[p].events@.len() == 0,
        final(backend).partitions@[p].nodes.same_as(compiled.partitions@[p].nodes),
        compiled.dot is Some <==> options.export_dot_graph,
{
    let g = contents(graph);
    let order = choose|order: Seq<NodeIdx>| ascends(g, order);
    lemma_compiled(backend, graph, ticks, options, table, compiled, order);
    lemma_ascends(g, order);
    let count = order.len() as int;
    lemma_share(count);
    lemma_partition_sizes(count);
    let lists = nodes_of(compiled.partitions@);
    assert(lists[p].nodes@.len() == held_by(count, p));
    let k = partitions_for(count);
    let size = share(count);
    if count == 0 {
        vstd::arithmetic::div_mod::lemma_fundamental_div_mod_converse(size - 1, size, 0, size - 1);
    }
    assert((p + 1) * size == p * size + size) by (nonlinear_arith);
    if p < k - 1 {
        assert((p + 1) * size <= (k - 1) * size) by (nonlinear_arith)
            requires
                p + 1 <= k - 1,
                size > 0,
        ;
    } else {
        assert(p * size == (k - 1) * size);
        assert(k * size == (p + 1) * size);
    }
}

/// Whether a node is a note block.
pub open spec fn is_note(g: GraphView) -> spec_fn(NodeIdx) -> bool {
    |n: NodeIdx| g.nodes[n].ty is NoteBlock
}

/// The note blocks that were known are known as before, and each of the graph is known besides.
pub proof fn law_note_blocks_become_known(
    backend: &mut PartitionedBackend,
    graph: CompileGraph,
    ticks: Vec<TickEntry>,
    options: CompilerOptions,
    table: BlockTable,
    compiled: Compiled,
    order: Seq<NodeIdx>,
    k: int,
)
    requires
        ascends(contents(graph), order),
        call_ensures(
            PartitionedBackend::compile,
            (backend, graph, ticks, &options, &table),
            compiled,
        ),
    ensures
        final(backend).noteblock_info@.len()
            == old(backend).noteblock_info@.len() + order.filter(is_note(contents(graph))).len(),
        0 <= k < old(backend).noteblock_info@.len()
            ==> final(backend).noteblock_info@[k] == old(backend).noteblock_info@[k],
{
    lemma_compiled(backend, graph, ticks, options, table, compiled, order);
    lemma_notes_grow(old(backend).noteblock_info@, contents(graph), order, order.len() as int);
    lemma_notes_count(old(backend).noteblock_info@, contents(graph), order);
}

pub proof fn lemma_notes_count(base: Seq<NoteInfo>, g: GraphView, order: Seq<NodeIdx>)
    ensures
        notes_after(base, g, order).len() == base.len() + order.filter(is_note(g)).len(),
    decreases order.len(),
{
    reveal(Seq::filter);
    if order.len() > 0 {
        lemma_notes_count(base, g, order.drop_last());
    }
}

/// A component that stands for a block is known by its position, with the block that the table
/// has under its number; the others are not.
pub proof fn law_blocks_are_kept_with_their_nodes(
    backend: &mut PartitionedBackend,
    graph: CompileGraph,
    ticks: Vec<TickEntry>,
    options: CompilerOptions,
    table: BlockTable,
    compiled: Compiled,
    order: Seq<NodeIdx>,
    i: int,
)
    requires
        contents(graph).nodes.len() <= u32::MAX,
        ascends(contents(graph), order),
        0 <= i < order.len(),
        call_ensures(
            PartitionedBackend::compile,
            (backend, graph, ticks, &options, &table),
            compiled,
        ),
    ensures
        ({
            let size = share(order.len() as int);
            let key = spot(i / size, i % size);
            let component = contents(graph).nodes[order[i]];
            let blocks = final(backend).blocks@;
            &&& blocks.contains_key(key) <==> component.block is Some
            &&& component.block is Some ==> {
                let (pos, id) = component.block->0;
                &&& blocks[key].0 == pos
                &&& blocks[key].1.id == id
                &&& id < table.blocks@.len() ==> blocks[key].1.powered
                    == table.blocks@[id as int].powered && blocks[key].1.power
                    == table.blocks@[id as int].power && blocks[key].1.locked
                    == table.blocks@[id as int].locked
                &&& id >= table.blocks@.len() ==> blocks[key].1.powered is None
                    && blocks[key].1.power is None && blocks[key].1.locked is None
                &&& final(backend).pos_map@.contains_key((pos.x, pos.y, pos.z))
            }
        }),
        forall|key: (u16, u32)| #[trigger]
            final(backend).blocks@.contains_key(key) ==> exists|j: int|
                0 <= j < order.len() && key == #[trigger] spot(
                    j / share(order.len() as int),
                    j % share(order.len() as int),
                ),
        forall|at: (i32, i32, i32)| #[trigger]
            final(backend).pos_map@.contains_key(at) ==> {
                let location = final(backend).pos_map@[at];
                let key = (location.partition, location.index.id);
                &&& final(backend).blocks@.contains_key(key)
                &&& (
                    final(backend).blocks@[key].0.x,
                    final(backend).blocks@[key].0.y,
                    final(backend).blocks@[key].0.z,
                ) == at
            },
{
    lemma_compiled(backend, graph, ticks, options, table, compiled, order);
    let count = order.len() as int;
    lemma_ascends(contents(graph), order);
    lemma_share(count);
    lemma_place_in_range(count, i);
    assert(files_blocks(contents(graph), order, table, final(backend).blocks@));
    let key = spot(i / share(count), i % share(count));
    assert(place_of(count, i).parts() == key);
    assert(contents(graph).nodes[order[i]].block is Some
        ==> final(backend).blocks@.contains_key(key));
    assert forall|key: (u16, u32)| #[trigger]
        final(backend).blocks@.contains_key(key) implies exists|j: int|
        0 <= j < order.len() && key == #[trigger] spot(j / share(count), j % share(count)) by {
        assert(holds_place(order, key));
        let j = choose|j: int|
            0 <= j < order.len() && (#[trigger] place_of(count, j)).parts() == key;
        assert(key == spot(j / share(count), j % share(count)));
    }
    assert forall|at: (i32, i32, i32)| #[trigger]
        final(backend).pos_map@.contains_key(at) implies ({
        let location = final(backend).pos_map@[at];
        let key = (location.partition, location.index.id);
        &&& final(backend).blocks@.contains_key(key)
        &&& (
            final(backend).blocks@[key].0.x,
            final(backend).blocks@[key].0.y,
            final(backend).blocks@[key].0.z,
        ) == at
    }) by {
        assert(final(backend).blocks@.contains_key(final(backend).pos_map@[at].parts()));
    }
}

/// Whether a message schedules a tick for the node that stands for its block.
pub open spec fn schedules(
    sent: Sent,
    tick: TickEntry,
    backend: PartitionedBackend,
) -> bool {
    let location = backend.pos_map@[(tick.pos.x, tick.pos.y, tick.pos.z)];
    &&& sent.partition == location.partition
    &&& sent.message is ScheduleTick
    &&& sent.message->ScheduleTick_node_id == location.index
    &&& sent.message->ScheduleTick_delay == tick.ticks_left
    &&& sent.message->ScheduleTick_priority == tick.tick_priority
}

/// Whether the tick at `k` is of a block that a node stands for.
pub open spec fn concerned(backend: PartitionedBackend, ticks: Seq<TickEntry>) -> spec_fn(
    int,
) -> bool {
    |k: int| backend.pos_map@.contains_key((ticks[k].pos.x, ticks[k].pos.y, ticks[k].pos.z))
}

/// Every pending tick of a block that a node stands for is scheduled for that node, in the
/// order of the ticks, and no other.
pub proof fn law_pending_ticks_are_scheduled(
    backend: &mut PartitionedBackend,
    graph: CompileGraph,
    ticks: Vec<TickEntry>,
    options: CompilerOptions,
    table: BlockTable,
    compiled: Compiled,
)
    requires
        exists|order: Seq<NodeIdx>| ascends(contents(graph), order),
        call_ensures(
            PartitionedBackend::compile,
            (backend, graph, ticks, &options, &table),
            compiled,
        ),
    ensures
        exists|which: Seq<int>| #[trigger]
            lists(
                which,
                ticks@.len() as int,
                concerned(*final(backend), ticks@),
            ) && compiled.messages@.len() == which.len() && forall|j: int|
                0 <= j < which.len() ==> schedules(
                    compiled.messages@[j],
                    ticks@[#[trigger] which[j]],
                    *final(backend),
                ),
{
    let order = choose|order: Seq<NodeIdx>| ascends(contents(graph), order);
    lemma_compiled(backend, graph, ticks, options, table, compiled, order);
    let which = lemma_scheduled(*final(backend), ticks@, ticks@.len() as int);
    assert(ticks@.take(ticks@.len() as int) =~= ticks@);
    assert(lists(
        which,
        ticks@.len() as int,
        concerned(*final(backend), ticks@),
    ));
}

/// Which of the first `n` ticks are scheduled.
proof fn lemma_scheduled(backend: PartitionedBackend, ticks: Seq<TickEntry>, n: int) -> (which: Seq<
    int,
>)
    requires
        0 <= n <= ticks.len(),
    ensures
        lists(
            which,
            n,
            concerned(backend, ticks),
        ),
        scheduled(backend.pos_map@, ticks.take(n)).len() == which.len(),
        forall|j: int|
            0 <= j < which.len() ==> schedules(
                scheduled(backend.pos_map@, ticks.take(n))[j],
                ticks[#[trigger] which[j]],
                backend,
            ),
    decreases n,
{
    let p = concerned(backend, ticks);
    if n == 0 {
        Seq::empty()
    } else {
        let earlier = lemma_scheduled(backend, ticks, n - 1);
        assert(ticks.take(n).drop_last() =~= ticks.take(n - 1));
        assert(ticks.take(n).last() == ticks[n - 1]);
        assert(lists(earlier, n - 1, p));
        crate::backend::direct::partitioned::world_laws::lemma_list_one(earlier, n - 1, p);
        if p(n - 1) {
            earlier.push(n - 1)
        } else {
            earlier
        }
    }
}

/// Of a compiled circuit, a flush that shows only inputs and outputs sets the block of a
/// component that has changed if and only if the component was marked as an input or as an
/// output, given that no other component stands for that block.
pub proof fn law_inputs_and_outputs_are_shown(
    backend: &mut PartitionedBackend,
    graph: CompileGraph,
    ticks: Vec<TickEntry>,
    options: CompilerOptions,
    table: BlockTable,
    compiled: Compiled,
    order: Seq<NodeIdx>,
    i: int,
    later: &mut PartitionedBackend,
    effects: Vec<WorldEffect>,
)
    requires
        contents(graph).wf(),
        contents(graph).nodes.len() <= u32::MAX,
        ascends(contents(graph), order),
        0 <= i < order.len(),
        can_lower(contents(graph), old(backend).noteblock_info@),
        call_ensures(
            PartitionedBackend::compile,
            (backend, graph, ticks, &options, &table),
            compiled,
        ),
        contents(graph).nodes[order[i]].block is Some,
        forall|j: int|
            0 <= j < order.len() && j != i
                && contents(graph).nodes[#[trigger] order[j]].block is Some
                ==> (contents(graph).nodes[order[j]].block->0).0 != (contents(
                graph,
            ).nodes[order[i]].block->0).0,
        // the circuit has run since: its nodes and blocks are where they were
        old(later).wf(),
        old(later).partitions@.len() == final(backend).partitions@.len(),
        forall|p: int|
            0 <= p < old(later).partitions@.len() ==> (
            #[trigger] old(later).partitions@[p]).nodes.nodes@.len()
                == final(backend).partitions@[p].nodes.nodes@.len(),
        forall|key: (u16, u32)| #[trigger]
            old(later).blocks@.contains_key(key) <==> final(backend).blocks@.contains_key(key),
        forall|key: (u16, u32)| #[trigger]
            old(later).blocks@.contains_key(key)
                ==> old(later).blocks@[key].0 == final(backend).blocks@[key].0,
        ({
            let size = share(order.len() as int);
            let node = old(later).partitions@[i / size].nodes.nodes@[i % size];
            node.changed && node.is_io == final(backend).partitions@[i / size].nodes.nodes@[i
                % size].is_io
        }),
        call_ensures(PartitionedBackend::flush, (later, true), effects),
    ensures
        contents(graph).nodes[order[i]].is_input || contents(graph).nodes[order[i]].is_output
            <==> exists|k: int|
            0 <= k < effects@.len() && (#[trigger] effects@[k]) is SetBlock
                && effects@[k]->SetBlock_pos == (contents(graph).nodes[order[i]].block->0).0,
{
    let g = contents(graph);
    let count = order.len() as int;
    let size = share(count);
    let p = i / size;
    let m = i % size;
    law_components_become_nodes(backend, graph, ticks, options, table, compiled, order, i);
    law_blocks_are_kept_with_their_nodes(
        backend,
        graph,
        ticks,
        options,
        table,
        compiled,
        order,
        i,
    );
    lemma_compiled(backend, graph, ticks, options, table, compiled, order);
    lemma_ascends(g, order);
    lemma_share(count);
    lemma_place_in_range(count, i);
    assert(final(backend).partitions@[p].nodes.same_as(compiled.partitions@[p].nodes));
    assert(final(backend).partitions@[p].nodes.nodes@[m].same_as(
        compiled.partitions@[p].nodes.nodes@[m],
    ));
    assert(old(later).blocks@.contains_key(spot(p, m)));
    assert forall|key: (u16, u32)| #[trigger]
        old(later).blocks@.contains_key(key)
            && old(later).blocks@[key].0 == old(later).blocks@[spot(p, m)].0
                implies key == spot(p, m) by {
        assert(final(backend).blocks@.contains_key(key));
        assert(holds_place(order, key));
        let j = choose|j: int|
            0 <= j < order.len() && (#[trigger] place_of(count, j)).parts() == key;
        assert(files_blocks(g, order, table, final(backend).blocks@));
        assert(g.nodes[order[j]].block is Some);
        assert(final(backend).blocks@[key].0 == (g.nodes[order[j]].block->0).0);
        assert(j == i);
    }
    assert(old(later).partitions@[p].nodes.nodes@.len()
        == final(backend).partitions@[p].nodes.nodes@.len());
    law_block_is_set_if_its_node_is_due(later, true, effects, p, m);
}

} // verus!
