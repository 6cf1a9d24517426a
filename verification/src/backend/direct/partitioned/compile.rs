//! Lowers a graph to partitions of nodes.

use rustc_hash::FxHashMap;
use vstd::prelude::*;

use crate::backend::direct::node::{Node, NodeId, NodeInput, NodeType, Nodes, NonMaxU8, Updates};
use crate::backend::direct::partitioned::backend::{
    Blocks, PartitionedBackend, MAX_PARTITIONS, MIN_PARTITION_SIZE,
};
use crate::backend::direct::partitioned::dot::dot_graph;
use crate::backend::direct::partitioned::partition::{reachable, NodeLocation, PartitionForwardLink};
use crate::backend::direct::partitioned::{Partition, PartitionInterface, PartitionMessage, Sent};
use crate::backend::inputs::{
    are_inputs_in_range, arriving_strength, count_typed, input_count, inputs_in_range,
    lemma_one_more_input, lemma_some_inputs, tally, typed,
};
use crate::backend::links::{
    arrange, arranges, knows_targets, law_arranging_keeps_links, lemma_knows_targets, Lead,
};
use crate::compile_graph::{CompileGraph, CompileNode, LinkType, NodeIdx, NodeType as CNodeType};
use crate::graph::{
    ascends, contents, edges_directed, lemma_ascends, lemma_ascends_unique, node, node_count,
    node_indices, Direction, Edge, GraphView,
};
use crate::maps;
use crate::options::CompilerOptions;
use crate::world::{Block, BlockPos, BlockTable, Instrument, TickEntry, TickPriority};

verus! {

/// No node has more inputs of one type.
pub const MAX_INPUTS: usize = 255;

/// How many links have been lowered.
#[derive(Debug, Copy, Clone, PartialEq, Eq, Structural)]
pub struct FinalGraphStats {
    pub update_link_count: u64,
    pub side_link_count: u64,
    pub default_link_count: u64,
}

/// Whether the backend can run a component of this type.
pub open spec fn supported(node: CompileNode) -> bool {
    match node.ty {
        CNodeType::Torch { invert } => invert,
        CNodeType::Comparator { far_input, .. } => far_input != Some(255u8),
        CNodeType::NoteBlock { .. } => node.block is Some,
        CNodeType::Chain { .. } => false,
        _ => true,
    }
}

/// The kind of node that a component becomes, if `notes` note blocks came before it.
pub open spec fn lowers_type(ty: CNodeType, notes: nat, lowered: NodeType) -> bool {
    match ty {
        CNodeType::Repeater { delay, facing_diode } => lowered == (NodeType::Repeater {
            delay,
            facing_diode,
        }),
        CNodeType::Torch { .. } => lowered == NodeType::Torch,
        CNodeType::Comparator { mode, far_input, facing_diode } => match lowered {
            NodeType::Comparator { mode: m, far_input: f, facing_diode: d } => {
                &&& m == mode
                &&& d == facing_diode
                &&& match far_input {
                    Some(ss) => f is Some && (f->0).byte() == ss,
                    None => f is None,
                }
            },
            _ => false,
        },
        CNodeType::Lamp => lowered == NodeType::Lamp,
        CNodeType::Button => lowered == NodeType::Button,
        CNodeType::Lever => lowered == NodeType::Lever,
        CNodeType::PressurePlate => lowered == NodeType::PressurePlate,
        CNodeType::Trapdoor => lowered == NodeType::Trapdoor,
        CNodeType::Wire => lowered == NodeType::Wire,
        CNodeType::Constant => lowered == NodeType::Constant,
        CNodeType::NoteBlock { .. } => lowered == (NodeType::NoteBlock {
            noteblock_id: notes as u16,
        }),
        CNodeType::Chain { .. } => false,
    }
}

/// What is to be known about a note block to play its note.
pub type NoteInfo = (BlockPos, Instrument, u32);

/// `notes` with what is to be known about a component, if it is a note block.
pub open spec fn with_note(notes: Seq<NoteInfo>, node: CompileNode) -> Seq<NoteInfo> {
    match node.ty {
        CNodeType::NoteBlock { instrument, note } => notes.push(
            ((node.block->0).0, instrument, note),
        ),
        _ => notes,
    }
}

/// The links of `n`, with the places of their targets.
pub open spec fn leads_of(
    g: GraphView,
    n: NodeIdx,
    places: Map<NodeIdx, NodeLocation>,
) -> Seq<Lead> {
    g.edges_of(n, Direction::Outgoing).map_values(
        |edge: Edge|
            Lead {
                rank: places[edge.target].order() as u64,
                kind: g.nodes[edge.target].ty.kind(),
                edge,
            },
    )
}

/// The word of a link.
pub open spec fn lowered_link(places: Map<NodeIdx, NodeLocation>) -> spec_fn(Lead) -> u32 {
    |lead: Lead|
        PartitionForwardLink::packed(
            places[lead.edge.target],
            lead.edge.link.ty == LinkType::Side,
            lead.edge.link.ss,
        ) as u32
}

/// Whether `words` are the words of the links of `n`: one for each, kind by kind, in the
/// order of their targets within each kind.  A constant has none.
pub open spec fn lowers_links(
    g: GraphView,
    n: NodeIdx,
    places: Map<NodeIdx, NodeLocation>,
    words: Seq<u32>,
) -> bool {
    if g.nodes[n].ty == CNodeType::Constant {
        words.len() == 0
    } else {
        exists|leads: Seq<Lead>| #[trigger]
            arranges(leads_of(g, n, places), leads) && words == leads.map_values(
                lowered_link(places),
            )
    }
}

/// Whether `counts` are the inputs of `n` of one type by their strength.
pub open spec fn counts_inputs(g: GraphView, n: NodeIdx, ty: LinkType, counts: Seq<u8>) -> bool {
    counts.len() == 16 && forall|ss: int|
        0 <= ss < 16 ==> #[trigger] counts[ss] == input_count(g, n, ty, ss)
}

/// Whether `lowered` is what the component `n` becomes, if `notes` note blocks came
/// before it.
pub open spec fn lowers_node(
    g: GraphView,
    n: NodeIdx,
    places: Map<NodeIdx, NodeLocation>,
    notes: nat,
    lowered: Node,
) -> bool {
    let node = g.nodes[n];
    &&& lowers_type(node.ty, notes, lowered.ty)
    &&& counts_inputs(g, n, LinkType::Default, lowered.default_inputs.ss_counts@)
    &&& counts_inputs(g, n, LinkType::Side, lowered.side_inputs.ss_counts@)
    &&& lowers_links(g, n, places, lowered.updates@)
    &&& lowered.powered == node.state.powered
    &&& lowered.output_power == node.state.output_strength
    &&& lowered.locked == node.state.repeater_locked
    &&& !lowered.pending_tick
    &&& !lowered.changed
    &&& lowered.is_io == (node.is_input || node.is_output)
}

/// Whether `n` has no more inputs of a type than can be counted.
pub open spec fn inputs_fit(g: GraphView, n: NodeIdx) -> bool {
    let list = g.edges_of(n, Direction::Incoming);
    typed(list, LinkType::Default) <= MAX_INPUTS && typed(list, LinkType::Side) <= MAX_INPUTS
}

/// Whether the links of `n` can be put into words.
pub open spec fn links_fit(g: GraphView, n: NodeIdx, places: Map<NodeIdx, NodeLocation>) -> bool {
    let list = g.edges_of(n, Direction::Outgoing);
    forall|i: int|
        0 <= i < list.len() ==> (#[trigger] list[i]).link.ss < 15 && reachable(
            places[list[i].target],
        )
}

/// Whether the backend can run the component `n`.
pub open spec fn can_lower_node(
    g: GraphView,
    n: NodeIdx,
    places: Map<NodeIdx, NodeLocation>,
) -> bool {
    &&& supported(g.nodes[n])
    &&& inputs_in_range(g, n)
    &&& inputs_fit(g, n)
    &&& g.nodes[n].ty == CNodeType::Constant || links_fit(g, n, places)
}

/// How many links a node has.
pub open spec fn link_count(g: GraphView, n: NodeIdx) -> nat {
    if g.nodes[n].ty == CNodeType::Constant {
        0
    } else {
        g.edges_of(n, Direction::Outgoing).len()
    }
}

/// `stats` with the links of `n`.
pub open spec fn with_stats(stats: FinalGraphStats, g: GraphView, n: NodeIdx) -> FinalGraphStats {
    let list = g.edges_of(n, Direction::Incoming);
    FinalGraphStats {
        update_link_count: (stats.update_link_count + link_count(g, n)) as u64,
        side_link_count: (stats.side_link_count + typed(list, LinkType::Side)) as u64,
        default_link_count: (stats.default_link_count + typed(list, LinkType::Default)) as u64,
    }
}

/// Counts the inputs of a node by type and strength.  How many there are of each type
/// comes back, too.
fn count_inputs(graph: &CompileGraph, node_idx: NodeIdx) -> (counted: (
    NodeInput,
    NodeInput,
    usize,
    usize,
))
    requires
        contents(*graph).nodes.contains_key(node_idx),
        inputs_in_range(contents(*graph), node_idx),
        inputs_fit(contents(*graph), node_idx),
    ensures
        counts_inputs(contents(*graph), node_idx, LinkType::Default, counted.0.ss_counts@),
        counts_inputs(contents(*graph), node_idx, LinkType::Side, counted.1.ss_counts@),
        counted.2 == typed(
            contents(*graph).edges_of(node_idx, Direction::Incoming),
            LinkType::Default,
        ),
        counted.3 == typed(
            contents(*graph).edges_of(node_idx, Direction::Incoming),
            LinkType::Side,
        ),
{
    let ghost g = contents(*graph);
    let ghost list = g.edges_of(node_idx, Direction::Incoming);
    let mut default_input_count: usize = 0;
    let mut side_input_count: usize = 0;
    let mut default_inputs: [u8; 16] = [0; 16];
    let mut side_inputs: [u8; 16] = [0; 16];
    let edges = edges_directed(graph, node_idx, Direction::Incoming);
    proof {
        lemma_some_inputs(g, list, 0);
        assert(list.take(0) =~= Seq::empty());
        reveal(Seq::filter);
    }
    let mut i: usize = 0;
    while i < edges.len()
        invariant
            i <= edges@.len(),
            g == contents(*graph),
            edges@ == list,
            list == g.edges_of(node_idx, Direction::Incoming),
            g.lists_edges(node_idx, Direction::Incoming, list),
            inputs_in_range(g, node_idx),
            inputs_fit(g, node_idx),
            default_input_count == typed(list.take(i as int), LinkType::Default),
            side_input_count == typed(list.take(i as int), LinkType::Side),
            forall|ss: int|
                0 <= ss < 16 ==> #[trigger] default_inputs@[ss] == tally(
                    g,
                    list.take(i as int),
                    LinkType::Default,
                    ss,
                ),
            forall|ss: int|
                0 <= ss < 16 ==> #[trigger] side_inputs@[ss] == tally(
                    g,
                    list.take(i as int),
                    LinkType::Side,
                    ss,
                ),
        decreases edges@.len() - i,
    {
        let edge = edges[i];
        let ss: u8 = arriving_strength(graph, &edge);
        proof {
            lemma_one_more_input(g, list, i as int);
            lemma_some_inputs(g, list, i + 1);
            assert(list[i as int] == edge);
            assert(tally(g, list.take(i + 1), edge.link.ty, ss as int) <= typed(
                list.take(i + 1),
                edge.link.ty,
            ));
            assert(typed(list.take(i + 1), edge.link.ty) <= typed(list, edge.link.ty));
        }
        match edge.link.ty {
            LinkType::Default => {
                default_input_count += 1;
                default_inputs[ss as usize] = default_inputs[ss as usize] + 1;
            },
            LinkType::Side => {
                side_input_count += 1;
                side_inputs[ss as usize] = side_inputs[ss as usize] + 1;
            },
        }
        i += 1;
    }
    assert(list.take(i as int) =~= list);
    (
        NodeInput { ss_counts: default_inputs },
        NodeInput { ss_counts: side_inputs },
        default_input_count,
        side_input_count,
    )
}

/// The target of a link that has been put in order is one of a link of `n`.
proof fn lemma_lead_edge(
    g: GraphView,
    n: NodeIdx,
    places: Map<NodeIdx, NodeLocation>,
    ordered: Seq<Lead>,
    i: int,
)
    requires
        0 <= i < ordered.len(),
        ordered.to_multiset() == leads_of(g, n, places).to_multiset(),
    ensures
        g.edges_of(n, Direction::Outgoing).contains(ordered[i].edge),
{
    broadcast use vstd::seq_lib::group_to_multiset_ensures;

    let wanted = leads_of(g, n, places);
    assert(ordered.contains(ordered[i]));
    assert(ordered.to_multiset().count(ordered[i]) > 0);
    assert(wanted.contains(ordered[i]));
    let j = wanted.index_of(ordered[i]);
    assert(wanted[j].edge == g.edges_of(n, Direction::Outgoing)[j]);
}

/// The words of the links of a node.
fn lower_links(
    graph: &CompileGraph,
    node_idx: NodeIdx,
    nodes_map: &FxHashMap<NodeIdx, NodeLocation>,
) -> (words: Vec<u32>)
    requires
        contents(*graph).nodes.contains_key(node_idx),
        contents(*graph).nodes[node_idx].ty != CNodeType::Constant,
        links_fit(contents(*graph), node_idx, nodes_map@),
        knows_targets(contents(*graph), node_idx, nodes_map@),
    ensures
        lowers_links(contents(*graph), node_idx, nodes_map@, words@),
        words@.len() == contents(*graph).edges_of(node_idx, Direction::Outgoing).len(),
        words@.len() <= u32::MAX,
{
    let ghost g = contents(*graph);
    let ghost places = nodes_map@;
    let ghost wanted = leads_of(g, node_idx, places);
    let edges = edges_directed(graph, node_idx, Direction::Outgoing);
    let mut leads: Vec<Lead> = Vec::new();
    let mut i: usize = 0;
    while i < edges.len()
        invariant
            i <= edges@.len(),
            g == contents(*graph),
            places == nodes_map@,
            edges@ == g.edges_of(node_idx, Direction::Outgoing),
            g.lists_edges(node_idx, Direction::Outgoing, edges@),
            wanted == leads_of(g, node_idx, places),
            knows_targets(g, node_idx, places),
            leads@ == wanted.take(i as int),
        decreases edges@.len() - i,
    {
        let edge = edges[i];
        assert(edge == edges@[i as int]);
        // Sorting by node location allows for optimization when executing
        let rank: u64 = match maps::get(nodes_map, edge.target) {
            Some(location) => location.rank(),
            None => 0,
        };
        let kind: u32 = node(graph, edge.target).ty.kind_number();
        leads.push(Lead { rank, kind, edge });
        assert(leads@ =~= wanted.take(i + 1));
        i += 1;
    }
    assert(wanted.take(i as int) =~= wanted);
    let ordered = arrange(leads);
    proof {
        law_arranging_keeps_links(wanted, ordered@);
    }
    let mut words: Vec<u32> = Vec::new();
    let mut i: usize = 0;
    while i < ordered.len()
        invariant
            i <= ordered@.len(),
            g == contents(*graph),
            places == nodes_map@,
            g.lists_edges(node_idx, Direction::Outgoing, g.edges_of(node_idx, Direction::Outgoing)),
            links_fit(g, node_idx, places),
            wanted == leads_of(g, node_idx, places),
            ordered@.to_multiset() == wanted.to_multiset(),
            knows_targets(g, node_idx, places),
            words@ == ordered@.take(i as int).map_values(lowered_link(places)),
        decreases ordered@.len() - i,
    {
        let lead = ordered[i];
        proof {
            lemma_lead_edge(g, node_idx, places, ordered@, i as int);
            let list = g.edges_of(node_idx, Direction::Outgoing);
            let j = list.index_of(lead.edge);
            assert(list[j] == lead.edge);
        }
        if let Some(location) = maps::get(nodes_map, lead.edge.target) {
            let link = PartitionForwardLink::new(
                *location,
                lead.edge.link.ty == LinkType::Side,
                lead.edge.link.ss,
            );
            words.push(link.data().inner());
        }
        assert(words@ =~= ordered@.take(i + 1).map_values(lowered_link(places)));
        i += 1;
    }
    assert(ordered@.take(i as int) =~= ordered@);
    words
}

/// The kind of node that a component becomes.  A note block is added to `noteblock_info`.
fn lower_type(weight: &CompileNode, noteblock_info: &mut Vec<NoteInfo>) -> (ty: NodeType)
    requires
        supported(*weight),
        weight.ty is NoteBlock ==> old(noteblock_info)@.len() <= u16::MAX,
    ensures
        lowers_type(weight.ty, old(noteblock_info)@.len(), ty),
        final(noteblock_info)@ == with_note(old(noteblock_info)@, *weight),
{
    match weight.ty {
        CNodeType::Repeater { delay, facing_diode } => NodeType::Repeater { delay, facing_diode },
        CNodeType::Torch { .. } => NodeType::Torch,
        CNodeType::Comparator { mode, far_input, facing_diode } => NodeType::Comparator {
            mode,
            far_input: match far_input {
                Some(value) => NonMaxU8::new(value),
                None => None,
            },
            facing_diode,
        },
        CNodeType::Lamp => NodeType::Lamp,
        CNodeType::Button => NodeType::Button,
        CNodeType::Lever => NodeType::Lever,
        CNodeType::PressurePlate => NodeType::PressurePlate,
        CNodeType::Trapdoor => NodeType::Trapdoor,
        CNodeType::Wire => NodeType::Wire,
        CNodeType::Constant => NodeType::Constant,
        CNodeType::NoteBlock { instrument, note } => {
            let noteblock_id: u16 = noteblock_info.len() as u16;
            if let Some((pos, _)) = weight.block {
                noteblock_info.push((pos, instrument, note));
            }
            NodeType::NoteBlock { noteblock_id }
        },
        CNodeType::Chain { .. } => NodeType::Wire,
    }
}

/// Lowers one component.
pub fn compile_node(
    graph: &CompileGraph,
    node_idx: NodeIdx,
    nodes_map: &FxHashMap<NodeIdx, NodeLocation>,
    noteblock_info: &mut Vec<NoteInfo>,
    stats: &mut FinalGraphStats,
) -> (lowered: Node)
    requires
        contents(*graph).nodes.contains_key(node_idx),
        can_lower_node(contents(*graph), node_idx, nodes_map@),
        contents(*graph).nodes[node_idx].ty is NoteBlock ==> old(noteblock_info)@.len()
            <= u16::MAX,
        contents(*graph).nodes[node_idx].ty == CNodeType::Constant || knows_targets(
            contents(*graph),
            node_idx,
            nodes_map@,
        ),
        old(stats).update_link_count + u32::MAX <= u64::MAX,
        old(stats).side_link_count + MAX_INPUTS <= u64::MAX,
        old(stats).default_link_count + MAX_INPUTS <= u64::MAX,
    ensures
        lowers_node(
            contents(*graph),
            node_idx,
            nodes_map@,
            old(noteblock_info)@.len(),
            lowered,
        ),
        final(noteblock_info)@ == with_note(
            old(noteblock_info)@,
            contents(*graph).nodes[node_idx],
        ),
        *final(stats) == with_stats(*old(stats), contents(*graph), node_idx),
        final(stats).update_link_count <= old(stats).update_link_count + u32::MAX,
        final(stats).side_link_count <= old(stats).side_link_count + MAX_INPUTS,
        final(stats).default_link_count <= old(stats).default_link_count + MAX_INPUTS,
{
    let weight = node(graph, node_idx);
    let (default_inputs, side_inputs, default_input_count, side_input_count) = count_inputs(
        graph,
        node_idx,
    );
    stats.default_link_count = stats.default_link_count + default_input_count as u64;
    stats.side_link_count = stats.side_link_count + side_input_count as u64;

    let updates = if weight.ty != CNodeType::Constant {
        Updates::collect(lower_links(graph, node_idx, nodes_map))
    } else {
        Updates::new()
    };
    stats.update_link_count = stats.update_link_count + updates.len() as u64;

    let ty = lower_type(weight, noteblock_info);

    Node {
        ty,
        default_inputs,
        side_inputs,
        updates,
        powered: weight.state.powered,
        output_power: weight.state.output_strength,
        locked: weight.state.repeater_locked,
        pending_tick: false,
        changed: false,
        is_io: weight.is_input || weight.is_output,
    }
}

/// How many parts of `size` it takes to hold `count`.
pub open spec fn parts_of(count: int, size: int) -> int {
    (count + size - 1) / size
}

/// How many nodes a partition holds, if there are `count` in all.
pub open spec fn size_for(count: int) -> int {
    let even = parts_of(count, MAX_PARTITIONS as int);
    if even > MIN_PARTITION_SIZE {
        even
    } else {
        MIN_PARTITION_SIZE as int
    }
}

/// How many partitions there are, if there are `count` nodes in all.
pub open spec fn partitions_for(count: int) -> int {
    parts_of(count, size_for(count))
}

/// Where the node at `i` of `count` is.
pub open spec fn place_of(count: int, i: int) -> NodeLocation {
    NodeLocation::at(i / size_for(count), i % size_for(count))
}

/// Where the nodes of `order` are.
pub open spec fn places_in(order: Seq<NodeIdx>) -> Map<NodeIdx, NodeLocation> {
    Map::new(
        |n: NodeIdx| order.contains(n),
        |n: NodeIdx| place_of(order.len() as int, order.index_of(n)),
    )
}

/// There are no more partitions than there may be, and they hold all nodes.
pub proof fn lemma_partition_sizes(count: int)
    requires
        0 <= count,
    ensures
        size_for(count) >= MIN_PARTITION_SIZE,
        0 <= partitions_for(count) <= MAX_PARTITIONS,
        count <= partitions_for(count) * size_for(count),
        count > 0 ==> (partitions_for(count) - 1) * size_for(count) < count,
{
    let size = size_for(count);
    let even = parts_of(count, MAX_PARTITIONS as int);
    assert(count <= even * MAX_PARTITIONS);
    assert(count <= size * MAX_PARTITIONS);
    let k = partitions_for(count);
    vstd::arithmetic::div_mod::lemma_fundamental_div_mod(count + size - 1, size);
    vstd::arithmetic::div_mod::lemma_mod_bound(count + size - 1, size);
    let r = (count + size - 1) % size;
    assert(count + size - 1 == size * k + r);
    assert(k * size == size * k) by (nonlinear_arith);
    assert((k - 1) * size == size * k - size) by (nonlinear_arith);
    assert(k <= MAX_PARTITIONS) by (nonlinear_arith)
        requires
            size * k <= count + size - 1,
            count <= size * MAX_PARTITIONS,
            size > 0,
    ;
    assert(k >= 0) by (nonlinear_arith)
        requires
            count + size - 1 == size * k + r,
            r < size,
            count >= 0,
            size > 0,
    ;
}

/// The node at `j` in partition `q` is at `q * size + j` of all.
pub proof fn lemma_place(size: int, q: int, j: int)
    requires
        size > 0,
        0 <= j < size,
        0 <= q,
    ensures
        (q * size + j) / size == q,
        (q * size + j) % size == j,
{
    vstd::arithmetic::div_mod::lemma_fundamental_div_mod_converse(q * size + j, size, q, j);
}

/// Every node has a place of its own, in one of the partitions.
pub proof fn law_places_are_distinct(count: int, i: int, k: int)
    requires
        0 <= i < count <= u32::MAX,
        0 <= k < count,
    ensures
        place_of(count, i) == place_of(count, k) <==> i == k,
        place_of(count, i).partition < partitions_for(count),
        place_of(count, i).partition < MAX_PARTITIONS,
        i < k ==> place_of(count, i).order() < place_of(count, k).order(),
{
    lemma_partition_sizes(count);
    lemma_place_in_range(count, i);
    lemma_place_in_range(count, k);
    let size = size_for(count);
    if i < k {
        vstd::arithmetic::div_mod::lemma_div_is_ordered(i, k, size);
    } else if k < i {
        vstd::arithmetic::div_mod::lemma_div_is_ordered(k, i, size);
    }
}

/// The numbers of a place fit their types.
pub proof fn lemma_place_in_range(count: int, i: int)
    requires
        0 <= i < count <= u32::MAX,
    ensures
        0 <= i / size_for(count) < partitions_for(count),
        0 <= i % size_for(count) < size_for(count),
        i % size_for(count) <= i,
        i == i / size_for(count) * size_for(count) + i % size_for(count),
{
    lemma_partition_sizes(count);
    let size = size_for(count);
    let q = i / size;
    vstd::arithmetic::div_mod::lemma_fundamental_div_mod(i, size);
    vstd::arithmetic::div_mod::lemma_mod_bound(i, size);
    vstd::arithmetic::div_mod::lemma_div_pos_is_pos(i, size);
    assert(q * size == size * q) by (nonlinear_arith);
    assert(q < partitions_for(count)) by (nonlinear_arith)
        requires
            q * size <= i,
            i < partitions_for(count) * size,
            size > 0,
    ;
    assert(q * size >= 0) by (nonlinear_arith)
        requires
            q >= 0,
            size > 0,
    ;
}

/// What is known about note blocks once those of `order` have come to `base`.
pub open spec fn notes_after(base: Seq<NoteInfo>, g: GraphView, order: Seq<NodeIdx>) -> Seq<
    NoteInfo,
>
    decreases order.len(),
{
    if order.len() == 0 {
        base
    } else {
        with_note(notes_after(base, g, order.drop_last()), g.nodes[order.last()])
    }
}

/// The links of the nodes of `order`.
pub open spec fn stats_of(g: GraphView, order: Seq<NodeIdx>) -> FinalGraphStats
    decreases order.len(),
{
    if order.len() == 0 {
        FinalGraphStats { update_link_count: 0, side_link_count: 0, default_link_count: 0 }
    } else {
        with_stats(stats_of(g, order.drop_last()), g, order.last())
    }
}

/// Whether `blocks` are those that the nodes of `order` stand for.
pub open spec fn files_blocks(
    g: GraphView,
    order: Seq<NodeIdx>,
    table: BlockTable,
    blocks: Blocks,
) -> bool {
    &&& forall|i: int|
        0 <= i < order.len() ==> match g.nodes[#[trigger] order[i]].block {
            Some((pos, id)) => blocks.contains_pair(
                place_of(order.len() as int, i).parts(),
                (pos, Block::listed(table, id)),
            ),
            None => !blocks.contains_key(place_of(order.len() as int, i).parts()),
        }
    &&& forall|key: (u16, u32)| #[trigger] blocks.contains_key(key) ==> holds_place(order, key)
}

/// Whether a node of `order` is at a place.
pub open spec fn holds_place(order: Seq<NodeIdx>, key: (u16, u32)) -> bool {
    exists|i: int|
        0 <= i < order.len() && (#[trigger] place_of(order.len() as int, i)).parts() == key
}

/// Whether `map` leads from each position at which a block stands to a node that stands
/// for a block there.
pub open spec fn locates(blocks: Blocks, map: Map<(i32, i32, i32), NodeLocation>) -> bool {
    &&& forall|key: (i32, i32, i32)| #[trigger]
        map.contains_key(key) ==> blocks.contains_key(map[key].parts())
            && blocks[map[key].parts()].0.coordinates() == key
    &&& forall|key: (u16, u32)| #[trigger]
        blocks.contains_key(key) ==> map.contains_key(blocks[key].0.coordinates())
}

/// The messages by which the pending ticks of blocks that nodes stand for are scheduled.
pub open spec fn scheduled(
    map: Map<(i32, i32, i32), NodeLocation>,
    ticks: Seq<TickEntry>,
) -> Seq<Sent>
    decreases ticks.len(),
{
    if ticks.len() == 0 {
        Seq::empty()
    } else {
        let earlier = scheduled(map, ticks.drop_last());
        let tick = ticks.last();
        let key = tick.pos.coordinates();
        if map.contains_key(key) {
            earlier.push(
                Sent {
                    partition: map[key].partition as usize,
                    message: PartitionMessage::ScheduleTick {
                        node_id: map[key].index,
                        delay: tick.ticks_left as usize,
                        priority: tick.tick_priority,
                    },
                },
            )
        } else {
            earlier
        }
    }
}

/// How many nodes partition `p` holds, if there are `count` in all.
pub open spec fn held_by(count: int, p: int) -> int {
    let size = size_for(count);
    if (p + 1) * size <= count {
        size
    } else {
        count - p * size
    }
}

/// Whether `partitions` hold what the nodes of `order` become, if `base` note blocks came
/// before them.
pub open spec fn splits(
    g: GraphView,
    order: Seq<NodeIdx>,
    base: Seq<NoteInfo>,
    partitions: Seq<Nodes>,
) -> bool {
    let count = order.len() as int;
    &&& partitions.len() == partitions_for(count)
    &&& forall|p: int|
        0 <= p < partitions.len() ==> (#[trigger] partitions[p]).nodes@.len() == held_by(count, p)
    &&& forall|i: int|
        0 <= i < count ==> #[trigger] placed_node(g, order, base, partitions, i)
}

/// Whether the node at `i` of `order` is at its place.
pub open spec fn placed_node(
    g: GraphView,
    order: Seq<NodeIdx>,
    base: Seq<NoteInfo>,
    partitions: Seq<Nodes>,
    i: int,
) -> bool {
    let size = size_for(order.len() as int);
    lowers_node(
        g,
        order[i],
        places_in(order),
        notes_after(base, g, order.take(i)).len(),
        partitions[i / size].nodes@[i % size],
    )
}

/// Whether the backend can run the graph, if `base` note blocks came before it: it can
/// run each node, and each note block has a number.
pub open spec fn can_lower(g: GraphView, base: Seq<NoteInfo>) -> bool {
    forall|order: Seq<NodeIdx>| #[trigger] ascends(g, order) ==> can_lower_in(g, order, base)
}

/// Whether the backend can run the nodes of `order`.
pub open spec fn can_lower_in(g: GraphView, order: Seq<NodeIdx>, base: Seq<NoteInfo>) -> bool {
    forall|i: int|
        0 <= i < order.len() ==> can_lower_node(g, #[trigger] order[i], places_in(order)) && (
        g.nodes[order[i]].ty is NoteBlock ==> notes_after(base, g, order.take(i)).len()
            <= u16::MAX)
}

/// How many parts of `size` it takes to hold `count`.
fn div_ceil(count: usize, size: usize) -> (parts: usize)
    requires
        size > 1,
    ensures
        parts == parts_of(count as int, size as int),
{
    proof {
        let (c, s) = (count as int, size as int);
        let (q, r) = (c / s, c % s);
        vstd::arithmetic::div_mod::lemma_fundamental_div_mod(c, s);
        vstd::arithmetic::div_mod::lemma_mod_bound(c, s);
        vstd::arithmetic::div_mod::lemma_div_pos_is_pos(c, s);
        assert(q * s == s * q) by (nonlinear_arith);
        assert(q < usize::MAX) by (nonlinear_arith)
            requires
                q * s + r == c,
                r >= 0,
                s > 1,
                q >= 0,
                c <= usize::MAX,
                usize::MAX > 1,
        ;
        if r == 0 {
            vstd::arithmetic::div_mod::lemma_fundamental_div_mod_converse(
                c + s - 1,
                s,
                q,
                s - 1,
            );
        } else {
            assert((q + 1) * s == q * s + s) by (nonlinear_arith);
            vstd::arithmetic::div_mod::lemma_fundamental_div_mod_converse(
                c + s - 1,
                s,
                q + 1,
                r - 1,
            );
        }
    }
    let whole: usize = count / size;
    if count % size == 0 {
        whole
    } else {
        whole + 1
    }
}

/// Creates a mapping from compile to backend node locations, and files the blocks of the
/// nodes by their locations.
fn place_nodes(
    graph: &CompileGraph,
    order: &Vec<NodeIdx>,
    partition_size: usize,
    table: &BlockTable,
    blocks: &mut FxHashMap<(u16, u32), (BlockPos, Block)>,
) -> (nodes_map: FxHashMap<NodeIdx, NodeLocation>)
    requires
        ascends(contents(*graph), order@),
        order@.len() <= u32::MAX,
        partition_size == size_for(order@.len() as int),
        old(blocks)@ == Blocks::empty(),
    ensures
        nodes_map@ == places_in(order@),
        files_blocks(contents(*graph), order@, *table, final(blocks)@),
{
    let ghost g = contents(*graph);
    let ghost count = order@.len() as int;
    proof {
        lemma_ascends(g, order@);
        lemma_partition_sizes(count);
    }
    let mut nodes_map: FxHashMap<NodeIdx, NodeLocation> = FxHashMap::default();
    let mut i: usize = 0;
    while i < order.len()
        invariant
            i <= order@.len() == count <= u32::MAX,
            g == contents(*graph),
            ascends(g, order@),
            order@.no_duplicates(),
            forall|j: int| 0 <= j < order@.len() ==> g.nodes.contains_key(#[trigger] order@[j]),
            partition_size == size_for(count) > 0,
            forall|n: NodeIdx| #[trigger]
                nodes_map@.contains_key(n) <==> order@.take(i as int).contains(n),
            forall|j: int| 0 <= j < i ==> nodes_map@[#[trigger] order@[j]] == place_of(count, j),
            forall|j: int|
                0 <= j < i ==> match g.nodes[#[trigger] order@[j]].block {
                    Some((pos, id)) => blocks@.contains_pair(
                        place_of(count, j).parts(),
                        (pos, Block::listed(*table, id)),
                    ),
                    None => !blocks@.contains_key(place_of(count, j).parts()),
                },
            forall|key: (u16, u32)| #[trigger]
                blocks@.contains_key(key) ==> exists|j: int|
                    0 <= j < i && (#[trigger] place_of(count, j)).parts() == key,
        decreases order@.len() - i,
    {
        let idx: NodeIdx = order[i];
        let partition: usize = i / partition_size;
        let node_id: usize = i % partition_size;
        let location = NodeLocation::from(partition, node_id);
        let ghost filed = blocks@;
        proof {
            lemma_place_in_range(count, i as int);
            lemma_partition_sizes(count);
            assert(location == place_of(count, i as int));
        }
        maps::insert(&mut nodes_map, idx, location);
        if let Some((pos, id)) = node(graph, idx).block {
            maps::insert(blocks, location.key(), (pos, Block::from_id(table, id)));
        }
        proof {
            assert forall|n: NodeIdx| #[trigger] nodes_map@.contains_key(n) <==> order@.take(
                i + 1,
            ).contains(n) by {
                assert(order@.take(i + 1)[i as int] == order@[i as int]);
                if order@.take(i as int).contains(n) {
                    let j = order@.take(i as int).index_of(n);
                    assert(order@.take(i + 1)[j] == n);
                }
                if order@.take(i + 1).contains(n) {
                    let j = order@.take(i + 1).index_of(n);
                    if j < i {
                        assert(order@.take(i as int)[j] == n);
                    }
                }
            }
            assert forall|j: int| 0 <= j < i + 1 implies match g.nodes[#[trigger] order@[j]].block {
                Some((pos, id)) => blocks@.contains_pair(
                    place_of(count, j).parts(),
                    (pos, Block::listed(*table, id)),
                ),
                None => !blocks@.contains_key(place_of(count, j).parts()),
            } by {
                law_places_are_distinct(count, i as int, j);
                if j == i {
                    if filed.contains_key(place_of(count, i as int).parts()) {
                        let k = choose|k: int|
                            0 <= k < i && (#[trigger] place_of(count, k)).parts() == place_of(
                                count,
                                i as int,
                            ).parts();
                        law_places_are_distinct(count, i as int, k);
                    }
                }
            }
            assert forall|key: (u16, u32)| #[trigger] blocks@.contains_key(key) implies exists|
                j: int,
            |
                0 <= j < i + 1 && (#[trigger] place_of(count, j)).parts() == key by {
                if filed.contains_key(key) {
                    let j = choose|j: int|
                        0 <= j < i && (#[trigger] place_of(count, j)).parts() == key;
                    assert(place_of(count, j).parts() == key);
                } else {
                    assert(place_of(count, i as int).parts() == key);
                }
            }
        }
        i += 1;
    }
    proof {
        assert(order@.take(i as int) =~= order@);
        let places = places_in(order@);
        assert(nodes_map@.dom() =~= places.dom());
        assert forall|n: NodeIdx| places.contains_key(n) implies nodes_map@[n] == places[n] by {
            let j = order@.index_of(n);
            assert(nodes_map@[order@[j]] == place_of(count, j));
        }
        assert(nodes_map@ =~= places);
        assert forall|key: (u16, u32)| #[trigger] blocks@.contains_key(key) implies holds_place(
            order@,
            key,
        ) by {
            let j = choose|j: int| 0 <= j < i && (#[trigger] place_of(count, j)).parts() == key;
            assert(place_of(order@.len() as int, j).parts() == key);
        }
    }
    nodes_map
}

/// The nodes of some partitions.
pub open spec fn nodes_of(partitions: Seq<Partition>) -> Seq<Nodes> {
    partitions.map_values(|partition: Partition| partition.nodes)
}

/// Whether the partitions are numbered, and have nothing to do yet.
pub open spec fn fresh(partitions: Seq<Partition>) -> bool {
    forall|p: int|
        0 <= p < partitions.len() ==> (#[trigger] partitions[p]).index == p
            && partitions[p].events@.len() == 0 && forall|priority: TickPriority| #[trigger]
            partitions[p].curr_queues.of(priority) == Seq::<NodeId>::empty()
}

/// Lowers the nodes of the graph and splits them into partitions.
fn lower_partitions(
    graph: &CompileGraph,
    order: &Vec<NodeIdx>,
    nodes_map: &FxHashMap<NodeIdx, NodeLocation>,
    partition_size: usize,
    noteblock_info: &mut Vec<NoteInfo>,
    stats: &mut FinalGraphStats,
) -> (partitions: Vec<Partition>)
    requires
        contents(*graph).wf(),
        ascends(contents(*graph), order@),
        order@.len() <= u32::MAX,
        partition_size == size_for(order@.len() as int),
        nodes_map@ == places_in(order@),
        can_lower_in(contents(*graph), order@, old(noteblock_info)@),
        *old(stats) == stats_of(contents(*graph), Seq::empty()),
    ensures
        splits(contents(*graph), order@, old(noteblock_info)@, nodes_of(partitions@)),
        fresh(partitions@),
        final(noteblock_info)@ == notes_after(old(noteblock_info)@, contents(*graph), order@),
        *final(stats) == stats_of(contents(*graph), order@),
{
    let ghost g = contents(*graph);
    let ghost base = noteblock_info@;
    let ghost count = order@.len() as int;
    let ghost size = size_for(count);
    proof {
        lemma_ascends(g, order@);
        lemma_partition_sizes(count);
        assert(order@.take(0) =~= Seq::empty());
    }
    let len: usize = order.len();
    let mut partitions: Vec<Partition> = Vec::new();
    let mut curr_nodes: Vec<Node> = Vec::new();
    assert(0 * size == 0) by (nonlinear_arith);
    let mut i: usize = 0;
    while i < len
        invariant
            i <= len == order@.len() == count <= u32::MAX,
            g == contents(*graph),
            g.wf(),
            base == old(noteblock_info)@,
            size == size_for(count) == partition_size,
            size >= MIN_PARTITION_SIZE,
            nodes_map@ == places_in(order@),
            can_lower_in(g, order@, base),
            forall|j: int| 0 <= j < count ==> g.nodes.contains_key(#[trigger] order@[j]),
            forall|n: NodeIdx|
                #![trigger g.nodes.contains_key(n)]
                g.nodes.contains_key(n) <==> order@.contains(n),
            noteblock_info@ == notes_after(base, g, order@.take(i as int)),
            *stats == stats_of(g, order@.take(i as int)),
            stats.update_link_count <= i * u32::MAX,
            stats.side_link_count <= i * MAX_INPUTS,
            stats.default_link_count <= i * MAX_INPUTS,
            i < count ==> curr_nodes@.len() < size,
            i == count ==> curr_nodes@.len() == 0,
            i < count ==> i == partitions@.len() * size + curr_nodes@.len(),
            i == count ==> (partitions@.len() - 1) * size < count <= partitions@.len() * size
                || partitions@.len() == 0 && count == 0,
            partitions@.len() <= i,
            fresh(partitions@),
            forall|p: int|
                0 <= p < partitions@.len() ==> (#[trigger] partitions@[p]).nodes.nodes@.len()
                    == held_by(count, p),
            forall|k: int|
                0 <= k < i && k / size < partitions@.len() ==> #[trigger] placed_node(
                    g,
                    order@,
                    base,
                    nodes_of(partitions@),
                    k,
                ),
            forall|j: int|
                0 <= j < curr_nodes@.len() ==> #[trigger] waiting_node(
                    g,
                    order@,
                    base,
                    curr_nodes@,
                    partitions@.len() * size,
                    j,
                ),
        decreases len - i,
    {
        let ghost done = partitions@.len() as int;
        let ghost waiting = curr_nodes@;
        proof {
            assert(order@.take(i + 1).drop_last() =~= order@.take(i as int));
            assert(order@.take(i + 1).last() == order@[i as int]);
            assert(can_lower_node(g, order@[i as int], places_in(order@)));
            lemma_knows_targets(g, order@[i as int], nodes_map@);
            assert(i * u32::MAX + u32::MAX <= u64::MAX) by (nonlinear_arith)
                requires
                    i < u32::MAX,
            ;
            assert(i * u32::MAX + u32::MAX == (i + 1) * u32::MAX) by (nonlinear_arith);
        }
        let lowered = compile_node(graph, order[i], nodes_map, noteblock_info, stats);
        curr_nodes.push(lowered);
        proof {
            lemma_place(size, done, waiting.len() as int);
            assert(waiting_node(
                g,
                order@,
                base,
                curr_nodes@,
                done * size,
                waiting.len() as int,
            ));
            assert forall|j: int| 0 <= j < waiting.len() implies #[trigger] waiting_node(
                g,
                order@,
                base,
                curr_nodes@,
                done * size,
                j,
            ) by {
                assert(waiting_node(g, order@, base, waiting, done * size, j));
            }
        }
        if curr_nodes.len() == partition_size || i == len - 1 {
            let partition_idx: usize = i / partition_size;
            let mut temp: Vec<Node> = Vec::new();
            std::mem::swap(&mut temp, &mut curr_nodes);
            let ghost filled = temp@;
            let ghost before = nodes_of(partitions@);
            proof {
                assert((done + 1) * size == done * size + size) by (nonlinear_arith);
                assert(filled.len() == held_by(count, done));
            }
            partitions.push(Partition::new(partition_idx, Nodes::new(temp)));
            proof {
                let after = nodes_of(partitions@);
                assert forall|k: int|
                    0 <= k < i + 1 && k / size < partitions@.len() implies #[trigger] placed_node(
                    g,
                    order@,
                    base,
                    after,
                    k,
                ) by {
                    vstd::arithmetic::div_mod::lemma_fundamental_div_mod(k, size);
                    vstd::arithmetic::div_mod::lemma_mod_bound(k, size);
                    vstd::arithmetic::div_mod::lemma_div_pos_is_pos(k, size);
                    assert(size * (k / size) == k / size * size) by (nonlinear_arith);
                    if k / size < done {
                        assert(k < done * size) by (nonlinear_arith)
                            requires
                                k == k / size * size + k % size,
                                k % size < size,
                                k / size < done,
                                size > 0,
                        ;
                        assert(placed_node(g, order@, base, before, k));
                        assert(after[k / size] == before[k / size]);
                    } else {
                        let j = k - done * size;
                        assert(k / size == done);
                        assert(j == k % size);
                        assert(waiting_node(g, order@, base, filled, done * size, j));
                        assert(after[done].nodes@ == filled);
                    }
                }
            }
        }
        proof {
            assert(stats.update_link_count <= (i + 1) * u32::MAX);
            assert(i * MAX_INPUTS + MAX_INPUTS == (i + 1) * MAX_INPUTS) by (nonlinear_arith);
        }
        i += 1;
    }
    proof {
        assert(order@.take(i as int) =~= order@);
        lemma_partition_sizes(count);
        let k = partitions@.len() as int;
        let want = partitions_for(count);
        if count > 0 {
            assert(k == want) by (nonlinear_arith)
                requires
                    (k - 1) * size < count <= k * size,
                    (want - 1) * size < count <= want * size,
                    size > 0,
            ;
        } else {
            assert(want == 0) by (nonlinear_arith)
                requires
                    want == (count + size - 1) / size,
                    count == 0,
                    size > 0,
            ;
        }
        assert forall|p: int| 0 <= p < nodes_of(partitions@).len() implies (#[trigger] nodes_of(
            partitions@,
        )[p]).nodes@.len() == held_by(count, p) by {
            assert(partitions@[p].nodes.nodes@.len() == held_by(count, p));
        }
        assert forall|j: int| 0 <= j < count implies #[trigger] placed_node(
            g,
            order@,
            base,
            nodes_of(partitions@),
            j,
        ) by {
            lemma_place_in_range(count, j);
        }
    }
    partitions
}

/// Whether the node at `j` of those that wait for their partition is the one at
/// `start + j` of `order`.
spec fn waiting_node(
    g: GraphView,
    order: Seq<NodeIdx>,
    base: Seq<NoteInfo>,
    nodes: Seq<Node>,
    start: int,
    j: int,
) -> bool {
    lowers_node(
        g,
        order[start + j],
        places_in(order),
        notes_after(base, g, order.take(start + j)).len(),
        nodes[j],
    )
}

/// Creates a mapping from block position to backend node location.
fn locate_blocks(blocks: &FxHashMap<(u16, u32), (BlockPos, Block)>) -> (pos_map: FxHashMap<
    (i32, i32, i32),
    NodeLocation,
>)
    ensures
        locates(blocks@, pos_map@),
{
    let mut pos_map: FxHashMap<(i32, i32, i32), NodeLocation> = FxHashMap::default();
    let list = maps::entries(blocks);
    let mut i: usize = 0;
    while i < list.len()
        invariant
            i <= list@.len(),
            forall|j: int|
                0 <= j < list@.len() ==> blocks@.contains_pair(
                    (#[trigger] list@[j]).0,
                    list@[j].1,
                ),
            forall|key: (i32, i32, i32)| #[trigger]
                pos_map@.contains_key(key) ==> blocks@.contains_key(pos_map@[key].parts())
                    && blocks@[pos_map@[key].parts()].0.coordinates() == key,
            forall|j: int|
                0 <= j < i ==> pos_map@.contains_key((#[trigger] list@[j]).1.0.coordinates()),
        decreases list@.len() - i,
    {
        let (key, block) = list[i];
        assert(list@[i as int] == (key, block));
        let location = NodeLocation { partition: key.0, index: NodeId { id: key.1 } };
        maps::insert(&mut pos_map, block.0.key(), location);
        i += 1;
    }
    assert forall|key: (u16, u32)| #[trigger] blocks@.contains_key(key) implies pos_map@.contains_key(
        blocks@[key].0.coordinates(),
    ) by {
        assert(list@.contains((key, blocks@[key])));
        let j = list@.index_of((key, blocks@[key]));
        assert(list@[j] == (key, blocks@[key]));
    }
    pos_map
}

/// What comes of a compiled graph besides the backend itself.
#[derive(Debug)]
pub struct Compiled {
    pub partitions: Vec<Partition>,
    /// The messages by which the pending ticks are scheduled.
    pub messages: Vec<Sent>,
    pub stats: FinalGraphStats,
    /// The graph for the dot file, if one is to be written.
    pub dot: Option<String>,
}

/// Whether the nodes known from outside are those of the partitions.
pub open spec fn mirrors(interfaces: Seq<PartitionInterface>, partitions: Seq<Partition>) -> bool {
    interfaces.len() == partitions.len() && forall|p: int|
        0 <= p < interfaces.len() ==> (#[trigger] interfaces[p]).nodes.same_as(partitions[p].nodes)
            && interfaces[p].events@.len() == 0
}

/// Whether the backend and the rest are what the graph is compiled to, if `base` note
/// blocks came before it.
pub open spec fn compiles(
    g: GraphView,
    order: Seq<NodeIdx>,
    base: Seq<NoteInfo>,
    ticks: Seq<TickEntry>,
    options: CompilerOptions,
    table: BlockTable,
    backend: PartitionedBackend,
    compiled: Compiled,
) -> bool {
    &&& splits(g, order, base, nodes_of(compiled.partitions@))
    &&& fresh(compiled.partitions@)
    &&& mirrors(backend.partitions@, compiled.partitions@)
    &&& backend.noteblock_info@ == notes_after(base, g, order)
    &&& files_blocks(g, order, table, backend.blocks@)
    &&& locates(backend.blocks@, backend.pos_map@)
    &&& compiled.messages@ == scheduled(backend.pos_map@, ticks)
    &&& compiled.stats == stats_of(g, order)
    &&& match compiled.dot {
        Some(text) => options.export_dot_graph && text@ == dot_graph(
            backend.partitions@,
            backend.blocks@,
        ),
        None => !options.export_dot_graph,
    }
}

/// The place of a node is in its partition.
pub proof fn lemma_located_in_partition(
    g: GraphView,
    order: Seq<NodeIdx>,
    base: Seq<NoteInfo>,
    partitions: Seq<Nodes>,
    i: int,
)
    requires
        order.len() <= u32::MAX,
        splits(g, order, base, partitions),
        0 <= i < order.len(),
    ensures
        place_of(order.len() as int, i).partition < partitions.len(),
        place_of(order.len() as int, i).index.id < partitions[place_of(
            order.len() as int,
            i,
        ).partition as int].nodes@.len(),
{
    let count = order.len() as int;
    let size = size_for(count);
    lemma_place_in_range(count, i);
    lemma_partition_sizes(count);
    let p = i / size;
    assert(partitions[p].nodes@.len() == held_by(count, p));
}

/// No partition is larger than the graph.
proof fn lemma_held_by(count: int, p: int)
    requires
        0 <= p,
        0 <= count,
    ensures
        held_by(count, p) <= count,
{
    let size = size_for(count);
    lemma_partition_sizes(count);
    assert(p * size >= 0) by (nonlinear_arith)
        requires
            p >= 0,
            size > 0,
    ;
    assert((p + 1) * size == p * size + size) by (nonlinear_arith);
}

/// Lowers a graph with its pending ticks.  The table tells what the blocks of the graph are.
pub fn compile(
    backend: &mut PartitionedBackend,
    graph: CompileGraph,
    ticks: Vec<TickEntry>,
    options: &CompilerOptions,
    table: &BlockTable,
) -> (compiled: Compiled)
    requires
        can_lower(contents(graph), old(backend).noteblock_info@),
    ensures
        exists|order: Seq<NodeIdx>|
            #![trigger ascends(contents(graph), order)]
            ascends(contents(graph), order) && compiles(
                contents(graph),
                order,
                old(backend).noteblock_info@,
                ticks@,
                *options,
                *table,
                *final(backend),
                compiled,
            ),
        final(backend).wf(),
{
    let ghost g = contents(graph);
    let ghost base = backend.noteblock_info@;
    let nodes_len: usize = node_count(&graph);
    let order = node_indices(&graph);
    let ghost count = order@.len() as int;
    proof {
        lemma_ascends(g, order@);
        lemma_partition_sizes(count);
        assert(can_lower_in(g, order@, base));
    }
    let even: usize = div_ceil(nodes_len, MAX_PARTITIONS);
    let partition_size: usize = if even > MIN_PARTITION_SIZE {
        even
    } else {
        MIN_PARTITION_SIZE
    };

    backend.blocks.clear();
    let nodes_map = place_nodes(&graph, &order, partition_size, table, &mut backend.blocks);

    // Lower nodes
    let mut stats = FinalGraphStats {
        update_link_count: 0,
        side_link_count: 0,
        default_link_count: 0,
    };
    let partitions = lower_partitions(
        &graph,
        &order,
        &nodes_map,
        partition_size,
        &mut backend.noteblock_info,
        &mut stats,
    );

    let mut interfaces: Vec<PartitionInterface> = Vec::new();
    let mut p: usize = 0;
    while p < partitions.len()
        invariant
            p <= partitions@.len(),
            interfaces@.len() == p,
            forall|q: int|
                0 <= q < p ==> (#[trigger] interfaces@[q]).nodes.same_as(partitions@[q].nodes)
                    && interfaces@[q].events@.len() == 0,
        decreases partitions@.len() - p,
    {
        interfaces.push(PartitionInterface::new(partitions[p].nodes.duplicate()));
        p += 1;
    }
    backend.partitions = interfaces;
    backend.pos_map = locate_blocks(&backend.blocks);
    proof {
        let lists = nodes_of(partitions@);
        assert forall|q: int| 0 <= q < backend.partitions@.len() implies (
        #[trigger] backend.partitions@[q]).nodes.nodes@.len() <= u32::MAX by {
            lemma_held_by(count, q);
            assert(lists[q].nodes@.len() == held_by(count, q));
        }
        assert forall|key: (i32, i32, i32)| #[trigger]
            backend.pos_map@.contains_key(key) implies backend.has(backend.pos_map@[key]) by {
            let location = backend.pos_map@[key];
            assert(holds_place(order@, location.parts()));
            let i = choose|i: int|
                0 <= i < order@.len() && (#[trigger] place_of(count, i)).parts()
                    == location.parts();
            lemma_located_in_partition(g, order@, base, lists, i);
            assert(backend.partitions@[location.partition as int].nodes.same_as(
                partitions@[location.partition as int].nodes,
            ));
        }
    }

    // Schedule backend ticks
    let mut messages: Vec<Sent> = Vec::new();
    let mut k: usize = 0;
    assert(messages@ =~= scheduled(backend.pos_map@, ticks@.take(0)));
    while k < ticks.len()
        invariant
            k <= ticks@.len(),
            messages@ == scheduled(backend.pos_map@, ticks@.take(k as int)),
        decreases ticks@.len() - k,
    {
        let entry = ticks[k];
        assert(ticks@.take(k + 1).drop_last() =~= ticks@.take(k as int));
        assert(ticks@.take(k + 1).last() == entry);
        if let Some(location) = maps::get(&backend.pos_map, entry.pos.key()) {
            messages.push(
                backend.cross_schedule_tick(
                    *location,
                    entry.ticks_left as usize,
                    entry.tick_priority,
                ),
            );
        }
        k += 1;
        assert(messages@ =~= scheduled(backend.pos_map@, ticks@.take(k as int)));
    }
    assert(ticks@.take(k as int) =~= ticks@);

    // Dot file output
    let dot = if options.export_dot_graph {
        Some(backend.to_dot())
    } else {
        None
    };

    let compiled = Compiled { partitions, messages, stats, dot };
    assert(compiles(g, order@, base, ticks@, *options, *table, *backend, compiled));
    compiled
}

/// Whether the links of a node can be put into words.
fn do_links_fit(
    graph: &CompileGraph,
    node_idx: NodeIdx,
    nodes_map: &FxHashMap<NodeIdx, NodeLocation>,
) -> (r: bool)
    requires
        contents(*graph).nodes.contains_key(node_idx),
        forall|n: NodeIdx| #[trigger]
            contents(*graph).nodes.contains_key(n) ==> nodes_map@.contains_key(n),
    ensures
        r == links_fit(contents(*graph), node_idx, nodes_map@),
{
    let ghost g = contents(*graph);
    let edges = edges_directed(graph, node_idx, Direction::Outgoing);
    let mut i: usize = 0;
    while i < edges.len()
        invariant
            i <= edges@.len(),
            g == contents(*graph),
            edges@ == g.edges_of(node_idx, Direction::Outgoing),
            g.lists_edges(node_idx, Direction::Outgoing, edges@),
            forall|n: NodeIdx| #[trigger] g.nodes.contains_key(n) ==> nodes_map@.contains_key(n),
            forall|j: int|
                0 <= j < i ==> (#[trigger] edges@[j]).link.ss < 15 && reachable(
                    nodes_map@[edges@[j].target],
                ),
        decreases edges@.len() - i,
    {
        let edge = edges[i];
        assert(edge == edges@[i as int]);
        if edge.link.ss >= 15 {
            return false;
        }
        if let Some(location) = maps::get(nodes_map, edge.target) {
            if location.partition >= 0x80 || location.index.id >= 0x10_0000 {
                assert(!reachable(nodes_map@[edges@[i as int].target]));
                return false;
            }
        }
        i += 1;
    }
    true
}

/// Whether the backend can run a component.
fn can_compile_node(
    graph: &CompileGraph,
    node_idx: NodeIdx,
    nodes_map: &FxHashMap<NodeIdx, NodeLocation>,
) -> (r: bool)
    requires
        contents(*graph).nodes.contains_key(node_idx),
        forall|n: NodeIdx| #[trigger]
            contents(*graph).nodes.contains_key(n) ==> nodes_map@.contains_key(n),
    ensures
        r == can_lower_node(contents(*graph), node_idx, nodes_map@),
{
    let weight = node(graph, node_idx);
    let known: bool = match weight.ty {
        CNodeType::Torch { invert } => invert,
        CNodeType::Comparator { far_input, .. } => match far_input {
            Some(ss) => ss != 255,
            None => true,
        },
        CNodeType::NoteBlock { .. } => weight.block.is_some(),
        CNodeType::Chain { .. } => false,
        _ => true,
    };
    if !known || !are_inputs_in_range(graph, node_idx) {
        return false;
    }
    let incoming = edges_directed(graph, node_idx, Direction::Incoming);
    if count_typed(&incoming, LinkType::Default) > MAX_INPUTS || count_typed(
        &incoming,
        LinkType::Side,
    ) > MAX_INPUTS {
        return false;
    }
    weight.ty == CNodeType::Constant || do_links_fit(graph, node_idx, nodes_map)
}

/// Whether the backend can run the nodes of the graph, if `base` note blocks came before
/// them.
fn can_compile(
    graph: &CompileGraph,
    order: &Vec<NodeIdx>,
    base: &Vec<NoteInfo>,
) -> (r: bool)
    requires
        ascends(contents(*graph), order@),
    ensures
        r == can_lower_in(contents(*graph), order@, base@),
{
    let ghost g = contents(*graph);
    let ghost count = order@.len() as int;
    let nodes_len: usize = node_count(graph);
    proof {
        lemma_ascends(g, order@);
        lemma_partition_sizes(count);
    }
    let even: usize = div_ceil(nodes_len, MAX_PARTITIONS);
    let partition_size: usize = if even > MIN_PARTITION_SIZE {
        even
    } else {
        MIN_PARTITION_SIZE
    };
    let mut blocks: FxHashMap<(u16, u32), (BlockPos, Block)> = FxHashMap::default();
    let table = BlockTable { blocks: Vec::new() };
    let nodes_map = place_nodes(graph, order, partition_size, &table, &mut blocks);
    let mut notes: u128 = base.len() as u128;
    let mut i: usize = 0;
    assert(order@.take(0) =~= Seq::empty());
    while i < order.len()
        invariant
            i <= order@.len() == count <= u32::MAX,
            g == contents(*graph),
            nodes_map@ == places_in(order@),
            forall|n: NodeIdx|
                #![trigger g.nodes.contains_key(n)]
                g.nodes.contains_key(n) <==> order@.contains(n),
            forall|j: int| 0 <= j < order@.len() ==> g.nodes.contains_key(#[trigger] order@[j]),
            notes == notes_after(base@, g, order@.take(i as int)).len(),
            notes <= base@.len() + i,
            forall|j: int|
                0 <= j < i ==> can_lower_node(g, #[trigger] order@[j], places_in(order@)) && (
                g.nodes[order@[j]].ty is NoteBlock ==> notes_after(base@, g, order@.take(j)).len()
                    <= u16::MAX),
        decreases order@.len() - i,
    {
        let idx: NodeIdx = order[i];
        assert(g.nodes.contains_key(order@[i as int]));
        assert(order@.take(i + 1).drop_last() =~= order@.take(i as int));
        assert(order@.take(i + 1).last() == order@[i as int]);
        if !can_compile_node(graph, idx, &nodes_map) {
            assert(!can_lower_node(g, order@[i as int], places_in(order@)));
            return false;
        }
        if let CNodeType::NoteBlock { .. } = node(graph, idx).ty {
            if notes > u16::MAX as u128 {
                assert(g.nodes[order@[i as int]].ty is NoteBlock);
                return false;
            }
            notes += 1;
        }
        i += 1;
    }
    true
}

impl PartitionedBackend {
    /// Lowers a graph with its pending ticks.  The table tells what the blocks of the graph
    /// are.
    pub fn compile(
        &mut self,
        graph: CompileGraph,
        ticks: Vec<TickEntry>,
        options: &CompilerOptions,
        table: &BlockTable,
    ) -> (compiled: Compiled)
        requires
            can_lower(contents(graph), old(self).noteblock_info@),
        ensures
            exists|order: Seq<NodeIdx>|
                #![trigger ascends(contents(graph), order)]
                ascends(contents(graph), order) && compiles(
                    contents(graph),
                    order,
                    old(self).noteblock_info@,
                    ticks@,
                    *options,
                    *table,
                    *final(self),
                    compiled,
                ),
            final(self).wf(),
    {
        compile(self, graph, ticks, options, table)
    }

    /// Lowers a graph with its pending ticks, if the backend can run it.
    pub fn try_compile(
        &mut self,
        graph: CompileGraph,
        ticks: Vec<TickEntry>,
        options: &CompilerOptions,
        table: &BlockTable,
    ) -> (compiled: Option<Compiled>)
        ensures
            compiled is Some <==> can_lower(contents(graph), old(self).noteblock_info@),
            compiled is None ==> *final(self) == *old(self),
            compiled is Some ==> {
                &&& exists|order: Seq<NodeIdx>|
                    #![trigger ascends(contents(graph), order)]
                    ascends(contents(graph), order) && compiles(
                        contents(graph),
                        order,
                        old(self).noteblock_info@,
                        ticks@,
                        *options,
                        *table,
                        *final(self),
                        compiled->0,
                    )
                &&& final(self).wf()
            },
    {
        let ghost g = contents(graph);
        let order = node_indices(&graph);
        proof {
            assert forall|other: Seq<NodeIdx>| #[trigger] ascends(g, other) implies other
                == order@ by {
                lemma_ascends_unique(g, other, order@);
            }
        }
        if !can_compile(&graph, &order, &self.noteblock_info) {
            assert(ascends(g, order@));
            return None;
        }
        Some(compile(self, graph, ticks, options, table))
    }
}

} // verus!
