//! Lowers a graph to the data that the device runs on.

use rustc_hash::FxHashMap;
use vstd::prelude::*;

use crate::backend::gpu::pipelines::{boxed, law_buffers_are_padded, CompilationData, Pipelines};
use crate::backend::gpu::shader_types::{
    ForwardLink, NeighborInfo, NodeType, State, TickPriority, TypeInfo,
};
use crate::backend::inputs::{
    are_inputs_in_range, arriving_strength, input_count, inputs_in_range, lemma_one_more_input,
    lemma_some_inputs, tally,
};
use crate::backend::links::{
    arrange, arranges, knows_targets, law_arranging_keeps_links, lemma_knows_targets, Lead,
};
use crate::compile_graph::{CompileGraph, CompileNode, LinkType, NodeIdx, NodeType as CNodeType};
use crate::graph::{
    ascends, contains_node, contents, edges_directed, lemma_ascends, lemma_indices_finite, node,
    node_count, node_indices, Direction, Edge, GraphView,
};
use crate::maps;
use crate::options::CompilerOptions;
use crate::world::{self, Block, BlockPos, BlockTable, ComparatorMode, TickEntry};

verus! {

/// Whether the device can run a component of this type.
pub open spec fn supported(ty: CNodeType) -> bool {
    match ty {
        CNodeType::Torch { invert } => invert,
        CNodeType::Chain { .. } => false,
        _ => true,
    }
}

/// A type without settings.
pub open spec fn plain(ty: NodeType) -> TypeInfo {
    TypeInfo { ty, data: 0, facing_diode: false, far_input: 0 }
}

/// What the device is told about a component of this type.  A note block goes by its
/// number.
pub open spec fn lowered_type(ty: CNodeType, noteblock_id: u8) -> TypeInfo {
    match ty {
        CNodeType::Repeater { delay, facing_diode } => TypeInfo {
            ty: NodeType::Repeater,
            data: delay,
            facing_diode,
            far_input: 0,
        },
        CNodeType::Torch { .. } => plain(NodeType::Torch),
        CNodeType::Comparator { mode, far_input, facing_diode } => TypeInfo {
            ty: NodeType::Comparator,
            data: if mode == ComparatorMode::Subtract {
                1
            } else {
                0
            },
            facing_diode,
            far_input: match far_input {
                Some(ss) => ss,
                None => 255,
            },
        },
        CNodeType::Lamp => plain(NodeType::Lamp),
        CNodeType::Button => plain(NodeType::Button),
        CNodeType::Lever => plain(NodeType::Lever),
        CNodeType::PressurePlate => plain(NodeType::PressurePlate),
        CNodeType::Trapdoor => plain(NodeType::Trapdoor),
        CNodeType::Wire => plain(NodeType::Wire),
        CNodeType::Constant => plain(NodeType::Constant),
        CNodeType::NoteBlock { .. } => TypeInfo {
            ty: NodeType::NoteBlock,
            data: noteblock_id,
            facing_diode: false,
            far_input: 0,
        },
        CNodeType::Chain { .. } => arbitrary(),
    }
}

/// The state that a component starts in: a powered component without a strength of its
/// own puts out the full one.
pub open spec fn lowered_state(node: CompileNode) -> State {
    State {
        output_strength: if node.state.output_strength > 0 {
            node.state.output_strength
        } else if node.state.powered {
            15
        } else {
            0
        },
        repeater_locked: node.state.repeater_locked,
        changed: false,
    }
}

/// The links of `n`, with the places of their targets.
pub open spec fn leads_of(g: GraphView, n: NodeIdx, places: Map<NodeIdx, usize>) -> Seq<Lead> {
    g.edges_of(n, Direction::Outgoing).map_values(
        |edge: Edge|
            Lead {
                rank: places[edge.target] as u64,
                kind: g.nodes[edge.target].ty.kind(),
                edge,
            },
    )
}

/// What the device is told about a link.
pub open spec fn lowered_link(places: Map<NodeIdx, usize>) -> spec_fn(Lead) -> ForwardLink {
    |lead: Lead|
        ForwardLink {
            distance: lead.edge.link.ss,
            is_side: lead.edge.link.ty == LinkType::Side,
            node_index: places[lead.edge.target],
        }
}

/// Whether `links` are what the device is told about the links of `n`: one for each, kind
/// by kind, in the order of their targets within each kind.  A constant has none.
pub open spec fn lowers_links(
    g: GraphView,
    n: NodeIdx,
    places: Map<NodeIdx, usize>,
    links: Seq<ForwardLink>,
) -> bool {
    if g.nodes[n].ty == CNodeType::Constant {
        links.len() == 0
    } else {
        exists|leads: Seq<Lead>| #[trigger]
            arranges(leads_of(g, n, places), leads) && links == leads.map_values(
                lowered_link(places),
            )
    }
}

/// Whether `row` counts the inputs of `n` of one type by their strength.
pub open spec fn counts_inputs(g: GraphView, n: NodeIdx, ty: LinkType, row: Seq<u32>) -> bool {
    row.len() == 16 && forall|ss: int|
        0 <= ss < 16 ==> #[trigger] row[ss] == input_count(g, n, ty, ss)
}

/// Whether the device can run the node `n`: its type is one that it knows, the signals
/// that arrive are in range, and its links are few enough to be counted in a byte.
pub open spec fn can_lower_node(g: GraphView, n: NodeIdx) -> bool {
    &&& supported(g.nodes[n].ty)
    &&& inputs_in_range(g, n)
    &&& g.nodes[n].ty == CNodeType::Constant || g.edges_of(
        n,
        Direction::Outgoing,
    ).len() <= 255
}

/// The note blocks of `g`.
pub open spec fn note_blocks(g: GraphView) -> Set<NodeIdx> {
    Set::new(|n: NodeIdx| g.nodes.contains_key(n) && g.nodes[n].ty is NoteBlock)
}

/// The note blocks of `g` whose indices are below a bound.
pub open spec fn notes_below(g: GraphView, bound: int) -> Set<NodeIdx> {
    note_blocks(g).filter(|n: NodeIdx| n < bound)
}

/// The number by which the device knows the note block `n`: how many of a lower index there
/// are, or as much of that as a byte holds.
pub open spec fn note_number(g: GraphView, n: NodeIdx) -> u8 {
    (notes_below(g, n as int).len() % 0x100) as u8
}

/// What the device is told about the type of the node `n`.
pub open spec fn lowered_type_of(g: GraphView, n: NodeIdx) -> TypeInfo {
    lowered_type(g.nodes[n].ty, note_number(g, n))
}

/// What the device is told about the types of the nodes of `order`.
pub open spec fn lowered_types(g: GraphView, order: Seq<NodeIdx>) -> Seq<TypeInfo> {
    order.map_values(|n: NodeIdx| lowered_type_of(g, n))
}

/// Whether there is a note block at `n` decides whether one more is below the next bound.
proof fn lemma_one_more_note(g: GraphView, n: NodeIdx)
    ensures
        notes_below(g, n + 1).len() == notes_below(g, n as int).len() + if note_blocks(g).contains(
            n,
        ) {
            1nat
        } else {
            0
        },
{
    lemma_indices_finite(notes_below(g, n as int));
    if note_blocks(g).contains(n) {
        assert(notes_below(g, n + 1) =~= notes_below(g, n as int).insert(n));
    } else {
        assert(notes_below(g, n + 1) =~= notes_below(g, n as int));
    }
}

/// The number by which the device knows the note block of this index.
fn number_note_block(graph: &CompileGraph, node_idx: NodeIdx) -> (number: u8)
    ensures
        number == note_number(contents(*graph), node_idx),
{
    let ghost g = contents(*graph);
    let mut notes: u32 = 0;
    let mut i: NodeIdx = 0;
    assert(notes_below(g, 0) =~= Set::<NodeIdx>::empty());
    while i < node_idx
        invariant
            i <= node_idx,
            g == contents(*graph),
            notes == notes_below(g, i as int).len() <= i,
        decreases node_idx - i,
    {
        proof {
            lemma_one_more_note(g, i);
        }
        if contains_node(graph, i) {
            if let CNodeType::NoteBlock { .. } = node(graph, i).ty {
                notes += 1;
            }
        }
        i += 1;
    }
    (notes % 0x100) as u8
}

/// What the device is told about a component of this type.
pub fn type_info(ty: &CNodeType, noteblock_id: u8) -> (info: TypeInfo)
    requires
        supported(*ty),
    ensures
        info == lowered_type(*ty, noteblock_id),
{
    match ty {
        CNodeType::Repeater { delay, facing_diode } => TypeInfo {
            ty: NodeType::Repeater,
            data: *delay,
            facing_diode: *facing_diode,
            far_input: 0,
        },
        CNodeType::Torch { .. } => without_settings(NodeType::Torch),
        CNodeType::Comparator { mode, far_input, facing_diode } => TypeInfo {
            ty: NodeType::Comparator,
            data: if *mode == ComparatorMode::Subtract {
                1
            } else {
                0
            },
            facing_diode: *facing_diode,
            far_input: match far_input {
                Some(ss) => *ss,
                None => 255,
            },
        },
        CNodeType::Lamp => without_settings(NodeType::Lamp),
        CNodeType::Button => without_settings(NodeType::Button),
        CNodeType::Lever => without_settings(NodeType::Lever),
        CNodeType::PressurePlate => without_settings(NodeType::PressurePlate),
        CNodeType::Trapdoor => without_settings(NodeType::Trapdoor),
        CNodeType::Wire => without_settings(NodeType::Wire),
        CNodeType::Constant => without_settings(NodeType::Constant),
        CNodeType::NoteBlock { .. } => TypeInfo {
            ty: NodeType::NoteBlock,
            data: noteblock_id,
            facing_diode: false,
            far_input: 0,
        },
        CNodeType::Chain { .. } => without_settings(NodeType::Wire),
    }
}

/// A type without settings.
fn without_settings(ty: NodeType) -> (info: TypeInfo)
    ensures
        info == plain(ty),
{
    TypeInfo { ty, data: 0, facing_diode: false, far_input: 0 }
}

/// Counts the inputs of a node by type and strength: those from behind, then those from
/// the side.
fn count_inputs(graph: &CompileGraph, node_idx: NodeIdx) -> (rows: ([u32; 16], [u32; 16]))
    requires
        contents(*graph).nodes.contains_key(node_idx),
        inputs_in_range(contents(*graph), node_idx),
    ensures
        counts_inputs(contents(*graph), node_idx, LinkType::Default, rows.0@),
        counts_inputs(contents(*graph), node_idx, LinkType::Side, rows.1@),
{
    let ghost g = contents(*graph);
    let ghost list = g.edges_of(node_idx, Direction::Incoming);
    let mut curr_default_inputs: [u32; 16] = [0; 16];
    let mut curr_side_inputs: [u32; 16] = [0; 16];
    let edges = edges_directed(graph, node_idx, Direction::Incoming);
    proof {
        lemma_some_inputs(g, list, 0);
    }
    let mut i: usize = 0;
    while i < edges.len()
        invariant
            i <= edges@.len() <= u32::MAX,
            g == contents(*graph),
            edges@ == list,
            list == g.edges_of(node_idx, Direction::Incoming),
            g.lists_edges(node_idx, Direction::Incoming, list),
            inputs_in_range(g, node_idx),
            forall|ss: int|
                0 <= ss < 16 ==> #[trigger] curr_default_inputs@[ss] == tally(
                    g,
                    list.take(i as int),
                    LinkType::Default,
                    ss,
                ),
            forall|ss: int|
                0 <= ss < 16 ==> #[trigger] curr_side_inputs@[ss] == tally(
                    g,
                    list.take(i as int),
                    LinkType::Side,
                    ss,
                ),
        decreases edges@.len() - i,
    {
        let edge = edges[i];
        let ss: u8 = arriving_strength(graph, &edge);
        proof {
            lemma_one_more_input(g, list, i as int);
            lemma_some_inputs(g, list, i as int);
            assert(list[i as int] == edge);
            assert(tally(g, list.take(i as int), LinkType::Default, ss as int) <= i);
            assert(tally(g, list.take(i as int), LinkType::Side, ss as int) <= i);
        }
        match edge.link.ty {
            LinkType::Default => {
                curr_default_inputs[ss as usize] = curr_default_inputs[ss as usize] + 1;
            },
            LinkType::Side => {
                curr_side_inputs[ss as usize] = curr_side_inputs[ss as usize] + 1;
            },
        }
        i += 1;
    }
    assert(list.take(i as int) =~= list);
    (curr_default_inputs, curr_side_inputs)
}

/// What the device is told about the links of a node.
fn lower_links(
    graph: &CompileGraph,
    node_idx: NodeIdx,
    nodes_map: &FxHashMap<NodeIdx, usize>,
) -> (updates: Vec<ForwardLink>)
    requires
        contents(*graph).nodes.contains_key(node_idx),
        contents(*graph).nodes[node_idx].ty != CNodeType::Constant,
        knows_targets(contents(*graph), node_idx, nodes_map@),
    ensures
        lowers_links(contents(*graph), node_idx, nodes_map@, updates@),
        updates@.len() == contents(*graph).edges_of(node_idx, Direction::Outgoing).len(),
{
    let ghost g = contents(*graph);
    let ghost places = nodes_map@;
    let ghost wanted = leads_of(g, node_idx, places);
    let edges = edges_directed(graph, node_idx, Direction::Outgoing);
    let mut leads: Vec<Lead> = Vec::new();
    let mut i: usize = 0;
    while i < edges.len()
        invariant
            i <= edges@.len(),
            g == contents(*graph),
            places == nodes_map@,
            edges@ == g.edges_of(node_idx, Direction::Outgoing),
            g.lists_edges(node_idx, Direction::Outgoing, edges@),
            wanted == leads_of(g, node_idx, places),
            knows_targets(g, node_idx, places),
            leads@ == wanted.take(i as int),
        decreases edges@.len() - i,
    {
        let edge = edges[i];
        assert(edge == edges@[i as int]);
        let rank: u64 = match maps::get(nodes_map, edge.target) {
            Some(place) => *place as u64,
            None => 0,
        };
        let kind: u32 = node(graph, edge.target).ty.kind_number();
        leads.push(Lead { rank, kind, edge });
        assert(leads@ =~= wanted.take(i + 1));
        i += 1;
    }
    assert(wanted.take(i as int) =~= wanted);
    let ordered = arrange(leads);
    proof {
        law_arranging_keeps_links(wanted, ordered@);
    }
    let mut updates: Vec<ForwardLink> = Vec::new();
    let mut i: usize = 0;
    while i < ordered.len()
        invariant
            i <= ordered@.len(),
            g == contents(*graph),
            places == nodes_map@,
            g.lists_edges(node_idx, Direction::Outgoing, g.edges_of(node_idx, Direction::Outgoing)),
            wanted == leads_of(g, node_idx, places),
            ordered@.to_multiset() == wanted.to_multiset(),
            knows_targets(g, node_idx, places),
            updates@ == ordered@.take(i as int).map_values(lowered_link(places)),
        decreases ordered@.len() - i,
    {
        let lead = ordered[i];
        proof {
            lemma_lead_target(g, node_idx, places, ordered@, i as int);
            let list = g.edges_of(node_idx, Direction::Outgoing);
            assert(list[list.index_of(lead.edge)] == lead.edge);
        }
        let node_index: usize = match maps::get(nodes_map, lead.edge.target) {
            Some(place) => *place,
            None => 0,
        };
        updates.push(
            ForwardLink {
                distance: lead.edge.link.ss,
                is_side: lead.edge.link.ty == LinkType::Side,
                node_index,
            },
        );
        assert(updates@ =~= ordered@.take(i + 1).map_values(lowered_link(places)));
        i += 1;
    }
    assert(ordered@.take(i as int) =~= ordered@);
    updates
}

/// The target of a link that has been put in order is a node of the graph.
proof fn lemma_lead_target(
    g: GraphView,
    n: NodeIdx,
    places: Map<NodeIdx, usize>,
    ordered: Seq<Lead>,
    i: int,
)
    requires
        0 <= i < ordered.len(),
        g.lists_edges(n, Direction::Outgoing, g.edges_of(n, Direction::Outgoing)),
        ordered.to_multiset() == leads_of(g, n, places).to_multiset(),
    ensures
        g.edges_of(n, Direction::Outgoing).contains(ordered[i].edge),
        g.nodes.contains_key(ordered[i].edge.target),
{
    broadcast use vstd::seq_lib::group_to_multiset_ensures;

    let wanted = leads_of(g, n, places);
    assert(ordered.contains(ordered[i]));
    assert(ordered.to_multiset().count(ordered[i]) > 0);
    assert(wanted.contains(ordered[i]));
    let j = wanted.index_of(ordered[i]);
    assert(wanted[j].edge == g.edges_of(n, Direction::Outgoing)[j]);
}

/// Lowers one node: what the device is told about it is put at the end of each list.
pub fn compile_node(
    graph: &CompileGraph,
    node_idx: NodeIdx,
    nodes_map: &FxHashMap<NodeIdx, usize>,
    types: &mut Vec<TypeInfo>,
    neighbor_info: &mut Vec<NeighborInfo>,
    neighbor_links: &mut Vec<ForwardLink>,
    states: &mut Vec<State>,
    default_inputs: &mut Vec<[u32; 16]>,
    side_inputs: &mut Vec<[u32; 16]>,
)
    requires
        contents(*graph).nodes.contains_key(node_idx),
        can_lower_node(contents(*graph), node_idx),
        contents(*graph).nodes[node_idx].ty == CNodeType::Constant || knows_targets(
            contents(*graph),
            node_idx,
            nodes_map@,
        ),
    ensures
        final(types)@ == old(types)@.push(lowered_type_of(contents(*graph), node_idx)),
        final(states)@ == old(states)@.push(lowered_state(contents(*graph).nodes[node_idx])),
        exists|links: Seq<ForwardLink>| #[trigger]
            lowers_links(contents(*graph), node_idx, nodes_map@, links) && links.len() <= 255
                && final(neighbor_links)@ == old(neighbor_links)@ + links && final(neighbor_info)@
                == old(neighbor_info)@.push(
                NeighborInfo {
                    count: links.len() as u8,
                    index: old(neighbor_links)@.len() as usize,
                },
            ),
        final(default_inputs)@.len() == old(default_inputs)@.len() + 1,
        final(default_inputs)@.drop_last() == old(default_inputs)@,
        counts_inputs(
            contents(*graph),
            node_idx,
            LinkType::Default,
            final(default_inputs)@.last()@,
        ),
        final(side_inputs)@.len() == old(side_inputs)@.len() + 1,
        final(side_inputs)@.drop_last() == old(side_inputs)@,
        counts_inputs(contents(*graph), node_idx, LinkType::Side, final(side_inputs)@.last()@),
{
    let weight = node(graph, node_idx);
    let (curr_default_inputs, curr_side_inputs) = count_inputs(graph, node_idx);

    let mut updates: Vec<ForwardLink> = if weight.ty != CNodeType::Constant {
        lower_links(graph, node_idx, nodes_map)
    } else {
        Vec::new()
    };
    let ghost links = updates@;

    let curr_neighbor_info = NeighborInfo {
        count: updates.len() as u8,
        index: neighbor_links.len(),
    };

    let output_strength: u8 = if weight.state.output_strength > 0 {
        weight.state.output_strength
    } else if weight.state.powered {
        15
    } else {
        0
    };
    let state = State {
        output_strength,
        repeater_locked: weight.state.repeater_locked,
        changed: false,
    };

    let noteblock_id: u8 = if let CNodeType::NoteBlock { .. } = weight.ty {
        number_note_block(graph, node_idx)
    } else {
        0
    };
    let info = type_info(&weight.ty, noteblock_id);

    types.push(info);
    neighbor_info.push(curr_neighbor_info);
    neighbor_links.append(&mut updates);
    states.push(state);
    default_inputs.push(curr_default_inputs);
    side_inputs.push(curr_side_inputs);
    assert(lowers_links(contents(*graph), node_idx, nodes_map@, links));
    assert(default_inputs@.drop_last() =~= old(default_inputs)@);
    assert(side_inputs@.drop_last() =~= old(side_inputs)@);
}

/// The blocks of a compiled circuit.
pub struct CompiledBlockInfo {
    /// The block that each node stands for, if any.
    pub blocks: Vec<Option<(BlockPos, Block)>>,
    /// The node that stands for the block at a position.
    pub pos_map: FxHashMap<(i32, i32, i32), usize>,
}

/// The place of each node of `order` in it.
pub open spec fn places_in(order: Seq<NodeIdx>) -> Map<NodeIdx, usize> {
    Map::new(|n: NodeIdx| order.contains(n), |n: NodeIdx| order.index_of(n) as usize)
}

/// The block that a node stands for.
pub open spec fn block_of(node: CompileNode, table: BlockTable) -> Option<(BlockPos, Block)> {
    match node.block {
        Some((pos, id)) => Some((pos, Block::listed(table, id))),
        None => None,
    }
}

/// The blocks that the nodes of `order` stand for.
pub open spec fn blocks_of(g: GraphView, order: Seq<NodeIdx>, table: BlockTable) -> Seq<
    Option<(BlockPos, Block)>,
> {
    order.map_values(|n: NodeIdx| block_of(g.nodes[n], table))
}

/// Whether a node stands for the block at a position.
pub open spec fn is_at(node: CompileNode, pos: BlockPos) -> bool {
    node.block is Some && (node.block->0).0 == pos
}

/// Whether the block at `i` stands at the position `key`.
pub open spec fn stands_at(
    blocks: Seq<Option<(BlockPos, Block)>>,
    i: int,
    key: (i32, i32, i32),
) -> bool {
    blocks[i] is Some && (blocks[i]->0).0.coordinates() == key
}

/// Whether `map` leads from each position at which a block stands to the last such block.
pub open spec fn locates(
    blocks: Seq<Option<(BlockPos, Block)>>,
    map: Map<(i32, i32, i32), usize>,
) -> bool {
    &&& forall|key: (i32, i32, i32)| #[trigger]
        map.contains_key(key) ==> map[key] < blocks.len() && stands_at(blocks, map[key] as int, key)
    &&& forall|i: int, key: (i32, i32, i32)|
        0 <= i < blocks.len() && #[trigger] stands_at(blocks, i, key) ==> map.contains_key(key)
            && i <= map[key]
}

/// The priority of a tick, as the shader knows it.
pub open spec fn lowered_priority(priority: world::TickPriority) -> TickPriority {
    match priority {
        world::TickPriority::Highest => TickPriority::Highest,
        world::TickPriority::Higher => TickPriority::Higher,
        world::TickPriority::High => TickPriority::High,
        world::TickPriority::Normal => TickPriority::Normal,
    }
}

/// The priority of a tick, as the shader knows it.
fn lower_priority(priority: world::TickPriority) -> (lowered: TickPriority)
    ensures
        lowered == lowered_priority(priority),
{
    match priority {
        world::TickPriority::Highest => TickPriority::Highest,
        world::TickPriority::Higher => TickPriority::Higher,
        world::TickPriority::High => TickPriority::High,
        world::TickPriority::Normal => TickPriority::Normal,
    }
}

/// The delays of the pending ticks of `count` nodes: a stretch for each priority, the
/// highest first, in which each node has its place.  A later tick replaces an earlier one
/// of the same node and priority; zero stands for none.
pub open spec fn delays(
    count: nat,
    map: Map<(i32, i32, i32), usize>,
    ticks: Seq<TickEntry>,
) -> Seq<u32>
    decreases ticks.len(),
{
    if ticks.len() == 0 {
        Seq::new(4 * count, |i: int| 0u32)
    } else {
        let earlier = delays(count, map, ticks.drop_last());
        let tick = ticks.last();
        let key = tick.pos.coordinates();
        if map.contains_key(key) {
            earlier.update(
                lowered_priority(tick.tick_priority).number() * count + map[key],
                tick.ticks_left,
            )
        } else {
            earlier
        }
    }
}

/// Whether `rows` are what the device is told about the links of each node of `order`.
pub open spec fn lowers_rows(
    g: GraphView,
    order: Seq<NodeIdx>,
    rows: Seq<Seq<ForwardLink>>,
) -> bool {
    rows.len() == order.len() && forall|i: int|
        0 <= i < rows.len() ==> lowers_links(g, order[i], places_in(order), #[trigger] rows[i])
            && rows[i].len() <= 255
}

/// Where each of `rows` stands when they are put one behind the other.
pub open spec fn row_places(rows: Seq<Seq<ForwardLink>>) -> Seq<NeighborInfo> {
    Seq::new(
        rows.len(),
        |i: int|
            NeighborInfo {
                count: rows[i].len() as u8,
                index: rows.take(i).flatten().len() as usize,
            },
    )
}

/// Whether `data` is what the device is told about the nodes of `order`.
pub open spec fn lowers(g: GraphView, order: Seq<NodeIdx>, data: CompilationData) -> bool {
    &&& data.node_count == order.len()
    &&& data.types@ == lowered_types(g, order)
    &&& data.states@ == order.map_values(|n: NodeIdx| lowered_state(g.nodes[n]))
    &&& exists|rows: Seq<Seq<ForwardLink>>| #[trigger]
        lowers_rows(g, order, rows) && data.neighbor_links@ == rows.flatten()
            && data.neighbor_info@ == row_places(rows)
    &&& counts_rows(g, order, LinkType::Default, data.default_inputs@)
    &&& counts_rows(g, order, LinkType::Side, data.side_inputs@)
}

/// Whether `rows` count the inputs of each node of `order`.
pub open spec fn counts_rows(
    g: GraphView,
    order: Seq<NodeIdx>,
    ty: LinkType,
    rows: Seq<[u32; 16]>,
) -> bool {
    rows.len() == order.len() && forall|i: int|
        0 <= i < rows.len() ==> counts_inputs(g, order[i], ty, (#[trigger] rows[i])@)
}

/// Whether the device can run the graph with these pending ticks: it can run each node,
/// and the place of each tick has a number.
pub open spec fn can_lower(g: GraphView, ticks: Seq<TickEntry>) -> bool {
    &&& forall|n: NodeIdx| #[trigger] g.nodes.contains_key(n) ==> can_lower_node(g, n)
    &&& 4 * g.nodes.len() <= usize::MAX
    &&& forall|k: int, n: NodeIdx|
        0 <= k < ticks.len() && #[trigger] g.nodes.contains_key(n) && is_at(
            g.nodes[n],
            (#[trigger] ticks[k]).pos,
        ) ==> lowered_priority(
            ticks[k].tick_priority,
        ).number() * g.nodes.len() <= u32::MAX
}

/// Creates a mapping from compile to backend node indices.
fn number_nodes(order: &Vec<NodeIdx>) -> (nodes_map: FxHashMap<NodeIdx, usize>)
    requires
        order@.no_duplicates(),
    ensures
        nodes_map@ == places_in(order@),
{
    let mut nodes_map: FxHashMap<NodeIdx, usize> = FxHashMap::default();
    let mut i: usize = 0;
    while i < order.len()
        invariant
            i <= order@.len(),
            order@.no_duplicates(),
            forall|n: NodeIdx| #[trigger]
                nodes_map@.contains_key(n) <==> order@.take(i as int).contains(n),
            forall|j: int| 0 <= j < i ==> nodes_map@[#[trigger] order@[j]] == j,
        decreases order@.len() - i,
    {
        maps::insert(&mut nodes_map, order[i], i);
        assert forall|n: NodeIdx| #[trigger] nodes_map@.contains_key(n) <==> order@.take(
            i + 1,
        ).contains(n) by {
            assert(order@.take(i + 1) =~= order@.take(i as int).push(order@[i as int]));
            assert(order@.take(i + 1)[i as int] == order@[i as int]);
            if order@.take(i as int).contains(n) {
                let j = order@.take(i as int).index_of(n);
                assert(order@.take(i + 1)[j] == n);
            }
        }
        i += 1;
    }
    proof {
        assert(order@.take(i as int) =~= order@);
        let places = places_in(order@);
        assert(nodes_map@.dom() =~= places.dom());
        assert forall|n: NodeIdx| places.contains_key(n) implies nodes_map@[n] == places[n] by {
            let j = order@.index_of(n);
            assert(nodes_map@[order@[j]] == j);
        }
        assert(nodes_map@ =~= places);
    }
    nodes_map
}

/// The blocks that the nodes of the graph stand for.
fn collect_blocks(graph: &CompileGraph, order: &Vec<NodeIdx>, table: &BlockTable) -> (blocks: Vec<
    Option<(BlockPos, Block)>,
>)
    requires
        ascends(contents(*graph), order@),
    ensures
        blocks@ == blocks_of(contents(*graph), order@, *table),
{
    let mut blocks: Vec<Option<(BlockPos, Block)>> = Vec::new();
    proof {
        lemma_ascends(contents(*graph), order@);
    }
    let mut i: usize = 0;
    while i < order.len()
        invariant
            i <= order@.len(),
            forall|j: int|
                0 <= j < order@.len() ==> contents(*graph).nodes.contains_key(
                    #[trigger] order@[j],
                ),
            blocks@ == blocks_of(contents(*graph), order@.take(i as int), *table),
        decreases order@.len() - i,
    {
        let block = match node(graph, order[i]).block {
            Some((pos, id)) => Some((pos, Block::from_id(table, id))),
            None => None,
        };
        blocks.push(block);
        i += 1;
        assert(blocks@ =~= blocks_of(contents(*graph), order@.take(i as int), *table));
    }
    assert(order@.take(i as int) =~= order@);
    blocks
}

/// Creates a mapping from block position to backend node index.
fn locate_blocks(blocks: &Vec<Option<(BlockPos, Block)>>) -> (pos_map: FxHashMap<
    (i32, i32, i32),
    usize,
>)
    ensures
        locates(blocks@, pos_map@),
{
    let mut pos_map: FxHashMap<(i32, i32, i32), usize> = FxHashMap::default();
    let mut i: usize = 0;
    while i < blocks.len()
        invariant
            i <= blocks@.len(),
            locates(blocks@.take(i as int), pos_map@),
        decreases blocks@.len() - i,
    {
        let ghost before = pos_map@;
        if let Some((pos, _)) = blocks[i] {
            maps::insert(&mut pos_map, pos.key(), i);
        }
        proof {
            let old_blocks = blocks@.take(i as int);
            let new_blocks = blocks@.take(i + 1);
            assert forall|key: (i32, i32, i32)| #[trigger] pos_map@.contains_key(key) implies {
                &&& pos_map@[key] < new_blocks.len()
                &&& stands_at(new_blocks, pos_map@[key] as int, key)
            } by {
                if before.contains_key(key) {
                    assert(stands_at(old_blocks, before[key] as int, key));
                }
            }
            assert forall|j: int, key: (i32, i32, i32)|
                0 <= j < new_blocks.len() && #[trigger] stands_at(
                    new_blocks,
                    j,
                    key,
                ) implies pos_map@.contains_key(key) && j <= pos_map@[key] by {
                if j < i {
                    assert(stands_at(old_blocks, j, key));
                }
            }
        }
        i += 1;
    }
    assert(blocks@.take(i as int) =~= blocks@);
    pos_map
}

/// The delays of the pending ticks.
fn place_ticks(
    nodes_len: usize,
    pos_map: &FxHashMap<(i32, i32, i32), usize>,
    ticks: &Vec<TickEntry>,
) -> (tick_delay: Vec<u32>)
    requires
        4 * nodes_len <= usize::MAX,
        nodes_len <= u32::MAX,
        forall|key: (i32, i32, i32)| #[trigger]
            pos_map@.contains_key(key) ==> pos_map@[key] < nodes_len,
        forall|k: int|
            0 <= k < ticks@.len() && pos_map@.contains_key(
                (#[trigger] ticks@[k]).pos.coordinates(),
            ) ==> lowered_priority(ticks@[k].tick_priority).number() * nodes_len <= u32::MAX,
    ensures
        tick_delay@ == delays(nodes_len as nat, pos_map@, ticks@),
{
    let mut tick_delay: Vec<u32> = vec![0u32;nodes_len * 4];
    let mut k: usize = 0;
    assert(tick_delay@ =~= delays(nodes_len as nat, pos_map@, ticks@.take(0)));
    while k < ticks.len()
        invariant
            k <= ticks@.len(),
            4 * nodes_len <= usize::MAX,
            nodes_len <= u32::MAX,
            tick_delay@.len() == 4 * nodes_len,
            forall|key: (i32, i32, i32)| #[trigger]
                pos_map@.contains_key(key) ==> pos_map@[key] < nodes_len,
            forall|j: int|
                0 <= j < ticks@.len() && pos_map@.contains_key(
                    (#[trigger] ticks@[j]).pos.coordinates(),
                ) ==> lowered_priority(ticks@[j].tick_priority).number() * nodes_len <= u32::MAX,
            tick_delay@ == delays(nodes_len as nat, pos_map@, ticks@.take(k as int)),
        decreases ticks@.len() - k,
    {
        let entry = ticks[k];
        assert(ticks@.take(k + 1).drop_last() =~= ticks@.take(k as int));
        assert(ticks@.take(k + 1).last() == entry);
        if let Some(place) = maps::get(pos_map, entry.pos.key()) {
            let priority = lower_priority(entry.tick_priority);
            assert(ticks@[k as int] == entry);
            assert(priority.number() * nodes_len <= 3 * nodes_len) by (nonlinear_arith)
                requires
                    priority.number() <= 3,
                    nodes_len >= 0,
            ;
            let priority_index: u32 = priority.code() * nodes_len as u32;
            tick_delay.set(priority_index as usize + *place, entry.ticks_left);
        }
        k += 1;
    }
    assert(ticks@.take(k as int) =~= ticks@);
    tick_delay
}

/// Lowers a graph with its pending ticks to what the device is given, and to what is
/// known about the blocks.
pub fn compile(
    graph: CompileGraph,
    ticks: Vec<TickEntry>,
    _options: &CompilerOptions,
    table: &BlockTable,
) -> (compiled: (CompilationData, CompiledBlockInfo))
    requires
        can_lower(contents(graph), ticks@),
    ensures
        exists|order: Seq<NodeIdx>| #[trigger]
            ascends(contents(graph), order) && lowers(contents(graph), order, compiled.0)
                && compiled.1.blocks@ == blocks_of(contents(graph), order, *table),
        locates(compiled.1.blocks@, compiled.1.pos_map@),
        compiled.0.tick_delay@ == delays(
            contents(graph).nodes.len(),
            compiled.1.pos_map@,
            ticks@,
        ),
{
    let ghost g = contents(graph);
    let nodes_len: usize = node_count(&graph);
    let order = node_indices(&graph);
    proof {
        lemma_ascends(g, order@);
    }
    let nodes_map = number_nodes(&order);

    let mut types: Vec<TypeInfo> = Vec::new();
    let mut neighbor_info: Vec<NeighborInfo> = Vec::new();
    let mut neighbor_links: Vec<ForwardLink> = Vec::new();
    let mut states: Vec<State> = Vec::new();
    let mut default_inputs: Vec<[u32; 16]> = Vec::new();
    let mut side_inputs: Vec<[u32; 16]> = Vec::new();

    let ghost mut rows = Seq::<Seq<ForwardLink>>::empty();
    assert(neighbor_links@ =~= rows.flatten());
    assert(neighbor_info@ =~= row_places(rows));
    assert(types@ =~= lowered_types(g, order@.take(0)));
    let mut i: usize = 0;
    while i < order.len()
        invariant
            i <= order@.len(),
            g == contents(graph),
            g.wf(),
            can_lower(g, ticks@),
            ascends(g, order@),
            nodes_map@ == places_in(order@),
            types@ == lowered_types(g, order@.take(i as int)),
            states@ == order@.take(i as int).map_values(|n: NodeIdx| lowered_state(g.nodes[n])),
            rows.len() == i,
            forall|j: int|
                0 <= j < i ==> lowers_links(g, order@[j], nodes_map@, #[trigger] rows[j])
                    && rows[j].len() <= 255,
            neighbor_links@ == rows.flatten(),
            neighbor_info@ == row_places(rows),
            default_inputs@.len() == i,
            forall|j: int|
                0 <= j < i ==> counts_inputs(
                    g,
                    order@[j],
                    LinkType::Default,
                    (#[trigger] default_inputs@[j])@,
                ),
            side_inputs@.len() == i,
            forall|j: int|
                0 <= j < i ==> counts_inputs(
                    g,
                    order@[j],
                    LinkType::Side,
                    (#[trigger] side_inputs@[j])@,
                ),
        decreases order@.len() - i,
    {
        let idx: NodeIdx = order[i];
        let ghost links_before = neighbor_links@;
        let ghost infos_before = neighbor_info@;
        let ghost defaults_before = default_inputs@;
        let ghost sides_before = side_inputs@;
        proof {
            assert(order@.contains(order@[i as int]));
            lemma_knows_targets(g, idx, nodes_map@);
        }
        compile_node(
            &graph,
            idx,
            &nodes_map,
            &mut types,
            &mut neighbor_info,
            &mut neighbor_links,
            &mut states,
            &mut default_inputs,
            &mut side_inputs,
        );
        proof {
            let links = choose|links: Seq<ForwardLink>| #[trigger]
                lowers_links(g, idx, nodes_map@, links) && links.len() <= 255 && neighbor_links@
                    == links_before + links && neighbor_info@ == infos_before.push(
                    NeighborInfo {
                        count: links.len() as u8,
                        index: links_before.len() as usize,
                    },
                );
            rows.lemma_flatten_push(links);
            let longer = rows.push(links);
            assert forall|j: int| 0 <= j < i implies #[trigger] row_places(longer)[j]
                == row_places(rows)[j] by {
                assert(longer.take(j) =~= rows.take(j));
            }
            assert(longer.take(i as int) =~= rows);
            assert(neighbor_info@ =~= row_places(longer));
            assert forall|j: int| 0 <= j < i implies #[trigger] default_inputs@[j]
                == defaults_before[j] by {
                assert(default_inputs@.drop_last()[j] == default_inputs@[j]);
            }
            assert forall|j: int| 0 <= j < i implies #[trigger] side_inputs@[j]
                == sides_before[j] by {
                assert(side_inputs@.drop_last()[j] == side_inputs@[j]);
            }
            rows = longer;
        }
        i += 1;
        assert(types@ =~= lowered_types(g, order@.take(i as int)));
        assert(states@ =~= order@.take(i as int).map_values(
            |n: NodeIdx| lowered_state(g.nodes[n]),
        ));
    }
    assert(order@.take(i as int) =~= order@);
    assert(lowers_rows(g, order@, rows));

    let blocks = collect_blocks(&graph, &order, table);
    let pos_map = locate_blocks(&blocks);
    proof {
        assert forall|k: int|
            0 <= k < ticks@.len() && pos_map@.contains_key(
                (#[trigger] ticks@[k]).pos.coordinates(),
            ) implies lowered_priority(ticks@[k].tick_priority).number() * nodes_len <= u32::MAX by {
            let key = ticks@[k].pos.coordinates();
            let place = pos_map@[key] as int;
            assert(stands_at(blocks@, place, key));
            assert(g.nodes.contains_key(order@[place]));
            assert(block_of(g.nodes[order@[place]], *table) == blocks@[place]);
        }
    }
    let tick_delay = place_ticks(nodes_len, &pos_map, &ticks);

    let compilation_data = CompilationData {
        node_count: nodes_len,
        types,
        neighbor_info,
        neighbor_links,
        states,
        default_inputs,
        side_inputs,
        tick_delay: boxed(tick_delay),
    };
    let block_info = CompiledBlockInfo { blocks, pos_map };
    assert(lowers(g, order@, compilation_data));
    (compilation_data, block_info)
}

/// How many links a node has on the device.
pub open spec fn link_count(g: GraphView, n: NodeIdx) -> nat {
    if g.nodes[n].ty == CNodeType::Constant {
        0
    } else {
        g.edges_of(n, Direction::Outgoing).len()
    }
}

/// How many links the nodes of `order` have on the device.
pub open spec fn link_total(g: GraphView, order: Seq<NodeIdx>) -> nat
    decreases order.len(),
{
    if order.len() == 0 {
        0
    } else {
        link_total(g, order.drop_last()) + link_count(g, order.last())
    }
}

/// The note blocks below one of them are fewer than those below a later one.
proof fn lemma_more_notes(g: GraphView, a: NodeIdx, bound: int)
    requires
        note_blocks(g).contains(a),
        a < bound,
    ensures
        notes_below(g, a as int).len() < notes_below(g, bound).len() <= note_blocks(g).len(),
{
    lemma_indices_finite(note_blocks(g));
    lemma_indices_finite(notes_below(g, a as int));
    lemma_indices_finite(notes_below(g, bound));
    let more = notes_below(g, a as int).insert(a);
    vstd::set_lib::lemma_len_subset(more, notes_below(g, bound));
    vstd::set_lib::lemma_len_subset(notes_below(g, bound), note_blocks(g));
}

/// Every note block goes by the number of those of a lower index, so that no two of them, if
/// there are no more than a byte can tell apart, go by the same.
pub proof fn law_note_blocks_are_told_apart(g: GraphView, a: NodeIdx, b: NodeIdx)
    requires
        note_blocks(g).len() <= 0x100,
        note_blocks(g).contains(a),
        note_blocks(g).contains(b),
        a != b,
    ensures
        lowered_type_of(g, a).ty == NodeType::NoteBlock,
        lowered_type_of(g, b).ty == NodeType::NoteBlock,
        lowered_type_of(g, a).data == notes_below(g, a as int).len(),
        lowered_type_of(g, b).data == notes_below(g, b as int).len(),
        lowered_type_of(g, a).data != lowered_type_of(g, b).data,
{
    lemma_more_notes(g, a, u32::MAX + 1);
    lemma_more_notes(g, b, u32::MAX + 1);
    if a < b {
        lemma_more_notes(g, a, b as int);
    } else {
        lemma_more_notes(g, b, a as int);
    }
}

/// The same in a compiled circuit: no two of its note blocks go by the same number.
pub proof fn law_compiled_note_blocks_are_told_apart(
    g: GraphView,
    order: Seq<NodeIdx>,
    data: CompilationData,
    i: int,
    j: int,
)
    requires
        ascends(g, order),
        lowers(g, order, data),
        note_blocks(g).len() <= 0x100,
        0 <= i < j < order.len(),
        g.nodes[order[i]].ty is NoteBlock,
        g.nodes[order[j]].ty is NoteBlock,
    ensures
        data.types@[i].ty == NodeType::NoteBlock,
        data.types@[j].ty == NodeType::NoteBlock,
        data.types@[i].data != data.types@[j].data,
{
    lemma_ascends(g, order);
    law_note_blocks_are_told_apart(g, order[i], order[j]);
}

/// The device is told about each link of a node once.
pub proof fn law_every_link_is_lowered(
    g: GraphView,
    n: NodeIdx,
    places: Map<NodeIdx, usize>,
    links: Seq<ForwardLink>,
)
    requires
        lowers_links(g, n, places, links),
    ensures
        links.len() == link_count(g, n),
{
    if g.nodes[n].ty != CNodeType::Constant {
        let leads = choose|leads: Seq<Lead>| #[trigger]
            arranges(leads_of(g, n, places), leads) && links == leads.map_values(
                lowered_link(places),
            );
        law_arranging_keeps_links(leads_of(g, n, places), leads);
    }
}

/// The rows of links, one behind the other, are as long as the nodes have links.
proof fn lemma_rows_len(g: GraphView, order: Seq<NodeIdx>, rows: Seq<Seq<ForwardLink>>, i: int)
    requires
        lowers_rows(g, order, rows),
        0 <= i <= rows.len(),
    ensures
        rows.take(i).flatten().len() == link_total(g, order.take(i)),
    decreases i,
{
    if i > 0 {
        lemma_rows_len(g, order, rows, i - 1);
        assert(rows.take(i) =~= rows.take(i - 1).push(rows[i - 1]));
        rows.take(i - 1).lemma_flatten_push(rows[i - 1]);
        law_every_link_is_lowered(g, order[i - 1], places_in(order), rows[i - 1]);
        assert(order.take(i).drop_last() =~= order.take(i - 1));
    } else {
        assert(rows.take(0) =~= Seq::empty());
    }
}

/// The link buffer is as long as the nodes have links.
pub proof fn lemma_link_buffer_len(g: GraphView, order: Seq<NodeIdx>, data: CompilationData)
    requires
        lowers(g, order, data),
    ensures
        data.neighbor_links@.len() == link_total(g, order),
{
    let rows = choose|rows: Seq<Seq<ForwardLink>>| #[trigger]
        lowers_rows(g, order, rows) && data.neighbor_links@ == rows.flatten()
            && data.neighbor_info@ == row_places(rows);
    lemma_rows_len(g, order, rows, rows.len() as int);
    assert(rows.take(rows.len() as int) =~= rows);
    assert(order.take(order.len() as int) =~= order);
}

/// The pending ticks take four words for each node.
proof fn lemma_delays_len(count: nat, map: Map<(i32, i32, i32), usize>, ticks: Seq<TickEntry>)
    requires
        forall|key: (i32, i32, i32)| #[trigger] map.contains_key(key) ==> map[key] < count,
    ensures
        delays(count, map, ticks).len() == 4 * count,
    decreases ticks.len(),
{
    if ticks.len() > 0 {
        lemma_delays_len(count, map, ticks.drop_last());
        let number = lowered_priority(ticks.last().tick_priority).number();
        assert(0 <= number * count <= 3 * count) by (nonlinear_arith)
            requires
                number <= 3,
                count >= 0,
        ;
    }
}

/// A compiled circuit fits into the buffers that are planned for it, and every node of
/// it finds its links inside the link buffer: they begin where those of the node before
/// it end.
pub proof fn law_compiled_circuit_fits(
    g: GraphView,
    order: Seq<NodeIdx>,
    data: CompilationData,
    table: BlockTable,
    map: Map<(i32, i32, i32), usize>,
    ticks: Seq<TickEntry>,
)
    requires
        lowers(g, order, data),
        locates(blocks_of(g, order, table), map),
        data.tick_delay@ == delays(order.len(), map, ticks),
        Pipelines::can_plan(data.node_count, data.neighbor_links@.len() as usize),
        data.neighbor_links@.len() <= usize::MAX,
    ensures
        data.neighbor_links@.len() == link_total(g, order),
        Pipelines::planned(data.node_count, data.neighbor_links@.len() as int).fits(data),
        forall|i: int|
            0 <= i < order.len() ==> {
                let info = #[trigger] data.neighbor_info@[i];
                &&& info.index == link_total(g, order.take(i))
                &&& info.count == link_count(g, order[i])
                &&& info.index + info.count <= data.neighbor_links@.len()
            },
{
    let rows = choose|rows: Seq<Seq<ForwardLink>>| #[trigger]
        lowers_rows(g, order, rows) && data.neighbor_links@ == rows.flatten()
            && data.neighbor_info@ == row_places(rows);
    lemma_rows_len(g, order, rows, rows.len() as int);
    assert(rows.take(rows.len() as int) =~= rows);
    assert(order.take(order.len() as int) =~= order);
    lemma_delays_len(order.len(), map, ticks);
    law_buffers_are_padded(data.node_count as int);
    law_buffers_are_padded(data.neighbor_links@.len() as int);
    assert forall|i: int| 0 <= i < order.len() implies {
        let info = #[trigger] data.neighbor_info@[i];
        &&& info.index == link_total(g, order.take(i))
        &&& info.count == link_count(g, order[i])
        &&& info.index + info.count <= data.neighbor_links@.len()
    } by {
        lemma_rows_len(g, order, rows, i);
        law_every_link_is_lowered(g, order[i], places_in(order), rows[i]);
        lemma_totals_grow(g, order, i);
    }
}

/// The links of some nodes and the next are no more than those of all.
proof fn lemma_totals_grow(g: GraphView, order: Seq<NodeIdx>, i: int)
    requires
        0 <= i < order.len(),
    ensures
        link_total(g, order.take(i)) + link_count(g, order[i]) <= link_total(g, order),
    decreases order.len(),
{
    if i == order.len() - 1 {
        assert(order.take(i) =~= order.drop_last());
    } else {
        lemma_totals_grow(g, order.drop_last(), i);
        assert(order.drop_last().take(i) =~= order.take(i));
    }
}

/// Every link of a compiled circuit leads to a node of it.
pub proof fn law_links_lead_to_nodes(g: GraphView, order: Seq<NodeIdx>, data: CompilationData)
    requires
        g.wf(),
        ascends(g, order),
        lowers(g, order, data),
    ensures
        forall|i: int|
            0 <= i < data.neighbor_links@.len() ==> (#[trigger] data.neighbor_links@[i]).node_index
                < data.node_count,
{
    let rows = choose|rows: Seq<Seq<ForwardLink>>| #[trigger]
        lowers_rows(g, order, rows) && data.neighbor_links@ == rows.flatten()
            && data.neighbor_info@ == row_places(rows);
    lemma_ascends(g, order);
    lemma_flat_links_inside(g, order, rows, rows.len() as int);
    assert(rows.take(rows.len() as int) =~= rows);
}

proof fn lemma_flat_links_inside(
    g: GraphView,
    order: Seq<NodeIdx>,
    rows: Seq<Seq<ForwardLink>>,
    k: int,
)
    requires
        g.wf(),
        ascends(g, order),
        order.len() <= usize::MAX,
        lowers_rows(g, order, rows),
        0 <= k <= rows.len(),
    ensures
        forall|i: int|
            0 <= i < rows.take(k).flatten().len() ==> (#[trigger] rows.take(
                k,
            ).flatten()[i]).node_index < order.len(),
    decreases k,
{
    if k > 0 {
        lemma_flat_links_inside(g, order, rows, k - 1);
        lemma_ascends(g, order);
        let row = rows[k - 1];
        let n = order[k - 1];
        let places = places_in(order);
        assert(rows.take(k) =~= rows.take(k - 1).push(row));
        rows.take(k - 1).lemma_flatten_push(row);
        assert(lowers_links(g, n, places, row));
        assert forall|j: int| 0 <= j < row.len() implies (#[trigger] row[j]).node_index
            < order.len() by {
            let leads = choose|leads: Seq<Lead>| #[trigger]
                arranges(leads_of(g, n, places), leads) && row == leads.map_values(
                    lowered_link(places),
                );
            law_arranging_keeps_links(leads_of(g, n, places), leads);
            lemma_lead_target(g, n, places, leads, j);
            let target = leads[j].edge.target;
            assert(order.contains(target));
            assert(places[target] == order.index_of(target));
        }
    } else {
        assert(rows.take(0) =~= Seq::empty());
    }
}

/// Whether the device can run the node.
fn can_compile_node(graph: &CompileGraph, node_idx: NodeIdx) -> (r: bool)
    requires
        contents(*graph).nodes.contains_key(node_idx),
    ensures
        r == can_lower_node(contents(*graph), node_idx),
{
    let weight = node(graph, node_idx);
    let known: bool = match weight.ty {
        CNodeType::Torch { invert } => invert,
        CNodeType::Chain { .. } => false,
        _ => true,
    };
    if !known || !are_inputs_in_range(graph, node_idx) {
        return false;
    }
    weight.ty == CNodeType::Constant || edges_directed(
        graph,
        node_idx,
        Direction::Outgoing,
    ).len() <= 255
}

/// Whether a tick is for one of the nodes of the graph.
fn is_for_node(graph: &CompileGraph, order: &Vec<NodeIdx>, tick: &TickEntry) -> (r: bool)
    requires
        ascends(contents(*graph), order@),
    ensures
        r <==> exists|n: NodeIdx| #[trigger]
            contents(*graph).nodes.contains_key(n) && is_at(contents(*graph).nodes[n], tick.pos),
{
    let ghost g = contents(*graph);
    proof {
        lemma_ascends(g, order@);
    }
    let mut i: usize = 0;
    while i < order.len()
        invariant
            i <= order@.len(),
            g == contents(*graph),
            forall|j: int| 0 <= j < order@.len() ==> g.nodes.contains_key(#[trigger] order@[j]),
            forall|j: int|
                0 <= j < i ==> !is_at(g.nodes[#[trigger] order@[j]], tick.pos),
        decreases order@.len() - i,
    {
        let idx: NodeIdx = order[i];
        assert(g.nodes.contains_key(order@[i as int]));
        if let Some((pos, _)) = node(graph, idx).block {
            if pos == tick.pos {
                assert(g.nodes.contains_key(idx));
                return true;
            }
        }
        i += 1;
    }
    assert forall|n: NodeIdx| #[trigger] g.nodes.contains_key(n) implies !is_at(
        g.nodes[n],
        tick.pos,
    ) by {
        assert(order@.contains(n));
        let j = order@.index_of(n);
        assert(order@[j] == n);
    }
    false
}

/// Whether the device can run the graph with these pending ticks.
pub fn can_compile(graph: &CompileGraph, ticks: &Vec<TickEntry>) -> (r: bool)
    ensures
        r == can_lower(contents(*graph), ticks@),
{
    let ghost g = contents(*graph);
    let nodes_len: usize = node_count(graph);
    let order = node_indices(graph);
    proof {
        lemma_ascends(g, order@);
    }
    if nodes_len > usize::MAX / 4 {
        return false;
    }
    let mut i: usize = 0;
    while i < order.len()
        invariant
            i <= order@.len(),
            g == contents(*graph),
            forall|j: int| 0 <= j < order@.len() ==> g.nodes.contains_key(#[trigger] order@[j]),
            forall|j: int| 0 <= j < i ==> can_lower_node(g, #[trigger] order@[j]),
        decreases order@.len() - i,
    {
        assert(g.nodes.contains_key(order@[i as int]));
        if !can_compile_node(graph, order[i]) {
            return false;
        }
        i += 1;
    }
    assert forall|n: NodeIdx| #[trigger] g.nodes.contains_key(n) implies can_lower_node(g, n) by {
        assert(order@.contains(n));
        let j = order@.index_of(n);
        assert(order@[j] == n);
    }
    let mut k: usize = 0;
    while k < ticks.len()
        invariant
            k <= ticks@.len(),
            g == contents(*graph),
            nodes_len == g.nodes.len() <= u32::MAX,
            ascends(g, order@),
            forall|m: int, n: NodeIdx|
                0 <= m < k && #[trigger] g.nodes.contains_key(n) && is_at(
                    g.nodes[n],
                    (#[trigger] ticks@[m]).pos,
                ) ==> lowered_priority(
                    ticks@[m].tick_priority,
                ).number() * g.nodes.len() <= u32::MAX,
        decreases ticks@.len() - k,
    {
        let entry = ticks[k];
        let priority = lower_priority(entry.tick_priority);
        assert(priority.number() * nodes_len <= 3 * nodes_len) by (nonlinear_arith)
            requires
                priority.number() <= 3,
                nodes_len >= 0,
        ;
        if priority.code() as u64 * nodes_len as u64 > u32::MAX as u64 && is_for_node(
            graph,
            &order,
            &entry,
        ) {
            assert(ticks@[k as int] == entry);
            return false;
        }
        k += 1;
    }
    true
}

/// How many links the nodes of the graph have on the device.
pub fn count_links(graph: &CompileGraph, order: &Vec<NodeIdx>) -> (count: u128)
    requires
        ascends(contents(*graph), order@),
        order@.len() <= u32::MAX,
    ensures
        count == link_total(contents(*graph), order@),
        count <= u64::MAX,
{
    let ghost g = contents(*graph);
    proof {
        lemma_ascends(g, order@);
    }
    let mut count: u128 = 0;
    let mut i: usize = 0;
    while i < order.len()
        invariant
            i <= order@.len() <= u32::MAX,
            g == contents(*graph),
            forall|j: int| 0 <= j < order@.len() ==> g.nodes.contains_key(#[trigger] order@[j]),
            count == link_total(g, order@.take(i as int)),
            count <= i * u32::MAX,
        decreases order@.len() - i,
    {
        let idx: NodeIdx = order[i];
        assert(g.nodes.contains_key(order@[i as int]));
        assert(order@.take(i + 1).drop_last() =~= order@.take(i as int));
        assert(order@.take(i + 1).last() == order@[i as int]);
        assert(i * u32::MAX + u32::MAX == (i + 1) * u32::MAX) by (nonlinear_arith);
        assert(i * u32::MAX <= u32::MAX * u32::MAX) by (nonlinear_arith)
            requires
                0 <= i <= u32::MAX,
        ;
        if node(graph, idx).ty != CNodeType::Constant {
            count += edges_directed(graph, idx, Direction::Outgoing).len() as u128;
        }
        i += 1;
    }
    assert(order@.take(i as int) =~= order@);
    assert(i * u32::MAX <= u32::MAX * u32::MAX) by (nonlinear_arith)
        requires
            0 <= i <= u32::MAX,
    ;
    count
}

} // verus!
