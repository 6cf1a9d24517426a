//! What a call that compiles a graph for the device makes of each component, told by the graph
//! and by what the device is given.

use vstd::prelude::*;

use crate::backend::gpu::compile::{
    blocks_of, can_lower, can_lower_node, compile, delays, leads_of, locates, lowered_link,
    lowered_priority, lowers, lowers_links, lowers_rows, notes_below, places_in, row_places,
    stands_at, CompiledBlockInfo,
};
use crate::backend::gpu::pipelines::CompilationData;
use crate::backend::gpu::shader_types::{ForwardLink, NodeType, State, TypeInfo};
use crate::backend::inputs::{edges_bringing, law_inputs_are_counted_by_edges, lemma_filter_ids};
use crate::backend::links::{arranges, lemma_arranged_count, Lead};
use crate::compile_graph::{CompileGraph, CompileNode, LinkType, NodeIdx, NodeType as CNodeType};
use crate::graph::{
    ascends, contents, lemma_ascends, lemma_ascends_unique, Direction, Edge, EdgeIdx, GraphView,
};
use crate::options::CompilerOptions;
use crate::world::{BlockTable, TickEntry, TickPriority};

verus! {

/// The note blocks of `g` of a lower index than `n`.
pub open spec fn earlier_note_blocks(g: GraphView, n: NodeIdx) -> Set<NodeIdx> {
    Set::new(|m: NodeIdx| m < n && g.nodes.contains_key(m) && g.nodes[m].ty is NoteBlock)
}

/// Whether the device is told the kind of a component and the settings that it has.  A note
/// block goes by the number of those before it, as far as that fits a byte.
pub open spec fn tells_kind(g: GraphView, n: NodeIdx, info: TypeInfo) -> bool {
    let ty = g.nodes[n].ty;
    &&& ty is Repeater ==> info.ty is Repeater && info.data == ty->Repeater_delay
        && info.facing_diode == ty->Repeater_facing_diode
    &&& ty is Torch ==> info.ty is Torch
    &&& ty is Comparator ==> {
        &&& info.ty is Comparator
        &&& ty->Comparator_mode is Subtract ==> info.data == 1
        &&& ty->Comparator_mode is Compare ==> info.data == 0
        &&& info.facing_diode == ty->Comparator_facing_diode
        &&& ty->far_input is Some ==> info.far_input == ty->far_input->0
        &&& ty->far_input is None ==> info.far_input == 255
    }
    &&& ty is Lamp ==> info.ty is Lamp
    &&& ty is Button ==> info.ty is Button
    &&& ty is Lever ==> info.ty is Lever
    &&& ty is PressurePlate ==> info.ty is PressurePlate
    &&& ty is Trapdoor ==> info.ty is Trapdoor
    &&& ty is Wire ==> info.ty is Wire
    &&& ty is Constant ==> info.ty is Constant
    &&& ty is NoteBlock ==> info.ty is NoteBlock && info.data == earlier_note_blocks(g, n).len()
        % 256
    &&& !(ty is Repeater || ty is Comparator || ty is NoteBlock) ==> info.data == 0
    &&& !(ty is Repeater || ty is Comparator) ==> !info.facing_diode
    &&& !(ty is Comparator) ==> info.far_input == 0
}

/// Whether the device is told the state of a component: its output if it has one, else the full
/// one if it is powered.  Nothing has changed yet.
pub open spec fn tells_state(node: CompileNode, state: State) -> bool {
    &&& node.state.output_strength > 0 ==> state.output_strength == node.state.output_strength
    &&& node.state.output_strength == 0 && node.state.powered ==> state.output_strength == 15
    &&& node.state.output_strength == 0 && !node.state.powered ==> state.output_strength == 0
    &&& state.repeater_locked == node.state.repeater_locked
    &&& !state.changed
}

/// The edges from `n` that the device knows as `link`.
pub open spec fn edges_known_as(
    g: GraphView,
    order: Seq<NodeIdx>,
    n: NodeIdx,
    link: ForwardLink,
) -> Set<EdgeIdx> {
    Set::new(
        |id: EdgeIdx|
            {
                let edge = g.edges[id];
                &&& g.edges.contains_key(id)
                &&& edge.source == n
                &&& link.distance == edge.link.ss
                &&& link.is_side <==> edge.link.ty == LinkType::Side
                &&& link.node_index == order.index_of(edge.target)
            },
    )
}

/// Whether a link is `link`.
pub open spec fn is_link(link: ForwardLink) -> spec_fn(ForwardLink) -> bool {
    |other: ForwardLink| other == link
}

/// How many times `link` occurs in `links`.
pub open spec fn times(links: Seq<ForwardLink>, link: ForwardLink) -> nat {
    links.filter(is_link(link)).len()
}

/// The links of the node at `i`.
pub open spec fn links_of(data: CompilationData, i: int) -> Seq<ForwardLink> {
    let info = data.neighbor_info@[i];
    data.neighbor_links@.subrange(info.index as int, info.index + info.count)
}

/// Whether the device is told about the component at `i` of `order`: its kind and state, its
/// inputs, each counted under the strength that arrives over it, and its edges, each once, but
/// for those of constants.
pub open spec fn tells(g: GraphView, order: Seq<NodeIdx>, data: CompilationData, i: int) -> bool {
    let n = order[i];
    &&& tells_kind(g, n, data.types@[i])
    &&& tells_state(g.nodes[n], data.states@[i])
    &&& forall|ss: int|
        0 <= ss < 16 ==> #[trigger] data.default_inputs@[i]@[ss] == edges_bringing(
            g,
            n,
            LinkType::Default,
            ss,
        ).len()
    &&& forall|ss: int|
        0 <= ss < 16 ==> #[trigger] data.side_inputs@[i]@[ss] == edges_bringing(
            g,
            n,
            LinkType::Side,
            ss,
        ).len()
    &&& data.neighbor_info@[i].index + data.neighbor_info@[i].count <= data.neighbor_links@.len()
    &&& g.nodes[n].ty == CNodeType::Constant ==> data.neighbor_info@[i].count == 0
    &&& g.nodes[n].ty != CNodeType::Constant ==> forall|link: ForwardLink| #[trigger]
        times(links_of(data, i), link) == edges_known_as(g, order, n, link).len()
}

/// The lead of an edge.
spec fn lead_of(g: GraphView, order: Seq<NodeIdx>) -> spec_fn(Edge) -> Lead {
    |edge: Edge|
        Lead {
            rank: places_in(order)[edge.target] as u64,
            kind: g.nodes[edge.target].ty.kind(),
            edge,
        }
}

/// The device knows as many edges as a link as there are that are one.
proof fn lemma_links_count(
    g: GraphView,
    order: Seq<NodeIdx>,
    n: NodeIdx,
    links: Seq<ForwardLink>,
    link: ForwardLink,
)
    requires
        g.wf(),
        ascends(g, order),
        order.len() <= u32::MAX,
        g.nodes.contains_key(n),
        g.nodes[n].ty != CNodeType::Constant,
        lowers_links(g, n, places_in(order), links),
    ensures
        times(links, link) == edges_known_as(g, order, n, link).len(),
{
    let places = places_in(order);
    let list = g.edges_of(n, Direction::Outgoing);
    let f = lead_of(g, order);
    assert(leads_of(g, n, places) =~= list.map_values(f));
    let leads = choose|leads: Seq<Lead>| #[trigger]
        arranges(leads_of(g, n, places), leads) && links == leads.map_values(lowered_link(places));
    let h = lowered_link(places);
    let q = is_link(link);
    let p = |edge: Edge| q(h(f(edge)));
    lemma_arranged_count(list, f, leads, h, q, p);
    assert(g.lists_edges(n, Direction::Outgoing, g.outgoing[n]));
    assert forall|id: EdgeIdx| #[trigger]
        edges_known_as(g, order, n, link).contains(id) <==> g.edges.contains_key(id)
            && g.edges[id].end(Direction::Outgoing) == n && p(g.edges[id]) by {
        if g.edges.contains_key(id) && g.edges[id].source == n {
            assert(g.nodes.contains_key(g.edges[id].target));
            assert(order.contains(g.edges[id].target));
        }
    }
    lemma_filter_ids(g, n, Direction::Outgoing, list, p, edges_known_as(g, order, n, link));
}

/// The links of a node are those of its row.
proof fn lemma_row(rows: Seq<Seq<ForwardLink>>, i: int)
    requires
        0 <= i < rows.len(),
    ensures
        rows.take(i).flatten().len() + rows[i].len() <= rows.flatten().len(),
        rows.flatten().subrange(
            rows.take(i).flatten().len() as int,
            (rows.take(i).flatten().len() + rows[i].len()) as int,
        ) == rows[i],
    decreases rows.len(),
{
    let rest = rows.drop_last();
    assert(rest.push(rows.last()) =~= rows);
    rest.lemma_flatten_push(rows.last());
    if i < rest.len() {
        lemma_row(rest, i);
        assert(rest.take(i) =~= rows.take(i));
        assert(rows.flatten().subrange(
            rows.take(i).flatten().len() as int,
            (rows.take(i).flatten().len() + rows[i].len()) as int,
        ) =~= rest.flatten().subrange(
            rest.take(i).flatten().len() as int,
            (rest.take(i).flatten().len() + rest[i].len()) as int,
        ));
    } else {
        assert(rows.take(i) =~= rest);
        assert(rows.flatten().subrange(
            rest.flatten().len() as int,
            (rest.flatten().len() + rows[i].len()) as int,
        ) =~= rows[i]);
    }
}

/// The links that stand for a node are those that it is lowered to.
pub proof fn lemma_row_of(g: GraphView, order: Seq<NodeIdx>, data: CompilationData, i: int)
    requires
        lowers(g, order, data),
        0 <= i < order.len(),
    ensures
        lowers_links(g, order[i], places_in(order), links_of(data, i)),
{
    let rows = choose|rows: Seq<Seq<ForwardLink>>| #[trigger]
        lowers_rows(g, order, rows) && data.neighbor_links@ == rows.flatten()
            && data.neighbor_info@ == row_places(rows);
    lemma_row(rows, i);
    assert(data.neighbor_links.len() == data.neighbor_links@.len());
    assert(lowers_links(g, order[i], places_in(order), rows[i]));
    assert(links_of(data, i) == rows[i]);
}

/// What the device is told about a component.
pub proof fn lemma_tells(g: GraphView, order: Seq<NodeIdx>, data: CompilationData, i: int)
    requires
        g.wf(),
        ascends(g, order),
        order.len() <= u32::MAX,
        forall|n: NodeIdx| #[trigger] g.nodes.contains_key(n) ==> can_lower_node(g, n),
        lowers(g, order, data),
        0 <= i < order.len(),
    ensures
        tells(g, order, data, i),
        data.types@.len() == order.len(),
        data.states@.len() == order.len(),
        data.neighbor_info@.len() == order.len(),
        data.default_inputs@.len() == order.len(),
        data.side_inputs@.len() == order.len(),
        i == 0 ==> data.neighbor_info@[i].index == 0,
        i > 0 ==> data.neighbor_info@[i].index == data.neighbor_info@[i - 1].index
            + data.neighbor_info@[i - 1].count,
        i == order.len() - 1 ==> data.neighbor_info@[i].index + data.neighbor_info@[i].count
            == data.neighbor_links@.len(),
{
    let n = order[i];
    lemma_ascends(g, order);
    assert(g.nodes.contains_key(n));
    let rows = choose|rows: Seq<Seq<ForwardLink>>| #[trigger]
        lowers_rows(g, order, rows) && data.neighbor_links@ == rows.flatten()
            && data.neighbor_info@ == row_places(rows);
    lemma_row(rows, i);
    assert(lowers_links(g, order[i], places_in(order), rows[i]));
    assert(data.neighbor_links.len() == data.neighbor_links@.len());
    assert(links_of(data, i) == rows[i]);
    if i == 0 {
        assert(rows.take(0) =~= Seq::empty());
    } else {
        lemma_row(rows, i - 1);
        assert(lowers_links(g, order[i - 1], places_in(order), rows[i - 1]));
        assert(rows.take(i) =~= rows.take(i - 1).push(rows[i - 1]));
        rows.take(i - 1).lemma_flatten_push(rows[i - 1]);
    }
    if i == order.len() - 1 {
        assert(rows =~= rows.take(i).push(rows[i]));
        rows.take(i).lemma_flatten_push(rows[i]);
    }
    assert(notes_below(g, n as int) =~= earlier_note_blocks(g, n));
    assert(tells_kind(g, n, data.types@[i]));
    assert(tells_state(g.nodes[n], data.states@[i]));
    assert forall|ss: int| 0 <= ss < 16 implies #[trigger] data.default_inputs@[i]@[ss]
        == edges_bringing(g, n, LinkType::Default, ss).len() by {
        law_inputs_are_counted_by_edges(g, n, LinkType::Default, ss);
    }
    assert forall|ss: int| 0 <= ss < 16 implies #[trigger] data.side_inputs@[i]@[ss]
        == edges_bringing(g, n, LinkType::Side, ss).len() by {
        law_inputs_are_counted_by_edges(g, n, LinkType::Side, ss);
    }
    if g.nodes[n].ty != CNodeType::Constant {
        assert forall|link: ForwardLink| #[trigger]
            times(links_of(data, i), link) == edges_known_as(g, order, n, link).len() by {
            lemma_links_count(g, order, n, rows[i], link);
        }
    }
}

/// The device is told about every component, in the order of the graph: its kind, its settings
/// and its state, its inputs, and where its links stand, one node after the other.
pub proof fn law_device_is_told_about_components(
    graph: CompileGraph,
    ticks: Vec<TickEntry>,
    options: CompilerOptions,
    table: BlockTable,
    compiled: (CompilationData, CompiledBlockInfo),
    order: Seq<NodeIdx>,
    i: int,
)
    requires
        contents(graph).wf(),
        contents(graph).nodes.len() <= u32::MAX,
        ascends(contents(graph), order),
        can_lower(contents(graph), ticks@),
        call_ensures(compile, (graph, ticks, &options, &table), compiled),
        0 <= i < order.len(),
    ensures
        tells(contents(graph), order, compiled.0, i),
        compiled.0.node_count == order.len(),
        compiled.0.types@.len() == order.len(),
        compiled.0.states@.len() == order.len(),
        compiled.0.neighbor_info@.len() == order.len(),
        compiled.0.default_inputs@.len() == order.len(),
        compiled.0.side_inputs@.len() == order.len(),
        i == 0 ==> compiled.0.neighbor_info@[i].index == 0,
        i > 0 ==> compiled.0.neighbor_info@[i].index == compiled.0.neighbor_info@[i - 1].index
            + compiled.0.neighbor_info@[i - 1].count,
        i == order.len() - 1 ==> compiled.0.neighbor_info@[i].index
            + compiled.0.neighbor_info@[i].count == compiled.0.neighbor_links@.len(),
{
    let g = contents(graph);
    lemma_ascends(g, order);
    lemma_order(graph, ticks, options, table, compiled, order);
    lemma_tells(g, order, compiled.0, i);
}

/// What a call of compile says, in the order of the graph.
pub proof fn lemma_order(
    graph: CompileGraph,
    ticks: Vec<TickEntry>,
    options: CompilerOptions,
    table: BlockTable,
    compiled: (CompilationData, CompiledBlockInfo),
    order: Seq<NodeIdx>,
)
    requires
        ascends(contents(graph), order),
        call_ensures(compile, (graph, ticks, &options, &table), compiled),
    ensures
        lowers(contents(graph), order, compiled.0),
        compiled.1.blocks@ == blocks_of(contents(graph), order, table),
        locates(compiled.1.blocks@, compiled.1.pos_map@),
        compiled.0.tick_delay@ == delays(
            contents(graph).nodes.len(),
            compiled.1.pos_map@,
            ticks@,
        ),
{
    let g = contents(graph);
    let other = choose|other: Seq<NodeIdx>| #[trigger]
        ascends(g, other) && lowers(g, other, compiled.0) && compiled.1.blocks@ == blocks_of(
            g,
            other,
            table,
        );
    lemma_ascends_unique(g, order, other);
}

/// Every node whose output in the graph is above zero puts out as much on the device; and what
/// the loss on an edge from it leaves of that is the strength under which the node at the end
/// of the edge counts it.
pub proof fn law_device_outputs_arrive_as_counted(
    graph: CompileGraph,
    ticks: Vec<TickEntry>,
    options: CompilerOptions,
    table: BlockTable,
    compiled: (CompilationData, CompiledBlockInfo),
    order: Seq<NodeIdx>,
    id: EdgeIdx,
    ss: int,
)
    requires
        contents(graph).wf(),
        contents(graph).nodes.len() <= u32::MAX,
        ascends(contents(graph), order),
        can_lower(contents(graph), ticks@),
        call_ensures(compile, (graph, ticks, &options, &table), compiled),
        contents(graph).edges.contains_key(id),
        contents(graph).nodes[contents(graph).edges[id].source].state.output_strength > 0,
        ({
            let edge = contents(graph).edges[id];
            let state = compiled.0.states@[order.index_of(edge.source)];
            ss == if state.output_strength >= edge.link.ss {
                state.output_strength - edge.link.ss
            } else {
                0
            }
        }),
    ensures
        ({
            let g = contents(graph);
            let edge = g.edges[id];
            let state = compiled.0.states@[order.index_of(edge.source)];
            let target = order.index_of(edge.target);
            &&& state.output_strength == g.nodes[edge.source].state.output_strength
            &&& edges_bringing(g, edge.target, edge.link.ty, ss).contains(id)
            &&& 0 <= ss < 16 && edge.link.ty == LinkType::Default
                ==> compiled.0.default_inputs@[target]@[ss] == edges_bringing(
                g,
                edge.target,
                LinkType::Default,
                ss,
            ).len()
            &&& 0 <= ss < 16 && edge.link.ty == LinkType::Side
                ==> compiled.0.side_inputs@[target]@[ss] == edges_bringing(
                g,
                edge.target,
                LinkType::Side,
                ss,
            ).len()
        }),
{
    let g = contents(graph);
    let edge = g.edges[id];
    lemma_ascends(g, order);
    assert(g.nodes.contains_key(edge.source));
    assert(g.nodes.contains_key(edge.target));
    assert(order.contains(edge.source));
    assert(order.contains(edge.target));
    let s = order.index_of(edge.source);
    let t = order.index_of(edge.target);
    law_device_is_told_about_components(graph, ticks, options, table, compiled, order, s);
    law_device_is_told_about_components(graph, ticks, options, table, compiled, order, t);
}

/// The blocks of the nodes are known in the order of the graph, with what the table has under
/// their numbers, and a position leads to the last node that stands for a block there.
pub proof fn law_device_blocks_are_known(
    graph: CompileGraph,
    ticks: Vec<TickEntry>,
    options: CompilerOptions,
    table: BlockTable,
    compiled: (CompilationData, CompiledBlockInfo),
    order: Seq<NodeIdx>,
    i: int,
)
    requires
        ascends(contents(graph), order),
        call_ensures(compile, (graph, ticks, &options, &table), compiled),
        0 <= i < order.len(),
    ensures
        compiled.1.blocks@.len() == order.len(),
        ({
            let component = contents(graph).nodes[order[i]];
            let entry = compiled.1.blocks@[i];
            &&& entry is Some <==> component.block is Some
            &&& component.block is Some ==> {
                let (pos, id) = component.block->0;
                let block = (entry->0).1;
                let at = (pos.x, pos.y, pos.z);
                &&& (entry->0).0 == pos
                &&& block.id == id
                &&& id < table.blocks@.len() ==> block.powered == table.blocks@[id as int].powered
                    && block.power == table.blocks@[id as int].power && block.locked
                    == table.blocks@[id as int].locked
                &&& id >= table.blocks@.len() ==> block.powered is None && block.power is None
                    && block.locked is None
                &&& compiled.1.pos_map@.contains_key(at)
                &&& compiled.1.pos_map@[at] >= i
            }
        }),
        forall|at: (i32, i32, i32)| #[trigger]
            compiled.1.pos_map@.contains_key(at) ==> {
                let j = compiled.1.pos_map@[at] as int;
                &&& 0 <= j < order.len()
                &&& contents(graph).nodes[order[j]].block is Some
                &&& ({
                    let pos = (contents(graph).nodes[order[j]].block->0).0;
                    (pos.x, pos.y, pos.z) == at
                })
            },
{
    lemma_order(graph, ticks, options, table, compiled, order);
    let g = contents(graph);
    let blocks = compiled.1.blocks@;
    if g.nodes[order[i]].block is Some {
        let pos = (g.nodes[order[i]].block->0).0;
        assert(stands_at(blocks, i, (pos.x, pos.y, pos.z)));
    }
    assert forall|at: (i32, i32, i32)| #[trigger]
        compiled.1.pos_map@.contains_key(at) implies ({
        let j = compiled.1.pos_map@[at] as int;
        &&& 0 <= j < order.len()
        &&& g.nodes[order[j]].block is Some
        &&& ({
            let pos = (g.nodes[order[j]].block->0).0;
            (pos.x, pos.y, pos.z) == at
        })
    }) by {
        assert(stands_at(blocks, compiled.1.pos_map@[at] as int, at));
    }
}

/// The stretch of the delays that a priority has: the highest comes first.
pub open spec fn stretch(priority: TickPriority) -> int {
    if priority is Highest {
        0
    } else if priority is Higher {
        1
    } else if priority is High {
        2
    } else {
        3
    }
}

/// Whether a tick is for the node at `i`, with a priority.
pub open spec fn is_for(
    tick: TickEntry,
    map: Map<(i32, i32, i32), usize>,
    i: int,
    priority: TickPriority,
) -> bool {
    let at = (tick.pos.x, tick.pos.y, tick.pos.z);
    map.contains_key(at) && map[at] == i && tick.tick_priority == priority
}

/// Whether `delay` is that of the last of the first `n` ticks for a node and a priority, or
/// zero if there is none.
pub open spec fn is_last_delay(
    ticks: Seq<TickEntry>,
    n: int,
    map: Map<(i32, i32, i32), usize>,
    i: int,
    priority: TickPriority,
    delay: u32,
) -> bool {
    ||| exists|k: int|
        0 <= k < n && is_for(#[trigger] ticks[k], map, i, priority) && delay == ticks[k].ticks_left
            && forall|m: int| k < m < n ==> !is_for(#[trigger] ticks[m], map, i, priority)
    ||| delay == 0 && forall|m: int| 0 <= m < n ==> !is_for(#[trigger] ticks[m], map, i, priority)
}

proof fn lemma_delays(
    count: nat,
    map: Map<(i32, i32, i32), usize>,
    ticks: Seq<TickEntry>,
    n: int,
    i: int,
    priority: TickPriority,
)
    requires
        0 <= n <= ticks.len(),
        0 <= i < count,
        forall|at: (i32, i32, i32)| #[trigger] map.contains_key(at) ==> map[at] < count,
    ensures
        delays(count, map, ticks.take(n)).len() == 4 * count,
        0 <= stretch(priority) * count + i < 4 * count,
        is_last_delay(
            ticks,
            n,
            map,
            i,
            priority,
            delays(count, map, ticks.take(n))[stretch(priority) * count + i],
        ),
    decreases n,
{
    assert(0 <= stretch(priority) * count + i < 4 * count) by (nonlinear_arith)
        requires
            0 <= stretch(priority) <= 3,
            0 <= i < count,
    ;
    if n > 0 {
        lemma_delays(count, map, ticks, n - 1, i, priority);
        let part = ticks.take(n);
        assert(part.drop_last() =~= ticks.take(n - 1));
        let tick = ticks[n - 1];
        assert(part.last() == tick);
        let at = (tick.pos.x, tick.pos.y, tick.pos.z);
        let earlier = delays(count, map, ticks.take(n - 1));
        let now = delays(count, map, part);
        let spot = stretch(priority) * count + i;
        if map.contains_key(at) {
            let q = stretch(tick.tick_priority);
            let j = map[at] as int;
            assert(lowered_priority(tick.tick_priority).number() == q);
            assert(0 <= q * count + j < 4 * count) by (nonlinear_arith)
                requires
                    0 <= q <= 3,
                    0 <= j < count,
            ;
            assert(q * count + j == stretch(priority) * count + i <==> q == stretch(priority) && j
                == i) by (nonlinear_arith)
                requires
                    0 <= q <= 3,
                    0 <= stretch(priority) <= 3,
                    0 <= j < count,
                    0 <= i < count,
            ;
            assert(now == earlier.update(q * count + j, tick.ticks_left));
            assert(q == stretch(priority) <==> tick.tick_priority == priority);
        }
        if is_for(tick, map, i, priority) {
            assert(is_for(ticks[n - 1], map, i, priority));
            assert(now[spot] == tick.ticks_left);
        } else {
            assert(now[spot] == earlier[spot]);
            if exists|k: int|
                0 <= k < n - 1 && is_for(#[trigger] ticks[k], map, i, priority) && earlier[spot]
                    == ticks[k].ticks_left && forall|m: int|
                    k < m < n - 1 ==> !is_for(#[trigger] ticks[m], map, i, priority) {
                let k = choose|k: int|
                    0 <= k < n - 1 && is_for(#[trigger] ticks[k], map, i, priority)
                        && earlier[spot] == ticks[k].ticks_left && forall|m: int|
                        k < m < n - 1 ==> !is_for(#[trigger] ticks[m], map, i, priority);
                assert(is_for(ticks[k], map, i, priority));
            }
        }
    } else {
        assert(ticks.take(0) =~= Seq::empty());
    }
}

/// The device is told, for each priority and node, how long the last pending tick has left, and
/// zero where there is none: first for the highest priority, last for the normal one.
pub proof fn law_device_is_told_about_ticks(
    graph: CompileGraph,
    ticks: Vec<TickEntry>,
    options: CompilerOptions,
    table: BlockTable,
    compiled: (CompilationData, CompiledBlockInfo),
    order: Seq<NodeIdx>,
    i: int,
    priority: TickPriority,
)
    requires
        ascends(contents(graph), order),
        call_ensures(compile, (graph, ticks, &options, &table), compiled),
        0 <= i < order.len(),
    ensures
        compiled.0.tick_delay@.len() == 4 * order.len(),
        is_last_delay(
            ticks@,
            ticks@.len() as int,
            compiled.1.pos_map@,
            i,
            priority,
            compiled.0.tick_delay@[stretch(priority) * order.len() + i],
        ),
{
    lemma_order(graph, ticks, options, table, compiled, order);
    let g = contents(graph);
    lemma_ascends(g, order);
    assert(ticks@.take(ticks@.len() as int) =~= ticks@);
    lemma_delays(
        order.len(),
        compiled.1.pos_map@,
        ticks@,
        ticks@.len() as int,
        i,
        priority,
    );
}

} // verus!
