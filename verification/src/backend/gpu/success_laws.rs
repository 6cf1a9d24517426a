//! Which circuits the device can run, and in which order it follows their links.

use vstd::prelude::*;

use crate::backend::direct::partitioned::success_laws::{is_followed, same_kind};
use crate::backend::gpu::compile::{
    can_compile, can_lower_node, compile, count_links, is_at, leads_of, link_count, link_total,
    lowered_link, lowered_priority, lowers_links, places_in, type_info, CompiledBlockInfo,
};
use crate::backend::gpu::device_laws::{lemma_order, lemma_row_of, links_of};
use crate::backend::gpu::pipelines::{CompilationData, Pipelines, Upload};
use crate::backend::gpu::shader_types::{ForwardLink, TypeInfo};
use crate::backend::gpu::{can_run, GpuBackend};
use crate::backend::inputs::{
    arriving, ending_among, lemma_all_ends, lemma_filter_ids, lemma_one_more_end,
};
use crate::backend::links::{
    arranges, law_arranging_keeps_links, lemma_arranged_in_order, lemma_filter_none, Lead,
};
use crate::compile_graph::{CompileGraph, CompileNode, NodeIdx, NodeType};
use crate::graph::{
    ascends, contents, lemma_ascends, lemma_filter_all, lemma_indices_finite, Direction, Edge,
    EdgeIdx, GraphView,
};
use crate::options::CompilerOptions;
use crate::world::{BlockTable, TickEntry, TickPriority};

verus! {

/// Whether a component is one that the device can run: no chain, and no torch that does not
/// invert.
pub open spec fn is_runnable(node: CompileNode) -> bool {
    &&& !(node.ty is Chain)
    &&& node.ty is Torch ==> node.ty->invert
}

/// The edges that come from a node.
pub open spec fn edges_out(g: GraphView, n: NodeIdx) -> Set<EdgeIdx> {
    Set::new(|id: EdgeIdx| g.edges.contains_key(id) && g.edges[id].source == n)
}

/// Whether a circuit is one that the device can run: its components are, every signal that
/// arrives has a strength up to fifteen, and no node but a constant has more than 255 links.
pub open spec fn is_ordinary(g: GraphView) -> bool {
    &&& g.nodes.len() <= 0x1000_0000
    &&& g.edges.len() <= 0x1000_0000
    &&& forall|n: NodeIdx|
        #![trigger g.nodes.contains_key(n)]
        g.nodes.contains_key(n) ==> is_runnable(g.nodes[n]) && (g.nodes[n].ty == NodeType::Constant
            || edges_out(g, n).len() <= 255)
    &&& forall|id: EdgeIdx| #[trigger]
        g.edges.contains_key(id) ==> g.nodes[g.edges[id].source].state.output_strength <= 15
            + g.edges[id].link.ss
}

/// Any edge.
spec fn any_edge() -> spec_fn(Edge) -> bool {
    |edge: Edge| true
}

proof fn lemma_links_followed(g: GraphView, n: NodeIdx)
    requires
        g.wf(),
        g.nodes.contains_key(n),
    ensures
        link_count(g, n) == g.edges_of(n, Direction::Outgoing).filter(is_followed(g)).len(),
{
    let list = g.edges_of(n, Direction::Outgoing);
    assert(g.lists_edges(n, Direction::Outgoing, list));
    if g.nodes[n].ty == NodeType::Constant {
        assert forall|i: int| 0 <= i < list.len() implies !is_followed(g)(#[trigger] list[i]) by {}
        lemma_filter_none(list, is_followed(g));
    } else {
        assert forall|i: int| 0 <= i < list.len() implies is_followed(g)(#[trigger] list[i]) by {}
        lemma_filter_all(list, is_followed(g));
    }
}

/// The links are as many as the edges that do not come from constants.
pub proof fn lemma_link_total(g: GraphView, order: Seq<NodeIdx>, k: int)
    requires
        g.wf(),
        ascends(g, order),
        0 <= k <= order.len(),
    ensures
        link_total(g, order.take(k)) == ending_among(
            g,
            Direction::Outgoing,
            order.take(k),
            is_followed(g),
        ).len(),
    decreases k,
{
    if k == 0 {
        lemma_all_ends(g, Direction::Outgoing, order, is_followed(g));
        assert(order.take(0) =~= Seq::empty());
    } else {
        lemma_link_total(g, order, k - 1);
        lemma_ascends(g, order);
        assert(g.nodes.contains_key(order[k - 1]));
        assert(order.take(k).drop_last() =~= order.take(k - 1));
        lemma_links_followed(g, order[k - 1]);
        lemma_one_more_end(g, Direction::Outgoing, order, k - 1, is_followed(g));
    }
}

proof fn lemma_few_links(g: GraphView, order: Seq<NodeIdx>)
    requires
        g.wf(),
        ascends(g, order),
    ensures
        link_total(g, order) <= g.edges.len(),
{
    lemma_link_total(g, order, order.len() as int);
    assert(order.take(order.len() as int) =~= order);
    let ids = ending_among(g, Direction::Outgoing, order, is_followed(g));
    lemma_indices_finite(g.edges.dom());
    vstd::set_lib::lemma_len_subset(ids, g.edges.dom());
}

proof fn lemma_ordinary(g: GraphView, ticks: Seq<TickEntry>)
    requires
        g.wf(),
        is_ordinary(g),
    ensures
        can_run(g, ticks),
{
    assert forall|n: NodeIdx| #[trigger] g.nodes.contains_key(n) implies can_lower_node(g, n) by {
        assert(g.lists_edges(n, Direction::Incoming, g.incoming[n]));
        assert(g.lists_edges(n, Direction::Outgoing, g.outgoing[n]));
        assert forall|j: int| 0 <= j < g.incoming[n].len() implies arriving(
            g,
            #[trigger] g.incoming[n][j],
        ) < 16 by {
            let edge = g.incoming[n][j];
            assert(g.edges.contains_pair(edge.id, edge));
            assert(g.edges.contains_key(edge.id));
        }
        lemma_filter_ids(
            g,
            n,
            Direction::Outgoing,
            g.outgoing[n],
            any_edge(),
            edges_out(g, n),
        );
        lemma_filter_all(g.outgoing[n], any_edge());
    }
    assert forall|k: int, n: NodeIdx|
        0 <= k < ticks.len() && #[trigger] g.nodes.contains_key(n) && is_at(
            g.nodes[n],
            (#[trigger] ticks[k]).pos,
        ) implies lowered_priority(ticks[k].tick_priority).number() * g.nodes.len() <= u32::MAX by {
        let number = lowered_priority(ticks[k].tick_priority).number();
        assert(number * g.nodes.len() <= 3 * g.nodes.len()) by (nonlinear_arith)
            requires
                0 <= number <= 3,
        ;
    }
    assert forall|order: Seq<NodeIdx>| #[trigger] ascends(g, order) implies link_total(g, order)
        <= usize::MAX && Pipelines::can_plan(
        g.nodes.len() as usize,
        link_total(g, order) as usize,
    ) by {
        lemma_few_links(g, order);
    }
}

/// A circuit that is ordinary is run, with whatever ticks are pending.
pub proof fn law_ordinary_circuits_are_run(
    backend: &mut GpuBackend,
    graph: CompileGraph,
    ticks: Vec<TickEntry>,
    options: CompilerOptions,
    table: BlockTable,
    result: Option<Vec<Upload>>,
    r: bool,
)
    requires
        contents(graph).wf(),
        is_ordinary(contents(graph)),
        call_ensures(
            GpuBackend::try_compile,
            (backend, graph, ticks, &options, &table),
            result,
        ),
        call_ensures(can_compile, (&graph, &ticks), r),
    ensures
        result is Some,
        r,
        call_requires(GpuBackend::compile, (backend, graph, ticks, &options, &table)),
        call_requires(compile, (graph, ticks, &options, &table)),
{
    lemma_ordinary(contents(graph), ticks@);
}

/// A circuit with a component that the device cannot run is refused, and the backend stays as
/// it is.
pub proof fn law_other_circuits_are_refused(
    backend: &mut GpuBackend,
    graph: CompileGraph,
    ticks: Vec<TickEntry>,
    options: CompilerOptions,
    table: BlockTable,
    result: Option<Vec<Upload>>,
    n: NodeIdx,
)
    requires
        contents(graph).nodes.contains_key(n),
        !is_runnable(contents(graph).nodes[n]),
        call_ensures(
            GpuBackend::try_compile,
            (backend, graph, ticks, &options, &table),
            result,
        ),
    ensures
        result is None,
        *final(backend) == *old(backend),
{
    if result is Some {
        assert(can_lower_node(contents(graph), n));
    }
}

/// The links of a node stand kind by kind: those to components of a kind come one after the
/// other, in the order of those components.
pub proof fn law_links_stand_kind_by_kind(
    graph: CompileGraph,
    ticks: Vec<TickEntry>,
    options: CompilerOptions,
    table: BlockTable,
    compiled: (CompilationData, CompiledBlockInfo),
    order: Seq<NodeIdx>,
    i: int,
    a: int,
    b: int,
    c: int,
)
    requires
        contents(graph).wf(),
        contents(graph).nodes.len() <= u32::MAX,
        ascends(contents(graph), order),
        call_ensures(compile, (graph, ticks, &options, &table), compiled),
        0 <= i < order.len(),
        0 <= a < b < links_of(compiled.0, i).len(),
    ensures
        ({
            let g = contents(graph);
            let links = links_of(compiled.0, i);
            let at = |k: int| g.nodes[order[links[k].node_index as int]].ty;
            &&& same_kind(at(a), at(b)) ==> links[a].node_index <= links[b].node_index
            &&& same_kind(at(a), at(b)) && a < c < b ==> same_kind(at(a), at(c))
        }),
{
    let g = contents(graph);
    lemma_ascends(g, order);
    lemma_order(graph, ticks, options, table, compiled, order);
    lemma_row_of(g, order, compiled.0, i);
    lemma_links_in_order(g, order, order[i], links_of(compiled.0, i), a, b, c);
}

proof fn lemma_same_kind(a: NodeType, b: NodeType)
    ensures
        a.kind() == b.kind() <==> same_kind(a, b),
{
}

proof fn lemma_links_in_order(
    g: GraphView,
    order: Seq<NodeIdx>,
    n: NodeIdx,
    links: Seq<ForwardLink>,
    a: int,
    b: int,
    c: int,
)
    requires
        g.wf(),
        ascends(g, order),
        order.len() <= u32::MAX,
        g.nodes.contains_key(n),
        lowers_links(g, n, places_in(order), links),
        0 <= a < b < links.len(),
    ensures
        ({
            let at = |k: int| g.nodes[order[links[k].node_index as int]].ty;
            &&& same_kind(at(a), at(b)) ==> links[a].node_index <= links[b].node_index
            &&& same_kind(at(a), at(b)) && a < c < b ==> same_kind(at(a), at(c))
        }),
{
    let places = places_in(order);
    let at = |k: int| g.nodes[order[links[k].node_index as int]].ty;
    let wanted = leads_of(g, n, places);
    let leads = choose|leads: Seq<Lead>| #[trigger]
        arranges(wanted, leads) && links == leads.map_values(lowered_link(places));
    law_arranging_keeps_links(wanted, leads);
    lemma_arranged_in_order(wanted, leads);
    lemma_lead_link(g, order, n, leads, a);
    lemma_lead_link(g, order, n, leads, b);
    lemma_same_kind(at(a), at(b));
    assert(leads[a].kind == leads[b].kind ==> leads[a].rank <= leads[b].rank);
    if a < c < b {
        lemma_lead_link(g, order, n, leads, c);
        lemma_same_kind(at(a), at(c));
        assert(leads[a].kind == leads[b].kind ==> leads[c].kind == leads[a].kind);
    }
}

proof fn lemma_lead_link(
    g: GraphView,
    order: Seq<NodeIdx>,
    n: NodeIdx,
    leads: Seq<Lead>,
    k: int,
)
    requires
        g.wf(),
        ascends(g, order),
        order.len() <= u32::MAX,
        g.nodes.contains_key(n),
        leads.to_multiset() == leads_of(g, n, places_in(order)).to_multiset(),
        0 <= k < leads.len(),
    ensures
        ({
            let link = lowered_link(places_in(order))(leads[k]);
            &&& leads[k].rank == link.node_index
            &&& leads[k].kind == g.nodes[order[link.node_index as int]].ty.kind()
        }),
{
    broadcast use vstd::seq_lib::group_to_multiset_ensures;

    let places = places_in(order);
    let wanted = leads_of(g, n, places);
    let list = g.edges_of(n, Direction::Outgoing);
    assert(g.lists_edges(n, Direction::Outgoing, list));
    lemma_ascends(g, order);
    assert(leads.contains(leads[k]));
    assert(leads.to_multiset().count(leads[k]) > 0);
    assert(wanted.contains(leads[k]));
    let edge = list[wanted.index_of(leads[k])];
    assert(leads[k].edge == edge);
    assert(order.contains(edge.target));
    assert(places[edge.target] == order.index_of(edge.target));
}

/// The links of a circuit are as many as its edges that do not come from constants.
pub proof fn law_links_are_counted(graph: CompileGraph, order: Vec<NodeIdx>, count: u128)
    requires
        contents(graph).wf(),
        ascends(contents(graph), order@),
        call_ensures(count_links, (&graph, &order), count),
    ensures
        ({
            let g = contents(graph);
            count == Set::new(
                |id: EdgeIdx|
                    g.edges.contains_key(id) && !(g.nodes[g.edges[id].source].ty is Constant),
            ).len()
        }),
{
    let g = contents(graph);
    lemma_link_total(g, order@, order@.len() as int);
    assert(order@.take(order@.len() as int) =~= order@);
    lemma_all_ends(g, Direction::Outgoing, order@, is_followed(g));
    assert(Set::new(|id: EdgeIdx| g.edges.contains_key(id)
        && is_followed(g)(g.edges[id])) =~= Set::new(
        |id: EdgeIdx| g.edges.contains_key(id) && !(g.nodes[g.edges[id].source].ty is Constant),
    ));
}

/// The buffers can be planned if the sizes of all of them can be told: four bytes for each node
/// and each link, and sixteen times as many as there are for the nodes for their inputs.
pub proof fn law_buffers_can_be_planned_if_their_sizes_fit(nodes: usize, links: u64, r: bool)
    requires
        call_ensures(Pipelines::is_plannable, (nodes, links), r),
    ensures
        nodes <= 0x1000_0000 && links <= 0x1000_0000 ==> r,
        r ==> 64 * nodes <= u64::MAX && 4 * nodes <= usize::MAX && 4 * links <= usize::MAX,
        r && links <= usize::MAX ==> call_requires(Pipelines::create, (nodes, links as usize)),
{
}

/// What the device is told about a component is what its type tells.
pub proof fn law_types_are_told(ty: NodeType, number: u8, info: TypeInfo)
    requires
        !(ty is Chain),
        call_ensures(type_info, (&ty, number), info),
    ensures
        ty is Repeater <==> info.ty is Repeater,
        ty is Torch <==> info.ty is Torch,
        ty is Comparator <==> info.ty is Comparator,
        ty is Lamp <==> info.ty is Lamp,
        ty is Button <==> info.ty is Button,
        ty is Lever <==> info.ty is Lever,
        ty is PressurePlate <==> info.ty is PressurePlate,
        ty is Trapdoor <==> info.ty is Trapdoor,
        ty is Wire <==> info.ty is Wire,
        ty is Constant <==> info.ty is Constant,
        ty is NoteBlock <==> info.ty is NoteBlock,
        ty is Repeater ==> info.data == ty->Repeater_delay && info.facing_diode
            == ty->Repeater_facing_diode,
        ty is Comparator ==> info.data == (if ty->Comparator_mode is Subtract {
            1int
        } else {
            0
        }) && info.facing_diode == ty->Comparator_facing_diode,
        ty is Comparator && ty->far_input is Some ==> info.far_input == ty->far_input->0,
        ty is Comparator && ty->far_input is None ==> info.far_input == 255,
        ty is NoteBlock ==> info.data == number,
{
}

/// A tick hinders the device only if it is for a node, and if the place of that tick among all
/// that can be pending takes more than 32 bits.
pub proof fn law_ticks_hinder_if_their_place_is_out_of_reach(
    graph: CompileGraph,
    ticks: Vec<TickEntry>,
    r: bool,
)
    requires
        contents(graph).wf(),
        4 * contents(graph).nodes.len() <= usize::MAX,
        forall|n: NodeIdx|
            #![trigger contents(graph).nodes.contains_key(n)]
            contents(graph).nodes.contains_key(n) ==> can_lower_node(contents(graph), n),
        call_ensures(can_compile, (&graph, &ticks), r),
    ensures
        ({
            let g = contents(graph);
            r <==> forall|k: int, n: NodeIdx|
                #![trigger ticks@[k], g.nodes.contains_key(n)]
                0 <= k < ticks@.len() && g.nodes.contains_key(n) && g.nodes[n].block is Some && (
                g.nodes[n].block->0).0 == ticks@[k].pos
                    ==> g.nodes.len() * (match ticks@[k].tick_priority {
                    TickPriority::Highest => 0nat,
                    TickPriority::Higher => 1,
                    TickPriority::High => 2,
                    TickPriority::Normal => 3,
                }) <= u32::MAX
        }),
{
    let g = contents(graph);
    assert forall|k: int| 0 <= k < ticks@.len() implies #[trigger] lowered_priority(
        ticks@[k].tick_priority,
    ).number() * g.nodes.len() == g.nodes.len() * (match ticks@[k].tick_priority {
        TickPriority::Highest => 0nat,
        TickPriority::Higher => 1,
        TickPriority::High => 2,
        TickPriority::Normal => 3,
    }) by {
        let a = lowered_priority(ticks@[k].tick_priority).number() as int;
        let b = g.nodes.len() as int;
        assert(a * b == b * a) by (nonlinear_arith);
    }
    if r {
        assert forall|k: int, n: NodeIdx|
            #![trigger ticks@[k], g.nodes.contains_key(n)]
            0 <= k < ticks@.len() && g.nodes.contains_key(n) && g.nodes[n].block is Some && (
            g.nodes[n].block->0).0 == ticks@[k].pos
                implies g.nodes.len() * (match ticks@[k].tick_priority {
                TickPriority::Highest => 0nat,
                TickPriority::Higher => 1,
                TickPriority::High => 2,
                TickPriority::Normal => 3,
            }) <= u32::MAX by {
            assert(is_at(g.nodes[n], ticks@[k].pos));
            assert(lowered_priority(ticks@[k].tick_priority).number() * g.nodes.len() <= u32::MAX);
        }
    }
}

} // verus!
