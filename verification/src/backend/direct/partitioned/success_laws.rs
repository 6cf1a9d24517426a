//! Which circuits can be compiled into partitions, what their links come to, and in which
//! order they are followed.

use vstd::prelude::*;

use crate::backend::direct::partitioned::backend::PartitionedBackend;
use crate::backend::direct::partitioned::compile::{
    can_lower, can_lower_in, can_lower_node, leads_of, lemma_partition_sizes, lemma_place_in_range,
    link_count, lowered_link, lowers_links, nodes_of, notes_after, place_of, placed_node, places_in,
    stats_of, Compiled, NoteInfo,
};
use crate::backend::direct::partitioned::message_laws::{index_of, partition_of};
use crate::backend::direct::partitioned::node_laws::{
    is_note, lemma_compiled, lemma_notes_count, lemma_share, node_at, share,
};
use crate::backend::direct::partitioned::partition::{law_link_survives_packing, reachable};
use crate::backend::inputs::{
    arriving, ending_among, lemma_all_ends, lemma_filter_ids, lemma_one_more_end, of_type, typed,
};
use crate::backend::links::{
    arranges, law_arranging_keeps_links, lemma_arranged_in_order, lemma_filter_none, Lead,
};
use crate::compile_graph::{CompileGraph, CompileNode, LinkType, NodeIdx, NodeType};
use crate::graph::{
    ascends, contents, lemma_ascends, lemma_ascends_unique, lemma_filter_all, Direction, Edge,
    EdgeIdx, GraphView,
};
use crate::options::CompilerOptions;
use crate::world::{BlockTable, TickEntry};

verus! {

/// Whether a component is one that a partition can run: no chain, no torch that does not
/// invert, no comparator with a far input of 255, and no note block without a block.
pub open spec fn is_runnable(node: CompileNode) -> bool {
    &&& !(node.ty is Chain)
    &&& node.ty is Torch ==> node.ty->invert
    &&& node.ty is Comparator ==> node.ty->far_input != Some(255u8)
    &&& node.ty is NoteBlock ==> node.block is Some
}

/// The edges of a type that lead to a node.
pub open spec fn edges_into(g: GraphView, n: NodeIdx, ty: LinkType) -> Set<EdgeIdx> {
    Set::new(
        |id: EdgeIdx|
            g.edges.contains_key(id) && g.edges[id].target == n && g.edges[id].link.ty == ty,
    )
}

/// Whether a circuit is one that partitions can run: its components are, every signal that
/// arrives has a strength up to fifteen, no link loses more than fourteen, no node has more than
/// 255 inputs of a type, and all note blocks have a number.
pub open spec fn is_ordinary(g: GraphView, order: Seq<NodeIdx>, known: nat) -> bool {
    &&& g.nodes.len() <= 0x800_0000
    &&& forall|n: NodeIdx| #[trigger] g.nodes.contains_key(n) ==> is_runnable(g.nodes[n])
    &&& forall|id: EdgeIdx| #[trigger]
        g.edges.contains_key(id) ==> {
            let source = g.nodes[g.edges[id].source];
            &&& source.state.output_strength <= 15 + g.edges[id].link.ss
            &&& source.ty == NodeType::Constant || g.edges[id].link.ss <= 14
        }
    &&& forall|n: NodeIdx|
        #![trigger g.nodes.contains_key(n)]
        g.nodes.contains_key(n) ==> edges_into(g, n, LinkType::Default).len() <= 255 && edges_into(
            g,
            n,
            LinkType::Side,
        ).len() <= 255
    &&& known + order.filter(is_note(g)).len() <= 65536
}

/// The inputs of a type are as many as the edges that lead to the node.
proof fn lemma_typed(g: GraphView, n: NodeIdx, ty: LinkType)
    requires
        g.wf(),
        g.nodes.contains_key(n),
    ensures
        typed(g.edges_of(n, Direction::Incoming), ty) == edges_into(g, n, ty).len(),
{
    assert(g.lists_edges(n, Direction::Incoming, g.incoming[n]));
    lemma_filter_ids(g, n, Direction::Incoming, g.incoming[n], of_type(ty), edges_into(g, n, ty));
}

/// Some note blocks are no more than all, and one less before each.
proof fn lemma_notes_below(g: GraphView, order: Seq<NodeIdx>, i: int)
    requires
        0 <= i < order.len(),
        g.nodes[order[i]].ty is NoteBlock,
    ensures
        order.take(i).filter(is_note(g)).len() < order.filter(is_note(g)).len(),
    decreases order.len(),
{
    reveal(Seq::filter);
    let rest = order.drop_last();
    if i == rest.len() {
        assert(order.take(i) =~= rest);
    } else {
        lemma_notes_below(g, rest, i);
        assert(rest.take(i) =~= order.take(i));
    }
}

/// A circuit that is ordinary is compiled.
pub proof fn law_ordinary_circuits_are_compiled(
    backend: &mut PartitionedBackend,
    graph: CompileGraph,
    ticks: Vec<TickEntry>,
    options: CompilerOptions,
    table: BlockTable,
    result: Option<Compiled>,
    order: Seq<NodeIdx>,
)
    requires
        contents(graph).wf(),
        ascends(contents(graph), order),
        is_ordinary(contents(graph), order, old(backend).noteblock_info@.len()),
        call_ensures(
            PartitionedBackend::try_compile,
            (backend, graph, ticks, &options, &table),
            result,
        ),
    ensures
        result is Some,
        call_requires(PartitionedBackend::compile, (backend, graph, ticks, &options, &table)),
{
    let g = contents(graph);
    let base = old(backend).noteblock_info@;
    lemma_ordinary(g, order, base);
    assert forall|other: Seq<NodeIdx>| #[trigger] ascends(g, other) implies can_lower_in(
        g,
        other,
        base,
    ) by {
        lemma_ascends_unique(g, order, other);
    }
}

proof fn lemma_ordinary(g: GraphView, order: Seq<NodeIdx>, base: Seq<NoteInfo>)
    requires
        g.wf(),
        ascends(g, order),
        is_ordinary(g, order, base.len()),
    ensures
        can_lower_in(g, order, base),
{
    lemma_ascends(g, order);
    let count = order.len() as int;
    assert forall|i: int| 0 <= i < order.len() implies can_lower_node(
        g,
        #[trigger] order[i],
        places_in(order),
    ) && (g.nodes[order[i]].ty is NoteBlock ==> notes_after(base, g, order.take(i)).len()
        <= u16::MAX) by {
        let n = order[i];
        assert(g.nodes.contains_key(n));
        lemma_typed(g, n, LinkType::Default);
        lemma_typed(g, n, LinkType::Side);
        assert(g.lists_edges(n, Direction::Incoming, g.incoming[n]));
        assert(g.lists_edges(n, Direction::Outgoing, g.outgoing[n]));
        assert forall|j: int| 0 <= j < g.incoming[n].len() implies arriving(
            g,
            #[trigger] g.incoming[n][j],
        ) < 16 by {
            let edge = g.incoming[n][j];
            assert(g.edges.contains_pair(edge.id, edge));
            assert(g.edges.contains_key(edge.id));
        }
        if g.nodes[n].ty != NodeType::Constant {
            assert forall|j: int| 0 <= j < g.outgoing[n].len() implies (
            #[trigger] g.outgoing[n][j]).link.ss < 15
                && reachable(
                places_in(order)[g.outgoing[n][j].target],
            ) by {
                let edge = g.outgoing[n][j];
                assert(g.edges.contains_pair(edge.id, edge));
                assert(g.edges.contains_key(edge.id));
                assert(order.contains(edge.target));
                let t = order.index_of(edge.target);
                lemma_share(count);
                lemma_place_in_range(count, t);
                lemma_partition_sizes(count);
                assert(share(count) <= 0x10_0000);
            }
        }
        if g.nodes[n].ty is NoteBlock {
            lemma_notes_below(g, order, i);
            lemma_notes_count(base, g, order.take(i));
        }
    }
}

/// A circuit with a component that partitions cannot run is not compiled, and the backend stays
/// as it is.
pub proof fn law_other_circuits_are_refused(
    backend: &mut PartitionedBackend,
    graph: CompileGraph,
    ticks: Vec<TickEntry>,
    options: CompilerOptions,
    table: BlockTable,
    result: Option<Compiled>,
    order: Seq<NodeIdx>,
    n: NodeIdx,
)
    requires
        ascends(contents(graph), order),
        contents(graph).nodes.contains_key(n),
        !is_runnable(contents(graph).nodes[n]),
        call_ensures(
            PartitionedBackend::try_compile,
            (backend, graph, ticks, &options, &table),
            result,
        ),
    ensures
        result is None,
        *final(backend) == *old(backend),
{
    let g = contents(graph);
    lemma_ascends(g, order);
    assert(order.contains(n));
    let i = order.index_of(n);
    if result is Some {
        assert(can_lower_in(g, order, old(backend).noteblock_info@));
        assert(can_lower_node(g, order[i], places_in(order)));
    }
}

/// Whether an edge does not come from a constant.
pub open spec fn is_followed(g: GraphView) -> spec_fn(Edge) -> bool {
    |edge: Edge| g.nodes[edge.source].ty != NodeType::Constant
}

/// All edges of a list of a constant, or none, are followed.
proof fn lemma_followed(g: GraphView, n: NodeIdx)
    requires
        g.wf(),
        g.nodes.contains_key(n),
    ensures
        link_count(g, n) == g.edges_of(n, Direction::Outgoing).filter(is_followed(g)).len(),
{
    let list = g.edges_of(n, Direction::Outgoing);
    assert(g.lists_edges(n, Direction::Outgoing, list));
    if g.nodes[n].ty == NodeType::Constant {
        assert forall|i: int| 0 <= i < list.len() implies !is_followed(g)(#[trigger] list[i]) by {}
        lemma_filter_none(list, is_followed(g));
    } else {
        assert forall|i: int| 0 <= i < list.len() implies is_followed(g)(#[trigger] list[i]) by {}
        lemma_filter_all(list, is_followed(g));
    }
}

proof fn lemma_stats(g: GraphView, order: Seq<NodeIdx>, k: int)
    requires
        g.wf(),
        ascends(g, order),
        0 <= k <= order.len(),
    ensures
        stats_of(g, order.take(k)).update_link_count == ending_among(
            g,
            Direction::Outgoing,
            order.take(k),
            is_followed(g),
        ).len(),
        stats_of(g, order.take(k)).side_link_count == ending_among(
            g,
            Direction::Incoming,
            order.take(k),
            of_type(LinkType::Side),
        ).len(),
        stats_of(g, order.take(k)).default_link_count == ending_among(
            g,
            Direction::Incoming,
            order.take(k),
            of_type(LinkType::Default),
        ).len(),
    decreases k,
{
    if k == 0 {
        lemma_all_ends(g, Direction::Outgoing, order, is_followed(g));
        lemma_all_ends(g, Direction::Incoming, order, of_type(LinkType::Side));
        lemma_all_ends(g, Direction::Incoming, order, of_type(LinkType::Default));
        assert(order.take(0) =~= Seq::empty());
    } else {
        lemma_stats(g, order, k - 1);
        lemma_ascends(g, order);
        let n = order[k - 1];
        assert(g.nodes.contains_key(n));
        assert(order.take(k).drop_last() =~= order.take(k - 1));
        lemma_followed(g, n);
        lemma_one_more_end(g, Direction::Outgoing, order, k - 1, is_followed(g));
        lemma_one_more_end(g, Direction::Incoming, order, k - 1, of_type(LinkType::Side));
        lemma_one_more_end(g, Direction::Incoming, order, k - 1, of_type(LinkType::Default));
        lemma_few_edges(ending_among(g, Direction::Outgoing, order.take(k), is_followed(g)));
        lemma_few_edges(
            ending_among(g, Direction::Incoming, order.take(k), of_type(LinkType::Side)),
        );
        lemma_few_edges(
            ending_among(g, Direction::Incoming, order.take(k), of_type(LinkType::Default)),
        );
    }
}

/// There are no more indices than an index can be.
proof fn lemma_few_edges(ids: Set<EdgeIdx>)
    ensures
        ids.len() <= 0x1_0000_0000,
{
    broadcast use vstd::set_lib::range_set_properties;

    let below = Set::<u32>::range_inclusive(0, u32::MAX);
    assert(ids.subset_of(below));
    vstd::set_lib::lemma_len_subset(ids, below);
}

/// The statistics count every edge as an input under its type, and every edge but those from
/// constants as a link that is followed.
pub proof fn law_statistics_count_all_edges(
    backend: &mut PartitionedBackend,
    graph: CompileGraph,
    ticks: Vec<TickEntry>,
    options: CompilerOptions,
    table: BlockTable,
    compiled: Compiled,
    order: Seq<NodeIdx>,
)
    requires
        contents(graph).wf(),
        ascends(contents(graph), order),
        call_ensures(
            PartitionedBackend::compile,
            (backend, graph, ticks, &options, &table),
            compiled,
        ),
    ensures
        ({
            let g = contents(graph);
            &&& compiled.stats.default_link_count == Set::new(
                |id: EdgeIdx| g.edges.contains_key(id) && g.edges[id].link.ty == LinkType::Default,
            ).len()
            &&& compiled.stats.side_link_count == Set::new(
                |id: EdgeIdx| g.edges.contains_key(id) && g.edges[id].link.ty == LinkType::Side,
            ).len()
            &&& compiled.stats.update_link_count == Set::new(
                |id: EdgeIdx|
                    g.edges.contains_key(id) && g.nodes[g.edges[id].source].ty
                        != NodeType::Constant,
            ).len()
        }),
{
    let g = contents(graph);
    lemma_compiled(backend, graph, ticks, options, table, compiled, order);
    lemma_stats(g, order, order.len() as int);
    assert(order.take(order.len() as int) =~= order);
    lemma_all_ends(g, Direction::Outgoing, order, is_followed(g));
    lemma_all_ends(g, Direction::Incoming, order, of_type(LinkType::Side));
    lemma_all_ends(g, Direction::Incoming, order, of_type(LinkType::Default));
    assert(ending_among(g, Direction::Outgoing, order, is_followed(g)) =~= Set::new(
        |id: EdgeIdx|
            g.edges.contains_key(id) && g.nodes[g.edges[id].source].ty != NodeType::Constant,
    ));
    assert(ending_among(g, Direction::Incoming, order, of_type(LinkType::Side)) =~= Set::new(
        |id: EdgeIdx| g.edges.contains_key(id) && g.edges[id].link.ty == LinkType::Side,
    ));
    assert(ending_among(g, Direction::Incoming, order, of_type(LinkType::Default)) =~= Set::new(
        |id: EdgeIdx| g.edges.contains_key(id) && g.edges[id].link.ty == LinkType::Default,
    ));
}

/// Whether two components are of the same kind, whatever their settings.
pub open spec fn same_kind(a: NodeType, b: NodeType) -> bool {
    ||| a is Repeater && b is Repeater
    ||| a is Torch && b is Torch
    ||| a is Comparator && b is Comparator
    ||| a is Lamp && b is Lamp
    ||| a is Button && b is Button
    ||| a is Lever && b is Lever
    ||| a is PressurePlate && b is PressurePlate
    ||| a is Trapdoor && b is Trapdoor
    ||| a is Wire && b is Wire
    ||| a is Constant && b is Constant
    ||| a is NoteBlock && b is NoteBlock
    ||| a is Chain && b is Chain
}

/// Kinds are told apart by their numbers, whatever the settings.
pub proof fn law_kinds_are_told_apart(a: NodeType, b: NodeType, m: u32, n: u32)
    requires
        call_ensures(NodeType::kind_number, (&a,), m),
        call_ensures(NodeType::kind_number, (&b,), n),
    ensures
        m == n <==> same_kind(a, b),
{
}

/// The component that the link of a word leads to.
pub open spec fn led_to(g: GraphView, order: Seq<NodeIdx>, word: u32) -> NodeType {
    g.nodes[order[partition_of(word) * share(order.len() as int) + index_of(word)]].ty
}

/// The links of a node are followed kind by kind: those to components of a kind come one after
/// the other, in the order of the places of those components.
pub proof fn law_links_are_followed_kind_by_kind(
    backend: &mut PartitionedBackend,
    graph: CompileGraph,
    ticks: Vec<TickEntry>,
    options: CompilerOptions,
    table: BlockTable,
    compiled: Compiled,
    order: Seq<NodeIdx>,
    i: int,
    a: int,
    b: int,
    c: int,
)
    requires
        contents(graph).wf(),
        contents(graph).nodes.len() <= u32::MAX,
        ascends(contents(graph), order),
        0 <= i < order.len(),
        can_lower(contents(graph), old(backend).noteblock_info@),
        call_ensures(
            PartitionedBackend::compile,
            (backend, graph, ticks, &options, &table),
            compiled,
        ),
        0 <= a < b < node_at(compiled, order.len() as int, i).updates@.len(),
    ensures
        ({
            let g = contents(graph);
            let words = node_at(compiled, order.len() as int, i).updates@;
            &&& same_kind(led_to(g, order, words[a]), led_to(g, order, words[b])) ==> (
            partition_of(words[a]) < partition_of(words[b]) || (partition_of(words[a])
                == partition_of(words[b]) && index_of(words[a]) <= index_of(words[b])))
            &&& same_kind(led_to(g, order, words[a]), led_to(g, order, words[b])) && a < c < b
                ==> same_kind(led_to(g, order, words[a]), led_to(g, order, words[c]))
        }),
{
    let g = contents(graph);
    let base = old(backend).noteblock_info@;
    let count = order.len() as int;
    lemma_compiled(backend, graph, ticks, options, table, compiled, order);
    lemma_ascends(g, order);
    lemma_share(count);
    lemma_place_in_range(count, i);
    let lists = nodes_of(compiled.partitions@);
    assert(placed_node(g, order, base, lists, i));
    assert(lists[i / share(count)] == compiled.partitions@[i / share(count)].nodes);
    assert(can_lower_in(g, order, base));
    assert(can_lower_node(g, order[i], places_in(order)));
    let words = node_at(compiled, count, i).updates@;
    assert(lowers_links(g, order[i], places_in(order), words));
    lemma_words_in_order(g, order, order[i], words, a, b, c);
}

/// The words of links are in the order of their leads.
proof fn lemma_words_in_order(
    g: GraphView,
    order: Seq<NodeIdx>,
    n: NodeIdx,
    words: Seq<u32>,
    a: int,
    b: int,
    c: int,
)
    requires
        g.wf(),
        ascends(g, order),
        order.len() <= u32::MAX,
        g.nodes.contains_key(n),
        can_lower_node(g, n, places_in(order)),
        lowers_links(g, n, places_in(order), words),
        0 <= a < b < words.len(),
    ensures
        same_kind(led_to(g, order, words[a]), led_to(g, order, words[b])) ==> (partition_of(
            words[a],
        ) < partition_of(words[b]) || (partition_of(words[a]) == partition_of(words[b]) && index_of(
            words[a],
        ) <= index_of(words[b]))),
        same_kind(led_to(g, order, words[a]), led_to(g, order, words[b])) && a < c < b
            ==> same_kind(led_to(g, order, words[a]), led_to(g, order, words[c])),
{
    let places = places_in(order);
    let wanted = leads_of(g, n, places);
    let leads = choose|leads: Seq<Lead>| #[trigger]
        arranges(wanted, leads) && words == leads.map_values(lowered_link(places));
    law_arranging_keeps_links(wanted, leads);
    lemma_arranged_in_order(wanted, leads);
    lemma_lead_word(g, order, n, leads, a);
    lemma_lead_word(g, order, n, leads, b);
    let (x, y) = (led_to(g, order, words[a]), led_to(g, order, words[b]));
    lemma_same_kind(x, y);
    assert(leads[a].kind == leads[b].kind ==> leads[a].rank <= leads[b].rank);
    if a < c < b {
        lemma_lead_word(g, order, n, leads, c);
        lemma_same_kind(x, led_to(g, order, words[c]));
        assert(leads[a].kind == leads[b].kind ==> leads[c].kind == leads[a].kind);
    }
}

proof fn lemma_same_kind(a: NodeType, b: NodeType)
    ensures
        a.kind() == b.kind() <==> same_kind(a, b),
{
}

/// The word of a lead leads to the place that it is ranked by, and to a component of its kind.
proof fn lemma_lead_word(
    g: GraphView,
    order: Seq<NodeIdx>,
    n: NodeIdx,
    leads: Seq<Lead>,
    k: int,
)
    requires
        g.wf(),
        ascends(g, order),
        order.len() <= u32::MAX,
        g.nodes.contains_key(n),
        g.nodes[n].ty != NodeType::Constant,
        can_lower_node(g, n, places_in(order)),
        leads.to_multiset() == leads_of(g, n, places_in(order)).to_multiset(),
        0 <= k < leads.len(),
    ensures
        ({
            let word = lowered_link(places_in(order))(leads[k]);
            &&& leads[k].rank == partition_of(word) * 0x1_0000_0000 + index_of(word)
            &&& leads[k].kind == led_to(g, order, word).kind()
            &&& 0 <= index_of(word) < 0x1_0000_0000
        }),
{
    broadcast use vstd::seq_lib::group_to_multiset_ensures;

    let count = order.len() as int;
    let places = places_in(order);
    let wanted = leads_of(g, n, places);
    let list = g.edges_of(n, Direction::Outgoing);
    assert(g.lists_edges(n, Direction::Outgoing, list));
    assert(leads.contains(leads[k]));
    assert(leads.to_multiset().count(leads[k]) > 0);
    assert(wanted.contains(leads[k]));
    let at = wanted.index_of(leads[k]);
    let edge = list[at];
    assert(leads[k].edge == edge);
    assert(order.contains(edge.target));
    let t = order.index_of(edge.target);
    lemma_share(count);
    lemma_place_in_range(count, t);
    lemma_partition_sizes(count);
    let place = places[edge.target];
    assert(place == place_of(count, t));
    let side = edge.link.ty == LinkType::Side;
    let word = lowered_link(places)(leads[k]);
    assert(0x200_0000 * place.partition + 0x20 * place.index.id <= u32::MAX - 0x1F);
    law_link_survives_packing(place, side, edge.link.ss, word);
    assert(partition_of(word) == place.partition);
    assert(index_of(word) == place.index.id);
    assert(place.partition == t / share(count) && place.index.id == t % share(count));
}

} // verus!
