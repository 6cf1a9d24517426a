//! What holds of the partitions that a graph is lowered to.

use vstd::prelude::*;

use crate::backend::direct::node::{Node, Nodes};
use crate::backend::direct::partitioned::compile::{
    can_lower_in, can_lower_node, counts_inputs, files_blocks, holds_place, law_places_are_distinct,
    leads_of, lemma_located_in_partition, locates, lowered_link, lowers_node, notes_after, place_of,
    placed_node, places_in, size_for, splits, NoteInfo,
};
use crate::backend::direct::partitioned::backend::Blocks;
use crate::backend::direct::partitioned::counts::{
    brings, brought, brought_by_all, counts_right, Entry,
};
use crate::backend::direct::partitioned::partition::{
    law_link_survives_packing, NodeLocation, PartitionForwardLink,
};
use crate::backend::direct::partitioned::input_total;
use crate::backend::inputs::{
    arrives, arriving, input_count, lemma_filter_ids, lemma_one_more_input, tally, typed,
};
use crate::backend::links::{
    arranges, law_arranging_keeps_links, lemma_filter_leads, lemma_filter_permuted, Lead,
};
use crate::compile_graph::{LinkType, NodeIdx, NodeType as CNodeType};
use crate::graph::{
    ascends, lemma_ascends, lemma_indices_finite, Direction, Edge, EdgeIdx, GraphView,
};
use crate::passes::clamp_weights::{
    clamped, law_clamping_keeps_graph_well_formed, law_only_carrying_links_remain,
};
use crate::world::BlockTable;

verus! {

/// All nodes, in the order of the graph.
pub open spec fn all_nodes(partitions: Seq<Nodes>, count: int) -> Seq<Node> {
    Seq::new(
        count as nat,
        |i: int| partitions[i / size_for(count)].nodes@[i % size_for(count)],
    )
}

/// Whether an edge of the given type brings a signal of strength `ss` to `n`.
spec fn feeds(g: GraphView, n: NodeIdx, ty: LinkType, ss: int) -> spec_fn(Edge) -> bool {
    |edge: Edge| edge.target == n && edge.link.ty == ty && arriving(g, edge) == ss
}

/// Whether the edge of a lead brings a signal of strength `ss` to `n`.
spec fn lead_feeds(g: GraphView, n: NodeIdx, ty: LinkType, ss: int) -> spec_fn(Lead) -> bool {
    |lead: Lead| feeds(g, n, ty, ss)(lead.edge)
}

/// What the words of some leads bring to an input.
proof fn lemma_brought_by_leads(
    leads: Seq<Lead>,
    places: Map<NodeIdx, NodeLocation>,
    power: u8,
    entry: Entry,
    ss: int,
    r: spec_fn(Lead) -> bool,
)
    requires
        forall|k: int|
            0 <= k < leads.len() ==> brings(
                lowered_link(places)(#[trigger] leads[k]),
                power,
                entry,
                ss,
            ) == if r(leads[k]) {
                1int
            } else {
                0
            },
    ensures
        brought(leads.map_values(lowered_link(places)), power, entry, ss) == leads.filter(r).len(),
    decreases leads.len(),
{
    reveal(Seq::filter);
    let words = leads.map_values(lowered_link(places));
    if leads.len() > 0 {
        let rest = leads.drop_last();
        assert(words.drop_last() =~= rest.map_values(lowered_link(places)));
        assert forall|k: int| 0 <= k < rest.len() implies brings(
            lowered_link(places)(#[trigger] rest[k]),
            power,
            entry,
            ss,
        ) == if r(rest[k]) {
            1int
        } else {
            0
        } by {
            assert(rest[k] == leads[k]);
        }
        lemma_brought_by_leads(rest, places, power, entry, ss, r);
        assert(words.last() == lowered_link(places)(leads[leads.len() - 1]));
    }
}

/// The input of `n` from one side.
pub open spec fn entry_of(count: int, i: int, ty: LinkType) -> Entry {
    Entry { location: place_of(count, i), side: ty == LinkType::Side }
}

/// What a node brings to an input is what its edges bring there; a constant, whose edges
/// are not lowered, brings nothing.
proof fn lemma_brought_by_node(
    g: GraphView,
    order: Seq<NodeIdx>,
    k: int,
    i: int,
    ty: LinkType,
    ss: int,
    notes: nat,
    lowered: Node,
)
    requires
        g.wf(),
        ascends(g, order),
        order.len() <= u32::MAX,
        0 <= k < order.len(),
        0 <= i < order.len(),
        can_lower_node(g, order[k], places_in(order)),
        lowers_node(g, order[k], places_in(order), notes, lowered),
    ensures
        brought(
            lowered.updates@,
            lowered.output_power,
            entry_of(order.len() as int, i, ty),
            ss,
        ) == if g.nodes[order[k]].ty == CNodeType::Constant {
            0
        } else {
            g.outgoing[order[k]].filter(feeds(g, order[i], ty, ss)).len() as int
        },
{
    let count = order.len() as int;
    let places = places_in(order);
    let source = order[k];
    let n = order[i];
    let entry = entry_of(count, i, ty);
    lemma_ascends(g, order);
    if g.nodes[source].ty != CNodeType::Constant {
        let wanted = leads_of(g, source, places);
        let leads = choose|leads: Seq<Lead>| #[trigger]
            arranges(wanted, leads) && lowered.updates@ == leads.map_values(lowered_link(places));
        law_arranging_keeps_links(wanted, leads);
        let r = lead_feeds(g, n, ty, ss);
        let list = g.edges_of(source, Direction::Outgoing);
        assert(g.lists_edges(source, Direction::Outgoing, list));
        assert forall|j: int| 0 <= j < leads.len() implies brings(
            lowered_link(places)(#[trigger] leads[j]),
            lowered.output_power,
            entry,
            ss,
        ) == if r(leads[j]) {
            1int
        } else {
            0
        } by {
            broadcast use vstd::seq_lib::group_to_multiset_ensures;

            assert(leads.contains(leads[j]));
            assert(leads.to_multiset().count(leads[j]) > 0);
            assert(wanted.contains(leads[j]));
            let at = wanted.index_of(leads[j]);
            let edge = leads[j].edge;
            assert(edge == list[at]);
            let target = edge.target;
            assert(order.contains(target));
            let t = order.index_of(target);
            assert(places[target] == place_of(count, t));
            law_places_are_distinct(count, t, i);
            let word = lowered_link(places)(leads[j]);
            let side = edge.link.ty == LinkType::Side;
            assert(0x200_0000 * places[target].partition + 0x20 * places[target].index.id
                <= u32::MAX - 0x1F);
            assert(word == PartitionForwardLink::packed(places[target], side, edge.link.ss));
            law_link_survives_packing(places[target], side, edge.link.ss, word);
            assert(target == n <==> t == i);
        }
        lemma_brought_by_leads(leads, places, lowered.output_power, entry, ss, r);
        lemma_filter_permuted(leads, wanted, r);
        let f = |edge: Edge|
            Lead {
                rank: places[edge.target].order() as u64,
                kind: g.nodes[edge.target].ty.kind(),
                edge,
            };
        assert(wanted =~= list.map_values(f));
        lemma_filter_leads(list, f, feeds(g, n, ty, ss), r);
    }
}

/// The indices of the edges that bring strength `ss` to `n`, from the nodes of `sources`.
spec fn feeding_ids(
    g: GraphView,
    sources: Seq<NodeIdx>,
    n: NodeIdx,
    ty: LinkType,
    ss: int,
) -> Set<EdgeIdx> {
    Set::new(
        |id: EdgeIdx|
            g.edges.contains_key(id) && feeds(g, n, ty, ss)(g.edges[id]) && sources.contains(
                g.edges[id].source,
            ) && g.nodes[g.edges[id].source].ty != CNodeType::Constant,
    )
}

/// What the first `k` nodes bring to an input is what the edges from them bring there.
#[verifier::rlimit(30)]
proof fn lemma_brought_by_first(
    g: GraphView,
    order: Seq<NodeIdx>,
    base: Seq<NoteInfo>,
    partitions: Seq<Nodes>,
    i: int,
    ty: LinkType,
    ss: int,
    k: int,
)
    requires
        g.wf(),
        ascends(g, order),
        order.len() <= u32::MAX,
        can_lower_in(g, order, base),
        splits(g, order, base, partitions),
        0 <= i < order.len(),
        0 <= k <= order.len(),
    ensures
        brought_by_all(
            all_nodes(partitions, order.len() as int).take(k),
            entry_of(order.len() as int, i, ty),
            ss,
        ) == feeding_ids(g, order.take(k), order[i], ty, ss).len(),
    decreases k,
{
    let count = order.len() as int;
    let nodes = all_nodes(partitions, count);
    let n = order[i];
    let ids = feeding_ids(g, order.take(k), n, ty, ss);
    lemma_indices_finite(ids);
    if k == 0 {
        assert(nodes.take(0) =~= Seq::empty());
        assert(ids =~= Set::empty());
    } else {
        lemma_brought_by_first(g, order, base, partitions, i, ty, ss, k - 1);
        let before = feeding_ids(g, order.take(k - 1), n, ty, ss);
        let source = order[k - 1];
        assert(nodes.take(k).drop_last() =~= nodes.take(k - 1));
        assert(placed_node(g, order, base, partitions, k - 1));
        assert(can_lower_node(g, order[k - 1], places_in(order)));
        let notes = notes_after(
            base,
            g,
            order.take(k - 1),
        ).len();
        lemma_brought_by_node(g, order, k - 1, i, ty, ss, notes, nodes[k - 1]);
        lemma_ascends(g, order);
        lemma_indices_finite(before);
        assert forall|id: EdgeIdx| #[trigger] g.edges.contains_key(id) implies (order.take(
            k,
        ).contains(g.edges[id].source) <==> order.take(k - 1).contains(g.edges[id].source)
            || g.edges[id].source == source) by {
            let from = g.edges[id].source;
            if order.take(k).contains(from) {
                let j = order.take(k).index_of(from);
                if j < k - 1 {
                    assert(order.take(k - 1)[j] == from);
                }
            }
            if order.take(k - 1).contains(from) {
                let j = order.take(k - 1).index_of(from);
                assert(order.take(k)[j] == from);
            }
            assert(order.take(k)[k - 1] == source);
        }
        assert(!order.take(k - 1).contains(source)) by {
            if order.take(k - 1).contains(source) {
                let j = order.take(k - 1).index_of(source);
                assert(order[j] == order[k - 1]);
            }
        }
        if g.nodes[source].ty == CNodeType::Constant {
            assert(ids =~= before);
        } else {
            let own = Set::new(
                |id: EdgeIdx|
                    g.edges.contains_key(id) && g.edges[id].source == source && feeds(
                        g,
                        n,
                        ty,
                        ss,
                    )(g.edges[id]),
            );
            lemma_indices_finite(own);
            assert(g.lists_edges(source, Direction::Outgoing, g.outgoing[source]));
            lemma_filter_ids(
                g,
                source,
                Direction::Outgoing,
                g.outgoing[source],
                feeds(g, n, ty, ss),
                own,
            );
            assert(ids =~= before.union(own));
            assert(before.disjoint(own));
            vstd::set_lib::lemma_set_disjoint_lens(before, own);
        }
    }
}

/// The indices of the edges from constants that bring strength `ss` to `n`.
spec fn constant_ids(g: GraphView, n: NodeIdx, ty: LinkType, ss: int) -> Set<EdgeIdx> {
    Set::new(
        |id: EdgeIdx|
            g.edges.contains_key(id) && feeds(g, n, ty, ss)(g.edges[id])
                && g.nodes[g.edges[id].source].ty == CNodeType::Constant,
    )
}

/// How many edges of a type bring each strength from a constant to `n`.
pub closed spec fn from_constants(g: GraphView, n: NodeIdx, ty: LinkType) -> Seq<nat> {
    Seq::new(16, |ss: int| constant_ids(g, n, ty, ss).len())
}

/// The counts that a graph is lowered to are right from the start: at every input of a
/// node they are the strengths that arrive over the links of all nodes, and beyond those
/// from constants, which never change.
pub proof fn law_compiled_counts_are_right(
    g: GraphView,
    order: Seq<NodeIdx>,
    base: Seq<NoteInfo>,
    partitions: Seq<Nodes>,
    i: int,
    ty: LinkType,
)
    requires
        g.wf(),
        ascends(g, order),
        order.len() <= u32::MAX,
        can_lower_in(g, order, base),
        splits(g, order, base, partitions),
        0 <= i < order.len(),
    ensures
        counts_right(
            all_nodes(partitions, order.len() as int),
            from_constants(g, order[i], ty),
            entry_of(order.len() as int, i, ty),
            all_nodes(partitions, order.len() as int)[i].inputs(ty == LinkType::Side),
        ),
{
    let count = order.len() as int;
    let nodes = all_nodes(partitions, count);
    let n = order[i];
    let counts = nodes[i].inputs(ty == LinkType::Side);
    lemma_ascends(g, order);
    assert(placed_node(g, order, base, partitions, i));
    assert(nodes.take(count) =~= nodes);
    assert(order.take(count) =~= order);
    assert forall|ss: int| 0 <= ss < 16 implies #[trigger] counts[ss] == brought_by_all(
        nodes,
        entry_of(count, i, ty),
        ss,
    ) + from_constants(g, n, ty)[ss] by {
        lemma_brought_by_first(g, order, base, partitions, i, ty, ss, count);
        let fed = feeding_ids(g, order, n, ty, ss);
        let fixed = constant_ids(g, n, ty, ss);
        let all = Set::new(
            |id: EdgeIdx| g.edges.contains_key(id) && feeds(g, n, ty, ss)(g.edges[id]),
        );
        lemma_indices_finite(fed);
        lemma_indices_finite(fixed);
        assert forall|id: EdgeIdx| #[trigger] g.edges.contains_key(id) implies order.contains(
            g.edges[id].source,
        ) by {
            assert(g.nodes.contains_key(g.edges[id].source));
        }
        assert(all =~= fed.union(fixed));
        assert(fed.disjoint(fixed));
        vstd::set_lib::lemma_set_disjoint_lens(fed, fixed);
        let list = g.edges_of(n, Direction::Incoming);
        assert(g.lists_edges(n, Direction::Incoming, list));
        lemma_filter_ids(g, n, Direction::Incoming, list, arrives(g, ty, ss), all);
        assert(input_count(g, n, ty, ss) == all.len());
        match ty {
            LinkType::Default => {
                assert(nodes[i].default_inputs.ss_counts@[ss] == input_count(g, n, ty, ss));
            },
            LinkType::Side => {
                assert(nodes[i].side_inputs.ss_counts@[ss] == input_count(g, n, ty, ss));
            },
        }
    }
}

/// The sum of the tallies of the first `k` strengths.
spec fn tally_sum(g: GraphView, list: Seq<Edge>, ty: LinkType, k: int) -> int
    decreases k,
{
    if k <= 0 {
        0
    } else {
        tally_sum(g, list, ty, k - 1) + tally(g, list, ty, k - 1)
    }
}

/// One edge more counts once, if its strength is among the first `k`.
proof fn lemma_tally_sum_grows(g: GraphView, list: Seq<Edge>, i: int, ty: LinkType, k: int)
    requires
        0 <= i < list.len(),
        0 <= k,
    ensures
        tally_sum(g, list.take(i + 1), ty, k)
            == tally_sum(g, list.take(i), ty, k) + if list[i].link.ty
            == ty && arriving(g, list[i]) < k {
            1int
        } else {
            0
        },
    decreases k,
{
    if k > 0 {
        lemma_tally_sum_grows(g, list, i, ty, k - 1);
        lemma_one_more_input(g, list, i);
        assert(tally(g, list.take(i + 1), ty, k - 1)
            == tally(g, list.take(i), ty, k - 1) + if list[i].link.ty
            == ty && arriving(g, list[i]) == k - 1 {
            1int
        } else {
            0
        });
    }
}

/// Every edge is counted under its strength.
proof fn lemma_tally_sum(g: GraphView, list: Seq<Edge>, i: int, ty: LinkType)
    requires
        0 <= i <= list.len(),
        forall|j: int| 0 <= j < list.len() ==> arriving(g, #[trigger] list[j]) < 16,
    ensures
        tally_sum(g, list.take(i), ty, 16) == typed(list.take(i), ty),
    decreases i,
{
    if i > 0 {
        lemma_tally_sum(g, list, i - 1, ty);
        lemma_tally_sum_grows(g, list, i - 1, ty, 16);
        lemma_one_more_input(g, list, i - 1);
        assert(typed(list.take(i - 1 + 1), ty)
            == typed(list.take(i - 1), ty) + if list[i - 1].link.ty
            == ty {
            1int
        } else {
            0
        });
    } else {
        reveal(Seq::filter);
        reveal_with_fuel(tally_sum, 17);
    }
}

/// The total of counts that are tallies.
proof fn lemma_total_is_tally_sum(g: GraphView, list: Seq<Edge>, ty: LinkType, counts: Seq<u8>, k: int)
    requires
        0 <= k <= counts.len(),
        forall|ss: int| 0 <= ss < counts.len() ==> #[trigger] counts[ss] == tally(g, list, ty, ss),
    ensures
        input_total(counts.take(k)) == tally_sum(g, list, ty, k),
    decreases k,
{
    if k > 0 {
        lemma_total_is_tally_sum(g, list, ty, counts, k - 1);
        assert(counts.take(k).drop_last() =~= counts.take(k - 1));
        assert(counts[k - 1] == tally(g, list, ty, k - 1));
    }
}

/// Every input of a node is counted once, and there are no more of a type than a count
/// can hold.
pub proof fn law_compiled_inputs_are_all_counted(
    g: GraphView,
    n: NodeIdx,
    places: Map<NodeIdx, NodeLocation>,
    notes: nat,
    lowered: Node,
    ty: LinkType,
)
    requires
        can_lower_node(g, n, places),
        lowers_node(g, n, places, notes, lowered),
    ensures
        input_total(lowered.inputs(ty == LinkType::Side)) == typed(
            g.edges_of(n, Direction::Incoming),
            ty,
        ),
        input_total(lowered.inputs(ty == LinkType::Side)) <= 255,
{
    let list = g.edges_of(n, Direction::Incoming);
    let counts = lowered.inputs(ty == LinkType::Side);
    assert(counts_inputs(g, n, ty, counts)) by {
        match ty {
            LinkType::Default => {},
            LinkType::Side => {},
        }
    }
    lemma_total_is_tally_sum(g, list, ty, counts, 16);
    assert(counts.take(16) =~= counts);
    lemma_tally_sum(g, list, list.len() as int, ty);
    assert(list.take(list.len() as int) =~= list);
    match ty {
        LinkType::Default => {},
        LinkType::Side => {},
    }
}

/// Every link of a node that a graph is lowered to leads to a node of one of its
/// partitions.
pub proof fn law_compiled_links_lead_to_nodes(
    g: GraphView,
    order: Seq<NodeIdx>,
    base: Seq<NoteInfo>,
    partitions: Seq<Nodes>,
    i: int,
    k: int,
)
    requires
        g.wf(),
        ascends(g, order),
        order.len() <= u32::MAX,
        can_lower_in(g, order, base),
        splits(g, order, base, partitions),
        0 <= i < order.len(),
        0 <= k < all_nodes(partitions, order.len() as int)[i].updates@.len(),
    ensures
        ({
            let word = all_nodes(partitions, order.len() as int)[i].updates@[k];
            let location = PartitionForwardLink::target(word);
            &&& location.partition < partitions.len()
            &&& location.index.id < partitions[location.partition as int].nodes@.len()
        }),
{
    broadcast use vstd::seq_lib::group_to_multiset_ensures;

    let count = order.len() as int;
    let places = places_in(order);
    let source = order[i];
    let words = all_nodes(partitions, count)[i].updates@;
    assert(placed_node(g, order, base, partitions, i));
    assert(can_lower_node(g, source, places));
    lemma_ascends(g, order);
    let wanted = leads_of(g, source, places);
    let leads = choose|leads: Seq<Lead>| #[trigger]
        arranges(wanted, leads) && words == leads.map_values(lowered_link(places));
    law_arranging_keeps_links(wanted, leads);
    let list = g.edges_of(source, Direction::Outgoing);
    assert(g.lists_edges(source, Direction::Outgoing, list));
    assert(leads.contains(leads[k]));
    assert(leads.to_multiset().count(leads[k]) > 0);
    assert(wanted.contains(leads[k]));
    let edge = leads[k].edge;
    assert(edge == list[wanted.index_of(leads[k])]);
    assert(order.contains(edge.target));
    let t = order.index_of(edge.target);
    assert(places[edge.target] == place_of(count, t));
    let side = edge.link.ty == LinkType::Side;
    assert(0x200_0000 * places[edge.target].partition + 0x20 * places[edge.target].index.id
        <= u32::MAX - 0x1F);
    assert(words[k] == PartitionForwardLink::packed(places[edge.target], side, edge.link.ss));
    law_link_survives_packing(places[edge.target], side, edge.link.ss, words[k]);
    lemma_located_in_partition(g, order, base, partitions, t);
}

/// The position of a block that only one node stands for leads to that node.
pub proof fn law_blocks_lead_to_their_nodes(
    g: GraphView,
    order: Seq<NodeIdx>,
    table: BlockTable,
    blocks: Blocks,
    map: Map<(i32, i32, i32), NodeLocation>,
    i: int,
)
    requires
        order.len() <= u32::MAX,
        files_blocks(g, order, table, blocks),
        locates(blocks, map),
        0 <= i < order.len(),
        g.nodes[order[i]].block is Some,
        forall|j: int|
            0 <= j < order.len() && j != i && g.nodes[#[trigger] order[j]].block is Some ==> (
            g.nodes[order[j]].block->0).0 != (g.nodes[order[i]].block->0).0,
    ensures
        map.contains_key((g.nodes[order[i]].block->0).0.coordinates()),
        map[(g.nodes[order[i]].block->0).0.coordinates()] == place_of(order.len() as int, i),
{
    let count = order.len() as int;
    let pos = (g.nodes[order[i]].block->0).0;
    let key = pos.coordinates();
    assert(blocks.contains_key(place_of(count, i).parts()));
    let found = map[key];
    assert(holds_place(order, found.parts()));
    let j = choose|j: int|
        0 <= j < order.len() && (#[trigger] place_of(count, j)).parts() == found.parts();
    assert(g.nodes[order[j]].block is Some);
    assert(blocks[found.parts()].0 == (g.nodes[order[j]].block->0).0);
    assert(blocks[found.parts()].0.coordinates() == key);
}

/// After the links that carry no signal have been removed, the loss on every link is one
/// that the word of a link can hold.
pub proof fn law_clamped_links_can_be_lowered(g: GraphView, n: NodeIdx)
    requires
        g.wf(),
        g.nodes.contains_key(n),
    ensures
        ({
            let list = clamped(g).edges_of(n, Direction::Outgoing);
            forall|i: int| 0 <= i < list.len() ==> (#[trigger] list[i]).link.ss < 15
        }),
{
    law_clamping_keeps_graph_well_formed(g);
    law_only_carrying_links_remain(g);
    let after = clamped(g);
    assert(after.nodes.contains_key(n));
    assert(after.lists_edges(n, Direction::Outgoing, after.outgoing[n]));
    let list = after.edges_of(n, Direction::Outgoing);
    assert forall|i: int| 0 <= i < list.len() implies (#[trigger] list[i]).link.ss < 15 by {
        assert(after.edges.contains_key(list[i].id));
    }
}

} // verus!
