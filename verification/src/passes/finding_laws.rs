//! Which nodes the chains of a graph are made of, told by the components of the graph and
//! the edges between them.

use vstd::prelude::*;

use crate::compile_graph::{CompileGraph, LinkType, NodeIdx};
use crate::graph::{contents, Direction, EdgeIdx, GraphView};
use crate::passes::chain_coalesce::{
    all_placed, chains_of, found_below, found_in, index_limit, joinable, placed, startable,
    successor, ChainBuilder, Found, Walk, MAX_LEN,
};
use crate::passes::chain_laws::{
    law_chains_are_linked, law_startable_nodes_are_in_chains, leads, lemma_found_tidy,
    lemma_linked_startable, lemma_walk_tidy, linked, rows_fit, tidy_chain, walking,
};

verus! {

/// Whether `id` is the only edge that leads to `n`.
pub open spec fn only_way_in(g: GraphView, id: EdgeIdx, n: NodeIdx) -> bool {
    &&& g.edges.contains_key(id) && g.edges[id].target == n
    &&& forall|other: EdgeIdx| #[trigger]
        g.edges.contains_key(other) && g.edges[other].target == n ==> other == id
}

/// Whether `id` is the only edge that leads from `n`.
pub open spec fn only_way_out(g: GraphView, id: EdgeIdx, n: NodeIdx) -> bool {
    &&& g.edges.contains_key(id) && g.edges[id].source == n
    &&& forall|other: EdgeIdx| #[trigger]
        g.edges.contains_key(other) && g.edges[other].source == n ==> other == id
}

/// Whether a node is a repeater, a torch or a chain that nothing outside the graph reads or
/// sets.
pub open spec fn replaceable(g: GraphView, n: NodeIdx) -> bool {
    &&& g.nodes.contains_key(n)
    &&& g.nodes[n].ty is Repeater || g.nodes[n].ty is Torch || g.nodes[n].ty is Chain
    &&& !g.nodes[n].is_input && !g.nodes[n].is_output
}

/// Whether a node is one that can be part of a chain, with one edge that leads to it, which
/// enters it from behind.
pub open spec fn chainable(g: GraphView, n: NodeIdx) -> bool {
    replaceable(g, n) && exists|id: EdgeIdx| #[trigger]
        only_way_in(g, id, n) && g.edges[id].link.ty == LinkType::Default
}

/// Whether the only edge from `a`, which enters from behind, and the only edge to `b` are the
/// same.
pub open spec fn goes_on(g: GraphView, a: NodeIdx, b: NodeIdx) -> bool {
    exists|id: EdgeIdx| #[trigger]
        only_way_out(g, id, a) && only_way_in(g, id, b) && g.edges[id].link.ty == LinkType::Default
}

/// The only edge of a list is the only one there is.
proof fn lemma_only_way_in(g: GraphView, n: NodeIdx)
    requires
        g.wf(),
        g.nodes.contains_key(n),
    ensures
        g.edges_of(n, Direction::Incoming).len() == 1 <==> exists|id: EdgeIdx| #[trigger]
            only_way_in(g, id, n),
        g.edges_of(n, Direction::Incoming).len() == 1 ==> only_way_in(
            g,
            g.edges_of(n, Direction::Incoming)[0].id,
            n,
        ) && g.edges[g.edges_of(n, Direction::Incoming)[0].id] == g.edges_of(
            n,
            Direction::Incoming,
        )[0],
{
    let list = g.edges_of(n, Direction::Incoming);
    assert(g.lists_edges(n, Direction::Incoming, g.incoming[n]));
    if list.len() == 1 {
        assert(g.edges.contains_pair(list[0].id, list[0]));
        assert forall|other: EdgeIdx| #[trigger]
            g.edges.contains_key(other) && g.edges[other].target == n
                implies other == list[0].id by {
            assert(list.contains(g.edges[other]));
            assert(list[list.index_of(g.edges[other])] == list[0]);
        }
        assert(only_way_in(g, list[0].id, n));
    }
    if exists|id: EdgeIdx| #[trigger] only_way_in(g, id, n) {
        let id = choose|id: EdgeIdx| #[trigger] only_way_in(g, id, n);
        assert(list.contains(g.edges[id]));
        if list.len() > 1 {
            assert(g.edges.contains_pair(list[0].id, list[0]));
            assert(g.edges.contains_pair(list[1].id, list[1]));
            assert(g.edges.contains_key(list[0].id));
            assert(g.edges.contains_key(list[1].id));
            assert(list[0].id != list[1].id);
        }
    }
}

/// The only edge of a list is the only one there is.
proof fn lemma_only_way_out(g: GraphView, n: NodeIdx)
    requires
        g.wf(),
        g.nodes.contains_key(n),
    ensures
        g.edges_of(n, Direction::Outgoing).len() == 1 <==> exists|id: EdgeIdx| #[trigger]
            only_way_out(g, id, n),
        g.edges_of(n, Direction::Outgoing).len() == 1 ==> only_way_out(
            g,
            g.edges_of(n, Direction::Outgoing)[0].id,
            n,
        ) && g.edges[g.edges_of(n, Direction::Outgoing)[0].id] == g.edges_of(
            n,
            Direction::Outgoing,
        )[0],
{
    let list = g.edges_of(n, Direction::Outgoing);
    assert(g.lists_edges(n, Direction::Outgoing, g.outgoing[n]));
    if list.len() == 1 {
        assert(g.edges.contains_pair(list[0].id, list[0]));
        assert forall|other: EdgeIdx| #[trigger]
            g.edges.contains_key(other) && g.edges[other].source == n
                implies other == list[0].id by {
            assert(list.contains(g.edges[other]));
            assert(list[list.index_of(g.edges[other])] == list[0]);
        }
        assert(only_way_out(g, list[0].id, n));
    }
    if exists|id: EdgeIdx| #[trigger] only_way_out(g, id, n) {
        let id = choose|id: EdgeIdx| #[trigger] only_way_out(g, id, n);
        assert(list.contains(g.edges[id]));
        if list.len() > 1 {
            assert(g.edges.contains_pair(list[0].id, list[0]));
            assert(g.edges.contains_pair(list[1].id, list[1]));
            assert(g.edges.contains_key(list[0].id));
            assert(g.edges.contains_key(list[1].id));
            assert(list[0].id != list[1].id);
        }
    }
}

/// A chain may start at exactly the chainable nodes, and go on to exactly those that are
/// replaceable and have one way in.
pub proof fn lemma_chainable(g: GraphView, n: NodeIdx)
    requires
        g.wf(),
    ensures
        startable(g, n) <==> chainable(g, n),
        joinable(g, n) <==> replaceable(g, n) && exists|id: EdgeIdx| #[trigger]
            only_way_in(g, id, n),
{
    if g.nodes.contains_key(n) {
        lemma_only_way_in(g, n);
        if chainable(g, n) {
            let id = choose|id: EdgeIdx| #[trigger]
                only_way_in(g, id, n) && g.edges[id].link.ty == LinkType::Default;
            let first = g.edges_of(n, Direction::Incoming)[0].id;
            assert(only_way_in(g, first, n));
            assert(g.edges.contains_key(id));
            assert(first == id);
        }
    }
}

/// A node that goes on to another leads to it.
pub proof fn lemma_goes_on(g: GraphView, a: NodeIdx, b: NodeIdx)
    requires
        g.wf(),
    ensures
        goes_on(g, a, b) ==> successor(g, a) == Some(b),
        successor(g, a) == Some(b) && joinable(g, b) ==> goes_on(g, a, b),
{
    if goes_on(g, a, b) {
        let id = choose|id: EdgeIdx| #[trigger]
            only_way_out(g, id, a) && only_way_in(g, id, b) && g.edges[id].link.ty
                == LinkType::Default;
        lemma_only_way_out(g, a);
        let first = g.edges_of(a, Direction::Outgoing)[0].id;
        assert(only_way_out(g, first, a));
        assert(g.edges.contains_key(id));
        assert(first == id);
    }
    if successor(g, a) == Some(b) && joinable(g, b) {
        lemma_only_way_out(g, a);
        lemma_only_way_in(g, b);
        let out = g.edges_of(a, Direction::Outgoing)[0];
        assert(g.nodes.contains_key(a));
        assert(only_way_out(g, out.id, a));
        let into = g.edges_of(b, Direction::Incoming)[0];
        assert(only_way_in(g, into.id, b));
        assert(g.edges.contains_key(out.id));
        assert(out.id == into.id);
    }
}

/// All nodes of chains stand for blocks if and only if all chainable nodes do.
pub proof fn lemma_all_placed(g: GraphView)
    requires
        g.wf(),
    ensures
        all_placed(g) <==> forall|n: NodeIdx| #[trigger]
            chainable(g, n) ==> g.nodes[n].block is Some,
{
    law_startable_nodes_are_in_chains(g);
    if all_placed(g) {
        assert forall|n: NodeIdx| #[trigger] chainable(g, n) implies g.nodes[n].block is Some by {
            lemma_chainable(g, n);
            assert(found_in(g).index.contains_key(n));
            let k = found_in(g).index[n] as int;
            assert(placed(g, chains_of(g)[k]));
            let i = chains_of(g)[k].index_of(n);
            assert(chains_of(g)[k][i] == n);
        }
    }
    if forall|n: NodeIdx| #[trigger] chainable(g, n) ==> g.nodes[n].block is Some {
        assert forall|k: int| 0 <= k < chains_of(g).len() implies placed(
            g,
            #[trigger] chains_of(g)[k],
        ) by {
            assert forall|i: int| 0 <= i < chains_of(g)[k].len() implies g.nodes[
            #[trigger] chains_of(g)[k][i]].block is Some by {
                lemma_chainable(g, chains_of(g)[k][i]);
                assert(found_in(g).index.contains_key(chains_of(g)[k][i]));
            }
        }
    }
}

/// All chains are found if all chainable nodes stand for blocks; then exactly those nodes are
/// in one.
pub proof fn law_chainable_nodes_are_found(
    builder: &mut ChainBuilder,
    graph: &CompileGraph,
    complete: bool,
)
    requires
        call_ensures(ChainBuilder::identify_chains, (builder, graph), complete),
    ensures
        complete <==> forall|n: NodeIdx| #[trigger]
            chainable(contents(*graph), n) ==> contents(*graph).nodes[n].block is Some,
        complete ==> forall|n: NodeIdx| #[trigger]
            final(builder).chain_map@.contains_key(n) <==> chainable(contents(*graph), n),
        complete ==> final(builder).found().chains == chains_of(contents(*graph)),
{
    let g = contents(*graph);
    lemma_all_placed(g);
    if complete {
        assert forall|n: NodeIdx| #[trigger]
            final(builder).chain_map@.contains_key(n) <==> chainable(g, n) by {
            lemma_chainable(g, n);
        }
    }
}

/// A chain holds from one to 255 nodes, all of them chainable, and each of them goes on to the
/// next.
pub proof fn law_chains_go_on_from_node_to_node(g: GraphView, k: int)
    requires
        g.wf(),
        0 <= k < chains_of(g).len(),
    ensures
        1 <= chains_of(g)[k].len() <= 255,
        forall|i: int|
            0 <= i < chains_of(g)[k].len() ==> chainable(g, #[trigger] chains_of(g)[k][i]),
        forall|i: int|
            1 <= i < chains_of(g)[k].len() ==> goes_on(
                g,
                chains_of(g)[k][i - 1],
                #[trigger] chains_of(g)[k][i],
            ),
{
    law_chains_are_linked(g, k);
    let chain = chains_of(g)[k];
    assert forall|i: int| 0 <= i < chain.len() implies chainable(g, #[trigger] chain[i]) by {
        lemma_chainable(g, chain[i]);
        if i > 0 {
            lemma_linked_startable(g, chain, i);
        }
    }
    assert forall|i: int| 1 <= i < chain.len() implies goes_on(
        g,
        chain[i - 1],
        #[trigger] chain[i],
    ) by {
        assert(leads(g, chain, i));
        lemma_goes_on(g, chain[i - 1], chain[i]);
    }
}

/// Whether no chain can be longer than it is.
spec fn ended(g: GraphView, f: Found) -> bool {
    forall|k: int| 0 <= k < f.chains.len() ==> stops(g, (#[trigger] f.chains[k]).last())
}

/// Whether a chain cannot go on from a node.
spec fn stops(g: GraphView, n: NodeIdx) -> bool {
    match successor(g, n) {
        Some(next) => !joinable(g, next),
        None => true,
    }
}

/// A walk ends where a chain cannot go on, or where it is full.
proof fn lemma_walk_stops(f: Found, g: GraphView, row: Seq<NodeIdx>)
    requires
        0 < row.len() < MAX_LEN,
    ensures
        f.walk(g, row) matches Walk::Ends(nodes) ==> nodes.len() > 0 && (stops(g, nodes.last())
            || nodes.len() >= MAX_LEN),
    decreases MAX_LEN - row.len(),
{
    match successor(g, row.last()) {
        None => {},
        Some(next) => {
            if row.len() + 1 < MAX_LEN {
                lemma_walk_stops(f, g, row.push(next));
            }
        },
    }
}

proof fn lemma_found_ended(g: GraphView, bound: int)
    requires
        g.wf(),
        rows_fit(g),
        0 <= bound <= index_limit(),
    ensures
        ended(g, found_below(g, bound)),
    decreases bound,
{
    if bound > 0 {
        lemma_found_ended(g, bound - 1);
        let f = found_below(g, bound - 1);
        let n = (bound - 1) as NodeIdx;
        if startable(g, n) && !f.index.contains_key(n) {
            lemma_found_tidy(g, bound - 1);
            let row = seq![n];
            assert(walking(g, f, row));
            lemma_walk_tidy(g, f, row);
            lemma_walk_stops(f, g, row);
            let h = f.with_walk(g, n);
            match f.walk(g, row) {
                Walk::Ends(nodes) => {
                    if !stops(g, nodes.last()) {
                        let longer = nodes.push(successor(g, nodes.last())->0);
                        assert forall|i: int| 1 <= i < longer.len() implies #[trigger] leads(
                            g,
                            longer,
                            i,
                        ) && joinable(g, longer[i]) by {
                            if i < nodes.len() {
                                assert(leads(g, nodes, i));
                            }
                        }
                        assert(linked(g, longer));
                        assert(longer.first() == n);
                    }
                    assert forall|k: int| 0 <= k < h.chains.len() implies stops(
                        g,
                        (#[trigger] h.chains[k]).last(),
                    ) by {
                        if k < f.chains.len() {
                            assert(h.chains[k] == f.chains[k]);
                        }
                    }
                },
                Walk::Meets(nodes, m) => {
                    assert(tidy_chain(g, f, f.chains[m as int]));
                    assert forall|k: int| 0 <= k < h.chains.len() implies stops(
                        g,
                        (#[trigger] h.chains[k]).last(),
                    ) by {
                        if k == m {
                            assert(h.chains[k].last() == f.chains[k].last());
                        } else {
                            assert(h.chains[k] == f.chains[k]);
                        }
                    }
                },
            }
        }
    }
}

/// Where no more than 255 nodes in a row go on from one to the next, no chain is cut short:
/// the end of a chain goes on to no node that can be part of one.  In particular no chain
/// could be put in front of another.
pub proof fn law_no_chain_is_cut_short(g: GraphView, k: int, n: NodeIdx)
    requires
        g.wf(),
        forall|row: Seq<NodeIdx>|
            #![trigger row.len()]
            row.len() > 0 && chainable(g, row.first()) && (forall|i: int|
                1 <= i < row.len() ==> goes_on(g, row[i - 1], #[trigger] row[i]) && replaceable(
                    g,
                    row[i],
                )) ==> row.len() <= 255,
        0 <= k < chains_of(g).len(),
    ensures
        !(goes_on(g, chains_of(g)[k].last(), n) && replaceable(g, n)),
{
    assert forall|row: Seq<NodeIdx>| #[trigger]
        linked(g, row) && row.len() > 0 && startable(g, row.first()) implies row.len()
        <= MAX_LEN by {
        lemma_chainable(g, row.first());
        assert forall|i: int| 1 <= i < row.len() implies goes_on(g, row[i - 1], #[trigger] row[i])
            && replaceable(g, row[i]) by {
            assert(leads(g, row, i));
            lemma_goes_on(g, row[i - 1], row[i]);
            lemma_chainable(g, row[i]);
        }
        assert(row.len() <= 255);
    }
    lemma_found_ended(g, index_limit());
    let last = chains_of(g)[k].last();
    if goes_on(g, last, n) && replaceable(g, n) {
        lemma_goes_on(g, last, n);
        lemma_chainable(g, n);
        let id = choose|id: EdgeIdx| #[trigger]
            only_way_out(g, id, last) && only_way_in(g, id, n) && g.edges[id].link.ty
                == LinkType::Default;
        assert(only_way_in(g, id, n));
        assert(stops(g, found_in(g).chains[k].last()));
    }
}

} // verus!
