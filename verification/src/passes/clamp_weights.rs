//! # [`ClampWeights`]
//!
//! This pass removes the links on which every signal is lost.

use vstd::prelude::*;

use crate::compile_graph::{CompileGraph, CompileLink, NodeIdx};
use crate::graph::{
    contents, lemma_filter_all, lemma_filter_distinct, Direction, Edge, EdgeIdx, GraphView,
};
use crate::options::CompilerOptions;

verus! {

/// Whether some signal survives the link.
pub open spec fn carries(link: CompileLink) -> bool {
    link.ss < 15
}

/// Whether some signal survives the link.
pub fn carries_signal(link: &CompileLink) -> (r: bool)
    ensures
        r == carries(*link),
{
    link.ss < 15
}

/// The graph with only those links that some signal survives.
pub open spec fn clamped(g: GraphView) -> GraphView {
    g.retaining(|link: CompileLink| carries(link))
}

/// `StableGraph::retain_edges`, asked of each edge whether its link carries a signal:
/// the edges for which it does not leave the graph and the lists of their ends.
#[verifier::external_body]
fn retain_carrying_edges(graph: &mut CompileGraph)
    ensures
        contents(*final(graph)) == clamped(contents(*old(graph))),
{
    graph.retain_edges(|g, edge| carries_signal(&g[edge]))
}

pub struct ClampWeights;

impl ClampWeights {
    /// Removes the links that carry no signal, and nothing else.
    pub fn run_pass(&self, graph: &mut CompileGraph)
        ensures
            contents(*final(graph)) == clamped(contents(*old(graph))),
    {
        retain_carrying_edges(graph);
    }

    /// Whatever the options: the pass is mandatory.
    pub fn should_run(&self, _options: &CompilerOptions) -> (r: bool)
        ensures
            r,
    {
        true
    }

    pub fn status_message(&self) -> (message: &'static str)
        ensures
            message@ == "Clamping weights"@,
    {
        "Clamping weights"
    }
}

/// Whether the link of an edge carries a signal.
spec fn carrying() -> spec_fn(Edge) -> bool {
    |e: Edge| (|link: CompileLink| carries(link))(e.link)
}

/// The list of a node after the pass.
proof fn lemma_clamped_list(
    g: GraphView,
    n: NodeIdx,
    direction: Direction,
    list: Seq<Edge>,
    kept: Seq<Edge>,
)
    requires
        g.lists_edges(n, direction, list),
        kept == list.filter(carrying()),
    ensures
        clamped(g).lists_edges(n, direction, kept),
{
    let after = clamped(g);
    assert forall|i: int| 0 <= i < kept.len() implies {
        let edge = #[trigger] kept[i];
        &&& after.edges.contains_pair(edge.id, edge)
        &&& edge.end(direction) == n
        &&& after.nodes.contains_key(edge.source)
        &&& after.nodes.contains_key(edge.target)
    } by {
        list.lemma_filter_pred(carrying(), i);
        assert(kept.contains(kept[i]));
        list.lemma_filter_contains_rev(carrying(), kept[i]);
        let j = list.index_of(kept[i]);
        assert(list[j] == kept[i]);
    }
    assert forall|id: EdgeIdx| #[trigger]
        after.edges.contains_key(id) && after.edges[id].end(direction) == n implies kept.contains(
        after.edges[id],
    ) by {
        assert(g.edges.contains_key(id));
        assert(list.contains(g.edges[id]));
        let j = list.index_of(g.edges[id]);
        list.lemma_filter_contains(carrying(), j);
    }
    lemma_filter_distinct(list, carrying());
}

/// After the pass every link carries a signal; the links that do are as they were, and so
/// are all nodes.
pub proof fn law_only_carrying_links_remain(g: GraphView)
    ensures
        clamped(g).nodes == g.nodes,
        forall|id: EdgeIdx| #[trigger]
            clamped(g).edges.contains_key(id) <==> g.edges.contains_key(id) && carries(
                g.edges[id].link,
            ),
        forall|id: EdgeIdx| #[trigger]
            clamped(g).edges.contains_key(id) ==> clamped(g).edges[id] == g.edges[id],
{
}

/// The pass leaves a well-formed graph.
pub proof fn law_clamping_keeps_graph_well_formed(g: GraphView)
    requires
        g.wf(),
    ensures
        clamped(g).wf(),
{
    let after = clamped(g);
    assert(after.outgoing.dom() =~= after.nodes.dom());
    assert(after.incoming.dom() =~= after.nodes.dom());
    assert forall|n: NodeIdx| #[trigger] after.nodes.contains_key(n) implies {
        &&& after.lists_edges(n, Direction::Outgoing, after.outgoing[n])
        &&& after.lists_edges(n, Direction::Incoming, after.incoming[n])
    } by {
        assert(g.nodes.contains_key(n));
        lemma_clamped_list(g, n, Direction::Outgoing, g.outgoing[n], after.outgoing[n]);
        lemma_clamped_list(g, n, Direction::Incoming, g.incoming[n], after.incoming[n]);
    }
}

/// The pass has nothing to do on what it leaves.
pub proof fn law_clamping_again_changes_nothing(g: GraphView)
    ensures
        clamped(clamped(g)) == clamped(g),
{
    let once = clamped(g);
    let twice = clamped(once);
    let p = carrying();
    assert(twice.edges =~= once.edges);
    assert forall|list: Seq<Edge>| (#[trigger] list.filter(p)).filter(p) == list.filter(p) by {
        broadcast use Seq::lemma_filter_pred;

        lemma_filter_all(list.filter(p), p);
    }
    assert(twice.outgoing =~= once.outgoing);
    assert(twice.incoming =~= once.incoming);
}

/// Whether something is left of a signal of full strength after the loss on an edge.
pub open spec fn reaches_its_end(edge: Edge) -> bool {
    15 - edge.link.ss > 0
}

/// The pass removes exactly the edges on which even a signal of full strength is lost.  All
/// other edges and all nodes are as they were, and the edges of a node stay in their order.
pub proof fn law_edges_that_lose_everything_are_removed(
    pass: ClampWeights,
    graph: &mut CompileGraph,
    id: EdgeIdx,
    n: NodeIdx,
)
    requires
        call_ensures(ClampWeights::run_pass, (&pass, graph), ()),
    ensures
        ({
            let g = contents(*old(graph));
            let h = contents(*final(graph));
            &&& h.nodes == g.nodes
            &&& h.edges.contains_key(id) <==> g.edges.contains_key(id) && reaches_its_end(
                g.edges[id],
            )
            &&& h.edges.contains_key(id) ==> h.edges[id] == g.edges[id]
            &&& h.outgoing.contains_key(n) <==> g.outgoing.contains_key(n)
            &&& h.incoming.contains_key(n) <==> g.incoming.contains_key(n)
            &&& g.outgoing.contains_key(n) ==> h.outgoing[n] == g.outgoing[n].filter(
                |edge: Edge| reaches_its_end(edge),
            )
            &&& g.incoming.contains_key(n) ==> h.incoming[n] == g.incoming[n].filter(
                |edge: Edge| reaches_its_end(edge),
            )
        }),
{
    let g = contents(*old(graph));
    let reaches = |edge: Edge| reaches_its_end(edge);
    assert forall|edge: Edge| #[trigger] carrying()(edge) == reaches(edge) by {}
    assert(carrying() =~= reaches);
}

/// A link carries a signal if a signal of full strength is not lost on it.
pub proof fn law_links_carry_what_they_do_not_lose(link: CompileLink, r: bool)
    requires
        call_ensures(carries_signal, (&link,), r),
    ensures
        r <==> 15 - link.ss > 0,
{
}

/// The pass is mandatory.
pub proof fn law_clamping_always_runs(pass: ClampWeights, options: CompilerOptions, r: bool)
    requires
        call_ensures(ClampWeights::should_run, (&pass, &options), r),
    ensures
        r,
{
}

/// The pass says what it does.
pub proof fn law_clamping_says_so(pass: ClampWeights, message: &'static str)
    requires
        call_ensures(ClampWeights::status_message, (&pass,), message),
    ensures
        message@ == "Clamping weights"@,
{
}

} // verus!
