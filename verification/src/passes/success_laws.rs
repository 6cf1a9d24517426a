//! When the chains of a graph can be replaced.

use vstd::prelude::*;

use crate::compile_graph::{CompileGraph, NodeIdx};
use crate::graph::{contents, lemma_indices_finite, Direction, Edge, EdgeIdx, GraphView};
use crate::passes::chain_coalesce::{
    can_easily_coalesce, chains_of, edge_growth, index_limit, kinds_of, lemma_chains_len,
    node_growth, nodes_replaced, replacement, summary, total_delay, ChainCoalesce,
};
use crate::passes::chain_laws::lemma_chain_nodes;
use crate::passes::finding_laws::{chainable, lemma_all_placed};
use crate::passes::replacement_laws::{held_up, lemma_held_up};
use crate::passes::RuntimeAction;

verus! {

/// A node has no more edges than the graph.
proof fn lemma_few_outputs(g: GraphView, n: NodeIdx)
    requires
        g.wf(),
        g.nodes.contains_key(n),
    ensures
        g.edges_of(n, Direction::Outgoing).len() <= g.edges.len(),
{
    let list = g.edges_of(n, Direction::Outgoing);
    assert(g.lists_edges(n, Direction::Outgoing, list));
    let ids = list.map_values(|edge: Edge| edge.id);
    assert forall|i: int, j: int| 0 <= i < ids.len() && 0 <= j < ids.len() && i != j implies ids[i]
        != ids[j] by {
        assert(g.edges.contains_pair(list[i].id, list[i]));
        assert(g.edges.contains_pair(list[j].id, list[j]));
    }
    assert(ids.no_duplicates());
    ids.unique_seq_to_set();
    lemma_indices_finite(g.edges.dom());
    assert(ids.to_set().subset_of(g.edges.dom())) by {
        assert forall|id: EdgeIdx| #[trigger] ids.to_set().contains(id)
            implies g.edges.dom().contains(
            id,
        ) by {
            let i = ids.index_of(id);
            assert(g.edges.contains_pair(list[i].id, list[i]));
        }
    }
    vstd::set_lib::lemma_len_subset(ids.to_set(), g.edges.dom());
}

/// What some chains add to the graph.
proof fn lemma_growth_bounded(g: GraphView, k: nat, max_delay: usize)
    requires
        g.wf(),
        k <= chains_of(g).len(),
    ensures
        node_growth(g, chains_of(g).take(k as int), max_delay) <= 3 * k,
        edge_growth(g, chains_of(g).take(k as int), max_delay) <= k * (2 + g.edges.len()),
        nodes_replaced(g, chains_of(g).take(k as int), max_delay) <= 255 * k,
    decreases k,
{
    let chains = chains_of(g);
    if k > 0 {
        lemma_growth_bounded(g, (k - 1) as nat, max_delay);
        let chain = chains[k - 1];
        assert(chains.take(k as int).drop_last() =~= chains.take(k - 1));
        assert(chains.take(k as int).last() == chain);
        lemma_chain_nodes(g, k - 1);
        lemma_chains_len(g, index_limit());
        assert(g.nodes.contains_key(chain[chain.len() - 1]));
        lemma_few_outputs(g, chain.last());
        assert(replacement(summary(kinds_of(g, chain)), Seq::empty()).len() <= 3);
        let e = 2 + g.edges.len();
        assert((k - 1) * e + e == k * e) by (nonlinear_arith);
    }
}

/// The chains of a graph are replaced if all chainable nodes stand for blocks, no chain holds a
/// signal back for more than 255 ticks, and the graph has room.
pub proof fn law_chains_are_replaced_if_there_is_room(
    pass: ChainCoalesce,
    graph: &mut CompileGraph,
    max_delay: usize,
    actions: &mut Vec<RuntimeAction>,
    ran: bool,
)
    requires
        ({
            let g = contents(*old(graph));
            let count = chains_of(g).len();
            &&& g.wf()
            &&& forall|n: NodeIdx| #[trigger] chainable(g, n) ==> g.nodes[n].block is Some
            &&& forall|k: int|
                0 <= k < count ==> held_up(g, #[trigger] chains_of(g)[k], chains_of(g)[k].len())
                    <= 255
            &&& g.nodes.len() + 3 * count <= u32::MAX
            &&& 2 * (g.edges.len() + count * (2 + g.edges.len())) <= u32::MAX
            &&& 255 * count <= usize::MAX
        }),
        call_ensures(ChainCoalesce::try_run_pass, (&pass, graph, max_delay, actions), ran),
    ensures
        ran,
        call_requires(ChainCoalesce::run_pass, (&pass, graph, max_delay, actions)),
{
    let g = contents(*old(graph));
    let chains = chains_of(g);
    lemma_all_placed(g);
    lemma_growth_bounded(g, chains.len(), max_delay);
    assert(chains.take(chains.len() as int) =~= chains);
    assert forall|k: int| 0 <= k < chains.len() implies total_delay(
        kinds_of(g, #[trigger] chains[k]),
    ) <= u8::MAX by {
        lemma_held_up(g, chains[k]);
    }
    assert(can_easily_coalesce(g, max_delay));
}

/// A graph with a chainable node that stands for no block, or with a chain that holds a signal
/// back for more than 255 ticks, is refused.  One that is refused stays as it is, and nothing
/// is asked for.
pub proof fn law_refused_graphs_stay_as_they_are(
    pass: ChainCoalesce,
    graph: &mut CompileGraph,
    max_delay: usize,
    actions: &mut Vec<RuntimeAction>,
    ran: bool,
    n: NodeIdx,
    k: int,
)
    requires
        contents(*old(graph)).wf(),
        call_ensures(ChainCoalesce::try_run_pass, (&pass, graph, max_delay, actions), ran),
    ensures
        ({
            let g = contents(*old(graph));
            let chain = chains_of(g)[k];
            &&& chainable(g, n) && g.nodes[n].block is None ==> !ran
            &&& 0 <= k < chains_of(g).len() && held_up(g, chain, chain.len()) > 255 ==> !ran
            &&& !ran ==> *final(graph) == *old(graph) && final(actions)@ == old(actions)@
        }),
{
    let g = contents(*old(graph));
    lemma_all_placed(g);
    lemma_held_up(g, chains_of(g)[k]);
}

/// The pass says what it does.
pub proof fn law_coalescing_says_so(pass: ChainCoalesce, message: &'static str)
    requires
        call_ensures(ChainCoalesce::status_message, (&pass,), message),
    ensures
        message@ == "Coalescing chains"@,
{
}

} // verus!
