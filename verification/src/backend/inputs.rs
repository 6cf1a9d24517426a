//! The signal strengths that arrive at a node.

use vstd::prelude::*;

use crate::compile_graph::{CompileGraph, LinkType, NodeIdx};
use crate::graph::{
    ascends, contents, edges_directed, lemma_ascends, lemma_filter_distinct, lemma_indices_finite,
    node, Direction, Edge, EdgeIdx, GraphView,
};

verus! {

/// The strength with which the output of its source arrives over an edge.
pub open spec fn arriving(g: GraphView, edge: Edge) -> int {
    let strength = g.nodes[edge.source].state.output_strength;
    if strength >= edge.link.ss {
        strength - edge.link.ss
    } else {
        0
    }
}

/// Whether a signal of strength `ss` arrives over an edge of the given type.
pub open spec fn arrives(g: GraphView, ty: LinkType, ss: int) -> spec_fn(Edge) -> bool {
    |edge: Edge| edge.link.ty == ty && arriving(g, edge) == ss
}

/// How many edges of `list` are of the given type and bring a signal of strength `ss`.
pub open spec fn tally(g: GraphView, list: Seq<Edge>, ty: LinkType, ss: int) -> nat {
    list.filter(arrives(g, ty, ss)).len()
}

/// How many edges of `list` are of the given type.
pub open spec fn typed(list: Seq<Edge>, ty: LinkType) -> nat {
    list.filter(of_type(ty)).len()
}

/// Whether an edge is of the given type.
pub open spec fn of_type(ty: LinkType) -> spec_fn(Edge) -> bool {
    |edge: Edge| edge.link.ty == ty
}

/// How many edges of a type bring a signal of strength `ss` to `n`.
pub open spec fn input_count(g: GraphView, n: NodeIdx, ty: LinkType, ss: int) -> nat {
    tally(g, g.edges_of(n, Direction::Incoming), ty, ss)
}

/// Whether every signal that arrives at `n` has a strength that there is.
pub open spec fn inputs_in_range(g: GraphView, n: NodeIdx) -> bool {
    let list = g.edges_of(n, Direction::Incoming);
    forall|i: int| 0 <= i < list.len() ==> arriving(g, #[trigger] list[i]) < 16
}

/// The strength with which the output of its source arrives over an edge.
pub fn arriving_strength(graph: &CompileGraph, edge: &Edge) -> (ss: u8)
    requires
        contents(*graph).nodes.contains_key(edge.source),
    ensures
        ss == arriving(contents(*graph), *edge),
{
    node(graph, edge.source).state.output_strength.saturating_sub(edge.link.ss)
}

/// One edge more counts for its own type and strength.
pub proof fn lemma_one_more_input(g: GraphView, list: Seq<Edge>, i: int)
    requires
        0 <= i < list.len(),
    ensures
        forall|ty: LinkType, ss: int| #[trigger]
            tally(g, list.take(i + 1), ty, ss)
                == tally(g, list.take(i), ty, ss) + if list[i].link.ty
                == ty && arriving(g, list[i]) == ss {
                1int
            } else {
                0
            },
        forall|ty: LinkType| #[trigger]
            typed(list.take(i + 1), ty) == typed(list.take(i), ty) + if list[i].link.ty == ty {
                1int
            } else {
                0
            },
{
    reveal(Seq::filter);
    assert(list.take(i + 1).drop_last() =~= list.take(i));
    assert(list.take(i + 1).last() == list[i]);
}

/// Some of the edges count for no more than all, and for no more than there are.
pub proof fn lemma_some_inputs(g: GraphView, list: Seq<Edge>, i: int)
    requires
        0 <= i <= list.len(),
    ensures
        forall|ty: LinkType, ss: int| #[trigger] tally(g, list.take(i), ty, ss) <= i,
        forall|ty: LinkType, ss: int| #[trigger]
            tally(g, list.take(i), ty, ss) <= typed(list.take(i), ty),
        forall|ty: LinkType| #[trigger] typed(list.take(i), ty) <= typed(list, ty),
{
    lemma_counts(g, list, i);
    lemma_prefix(list, i);
}

proof fn lemma_counts(g: GraphView, list: Seq<Edge>, i: int)
    requires
        0 <= i <= list.len(),
    ensures
        forall|ty: LinkType, ss: int| #[trigger] tally(g, list.take(i), ty, ss) <= i,
        forall|ty: LinkType, ss: int| #[trigger]
            tally(g, list.take(i), ty, ss) <= typed(list.take(i), ty),
    decreases i,
{
    if i > 0 {
        lemma_counts(g, list, i - 1);
        lemma_one_more_input(g, list, i - 1);
        assert forall|ty: LinkType, ss: int| #[trigger]
            tally(g, list.take(i), ty, ss) <= typed(list.take(i), ty) && tally(
                g,
                list.take(i),
                ty,
                ss,
            ) <= i by {
            assert(tally(g, list.take(i - 1), ty, ss) <= typed(list.take(i - 1), ty));
            assert(tally(g, list.take(i - 1 + 1), ty, ss) == tally(g, list.take(i), ty, ss));
            assert(typed(list.take(i - 1 + 1), ty) == typed(list.take(i), ty));
        }
    } else {
        reveal(Seq::filter);
    }
}

proof fn lemma_prefix(list: Seq<Edge>, i: int)
    requires
        0 <= i <= list.len(),
    ensures
        forall|ty: LinkType| #[trigger] typed(list.take(i), ty) <= typed(list, ty),
    decreases list.len() - i,
{
    reveal(Seq::filter);
    if i < list.len() {
        lemma_prefix(list, i + 1);
        assert(list.take(i + 1).drop_last() =~= list.take(i));
        assert forall|ty: LinkType| #[trigger] typed(list.take(i), ty) <= typed(list, ty) by {
            assert(typed(list.take(i + 1), ty) <= typed(list, ty));
        }
    } else {
        assert(list.take(i) =~= list);
    }
}

/// Whether every signal that arrives at a node has a strength that there is.
pub fn are_inputs_in_range(graph: &CompileGraph, idx: NodeIdx) -> (r: bool)
    requires
        contents(*graph).nodes.contains_key(idx),
    ensures
        r == inputs_in_range(contents(*graph), idx),
{
    let edges = edges_directed(graph, idx, Direction::Incoming);
    let ghost g = contents(*graph);
    let mut i: usize = 0;
    while i < edges.len()
        invariant
            i <= edges@.len(),
            g == contents(*graph),
            edges@ == g.edges_of(idx, Direction::Incoming),
            g.lists_edges(idx, Direction::Incoming, edges@),
            forall|j: int| 0 <= j < i ==> arriving(g, #[trigger] edges@[j]) < 16,
        decreases edges@.len() - i,
    {
        let edge = edges[i];
        assert(edge == edges@[i as int]);
        if arriving_strength(graph, &edge) >= 16 {
            return false;
        }
        i += 1;
    }
    true
}

/// How many edges are of the given type.
pub fn count_typed(edges: &Vec<Edge>, ty: LinkType) -> (count: usize)
    ensures
        count == typed(edges@, ty),
{
    let mut count: usize = 0;
    let mut i: usize = 0;
    proof {
        reveal(Seq::filter);
        assert(edges@.take(0) =~= Seq::empty());
    }
    while i < edges.len()
        invariant
            i <= edges@.len(),
            count <= i,
            count == typed(edges@.take(i as int), ty),
        decreases edges@.len() - i,
    {
        proof {
            reveal(Seq::filter);
            assert(edges@.take(i + 1).drop_last() =~= edges@.take(i as int));
            assert(edges@.take(i + 1).last() == edges@[i as int]);
        }
        if edges[i].link.ty == ty {
            count += 1;
        }
        i += 1;
    }
    assert(edges@.take(i as int) =~= edges@);
    count
}

/// A list of edges has as many that satisfy a predicate as there are indices of such.
pub proof fn lemma_filter_ids(
    g: GraphView,
    node: NodeIdx,
    direction: Direction,
    list: Seq<Edge>,
    p: spec_fn(Edge) -> bool,
    ids: Set<EdgeIdx>,
)
    requires
        g.wf(),
        g.lists_edges(node, direction, list),
        forall|id: EdgeIdx| #[trigger]
            ids.contains(id) <==> g.edges.contains_key(id) && g.edges[id].end(direction) == node
                && p(g.edges[id]),
    ensures
        list.filter(p).len() == ids.len(),
{
    let kept = list.filter(p);
    let numbers = kept.map_values(|edge: Edge| edge.id);
    lemma_filter_distinct(list, p);
    assert(numbers.no_duplicates()) by {
        assert forall|i: int, j: int|
            0 <= i < numbers.len() && 0 <= j < numbers.len() && i != j implies numbers[i]
            != numbers[j] by {
            if i < j {
                assert(kept[i].id != kept[j].id);
            } else {
                assert(kept[j].id != kept[i].id);
            }
        }
    }
    numbers.unique_seq_to_set();
    assert(numbers.to_set() =~= ids) by {
        assert forall|id: EdgeIdx| #[trigger] numbers.contains(id) <==> ids.contains(id) by {
            if numbers.contains(id) {
                let i = numbers.index_of(id);
                list.lemma_filter_pred(p, i);
                assert(kept.contains(kept[i]));
                list.lemma_filter_contains_rev(p, kept[i]);
                let j = list.index_of(kept[i]);
                assert(list[j] == kept[i]);
            }
            if ids.contains(id) {
                assert(list.contains(g.edges[id]));
                let j = list.index_of(g.edges[id]);
                list.lemma_filter_contains(p, j);
                let i = kept.index_of(g.edges[id]);
                assert(numbers[i] == id);
            }
        }
    }
}

/// The edges of a type that lead to `n` and over which the output of their source arrives with
/// strength `ss`: what is left of it after the loss on the edge.
pub open spec fn edges_bringing(g: GraphView, n: NodeIdx, ty: LinkType, ss: int) -> Set<EdgeIdx> {
    Set::new(
        |id: EdgeIdx|
            {
                let edge = g.edges[id];
                let output = g.nodes[edge.source].state.output_strength;
                &&& g.edges.contains_key(id)
                &&& edge.target == n
                &&& edge.link.ty == ty
                &&& output - edge.link.ss == ss || (ss == 0 && output < edge.link.ss)
            },
    )
}

/// The inputs of a node are counted by the edges that lead to it.
pub proof fn law_inputs_are_counted_by_edges(g: GraphView, n: NodeIdx, ty: LinkType, ss: int)
    requires
        g.wf(),
        g.nodes.contains_key(n),
        0 <= ss,
    ensures
        input_count(g, n, ty, ss) == edges_bringing(g, n, ty, ss).len(),
{
    assert(g.lists_edges(n, Direction::Incoming, g.incoming[n]));
    lemma_filter_ids(
        g,
        n,
        Direction::Incoming,
        g.incoming[n],
        arrives(g, ty, ss),
        edges_bringing(g, n, ty, ss),
    );
}

/// The strength that arrives is what the loss on the way leaves of the output.
pub proof fn law_loss_weakens_signals(graph: &CompileGraph, edge: Edge, ss: u8)
    requires
        call_ensures(arriving_strength, (graph, &edge), ss),
    ensures
        ({
            let output = contents(*graph).nodes[edge.source].state.output_strength;
            &&& output >= edge.link.ss ==> ss == output - edge.link.ss
            &&& output < edge.link.ss ==> ss == 0
        }),
{
}

/// The edges with a property that have one of `nodes` at an end.
pub open spec fn ending_among(
    g: GraphView,
    direction: Direction,
    nodes: Seq<NodeIdx>,
    p: spec_fn(Edge) -> bool,
) -> Set<EdgeIdx> {
    Set::new(
        |id: EdgeIdx|
            g.edges.contains_key(id) && nodes.contains(g.edges[id].end(direction))
                && p(g.edges[id]),
    )
}

/// One node more adds the edges that it has.
pub proof fn lemma_one_more_end(
    g: GraphView,
    direction: Direction,
    order: Seq<NodeIdx>,
    k: int,
    p: spec_fn(Edge) -> bool,
)
    requires
        g.wf(),
        ascends(g, order),
        0 <= k < order.len(),
    ensures
        ending_among(g, direction, order.take(k + 1), p).len() == ending_among(
            g,
            direction,
            order.take(k),
            p,
        ).len() + g.edges_of(order[k], direction).filter(p).len(),
{
    lemma_ascends(g, order);
    let n = order[k];
    let before = ending_among(g, direction, order.take(k), p);
    let after = ending_among(g, direction, order.take(k + 1), p);
    let own = Set::new(
        |id: EdgeIdx|
            g.edges.contains_key(id) && g.edges[id].end(direction) == n && p(g.edges[id]),
    );
    lemma_indices_finite(before);
    lemma_indices_finite(own);
    assert(g.nodes.contains_key(n));
    assert(g.lists_edges(n, direction, g.edges_of(n, direction)));
    lemma_filter_ids(g, n, direction, g.edges_of(n, direction), p, own);
    assert forall|m: NodeIdx| #[trigger] order.take(k + 1).contains(m) <==> order.take(k).contains(
        m,
    ) || m == n by {
        if order.take(k + 1).contains(m) {
            let j = order.take(k + 1).index_of(m);
            if j < k {
                assert(order.take(k)[j] == m);
            }
        }
        if order.take(k).contains(m) {
            let j = order.take(k).index_of(m);
            assert(order.take(k + 1)[j] == m);
        }
        assert(order.take(k + 1)[k] == n);
    }
    assert(!order.take(k).contains(n)) by {
        if order.take(k).contains(n) {
            let j = order.take(k).index_of(n);
            assert(order[j] == order[k]);
        }
    }
    assert(after =~= before.union(own));
    assert(before.disjoint(own));
    vstd::set_lib::lemma_set_disjoint_lens(before, own);
}

/// No node has edges of none, and all nodes have all.
pub proof fn lemma_all_ends(
    g: GraphView,
    direction: Direction,
    order: Seq<NodeIdx>,
    p: spec_fn(Edge) -> bool,
)
    requires
        g.wf(),
        ascends(g, order),
    ensures
        ending_among(g, direction, order.take(0), p).len() == 0,
        ending_among(g, direction, order, p) == Set::new(
            |id: EdgeIdx| g.edges.contains_key(id) && p(g.edges[id]),
        ),
{
    assert(ending_among(g, direction, order.take(0), p) =~= Set::empty());
    assert forall|id: EdgeIdx| #[trigger] g.edges.contains_key(id) implies order.contains(
        g.edges[id].end(direction),
    ) by {
        assert(g.nodes.contains_key(g.edges[id].source));
        assert(g.nodes.contains_key(g.edges[id].target));
    }
    assert(ending_among(g, direction, order, p) =~= Set::new(
        |id: EdgeIdx| g.edges.contains_key(id) && p(g.edges[id]),
    ));
}

/// The inputs of a node are in range if no signal has more than full strength left where it
/// arrives.
pub proof fn law_inputs_in_range_are_no_stronger_than_full(
    graph: CompileGraph,
    n: NodeIdx,
    r: bool,
)
    requires
        contents(graph).wf(),
        contents(graph).nodes.contains_key(n),
        call_ensures(are_inputs_in_range, (&graph, n), r),
    ensures
        ({
            let g = contents(graph);
            r <==> forall|id: EdgeIdx| #[trigger]
                g.edges.contains_key(id) && g.edges[id].target == n
                    ==> g.nodes[g.edges[id].source].state.output_strength - g.edges[id].link.ss <= 15
        }),
{
    let g = contents(graph);
    let list = g.edges_of(n, Direction::Incoming);
    assert(g.lists_edges(n, Direction::Incoming, list));
    if r {
        assert forall|id: EdgeIdx| #[trigger]
            g.edges.contains_key(id) && g.edges[id].target == n
                implies g.nodes[g.edges[id].source].state.output_strength
            - g.edges[id].link.ss <= 15 by {
            assert(list.contains(g.edges[id]));
            let i = list.index_of(g.edges[id]);
            assert(arriving(g, list[i]) < 16);
        }
    } else {
        let i = choose|i: int| 0 <= i < list.len() && arriving(g, #[trigger] list[i]) >= 16;
        assert(g.edges.contains_pair(list[i].id, list[i]));
        assert(g.edges.contains_key(list[i].id));
    }
}

/// Of the edges of a list each is counted once, under its type.
pub proof fn law_edges_are_counted_by_type(
    edges: Vec<Edge>,
    more: Vec<Edge>,
    edge: Edge,
    ty: LinkType,
    count: usize,
    one_more: usize,
)
    requires
        more@ == edges@.push(edge),
        call_ensures(count_typed, (&edges, ty), count),
        call_ensures(count_typed, (&more, ty), one_more),
    ensures
        edges@.len() == 0 ==> count == 0,
        edge.link.ty == ty ==> one_more == count + 1,
        edge.link.ty != ty ==> one_more == count,
{
    reveal(Seq::filter);
    assert(more@.drop_last() =~= edges@);
}

} // verus!
