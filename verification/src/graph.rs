//! What a [`CompileGraph`] holds, and the operations on it that the compiler uses.

use petgraph::graph::{EdgeIndex, NodeIndex};
use petgraph::stable_graph::StableGraph;
use petgraph::visit::EdgeRef;
use petgraph::Directed;
use vstd::prelude::*;

use crate::compile_graph::{CompileGraph, CompileLink, CompileNode, NodeIdx};

verus! {

/// The graph type of `petgraph` whose indices survive the removal of other items.
#[verifier::external_type_specification]
#[verifier::external_body]
#[verifier::reject_recursive_types(N)]
#[verifier::reject_recursive_types(E)]
#[verifier::reject_recursive_types(Ty)]
#[verifier::reject_recursive_types(Ix)]
pub struct ExStableGraph<N, E, Ty, Ix>(StableGraph<N, E, Ty, Ix>);

/// The marker of `petgraph` for graphs whose edges have a direction.
#[verifier::external_type_specification]
#[verifier::external_body]
pub struct ExDirected(Directed);

/// The index of an edge in a [`CompileGraph`].
pub type EdgeIdx = u32;

/// An edge of a [`CompileGraph`].
#[derive(Debug, Copy, Clone, PartialEq, Eq, Structural)]
pub struct Edge {
    pub id: EdgeIdx,
    pub source: NodeIdx,
    pub target: NodeIdx,
    pub link: CompileLink,
}

/// Which of a node's edges are meant: those that end at it or those that start at it.
#[derive(Debug, Copy, Clone, PartialEq, Eq, Structural)]
pub enum Direction {
    Incoming,
    Outgoing,
}

/// The nodes of a graph, by index.
pub uninterp spec fn graph_nodes(graph: CompileGraph) -> Map<NodeIdx, CompileNode>;

/// The edges of a graph, by index.
pub uninterp spec fn graph_edges(graph: CompileGraph) -> Map<EdgeIdx, Edge>;

/// The edges that start at each node, the latest first.
pub uninterp spec fn graph_outgoing(graph: CompileGraph) -> Map<NodeIdx, Seq<Edge>>;

/// The edges that end at each node, the latest first.
pub uninterp spec fn graph_incoming(graph: CompileGraph) -> Map<NodeIdx, Seq<Edge>>;

/// The mathematical content of a [`CompileGraph`].
#[verifier::ext_equal]
pub struct GraphView {
    pub nodes: Map<NodeIdx, CompileNode>,
    pub edges: Map<EdgeIdx, Edge>,
    pub outgoing: Map<NodeIdx, Seq<Edge>>,
    pub incoming: Map<NodeIdx, Seq<Edge>>,
}

/// The content of `graph`.
pub open spec fn contents(graph: CompileGraph) -> GraphView {
    GraphView {
        nodes: graph_nodes(graph),
        edges: graph_edges(graph),
        outgoing: graph_outgoing(graph),
        incoming: graph_incoming(graph),
    }
}

impl Edge {
    /// The end of the edge at which it is an edge of the given direction.
    pub open spec fn end(self, direction: Direction) -> NodeIdx {
        match direction {
            Direction::Incoming => self.target,
            Direction::Outgoing => self.source,
        }
    }
}

/// Whether an edge does not have the index `id`.
pub open spec fn other_than(id: EdgeIdx) -> spec_fn(Edge) -> bool {
    |e: Edge| e.id != id
}

/// `lists` with `edge` put first in the list of `node`.
pub open spec fn listed_first(
    lists: Map<NodeIdx, Seq<Edge>>,
    node: NodeIdx,
    edge: Edge,
) -> Map<NodeIdx, Seq<Edge>> {
    lists.insert(node, seq![edge] + lists[node])
}

impl GraphView {
    /// The edges of `node` in one direction, the latest first.
    pub open spec fn edges_of(self, node: NodeIdx, direction: Direction) -> Seq<Edge> {
        let lists = match direction {
            Direction::Incoming => self.incoming,
            Direction::Outgoing => self.outgoing,
        };
        if self.nodes.contains_key(node) {
            lists[node]
        } else {
            Seq::empty()
        }
    }

    /// The graph with a node more, which has no edges.
    pub open spec fn with_new_node(self, idx: NodeIdx, node: CompileNode) -> GraphView {
        GraphView {
            nodes: self.nodes.insert(idx, node),
            edges: self.edges,
            outgoing: self.outgoing.insert(idx, Seq::empty()),
            incoming: self.incoming.insert(idx, Seq::empty()),
        }
    }

    /// The graph with another weight on the node `idx`.
    pub open spec fn with_node(self, idx: NodeIdx, node: CompileNode) -> GraphView {
        GraphView { nodes: self.nodes.insert(idx, node), ..self }
    }

    /// The graph with an edge more.
    pub open spec fn with_edge(self, edge: Edge) -> GraphView {
        GraphView {
            nodes: self.nodes,
            edges: self.edges.insert(edge.id, edge),
            outgoing: listed_first(self.outgoing, edge.source, edge),
            incoming: listed_first(self.incoming, edge.target, edge),
        }
    }

    /// The graph without the edge `id`.
    pub open spec fn without_edge(self, id: EdgeIdx) -> GraphView {
        if self.edges.contains_key(id) {
            let edge = self.edges[id];
            GraphView {
                nodes: self.nodes,
                edges: self.edges.remove(id),
                outgoing: self.outgoing.insert(
                    edge.source,
                    self.outgoing[edge.source].filter(other_than(id)),
                ),
                incoming: self.incoming.insert(
                    edge.target,
                    self.incoming[edge.target].filter(other_than(id)),
                ),
            }
        } else {
            self
        }
    }

    /// The graph with new nodes `nodes` under the indices `indices`, added in order.
    pub open spec fn with_new_nodes(
        self,
        indices: Seq<NodeIdx>,
        nodes: Seq<CompileNode>,
    ) -> GraphView
        decreases indices.len(),
    {
        if indices.len() == 0 {
            self
        } else {
            self.with_new_nodes(indices.drop_last(), nodes.drop_last()).with_new_node(
                indices.last(),
                nodes.last(),
            )
        }
    }

    /// The graph with the edges of `list` added in order.
    pub open spec fn with_edges(self, list: Seq<Edge>) -> GraphView
        decreases list.len(),
    {
        if list.len() == 0 {
            self
        } else {
            self.with_edges(list.drop_last()).with_edge(list.last())
        }
    }

    /// The graph without the edges of `list`.
    pub open spec fn without_edges(self, list: Seq<Edge>) -> GraphView
        decreases list.len(),
    {
        if list.len() == 0 {
            self
        } else {
            self.without_edges(list.drop_last()).without_edge(list.last().id)
        }
    }

    /// The graph in which the nodes of `list` stand for no block.
    pub open spec fn without_blocks(self, list: Seq<NodeIdx>) -> GraphView {
        GraphView {
            nodes: Map::new(
                |n: NodeIdx| self.nodes.contains_key(n),
                |n: NodeIdx|
                    if list.contains(n) {
                        CompileNode { block: None, ..self.nodes[n] }
                    } else {
                        self.nodes[n]
                    },
            ),
            ..self
        }
    }

    /// Whether the indices are distinct and none of them is in use for a node.
    pub open spec fn free_for_nodes(self, indices: Seq<NodeIdx>) -> bool {
        &&& indices.no_duplicates()
        &&& forall|i: int|
            0 <= i < indices.len() ==> !self.nodes.contains_key(#[trigger] indices[i])
    }

    /// Whether the edges of `list` can be added: their ends are nodes of the graph, and
    /// their indices are distinct and not in use.
    pub open spec fn can_take(self, list: Seq<Edge>) -> bool {
        &&& forall|i: int|
            0 <= i < list.len() ==> {
                let edge = #[trigger] list[i];
                &&& !self.edges.contains_key(edge.id)
                &&& self.nodes.contains_key(edge.source)
                &&& self.nodes.contains_key(edge.target)
            }
        &&& forall|i: int, j: int|
            0 <= i < j < list.len() ==> (#[trigger] list[i]).id != (#[trigger] list[j]).id
    }

    /// The graph with only those edges whose link satisfies `keep`.
    pub open spec fn retaining(self, keep: spec_fn(CompileLink) -> bool) -> GraphView {
        GraphView {
            nodes: self.nodes,
            edges: self.edges.restrict(
                Set::new(|id: EdgeIdx| self.edges.contains_key(id) && keep(self.edges[id].link)),
            ),
            outgoing: self.outgoing.map_values(
                |list: Seq<Edge>| list.filter(|e: Edge| keep(e.link)),
            ),
            incoming: self.incoming.map_values(
                |list: Seq<Edge>| list.filter(|e: Edge| keep(e.link)),
            ),
        }
    }

    /// Whether the parts of the graph agree: each edge is filed under its own index, has
    /// its ends among the nodes, and stands once in the list of each end.
    pub open spec fn wf(self) -> bool {
        &&& self.outgoing.dom() == self.nodes.dom()
        &&& self.incoming.dom() == self.nodes.dom()
        &&& forall|id: EdgeIdx| #[trigger]
            self.edges.contains_key(id) ==> {
                &&& self.edges[id].id == id
                &&& self.nodes.contains_key(self.edges[id].source)
                &&& self.nodes.contains_key(self.edges[id].target)
            }
        &&& forall|n: NodeIdx| #[trigger]
            self.nodes.contains_key(n) ==> {
                &&& self.lists_edges(n, Direction::Outgoing, self.outgoing[n])
                &&& self.lists_edges(n, Direction::Incoming, self.incoming[n])
            }
    }

    /// Whether this is a well-formed graph of `count` nodes.
    pub open spec fn consistent_with(self, count: usize) -> bool {
        self.wf() && self.nodes.len() == count
    }

    /// Whether `list` is made of exactly the edges that `node` has in one direction,
    /// each of them once, and the nodes at their ends are nodes of the graph.
    pub open spec fn lists_edges(
        self,
        node: NodeIdx,
        direction: Direction,
        list: Seq<Edge>,
    ) -> bool {
        &&& forall|i: int|
            0 <= i < list.len() ==> {
                let edge = #[trigger] list[i];
                &&& self.edges.contains_pair(edge.id, edge)
                &&& edge.end(direction) == node
                &&& self.nodes.contains_key(edge.source)
                &&& self.nodes.contains_key(edge.target)
            }
        &&& forall|id: EdgeIdx|
            #[trigger] self.edges.contains_key(id) && self.edges[id].end(direction) == node
                ==> list.contains(self.edges[id])
        &&& forall|i: int, j: int|
            0 <= i < j < list.len() ==> (#[trigger] list[i]).id != (#[trigger] list[j]).id
    }
}

/// Every set of indices is finite.
pub proof fn lemma_indices_finite(s: Set<u32>)
    ensures
        s.finite(),
{
    broadcast use vstd::set_lib::full_set_properties;
    vstd::set_lib::lemma_set_subset_finite(Set::<u32>::full(), s);
}

/// A node more.
pub proof fn lemma_with_new_node(v: GraphView, idx: NodeIdx, node: CompileNode)
    requires
        v.wf(),
        !v.nodes.contains_key(idx),
    ensures
        v.with_new_node(idx, node).wf(),
        v.with_new_node(idx, node).nodes.len() == v.nodes.len() + 1,
{
    let w = v.with_new_node(idx, node);
    lemma_indices_finite(v.nodes.dom());
    assert(w.outgoing.dom() =~= w.nodes.dom());
    assert(w.incoming.dom() =~= w.nodes.dom());
    assert forall|n: NodeIdx| #[trigger] w.nodes.contains_key(n) implies {
        &&& w.lists_edges(n, Direction::Outgoing, w.outgoing[n])
        &&& w.lists_edges(n, Direction::Incoming, w.incoming[n])
    } by {
        if n != idx {
            assert(v.nodes.contains_key(n));
        }
    }
}

/// Nodes more.
pub proof fn lemma_with_new_nodes(v: GraphView, indices: Seq<NodeIdx>, nodes: Seq<CompileNode>)
    requires
        v.wf(),
        v.free_for_nodes(indices),
        indices.len() == nodes.len(),
    ensures
        v.with_new_nodes(indices, nodes).wf(),
        v.with_new_nodes(indices, nodes).edges == v.edges,
        v.with_new_nodes(indices, nodes).nodes.len() == v.nodes.len() + nodes.len(),
        forall|n: NodeIdx| #[trigger]
            v.with_new_nodes(indices, nodes).nodes.contains_key(n) <==> v.nodes.contains_key(n)
                || indices.contains(n),
        forall|i: int|
            0 <= i < indices.len() ==> v.with_new_nodes(
                indices,
                nodes,
            ).nodes[#[trigger] indices[i]] == nodes[i],
        forall|n: NodeIdx| #[trigger]
            v.nodes.contains_key(n) ==> {
                let w = v.with_new_nodes(indices, nodes);
                &&& w.nodes[n] == v.nodes[n]
                &&& w.outgoing[n] == v.outgoing[n]
                &&& w.incoming[n] == v.incoming[n]
            },
    decreases indices.len(),
{
    if indices.len() > 0 {
        let ids = indices.drop_last();
        let rest = nodes.drop_last();
        let last = indices.last();
        assert(v.free_for_nodes(ids));
        lemma_with_new_nodes(v, ids, rest);
        let w = v.with_new_nodes(ids, rest);
        assert(!ids.contains(last)) by {
            if ids.contains(last) {
                let j = ids.index_of(last);
                assert(indices[j] == indices[indices.len() - 1]);
            }
        }
        assert(!v.nodes.contains_key(indices[indices.len() - 1]));
        lemma_with_new_node(w, last, nodes.last());
        let z = v.with_new_nodes(indices, nodes);
        assert forall|n: NodeIdx| #[trigger] z.nodes.contains_key(n) <==> v.nodes.contains_key(n)
            || indices.contains(n) by {
            if indices.contains(n) && n != last {
                let j = indices.index_of(n);
                assert(ids[j] == n);
            }
            if ids.contains(n) {
                let j = ids.index_of(n);
                assert(indices[j] == n);
            }
            assert(indices[indices.len() - 1] == last);
        }
        assert forall|i: int| 0 <= i < indices.len() implies z.nodes[#[trigger] indices[i]]
            == nodes[i] by {
            if i < ids.len() {
                assert(ids[i] == indices[i]);
                assert(w.nodes[ids[i]] == rest[i]);
            }
        }
    }
}

/// Edges more.
pub proof fn lemma_with_edges(v: GraphView, list: Seq<Edge>)
    requires
        v.wf(),
        v.can_take(list),
    ensures
        v.with_edges(list).wf(),
        v.with_edges(list).nodes == v.nodes,
        v.with_edges(list).edges.len() == v.edges.len() + list.len(),
        forall|i: int|
            0 <= i < list.len() ==> v.with_edges(list).edges.contains_pair(
                (#[trigger] list[i]).id,
                list[i],
            ),
        forall|id: EdgeIdx| #[trigger]
            v.edges.contains_key(id) ==> v.with_edges(list).edges.contains_pair(id, v.edges[id]),
        forall|id: EdgeIdx| #[trigger]
            v.with_edges(list).edges.contains_key(id) ==> v.edges.contains_key(id) || exists|i: int|
                0 <= i < list.len() && (#[trigger] list[i]).id == id,
    decreases list.len(),
{
    if list.len() > 0 {
        let rest = list.drop_last();
        let last = list.last();
        assert forall|i: int| 0 <= i < rest.len() implies {
            let edge = #[trigger] rest[i];
            &&& !v.edges.contains_key(edge.id)
            &&& v.nodes.contains_key(edge.source)
            &&& v.nodes.contains_key(edge.target)
        } by {
            assert(rest[i] == list[i]);
        }
        assert(v.can_take(rest));
        lemma_with_edges(v, rest);
        let w = v.with_edges(rest);
        assert(last == list[list.len() - 1]);
        assert(!w.edges.contains_key(last.id)) by {
            if w.edges.contains_key(last.id) {
                let i = choose|i: int| 0 <= i < rest.len() && (#[trigger] rest[i]).id == last.id;
                assert(list[i] == rest[i]);
            }
        }
        lemma_with_edge(w, last);
        let z = v.with_edges(list);
        assert forall|i: int| 0 <= i < list.len() implies z.edges.contains_pair(
            (#[trigger] list[i]).id,
            list[i],
        ) by {
            if i < rest.len() {
                assert(rest[i] == list[i]);
            }
        }
        assert forall|id: EdgeIdx| #[trigger]
            z.edges.contains_key(id) implies v.edges.contains_key(id) || exists|i: int|
            0 <= i < list.len() && (#[trigger] list[i]).id == id by {
            if id == last.id {
                assert(list[list.len() - 1].id == id);
            } else {
                assert(w.edges.contains_key(id));
                if !v.edges.contains_key(id) {
                    let i = choose|i: int| 0 <= i < rest.len() && (#[trigger] rest[i]).id == id;
                    assert(list[i].id == id);
                }
            }
        }
    }
}

/// Edges less.
pub proof fn lemma_without_edges(v: GraphView, list: Seq<Edge>)
    requires
        v.wf(),
        forall|i: int| 0 <= i < list.len() ==> v.edges.contains_pair((#[trigger] list[i]).id, list[i]),
        forall|i: int, j: int|
            0 <= i < j < list.len() ==> (#[trigger] list[i]).id != (#[trigger] list[j]).id,
    ensures
        v.without_edges(list).wf(),
        v.without_edges(list).nodes == v.nodes,
        v.without_edges(list).edges.len() == v.edges.len() - list.len(),
        forall|id: EdgeIdx|
            #![trigger v.without_edges(list).edges.contains_key(id)]
            v.without_edges(list).edges.contains_key(id) <==> v.edges.contains_key(id) && forall|
                i: int,
            |
                0 <= i < list.len() ==> (#[trigger] list[i]).id != id,
        forall|id: EdgeIdx| #[trigger]
            v.without_edges(list).edges.contains_key(id) ==> v.without_edges(list).edges[id]
                == v.edges[id],
    decreases list.len(),
{
    if list.len() > 0 {
        let rest = list.drop_last();
        let last = list.last();
        assert forall|i: int| 0 <= i < rest.len() implies v.edges.contains_pair(
            (#[trigger] rest[i]).id,
            rest[i],
        ) by {
            assert(rest[i] == list[i]);
        }
        lemma_without_edges(v, rest);
        let w = v.without_edges(rest);
        assert(last == list[list.len() - 1]);
        assert forall|i: int| 0 <= i < rest.len() implies (#[trigger] rest[i]).id != last.id by {
            assert(rest[i] == list[i]);
        }
        assert(w.edges.contains_key(last.id));
        lemma_without_edge(w, last.id);
        let z = v.without_edges(list);
        assert forall|id: EdgeIdx|
            #![trigger z.edges.contains_key(id)]
            z.edges.contains_key(id) <==> v.edges.contains_key(id) && forall|i: int|
                0 <= i < list.len() ==> (#[trigger] list[i]).id != id by {
            if z.edges.contains_key(id) {
                assert forall|i: int| 0 <= i < list.len() implies (#[trigger] list[i]).id != id by {
                    if i < rest.len() {
                        assert(rest[i] == list[i]);
                    }
                }
            }
            if v.edges.contains_key(id) && forall|i: int|
                0 <= i < list.len() ==> (#[trigger] list[i]).id != id {
                assert forall|i: int| 0 <= i < rest.len() implies (#[trigger] rest[i]).id != id by {
                    assert(rest[i] == list[i]);
                }
                assert(w.edges.contains_key(id));
            }
        }
    }
}

/// No blocks on some nodes.
pub proof fn lemma_without_blocks(v: GraphView, list: Seq<NodeIdx>)
    requires
        v.wf(),
    ensures
        v.without_blocks(list).wf(),
        v.without_blocks(list).nodes.dom() == v.nodes.dom(),
{
    let w = v.without_blocks(list);
    assert(w.nodes.dom() =~= v.nodes.dom());
    assert forall|n: NodeIdx| #[trigger] w.nodes.contains_key(n) implies {
        &&& w.lists_edges(n, Direction::Outgoing, w.outgoing[n])
        &&& w.lists_edges(n, Direction::Incoming, w.incoming[n])
    } by {
        assert(v.nodes.contains_key(n));
    }
}

/// An edge more.
pub proof fn lemma_with_edge(v: GraphView, edge: Edge)
    requires
        v.wf(),
        !v.edges.contains_key(edge.id),
        v.nodes.contains_key(edge.source),
        v.nodes.contains_key(edge.target),
    ensures
        v.with_edge(edge).wf(),
        v.with_edge(edge).edges.len() == v.edges.len() + 1,
{
    let w = v.with_edge(edge);
    lemma_indices_finite(v.edges.dom());
    assert(w.outgoing.dom() =~= w.nodes.dom());
    assert(w.incoming.dom() =~= w.nodes.dom());
    assert forall|n: NodeIdx| #[trigger] w.nodes.contains_key(n) implies {
        &&& w.lists_edges(n, Direction::Outgoing, w.outgoing[n])
        &&& w.lists_edges(n, Direction::Incoming, w.incoming[n])
    } by {
        assert(v.nodes.contains_key(n));
        lemma_list_with_edge(v, edge, n, Direction::Outgoing, v.outgoing[n], w.outgoing[n]);
        lemma_list_with_edge(v, edge, n, Direction::Incoming, v.incoming[n], w.incoming[n]);
    }
}

proof fn lemma_list_with_edge(
    v: GraphView,
    edge: Edge,
    n: NodeIdx,
    direction: Direction,
    before: Seq<Edge>,
    after: Seq<Edge>,
)
    requires
        v.lists_edges(n, direction, before),
        !v.edges.contains_key(edge.id),
        v.nodes.contains_key(edge.source),
        v.nodes.contains_key(edge.target),
        after == if edge.end(direction) == n {
            seq![edge] + before
        } else {
            before
        },
    ensures
        v.with_edge(edge).lists_edges(n, direction, after),
{
    let w = v.with_edge(edge);
    assert forall|id: EdgeIdx| #[trigger]
        w.edges.contains_key(id) && w.edges[id].end(direction) == n implies after.contains(
        w.edges[id],
    ) by {
        if id == edge.id {
            assert(after[0] == edge);
        } else {
            assert(v.edges.contains_key(id));
            assert(before.contains(v.edges[id]));
            let j = before.index_of(v.edges[id]);
            if edge.end(direction) == n {
                assert(after[j + 1] == v.edges[id]);
            } else {
                assert(after[j] == v.edges[id]);
            }
        }
    }
    assert forall|i: int| 0 <= i < after.len() implies {
        let e = #[trigger] after[i];
        &&& w.edges.contains_pair(e.id, e)
        &&& e.end(direction) == n
        &&& w.nodes.contains_key(e.source)
        &&& w.nodes.contains_key(e.target)
    } by {
        if edge.end(direction) == n {
            if i > 0 {
                assert(after[i] == before[i - 1]);
            }
        } else {
            assert(after[i] == before[i]);
        }
    }
    assert forall|i: int, j: int| 0 <= i < j < after.len() implies (#[trigger] after[i]).id != (
    #[trigger] after[j]).id by {
        if edge.end(direction) == n {
            assert(after[j] == before[j - 1]);
            if i > 0 {
                assert(after[i] == before[i - 1]);
            }
        }
    }
}

/// An edge less.
pub proof fn lemma_without_edge(v: GraphView, id: EdgeIdx)
    requires
        v.wf(),
        v.edges.contains_key(id),
    ensures
        v.without_edge(id).wf(),
        v.without_edge(id).edges.len() == v.edges.len() - 1,
        forall|n: NodeIdx| #[trigger]
            v.nodes.contains_key(n) ==> v.without_edge(id).outgoing[n].len()
                == v.outgoing[n].len() - if v.edges[id].source == n {
                1int
            } else {
                0
            },
{
    let w = v.without_edge(id);
    let edge = v.edges[id];
    lemma_indices_finite(v.edges.dom());
    assert(w.outgoing.dom() =~= w.nodes.dom());
    assert(w.incoming.dom() =~= w.nodes.dom());
    assert forall|n: NodeIdx| #[trigger] w.nodes.contains_key(n) implies {
        &&& w.lists_edges(n, Direction::Outgoing, w.outgoing[n])
        &&& w.lists_edges(n, Direction::Incoming, w.incoming[n])
    } by {
        assert(v.nodes.contains_key(n));
        lemma_list_without_edge(v, edge, n, Direction::Outgoing, v.outgoing[n], w.outgoing[n]);
        lemma_list_without_edge(v, edge, n, Direction::Incoming, v.incoming[n], w.incoming[n]);
    }
    assert forall|n: NodeIdx| #[trigger] v.nodes.contains_key(n) implies w.outgoing[n].len()
        == v.outgoing[n].len() - if edge.source == n {
        1int
    } else {
        0
    } by {
        lemma_list_without_edge(v, edge, n, Direction::Outgoing, v.outgoing[n], w.outgoing[n]);
    }
}

proof fn lemma_list_without_edge(
    v: GraphView,
    edge: Edge,
    n: NodeIdx,
    direction: Direction,
    before: Seq<Edge>,
    after: Seq<Edge>,
)
    requires
        v.lists_edges(n, direction, before),
        v.edges.contains_pair(edge.id, edge),
        forall|id: EdgeIdx| #[trigger] v.edges.contains_key(id) ==> v.edges[id].id == id,
        after == if edge.end(direction) == n {
            before.filter(other_than(edge.id))
        } else {
            before
        },
    ensures
        v.without_edge(edge.id).lists_edges(n, direction, after),
        edge.end(direction) == n ==> after.len() == before.len() - 1,
{
    let w = v.without_edge(edge.id);
    if edge.end(direction) == n {
        assert(before.contains(edge));
        let k = before.index_of(edge);
        lemma_filter_one(before, k);
        assert(after == before.remove(k));
        assert forall|other: EdgeIdx| #[trigger]
            w.edges.contains_key(other) && w.edges[other].end(direction) == n implies after.contains(
            w.edges[other],
        ) by {
            assert(v.edges.contains_key(other));
            assert(before.contains(v.edges[other]));
            let j = before.index_of(v.edges[other]);
            if j < k {
                assert(after[j] == before[j]);
            } else if j > k {
                assert(after[j - 1] == before[j]);
            } else {
                assert(before[k].id == edge.id);
                assert(v.edges.contains_pair(v.edges[other].id, v.edges[other]));
            }
        }
        assert forall|i: int| 0 <= i < after.len() implies {
            let e = #[trigger] after[i];
            &&& w.edges.contains_pair(e.id, e)
            &&& e.end(direction) == n
            &&& w.nodes.contains_key(e.source)
            &&& w.nodes.contains_key(e.target)
        } by {
            let j = if i < k {
                i
            } else {
                i + 1
            };
            assert(after[i] == before[j]);
            assert(before[k].id == edge.id);
        }
        assert forall|i: int, j: int| 0 <= i < j < after.len() implies (#[trigger] after[i]).id != (
        #[trigger] after[j]).id by {
            let i2 = if i < k {
                i
            } else {
                i + 1
            };
            let j2 = if j < k {
                j
            } else {
                j + 1
            };
            assert(before[i2].id != before[j2].id);
        }
    } else {
        assert forall|i: int| 0 <= i < after.len() implies {
            let e = #[trigger] after[i];
            &&& w.edges.contains_pair(e.id, e)
            &&& e.end(direction) == n
            &&& w.nodes.contains_key(e.source)
            &&& w.nodes.contains_key(e.target)
        } by {
            assert(after[i] == before[i]);
        }
    }
}

/// Filtering out the index of one edge of a list removes that edge.
proof fn lemma_filter_one(list: Seq<Edge>, k: int)
    requires
        0 <= k < list.len(),
        forall|i: int, j: int|
            0 <= i < j < list.len() ==> (#[trigger] list[i]).id != (#[trigger] list[j]).id,
    ensures
        list.filter(other_than(list[k].id)) == list.remove(k),
    decreases list.len(),
{
    reveal(Seq::filter);
    let p = other_than(list[k].id);
    let rest = list.drop_last();
    if k == list.len() - 1 {
        assert forall|i: int| 0 <= i < rest.len() implies p(#[trigger] rest[i]) by {
            assert(rest[i] == list[i]);
        }
        lemma_filter_all(rest, p);
        assert(rest =~= list.remove(k));
    } else {
        assert(rest[k] == list[k]);
        lemma_filter_one(rest, k);
        assert(p(list.last()));
        assert(rest.remove(k).push(list.last()) =~= list.remove(k));
    }
}

/// Filtering by what holds of all changes nothing.
pub proof fn lemma_filter_all<A>(list: Seq<A>, p: spec_fn(A) -> bool)
    requires
        forall|i: int| 0 <= i < list.len() ==> p(#[trigger] list[i]),
    ensures
        list.filter(p) == list,
    decreases list.len(),
{
    reveal(Seq::filter);
    if list.len() > 0 {
        let rest = list.drop_last();
        assert forall|i: int| 0 <= i < rest.len() implies p(#[trigger] rest[i]) by {
            assert(rest[i] == list[i]);
        }
        lemma_filter_all(rest, p);
        assert(p(list[list.len() - 1]));
        assert(rest.push(list.last()) =~= list);
    } else {
        assert(list.filter(p) =~= list);
    }
}

/// Filtering keeps the indices of edges distinct.
pub proof fn lemma_filter_distinct(list: Seq<Edge>, p: spec_fn(Edge) -> bool)
    requires
        forall|i: int, j: int|
            0 <= i < j < list.len() ==> (#[trigger] list[i]).id != (#[trigger] list[j]).id,
    ensures
        forall|i: int, j: int|
            0 <= i < j < list.filter(p).len() ==> (#[trigger] list.filter(p)[i]).id != (
            #[trigger] list.filter(p)[j]).id,
    decreases list.len(),
{
    reveal(Seq::filter);
    if list.len() > 0 {
        let rest = list.drop_last();
        assert forall|i: int, j: int| 0 <= i < j < rest.len() implies (#[trigger] rest[i]).id != (
        #[trigger] rest[j]).id by {
            assert(list[i].id != list[j].id);
        }
        lemma_filter_distinct(rest, p);
        if p(list.last()) {
            let kept = rest.filter(p);
            assert forall|i: int| 0 <= i < kept.len() implies (#[trigger] kept[i]).id
                != list.last().id by {
                assert(kept.contains(kept[i]));
                rest.lemma_filter_contains_rev(p, kept[i]);
                let j = rest.index_of(kept[i]);
                assert(list[j].id != list[list.len() - 1].id);
            }
        }
    }
}

/// `StableGraph::node_count`: the number of nodes.  It stays below the reserved last
/// index, and what is counted is a consistent graph: every edge has its ends among the
/// nodes and stands once in the lists of both.
#[verifier::external_body]
pub(crate) fn node_count(graph: &CompileGraph) -> (count: usize)
    ensures
        count == graph_nodes(*graph).len(),
        contents(*graph).consistent_with(count),
        count <= u32::MAX,
{
    graph.node_count()
}

/// `StableGraph::edge_count`: the number of edges.
#[verifier::external_body]
pub(crate) fn edge_count(graph: &CompileGraph) -> (count: usize)
    ensures
        count == graph_edges(*graph).len(),
{
    graph.edge_count()
}

/// `StableGraph::contains_node`: whether the graph has a node of this index.
#[verifier::external_body]
pub(crate) fn contains_node(graph: &CompileGraph, idx: NodeIdx) -> (found: bool)
    ensures
        found == contents(*graph).nodes.contains_key(idx),
{
    graph.contains_node(NodeIndex::from(idx))
}

/// Whether `indices` are the indices of all nodes, in ascending order.
pub open spec fn ascends(g: GraphView, indices: Seq<NodeIdx>) -> bool {
    &&& forall|i: int, j: int| 0 <= i < j < indices.len() ==> indices[i] < indices[j]
    &&& forall|idx: NodeIdx|
        #![trigger g.nodes.contains_key(idx)]
        #![trigger indices.contains(idx)]
        g.nodes.contains_key(idx) <==> indices.contains(idx)
}

/// The indices of all nodes are as many as the nodes, and none occurs twice.
pub proof fn lemma_ascends(g: GraphView, indices: Seq<NodeIdx>)
    requires
        ascends(g, indices),
    ensures
        indices.no_duplicates(),
        indices.len() == g.nodes.len(),
        forall|i: int| 0 <= i < indices.len() ==> g.nodes.contains_key(#[trigger] indices[i]),
{
    assert(indices.no_duplicates());
    indices.unique_seq_to_set();
    assert(indices.to_set() =~= g.nodes.dom()) by {
        assert forall|n: NodeIdx| indices.to_set().contains(n) <==> g.nodes.dom().contains(n) by {
            assert(g.nodes.contains_key(n) <==> indices.contains(n));
        }
    }
    assert forall|i: int| 0 <= i < indices.len() implies g.nodes.contains_key(
        #[trigger] indices[i],
    ) by {
        assert(indices.contains(indices[i]));
    }
}

/// There is one way to put the indices of all nodes in ascending order.
pub proof fn lemma_ascends_unique(g: GraphView, one: Seq<NodeIdx>, other: Seq<NodeIdx>)
    requires
        ascends(g, one),
        ascends(g, other),
    ensures
        one == other,
{
    lemma_ascends(g, one);
    lemma_ascends(g, other);
    lemma_same_prefix(g, one, other, one.len() as int);
    assert(one =~= other);
}

/// The first `k` of the indices of all nodes in ascending order are the same.
proof fn lemma_same_prefix(g: GraphView, one: Seq<NodeIdx>, other: Seq<NodeIdx>, k: int)
    requires
        ascends(g, one),
        ascends(g, other),
        one.len() == other.len(),
        0 <= k <= one.len(),
    ensures
        forall|i: int| 0 <= i < k ==> one[i] == other[i],
    decreases k,
{
    if k > 0 {
        lemma_same_prefix(g, one, other, k - 1);
        assert(one.contains(one[k - 1]));
        assert(other.contains(other[k - 1]));
        assert(g.nodes.contains_key(one[k - 1]));
        assert(g.nodes.contains_key(other[k - 1]));
        let i = other.index_of(one[k - 1]);
        let j = one.index_of(other[k - 1]);
        assert(other[i] == one[k - 1]);
        assert(one[j] == other[k - 1]);
    }
}

/// `StableGraph::node_indices`: the indices of all nodes, in ascending order.
#[verifier::external_body]
pub(crate) fn node_indices(graph: &CompileGraph) -> (indices: Vec<NodeIdx>)
    ensures
        ascends(contents(*graph), indices@),
{
    graph.node_indices().map(|idx| idx.index() as u32).collect()
}

/// Indexing a `StableGraph` by a node's index: the weight of the node.
#[verifier::external_body]
pub(crate) fn node(graph: &CompileGraph, idx: NodeIdx) -> (weight: &CompileNode)
    requires
        contents(*graph).nodes.contains_key(idx),
    ensures
        *weight == contents(*graph).nodes[idx],
{
    &graph[NodeIndex::from(idx)]
}

/// Mutable indexing of a `StableGraph` by a node's index: the weight of the node, in
/// place.
#[verifier::external_body]
pub(crate) fn node_mut(graph: &mut CompileGraph, idx: NodeIdx) -> (weight: &mut CompileNode)
    requires
        contents(*old(graph)).nodes.contains_key(idx),
    ensures
        *weight == contents(*old(graph)).nodes[idx],
        contents(*final(graph)) == contents(*old(graph)).with_node(idx, *final(weight)),
{
    &mut graph[NodeIndex::from(idx)]
}

/// `StableGraph::edges_directed`: the edges that end or start at a node, the latest
/// first; none if there is no such node.
#[verifier::external_body]
pub(crate) fn edges_directed(graph: &CompileGraph, idx: NodeIdx, direction: Direction) -> (edges:
    Vec<Edge>)
    ensures
        graph_nodes(*graph).contains_key(idx) && direction == Direction::Incoming ==> edges@
            == graph_incoming(*graph)[idx],
        graph_nodes(*graph).contains_key(idx) && direction == Direction::Outgoing ==> edges@
            == graph_outgoing(*graph)[idx],
        !graph_nodes(*graph).contains_key(idx) ==> edges.len() == 0,
        contents(*graph).lists_edges(idx, direction, edges@),
        edges.len() <= u32::MAX,
{
    let direction = match direction {
        Direction::Incoming => petgraph::Direction::Incoming,
        Direction::Outgoing => petgraph::Direction::Outgoing,
    };
    graph
        .edges_directed(NodeIndex::from(idx), direction)
        .map(
            |e| Edge {
                id: e.id().index() as u32,
                source: e.source().index() as u32,
                target: e.target().index() as u32,
                link: *e.weight(),
            },
        )
        .collect()
}

/// `StableGraph::add_node`: a new node under an index that was not in use.  Which of
/// the free indices it gets is left open.
#[verifier::external_body]
pub(crate) fn add_node(graph: &mut CompileGraph, weight: CompileNode) -> (idx: NodeIdx)
    requires
        contents(*old(graph)).nodes.len() < u32::MAX,
    ensures
        !contents(*old(graph)).nodes.contains_key(idx),
        contents(*final(graph)) == contents(*old(graph)).with_new_node(idx, weight),
{
    graph.add_node(weight).index() as u32
}

/// `StableGraph::add_edge`: a new edge under an index that was not in use, first in the
/// lists of both of its ends.  Which of the free indices it gets is left open.
#[verifier::external_body]
pub(crate) fn add_edge(
    graph: &mut CompileGraph,
    source: NodeIdx,
    target: NodeIdx,
    link: CompileLink,
) -> (id: EdgeIdx)
    requires
        contents(*old(graph)).nodes.contains_key(source),
        contents(*old(graph)).nodes.contains_key(target),
        contents(*old(graph)).edges.len() < u32::MAX,
    ensures
        !graph_edges(*old(graph)).contains_key(id),
        contents(*final(graph)) == contents(*old(graph)).with_edge(
            Edge { id, source, target, link },
        ),
{
    graph.add_edge(NodeIndex::from(source), NodeIndex::from(target), link).index() as u32
}

/// `StableGraph::remove_edge`: the edge leaves the graph and the lists of both of its
/// ends; the link that it carried comes back.  Without such an edge nothing happens.
#[verifier::external_body]
pub(crate) fn remove_edge(graph: &mut CompileGraph, id: EdgeIdx) -> (link: Option<CompileLink>)
    ensures
        contents(*final(graph)) == contents(*old(graph)).without_edge(id),
        link == if contents(*old(graph)).edges.contains_key(id) {
            Some(contents(*old(graph)).edges[id].link)
        } else {
            None
        },
{
    graph.remove_edge(EdgeIndex::from(id))
}

} // verus!
