//! # [`ChainCoalesce`]
//!
//! This pass merges chains of repeaters and torches if they don't have any interaction with nodes outside the chain.

use rustc_hash::FxHashMap;
use std::collections::VecDeque;
use vstd::prelude::*;

use crate::compile_graph::{
    Annotations, CompileGraph, CompileLink, CompileNode, LinkType, NodeIdx, NodeState, NodeType,
};
use crate::graph::{
    self, contents, lemma_indices_finite, lemma_with_edges, lemma_with_new_nodes,
    lemma_without_blocks, lemma_without_edge, lemma_without_edges, Direction, Edge, EdgeIdx,
    GraphView,
};
use crate::maps;
use crate::passes::chain_laws::law_startable_nodes_are_in_chains;
use crate::passes::RuntimeAction;
use crate::world::{BlockPos, TickPriority};

verus! {

/// No chain grows beyond this number of nodes.
pub const MAX_LEN: usize = 255;

/// The only edge of a list, if it has exactly one.
pub open spec fn only(list: Seq<Edge>) -> Option<Edge> {
    if list.len() == 1 {
        Some(list[0])
    } else {
        None
    }
}

/// Whether a component of this type can be part of a chain.
pub open spec fn is_link_of_chain(ty: NodeType) -> bool {
    ty is Repeater || ty is Torch || ty is Chain
}

/// Whether a chain may go on to this node: a removable repeater, torch or chain that
/// nothing but one edge feeds.
pub open spec fn joinable(g: GraphView, n: NodeIdx) -> bool {
    &&& g.nodes.contains_key(n)
    &&& is_link_of_chain(g.nodes[n].ty)
    &&& g.nodes[n].removable()
    &&& g.edges_of(n, Direction::Incoming).len() == 1
}

/// Whether a chain may start at this node: one that a chain may go on to, and which its
/// only edge enters from behind.
pub open spec fn startable(g: GraphView, n: NodeIdx) -> bool {
    joinable(g, n) && g.edges_of(n, Direction::Incoming)[0].link.ty == LinkType::Default
}

/// The node that `n` feeds, if it feeds only one and that one from behind.
pub open spec fn successor(g: GraphView, n: NodeIdx) -> Option<NodeIdx> {
    match only(g.edges_of(n, Direction::Outgoing)) {
        Some(edge) => if edge.link.ty == LinkType::Default {
            Some(edge.target)
        } else {
            None
        },
        None => None,
    }
}

/// The chains found so far, and the chain that each node of one was last put into.
#[verifier::ext_equal]
pub struct Found {
    pub chains: Seq<Seq<NodeIdx>>,
    pub index: Map<NodeIdx, usize>,
}

/// Where a walk along successors ends: as a chain of its own, or in front of a chain
/// that it ran into.
pub enum Walk {
    Ends(Seq<NodeIdx>),
    Meets(Seq<NodeIdx>, usize),
}

impl Found {
    pub open spec fn empty() -> Found {
        Found { chains: Seq::empty(), index: Map::empty() }
    }

    /// `index` after every node of `nodes` was put into the chain `k`.
    pub open spec fn indexed(self, nodes: Seq<NodeIdx>, k: usize) -> Map<NodeIdx, usize> {
        Map::new(
            |n: NodeIdx| self.index.contains_key(n) || nodes.contains(n),
            |n: NodeIdx|
                if nodes.contains(n) {
                    k
                } else {
                    self.index[n]
                },
        )
    }

    /// With one chain more.
    pub open spec fn with_chain(self, nodes: Seq<NodeIdx>) -> Found {
        Found {
            chains: self.chains.push(nodes),
            index: self.indexed(nodes, self.chains.len() as usize),
        }
    }

    /// With `nodes` put in front of the chain `k`.
    pub open spec fn with_prefix(self, nodes: Seq<NodeIdx>, k: usize) -> Found {
        Found {
            chains: self.chains.update(k as int, nodes + self.chains[k as int]),
            index: self.indexed(nodes, k),
        }
    }

    /// The walk from the last node of `chain` onwards: it goes on to the successor as
    /// long as that is joinable and the chain is not full, and stops where it can be
    /// put in front of another chain.
    pub open spec fn walk(self, g: GraphView, chain: Seq<NodeIdx>) -> Walk
        decreases MAX_LEN - chain.len(),
    {
        match successor(g, chain.last()) {
            None => Walk::Ends(chain),
            Some(next) => {
                if self.index.contains_key(next) && self.chains[self.index[next] as int].len()
                    + chain.len() <= MAX_LEN {
                    Walk::Meets(chain, self.index[next])
                } else if !joinable(g, next) {
                    Walk::Ends(chain)
                } else if chain.len() + 1 >= MAX_LEN {
                    Walk::Ends(chain.push(next))
                } else {
                    self.walk(g, chain.push(next))
                }
            },
        }
    }

    /// With the chain that a walk from `start` finds.
    pub open spec fn with_walk(self, g: GraphView, start: NodeIdx) -> Found {
        match self.walk(g, seq![start]) {
            Walk::Ends(nodes) => self.with_chain(nodes),
            Walk::Meets(nodes, k) => self.with_prefix(nodes, k),
        }
    }
}

/// The nodes that a walk has passed.
pub open spec fn passed(walk: Walk) -> Seq<NodeIdx> {
    match walk {
        Walk::Ends(nodes) => nodes,
        Walk::Meets(nodes, _) => nodes,
    }
}

/// The chains found by walks from the startable nodes below `bound` that no chain holds
/// yet, in ascending order.
pub open spec fn found_below(g: GraphView, bound: int) -> Found
    decreases bound,
{
    if bound <= 0 {
        Found::empty()
    } else {
        let found = found_below(g, bound - 1);
        let n = (bound - 1) as NodeIdx;
        if startable(g, n) && !found.index.contains_key(n) {
            found.with_walk(g, n)
        } else {
            found
        }
    }
}

/// Whether every node of `chain` stands for a block.
pub open spec fn placed(g: GraphView, chain: Seq<NodeIdx>) -> bool {
    forall|i: int| 0 <= i < chain.len() ==> g.nodes[#[trigger] chain[i]].block is Some
}

/// Whether every node of every chain stands for a block.
pub open spec fn all_placed(g: GraphView) -> bool {
    forall|k: int| 0 <= k < chains_of(g).len() ==> placed(g, #[trigger] chains_of(g)[k])
}

/// All indices that a node can have are below this.
pub open spec fn index_limit() -> int {
    u32::MAX + 1
}

/// What the pass finds in `g`: the chains from all its startable nodes.
pub open spec fn found_in(g: GraphView) -> Found {
    found_below(g, index_limit())
}

/// The chains that the pass finds in `g`.
pub open spec fn chains_of(g: GraphView) -> Seq<Seq<NodeIdx>> {
    found_in(g).chains
}

/// The blocks that the nodes of `chain` stand for.
pub open spec fn blocks_of(g: GraphView, chain: Seq<NodeIdx>) -> Seq<(BlockPos, u32)> {
    chain.map_values(|n: NodeIdx| g.nodes[n].block->0)
}

/// A chain of nodes, and the blocks that they stand for.
pub struct Chain {
    pub nodes: VecDeque<NodeIdx>,
    pub blocks: VecDeque<(BlockPos, u32)>,
}

impl Chain {
    /// Whether the chain holds one block for each node.
    pub open spec fn wf(self) -> bool {
        self.nodes@.len() == self.blocks@.len()
    }

    /// Whether the chain holds nodes of `g`, with their blocks.
    pub open spec fn taken_from(self, g: GraphView) -> bool {
        &&& self.nodes@.len() > 0
        &&& forall|i: int|
            0 <= i < self.nodes@.len() ==> g.nodes.contains_key(#[trigger] self.nodes@[i])
        &&& placed(g, self.nodes@)
        &&& self.blocks@ == blocks_of(g, self.nodes@)
    }

    pub fn new(node: NodeIdx, block: (BlockPos, u32)) -> (chain: Chain)
        ensures
            chain.nodes@ == seq![node],
            chain.blocks@ == seq![block],
            chain.wf(),
    {
        let mut chain = Chain { nodes: VecDeque::new(), blocks: VecDeque::new() };
        chain.nodes.push_back(node);
        chain.blocks.push_back(block);
        chain
    }

    pub fn len(&self) -> (len: usize)
        ensures
            len == self.nodes@.len(),
    {
        self.nodes.len()
    }

    pub fn push_back(&mut self, node: NodeIdx, block: (BlockPos, u32))
        requires
            old(self).wf(),
        ensures
            final(self).wf(),
            final(self).nodes@ == old(self).nodes@.push(node),
            final(self).blocks@ == old(self).blocks@.push(block),
    {
        self.nodes.push_back(node);
        self.blocks.push_back(block);
    }

    pub fn push_front(&mut self, other: Chain)
        requires
            old(self).wf(),
            other.wf(),
        ensures
            final(self).wf(),
            final(self).nodes@ == other.nodes@ + old(self).nodes@,
            final(self).blocks@ == other.blocks@ + old(self).blocks@,
    {
        let len: usize = other.nodes.len();
        let mut i: usize = len;
        assert(other.nodes@.skip(len as int) + self.nodes@ == self.nodes@);
        assert(other.blocks@.skip(len as int) + self.blocks@ == self.blocks@);
        while i > 0
            invariant
                i <= len == other.nodes@.len() == other.blocks@.len(),
                self.nodes@ == other.nodes@.skip(i as int) + old(self).nodes@,
                self.blocks@ == other.blocks@.skip(i as int) + old(self).blocks@,
                old(self).wf(),
            decreases i,
        {
            i -= 1;
            self.nodes.push_front(other.nodes[i]);
            self.blocks.push_front(other.blocks[i]);
            assert(seq![other.nodes@[i as int]] + other.nodes@.skip(i + 1) == other.nodes@.skip(
                i as int,
            ));
            assert(seq![other.blocks@[i as int]] + other.blocks@.skip(i + 1) == other.blocks@.skip(
                i as int,
            ));
            assert(self.nodes@ == other.nodes@.skip(i as int) + old(self).nodes@);
            assert(self.blocks@ == other.blocks@.skip(i as int) + old(self).blocks@);
        }
        assert(other.nodes@.skip(0) == other.nodes@);
        assert(other.blocks@.skip(0) == other.blocks@);
    }
}

/// Finds the chains of a graph.
pub struct ChainBuilder {
    pub chains: Vec<Chain>,
    pub chain_map: FxHashMap<NodeIdx, usize>,
}

impl ChainBuilder {
    /// What has been found so far.
    pub open spec fn found(self) -> Found {
        Found {
            chains: self.chains@.map_values(|c: Chain| c.nodes@),
            index: self.chain_map@,
        }
    }

    /// Whether the map leads to chains of the builder, which hold nodes of `g`.
    pub open spec fn wf(self, g: GraphView) -> bool {
        &&& forall|i: int|
            0 <= i < self.chains@.len() ==> (#[trigger] self.chains@[i]).taken_from(g)
        &&& forall|n: NodeIdx| #[trigger]
            self.chain_map@.contains_key(n) ==> self.chain_map@[n] < self.chains@.len()
    }

    pub fn new() -> (builder: ChainBuilder)
        ensures
            builder.found() == Found::empty(),
            forall|g: GraphView| builder.wf(g),
    {
        let builder = ChainBuilder { chains: Vec::new(), chain_map: FxHashMap::default() };
        assert(builder.found() == Found::empty());
        builder
    }

    pub fn new_chain(&mut self, chain: Chain) -> (index: usize)
        ensures
            index == old(self).chains@.len(),
            final(self).chains@ == old(self).chains@.push(chain),
            final(self).found() == old(self).found().with_chain(chain.nodes@),
    {
        let index: usize = self.chains.len();
        let len: usize = chain.nodes.len();
        let mut i: usize = 0;
        let ghost f = old(self).found();
        assert(self.chain_map@ == f.indexed(chain.nodes@.take(0), index));
        while i < len
            invariant
                i <= len == chain.nodes@.len(),
                self.chains@ == old(self).chains@,
                f.index == old(self).chain_map@,
                self.chain_map@ == f.indexed(chain.nodes@.take(i as int), index),
            decreases len - i,
        {
            maps::insert(&mut self.chain_map, chain.nodes[i], index);
            proof {
                lemma_indexed_one(f, chain.nodes@, i as int, index);
            }
            i += 1;
        }
        assert(chain.nodes@.take(len as int) == chain.nodes@);
        self.chains.push(chain);
        assert(self.found() == f.with_chain(chain.nodes@));
        index
    }

    pub fn merge_chains(&mut self, first: Chain, second_idx: usize)
        requires
            second_idx < old(self).chains@.len(),
            first.wf(),
            old(self).chains@[second_idx as int].wf(),
        ensures
            final(self).found() == old(self).found().with_prefix(first.nodes@, second_idx),
            final(self).chains@.len() == old(self).chains@.len(),
            forall|i: int|
                0 <= i < old(self).chains@.len() && i != second_idx ==> final(self).chains@[i]
                    == old(self).chains@[i],
            final(self).chains@[second_idx as int].blocks@ == first.blocks@ + old(self).chains@[second_idx as int].blocks@,
    {
        let len: usize = first.nodes.len();
        let mut i: usize = 0;
        let ghost f = old(self).found();
        assert(self.chain_map@ == f.indexed(first.nodes@.take(0), second_idx));
        while i < len
            invariant
                i <= len == first.nodes@.len(),
                self.chains@ == old(self).chains@,
                f.index == old(self).chain_map@,
                self.chain_map@ == f.indexed(first.nodes@.take(i as int), second_idx),
            decreases len - i,
        {
            maps::insert(&mut self.chain_map, first.nodes[i], second_idx);
            proof {
                lemma_indexed_one(f, first.nodes@, i as int, second_idx);
            }
            i += 1;
        }
        assert(first.nodes@.take(len as int) == first.nodes@);
        let ghost nodes = first.nodes@;
        self.chains[second_idx].push_front(first);
        assert(self.found() == f.with_prefix(nodes, second_idx));
    }

    pub fn get_chain_index(&self, node: NodeIdx) -> (index: Option<usize>)
        ensures
            index == if self.chain_map@.contains_key(node) {
                Some(self.chain_map@[node])
            } else {
                None
            },
    {
        match maps::get(&self.chain_map, node) {
            Some(index) => Some(*index),
            None => None,
        }
    }

    /// Walks from `node` along the edges, as far as a chain goes, and keeps the nodes
    /// passed: as a new chain, or in front of the chain that the walk ran into.  Nothing is
    /// kept if one of them stands for no block; whether all do comes back.
    pub fn find_chain(&mut self, graph: &CompileGraph, node: NodeIdx) -> (kept: bool)
        requires
            old(self).wf(contents(*graph)),
            contents(*graph).nodes.contains_key(node),
        ensures
            kept == placed(
                contents(*graph),
                passed(old(self).found().walk(contents(*graph), seq![node])),
            ),
            kept ==> final(self).wf(contents(*graph)) && final(self).found() == old(self).found().with_walk(contents(*graph), node),
            !kept ==> *final(self) == *old(self),
    {
        let ghost g = contents(*graph);
        let ghost f = self.found();
        let ghost walk = f.walk(g, seq![node]);
        proof {
            lemma_walk_extends(f, g, seq![node]);
            assert(seq![node] == passed(walk).take(1));
            assert(passed(walk)[0] == node);
        }
        let base_block = match graph::node(graph, node).block {
            Some(block) => block,
            None => {
                return false;
            },
        };
        let mut current_node: NodeIdx = node;
        let mut chain = Chain::new(current_node, base_block);
        assert(chain.blocks@ == blocks_of(g, chain.nodes@));
        loop
            invariant_except_break
                chain.nodes@.len() < MAX_LEN,
                walk == f.walk(g, chain.nodes@),
            invariant
                g == contents(*graph),
                self == old(self),
                self.wf(g),
                f == self.found(),
                walk == f.walk(g, seq![node]),
                chain.taken_from(g),
                chain.wf(),
                current_node == chain.nodes@.last(),
            ensures
                walk == Walk::Ends(chain.nodes@),
            decreases MAX_LEN - chain.nodes@.len(),
        {
            let out = graph::edges_directed(graph, current_node, Direction::Outgoing);
            let edge_out = match exactly_one(&out) {
                Some(edge) => edge,
                None => break,
            };
            if edge_out.link.ty != LinkType::Default {
                break;
            }
            let target: NodeIdx = edge_out.target;
            assert(successor(g, chain.nodes@.last()) == Some(target));
            if let Some(existing_chain) = self.get_chain_index(target) {
                assert(f.chains[existing_chain as int] == self.chains@[existing_chain as int].nodes@);
                assert(self.chains@[existing_chain as int].taken_from(g));
                let other_len: usize = self.chains[existing_chain].len();
                if other_len <= MAX_LEN && other_len + chain.len() <= MAX_LEN {
                    assert(walk == Walk::Meets(chain.nodes@, existing_chain));
                    self.merge_chains(chain, existing_chain);
                    proof {
                        lemma_merged_wf(*old(self), *self, g, chain, existing_chain);
                    }
                    return true;
                }
            }
            if !can_join(graph, target) {
                break;
            }
            let ghost longer = chain.nodes@.push(target);
            proof {
                if longer.len() >= MAX_LEN {
                    assert(walk == Walk::Ends(longer));
                } else {
                    assert(walk == f.walk(g, longer));
                    lemma_walk_extends(f, g, longer);
                }
                assert(longer == passed(walk).take(longer.len() as int));
                assert(passed(walk)[longer.len() - 1] == target);
            }
            let block = match graph::node(graph, target).block {
                Some(block) => block,
                None => {
                    return false;
                },
            };
            current_node = target;
            chain.push_back(current_node, block);
            assert(chain.blocks@ == blocks_of(g, chain.nodes@));
            if chain.len() >= MAX_LEN {
                break;
            }
        }
        self.new_chain(chain);
        proof {
            assert forall|n: NodeIdx| #[trigger] self.chain_map@.contains_key(n) implies
                self.chain_map@[n] < self.chains@.len() by {
                assert(self.chain_map@ == self.found().index);
            }
        }
        true
    }

    /// Finds the chains from every startable node, in ascending order, as far as the nodes
    /// of chains stand for blocks.  Whether all do comes back; if so, exactly the startable
    /// nodes are in a chain.
    pub fn identify_chains(&mut self, graph: &CompileGraph) -> (complete: bool)
        requires
            old(self).found() == Found::empty(),
        ensures
            complete == all_placed(contents(*graph)),
            complete ==> final(self).found() == found_in(contents(*graph)),
            complete ==> forall|n: NodeIdx| #[trigger]
                final(self).chain_map@.contains_key(n) <==> startable(contents(*graph), n),
            !complete ==> exists|bound: int|
                0 <= bound < index_limit() && final(self).found() == #[trigger] found_below(
                    contents(*graph),
                    bound,
                ),
            final(self).wf(contents(*graph)),
            contents(*graph).wf(),
    {
        let ghost g = contents(*graph);
        let count: usize = graph::node_count(graph);
        let order = graph::node_indices(graph);
        proof {
            graph::lemma_ascends(g, order@);
        }
        let ghost all = found_in(g);
        assert(self.chains@.len() == 0) by {
            assert(self.found().chains.len() == 0);
        }
        let ghost mut low: int = 0;
        let mut i: usize = 0;
        while i < count
            invariant
                i <= count == order@.len(),
                g == contents(*graph),
                g.wf(),
                graph::ascends(g, order@),
                0 <= low <= index_limit(),
                forall|j: int| 0 <= j < i ==> (#[trigger] order@[j]) < low,
                forall|j: int| i <= j < order@.len() ==> (#[trigger] order@[j]) >= low,
                self.wf(g),
                self.found() == found_below(g, low),
                all == found_in(g),
            decreases count - i,
        {
            let idx: NodeIdx = order[i];
            let ghost f = self.found();
            proof {
                lemma_nothing_between(g, order@, i as int, low, idx as int);
                assert(found_below(g, idx as int) == f);
                low = idx + 1;
            }
            if can_join(graph, idx) {
                let incoming = graph::edges_directed(graph, idx, Direction::Incoming);
                if incoming[0].link.ty == LinkType::Default {
                    if self.get_chain_index(idx).is_none() {
                        assert(found_below(g, low) == f.with_walk(g, idx));
                        if !self.find_chain(graph, idx) {
                            proof {
                                if all_placed(g) {
                                    assert forall|k: int| 0 <= k < all.chains.len() implies placed(
                                        g,
                                        #[trigger] all.chains[k],
                                    ) by {
                                        assert(placed(g, chains_of(g)[k]));
                                    }
                                    lemma_passed_is_placed(g, low, index_limit());
                                }
                                assert(self.found() == found_below(g, idx as int));
                            }
                            return false;
                        }
                    }
                }
            }
            i += 1;
        }
        proof {
            lemma_nothing_between(g, order@, i as int, low, index_limit());
            law_startable_nodes_are_in_chains(g);
            assert(self.chain_map@ == self.found().index);
        }
        assert forall|k: int| 0 <= k < all.chains.len() implies placed(
            g,
            #[trigger] all.chains[k],
        ) by {
            assert(self.chains@[k].taken_from(g));
            assert(self.found().chains[k] == self.chains@[k].nodes@);
        }
        true
    }
}

/// Where no node has an index between two bounds, no chain starts there.
proof fn lemma_nothing_between(g: GraphView, order: Seq<NodeIdx>, i: int, low: int, high: int)
    requires
        graph::ascends(g, order),
        0 <= i <= order.len(),
        0 <= low <= high <= index_limit(),
        forall|j: int| 0 <= j < i ==> (#[trigger] order[j]) < low,
        forall|j: int| i <= j < order.len() ==> (#[trigger] order[j]) >= high,
    ensures
        found_below(g, high) == found_below(g, low),
    decreases high - low,
{
    if low < high {
        lemma_nothing_between(g, order, i, low, high - 1);
        let n = (high - 1) as NodeIdx;
        if g.nodes.contains_key(n) {
            let j = order.index_of(n);
            assert(order[j] == n);
        }
    }
}

/// The only edge of a list, if it has exactly one.
fn exactly_one(edges: &Vec<Edge>) -> (edge: Option<Edge>)
    ensures
        edge == only(edges@),
{
    if edges.len() == 1 {
        Some(edges[0])
    } else {
        None
    }
}

/// Whether a chain may go on to this node.
fn can_join(graph: &CompileGraph, idx: NodeIdx) -> (r: bool)
    ensures
        r == joinable(contents(*graph), idx),
{
    if !graph::contains_node(graph, idx) {
        return false;
    }
    let node = graph::node(graph, idx);
    let of_chain: bool = match node.ty {
        NodeType::Repeater { .. } => true,
        NodeType::Torch { .. } => true,
        NodeType::Chain { .. } => true,
        _ => false,
    };
    if !of_chain || !node.is_removable() {
        return false;
    }
    let incoming = graph::edges_directed(graph, idx, Direction::Incoming);
    exactly_one(&incoming).is_some()
}

/// A walk keeps the nodes that it has passed.
proof fn lemma_walk_extends(f: Found, g: GraphView, chain: Seq<NodeIdx>)
    ensures
        chain.len() <= passed(f.walk(g, chain)).len(),
        chain == passed(f.walk(g, chain)).take(chain.len() as int),
    decreases MAX_LEN - chain.len(),
{
    match successor(g, chain.last()) {
        None => {},
        Some(next) => {
            let longer = chain.push(next);
            if chain.len() + 1 < MAX_LEN {
                lemma_walk_extends(f, g, longer);
                let all = passed(f.walk(g, longer));
                assert(chain =~= longer.take(chain.len() as int));
                assert(all.take(longer.len() as int).take(chain.len() as int) =~= all.take(
                    chain.len() as int,
                ));
            }
            assert(chain =~= longer.take(chain.len() as int));
        },
    }
    assert(chain =~= chain.take(chain.len() as int));
}

/// The index of what is found leads to chains that are found.
proof fn lemma_found_known(g: GraphView, bound: int)
    requires
        0 <= bound <= index_limit(),
    ensures
        found_below(g, bound).chains.len() <= bound,
        forall|n: NodeIdx| #[trigger]
            found_below(g, bound).index.contains_key(n) ==> found_below(g, bound).index[n]
                < found_below(g, bound).chains.len(),
    decreases bound,
{
    if bound > 0 {
        lemma_found_known(g, bound - 1);
        let f = found_below(g, bound - 1);
        let n = (bound - 1) as NodeIdx;
        lemma_meets_known(f, g, seq![n]);
    }
}

/// Chains only grow from one start to the next.
proof fn lemma_found_grows(g: GraphView, low: int, high: int, k: int)
    requires
        0 <= low <= high <= index_limit(),
        0 <= k < found_below(g, low).chains.len(),
    ensures
        k < found_below(g, high).chains.len(),
        forall|i: int|
            0 <= i < found_below(g, low).chains[k].len() ==> found_below(
                g,
                high,
            ).chains[k].contains(#[trigger] found_below(g, low).chains[k][i]),
    decreases high - low,
{
    if low < high {
        lemma_found_grows(g, low, high - 1, k);
        let f = found_below(g, high - 1);
        let n = (high - 1) as NodeIdx;
        lemma_found_known(g, high - 1);
        lemma_meets_known(f, g, seq![n]);
        let before = f.chains[k];
        let after = found_below(g, high).chains[k];
        if startable(g, n) && !f.index.contains_key(n) {
            match f.walk(g, seq![n]) {
                Walk::Ends(nodes) => {
                    assert(after == before);
                },
                Walk::Meets(nodes, m) => {
                    if m as int == k {
                        assert(after == nodes + before);
                        assert forall|x: NodeIdx| before.contains(x) implies after.contains(x) by {
                            let j = before.index_of(x);
                            assert(after[nodes.len() + j] == x);
                        }
                    } else {
                        assert(after == before);
                    }
                },
            }
        }
    }
}

/// If the nodes of all chains stand for blocks in the end, so do those that the walk
/// from the start below `bound` passes.
proof fn lemma_passed_is_placed(g: GraphView, bound: int, end: int)
    requires
        0 < bound <= end <= index_limit(),
        ({
            let n = (bound - 1) as NodeIdx;
            let f = found_below(g, bound - 1);
            found_below(g, bound) == f.with_walk(g, n)
        }),
        forall|k: int|
            0 <= k < found_below(g, end).chains.len() ==> placed(
                g,
                #[trigger] found_below(g, end).chains[k],
            ),
    ensures
        placed(g, passed(found_below(g, bound - 1).walk(g, seq![(bound - 1) as NodeIdx]))),
{
    let f = found_below(g, bound - 1);
    let n = (bound - 1) as NodeIdx;
    let walk = f.walk(g, seq![n]);
    lemma_found_known(g, bound - 1);
    lemma_meets_known(f, g, seq![n]);
    let k = match walk {
        Walk::Ends(nodes) => f.chains.len() as int,
        Walk::Meets(nodes, m) => m as int,
    };
    let after = found_below(g, bound).chains[k];
    assert forall|i: int| 0 <= i < passed(walk).len() implies g.nodes[#[trigger] passed(
        walk,
    )[i]].block is Some by {
        assert(after[i] == passed(walk)[i]);
        lemma_found_grows(g, bound, end, k);
        let last = found_below(g, end).chains[k];
        assert(last.contains(after[i]));
        let j = last.index_of(after[i]);
        assert(placed(g, last));
        assert(g.nodes[last[j]].block is Some);
    }
}

/// A walk only runs into chains that exist.
pub proof fn lemma_meets_known(f: Found, g: GraphView, chain: Seq<NodeIdx>)
    requires
        forall|n: NodeIdx| #[trigger]
            f.index.contains_key(n) ==> f.index[n] < f.chains.len(),
    ensures
        f.walk(g, chain) matches Walk::Meets(_, k) ==> k < f.chains.len(),
    decreases MAX_LEN - chain.len(),
{
    match successor(g, chain.last()) {
        None => {},
        Some(next) => {
            if chain.len() + 1 < MAX_LEN {
                lemma_meets_known(f, g, chain.push(next));
            }
        },
    }
}

/// A chain put in front of another leaves the builder well-formed.
proof fn lemma_merged_wf(
    old_b: ChainBuilder,
    new_b: ChainBuilder,
    g: GraphView,
    first: Chain,
    k: usize,
)
    requires
        old_b.wf(g),
        first.taken_from(g),
        k < old_b.chains@.len(),
        new_b.found() == old_b.found().with_prefix(first.nodes@, k),
        new_b.chains@.len() == old_b.chains@.len(),
        forall|i: int|
            0 <= i < old_b.chains@.len() && i != k ==> new_b.chains@[i] == old_b.chains@[i],
        new_b.chains@[k as int].blocks@ == first.blocks@ + old_b.chains@[k as int].blocks@,
    ensures
        new_b.wf(g),
{
    let before = old_b.chains@[k as int];
    let after = new_b.chains@[k as int];
    assert(before.taken_from(g));
    assert(after.nodes@ == first.nodes@ + before.nodes@) by {
        assert(new_b.found().chains[k as int] == after.nodes@);
        assert(old_b.found().chains[k as int] == before.nodes@);
    }
    assert(after.blocks@ =~= blocks_of(g, after.nodes@));
    assert(after.taken_from(g));
    assert forall|i: int| 0 <= i < new_b.chains@.len() implies (
    #[trigger] new_b.chains@[i]).taken_from(g) by {
        if i != k {
            assert(old_b.chains@[i].taken_from(g));
        }
    }
    assert forall|n: NodeIdx| #[trigger] new_b.chain_map@.contains_key(n) implies
        new_b.chain_map@[n] < new_b.chains@.len() by {
        assert(new_b.chain_map@ == new_b.found().index);
        assert(old_b.chain_map@ == old_b.found().index);
    }
}

/// One more node of `nodes` in the index.
proof fn lemma_indexed_one(f: Found, nodes: Seq<NodeIdx>, i: int, k: usize)
    requires
        0 <= i < nodes.len(),
    ensures
        f.indexed(nodes.take(i), k).insert(nodes[i], k) == f.indexed(nodes.take(i + 1), k),
{
    assert(nodes.take(i + 1) == nodes.take(i).push(nodes[i]));
    assert forall|n: NodeIdx| nodes.take(i + 1).contains(n) <==> (nodes.take(i).contains(n) || n
        == nodes[i]) by {
        if nodes.take(i).contains(n) {
            let j = nodes.take(i).index_of(n);
            assert(nodes.take(i + 1)[j] == n);
        }
        assert(nodes.take(i + 1)[i] == nodes[i]);
        if nodes.take(i + 1).contains(n) && n != nodes[i] {
            let j = nodes.take(i + 1).index_of(n);
            assert(nodes.take(i)[j] == n);
        }
    }
    let before = f.indexed(nodes.take(i), k).insert(nodes[i], k);
    let after = f.indexed(nodes.take(i + 1), k);
    assert forall|n: NodeIdx| before.contains_key(n) <==> after.contains_key(n) by {
        assert(nodes.take(i + 1).contains(n) <==> (nodes.take(i).contains(n) || n == nodes[i]));
    }
    assert forall|n: NodeIdx| before.contains_key(n) implies before[n] == after[n] by {
        assert(nodes.take(i + 1).contains(n) <==> (nodes.take(i).contains(n) || n == nodes[i]));
    }
    assert(before =~= after);
}

/// The delay that a component of this type adds to a chain.
pub open spec fn delay_of(ty: NodeType) -> nat {
    match ty {
        NodeType::Repeater { delay, .. } => delay as nat,
        NodeType::Torch { .. } => 1,
        _ => 0,
    }
}

/// The delay of all components together.
pub open spec fn total_delay(kinds: Seq<NodeType>) -> nat
    decreases kinds.len(),
{
    if kinds.len() == 0 {
        0
    } else {
        delay_of(kinds.first()) + total_delay(kinds.drop_first())
    }
}

/// The longest delay of a repeater among the components, and at least one.
pub open spec fn slowest(kinds: Seq<NodeType>) -> nat
    decreases kinds.len(),
{
    if kinds.len() == 0 {
        1
    } else {
        let rest = slowest(kinds.drop_first());
        match kinds.first() {
            NodeType::Repeater { delay, .. } => if delay > rest {
                delay as nat
            } else {
                rest
            },
            _ => rest,
        }
    }
}

/// Whether there is a torch among the components.
pub open spec fn has_torch(kinds: Seq<NodeType>) -> bool {
    exists|i: int| 0 <= i < kinds.len() && #[trigger] kinds[i] is Torch
}

/// Whether the components invert a signal: an odd number of inverting torches does.
pub open spec fn inverts(kinds: Seq<NodeType>) -> bool
    decreases kinds.len(),
{
    if kinds.len() == 0 {
        false
    } else {
        (kinds.first() == NodeType::Torch { invert: true }) != inverts(kinds.drop_first())
    }
}

/// Whether the last component is a repeater that faces a diode.
pub open spec fn faces_diode(kinds: Seq<NodeType>) -> bool {
    match kinds.last() {
        NodeType::Repeater { facing_diode, .. } => facing_diode,
        _ => false,
    }
}

/// What a chain does to a signal.
pub struct Summary {
    pub total_delay: nat,
    pub facing_diode: bool,
    pub slowest: nat,
    pub has_torch: bool,
    pub inverts: bool,
}

/// What a chain of components of these types does to a signal.
pub open spec fn summary(kinds: Seq<NodeType>) -> Summary {
    Summary {
        total_delay: total_delay(kinds),
        facing_diode: faces_diode(kinds),
        slowest: slowest(kinds),
        has_torch: has_torch(kinds),
        inverts: inverts(kinds),
    }
}

/// A removable node in its resting state.
pub open spec fn resting(ty: NodeType, block: Option<(BlockPos, u32)>) -> CompileNode {
    CompileNode {
        ty,
        block,
        state: NodeState { powered: false, repeater_locked: false, output_strength: 0 },
        is_input: false,
        is_output: false,
        annotations: Annotations {  },
    }
}

/// The block of the given position in a chain.
pub open spec fn block_at(blocks: Seq<(BlockPos, u32)>, i: int) -> Option<(BlockPos, u32)> {
    if 0 <= i < blocks.len() {
        Some(blocks[i])
    } else {
        None
    }
}

/// The nodes that stand in for a chain: a repeater as slow as the slowest, a torch if
/// there is one, and a chain node for the rest of the delay.
pub open spec fn replacement(s: Summary, blocks: Seq<(BlockPos, u32)>) -> Seq<CompileNode> {
    let repeater = resting(
        NodeType::Repeater { delay: s.slowest as u8, facing_diode: s.facing_diode },
        block_at(blocks, 0),
    );
    let torch = resting(NodeType::Torch { invert: s.inverts }, block_at(blocks, 1));
    let front = if s.has_torch {
        seq![repeater, torch]
    } else {
        seq![repeater]
    };
    let done = if s.has_torch {
        s.slowest + 1
    } else {
        s.slowest
    };
    if s.total_delay > done {
        front.push(
            resting(
                NodeType::Chain {
                    delay: (s.total_delay - done) as u8,
                    facing_diode: s.facing_diode,
                },
                block_at(blocks, front.len() as int),
            ),
        )
    } else {
        front
    }
}

/// The types of the nodes of a chain.
pub open spec fn kinds_of(g: GraphView, chain: Seq<NodeIdx>) -> Seq<NodeType> {
    chain.map_values(|n: NodeIdx| g.nodes[n].ty)
}

/// Whether a chain of these types is replaced: the replacement has fewer nodes, and the
/// delay is one that a tick can be scheduled for.
pub open spec fn worthwhile(kinds: Seq<NodeType>, max_delay: usize) -> bool {
    &&& kinds.len() > 0
    &&& has_torch(kinds) ==> total_delay(kinds) >= 2
    &&& total_delay(kinds) <= max_delay
    &&& replacement(summary(kinds), Seq::empty()).len() < kinds.len()
}

/// Links from each of `ids` to the next.
pub open spec fn joints(ids: Seq<NodeIdx>, edge_ids: Seq<EdgeIdx>) -> Seq<Edge> {
    Seq::new(
        edge_ids.len(),
        |i: int|
            Edge {
                id: edge_ids[i],
                source: ids[i],
                target: ids[i + 1],
                link: CompileLink { ty: LinkType::Default, ss: 0 },
            },
    )
}

/// Whether `after` is `before` with the nodes of `nodes` added under the indices `ids`,
/// each of them linked to the next.
pub open spec fn adds_row(
    before: GraphView,
    nodes: Seq<CompileNode>,
    ids: Seq<NodeIdx>,
    edge_ids: Seq<EdgeIdx>,
    after: GraphView,
) -> bool {
    let grown = before.with_new_nodes(ids, nodes);
    &&& ids.len() == nodes.len()
    &&& edge_ids.len() == ids.len() - 1
    &&& before.free_for_nodes(ids)
    &&& grown.can_take(joints(ids, edge_ids))
    &&& after == grown.with_edges(joints(ids, edge_ids))
}

/// The edges of `list` under new indices, leading to `target` instead.
pub open spec fn led_to(list: Seq<Edge>, target: NodeIdx, edge_ids: Seq<EdgeIdx>) -> Seq<Edge> {
    Seq::new(
        edge_ids.len(),
        |i: int| Edge { id: edge_ids[i], source: list[i].source, target, link: list[i].link },
    )
}

/// The edges of `list` under new indices, coming from `source` instead.
pub open spec fn led_from(list: Seq<Edge>, source: NodeIdx, edge_ids: Seq<EdgeIdx>) -> Seq<Edge> {
    Seq::new(
        edge_ids.len(),
        |i: int| Edge { id: edge_ids[i], source, target: list[i].target, link: list[i].link },
    )
}

/// Whether `after` is `before` with the row from `head` to `tail` put in the place of
/// `chain`: what led to the front of the chain leads to `head`, what the end of the
/// chain leads to `tail` leads to as well, and the nodes of the chain stand for no block.
pub open spec fn rewires(
    before: GraphView,
    chain: Seq<NodeIdx>,
    head: NodeIdx,
    tail: NodeIdx,
    input_ids: Seq<EdgeIdx>,
    output_ids: Seq<EdgeIdx>,
    after: GraphView,
) -> bool {
    let inputs = before.edges_of(chain.first(), Direction::Incoming);
    let outputs = before.edges_of(chain.last(), Direction::Outgoing);
    let fed = before.with_edges(led_to(inputs, head, input_ids));
    let feeding = fed.with_edges(led_from(outputs, tail, output_ids));
    &&& input_ids.len() == inputs.len()
    &&& output_ids.len() == outputs.len()
    &&& before.can_take(led_to(inputs, head, input_ids))
    &&& fed.can_take(led_from(outputs, tail, output_ids))
    &&& after == feeding.without_edges(inputs).without_blocks(chain)
}

/// What a backend is asked to do about a replaced chain: update the repeater, let the
/// torch, if there is one, tick after it, and break the links of the old end once the
/// delay has passed.
pub open spec fn actions_for(
    s: Summary,
    ids: Seq<NodeIdx>,
    last: NodeIdx,
) -> Seq<RuntimeAction> {
    let update = seq![RuntimeAction::Update(ids[0])];
    let tick = if s.has_torch {
        seq![RuntimeAction::Tick(ids[1], (s.slowest + 1) as u32, TickPriority::Normal)]
    } else {
        Seq::empty()
    };
    update + tick + seq![RuntimeAction::BreakLink(last, s.total_delay as u32)]
}

/// Whether `after` is `before` with `chain`, which stands for `blocks`, replaced, and
/// `actions` are the actions for that.
pub open spec fn replaces(
    before: GraphView,
    chain: Seq<NodeIdx>,
    blocks: Seq<(BlockPos, u32)>,
    after: GraphView,
    actions: Seq<RuntimeAction>,
) -> bool {
    let s = summary(kinds_of(before, chain));
    exists|
        ids: Seq<NodeIdx>,
        edge_ids: Seq<EdgeIdx>,
        input_ids: Seq<EdgeIdx>,
        output_ids: Seq<EdgeIdx>,
        between: GraphView,
    |
        {
            &&& #[trigger] adds_row(before, replacement(s, blocks), ids, edge_ids, between)
            &&& #[trigger] rewires(
                between,
                chain,
                ids.first(),
                ids.last(),
                input_ids,
                output_ids,
                after,
            )
            &&& actions == actions_for(s, ids, chain.last())
        }
}

/// What becomes of a graph when one chain is looked at: it is replaced if that is
/// worthwhile, else nothing happens.
pub open spec fn coalesces(
    before: GraphView,
    chain: Seq<NodeIdx>,
    blocks: Seq<(BlockPos, u32)>,
    max_delay: usize,
    after: GraphView,
    actions: Seq<RuntimeAction>,
) -> bool {
    if worthwhile(kinds_of(before, chain), max_delay) {
        replaces(before, chain, blocks, after, actions)
    } else {
        after == before && actions.len() == 0
    }
}

/// Whether the indices of the graph suffice for the replacement of `chain`.
pub open spec fn has_room(g: GraphView, chain: Seq<NodeIdx>) -> bool {
    let new_nodes = replacement(summary(kinds_of(g, chain)), Seq::empty()).len();
    &&& g.nodes.len() + new_nodes <= u32::MAX
    &&& g.edges.len() + new_nodes - 1 + g.edges_of(chain.first(), Direction::Incoming).len()
        + g.edges_of(chain.last(), Direction::Outgoing).len() <= u32::MAX
}

/// Delays of a part of a chain.
proof fn lemma_part(kinds: Seq<NodeType>, i: int)
    requires
        0 <= i < kinds.len(),
    ensures
        kinds.skip(i).first() == kinds[i],
        kinds.skip(i).drop_first() == kinds.skip(i + 1),
        total_delay(kinds.skip(i)) == delay_of(kinds[i]) + total_delay(kinds.skip(i + 1)),
        has_torch(kinds.skip(i)) <==> kinds[i] is Torch || has_torch(kinds.skip(i + 1)),
{
    let part = kinds.skip(i);
    let rest = kinds.skip(i + 1);
    assert(part.drop_first() =~= rest);
    if has_torch(part) && !(kinds[i] is Torch) {
        let j = choose|j: int| 0 <= j < part.len() && #[trigger] part[j] is Torch;
        assert(part[0] == kinds[i]);
        assert(rest[j - 1] is Torch);
    }
    if kinds[i] is Torch {
        assert(part[0] is Torch);
    }
    if has_torch(rest) {
        let j = choose|j: int| 0 <= j < rest.len() && #[trigger] rest[j] is Torch;
        assert(part[j + 1] is Torch);
    }
}

/// The delay of a part is at most that of the whole.
proof fn lemma_part_delay(kinds: Seq<NodeType>, i: int)
    requires
        0 <= i <= kinds.len(),
    ensures
        total_delay(kinds.skip(i)) <= total_delay(kinds),
    decreases i,
{
    if i == 0 {
        assert(kinds.skip(0) =~= kinds);
    } else {
        lemma_part_delay(kinds, i - 1);
        lemma_part(kinds, i - 1);
    }
}

/// The slowest repeater accounts for a part of the delay, and a torch for another.
pub proof fn lemma_slowest(kinds: Seq<NodeType>)
    ensures
        slowest(kinds) >= 1,
        slowest(kinds) == 1 || slowest(kinds) <= total_delay(kinds),
        has_torch(kinds) ==> total_delay(kinds) >= 1,
        has_torch(kinds) ==> slowest(kinds) == 1 || slowest(kinds) + 1 <= total_delay(kinds),
    decreases kinds.len(),
{
    if kinds.len() > 0 {
        let rest = kinds.drop_first();
        lemma_slowest(rest);
        assert(kinds.skip(0) =~= kinds);
        assert(kinds.skip(1) =~= rest);
        lemma_part(kinds, 0);
    }
}

fn repeater(delay: u8, facing_diode: bool, block: Option<(BlockPos, u32)>) -> (node: CompileNode)
    ensures
        node == resting(NodeType::Repeater { delay, facing_diode }, block),
{
    CompileNode {
        ty: NodeType::Repeater { delay, facing_diode },
        block,
        state: NodeState { powered: false, repeater_locked: false, output_strength: 0 },
        is_input: false,
        is_output: false,
        annotations: Annotations {  },
    }
}

fn torch(invert: bool, block: Option<(BlockPos, u32)>) -> (node: CompileNode)
    ensures
        node == resting(NodeType::Torch { invert }, block),
{
    CompileNode {
        ty: NodeType::Torch { invert },
        block,
        state: NodeState { powered: false, repeater_locked: false, output_strength: 0 },
        is_input: false,
        is_output: false,
        annotations: Annotations {  },
    }
}

fn chain(delay: u8, facing_diode: bool, block: Option<(BlockPos, u32)>) -> (node: CompileNode)
    ensures
        node == resting(NodeType::Chain { delay, facing_diode }, block),
{
    CompileNode {
        ty: NodeType::Chain { delay, facing_diode },
        block,
        state: NodeState { powered: false, repeater_locked: false, output_strength: 0 },
        is_input: false,
        is_output: false,
        annotations: Annotations {  },
    }
}

fn block_of(blocks: &VecDeque<(BlockPos, u32)>, i: usize) -> (block: Option<(BlockPos, u32)>)
    ensures
        block == block_at(blocks@, i as int),
{
    if i < blocks.len() {
        Some(blocks[i])
    } else {
        None
    }
}

/// The nodes that stand in for a chain.
pub fn make_replacement(
    total_delay: u8,
    facing_diode: bool,
    max_comp_delay: u8,
    has_torch: bool,
    invert: bool,
    blocks: &VecDeque<(BlockPos, u32)>,
) -> (nodes: Vec<CompileNode>)
    requires
        has_torch ==> max_comp_delay < u8::MAX && !(total_delay == 1 && facing_diode),
    ensures
        nodes@ == replacement(
            Summary {
                total_delay: total_delay as nat,
                facing_diode,
                slowest: max_comp_delay as nat,
                has_torch,
                inverts: invert,
            },
            blocks@,
        ),
{
    let mut nodes: Vec<CompileNode> = Vec::new();
    nodes.push(repeater(max_comp_delay, facing_diode, block_of(blocks, 0)));
    if !has_torch {
        if total_delay > max_comp_delay {
            nodes.push(chain(total_delay - max_comp_delay, facing_diode, block_of(blocks, 1)));
        }
    } else {
        nodes.push(torch(invert, block_of(blocks, 1)));
        if total_delay > max_comp_delay + 1 {
            nodes.push(chain(total_delay - max_comp_delay - 1, facing_diode, block_of(blocks, 2)));
        }
    }
    nodes
}

/// Adds the nodes of `replacement` to the graph, each linked to the next.
pub fn add_replacement(graph: &mut CompileGraph, replacement: Vec<CompileNode>) -> (ids: Vec<
    NodeIdx,
>)
    requires
        replacement.len() > 0,
        contents(*old(graph)).wf(),
        contents(*old(graph)).nodes.len() + replacement.len() <= u32::MAX,
        contents(*old(graph)).edges.len() + replacement.len() - 1 <= u32::MAX,
    ensures
        exists|edge_ids: Seq<EdgeIdx>|
            adds_row(
                contents(*old(graph)),
                replacement@,
                ids@,
                edge_ids,
                contents(*final(graph)),
            ),
{
    let ghost v = contents(*graph);
    let mut ids: Vec<NodeIdx> = Vec::new();
    let len: usize = replacement.len();
    let mut i: usize = 0;
    assert(replacement@.take(0) =~= Seq::empty());
    while i < len
        invariant
            i <= len == replacement.len() == replacement@.len(),
            v.wf(),
            v.nodes.len() + len <= u32::MAX,
            ids@.len() == i,
            v.free_for_nodes(ids@),
            contents(*graph) == v.with_new_nodes(ids@, replacement@.take(i as int)),
        decreases len - i,
    {
        proof {
            lemma_with_new_nodes(v, ids@, replacement@.take(i as int));
        }
        let ghost before = ids@;
        let idx: NodeIdx = graph::add_node(graph, replacement[i]);
        ids.push(idx);
        proof {
            assert(ids@.drop_last() =~= before);
            assert(replacement@.take(i + 1).drop_last() =~= replacement@.take(i as int));
            assert(replacement@.take(i + 1).last() == replacement@[i as int]);
            assert(!before.contains(idx));
            assert(ids@.no_duplicates());
        }
        i += 1;
    }
    assert(replacement@.take(len as int) =~= replacement@);
    let ghost grown = contents(*graph);
    proof {
        lemma_with_new_nodes(v, ids@, replacement@);
    }
    let ghost mut edge_ids: Seq<EdgeIdx> = Seq::empty();
    let mut k: usize = 0;
    assert(joints(ids@, edge_ids) =~= Seq::empty());
    while k < len - 1
        invariant
            k < len == ids@.len(),
            grown.wf(),
            forall|j: int| 0 <= j < ids@.len() ==> grown.nodes.contains_key(#[trigger] ids@[j]),
            grown.edges.len() + len - 1 <= u32::MAX,
            edge_ids.len() == k,
            grown.can_take(joints(ids@, edge_ids)),
            contents(*graph) == grown.with_edges(joints(ids@, edge_ids)),
        decreases len - k,
    {
        proof {
            lemma_with_edges(grown, joints(ids@, edge_ids));
            assert(grown.nodes.contains_key(ids@[k as int]));
            assert(grown.nodes.contains_key(ids@[k + 1]));
        }
        let id: EdgeIdx = graph::add_edge(
            graph,
            ids[k],
            ids[k + 1],
            CompileLink { ty: LinkType::Default, ss: 0 },
        );
        proof {
            let before = joints(ids@, edge_ids);
            let after = joints(ids@, edge_ids.push(id));
            lemma_one_more_edge(grown, before, after);
            edge_ids = edge_ids.push(id);
        }
        k += 1;
    }
    assert(adds_row(v, replacement@, ids@, edge_ids, contents(*graph)));
    ids
}

/// One more edge can be taken after those before it.
proof fn lemma_one_more_edge(v: GraphView, before: Seq<Edge>, after: Seq<Edge>)
    requires
        v.wf(),
        v.can_take(before),
        after.len() == before.len() + 1,
        after.drop_last() =~= before,
        !v.with_edges(before).edges.contains_key(after.last().id),
        v.nodes.contains_key(after.last().source),
        v.nodes.contains_key(after.last().target),
    ensures
        v.can_take(after),
        v.with_edges(after) == v.with_edges(before).with_edge(after.last()),
{
    lemma_with_edges(v, before);
    let last = after.last();
    assert forall|i: int| 0 <= i < after.len() implies {
        let edge = #[trigger] after[i];
        &&& !v.edges.contains_key(edge.id)
        &&& v.nodes.contains_key(edge.source)
        &&& v.nodes.contains_key(edge.target)
    } by {
        if i < before.len() {
            assert(after[i] == before[i]);
        } else {
            assert(after[i] == last);
        }
    }
    assert forall|i: int, j: int| 0 <= i < j < after.len() implies (#[trigger] after[i]).id != (
    #[trigger] after[j]).id by {
        assert(after[i] == before[i]);
        if j < before.len() {
            assert(after[j] == before[j]);
        } else {
            assert(after[j] == last);
            assert(v.with_edges(before).edges.contains_key(before[i].id));
        }
    }
}

/// One more node without a block.
proof fn lemma_one_more_block(v: GraphView, chain: Seq<NodeIdx>, i: int)
    requires
        0 <= i < chain.len(),
        v.nodes.contains_key(chain[i]),
    ensures
        ({
            let w = v.without_blocks(chain.take(i));
            v.without_blocks(chain.take(i + 1)) == w.with_node(
                chain[i],
                CompileNode { block: None, ..w.nodes[chain[i]] },
            )
        }),
{
    let w = v.without_blocks(chain.take(i));
    let next = v.without_blocks(chain.take(i + 1));
    let n = chain[i];
    let z = w.with_node(n, CompileNode { block: None, ..w.nodes[n] });
    assert forall|m: NodeIdx| chain.take(i + 1).contains(m) <==> (chain.take(i).contains(m) || m
        == n) by {
        if chain.take(i).contains(m) {
            let j = chain.take(i).index_of(m);
            assert(chain.take(i + 1)[j] == m);
        }
        assert(chain.take(i + 1)[i] == n);
        if chain.take(i + 1).contains(m) && m != n {
            let j = chain.take(i + 1).index_of(m);
            assert(chain.take(i)[j] == m);
        }
    }
    assert forall|m: NodeIdx| next.nodes.contains_key(m) <==> z.nodes.contains_key(m) by {}
    assert forall|m: NodeIdx| next.nodes.contains_key(m) implies next.nodes[m] == z.nodes[m] by {
        assert(chain.take(i + 1).contains(m) <==> (chain.take(i).contains(m) || m == n));
    }
    assert(next.nodes =~= z.nodes);
}

/// Puts the row of `replacement` in the place of `chain`.
#[verifier::rlimit(30)]
pub fn replace(graph: &mut CompileGraph, chain: &VecDeque<NodeIdx>, replacement: &Vec<NodeIdx>)
    requires
        chain@.len() > 0,
        replacement.len() > 0,
        contents(*old(graph)).wf(),
        forall|i: int|
            0 <= i < chain@.len() ==> contents(*old(graph)).nodes.contains_key(
                #[trigger] chain@[i],
            ),
        contents(*old(graph)).nodes.contains_key(replacement@.first()),
        contents(*old(graph)).nodes.contains_key(replacement@.last()),
        contents(*old(graph)).edges.len() + contents(*old(graph)).edges_of(
            chain@.first(),
            Direction::Incoming,
        ).len() + contents(*old(graph)).edges_of(chain@.last(), Direction::Outgoing).len()
            <= u32::MAX,
    ensures
        exists|input_ids: Seq<EdgeIdx>, output_ids: Seq<EdgeIdx>|
            rewires(
                contents(*old(graph)),
                chain@,
                replacement@.first(),
                replacement@.last(),
                input_ids,
                output_ids,
                contents(*final(graph)),
            ),
{
    let ghost v = contents(*graph);
    let head: NodeIdx = replacement[0];
    let tail: NodeIdx = replacement[replacement.len() - 1];
    let inputs = graph::edges_directed(graph, chain[0], Direction::Incoming);
    let outputs = graph::edges_directed(graph, chain[chain.len() - 1], Direction::Outgoing);
    proof {
        assert(v.nodes.contains_key(chain@[0]));
        assert(v.nodes.contains_key(chain@[chain@.len() - 1]));
        assert(inputs@ == v.edges_of(chain@.first(), Direction::Incoming));
        assert(outputs@ == v.edges_of(chain@.last(), Direction::Outgoing));
    }
    let input_count: usize = inputs.len();
    let output_count: usize = outputs.len();

    // Connect inputs to replacement
    let ghost mut input_ids: Seq<EdgeIdx> = Seq::empty();
    let mut i: usize = 0;
    assert(led_to(inputs@, head, input_ids) =~= Seq::empty());
    while i < input_count
        invariant
            i <= input_count == inputs@.len(),
            v.wf(),
            v.lists_edges(chain@.first(), Direction::Incoming, inputs@),
            v.nodes.contains_key(head),
            v.edges.len() + input_count <= u32::MAX,
            input_ids.len() == i,
            v.can_take(led_to(inputs@, head, input_ids)),
            contents(*graph) == v.with_edges(led_to(inputs@, head, input_ids)),
        decreases input_count - i,
    {
        proof {
            lemma_with_edges(v, led_to(inputs@, head, input_ids));
            assert(v.nodes.contains_key(inputs@[i as int].source));
        }
        let id: EdgeIdx = graph::add_edge(graph, inputs[i].source, head, inputs[i].link);
        proof {
            let after = led_to(inputs@, head, input_ids.push(id));
            lemma_one_more_edge(v, led_to(inputs@, head, input_ids), after);
            input_ids = input_ids.push(id);
        }
        i += 1;
    }
    let ghost fed = contents(*graph);
    proof {
        lemma_with_edges(v, led_to(inputs@, head, input_ids));
    }

    // Connect outputs to replacement
    let ghost mut output_ids: Seq<EdgeIdx> = Seq::empty();
    let mut j: usize = 0;
    assert(led_from(outputs@, tail, output_ids) =~= Seq::empty());
    while j < output_count
        invariant
            j <= output_count == outputs@.len(),
            fed.wf(),
            fed.nodes == v.nodes,
            v.lists_edges(chain@.last(), Direction::Outgoing, outputs@),
            fed.nodes.contains_key(tail),
            fed.edges.len() + output_count <= u32::MAX,
            output_ids.len() == j,
            fed.can_take(led_from(outputs@, tail, output_ids)),
            contents(*graph) == fed.with_edges(led_from(outputs@, tail, output_ids)),
        decreases output_count - j,
    {
        proof {
            lemma_with_edges(fed, led_from(outputs@, tail, output_ids));
            assert(v.nodes.contains_key(outputs@[j as int].target));
        }
        let id: EdgeIdx = graph::add_edge(graph, tail, outputs[j].target, outputs[j].link);
        proof {
            let after = led_from(outputs@, tail, output_ids.push(id));
            lemma_one_more_edge(fed, led_from(outputs@, tail, output_ids), after);
            output_ids = output_ids.push(id);
        }
        j += 1;
    }
    let ghost feeding = contents(*graph);
    proof {
        lemma_with_edges(fed, led_from(outputs@, tail, output_ids));
    }

    // Remove the original chain inputs
    let mut k: usize = 0;
    assert(inputs@.take(0) =~= Seq::empty());
    while k < input_count
        invariant
            k <= input_count == inputs@.len(),
            contents(*graph) == feeding.without_edges(inputs@.take(k as int)),
        decreases input_count - k,
    {
        graph::remove_edge(graph, inputs[k].id);
        proof {
            assert(inputs@.take(k + 1).drop_last() =~= inputs@.take(k as int));
        }
        k += 1;
    }
    assert(inputs@.take(input_count as int) =~= inputs@);
    let ghost cut = contents(*graph);
    proof {
        assert forall|n: int| 0 <= n < inputs@.len() implies feeding.edges.contains_pair(
            (#[trigger] inputs@[n]).id,
            inputs@[n],
        ) by {
            assert(v.edges.contains_pair(inputs@[n].id, inputs@[n]));
            assert(v.edges.contains_key(inputs@[n].id));
            assert(fed.edges.contains_key(inputs@[n].id));
        }
        lemma_without_edges(feeding, inputs@);
    }

    // Remove blocks of decoupled nodes
    // The same blocks will be used for some of the replacing nodes
    let len: usize = chain.len();
    let mut m: usize = 0;
    assert(cut.without_blocks(chain@.take(0)).nodes =~= cut.nodes);
    while m < len
        invariant
            m <= len == chain@.len(),
            forall|i: int|
                0 <= i < chain@.len() ==> cut.nodes.contains_key(#[trigger] chain@[i]),
            contents(*graph) == cut.without_blocks(chain@.take(m as int)),
        decreases len - m,
    {
        proof {
            assert(cut.nodes.contains_key(chain@[m as int]));
            lemma_one_more_block(cut, chain@, m as int);
        }
        let node = graph::node_mut(graph, chain[m]);
        node.block = None;
        m += 1;
    }
    assert(chain@.take(len as int) =~= chain@);
    assert(rewires(
        v,
        chain@,
        replacement@.first(),
        replacement@.last(),
        input_ids,
        output_ids,
        contents(*graph),
    ));
}

impl Chain {
    /// Replaces the chain, if that is worthwhile, and asks for the actions that follow.
    /// The number of nodes replaced comes back.  `max_delay` is the longest delay that a
    /// tick can be scheduled for.
    pub fn coalesce(
        &self,
        graph: &mut CompileGraph,
        max_delay: usize,
        actions: &mut Vec<RuntimeAction>,
    ) -> (count: usize)
        requires
            contents(*old(graph)).wf(),
            forall|i: int|
                0 <= i < self.nodes@.len() ==> contents(*old(graph)).nodes.contains_key(
                    #[trigger] self.nodes@[i],
                ),
            total_delay(kinds_of(contents(*old(graph)), self.nodes@)) <= u8::MAX,
            worthwhile(kinds_of(contents(*old(graph)), self.nodes@), max_delay) ==> has_room(
                contents(*old(graph)),
                self.nodes@,
            ),
        ensures
            exists|new: Seq<RuntimeAction>| #[trigger]
                coalesces(
                    contents(*old(graph)),
                    self.nodes@,
                    self.blocks@,
                    max_delay,
                    contents(*final(graph)),
                    new,
                ) && final(actions)@ == old(actions)@ + new,
            count == if worthwhile(kinds_of(contents(*old(graph)), self.nodes@), max_delay) {
                self.nodes@.len()
            } else {
                0
            },
    {
        let ghost v = contents(*graph);
        let ghost kinds = kinds_of(v, self.nodes@);
        let len: usize = self.nodes.len();
        let ghost none = Seq::<RuntimeAction>::empty();
        assert(actions@ + none =~= actions@);
        if len == 0 {
            assert(coalesces(v, self.nodes@, self.blocks@, max_delay, contents(*graph), none));
            return 0;
        }
        let last: NodeIdx = self.nodes[len - 1];
        assert(v.nodes.contains_key(self.nodes@[len - 1]));
        let facing_diode: bool = match graph::node(graph, last).ty {
            NodeType::Repeater { facing_diode, .. } => facing_diode,
            _ => false,
        };
        let mut torches: bool = false;
        let mut total_invert: bool = false;
        let mut delay_sum: u8 = 0;
        let mut max_comp_delay: u8 = 1;
        let mut i: usize = len;
        assert(kinds.skip(len as int) =~= Seq::empty());
        while i > 0
            invariant
                i <= len == self.nodes@.len() == kinds.len(),
                v == contents(*graph),
                kinds == kinds_of(v, self.nodes@),
                forall|j: int|
                    0 <= j < self.nodes@.len() ==> v.nodes.contains_key(#[trigger] self.nodes@[j]),
                total_delay(kinds) <= u8::MAX,
                torches == has_torch(kinds.skip(i as int)),
                total_invert == inverts(kinds.skip(i as int)),
                delay_sum == total_delay(kinds.skip(i as int)),
                max_comp_delay == slowest(kinds.skip(i as int)),
            decreases i,
        {
            i -= 1;
            proof {
                lemma_part(kinds, i as int);
                lemma_part_delay(kinds, i as int);
                assert(v.nodes.contains_key(self.nodes@[i as int]));
            }
            match graph::node(graph, self.nodes[i]).ty {
                NodeType::Repeater { delay, .. } => {
                    delay_sum += delay;
                    if delay > max_comp_delay {
                        max_comp_delay = delay;
                    }
                },
                NodeType::Torch { invert } => {
                    torches = true;
                    if invert {
                        total_invert = !total_invert;
                    }
                    delay_sum += 1;
                },
                _ => {},
            }
        }
        assert(kinds.skip(0) =~= kinds);
        proof {
            lemma_slowest(kinds);
        }
        let ghost s = summary(kinds);
        if torches && delay_sum < 2 {
            // This would never be an optimization
            assert(coalesces(v, self.nodes@, self.blocks@, max_delay, contents(*graph), none));
            return 0;
        }
        if delay_sum as usize > max_delay {
            assert(coalesces(v, self.nodes@, self.blocks@, max_delay, contents(*graph), none));
            return 0;
        }
        let nodes = make_replacement(
            delay_sum,
            facing_diode,
            max_comp_delay,
            torches,
            total_invert,
            &self.blocks,
        );
        assert(nodes@ == replacement(s, self.blocks@));
        assert(nodes@.len() == replacement(s, Seq::empty()).len());
        if nodes.len() >= len {
            // This would not be an optimization and may result in endless loop
            assert(coalesces(v, self.nodes@, self.blocks@, max_delay, contents(*graph), none));
            return 0;
        }
        assert(worthwhile(kinds, max_delay));
        let ids = add_replacement(graph, nodes);
        let ghost between = contents(*graph);
        let ghost edge_ids = choose|edge_ids: Seq<EdgeIdx>|
            adds_row(v, replacement(s, self.blocks@), ids@, edge_ids, between);
        proof {
            lemma_row_leaves_chain(v, replacement(s, self.blocks@), ids@, edge_ids, between);
            assert(v.nodes.contains_key(self.nodes@[0]));
            assert(between.nodes.contains_key(ids@[0]));
            assert(between.nodes.contains_key(ids@[ids@.len() - 1]));
        }
        replace(graph, &self.nodes, &ids);
        actions.push(RuntimeAction::Update(ids[0]));
        if torches {
            // First repeater delay + 1
            actions.push(
                RuntimeAction::Tick(ids[1], max_comp_delay as u32 + 1, TickPriority::Normal),
            );
        }
        actions.push(RuntimeAction::BreakLink(last, delay_sum as u32));
        proof {
            let new = actions_for(s, ids@, self.nodes@.last());
            assert(actions@ =~= old(actions)@ + new);
            let (input_ids, output_ids) = choose|
                input_ids: Seq<EdgeIdx>,
                output_ids: Seq<EdgeIdx>,
            |
                rewires(
                    between,
                    self.nodes@,
                    ids@.first(),
                    ids@.last(),
                    input_ids,
                    output_ids,
                    contents(*graph),
                );
            assert(adds_row(v, replacement(s, self.blocks@), ids@, edge_ids, between));
            assert(rewires(
                between,
                self.nodes@,
                ids@.first(),
                ids@.last(),
                input_ids,
                output_ids,
                contents(*graph),
            ));
            assert(replaces(v, self.nodes@, self.blocks@, contents(*graph), new));
            assert(coalesces(v, self.nodes@, self.blocks@, max_delay, contents(*graph), new));
        }
        len
    }
}

/// A row of new nodes leaves the nodes that were there, and their edges, as they are.
pub proof fn lemma_row_leaves_chain(
    before: GraphView,
    nodes: Seq<CompileNode>,
    ids: Seq<NodeIdx>,
    edge_ids: Seq<EdgeIdx>,
    after: GraphView,
)
    requires
        before.wf(),
        nodes.len() > 0,
        adds_row(before, nodes, ids, edge_ids, after),
    ensures
        after.wf(),
        after.nodes.len() == before.nodes.len() + nodes.len(),
        after.edges.len() == before.edges.len() + nodes.len() - 1,
        forall|i: int|
            0 <= i < ids.len() ==> {
                &&& after.nodes.contains_key(#[trigger] ids[i])
                &&& after.nodes[ids[i]] == nodes[i]
                &&& !before.nodes.contains_key(ids[i])
            },
        forall|n: NodeIdx| #[trigger]
            before.nodes.contains_key(n) ==> {
                &&& after.nodes.contains_key(n)
                &&& after.nodes[n] == before.nodes[n]
                &&& after.outgoing[n] == before.outgoing[n]
                &&& after.incoming[n] == before.incoming[n]
            },
        forall|id: EdgeIdx| #[trigger]
            before.edges.contains_key(id) ==> after.edges.contains_pair(id, before.edges[id]),
{
    let grown = before.with_new_nodes(ids, nodes);
    let row = joints(ids, edge_ids);
    lemma_with_new_nodes(before, ids, nodes);
    lemma_with_edges(grown, row);
    assert forall|i: int| 0 <= i < row.len() implies {
        &&& !before.nodes.contains_key((#[trigger] row[i]).source)
        &&& !before.nodes.contains_key(row[i].target)
    } by {
        assert(!before.nodes.contains_key(ids[i]));
        assert(!before.nodes.contains_key(ids[i + 1]));
    }
    assert forall|i: int| 0 <= i < ids.len() implies {
        &&& after.nodes.contains_key(#[trigger] ids[i])
        &&& after.nodes[ids[i]] == nodes[i]
        &&& !before.nodes.contains_key(ids[i])
    } by {
        assert(ids.contains(ids[i]));
    }
    assert forall|n: NodeIdx| #[trigger] before.nodes.contains_key(n) implies {
        &&& after.nodes.contains_key(n)
        &&& after.nodes[n] == before.nodes[n]
        &&& after.outgoing[n] == before.outgoing[n]
        &&& after.incoming[n] == before.incoming[n]
    } by {
        lemma_edges_elsewhere(grown, row, n);
    }
}

/// New edges leave the lists of a node alone at which none of them starts or ends.
pub proof fn lemma_edges_elsewhere(v: GraphView, list: Seq<Edge>, n: NodeIdx)
    requires
        forall|i: int|
            0 <= i < list.len() ==> (#[trigger] list[i]).source != n && list[i].target != n,
    ensures
        v.with_edges(list).outgoing[n] == v.outgoing[n],
        v.with_edges(list).incoming[n] == v.incoming[n],
    decreases list.len(),
{
    if list.len() > 0 {
        let rest = list.drop_last();
        assert forall|i: int| 0 <= i < rest.len() implies (#[trigger] rest[i]).source != n
            && rest[i].target != n by {
            assert(rest[i] == list[i]);
        }
        lemma_edges_elsewhere(v, rest, n);
        assert(list.last() == list[list.len() - 1]);
    }
}

/// The number of edges of `list` that start at `n`.
pub open spec fn starting_at(list: Seq<Edge>, n: NodeIdx) -> nat
    decreases list.len(),
{
    if list.len() == 0 {
        0
    } else {
        starting_at(list.drop_last(), n) + if list.last().source == n {
            1nat
        } else {
            0
        }
    }
}

/// New edges count at the nodes at which they start.
proof fn lemma_with_edges_out(v: GraphView, list: Seq<Edge>, n: NodeIdx)
    ensures
        v.with_edges(list).outgoing[n].len() == v.outgoing[n].len() + starting_at(list, n),
    decreases list.len(),
{
    if list.len() > 0 {
        lemma_with_edges_out(v, list.drop_last(), n);
    }
}

/// Removed edges no longer count at the nodes at which they started.
proof fn lemma_without_edges_out(v: GraphView, list: Seq<Edge>, n: NodeIdx)
    requires
        v.wf(),
        v.nodes.contains_key(n),
        forall|i: int|
            0 <= i < list.len() ==> v.edges.contains_pair((#[trigger] list[i]).id, list[i]),
        forall|i: int, j: int|
            0 <= i < j < list.len() ==> (#[trigger] list[i]).id != (#[trigger] list[j]).id,
    ensures
        v.without_edges(list).outgoing[n].len() == v.outgoing[n].len() - starting_at(list, n),
    decreases list.len(),
{
    if list.len() > 0 {
        let rest = list.drop_last();
        let last = list.last();
        assert forall|i: int| 0 <= i < rest.len() implies v.edges.contains_pair(
            (#[trigger] rest[i]).id,
            rest[i],
        ) by {
            assert(rest[i] == list[i]);
        }
        lemma_without_edges_out(v, rest, n);
        lemma_without_edges(v, rest);
        let w = v.without_edges(rest);
        assert(last == list[list.len() - 1]);
        assert forall|i: int| 0 <= i < rest.len() implies (#[trigger] rest[i]).id != last.id by {
            assert(rest[i] == list[i]);
        }
        assert(w.edges.contains_key(last.id));
        lemma_without_edge(w, last.id);
    }
}

/// Leading edges elsewhere does not change where they start.
proof fn lemma_led_to_starts(
    list: Seq<Edge>,
    target: NodeIdx,
    edge_ids: Seq<EdgeIdx>,
    n: NodeIdx,
)
    requires
        edge_ids.len() == list.len(),
    ensures
        starting_at(led_to(list, target, edge_ids), n) == starting_at(list, n),
    decreases list.len(),
{
    if list.len() > 0 {
        lemma_led_to_starts(list.drop_last(), target, edge_ids.drop_last(), n);
        assert(led_to(list, target, edge_ids).drop_last() =~= led_to(
            list.drop_last(),
            target,
            edge_ids.drop_last(),
        ));
    }
}

/// Edges that start elsewhere.
proof fn lemma_starting_elsewhere(list: Seq<Edge>, n: NodeIdx)
    requires
        forall|i: int| 0 <= i < list.len() ==> (#[trigger] list[i]).source != n,
    ensures
        starting_at(list, n) == 0,
    decreases list.len(),
{
    if list.len() > 0 {
        let rest = list.drop_last();
        assert forall|i: int| 0 <= i < rest.len() implies (#[trigger] rest[i]).source != n by {
            assert(rest[i] == list[i]);
        }
        lemma_starting_elsewhere(rest, n);
        assert(list.last() == list[list.len() - 1]);
    }
}

/// A node has at most as many incoming edges as the graph has edges.
pub proof fn lemma_incoming_bounded(v: GraphView, n: NodeIdx)
    requires
        v.wf(),
    ensures
        v.edges_of(n, Direction::Incoming).len() <= v.edges.len(),
{
    lemma_indices_finite(v.edges.dom());
    if v.nodes.contains_key(n) {
        let list = v.incoming[n];
        let ids = list.map_values(|e: Edge| e.id);
        assert(ids.no_duplicates()) by {
            assert forall|i: int, j: int| 0 <= i < ids.len() && 0 <= j < ids.len() && i
                != j implies ids[i] != ids[j] by {
                if i < j {
                    assert(list[i].id != list[j].id);
                } else {
                    assert(list[j].id != list[i].id);
                }
            }
        }
        ids.unique_seq_to_set();
        assert(ids.to_set().subset_of(v.edges.dom())) by {
            assert forall|id: EdgeIdx| ids.to_set().contains(id) implies v.edges.dom().contains(
                id,
            ) by {
                let i = ids.index_of(id);
                assert(v.edges.contains_pair(list[i].id, list[i]));
            }
        }
        vstd::set_lib::lemma_len_subset(ids.to_set(), v.edges.dom());
    }
}

/// The replacement of a chain keeps every node that was there, with its type and the
/// number of edges that start at it.
pub proof fn lemma_replaces(
    before: GraphView,
    chain: Seq<NodeIdx>,
    blocks: Seq<(BlockPos, u32)>,
    after: GraphView,
    actions: Seq<RuntimeAction>,
)
    requires
        before.wf(),
        chain.len() > 0,
        forall|i: int| 0 <= i < chain.len() ==> before.nodes.contains_key(#[trigger] chain[i]),
        replaces(before, chain, blocks, after, actions),
    ensures
        after.wf(),
        forall|n: NodeIdx| #[trigger]
            before.nodes.contains_key(n) ==> {
                &&& after.nodes.contains_key(n)
                &&& after.nodes[n].ty == before.nodes[n].ty
                &&& after.outgoing[n].len() == before.outgoing[n].len()
            },
        ({
            let new_nodes = replacement(summary(kinds_of(before, chain)), Seq::empty()).len();
            &&& after.nodes.len() == before.nodes.len() + new_nodes
            &&& after.edges.len() == before.edges.len() + new_nodes - 1 + before.edges_of(
                chain.last(),
                Direction::Outgoing,
            ).len()
        }),
{
    let s = summary(kinds_of(before, chain));
    let nodes = replacement(s, blocks);
    assert(nodes.len() == replacement(s, Seq::empty()).len());
    let (ids, edge_ids, input_ids, output_ids, between) = choose|
        ids: Seq<NodeIdx>,
        edge_ids: Seq<EdgeIdx>,
        input_ids: Seq<EdgeIdx>,
        output_ids: Seq<EdgeIdx>,
        between: GraphView,
    |
        {
            &&& #[trigger] adds_row(before, nodes, ids, edge_ids, between)
            &&& #[trigger] rewires(
                between,
                chain,
                ids.first(),
                ids.last(),
                input_ids,
                output_ids,
                after,
            )
            &&& actions == actions_for(s, ids, chain.last())
        };
    lemma_row_leaves_chain(before, nodes, ids, edge_ids, between);
    assert(before.nodes.contains_key(chain[0]));
    assert(before.nodes.contains_key(chain[chain.len() - 1]));
    let head = ids.first();
    let tail = ids.last();
    assert(!before.nodes.contains_key(ids[0]));
    assert(!before.nodes.contains_key(ids[ids.len() - 1]));
    let inputs = between.edges_of(chain.first(), Direction::Incoming);
    let outputs = between.edges_of(chain.last(), Direction::Outgoing);
    let new_in = led_to(inputs, head, input_ids);
    let new_out = led_from(outputs, tail, output_ids);
    let fed = between.with_edges(new_in);
    let feeding = fed.with_edges(new_out);
    let cut = feeding.without_edges(inputs);
    lemma_with_edges(between, new_in);
    lemma_with_edges(fed, new_out);
    assert(between.nodes.contains_key(chain.first()));
    assert forall|i: int| 0 <= i < inputs.len() implies feeding.edges.contains_pair(
        (#[trigger] inputs[i]).id,
        inputs[i],
    ) by {
        assert(between.edges.contains_key(inputs[i].id));
        assert(fed.edges.contains_key(inputs[i].id));
    }
    lemma_without_edges(feeding, inputs);
    lemma_without_blocks(cut, chain);
    assert forall|n: NodeIdx| #[trigger] before.nodes.contains_key(n) implies {
        &&& after.nodes.contains_key(n)
        &&& after.nodes[n].ty == before.nodes[n].ty
        &&& after.outgoing[n].len() == before.outgoing[n].len()
    } by {
        lemma_with_edges_out(between, new_in, n);
        lemma_with_edges_out(fed, new_out, n);
        lemma_without_edges_out(feeding, inputs, n);
        lemma_led_to_starts(inputs, head, input_ids, n);
        lemma_starting_elsewhere(new_out, n);
    }
}

/// The nodes that the replacements of `chains` add to `g`.
pub open spec fn node_growth(g: GraphView, chains: Seq<Seq<NodeIdx>>, max_delay: usize) -> nat
    decreases chains.len(),
{
    if chains.len() == 0 {
        0
    } else {
        let kinds = kinds_of(g, chains.last());
        node_growth(g, chains.drop_last(), max_delay) + if worthwhile(kinds, max_delay) {
            replacement(summary(kinds), Seq::empty()).len()
        } else {
            0
        }
    }
}

/// The edges that the replacements of `chains` leave in `g` beyond those that it has.
pub open spec fn edge_growth(g: GraphView, chains: Seq<Seq<NodeIdx>>, max_delay: usize) -> nat
    decreases chains.len(),
{
    if chains.len() == 0 {
        0
    } else {
        let kinds = kinds_of(g, chains.last());
        edge_growth(g, chains.drop_last(), max_delay) + if worthwhile(kinds, max_delay) {
            (replacement(summary(kinds), Seq::empty()).len() - 1 + g.edges_of(
                chains.last().last(),
                Direction::Outgoing,
            ).len()) as nat
        } else {
            0
        }
    }
}

/// The nodes of those chains whose replacement is worthwhile.
pub open spec fn nodes_replaced(g: GraphView, chains: Seq<Seq<NodeIdx>>, max_delay: usize) -> nat
    decreases chains.len(),
{
    if chains.len() == 0 {
        0
    } else {
        nodes_replaced(g, chains.drop_last(), max_delay) + if worthwhile(
            kinds_of(g, chains.last()),
            max_delay,
        ) {
            chains.last().len()
        } else {
            0
        }
    }
}

/// Whether `graphs` are what becomes of `g`, one after the other, when each of `chains`
/// is looked at in turn, and `actions` are the actions that each of them calls for.
pub open spec fn steps(
    g: GraphView,
    chains: Seq<Seq<NodeIdx>>,
    max_delay: usize,
    graphs: Seq<GraphView>,
    actions: Seq<Seq<RuntimeAction>>,
) -> bool {
    &&& graphs.len() == chains.len() + 1
    &&& actions.len() == chains.len()
    &&& graphs[0] == g
    &&& forall|k: int|
        0 <= k < chains.len() ==> coalesces(
            graphs[k],
            #[trigger] chains[k],
            blocks_of(g, chains[k]),
            max_delay,
            graphs[k + 1],
            actions[k],
        )
}

/// What becomes of `g` when all of `chains` are looked at in order.
pub open spec fn coalesces_all(
    g: GraphView,
    chains: Seq<Seq<NodeIdx>>,
    max_delay: usize,
    after: GraphView,
    actions: Seq<RuntimeAction>,
) -> bool {
    exists|graphs: Seq<GraphView>, each: Seq<Seq<RuntimeAction>>|
        {
            &&& #[trigger] steps(g, chains, max_delay, graphs, each)
            &&& after == graphs.last()
            &&& actions == each.flatten()
        }
}

/// Whether the indices of the graph suffice for each replacement in turn, whichever of the
/// free indices the replacements before it have taken.
pub open spec fn has_room_throughout(
    g: GraphView,
    chains: Seq<Seq<NodeIdx>>,
    max_delay: usize,
) -> bool {
    forall|graphs: Seq<GraphView>, each: Seq<Seq<RuntimeAction>>|
        each.len() < chains.len() && #[trigger] steps(
            g,
            chains.take(each.len() as int),
            max_delay,
            graphs,
            each,
        ) && worthwhile(kinds_of(graphs.last(), chains[each.len() as int]), max_delay) ==> has_room(
            graphs.last(),
            chains[each.len() as int],
        )
}

/// Whether the delay of every chain fits its counter.
pub open spec fn delays_fit(g: GraphView, chains: Seq<Seq<NodeIdx>>) -> bool {
    forall|k: int|
        0 <= k < chains.len() ==> total_delay(kinds_of(g, #[trigger] chains[k])) <= u8::MAX
}

/// Whether the pass can run on `g`: the nodes of the chains stand for blocks, the delay
/// of a chain fits its counter, the indices of the graph suffice, and so does the counter
/// of replaced nodes.
pub open spec fn can_coalesce(g: GraphView, max_delay: usize) -> bool {
    let chains = chains_of(g);
    &&& all_placed(g)
    &&& delays_fit(g, chains)
    &&& has_room_throughout(g, chains, max_delay)
    &&& nodes_replaced(g, chains, max_delay) <= usize::MAX
}

/// Whether the pass can run on `g`, with enough indices for all replacements even if what
/// leads to a chain were all edges of the graph.
pub open spec fn can_easily_coalesce(g: GraphView, max_delay: usize) -> bool {
    let chains = chains_of(g);
    &&& all_placed(g)
    &&& delays_fit(g, chains)
    &&& g.nodes.len() + node_growth(g, chains, max_delay) <= u32::MAX
    &&& 2 * (g.edges.len() + edge_growth(g, chains, max_delay)) <= u32::MAX
    &&& nodes_replaced(g, chains, max_delay) <= usize::MAX
}

/// The growth by some of the chains is at most that by all.
proof fn lemma_growth(g: GraphView, chains: Seq<Seq<NodeIdx>>, k: int, max_delay: usize)
    requires
        0 <= k <= chains.len(),
    ensures
        node_growth(g, chains.take(k), max_delay) <= node_growth(g, chains, max_delay),
        edge_growth(g, chains.take(k), max_delay) <= edge_growth(g, chains, max_delay),
        nodes_replaced(g, chains.take(k), max_delay) <= nodes_replaced(g, chains, max_delay),
    decreases chains.len(),
{
    if k == chains.len() {
        assert(chains.take(k) =~= chains);
    } else {
        lemma_growth(g, chains.drop_last(), k, max_delay);
        assert(chains.drop_last().take(k) =~= chains.take(k));
    }
}

/// The walk keeps chains within their limit.
proof fn lemma_walk_len(f: Found, g: GraphView, chain: Seq<NodeIdx>)
    requires
        0 < chain.len() < MAX_LEN,
    ensures
        match f.walk(g, chain) {
            Walk::Ends(nodes) => 0 < nodes.len() <= MAX_LEN,
            Walk::Meets(nodes, k) => 0 < nodes.len() && nodes.len() + f.chains[k as int].len()
                <= MAX_LEN,
        },
    decreases MAX_LEN - chain.len(),
{
    match successor(g, chain.last()) {
        None => {},
        Some(next) => {
            if chain.len() + 1 < MAX_LEN {
                lemma_walk_len(f, g, chain.push(next));
            }
        },
    }
}

/// No chain is empty or exceeds the limit.
pub proof fn lemma_chains_len(g: GraphView, bound: int)
    requires
        0 <= bound <= index_limit(),
    ensures
        found_below(g, bound).chains.len() <= bound,
        forall|k: int|
            0 <= k < found_below(g, bound).chains.len() ==> 0 < (#[trigger] found_below(
                g,
                bound,
            ).chains[k]).len() <= MAX_LEN,
    decreases bound,
{
    if bound > 0 {
        lemma_chains_len(g, bound - 1);
        lemma_found_known(g, bound - 1);
        let f = found_below(g, bound - 1);
        let n = (bound - 1) as NodeIdx;
        lemma_walk_len(f, g, seq![n]);
        lemma_meets_known(f, g, seq![n]);
    }
}

/// One chain more has been looked at.
proof fn lemma_one_more_step(
    g: GraphView,
    chains: Seq<Seq<NodeIdx>>,
    k: int,
    max_delay: usize,
    graphs: Seq<GraphView>,
    actions: Seq<Seq<RuntimeAction>>,
    after: GraphView,
    latest: Seq<RuntimeAction>,
)
    requires
        0 <= k < chains.len(),
        steps(g, chains.take(k), max_delay, graphs, actions),
        coalesces(graphs.last(), chains[k], blocks_of(g, chains[k]), max_delay, after, latest),
    ensures
        steps(g, chains.take(k + 1), max_delay, graphs.push(after), actions.push(latest)),
{
    let more = chains.take(k + 1);
    assert forall|i: int| 0 <= i < more.len() implies coalesces(
        graphs.push(after)[i],
        #[trigger] more[i],
        blocks_of(g, more[i]),
        max_delay,
        graphs.push(after)[i + 1],
        actions.push(latest)[i],
    ) by {
        if i < k {
            assert(chains.take(k)[i] == more[i]);
        }
    }
}

/// What holds between the graph before the first and after some replacements.
spec fn grown_from(g: GraphView, v: GraphView) -> bool {
    &&& v.wf()
    &&& forall|n: NodeIdx| #[trigger]
        g.nodes.contains_key(n) ==> {
            &&& v.nodes.contains_key(n)
            &&& v.nodes[n].ty == g.nodes[n].ty
            &&& v.outgoing[n].len() == g.outgoing[n].len()
        }
}

/// Whether the chains are made of nodes of `g`, and none is empty.
spec fn made_of(g: GraphView, chains: Seq<Seq<NodeIdx>>) -> bool {
    forall|k: int| 0 <= k < chains.len() ==> inside(g, #[trigger] chains[k])
}

/// Whether a chain is made of nodes of `g`, and is not empty.
spec fn inside(g: GraphView, chain: Seq<NodeIdx>) -> bool {
    chain.len() > 0 && forall|i: int|
        0 <= i < chain.len() ==> g.nodes.contains_key(#[trigger] chain[i])
}

/// The types of the nodes of a chain stay as they are.
proof fn lemma_kinds_stay(g: GraphView, v: GraphView, chain: Seq<NodeIdx>)
    requires
        grown_from(g, v),
        inside(g, chain),
    ensures
        kinds_of(v, chain) == kinds_of(g, chain),
        inside(v, chain),
{
    assert forall|i: int| 0 <= i < chain.len() implies v.nodes.contains_key(#[trigger] chain[i])
        && kinds_of(v, chain)[i] == kinds_of(g, chain)[i] by {
        assert(g.nodes.contains_key(chain[i]));
    }
    assert(kinds_of(v, chain) =~= kinds_of(g, chain));
}

/// What the graph has grown to after some replacements.
proof fn lemma_steps_grow(
    g: GraphView,
    chains: Seq<Seq<NodeIdx>>,
    max_delay: usize,
    graphs: Seq<GraphView>,
    actions: Seq<Seq<RuntimeAction>>,
    k: int,
)
    requires
        g.wf(),
        made_of(g, chains),
        steps(g, chains, max_delay, graphs, actions),
        0 <= k <= chains.len(),
    ensures
        grown_from(g, graphs[k]),
        graphs[k].nodes.len() == g.nodes.len() + node_growth(g, chains.take(k), max_delay),
        graphs[k].edges.len() == g.edges.len() + edge_growth(g, chains.take(k), max_delay),
    decreases k,
{
    if k > 0 {
        lemma_steps_grow(g, chains, max_delay, graphs, actions, k - 1);
        let chain = chains[k - 1];
        let v = graphs[k - 1];
        let blocks = blocks_of(g, chain);
        assert(coalesces(v, chain, blocks, max_delay, graphs[k - 1 + 1], actions[k - 1]));
        assert(inside(g, chain));
        lemma_kinds_stay(g, v, chain);
        if worthwhile(kinds_of(v, chain), max_delay) {
            lemma_replaces(v, chain, blocks, graphs[k], actions[k - 1]);
        }
        assert(g.nodes.contains_key(chain[chain.len() - 1]));
        assert(chains.take(k).drop_last() =~= chains.take(k - 1));
        assert(chains.take(k).last() == chain);
    } else {
        assert(chains.take(0) =~= Seq::empty());
    }
}

/// Where the indices are enough even if what leads to a chain were all edges, they suffice.
proof fn lemma_easily(g: GraphView, max_delay: usize)
    requires
        g.wf(),
        made_of(g, chains_of(g)),
        can_easily_coalesce(g, max_delay),
    ensures
        can_coalesce(g, max_delay),
{
    let chains = chains_of(g);
    assert forall|graphs: Seq<GraphView>, each: Seq<Seq<RuntimeAction>>|
        each.len() < chains.len() && #[trigger] steps(
            g,
            chains.take(each.len() as int),
            max_delay,
            graphs,
            each,
        ) && worthwhile(
            kinds_of(graphs.last(), chains[each.len() as int]),
            max_delay,
        ) implies has_room(graphs.last(), chains[each.len() as int]) by {
        let k = each.len() as int;
        let done = chains.take(k);
        let v = graphs.last();
        let chain = chains[k];
        assert forall|j: int| 0 <= j < done.len() implies inside(g, #[trigger] done[j]) by {
            assert(done[j] == chains[j]);
        }
        lemma_steps_grow(g, done, max_delay, graphs, each, k);
        assert(done.take(k) =~= done);
        assert(graphs[k] == v);
        assert(inside(g, chain));
        lemma_kinds_stay(g, v, chain);
        lemma_growth(g, chains, k + 1, max_delay);
        assert(chains.take(k + 1).drop_last() =~= done);
        assert(chains.take(k + 1).last() == chain);
        lemma_incoming_bounded(v, chain.first());
        assert(g.nodes.contains_key(chain[chain.len() - 1]));
    }
}

/// The chains that have been found are made of nodes of the graph.
proof fn lemma_made_of(builder: ChainBuilder, g: GraphView)
    requires
        builder.wf(g),
    ensures
        made_of(g, builder.found().chains),
{
    let chains = builder.found().chains;
    assert forall|k: int| 0 <= k < chains.len() implies inside(g, #[trigger] chains[k]) by {
        assert(chains[k] == builder.chains@[k].nodes@);
        assert(builder.chains@[k].taken_from(g));
    }
}

impl ChainBuilder {
    /// Finds the chains of the graph and replaces those for which it is worthwhile.  The
    /// number of nodes replaced comes back.
    pub fn coalesce_all(
        &mut self,
        graph: &mut CompileGraph,
        max_delay: usize,
        actions: &mut Vec<RuntimeAction>,
    ) -> (count: usize)
        requires
            old(self).found() == Found::empty(),
            can_coalesce(contents(*old(graph)), max_delay),
        ensures
            final(self).found().chains == chains_of(contents(*old(graph))),
            exists|new: Seq<RuntimeAction>| #[trigger]
                coalesces_all(
                    contents(*old(graph)),
                    chains_of(contents(*old(graph))),
                    max_delay,
                    contents(*final(graph)),
                    new,
                ) && final(actions)@ == old(actions)@ + new,
            count == nodes_replaced(
                contents(*old(graph)),
                chains_of(contents(*old(graph))),
                max_delay,
            ),
    {
        self.identify_chains(graph);
        self.coalesce_found(graph, max_delay, actions)
    }

    /// Replaces those of the chains that have been found for which it is worthwhile.  The
    /// number of nodes replaced comes back.
    fn coalesce_found(
        &self,
        graph: &mut CompileGraph,
        max_delay: usize,
        actions: &mut Vec<RuntimeAction>,
    ) -> (count: usize)
        requires
            contents(*old(graph)).wf(),
            self.wf(contents(*old(graph))),
            self.found().chains == chains_of(contents(*old(graph))),
            can_coalesce(contents(*old(graph)), max_delay),
        ensures
            exists|new: Seq<RuntimeAction>| #[trigger]
                coalesces_all(
                    contents(*old(graph)),
                    chains_of(contents(*old(graph))),
                    max_delay,
                    contents(*final(graph)),
                    new,
                ) && final(actions)@ == old(actions)@ + new,
            count == nodes_replaced(
                contents(*old(graph)),
                chains_of(contents(*old(graph))),
                max_delay,
            ),
    {
        let ghost g = contents(*graph);
        let ghost chains = chains_of(g);
        let ghost mut graphs = seq![g];
        let ghost mut each = Seq::<Seq<RuntimeAction>>::empty();
        assert(chains.take(0) =~= Seq::empty());
        assert(actions@ =~= old(actions)@ + each.flatten());
        let mut num_coalesced: usize = 0;
        let len: usize = self.chains.len();
        assert(len == chains.len());
        proof {
            lemma_made_of(*self, g);
        }
        let mut k: usize = 0;
        while k < len
            invariant
                k <= len == self.chains@.len() == chains.len(),
                self.wf(g),
                self.found().chains == chains,
                made_of(g, chains),
                can_coalesce(g, max_delay),
                chains == chains_of(g),
                grown_from(g, contents(*graph)),
                steps(g, chains.take(k as int), max_delay, graphs, each),
                contents(*graph) == graphs.last(),
                actions@ == old(actions)@ + each.flatten(),
                num_coalesced == nodes_replaced(g, chains.take(k as int), max_delay),
            decreases len - k,
        {
            let ghost v = contents(*graph);
            let ghost c = chains[k as int];
            let ghost acts = actions@;
            proof {
                assert(self.found().chains[k as int] == self.chains@[k as int].nodes@);
                assert(self.chains@[k as int].taken_from(g));
                assert(inside(g, c));
                lemma_kinds_stay(g, v, c);
                assert(chains.take(k + 1).drop_last() =~= chains.take(k as int));
                assert(chains.take(k + 1).last() == c);
                lemma_growth(g, chains, k + 1, max_delay);
                assert(steps(g, chains.take(each.len() as int), max_delay, graphs, each));
            }
            let count: usize = self.chains[k].coalesce(graph, max_delay, actions);
            proof {
                let latest = choose|latest: Seq<RuntimeAction>| #[trigger]
                    coalesces(v, c, blocks_of(g, c), max_delay, contents(*graph), latest)
                        && actions@ == acts + latest;
                if worthwhile(kinds_of(v, c), max_delay) {
                    lemma_replaces(v, c, blocks_of(g, c), contents(*graph), latest);
                }
                lemma_one_more_step(
                    g,
                    chains,
                    k as int,
                    max_delay,
                    graphs,
                    each,
                    contents(*graph),
                    latest,
                );
                each.lemma_flatten_push(latest);
                graphs = graphs.push(contents(*graph));
                each = each.push(latest);
                assert(actions@ =~= old(actions)@ + each.flatten());
            }
            num_coalesced += count;
            k += 1;
        }
        assert(chains.take(len as int) =~= chains);
        assert(coalesces_all(g, chains, max_delay, contents(*graph), each.flatten()));
        num_coalesced
    }
}

/// What a chain weighs: its delay, how many nodes would stand in for it, and whether the
/// replacement is worthwhile.
pub struct Weight {
    pub delay: u32,
    pub new_nodes: usize,
    pub worthwhile: bool,
}

/// The delay of a part of a chain is no more than its length allows.
proof fn lemma_delay_bounded(kinds: Seq<NodeType>)
    ensures
        total_delay(kinds) <= 255 * kinds.len(),
        slowest(kinds) <= 255,
    decreases kinds.len(),
{
    if kinds.len() > 0 {
        lemma_delay_bounded(kinds.drop_first());
    }
}

impl Chain {
    /// What the chain weighs.
    fn weigh(&self, graph: &CompileGraph, max_delay: usize) -> (weight: Weight)
        requires
            0 < self.nodes@.len() <= MAX_LEN,
            forall|i: int|
                0 <= i < self.nodes@.len() ==> contents(*graph).nodes.contains_key(
                    #[trigger] self.nodes@[i],
                ),
        ensures
            weight.delay == total_delay(kinds_of(contents(*graph), self.nodes@)),
            weight.new_nodes == replacement(
                summary(kinds_of(contents(*graph), self.nodes@)),
                Seq::empty(),
            ).len(),
            weight.worthwhile == worthwhile(kinds_of(contents(*graph), self.nodes@), max_delay),
    {
        let ghost g = contents(*graph);
        let ghost kinds = kinds_of(g, self.nodes@);
        let len: usize = self.nodes.len();
        let mut torches: bool = false;
        let mut delay_sum: u32 = 0;
        let mut max_comp_delay: u32 = 1;
        let mut i: usize = len;
        assert(kinds.skip(len as int) =~= Seq::empty());
        while i > 0
            invariant
                i <= len == self.nodes@.len() == kinds.len() <= MAX_LEN,
                g == contents(*graph),
                kinds == kinds_of(g, self.nodes@),
                forall|j: int|
                    0 <= j < self.nodes@.len() ==> g.nodes.contains_key(#[trigger] self.nodes@[j]),
                torches == has_torch(kinds.skip(i as int)),
                delay_sum == total_delay(kinds.skip(i as int)),
                max_comp_delay == slowest(kinds.skip(i as int)),
            decreases i,
        {
            i -= 1;
            proof {
                lemma_part(kinds, i as int);
                lemma_delay_bounded(kinds.skip(i as int));
                assert(g.nodes.contains_key(self.nodes@[i as int]));
            }
            match graph::node(graph, self.nodes[i]).ty {
                NodeType::Repeater { delay, .. } => {
                    delay_sum += delay as u32;
                    if delay as u32 > max_comp_delay {
                        max_comp_delay = delay as u32;
                    }
                },
                NodeType::Torch { .. } => {
                    torches = true;
                    delay_sum += 1;
                },
                _ => {},
            }
        }
        assert(kinds.skip(0) =~= kinds);
        proof {
            lemma_delay_bounded(kinds);
        }
        let (front, done): (usize, u32) = if torches {
            (2, max_comp_delay + 1)
        } else {
            (1, max_comp_delay)
        };
        let new_nodes: usize = if delay_sum > done {
            front + 1
        } else {
            front
        };
        let worth: bool = !(torches && delay_sum < 2) && delay_sum as usize <= max_delay
            && new_nodes < len;
        Weight { delay: delay_sum, new_nodes, worthwhile: worth }
    }
}

impl ChainBuilder {
    /// Whether the chains that have been found can be replaced, with enough indices for
    /// all replacements even if what leads to a chain were all edges of the graph.
    fn can_coalesce_found(&self, graph: &CompileGraph, max_delay: usize) -> (r: bool)
        requires
            self.wf(contents(*graph)),
            self.found().chains == chains_of(contents(*graph)),
            all_placed(contents(*graph)),
        ensures
            r == can_easily_coalesce(contents(*graph), max_delay),
            r ==> can_coalesce(contents(*graph), max_delay),
    {
        let ghost g = contents(*graph);
        let ghost chains = chains_of(g);
        let nodes_total: usize = graph::node_count(graph);
        let edges_total: usize = graph::edge_count(graph);
        proof {
            lemma_chains_len(g, index_limit());
            assert(chains.take(0) =~= Seq::empty());
        }
        let mut new_nodes: u128 = 0;
        let mut new_edges: u128 = 0;
        let mut replaced: u128 = 0;
        let len: usize = self.chains.len();
        assert(len == chains.len()) by {
            assert(self.found().chains.len() == len);
        }
        let mut k: usize = 0;
        while k < len
            invariant
                k <= len == self.chains@.len() == chains.len() <= index_limit(),
                g == contents(*graph),
                chains == chains_of(g),
                self.wf(g),
                self.found().chains == chains,
                forall|j: int| 0 <= j < chains.len() ==> 0 < (#[trigger] chains[j]).len() <= MAX_LEN,
                new_nodes == node_growth(g, chains.take(k as int), max_delay),
                new_edges == edge_growth(g, chains.take(k as int), max_delay),
                replaced == nodes_replaced(g, chains.take(k as int), max_delay),
                new_nodes <= k * 3,
                new_edges <= k * (2 + u32::MAX),
                replaced <= k * 255,
                forall|j: int|
                    0 <= j < k ==> total_delay(kinds_of(g, #[trigger] chains[j])) <= u8::MAX,
            decreases len - k,
        {
            let chain = &self.chains[k];
            let ghost c = chains[k as int];
            proof {
                assert(self.found().chains[k as int] == chain.nodes@);
                assert(chain.taken_from(g));
                assert(chains.take(k + 1).drop_last() =~= chains.take(k as int));
                assert(chains.take(k + 1).last() == c);
                assert(k * (2 + u32::MAX) + (2 + u32::MAX) == (k + 1) * (2 + u32::MAX))
                    by (nonlinear_arith);
                assert(k * (2 + u32::MAX) <= (1 + u32::MAX) * (2 + u32::MAX)) by (nonlinear_arith)
                    requires
                        0 <= k <= 1 + u32::MAX,
                ;
            }
            let weight = chain.weigh(graph, max_delay);
            if weight.delay > u8::MAX as u32 {
                assert(total_delay(kinds_of(g, chains[k as int])) > u8::MAX);
                return false;
            }
            if weight.worthwhile {
                let last: NodeIdx = chain.nodes[chain.len() - 1];
                assert(g.nodes.contains_key(chain.nodes@[chain.nodes@.len() - 1]));
                let outputs = graph::edges_directed(graph, last, Direction::Outgoing);
                new_nodes += weight.new_nodes as u128;
                new_edges += (weight.new_nodes - 1) as u128 + outputs.len() as u128;
                replaced += chain.len() as u128;
            }
            k += 1;
        }
        assert(chains.take(k as int) =~= chains);
        assert(k * (2 + u32::MAX) <= (1 + u32::MAX) * (2 + u32::MAX)) by (nonlinear_arith)
            requires
                0 <= k <= 1 + u32::MAX,
        ;
        let easily: bool = nodes_total as u128 + new_nodes <= u32::MAX as u128 && 2 * (
        edges_total as u128 + new_edges) <= u32::MAX as u128 && replaced <= usize::MAX as u128;
        proof {
            if easily {
                lemma_made_of(*self, g);
                lemma_easily(g, max_delay);
            }
        }
        easily
    }
}

/// The pass.
pub struct ChainCoalesce;

impl ChainCoalesce {
    /// Replaces the chains of the graph by fewer nodes with the same delay, and asks for
    /// the actions that this calls for.  `max_delay` is the longest delay that a tick can
    /// be scheduled for.
    pub fn run_pass(
        &self,
        graph: &mut CompileGraph,
        max_delay: usize,
        actions: &mut Vec<RuntimeAction>,
    )
        requires
            can_coalesce(contents(*old(graph)), max_delay),
        ensures
            exists|new: Seq<RuntimeAction>| #[trigger]
                coalesces_all(
                    contents(*old(graph)),
                    chains_of(contents(*old(graph))),
                    max_delay,
                    contents(*final(graph)),
                    new,
                ) && final(actions)@ == old(actions)@ + new,
    {
        let mut builder = ChainBuilder::new();
        builder.coalesce_all(graph, max_delay, actions);
    }

    /// Replaces the chains of the graph, if it is plain that all of them can be; whether it
    /// is comes back.
    pub fn try_run_pass(
        &self,
        graph: &mut CompileGraph,
        max_delay: usize,
        actions: &mut Vec<RuntimeAction>,
    ) -> (ran: bool)
        ensures
            ran == can_easily_coalesce(contents(*old(graph)), max_delay),
            ran ==> can_coalesce(contents(*old(graph)), max_delay),
            ran ==> exists|new: Seq<RuntimeAction>| #[trigger]
                coalesces_all(
                    contents(*old(graph)),
                    chains_of(contents(*old(graph))),
                    max_delay,
                    contents(*final(graph)),
                    new,
                ) && final(actions)@ == old(actions)@ + new,
            !ran ==> *final(graph) == *old(graph) && final(actions)@ == old(actions)@,
    {
        let mut builder = ChainBuilder::new();
        if !builder.identify_chains(graph) {
            return false;
        }
        if !builder.can_coalesce_found(graph, max_delay) {
            return false;
        }
        builder.coalesce_found(graph, max_delay, actions);
        true
    }

    pub fn status_message(&self) -> (message: &'static str)
        ensures
            message@ == "Coalescing chains"@,
    {
        "Coalescing chains"
    }
}

} // verus!
