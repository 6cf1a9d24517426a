//! What holds of the chains that [`crate::passes::chain_coalesce`] finds, and of what it
//! puts in their place.

use vstd::prelude::*;

use crate::compile_graph::{CompileLink, CompileNode, LinkType, NodeIdx, NodeType};
use crate::graph::{
    lemma_indices_finite, lemma_with_edges, lemma_with_new_nodes, lemma_without_edges, Direction,
    Edge, EdgeIdx, GraphView,
};
use crate::passes::chain_coalesce::{
    actions_for, adds_row, blocks_of, chains_of, coalesces, coalesces_all, found_below, found_in,
    has_torch, index_limit, inverts, joinable, joints, kinds_of, led_from, led_to,
    lemma_meets_known, lemma_replaces, lemma_row_leaves_chain, lemma_slowest, passed, replacement,
    replaces, rewires, startable, steps, successor, summary, total_delay, worthwhile, Found, Walk,
    MAX_LEN,
};
use crate::passes::RuntimeAction;
use crate::world::BlockPos;

verus! {

/// Whether each node of `chain` feeds the next and nothing else, and nothing else feeds
/// the next.
pub open spec fn linked(g: GraphView, chain: Seq<NodeIdx>) -> bool {
    forall|i: int| 1 <= i < chain.len() ==> #[trigger] leads(g, chain, i) && joinable(g, chain[i])
}

/// Whether the node of `chain` before the one at `i` feeds that one and nothing else.
pub open spec fn leads(g: GraphView, chain: Seq<NodeIdx>, i: int) -> bool {
    successor(g, chain[i - 1]) == Some(chain[i])
}

/// Whether a chain that begins inside `chain`, other than at its front, is too long for
/// what comes before it in `chain` to be put in front of it.
pub open spec fn clear_of(f: Found, chain: Seq<NodeIdx>) -> bool {
    forall|i: int, k: int|
        1 <= i < chain.len() && 0 <= k < f.chains.len() && #[trigger] chain[i] == (
        #[trigger] f.chains[k]).first() ==> f.chains[k].len() + i > MAX_LEN
}

/// What holds of the chains after each walk.
pub open spec fn tidy(g: GraphView, f: Found) -> bool {
    &&& forall|k: int| 0 <= k < f.chains.len() ==> tidy_chain(g, f, #[trigger] f.chains[k])
    &&& forall|n: NodeIdx| #[trigger]
        f.index.contains_key(n) ==> f.index[n] < f.chains.len()
            && f.chains[f.index[n] as int].contains(n)
    &&& forall|j: int, k: int|
        0 <= j < f.chains.len() && 0 <= k < f.chains.len() && j != k ==> (
        #[trigger] f.chains[j]).first() != (#[trigger] f.chains[k]).first()
}

/// What holds of each chain after each walk.
pub open spec fn tidy_chain(g: GraphView, f: Found, chain: Seq<NodeIdx>) -> bool {
    &&& 0 < chain.len() <= MAX_LEN
    &&& linked(g, chain)
    &&& startable(g, chain.first())
    &&& clear_of(f, chain)
    &&& forall|i: int| 0 <= i < chain.len() ==> f.index.contains_key(#[trigger] chain[i])
}

/// Whether exactly one edge leads to a node.
pub open spec fn fed_once(g: GraphView, n: NodeIdx) -> bool {
    g.nodes.contains_key(n) && g.edges_of(n, Direction::Incoming).len() == 1
}

/// A node to which one edge leads has one node that feeds it.
proof fn lemma_one_feeder(g: GraphView, a: NodeIdx, b: NodeIdx, n: NodeIdx)
    requires
        g.wf(),
        fed_once(g, n),
        successor(g, a) == Some(n),
        successor(g, b) == Some(n),
    ensures
        a == b,
{
    let from_a = g.edges_of(a, Direction::Outgoing)[0];
    let from_b = g.edges_of(b, Direction::Outgoing)[0];
    assert(g.nodes.contains_key(a));
    assert(g.nodes.contains_key(b));
    assert(g.lists_edges(a, Direction::Outgoing, g.outgoing[a]));
    assert(g.lists_edges(b, Direction::Outgoing, g.outgoing[b]));
    assert(g.outgoing[a][0] == from_a);
    assert(g.outgoing[b][0] == from_b);
    assert(g.edges.contains_key(from_a.id));
    assert(g.edges.contains_key(from_b.id));
    assert(g.lists_edges(n, Direction::Incoming, g.incoming[n]));
    assert(g.incoming[n].contains(from_a));
    assert(g.incoming[n].contains(from_b));
    let i = g.incoming[n].index_of(from_a);
    let j = g.incoming[n].index_of(from_b);
    assert(i == 0 && j == 0);
}

/// Two linked rows that share a node share what comes before it.
proof fn lemma_common_past(
    g: GraphView,
    one: Seq<NodeIdx>,
    i: int,
    other: Seq<NodeIdx>,
    j: int,
    t: int,
)
    requires
        g.wf(),
        linked(g, other),
        0 <= t <= i < one.len(),
        t <= j < other.len(),
        forall|m: int| 1 <= m <= i ==> #[trigger] leads(g, one, m),
        one[i] == other[j],
    ensures
        one[i - t] == other[j - t],
    decreases t,
{
    if t > 0 {
        lemma_common_past(g, one, i, other, j, t - 1);
        let n = one[i - t + 1];
        assert(n == other[j - t + 1]);
        assert(leads(g, one, i - t + 1));
        assert(leads(g, other, j - t + 1));
        lemma_one_feeder(g, one[i - t], other[j - t], n);
    }
}

/// A walk in progress: it started outside all chains, and came here node by node.
pub open spec fn walking(g: GraphView, f: Found, row: Seq<NodeIdx>) -> bool {
    &&& g.wf()
    &&& tidy(g, f)
    &&& 0 < row.len() < MAX_LEN
    &&& linked(g, row)
    &&& startable(g, row[0])
    &&& !f.index.contains_key(row[0])
    &&& clear_of(f, row)
}

/// A chain that holds the next node begins after the start of the walk.
proof fn lemma_begins_later(g: GraphView, f: Found, row: Seq<NodeIdx>, next: NodeIdx, k: int, q: int)
    requires
        walking(g, f, row),
        successor(g, row.last()) == Some(next),
        0 <= k < f.chains.len(),
        0 <= q < f.chains[k].len(),
        f.chains[k][q] == next,
    ensures
        q < row.len(),
        row.push(next)[row.len() - q] == f.chains[k].first(),
{
    let longer = row.push(next);
    let chain = f.chains[k];
    assert(tidy_chain(g, f, chain));
    assert forall|m: int| 1 <= m <= row.len() implies #[trigger] leads(g, longer, m) by {
        if m < row.len() {
            assert(leads(g, row, m));
        }
    }
    if q >= row.len() {
        lemma_common_past(g, longer, row.len() as int, chain, q, row.len() as int);
        assert(f.index.contains_key(chain[q - row.len()]));
        assert(false);
    }
    lemma_common_past(g, longer, row.len() as int, chain, q, q);
}

/// A walk that goes on stays clear of the chains it passes through.
proof fn lemma_goes_on(g: GraphView, f: Found, row: Seq<NodeIdx>, next: NodeIdx)
    requires
        walking(g, f, row),
        successor(g, row.last()) == Some(next),
        joinable(g, next),
        f.index.contains_key(next) ==> f.chains[f.index[next] as int].len() + row.len() > MAX_LEN,
    ensures
        linked(g, row.push(next)),
        clear_of(f, row.push(next)),
{
    let longer = row.push(next);
    assert forall|i: int| 1 <= i < longer.len() implies #[trigger] leads(g, longer, i) && joinable(
        g,
        longer[i],
    ) by {
        if i < row.len() {
            assert(leads(g, row, i));
        }
    }
    assert forall|i: int, k: int|
        1 <= i < longer.len() && 0 <= k < f.chains.len() && #[trigger] longer[i] == (
        #[trigger] f.chains[k]).first() implies f.chains[k].len() + i > MAX_LEN by {
        if i < row.len() {
            assert(longer[i] == row[i]);
        } else {
            assert(tidy_chain(g, f, f.chains[k]));
            assert(f.index.contains_key(f.chains[k][0]));
            let m = f.index[next] as int;
            if m != k {
                let q = f.chains[m].index_of(next);
                assert(tidy_chain(g, f, f.chains[m]));
                lemma_begins_later(g, f, row, next, m, q);
                if q == 0 {
                    assert(f.chains[m].first() == f.chains[k].first());
                } else {
                    assert(f.chains[m][q] == f.chains[k].first());
                }
            }
        }
    }
}

/// A walk that is put in front of a chain meets it at its first node.
proof fn lemma_meets_first(g: GraphView, f: Found, row: Seq<NodeIdx>, next: NodeIdx)
    requires
        walking(g, f, row),
        successor(g, row.last()) == Some(next),
        f.index.contains_key(next),
        f.chains[f.index[next] as int].len() + row.len() <= MAX_LEN,
    ensures
        next == f.chains[f.index[next] as int].first(),
        forall|i: int| 1 <= i < row.len() ==> #[trigger] row[i] != row[0],
{
    let k = f.index[next] as int;
    let chain = f.chains[k];
    assert(tidy_chain(g, f, chain));
    let q = chain.index_of(next);
    lemma_begins_later(g, f, row, next, k, q);
    if q > 0 {
        assert(row[row.len() - q] == chain.first());
        assert(false);
    }
    assert forall|i: int| 1 <= i < row.len() implies #[trigger] row[i] != row[0] by {
        if row[i] == row[0] {
            lemma_round(g, row, i, row.len() - 1);
            assert(leads(g, row, row.len() - i));
            assert(row[row.len() - i] == next);
            assert(false);
        }
    }
}

/// A row that comes back to its start repeats itself.
proof fn lemma_round(g: GraphView, row: Seq<NodeIdx>, period: int, i: int)
    requires
        linked(g, row),
        1 <= period <= i < row.len(),
        row[period] == row[0],
    ensures
        row[i] == row[i - period],
    decreases i,
{
    if i > period {
        lemma_round(g, row, period, i - 1);
        assert(leads(g, row, i));
        assert(leads(g, row, i - period));
    }
}

/// A walk that ends early does not come back to its start.
proof fn lemma_no_round(g: GraphView, row: Seq<NodeIdx>)
    requires
        linked(g, row),
        row.len() > 0,
        match successor(g, row.last()) {
            Some(next) => !joinable(g, next),
            None => true,
        },
    ensures
        forall|i: int| 1 <= i < row.len() ==> #[trigger] row[i] != row[0],
{
    assert forall|i: int| 1 <= i < row.len() implies #[trigger] row[i] != row[0] by {
        if row[i] == row[0] {
            lemma_round(g, row, i, row.len() - 1);
            assert(leads(g, row, row.len() - i));
            assert(false);
        }
    }
}

/// What a walk finds fits in with the chains that are there.
pub proof fn lemma_walk_tidy(g: GraphView, f: Found, row: Seq<NodeIdx>)
    requires
        walking(g, f, row),
    ensures
        match f.walk(g, row) {
            Walk::Ends(nodes) => {
                &&& 0 < nodes.len() <= MAX_LEN
                &&& nodes[0] == row[0]
                &&& linked(g, nodes)
                &&& clear_of(f, nodes)
                &&& nodes.len() == MAX_LEN || forall|i: int|
                    1 <= i < nodes.len() ==> #[trigger] nodes[i] != nodes[0]
            },
            Walk::Meets(nodes, k) => {
                &&& 0 < nodes.len()
                &&& k < f.chains.len()
                &&& nodes[0] == row[0]
                &&& linked(g, nodes)
                &&& clear_of(f, nodes)
                &&& nodes.len() + f.chains[k as int].len() <= MAX_LEN
                &&& successor(g, nodes.last()) == Some(f.chains[k as int].first())
                &&& forall|i: int| 1 <= i < nodes.len() ==> #[trigger] nodes[i] != nodes[0]
            },
        },
    decreases MAX_LEN - row.len(),
{
    match successor(g, row.last()) {
        None => {
            lemma_no_round(g, row);
        },
        Some(next) => {
            if f.index.contains_key(next) && f.chains[f.index[next] as int].len() + row.len()
                <= MAX_LEN {
                lemma_meets_first(g, f, row, next);
            } else if !joinable(g, next) {
                lemma_no_round(g, row);
            } else {
                lemma_goes_on(g, f, row, next);
                if row.len() + 1 < MAX_LEN {
                    lemma_walk_tidy(g, f, row.push(next));
                }
            }
        },
    }
}

/// Whether `h` is `f` with `nodes` put in front of the chain `m`, or as a chain `m` of
/// their own.
spec fn grows(f: Found, h: Found, nodes: Seq<NodeIdx>, m: int) -> bool {
    &&& 0 <= m <= f.chains.len()
    &&& h.chains.len() == if m < f.chains.len() {
        f.chains.len()
    } else {
        f.chains.len() + 1
    }
    &&& nodes.len() > 0
    &&& h.chains[m] == nodes + tail_of(f, m)
    &&& forall|k: int| 0 <= k < h.chains.len() && k != m ==> #[trigger] h.chains[k] == f.chains[k]
    &&& forall|n: NodeIdx| #[trigger]
        h.index.contains_key(n) <==> f.index.contains_key(n) || nodes.contains(n)
    &&& forall|n: NodeIdx| #[trigger]
        h.index.contains_key(n) ==> h.index[n] == if nodes.contains(n) {
            m
        } else {
            f.index[n] as int
        }
}

/// The chain `m`, if there is one yet.
spec fn tail_of(f: Found, m: int) -> Seq<NodeIdx> {
    if m < f.chains.len() {
        f.chains[m]
    } else {
        Seq::empty()
    }
}

/// No chain holds a node that the index lacks.
proof fn lemma_not_held(g: GraphView, f: Found, n: NodeIdx)
    requires
        tidy(g, f),
        !f.index.contains_key(n),
    ensures
        forall|k: int| 0 <= k < f.chains.len() ==> !(#[trigger] f.chains[k]).contains(n),
{
    assert forall|k: int| 0 <= k < f.chains.len() implies !(#[trigger] f.chains[k]).contains(
        n,
    ) by {
        assert(tidy_chain(g, f, f.chains[k]));
        if f.chains[k].contains(n) {
            let i = f.chains[k].index_of(n);
            assert(f.index.contains_key(f.chains[k][i]));
        }
    }
}

/// A row put in front of a chain that it leads to is linked.
proof fn lemma_merged_linked(g: GraphView, nodes: Seq<NodeIdx>, tail: Seq<NodeIdx>)
    requires
        linked(g, nodes),
        linked(g, tail),
        nodes.len() > 0,
        tail.len() > 0 ==> successor(g, nodes.last()) == Some(tail[0]) && joinable(g, tail[0]),
    ensures
        linked(g, nodes + tail),
{
    let merged = nodes + tail;
    assert forall|i: int| 1 <= i < merged.len() implies #[trigger] leads(g, merged, i) && joinable(
        g,
        merged[i],
    ) by {
        if i < nodes.len() {
            assert(leads(g, nodes, i));
        } else if i > nodes.len() {
            assert(leads(g, tail, i - nodes.len()));
        }
    }
}

/// A chain that is left as it was stays clear.
proof fn lemma_others_clear(f: Found, h: Found, nodes: Seq<NodeIdx>, m: int, chain: Seq<NodeIdx>)
    requires
        grows(f, h, nodes, m),
        clear_of(f, chain),
        !chain.contains(nodes[0]),
    ensures
        clear_of(h, chain),
{
    assert forall|i: int, k: int|
        1 <= i < chain.len() && 0 <= k < h.chains.len() && #[trigger] chain[i] == (
        #[trigger] h.chains[k]).first() implies h.chains[k].len() + i > MAX_LEN by {
        if k == m {
            assert(h.chains[m][0] == nodes[0]);
            assert(chain[i] == nodes[0]);
        } else {
            assert(chain[i] == f.chains[k].first());
        }
    }
}

/// A row put in front of a chain stays clear of the others, and of itself.
proof fn lemma_merged_clear(g: GraphView, f: Found, h: Found, nodes: Seq<NodeIdx>, m: int)
    requires
        tidy(g, f),
        grows(f, h, nodes, m),
        clear_of(f, nodes),
        !f.index.contains_key(nodes[0]),
        nodes.len() == MAX_LEN || forall|i: int|
            1 <= i < nodes.len() ==> #[trigger] nodes[i] != nodes[0],
    ensures
        clear_of(h, h.chains[m]),
{
    let merged = h.chains[m];
    let tail = tail_of(f, m);
    lemma_not_held(g, f, nodes[0]);
    assert(merged[0] == nodes[0]);
    assert forall|i: int, k: int|
        1 <= i < merged.len() && 0 <= k < h.chains.len() && #[trigger] merged[i] == (
        #[trigger] h.chains[k]).first() implies h.chains[k].len() + i > MAX_LEN by {
        if k == m {
            if i < nodes.len() {
                assert(merged[i] == nodes[i]);
            } else {
                assert(merged[i] == tail[i - nodes.len()]);
                assert(f.chains[m].contains(nodes[0]));
            }
        } else {
            let other = f.chains[k];
            assert(tidy_chain(g, f, other));
            if i < nodes.len() {
                assert(merged[i] == nodes[i]);
                assert(nodes[i] == other.first());
            } else {
                let j = i - nodes.len();
                assert(merged[i] == f.chains[m][j]);
                assert(tidy_chain(g, f, f.chains[m]));
                if j == 0 {
                    assert(f.chains[m].first() == other.first());
                } else {
                    assert(f.chains[m][j] == other.first());
                }
            }
        }
    }
}

/// A walk leaves the chains tidy.
proof fn lemma_grown_tidy(g: GraphView, f: Found, h: Found, nodes: Seq<NodeIdx>, m: int)
    requires
        tidy(g, f),
        grows(f, h, nodes, m),
        clear_of(h, h.chains[m]),
        linked(g, h.chains[m]),
        h.chains[m].len() <= MAX_LEN,
        startable(g, nodes[0]),
        !f.index.contains_key(nodes[0]),
    ensures
        tidy(g, h),
{
    let merged = h.chains[m];
    let tail = tail_of(f, m);
    lemma_not_held(g, f, nodes[0]);
    assert(merged[0] == nodes[0]);
    assert forall|k: int| 0 <= k < h.chains.len() implies tidy_chain(
        g,
        h,
        #[trigger] h.chains[k],
    ) by {
        if k == m {
            assert forall|i: int| 0 <= i < merged.len() implies h.index.contains_key(
                #[trigger] merged[i],
            ) by {
                if i < nodes.len() {
                    assert(merged[i] == nodes[i]);
                    assert(nodes.contains(nodes[i]));
                } else {
                    assert(tidy_chain(g, f, f.chains[m]));
                    assert(merged[i] == f.chains[m][i - nodes.len()]);
                }
            }
        } else {
            assert(tidy_chain(g, f, f.chains[k]));
            lemma_others_clear(f, h, nodes, m, f.chains[k]);
        }
    }
    assert forall|n: NodeIdx| #[trigger] h.index.contains_key(n) implies h.index[n]
        < h.chains.len() && h.chains[h.index[n] as int].contains(n) by {
        if nodes.contains(n) {
            let i = nodes.index_of(n);
            assert(merged[i] == n);
        } else {
            assert(f.index.contains_key(n));
            if f.index[n] == m {
                let i = tail.index_of(n);
                assert(merged[nodes.len() + i] == n);
            }
        }
    }
    assert forall|j: int, k: int|
        0 <= j < h.chains.len() && 0 <= k < h.chains.len() && j != k implies (
    #[trigger] h.chains[j]).first() != (#[trigger] h.chains[k]).first() by {
        if j == m || k == m {
            let other = f.chains[if j == m { k } else { j }];
            assert(tidy_chain(g, f, other));
            assert(!other.contains(nodes[0]));
            assert(other[0] != nodes[0]);
        } else {
            assert(f.chains[j].first() != f.chains[k].first());
        }
    }
}

/// A walk leaves the chains tidy.
proof fn lemma_with_walk_tidy(g: GraphView, f: Found, start: NodeIdx)
    requires
        g.wf(),
        tidy(g, f),
        f.chains.len() <= usize::MAX,
        startable(g, start),
        !f.index.contains_key(start),
    ensures
        tidy(g, f.with_walk(g, start)),
        f.with_walk(g, start).chains.len() <= f.chains.len() + 1,
{
    let row = seq![start];
    assert(walking(g, f, row));
    lemma_walk_tidy(g, f, row);
    let h = f.with_walk(g, start);
    let (nodes, m) = match f.walk(g, row) {
        Walk::Ends(nodes) => (nodes, f.chains.len() as int),
        Walk::Meets(nodes, k) => (nodes, k as int),
    };
    assert(nodes + Seq::<NodeIdx>::empty() =~= nodes);
    assert(grows(f, h, nodes, m));
    assert(m < f.chains.len() ==> tidy_chain(g, f, f.chains[m]));
    lemma_merged_linked(g, nodes, tail_of(f, m));
    lemma_merged_clear(g, f, h, nodes, m);
    lemma_grown_tidy(g, f, h, nodes, m);
}

/// The chains are tidy after any number of walks.
pub proof fn lemma_found_tidy(g: GraphView, bound: int)
    requires
        g.wf(),
        0 <= bound <= index_limit(),
    ensures
        found_below(g, bound).chains.len() <= bound,
        tidy(g, found_below(g, bound)),
    decreases bound,
{
    if bound > 0 {
        lemma_found_tidy(g, bound - 1);
        let f = found_below(g, bound - 1);
        let n = (bound - 1) as NodeIdx;
        if startable(g, n) && !f.index.contains_key(n) {
            lemma_with_walk_tidy(g, f, n);
        }
    }
}

/// The nodes of a chain do not interact with nodes outside it, but for what feeds the
/// first and what the last feeds: every node has exactly one incoming edge, and every
/// node but the last has exactly one outgoing edge, which leads to the next.
pub proof fn law_chains_are_linked(g: GraphView, k: int)
    requires
        g.wf(),
        0 <= k < chains_of(g).len(),
    ensures
        0 < chains_of(g)[k].len() <= MAX_LEN,
        startable(g, chains_of(g)[k].first()),
        linked(g, chains_of(g)[k]),
{
    lemma_found_tidy(g, index_limit());
    let f = found_in(g);
    assert(tidy_chain(g, f, f.chains[k]));
}

/// A joinable node that a chain comes to from behind is startable.
pub proof fn lemma_linked_startable(g: GraphView, chain: Seq<NodeIdx>, i: int)
    requires
        g.wf(),
        linked(g, chain),
        1 <= i < chain.len(),
    ensures
        startable(g, chain[i]),
{
    let a = chain[i - 1];
    let n = chain[i];
    assert(leads(g, chain, i));
    let edge = g.edges_of(a, Direction::Outgoing)[0];
    assert(g.nodes.contains_key(a));
    assert(g.lists_edges(a, Direction::Outgoing, g.outgoing[a]));
    assert(g.outgoing[a][0] == edge);
    assert(g.edges.contains_key(edge.id));
    assert(g.lists_edges(n, Direction::Incoming, g.incoming[n]));
    assert(g.incoming[n].contains(edge));
    assert(g.incoming[n].index_of(edge) == 0);
}

/// Every startable node below the bound is in a chain.
proof fn lemma_startable_found(g: GraphView, bound: int, n: NodeIdx)
    requires
        g.wf(),
        0 <= bound <= index_limit(),
        startable(g, n),
        n < bound,
    ensures
        found_below(g, bound).index.contains_key(n),
    decreases bound,
{
    let f = found_below(g, bound - 1);
    let start = (bound - 1) as NodeIdx;
    if n < bound - 1 {
        lemma_startable_found(g, bound - 1, n);
    } else if !f.index.contains_key(n) {
        lemma_found_tidy(g, bound - 1);
        assert(walking(g, f, seq![start]));
        lemma_walk_tidy(g, f, seq![start]);
        let nodes = passed(f.walk(g, seq![start]));
        assert(nodes[0] == n);
        assert(nodes.contains(n));
    }
}

/// No chain is missed, and nothing else is taken for one: a node is in a chain if and only
/// if a chain may start at it.  The index leads from each node of a chain to a chain that
/// holds it, and from no other.
pub proof fn law_startable_nodes_are_in_chains(g: GraphView)
    requires
        g.wf(),
    ensures
        forall|n: NodeIdx| #[trigger]
            found_in(g).index.contains_key(n) <==> startable(g, n),
        forall|n: NodeIdx| #[trigger]
            found_in(g).index.contains_key(n) ==> found_in(g).index[n] < chains_of(g).len()
                && chains_of(g)[found_in(g).index[n] as int].contains(n),
        forall|k: int, i: int|
            0 <= k < chains_of(g).len() && 0 <= i < chains_of(g)[k].len()
                ==> found_in(g).index.contains_key(#[trigger] chains_of(g)[k][i]),
{
    let f = found_in(g);
    lemma_found_tidy(g, index_limit());
    assert forall|n: NodeIdx| #[trigger] f.index.contains_key(n) <==> startable(g, n) by {
        if f.index.contains_key(n) {
            let chain = f.chains[f.index[n] as int];
            assert(tidy_chain(g, f, chain));
            let i = chain.index_of(n);
            if i > 0 {
                lemma_linked_startable(g, chain, i);
            }
        }
        if startable(g, n) {
            lemma_startable_found(g, index_limit(), n);
        }
    }
    assert forall|k: int, i: int|
        0 <= k < f.chains.len() && 0 <= i < f.chains[k].len() implies f.index.contains_key(
        #[trigger] f.chains[k][i],
    ) by {
        assert(tidy_chain(g, f, f.chains[k]));
    }
}

/// Whether each node of `path` has an edge to the next.
pub open spec fn is_path(g: GraphView, path: Seq<NodeIdx>) -> bool {
    forall|i: int| 1 <= i < path.len() ==> #[trigger] steps_to(g, path, i)
}

/// Whether an edge leads to the node of `path` at `i` from the one before it.
pub open spec fn steps_to(g: GraphView, path: Seq<NodeIdx>, i: int) -> bool {
    exists|id: EdgeIdx| #[trigger]
        g.edges.contains_key(id) && g.edges[id].source == path[i - 1] && g.edges[id].target
            == path[i]
}

/// Whether no path leads from a node back to it.
pub open spec fn acyclic(g: GraphView) -> bool {
    forall|path: Seq<NodeIdx>| #[trigger]
        is_path(g, path) && path.len() > 1 ==> path.first() != path.last()
}

/// Whether `g` has no cycle, and no more nodes than a chain can hold.
pub open spec fn small(g: GraphView) -> bool {
    g.wf() && acyclic(g) && g.nodes.len() <= MAX_LEN
}

/// Whether each node of `row` feeds the next and nothing else, over a default link, and one
/// edge leads to the next.
pub open spec fn strung(g: GraphView, row: Seq<NodeIdx>) -> bool {
    forall|i: int| 1 <= i < row.len() ==> #[trigger] leads(g, row, i) && fed_once(g, row[i])
}

/// A row that leads to another is strung together with it.
proof fn lemma_strung_together(g: GraphView, row: Seq<NodeIdx>, tail: Seq<NodeIdx>)
    requires
        strung(g, row),
        strung(g, tail),
        row.len() > 0,
        tail.len() > 0 ==> successor(g, row.last()) == Some(tail[0]) && fed_once(g, tail[0]),
    ensures
        strung(g, row + tail),
{
    let all = row + tail;
    assert forall|i: int| 1 <= i < all.len() implies #[trigger] leads(g, all, i) && fed_once(
        g,
        all[i],
    ) by {
        if i < row.len() {
            assert(leads(g, row, i));
        } else if i > row.len() {
            assert(leads(g, tail, i - row.len()));
        }
    }
}

/// A strung row is a path.
proof fn lemma_strung_path(g: GraphView, row: Seq<NodeIdx>, low: int, high: int)
    requires
        g.wf(),
        strung(g, row),
        0 <= low <= high < row.len(),
    ensures
        is_path(g, row.subrange(low, high + 1)),
{
    let path = row.subrange(low, high + 1);
    assert forall|i: int| 1 <= i < path.len() implies #[trigger] steps_to(g, path, i) by {
        assert(leads(g, row, low + i));
        let a = row[low + i - 1];
        assert(g.nodes.contains_key(a));
        assert(g.lists_edges(a, Direction::Outgoing, g.outgoing[a]));
        let edge = g.outgoing[a][0];
        assert(g.edges.contains_pair(edge.id, edge));
        assert(g.edges.contains_key(edge.id));
        assert(path[i - 1] == a);
    }
}

/// Without a cycle a strung row holds no node twice, and so it is no longer than
/// the graph.
proof fn lemma_strung_short(g: GraphView, row: Seq<NodeIdx>)
    requires
        small(g),
        strung(g, row),
        row.len() > 0,
        g.nodes.contains_key(row[0]),
    ensures
        row.len() <= MAX_LEN,
{
    assert forall|i: int, j: int| 0 <= i < row.len() && 0 <= j < row.len() && i != j implies row[i]
        != row[j] by {
        let (low, high) = if i < j {
            (i, j)
        } else {
            (j, i)
        };
        lemma_strung_path(g, row, low, high);
        let path = row.subrange(low, high + 1);
        assert(path.first() == row[low] && path.last() == row[high]);
    }
    row.unique_seq_to_set();
    lemma_indices_finite(g.nodes.dom());
    assert forall|n: NodeIdx| #[trigger] row.to_set().contains(n) implies g.nodes.dom().contains(
        n,
    ) by {
        let i = row.index_of(n);
        if i > 0 {
            assert(leads(g, row, i));
        }
    }
    vstd::set_lib::lemma_len_subset(row.to_set(), g.nodes.dom());
}

/// Whether the chains share no node and the index holds exactly their nodes; and each node
/// of a chain feeds the next and nothing else, and nothing else feeds the next.
pub open spec fn apart(g: GraphView, f: Found) -> bool {
    &&& forall|k: int|
        0 <= k < f.chains.len() ==> (#[trigger] f.chains[k]).len() > 0 && strung(g, f.chains[k])
    &&& forall|n: NodeIdx, k: int|
        0 <= k < f.chains.len() ==> (#[trigger] f.chains[k].contains(n) <==> f.index.contains_key(n)
            && f.index[n] == k)
    &&& forall|n: NodeIdx| #[trigger]
        f.index.contains_key(n) ==> f.index[n] < f.chains.len()
}

/// Whether no chain holds a node twice.
pub open spec fn unrepeated(f: Found) -> bool {
    forall|k: int| 0 <= k < f.chains.len() ==> (#[trigger] f.chains[k]).no_duplicates()
}

/// Whether no chain is longer than a chain can be.
pub open spec fn within_limit(f: Found) -> bool {
    forall|k: int| 0 <= k < f.chains.len() ==> (#[trigger] f.chains[k]).len() <= MAX_LEN
}

/// Whether the walk from `start` passes no node twice and none of a chain, and a chain that
/// it is put in front of begins at a node to which one edge leads.
pub open spec fn unhindered(g: GraphView, f: Found, start: NodeIdx) -> bool {
    let walk = f.walk(g, seq![start]);
    &&& passed(walk).no_duplicates()
    &&& forall|i: int|
        0 <= i < passed(walk).len() ==> !f.index.contains_key(#[trigger] passed(walk)[i])
    &&& walk matches Walk::Meets(_, k) ==> fed_once(g, f.chains[k as int].first())
}

/// Whether `row` is one that a walk could follow node by node: each feeds the next and
/// nothing else, nothing else feeds the next, and that is in a chain already or may be.
pub open spec fn followed(g: GraphView, f: Found, row: Seq<NodeIdx>) -> bool {
    strung(g, row) && forall|i: int|
        1 <= i < row.len() ==> joinable(g, #[trigger] row[i]) || f.index.contains_key(row[i])
}

/// Whether no row that a walk from `start` could follow is longer than a chain can be.
pub open spec fn fits(g: GraphView, f: Found, start: NodeIdx) -> bool {
    forall|row: Seq<NodeIdx>| #[trigger]
        followed(g, f, row) && row.len() > 0 && row.first() == start ==> row.len() <= MAX_LEN
}

/// Whether no row of linked nodes of `g` is longer than a chain can be.  Such a row cannot
/// run in a circle, which would have no end.
pub open spec fn rows_fit(g: GraphView) -> bool {
    forall|row: Seq<NodeIdx>| #[trigger]
        linked(g, row) && row.len() > 0 && startable(g, row.first()) ==> row.len() <= MAX_LEN
}

/// Where in a row one is after `n` steps, if the node at `high` is the one at `low` again.
spec fn circling(low: int, high: int, n: int) -> int
    decreases n,
{
    if n < high || low < 0 || low >= high {
        n
    } else {
        circling(low, high, n - (high - low))
    }
}

/// Each step leads to the next place, or from the last one back to `low`.
proof fn lemma_circling(low: int, high: int, n: int)
    requires
        0 <= low < high,
        1 <= n,
    ensures
        0 <= circling(low, high, n - 1) < high,
        circling(low, high, n) == circling(low, high, n - 1) + 1 || (circling(low, high, n) == low
            && circling(low, high, n - 1) == high - 1),
    decreases n,
{
    if n > high {
        lemma_circling(low, high, n - (high - low));
    }
    if n == high {
        assert(circling(low, high, n) == circling(low, high, low));
    }
}

/// A row that fits runs in no circle.
proof fn lemma_fitting_row(g: GraphView, f: Found, row: Seq<NodeIdx>)
    requires
        row.len() > 0,
        followed(g, f, row),
        fits(g, f, row.first()),
    ensures
        row.no_duplicates(),
        row.len() <= MAX_LEN,
{
    assert forall|i: int, j: int| 0 <= i < row.len() && 0 <= j < row.len() && i != j implies row[i]
        != row[j] by {
        let (low, high) = if i < j {
            (i, j)
        } else {
            (j, i)
        };
        if row[low] == row[high] {
            let circle = Seq::new((MAX_LEN + 1) as nat, |n: int| row[circling(low, high, n)]);
            assert forall|n: int| 1 <= n < circle.len() implies #[trigger] leads(g, circle, n)
                && fed_once(g, circle[n]) && (joinable(g, circle[n]) || f.index.contains_key(
                circle[n],
            )) by {
                lemma_circling(low, high, n);
                let from = circling(low, high, n - 1);
                assert(leads(g, row, from + 1));
                assert(circle[n] == row[from + 1]);
                assert(circle[n - 1] == row[from]);
            }
            assert forall|n: int| 1 <= n < circle.len() implies joinable(g, #[trigger] circle[n])
                || f.index.contains_key(circle[n]) by {
                assert(leads(g, circle, n));
            }
            assert(followed(g, f, circle));
            assert(circle.first() == row.first());
        }
    }
}

/// Whether a walk, which came here node by node, has met no chain yet.
spec fn roaming(g: GraphView, f: Found, row: Seq<NodeIdx>) -> bool {
    &&& row.len() > 0
    &&& strung(g, row)
    &&& forall|i: int| 0 <= i < row.len() ==> !f.index.contains_key(#[trigger] row[i])
}

/// A chain that a walk comes to from outside all chains is entered at its front.
proof fn lemma_enters_at_front(g: GraphView, f: Found, last: NodeIdx, next: NodeIdx)
    requires
        g.wf(),
        apart(g, f),
        !f.index.contains_key(last),
        successor(g, last) == Some(next),
        f.index.contains_key(next),
    ensures
        f.index[next] < f.chains.len(),
        next == f.chains[f.index[next] as int].first(),
{
    let chain = f.chains[f.index[next] as int];
    assert(chain.contains(next));
    let q = chain.index_of(next);
    if q > 0 {
        assert(leads(g, chain, q));
        lemma_one_feeder(g, chain[q - 1], last, next);
        assert(chain.contains(chain[q - 1]));
    }
}

/// Where no row is too long, a walk passes only nodes of no chain, until it ends or meets the
/// first node of one.
proof fn lemma_walk_roams(g: GraphView, f: Found, row: Seq<NodeIdx>)
    requires
        g.wf(),
        apart(g, f),
        row.len() < MAX_LEN,
        roaming(g, f, row),
        followed(g, f, row),
        fits(g, f, row.first()),
    ensures
        roaming(g, f, passed(f.walk(g, row))),
        followed(g, f, passed(f.walk(g, row))),
        passed(f.walk(g, row)).first() == row.first(),
    decreases MAX_LEN - row.len(),
{
    match successor(g, row.last()) {
        None => {},
        Some(next) => {
            let longer = row.push(next);
            if f.index.contains_key(next) {
                assert(!f.index.contains_key(row[row.len() - 1]));
                lemma_enters_at_front(g, f, row.last(), next);
                let chain = f.chains[f.index[next] as int];
                if joinable(g, next) {
                    let all = row + chain;
                    lemma_strung_together(g, row, chain);
                    assert forall|i: int| 1 <= i < all.len() implies joinable(g, #[trigger] all[i])
                        || f.index.contains_key(all[i]) by {
                        if i >= row.len() {
                            assert(chain.contains(chain[i - row.len()]));
                        } else {
                            assert(all[i] == row[i]);
                        }
                    }
                    assert(followed(g, f, all));
                    assert(all.first() == row.first());
                }
            } else if joinable(g, next) {
                lemma_strung_together(g, row, seq![next]);
                assert(row + seq![next] =~= longer);
                assert(followed(g, f, longer));
                assert(longer.first() == row.first());
                if longer.len() < MAX_LEN {
                    lemma_walk_roams(g, f, longer);
                }
            }
        },
    }
}

/// Where no row is too long, a walk from a node of no chain passes no node twice and none of
/// a chain.  So nothing hinders it, unless it is put in front of a chain that begins at a node
/// to which several edges lead, as none does that a walk has found.
pub proof fn law_short_rows_hinder_no_walk(g: GraphView, f: Found, start: NodeIdx)
    requires
        g.wf(),
        apart(g, f),
        f.walk(g, seq![start]) matches Walk::Meets(_, k) ==> fed_once(
            g,
            f.chains[k as int].first(),
        ),
        fits(g, f, start),
        !f.index.contains_key(start),
    ensures
        unhindered(g, f, start),
{
    let row = seq![start];
    assert(followed(g, f, row));
    assert(roaming(g, f, row));
    lemma_walk_roams(g, f, row);
    lemma_fitting_row(g, f, passed(f.walk(g, row)));
    lemma_meets_front(g, f, row);
}

/// The walk follows the links, and where it is put in front of a chain leads to its first
/// node, if it passes no node of a chain.
proof fn lemma_meets_front(g: GraphView, f: Found, row: Seq<NodeIdx>)
    requires
        g.wf(),
        apart(g, f),
        0 < row.len() < MAX_LEN,
        strung(g, row),
        forall|i: int|
            0 <= i < passed(f.walk(g, row)).len() ==> !f.index.contains_key(
                #[trigger] passed(f.walk(g, row))[i],
            ),
    ensures
        strung(g, passed(f.walk(g, row))),
        passed(f.walk(g, row)).len() > 0,
        passed(f.walk(g, row)).first() == row.first(),
        match f.walk(g, row) {
            Walk::Ends(nodes) => nodes.len() <= MAX_LEN,
            Walk::Meets(nodes, k) => k < f.chains.len() && nodes.len() + f.chains[k as int].len()
                <= MAX_LEN && successor(g, nodes.last()) == Some(f.chains[k as int].first()),
        },
    decreases MAX_LEN - row.len(),
{
    match successor(g, row.last()) {
        None => {},
        Some(next) => {
            let longer = row.push(next);
            if f.index.contains_key(next) && f.chains[f.index[next] as int].len() + row.len()
                <= MAX_LEN {
                assert(passed(f.walk(g, row))[row.len() - 1] == row.last());
                lemma_enters_at_front(g, f, row.last(), next);
            } else if joinable(g, next) {
                lemma_strung_together(g, row, seq![next]);
                assert(row + seq![next] =~= longer);
                assert(longer.first() == row.first());
                if longer.len() < MAX_LEN {
                    lemma_meets_front(g, f, longer);
                }
            }
        },
    }
}

/// A walk that nothing hinders keeps the chains apart and puts the node that it starts from
/// into one.  Either the nodes that it passes are a new chain, or
/// they come in front of one that was there; all other chains are as they were.  If no chain
/// held a node twice, none does now, and if none was too long, none is.
pub proof fn law_walk_keeps_chains_apart(g: GraphView, f: Found, start: NodeIdx)
    requires
        g.wf(),
        apart(g, f),
        f.chains.len() <= usize::MAX,
        unhindered(g, f, start),
    ensures
        apart(g, f.with_walk(g, start)),
        f.with_walk(g, start).index.contains_key(start),
        passed(f.walk(g, seq![start])).first() == start,
        match f.walk(g, seq![start]) {
            Walk::Ends(nodes) => f.with_walk(g, start).chains == f.chains.push(nodes),
            Walk::Meets(nodes, k) => k < f.chains.len() && f.with_walk(g, start).chains
                == f.chains.update(k as int, nodes + f.chains[k as int]),
        },
        unrepeated(f) ==> unrepeated(f.with_walk(g, start)),
        within_limit(f) ==> within_limit(f.with_walk(g, start)),
{
    let row = seq![start];
    lemma_meets_front(g, f, row);
    let h = f.with_walk(g, start);
    let (nodes, m) = match f.walk(g, row) {
        Walk::Ends(nodes) => (nodes, f.chains.len() as int),
        Walk::Meets(nodes, k) => (nodes, k as int),
    };
    assert(nodes + Seq::<NodeIdx>::empty() =~= nodes);
    assert(grows(f, h, nodes, m));
    assert(nodes.contains(nodes[0]));
    let tail = tail_of(f, m);
    assert(m < f.chains.len() ==> strung(g, f.chains[m]));
    lemma_strung_together(g, nodes, tail);
    let merged = h.chains[m];
    assert forall|k: int| 0 <= k < h.chains.len() implies (#[trigger] h.chains[k]).len() > 0
        && strung(g, h.chains[k]) && (within_limit(f) ==> h.chains[k].len() <= MAX_LEN) by {
        if k != m {
            assert(h.chains[k] == f.chains[k]);
        }
    }
    assert forall|n: NodeIdx, k: int| 0 <= k < h.chains.len() implies (
    #[trigger] h.chains[k].contains(n) <==> h.index.contains_key(n) && h.index[n] == k) by {
        assert(m < f.chains.len() ==> (f.chains[m].contains(n) <==> f.index.contains_key(n)
            && f.index[n] == m));
        if nodes.contains(n) {
            let i = nodes.index_of(n);
            assert(!f.index.contains_key(nodes[i]));
            assert(merged[i] == n);
        }
        if k == m {
            if merged.contains(n) && !nodes.contains(n) {
                let i = merged.index_of(n);
                if i < nodes.len() {
                    assert(nodes[i] == n);
                } else {
                    assert(tail[i - nodes.len()] == n);
                }
            }
            if tail.contains(n) {
                let i = tail.index_of(n);
                assert(merged[nodes.len() + i] == n);
            }
        } else {
            assert(h.chains[k] == f.chains[k]);
            assert(f.chains[k].contains(n) <==> f.index.contains_key(n) && f.index[n] == k);
        }
    }
    if unrepeated(f) {
        assert forall|k: int| 0 <= k < h.chains.len() implies (
        #[trigger] h.chains[k]).no_duplicates() by {
            if k != m {
                assert(h.chains[k] == f.chains[k]);
            } else {
                lemma_joined_unrepeated(f, nodes, m);
            }
        }
    }
}

/// Nodes of no chain, put in front of a chain, repeat none of its nodes.
proof fn lemma_joined_unrepeated(f: Found, nodes: Seq<NodeIdx>, m: int)
    requires
        unrepeated(f),
        nodes.no_duplicates(),
        0 <= m <= f.chains.len(),
        forall|i: int| 0 <= i < nodes.len() ==> !f.index.contains_key(#[trigger] nodes[i]),
        m < f.chains.len() ==> forall|n: NodeIdx| #[trigger]
            f.chains[m].contains(n) ==> f.index.contains_key(n),
    ensures
        (nodes + tail_of(f, m)).no_duplicates(),
{
    let tail = tail_of(f, m);
    let all = nodes + tail;
    assert(m < f.chains.len() ==> f.chains[m].no_duplicates());
    assert forall|i: int, j: int| 0 <= i < all.len() && 0 <= j < all.len() && i != j implies all[i]
        != all[j] by {
        if i < nodes.len() && j >= nodes.len() {
            assert(!f.index.contains_key(nodes[i]));
            assert(tail.contains(tail[j - nodes.len()]));
        }
        if j < nodes.len() && i >= nodes.len() {
            assert(!f.index.contains_key(nodes[j]));
            assert(tail.contains(tail[i - nodes.len()]));
        }
    }
}

/// Where no row of linked nodes is too long, none that a walk could follow is.
proof fn lemma_rows_fit(g: GraphView, f: Found, start: NodeIdx)
    requires
        g.wf(),
        tidy(g, f),
        rows_fit(g),
        startable(g, start),
    ensures
        fits(g, f, start),
{
    assert forall|row: Seq<NodeIdx>| #[trigger]
        followed(g, f, row) && row.len() > 0 && row.first() == start implies row.len()
        <= MAX_LEN by {
        assert forall|i: int| 1 <= i < row.len() implies #[trigger] leads(g, row, i) && joinable(
            g,
            row[i],
        ) by {
            if f.index.contains_key(row[i]) {
                let chain = f.chains[f.index[row[i]] as int];
                assert(tidy_chain(g, f, chain));
                let q = chain.index_of(row[i]);
                if q > 0 {
                    assert(leads(g, chain, q));
                }
            } else {
                assert(joinable(g, row[i]));
            }
        }
        assert(linked(g, row));
    }
}

/// The chains are apart after any number of walks.
proof fn lemma_found_apart(g: GraphView, bound: int)
    requires
        g.wf(),
        rows_fit(g),
        0 <= bound <= index_limit(),
    ensures
        apart(g, found_below(g, bound)),
        unrepeated(found_below(g, bound)),
    decreases bound,
{
    if bound > 0 {
        lemma_found_apart(g, bound - 1);
        let f = found_below(g, bound - 1);
        let n = (bound - 1) as NodeIdx;
        if startable(g, n) && !f.index.contains_key(n) {
            lemma_found_tidy(g, bound - 1);
            lemma_rows_fit(g, f, n);
            assert forall|k: int| 0 <= k < f.chains.len() implies fed_once(
                g,
                (#[trigger] f.chains[k]).first(),
            ) by {
                assert(tidy_chain(g, f, f.chains[k]));
            }
            lemma_meets_known(f, g, seq![n]);
            law_short_rows_hinder_no_walk(g, f, n);
            law_walk_keeps_chains_apart(g, f, n);
        }
    }
}

/// Where no row of linked nodes is longer than a chain can be, no chain holds a node twice,
/// no two chains share one, and the index leads from each node of a chain to that chain, and
/// from no other node.
pub proof fn law_chains_share_no_node(g: GraphView)
    requires
        g.wf(),
        rows_fit(g),
    ensures
        apart(g, found_in(g)),
        forall|k: int| 0 <= k < chains_of(g).len() ==> (#[trigger] chains_of(g)[k]).no_duplicates(),
        forall|j: int, k: int, n: NodeIdx|
            0 <= j < chains_of(g).len() && 0 <= k < chains_of(g).len()
                && #[trigger] chains_of(g)[j].contains(n) && #[trigger] chains_of(g)[k].contains(n)
                ==> j == k,
{
    lemma_found_apart(g, index_limit());
}

/// In a graph without a cycle, of no more nodes than a chain can hold, no row is too long:
/// neither one of linked nodes, nor one that a walk could follow.
pub proof fn law_rows_of_small_graphs_fit(g: GraphView, f: Found, start: NodeIdx)
    requires
        small(g),
        g.nodes.contains_key(start),
    ensures
        rows_fit(g),
        fits(g, f, start),
{
    assert forall|row: Seq<NodeIdx>| #[trigger]
        linked(g, row) && row.len() > 0 && startable(g, row.first()) implies row.len()
        <= MAX_LEN by {
        assert forall|i: int| 1 <= i < row.len() implies #[trigger] leads(g, row, i) && fed_once(
            g,
            row[i],
        ) by {
            assert(leads(g, row, i));
            assert(joinable(g, row[i]));
        }
        lemma_strung_short(g, row);
    }
    assert forall|row: Seq<NodeIdx>| #[trigger]
        followed(g, f, row) && row.len() > 0 && row.first() == start implies row.len()
        <= MAX_LEN by {
        lemma_strung_short(g, row);
    }
}

/// The delay that a component of this type puts on a signal.
pub open spec fn signal_delay(ty: NodeType) -> nat {
    match ty {
        NodeType::Repeater { delay, .. } => delay as nat,
        NodeType::Torch { .. } => 1,
        NodeType::Chain { delay, .. } => delay as nat,
        _ => 0,
    }
}

/// The delay that a row of components puts on a signal.
pub open spec fn row_delay(kinds: Seq<NodeType>) -> nat
    decreases kinds.len(),
{
    if kinds.len() == 0 {
        0
    } else {
        signal_delay(kinds.first()) + row_delay(kinds.drop_first())
    }
}

/// The types of the nodes that stand in for a chain of components of the given types.
pub open spec fn replacement_kinds(kinds: Seq<NodeType>, blocks: Seq<(BlockPos, u32)>) -> Seq<
    NodeType,
> {
    replacement(summary(kinds), blocks).map_values(|n: CompileNode| n.ty)
}

/// The counted delay of a row without chain nodes is the delay that it puts on a signal.
proof fn lemma_counted_delay(kinds: Seq<NodeType>)
    requires
        forall|i: int| 0 <= i < kinds.len() ==> !(#[trigger] kinds[i] is Chain),
    ensures
        row_delay(kinds) == total_delay(kinds),
    decreases kinds.len(),
{
    if kinds.len() > 0 {
        let rest = kinds.drop_first();
        assert forall|i: int| 0 <= i < rest.len() implies !(#[trigger] rest[i] is Chain) by {
            assert(rest[i] == kinds[i + 1]);
        }
        assert(!(kinds[0] is Chain));
        lemma_counted_delay(rest);
    }
}

/// Only torches invert.
proof fn lemma_no_torch(kinds: Seq<NodeType>)
    requires
        !has_torch(kinds),
    ensures
        !inverts(kinds),
    decreases kinds.len(),
{
    if kinds.len() > 0 {
        let rest = kinds.drop_first();
        assert forall|i: int| 0 <= i < rest.len() implies !(#[trigger] rest[i] is Torch) by {
            assert(rest[i] == kinds[i + 1]);
        }
        assert(!(kinds[0] is Torch));
        lemma_no_torch(rest);
    }
}

/// The nodes that stand in for a chain that is replaced delay a signal as long as the
/// chain did.  The delay of chain nodes among those replaced is not counted, nor is it
/// possible to stand in for no delay at all.
pub proof fn law_replacement_keeps_delay(
    kinds: Seq<NodeType>,
    blocks: Seq<(BlockPos, u32)>,
    max_delay: usize,
)
    requires
        worthwhile(kinds, max_delay),
        total_delay(kinds) <= u8::MAX,
        forall|i: int| 0 <= i < kinds.len() ==> !(#[trigger] kinds[i] is Chain),
        row_delay(kinds) > 0,
    ensures
        row_delay(replacement_kinds(kinds, blocks)) == row_delay(kinds),
{
    lemma_counted_delay(kinds);
    lemma_slowest(kinds);
    reveal_with_fuel(row_delay, 4);
}

/// The nodes that stand in for a chain invert a signal if and only if the chain did.
pub proof fn law_replacement_keeps_inversion(
    kinds: Seq<NodeType>,
    blocks: Seq<(BlockPos, u32)>,
)
    ensures
        inverts(replacement_kinds(kinds, blocks)) == inverts(kinds),
{
    if !has_torch(kinds) {
        lemma_no_torch(kinds);
    }
    reveal_with_fuel(inverts, 4);
}

/// A chain is replaced by fewer nodes than it has.
pub proof fn law_replacement_is_shorter(
    kinds: Seq<NodeType>,
    blocks: Seq<(BlockPos, u32)>,
    max_delay: usize,
)
    requires
        worthwhile(kinds, max_delay),
    ensures
        replacement_kinds(kinds, blocks).len() < kinds.len(),
        replacement_kinds(kinds, blocks).len() <= 3,
{
    assert(replacement(summary(kinds), blocks).len() == replacement(
        summary(kinds),
        Seq::empty(),
    ).len());
}

/// Whether an edge without loss leads from one node of `row` from behind to the next.
pub open spec fn joined(g: GraphView, row: Seq<NodeIdx>, i: int) -> bool {
    exists|e: EdgeIdx| #[trigger]
        g.edges.contains_pair(
            e,
            Edge {
                id: e,
                source: row[i],
                target: row[i + 1],
                link: CompileLink { ty: LinkType::Default, ss: 0 },
            },
        )
}

/// Whether, from `before` to `after`, a row of new nodes, which are `nodes`, has taken the
/// place of `chain`: each of them feeds the next; what fed the front of the chain feeds the
/// first of them instead, through a link of the same kind and loss; what the end of the
/// chain feeds, the last of them feeds as well; every other edge is still there; what else
/// leads to a node that was there comes from a new one; and the nodes are still there, but
/// those of the chain stand for no block.
pub open spec fn takes_over(
    before: GraphView,
    chain: Seq<NodeIdx>,
    row: Seq<NodeIdx>,
    nodes: Seq<CompileNode>,
    after: GraphView,
) -> bool {
    &&& row.len() == nodes.len() && row.len() > 0
    &&& row.no_duplicates()
    &&& forall|i: int|
        0 <= i < row.len() ==> !before.nodes.contains_key(#[trigger] row[i])
            && after.nodes.contains_pair(row[i], nodes[i])
    &&& forall|i: int| 0 <= i < row.len() - 1 ==> #[trigger] joined(after, row, i)
    &&& forall|n: NodeIdx| #[trigger]
        before.nodes.contains_key(n)
            ==> after.nodes.contains_key(n) && after.nodes[n] == if chain.contains(
            n,
        ) {
            CompileNode { block: None, ..before.nodes[n] }
        } else {
            before.nodes[n]
        }
    &&& forall|id: EdgeIdx| #[trigger]
        before.edges.contains_key(id) ==> {
            let edge = before.edges[id];
            &&& if edge.target == chain.first() {
                !after.edges.contains_key(id) && exists|e: EdgeIdx| #[trigger]
                    after.edges.contains_pair(e, Edge { id: e, target: row.first(), ..edge })
            } else {
                after.edges.contains_pair(id, edge)
            }
            &&& edge.source == chain.last() ==> exists|e: EdgeIdx| #[trigger]
                after.edges.contains_pair(e, Edge { id: e, source: row.last(), ..edge })
        }
    &&& adds_from_new_nodes(before, after)
}

/// Whether every edge of `after` that leads to a node of `before` is one of `before` or
/// comes from a node that `before` lacks.
pub open spec fn adds_from_new_nodes(before: GraphView, after: GraphView) -> bool {
    forall|id: EdgeIdx| #[trigger]
        after.edges.contains_key(id) && before.nodes.contains_key(after.edges[id].target)
            ==> before.edges.contains_pair(id, after.edges[id]) || !before.nodes.contains_key(
            after.edges[id].source,
        )
}

/// The row that stands in for a chain takes over what fed the chain and what it fed, and the
/// actions are about that row.
pub proof fn law_replacement_takes_over(
    before: GraphView,
    chain: Seq<NodeIdx>,
    blocks: Seq<(BlockPos, u32)>,
    after: GraphView,
    actions: Seq<RuntimeAction>,
)
    requires
        before.wf(),
        chain.len() > 0,
        forall|i: int| 0 <= i < chain.len() ==> before.nodes.contains_key(#[trigger] chain[i]),
        replaces(before, chain, blocks, after, actions),
    ensures
        after.wf(),
        exists|row: Seq<NodeIdx>| #[trigger]
            takes_over(
                before,
                chain,
                row,
                replacement(summary(kinds_of(before, chain)), blocks),
                after,
            ) && actions == actions_for(summary(kinds_of(before, chain)), row, chain.last()),
{
    lemma_replaces(before, chain, blocks, after, actions);
    let s = summary(kinds_of(before, chain));
    let nodes = replacement(s, blocks);
    let (ids, edge_ids, input_ids, output_ids, between) = choose|
        ids: Seq<NodeIdx>,
        edge_ids: Seq<EdgeIdx>,
        input_ids: Seq<EdgeIdx>,
        output_ids: Seq<EdgeIdx>,
        between: GraphView,
    |
        {
            &&& #[trigger] adds_row(before, nodes, ids, edge_ids, between)
            &&& #[trigger] rewires(
                between,
                chain,
                ids.first(),
                ids.last(),
                input_ids,
                output_ids,
                after,
            )
            &&& actions == actions_for(s, ids, chain.last())
        };
    lemma_row_leaves_chain(before, nodes, ids, edge_ids, between);
    let head = ids.first();
    let tail = ids.last();
    assert(before.nodes.contains_key(chain[0]));
    assert(before.nodes.contains_key(chain[chain.len() - 1]));
    assert(!before.nodes.contains_key(ids[0]));
    assert(!before.nodes.contains_key(ids[ids.len() - 1]));
    let inputs = between.edges_of(chain.first(), Direction::Incoming);
    let outputs = between.edges_of(chain.last(), Direction::Outgoing);
    let new_in = led_to(inputs, head, input_ids);
    let new_out = led_from(outputs, tail, output_ids);
    let fed = between.with_edges(new_in);
    let feeding = fed.with_edges(new_out);
    lemma_with_edges(between, new_in);
    lemma_with_edges(fed, new_out);
    assert(between.nodes.contains_key(chain.first()));
    assert(between.lists_edges(chain.first(), Direction::Incoming, inputs));
    assert(between.nodes.contains_key(chain.last()));
    assert(between.lists_edges(chain.last(), Direction::Outgoing, outputs));
    assert forall|i: int| 0 <= i < inputs.len() implies feeding.edges.contains_pair(
        (#[trigger] inputs[i]).id,
        inputs[i],
    ) by {
        assert(between.edges.contains_key(inputs[i].id));
        assert(fed.edges.contains_key(inputs[i].id));
    }
    let cut = feeding.without_edges(inputs);
    lemma_without_edges(feeding, inputs);
    assert forall|id: EdgeIdx| #[trigger] before.edges.contains_key(id) implies {
        let edge = before.edges[id];
        &&& if edge.target == chain.first() {
            !after.edges.contains_key(id) && exists|e: EdgeIdx| #[trigger]
                after.edges.contains_pair(e, Edge { id: e, target: head, ..edge })
        } else {
            after.edges.contains_pair(id, edge)
        }
        &&& edge.source == chain.last() ==> exists|e: EdgeIdx| #[trigger]
            after.edges.contains_pair(e, Edge { id: e, source: tail, ..edge })
    } by {
        let edge = before.edges[id];
        assert(between.edges.contains_key(id) && between.edges[id] == edge);
        assert(fed.edges.contains_pair(id, edge));
        assert(feeding.edges.contains_pair(id, edge));
        if edge.target == chain.first() {
            assert(inputs.contains(between.edges[id]));
            let i = inputs.index_of(edge);
            assert(inputs[i].id == id);
            let moved = new_in[i];
            assert(fed.edges.contains_pair(new_in[i].id, new_in[i]));
            assert(feeding.edges.contains_pair(moved.id, moved));
            assert forall|j: int| 0 <= j < inputs.len() implies (#[trigger] inputs[j]).id
                != moved.id by {
                assert(between.edges.contains_key(inputs[j].id));
                assert(!between.edges.contains_key(new_in[i].id));
            }
            assert(cut.edges.contains_key(moved.id));
            assert(after.edges.contains_pair(moved.id, Edge { id: moved.id, target: head, ..edge }));
        } else {
            assert forall|j: int| 0 <= j < inputs.len() implies (#[trigger] inputs[j]).id != id by {
                assert(between.edges.contains_pair(inputs[j].id, inputs[j]));
            }
            assert(cut.edges.contains_key(id));
        }
        if edge.source == chain.last() {
            assert(outputs.contains(between.edges[id]));
            let i = outputs.index_of(edge);
            let copy = new_out[i];
            assert(feeding.edges.contains_pair(new_out[i].id, new_out[i]));
            assert forall|j: int| 0 <= j < inputs.len() implies (#[trigger] inputs[j]).id
                != copy.id by {
                assert(between.edges.contains_key(inputs[j].id));
                assert(fed.edges.contains_key(inputs[j].id));
                assert(!fed.edges.contains_key(new_out[i].id));
            }
            assert(cut.edges.contains_key(copy.id));
            assert(after.edges.contains_pair(copy.id, Edge { id: copy.id, source: tail, ..edge }));
        }
    }
    assert forall|i: int| 0 <= i < ids.len() implies !before.nodes.contains_key(#[trigger] ids[i])
        && after.nodes.contains_pair(ids[i], nodes[i]) by {
        assert(between.nodes.contains_key(ids[i]));
        assert(!chain.contains(ids[i]));
    }
    assert forall|i: int| 0 <= i < ids.len() - 1 implies #[trigger] joined(after, ids, i) by {
        let joint = joints(ids, edge_ids)[i];
        lemma_with_new_nodes(before, ids, nodes);
        lemma_with_edges(before.with_new_nodes(ids, nodes), joints(ids, edge_ids));
        assert(between.edges.contains_pair(joint.id, joint));
        assert(between.edges.contains_key(joint.id));
        assert(fed.edges.contains_pair(joint.id, joint));
        assert(fed.edges.contains_key(joint.id));
        assert(feeding.edges.contains_pair(joint.id, joint));
        assert(!before.nodes.contains_key(ids[i + 1]));
        assert forall|j: int| 0 <= j < inputs.len()
            implies (#[trigger] inputs[j]).id != joint.id by {
            assert(between.edges.contains_pair(inputs[j].id, inputs[j]));
        }
        assert(cut.edges.contains_key(joint.id));
        assert(after.edges.contains_pair(joint.id, joint));
    }
    assert forall|id: EdgeIdx| #[trigger]
        after.edges.contains_key(id) && before.nodes.contains_key(
            after.edges[id].target,
        ) implies before.edges.contains_pair(id, after.edges[id]) || !before.nodes.contains_key(
        after.edges[id].source,
    ) by {
        let row = joints(ids, edge_ids);
        let grown = before.with_new_nodes(ids, nodes);
        lemma_with_new_nodes(before, ids, nodes);
        lemma_with_edges(grown, row);
        assert(cut.edges.contains_key(id));
        assert(feeding.edges.contains_key(id));
        if before.edges.contains_key(id) {
            assert(between.edges.contains_pair(id, before.edges[id]));
            assert(fed.edges.contains_pair(id, before.edges[id]));
            assert(feeding.edges.contains_pair(id, before.edges[id]));
        } else if between.edges.contains_key(id) {
            let i = choose|i: int| 0 <= i < row.len() && (#[trigger] row[i]).id == id;
            assert(between.edges.contains_pair(row[i].id, row[i]));
            assert(fed.edges.contains_pair(id, row[i]));
            assert(feeding.edges.contains_pair(id, row[i]));
            assert(!before.nodes.contains_key(ids[i]));
        } else if fed.edges.contains_key(id) {
            let i = choose|i: int| 0 <= i < new_in.len() && (#[trigger] new_in[i]).id == id;
            assert(fed.edges.contains_pair(new_in[i].id, new_in[i]));
            assert(feeding.edges.contains_pair(id, new_in[i]));
        } else {
            let i = choose|i: int| 0 <= i < new_out.len() && (#[trigger] new_out[i]).id == id;
            assert(feeding.edges.contains_pair(new_out[i].id, new_out[i]));
        }
    }
    assert(takes_over(before, chain, ids, nodes, after));
}

/// What one graph keeps of another: its nodes, with everything but their blocks.
pub open spec fn keeps_nodes(before: GraphView, after: GraphView) -> bool {
    forall|n: NodeIdx| #[trigger]
        before.nodes.contains_key(n) ==> after.nodes.contains_key(n) && (CompileNode {
            block: None,
            ..after.nodes[n]
        }) == (CompileNode { block: None, ..before.nodes[n] })
}

/// Whether a node is outside all of `chains`.
pub open spec fn outside(chains: Seq<Seq<NodeIdx>>, n: NodeIdx) -> bool {
    forall|k: int| 0 <= k < chains.len() ==> !(#[trigger] chains[k]).contains(n)
}

/// What one graph keeps of another about the nodes outside `chains`: everything about the
/// nodes, and the edges that lead to them.
pub open spec fn keeps_outside(
    before: GraphView,
    chains: Seq<Seq<NodeIdx>>,
    after: GraphView,
) -> bool {
    &&& forall|n: NodeIdx| #[trigger]
        before.nodes.contains_key(n) && outside(chains, n) ==> after.nodes.contains_pair(
            n,
            before.nodes[n],
        )
    &&& forall|id: EdgeIdx| #[trigger]
        before.edges.contains_key(id) && outside(chains, before.edges[id].target)
            ==> after.edges.contains_pair(id, before.edges[id])
}

/// Every chain holds nodes of the graph.
pub proof fn lemma_chain_nodes(g: GraphView, k: int)
    requires
        g.wf(),
        0 <= k < chains_of(g).len(),
    ensures
        chains_of(g)[k].len() > 0,
        forall|i: int|
            0 <= i < chains_of(g)[k].len() ==> g.nodes.contains_key(#[trigger] chains_of(g)[k][i]),
{
    law_chains_are_linked(g, k);
    let chain = chains_of(g)[k];
    assert forall|i: int| 0 <= i < chain.len() implies g.nodes.contains_key(
        #[trigger] chain[i],
    ) by {
        if i > 0 {
            assert(leads(g, chain, i));
        }
    }
}

/// The graphs between two replacements keep the nodes of the first.
pub proof fn lemma_steps_keep_nodes(
    g: GraphView,
    max_delay: usize,
    graphs: Seq<GraphView>,
    actions: Seq<Seq<RuntimeAction>>,
    k: int,
)
    requires
        g.wf(),
        steps(g, chains_of(g), max_delay, graphs, actions),
        0 <= k <= chains_of(g).len(),
    ensures
        graphs[k].wf(),
        keeps_nodes(g, graphs[k]),
        keeps_outside(g, chains_of(g), graphs[k]),
        adds_from_new_nodes(g, graphs[k]),
    decreases k,
{
    if k > 0 {
        lemma_steps_keep_nodes(g, max_delay, graphs, actions, k - 1);
        let chain = chains_of(g)[k - 1];
        let blocks = blocks_of(g, chain);
        let v = graphs[k - 1];
        assert(coalesces(v, chain, blocks, max_delay, graphs[k - 1 + 1], actions[k - 1]));
        lemma_chain_nodes(g, k - 1);
        if worthwhile(kinds_of(v, chain), max_delay) {
            assert forall|i: int| 0 <= i < chain.len() implies v.nodes.contains_key(
                #[trigger] chain[i],
            ) by {
                assert(g.nodes.contains_key(chain[i]));
            }
            law_replacement_takes_over(v, chain, blocks, graphs[k], actions[k - 1]);
            let nodes = replacement(summary(kinds_of(v, chain)), blocks);
            let row = choose|row: Seq<NodeIdx>| #[trigger]
                takes_over(v, chain, row, nodes, graphs[k]);
            assert forall|n: NodeIdx| #[trigger] g.nodes.contains_key(n)
                implies graphs[k].nodes.contains_key(
                n,
            ) && (CompileNode { block: None, ..graphs[k].nodes[n] }) == (CompileNode {
                block: None,
                ..g.nodes[n]
            }) by {
                assert(v.nodes.contains_key(n));
            }
            assert forall|n: NodeIdx| #[trigger]
                g.nodes.contains_key(n) && outside(
                    chains_of(g),
                    n,
                ) implies graphs[k].nodes.contains_pair(n, g.nodes[n]) by {
                assert(!chains_of(g)[k - 1].contains(n));
                assert(v.nodes.contains_key(n));
            }
            assert forall|id: EdgeIdx| #[trigger]
                g.edges.contains_key(id) && outside(
                    chains_of(g),
                    g.edges[id].target,
                ) implies graphs[k].edges.contains_pair(id, g.edges[id]) by {
                assert(!chains_of(g)[k - 1].contains(g.edges[id].target));
                assert(chain.contains(chain[0]));
                assert(v.edges.contains_key(id));
            }
            assert forall|id: EdgeIdx| #[trigger]
                graphs[k].edges.contains_key(id) && g.nodes.contains_key(
                    graphs[k].edges[id].target,
                ) implies g.edges.contains_pair(id, graphs[k].edges[id]) || !g.nodes.contains_key(
                graphs[k].edges[id].source,
            ) by {
                let edge = graphs[k].edges[id];
                assert(v.nodes.contains_key(edge.target));
                if g.nodes.contains_key(edge.source) {
                    assert(v.nodes.contains_key(edge.source));
                    assert(v.edges.contains_pair(id, edge));
                    assert(v.edges.contains_key(id));
                }
            }
        }
    }
}

/// The pass removes no node, and changes nothing about a node but the block that it
/// stands for.  A node outside all chains keeps its block and all links that lead to it;
/// what leads to a node beyond what did comes from a new one.
pub proof fn law_pass_keeps_nodes(
    g: GraphView,
    max_delay: usize,
    after: GraphView,
    actions: Seq<RuntimeAction>,
)
    requires
        g.wf(),
        coalesces_all(g, chains_of(g), max_delay, after, actions),
    ensures
        after.wf(),
        keeps_nodes(g, after),
        keeps_outside(g, chains_of(g), after),
        adds_from_new_nodes(g, after),
{
    let (graphs, each) = choose|graphs: Seq<GraphView>, each: Seq<Seq<RuntimeAction>>|
        {
            &&& #[trigger] steps(g, chains_of(g), max_delay, graphs, each)
            &&& after == graphs.last()
            &&& actions == each.flatten()
        };
    lemma_steps_keep_nodes(g, max_delay, graphs, each, chains_of(g).len() as int);
}

} // verus!
