//! What a call of [`Chain::coalesce`] makes of a chain, told by the components of the chain
//! and by what is in the graph afterwards.

use std::collections::VecDeque;
use vstd::prelude::*;

use crate::compile_graph::{CompileGraph, CompileNode, NodeIdx, NodeType};
use crate::graph::{contents, lemma_indices_finite, Direction, GraphView};
use crate::passes::chain_coalesce::{
    actions_for, blocks_of, chains_of, coalesces, coalesces_all, has_torch, inverts, kinds_of,
    lemma_replaces, lemma_slowest, make_replacement, nodes_replaced, replacement, slowest, steps,
    summary, total_delay, worthwhile, Chain, ChainBuilder, ChainCoalesce,
};
use crate::passes::chain_laws::{
    law_replacement_takes_over, lemma_chain_nodes, lemma_steps_keep_nodes, takes_over,
};
use crate::passes::RuntimeAction;
use crate::world::{BlockPos, TickPriority};

verus! {

/// The component of `g` at `n`.
pub open spec fn component(g: GraphView, n: NodeIdx) -> NodeType {
    g.nodes[n].ty
}

/// How long a component holds a signal back, in a chain that is replaced.
pub open spec fn hold(ty: NodeType) -> nat {
    if ty is Repeater {
        ty->Repeater_delay as nat
    } else if ty is Torch {
        1
    } else {
        0
    }
}

/// How long the first `n` nodes of `chain` hold a signal back together.
pub open spec fn held_up(g: GraphView, chain: Seq<NodeIdx>, n: nat) -> nat
    decreases n,
{
    if n == 0 {
        0
    } else {
        held_up(g, chain, (n - 1) as nat) + hold(component(g, chain[n - 1]))
    }
}

/// Whether there is a torch in `chain`.
pub open spec fn torch_in(g: GraphView, chain: Seq<NodeIdx>) -> bool {
    exists|i: int| 0 <= i < chain.len() && component(g, #[trigger] chain[i]) is Torch
}

/// How many of the first `n` nodes of `chain` are inverting torches.
pub open spec fn inverters(g: GraphView, chain: Seq<NodeIdx>, n: nat) -> nat
    decreases n,
{
    if n == 0 {
        0
    } else {
        inverters(g, chain, (n - 1) as nat) + if component(g, chain[n - 1]) == (NodeType::Torch {
            invert: true,
        }) {
            1nat
        } else {
            0
        }
    }
}

/// Whether `d` is the delay of the slowest repeater of `chain`, or one if there is none that
/// is slower.
pub open spec fn is_slowest(g: GraphView, chain: Seq<NodeIdx>, d: nat) -> bool {
    &&& d >= 1
    &&& forall|i: int|
        0 <= i < chain.len() && component(g, #[trigger] chain[i]) is Repeater ==> component(
            g,
            chain[i],
        )->Repeater_delay <= d
    &&& d == 1 || exists|i: int|
        0 <= i < chain.len() && component(g, #[trigger] chain[i]) is Repeater && component(
            g,
            chain[i],
        )->Repeater_delay == d
}

/// Whether the last node of `chain` is a repeater that faces a diode.
pub open spec fn ends_at_diode(g: GraphView, chain: Seq<NodeIdx>) -> bool {
    component(g, chain.last()) is Repeater && component(g, chain.last())->Repeater_facing_diode
}

/// How many nodes a row takes that holds a signal back for `w`, of which a repeater holds it
/// back for `d`, and a torch, if there is one, for one.
pub open spec fn row_len(w: nat, d: nat, torch: bool) -> nat {
    if torch {
        if w > d + 1 {
            3
        } else {
            2
        }
    } else if w > d {
        2
    } else {
        1
    }
}

/// Whether the nodes of `row` are new ones that do to a signal what `chain` does: a repeater as
/// slow as the slowest, a torch if the chain has one, which inverts if an odd number of those
/// in the chain do, and a chain node for what is left of the delay.  All that can face a diode
/// do so if the end of the chain does.  They rest, nothing outside the graph knows them, and
/// they stand for the first of `blocks`.
pub open spec fn acts_as(
    g: GraphView,
    chain: Seq<NodeIdx>,
    blocks: Seq<(BlockPos, u32)>,
    d: nat,
    row: Seq<NodeIdx>,
    h: GraphView,
) -> bool {
    &&& row.len() == row_len(held_up(g, chain, chain.len()), d, torch_in(g, chain))
    &&& forall|i: int|
        0 <= i < row.len() ==> {
            let node = h.nodes[#[trigger] row[i]];
            &&& !g.nodes.contains_key(row[i])
            &&& h.nodes.contains_key(row[i])
            &&& !node.state.powered && !node.state.repeater_locked && node.state.output_strength
                == 0
            &&& !node.is_input && !node.is_output
            &&& i < blocks.len() ==> node.block == Some(blocks[i])
            &&& i >= blocks.len() ==> node.block is None
            &&& node.ty is Repeater <==> i == 0
            &&& node.ty is Torch <==> i == 1 && torch_in(g, chain)
            &&& node.ty is Repeater || node.ty is Torch || node.ty is Chain
            &&& node.ty is Repeater ==> node.ty->Repeater_delay == d
                && node.ty->Repeater_facing_diode == ends_at_diode(g, chain)
            &&& node.ty is Torch ==> node.ty->Torch_invert == (inverters(g, chain, chain.len()) % 2
                == 1)
            &&& node.ty is Chain ==> node.ty->Chain_delay > 0 && node.ty->Chain_facing_diode
                == ends_at_diode(g, chain)
            &&& node.ty is Chain ==> node.ty->Chain_delay + d + if torch_in(g, chain) {
                1int
            } else {
                0
            } == held_up(g, chain, chain.len())
        }
}

/// Whether `actions` are those that a row in the place of `chain` calls for: its first node is
/// updated, its torch ticks one tick after the first node can, and the links of the end of the
/// chain are broken once all that was in the chain has left it.
pub open spec fn acts_on(
    g: GraphView,
    chain: Seq<NodeIdx>,
    d: nat,
    row: Seq<NodeIdx>,
    actions: Seq<RuntimeAction>,
) -> bool {
    &&& actions.len() == if torch_in(g, chain) {
        3int
    } else {
        2
    }
    &&& actions.first() == RuntimeAction::Update(row.first())
    &&& torch_in(g, chain) ==> actions[1] == RuntimeAction::Tick(
        row[1],
        (d + 1) as u32,
        TickPriority::Normal,
    )
    &&& actions.last() == RuntimeAction::BreakLink(
        chain.last(),
        held_up(g, chain, chain.len()) as u32,
    )
}

/// Whether a chain is to be replaced: by fewer nodes, within the longest delay that a tick can
/// be scheduled for, and not if all there is to it is one torch.
pub open spec fn is_worth_it(g: GraphView, chain: Seq<NodeIdx>, d: nat, max_delay: usize) -> bool {
    let w = held_up(g, chain, chain.len());
    &&& chain.len() > 0
    &&& !(torch_in(g, chain) && w < 2)
    &&& w <= max_delay
    &&& row_len(w, d, torch_in(g, chain)) < chain.len()
}

/// The row that a chain was replaced by.
pub open spec fn stands_in(
    g: GraphView,
    chain: Seq<NodeIdx>,
    blocks: Seq<(BlockPos, u32)>,
    d: nat,
    row: Seq<NodeIdx>,
    h: GraphView,
    actions: Seq<RuntimeAction>,
) -> bool {
    &&& acts_as(g, chain, blocks, d, row, h)
    &&& acts_on(g, chain, d, row, actions)
    &&& takes_over(g, chain, row, Seq::new(row.len(), |i: int| h.nodes[row[i]]), h)
    &&& h.nodes.len() == g.nodes.len() + row.len()
    &&& h.edges.len() == g.edges.len() + row.len() - 1 + g.edges_of(
        chain.last(),
        Direction::Outgoing,
    ).len()
}

/// Delays, torches and inversions are those of the components.
proof fn lemma_told_by_components(g: GraphView, chain: Seq<NodeIdx>, n: nat)
    requires
        n <= chain.len(),
    ensures
        total_delay(kinds_of(g, chain).take(n as int)) == held_up(g, chain, n),
        inverts(kinds_of(g, chain).take(n as int)) == (inverters(g, chain, n) % 2 == 1),
    decreases n,
{
    let kinds = kinds_of(g, chain);
    if n > 0 {
        lemma_told_by_components(g, chain, (n - 1) as nat);
        let part = kinds.take(n as int);
        assert(part.drop_last() =~= kinds.take(n - 1));
        assert(part.last() == component(g, chain[n - 1]));
        lemma_last_component(part);
    }
}

/// What the last component adds.
proof fn lemma_last_component(kinds: Seq<NodeType>)
    requires
        kinds.len() > 0,
    ensures
        total_delay(kinds) == total_delay(kinds.drop_last()) + hold(kinds.last()),
        inverts(kinds) == (inverts(kinds.drop_last()) != (kinds.last() == NodeType::Torch {
            invert: true,
        })),
    decreases kinds.len(),
{
    reveal_with_fuel(total_delay, 2);
    reveal_with_fuel(inverts, 2);
    if kinds.len() > 1 {
        lemma_last_component(kinds.drop_first());
        assert(kinds.drop_first().drop_last() =~= kinds.drop_last().drop_first());
    } else {
        assert(kinds.drop_first() =~= Seq::empty());
        assert(kinds.drop_last() =~= Seq::empty());
    }
}

/// The slowest repeater is one of them, and none is slower.
proof fn lemma_slowest_is_one(kinds: Seq<NodeType>)
    ensures
        slowest(kinds) >= 1,
        forall|i: int|
            0 <= i < kinds.len() && #[trigger] kinds[i] is Repeater ==> kinds[i]->Repeater_delay
                <= slowest(kinds),
        slowest(kinds) == 1 || exists|i: int|
            0 <= i < kinds.len() && #[trigger] kinds[i] is Repeater && kinds[i]->Repeater_delay
                == slowest(kinds),
    decreases kinds.len(),
{
    if kinds.len() > 0 {
        let rest = kinds.drop_first();
        lemma_slowest_is_one(rest);
        assert forall|i: int| 0 <= i < kinds.len() && #[trigger] kinds[i] is Repeater
            implies kinds[i]->Repeater_delay
            <= slowest(kinds) by {
            if i > 0 {
                assert(rest[i - 1] is Repeater);
            }
        }
        if slowest(kinds) != 1 {
            if kinds[0] is Repeater && kinds[0]->Repeater_delay == slowest(kinds) {
            } else {
                let i = choose|i: int|
                    0 <= i < rest.len() && #[trigger] rest[i] is Repeater && rest[i]->Repeater_delay
                        == slowest(rest);
                assert(kinds[i + 1] is Repeater);
            }
        }
    }
}

/// The delay of a chain is how long its nodes hold a signal back.
pub proof fn lemma_held_up(g: GraphView, chain: Seq<NodeIdx>)
    ensures
        total_delay(kinds_of(g, chain)) == held_up(g, chain, chain.len()),
{
    lemma_told_by_components(g, chain, chain.len());
    assert(kinds_of(g, chain).take(chain.len() as int) =~= kinds_of(g, chain));
}

/// The summary of a chain is told by its components.
proof fn lemma_summary(g: GraphView, chain: Seq<NodeIdx>, d: nat)
    requires
        is_slowest(g, chain, d),
        chain.len() > 0,
    ensures
        summary(kinds_of(g, chain)).total_delay == held_up(g, chain, chain.len()),
        summary(kinds_of(g, chain)).slowest == d,
        summary(kinds_of(g, chain)).has_torch == torch_in(g, chain),
        summary(kinds_of(g, chain)).inverts == (inverters(g, chain, chain.len()) % 2 == 1),
        summary(kinds_of(g, chain)).facing_diode == ends_at_diode(g, chain),
{
    let kinds = kinds_of(g, chain);
    lemma_told_by_components(g, chain, chain.len());
    assert(kinds.take(chain.len() as int) =~= kinds);
    lemma_slowest_is_one(kinds);
    assert forall|i: int| 0 <= i < chain.len()
        implies component(g, chain[i]) == #[trigger] kinds[i] by {}
    if has_torch(kinds) {
        let i = choose|i: int| 0 <= i < kinds.len() && #[trigger] kinds[i] is Torch;
        assert(component(g, chain[i]) is Torch);
    }
    if torch_in(g, chain) {
        let i = choose|i: int| 0 <= i < chain.len() && component(g, #[trigger] chain[i]) is Torch;
        assert(kinds[i] is Torch);
    }
    if slowest(kinds) != 1 {
        let i = choose|i: int|
            0 <= i < kinds.len() && #[trigger] kinds[i] is Repeater && kinds[i]->Repeater_delay
                == slowest(kinds);
        assert(component(g, chain[i]) is Repeater);
    }
    if d != 1 {
        let i = choose|i: int|
            0 <= i < chain.len() && component(g, #[trigger] chain[i]) is Repeater && component(
                g,
                chain[i],
            )->Repeater_delay == d;
        assert(kinds[i] is Repeater);
    }
    assert(kinds.last() == component(g, chain.last()));
}

/// What looking at one chain makes of a graph.
pub proof fn lemma_coalesced(
    g: GraphView,
    chain: Seq<NodeIdx>,
    blocks: Seq<(BlockPos, u32)>,
    max_delay: usize,
    h: GraphView,
    actions: Seq<RuntimeAction>,
    d: nat,
)
    requires
        g.wf(),
        forall|i: int| 0 <= i < chain.len() ==> g.nodes.contains_key(#[trigger] chain[i]),
        held_up(g, chain, chain.len()) <= 255,
        is_slowest(g, chain, d),
        coalesces(g, chain, blocks, max_delay, h, actions),
    ensures
        is_worth_it(g, chain, d, max_delay) ==> exists|row: Seq<NodeIdx>| #[trigger]
            stands_in(g, chain, blocks, d, row, h, actions),
        !is_worth_it(g, chain, d, max_delay) ==> h == g && actions.len() == 0,
        worthwhile(kinds_of(g, chain), max_delay) == is_worth_it(
            g,
            chain,
            d,
            max_delay,
        ),
{
    let kinds = kinds_of(g, chain);
    let s = summary(kinds);
    if chain.len() > 0 {
        lemma_summary(g, chain, d);
        lemma_slowest(kinds);
        if is_worth_it(g, chain, d, max_delay) {
            law_replacement_takes_over(g, chain, blocks, h, actions);
            lemma_replaces(g, chain, blocks, h, actions);
            let nodes = replacement(s, blocks);
            assert(nodes.len() == replacement(s, Seq::empty()).len());
            let row = choose|row: Seq<NodeIdx>| #[trigger]
                takes_over(g, chain, row, nodes, h) && actions
                    == actions_for(s, row, chain.last());
            assert forall|i: int| 0 <= i < row.len() implies h.nodes[#[trigger] row[i]]
                == nodes[i] && h.nodes.contains_key(row[i]) && !g.nodes.contains_key(row[i]) by {
                assert(h.nodes.contains_pair(row[i], nodes[i]));
            }
            assert(Seq::new(row.len(), |i: int| h.nodes[row[i]]) =~= nodes);
            assert(acts_as(g, chain, blocks, d, row, h));
            assert(acts_on(g, chain, d, row, actions));
            assert(stands_in(g, chain, blocks, d, row, h, actions));
        }
    }
}

/// Coalescing a chain that it is worth it for puts a row of fewer new nodes in its place that
/// does to a signal what the chain did, and asks for the actions that this calls for.  Of any
/// other chain nothing is changed.  How many nodes were replaced comes back.
pub proof fn law_coalesced_chain_gives_way(
    chain: Chain,
    graph: &mut CompileGraph,
    max_delay: usize,
    actions: &mut Vec<RuntimeAction>,
    count: usize,
    d: nat,
)
    requires
        contents(*old(graph)).wf(),
        forall|i: int|
            0 <= i < chain.nodes@.len() ==> contents(*old(graph)).nodes.contains_key(
                #[trigger] chain.nodes@[i],
            ),
        held_up(contents(*old(graph)), chain.nodes@, chain.nodes@.len()) <= 255,
        is_slowest(contents(*old(graph)), chain.nodes@, d),
        call_ensures(Chain::coalesce, (&chain, graph, max_delay, actions), count),
    ensures
        ({
            let g = contents(*old(graph));
            let h = contents(*final(graph));
            if is_worth_it(g, chain.nodes@, d, max_delay) {
                &&& count == chain.nodes@.len()
                &&& exists|row: Seq<NodeIdx>, new: Seq<RuntimeAction>| #[trigger]
                    stands_in(g, chain.nodes@, chain.blocks@, d, row, h, new)
                        && final(actions)@ == old(actions)@ + new
            } else {
                count == 0 && h == g && final(actions)@ == old(actions)@
            }
        }),
{
    let g = contents(*old(graph));
    let h = contents(*final(graph));
    let new = choose|new: Seq<RuntimeAction>| #[trigger]
        coalesces(g, chain.nodes@, chain.blocks@, max_delay, h, new) && final(actions)@ == old(
            actions,
        )@ + new;
    lemma_coalesced(g, chain.nodes@, chain.blocks@, max_delay, h, new, d);
    if is_worth_it(g, chain.nodes@, d, max_delay) {
        let row = choose|row: Seq<NodeIdx>| #[trigger]
            stands_in(g, chain.nodes@, chain.blocks@, d, row, h, new);
        assert(stands_in(g, chain.nodes@, chain.blocks@, d, row, h, new));
    } else {
        assert(old(actions)@ + new =~= old(actions)@);
    }
}

/// In the row that stands in for a chain, every node that can face a diode does so if and only
/// if the last component of the chain is a repeater that does, whatever the others face.
pub proof fn law_replacement_faces_what_the_end_faced(
    g: GraphView,
    chain: Seq<NodeIdx>,
    blocks: Seq<(BlockPos, u32)>,
    max_delay: usize,
    h: GraphView,
    actions: Seq<RuntimeAction>,
    n: NodeIdx,
)
    requires
        g.wf(),
        chain.len() > 0,
        forall|i: int| 0 <= i < chain.len() ==> g.nodes.contains_key(#[trigger] chain[i]),
        held_up(g, chain, chain.len()) <= 255,
        coalesces(g, chain, blocks, max_delay, h, actions),
        h.nodes.contains_key(n),
        !g.nodes.contains_key(n),
    ensures
        h.nodes[n].ty is Repeater || h.nodes[n].ty is Torch || h.nodes[n].ty is Chain,
        h.nodes[n].ty is Repeater ==> h.nodes[n].ty->Repeater_facing_diode == (
        g.nodes[chain.last()].ty matches NodeType::Repeater { facing_diode, .. } && facing_diode),
        h.nodes[n].ty is Chain ==> h.nodes[n].ty->Chain_facing_diode == (
        g.nodes[chain.last()].ty matches NodeType::Repeater { facing_diode, .. } && facing_diode),
{
    let d = lemma_some_slowest(g, chain);
    lemma_coalesced(g, chain, blocks, max_delay, h, actions, d);
    let row = choose|row: Seq<NodeIdx>| #[trigger]
        stands_in(g, chain, blocks, d, row, h, actions);
    lemma_only_row_is_new(g, chain, row, h, n);
}

/// The only new nodes are those of the row.
proof fn lemma_only_row_is_new(
    g: GraphView,
    chain: Seq<NodeIdx>,
    row: Seq<NodeIdx>,
    h: GraphView,
    n: NodeIdx,
)
    requires
        takes_over(g, chain, row, Seq::new(row.len(), |i: int| h.nodes[row[i]]), h),
        h.nodes.len() == g.nodes.len() + row.len(),
        h.nodes.contains_key(n),
        !g.nodes.contains_key(n),
    ensures
        row.contains(n),
{
    lemma_indices_finite(g.nodes.dom());
    lemma_indices_finite(h.nodes.dom());
    if !row.contains(n) {
        let new = row.to_set();
        lemma_indices_finite(new);
        let known = g.nodes.dom().union(new);
        assert forall|m: NodeIdx| #[trigger] known.contains(m) implies h.nodes.dom().remove(
            n,
        ).contains(m) by {
            if g.nodes.contains_key(m) {
                assert(h.nodes.contains_key(m));
            } else {
                let i = row.index_of(m);
                assert(h.nodes.contains_pair(row[i], h.nodes[row[i]]));
            }
        }
        vstd::set_lib::lemma_len_subset(known, h.nodes.dom().remove(n));
        assert(g.nodes.dom().disjoint(new)) by {
            assert forall|m: NodeIdx| new.contains(m) implies !g.nodes.dom().contains(m) by {
                let i = row.index_of(m);
                assert(!g.nodes.contains_key(row[i]));
            }
        }
        vstd::set_lib::lemma_set_disjoint_lens(g.nodes.dom(), new);
        row.unique_seq_to_set();
    }
}

/// Whether there is a slowest repeater of a chain.
proof fn lemma_some_slowest(g: GraphView, chain: Seq<NodeIdx>) -> (d: nat)
    ensures
        is_slowest(g, chain, d),
        d == slowest(kinds_of(g, chain)),
{
    let kinds = kinds_of(g, chain);
    let d = slowest(kinds);
    lemma_slowest_is_one(kinds);
    assert forall|i: int| 0 <= i < chain.len()
        implies component(g, chain[i]) == #[trigger] kinds[i] by {}
    assert forall|i: int|
        0 <= i < chain.len() && component(g, #[trigger] chain[i]) is Repeater implies component(
        g,
        chain[i],
    )->Repeater_delay <= d by {
        assert(kinds[i] is Repeater);
    }
    if d != 1 {
        let i = choose|i: int|
            0 <= i < kinds.len() && #[trigger] kinds[i] is Repeater && kinds[i]->Repeater_delay
                == d;
        assert(component(g, chain[i]) is Repeater);
    }
    d
}

/// Whether `chain` gives way to a row from `g` to `h`, if that is worth it, and nothing else
/// happens.
pub open spec fn gives_way(
    g: GraphView,
    chain: Seq<NodeIdx>,
    blocks: Seq<(BlockPos, u32)>,
    max_delay: usize,
    h: GraphView,
    actions: Seq<RuntimeAction>,
) -> bool {
    forall|d: nat| #[trigger]
        is_slowest(g, chain, d) ==> if is_worth_it(g, chain, d, max_delay) {
            exists|row: Seq<NodeIdx>| #[trigger]
                stands_in(g, chain, blocks, d, row, h, actions)
        } else {
            h == g && actions.len() == 0
        }
}

/// Whether the chain at `k` gives way, with the blocks that its nodes stood for, and the
/// components of `g` are still there when it does.
pub open spec fn gives_way_next(
    g: GraphView,
    chains: Seq<Seq<NodeIdx>>,
    max_delay: usize,
    graphs: Seq<GraphView>,
    each: Seq<Seq<RuntimeAction>>,
    k: int,
) -> bool {
    &&& gives_way(
        graphs[k],
        chains[k],
        Seq::new(chains[k].len(), |i: int| g.nodes[chains[k][i]].block->0),
        max_delay,
        graphs[k + 1],
        each[k],
    )
    &&& forall|n: NodeIdx| #[trigger]
        g.nodes.contains_key(n) ==> graphs[k].nodes.contains_key(n) && graphs[k].nodes[n].ty
            == g.nodes[n].ty
}

/// Whether `graphs` lead from `g` to `h` chain by chain, and all chains give way in turn.
pub open spec fn give_way_in_turn(
    g: GraphView,
    chains: Seq<Seq<NodeIdx>>,
    max_delay: usize,
    graphs: Seq<GraphView>,
    each: Seq<Seq<RuntimeAction>>,
    h: GraphView,
) -> bool {
    &&& graphs.len() == chains.len() + 1
    &&& each.len() == chains.len()
    &&& graphs.first() == g
    &&& graphs.last() == h
    &&& forall|k: int|
        0 <= k < chains.len() ==> #[trigger] gives_way_next(g, chains, max_delay, graphs, each, k)
}

/// What is held up is the same where the components are.
proof fn lemma_same_hold(g: GraphView, v: GraphView, chain: Seq<NodeIdx>, n: nat)
    requires
        n <= chain.len(),
        forall|i: int| 0 <= i < chain.len()
            ==> component(v, #[trigger] chain[i]) == component(g, chain[i]),
    ensures
        held_up(v, chain, n) == held_up(g, chain, n),
    decreases n,
{
    if n > 0 {
        lemma_same_hold(g, v, chain, (n - 1) as nat);
        assert(component(v, chain[n - 1]) == component(g, chain[n - 1]));
    }
}

/// The components that a chain is made of stay while other chains are looked at.
proof fn lemma_components_stay(
    g: GraphView,
    max_delay: usize,
    graphs: Seq<GraphView>,
    each: Seq<Seq<RuntimeAction>>,
    k: int,
)
    requires
        g.wf(),
        steps(g, chains_of(g), max_delay, graphs, each),
        0 <= k < chains_of(g).len(),
    ensures
        graphs[k].wf(),
        forall|n: NodeIdx| #[trigger]
            g.nodes.contains_key(n) ==> graphs[k].nodes.contains_key(n) && graphs[k].nodes[n].ty
                == g.nodes[n].ty,
{
    let v = graphs[k];
    lemma_steps_keep_nodes(g, max_delay, graphs, each, k);
    assert forall|n: NodeIdx| #[trigger] g.nodes.contains_key(n) implies v.nodes.contains_key(n)
        && v.nodes[n].ty == g.nodes[n].ty by {
        assert((CompileNode { block: None, ..v.nodes[n] }).ty == (CompileNode {
            block: None,
            ..g.nodes[n]
        }).ty);
    }
}

/// One of the chains gives way.
proof fn lemma_one_gives_way(
    g: GraphView,
    max_delay: usize,
    graphs: Seq<GraphView>,
    each: Seq<Seq<RuntimeAction>>,
    k: int,
)
    requires
        g.wf(),
        steps(g, chains_of(g), max_delay, graphs, each),
        0 <= k < chains_of(g).len(),
        held_up(g, chains_of(g)[k], chains_of(g)[k].len()) <= 255,
    ensures
        gives_way_next(g, chains_of(g), max_delay, graphs, each, k),
{
    let v = graphs[k];
    let chain = chains_of(g)[k];
    let blocks = blocks_of(g, chain);
    lemma_components_stay(g, max_delay, graphs, each, k);
    lemma_chain_nodes(g, k);
    assert forall|i: int| 0 <= i < chain.len() implies component(v, #[trigger] chain[i])
        == component(g, chain[i]) && v.nodes.contains_key(chain[i]) by {
        assert(g.nodes.contains_key(chain[i]));
    }
    lemma_same_hold(g, v, chain, chain.len());
    assert forall|d: nat| #[trigger] is_slowest(v, chain, d) implies if is_worth_it(
        v,
        chain,
        d,
        max_delay,
    ) {
        exists|row: Seq<NodeIdx>| #[trigger]
            stands_in(v, chain, blocks, d, row, graphs[k + 1], each[k])
    } else {
        graphs[k + 1] == v && each[k].len() == 0
    } by {
        lemma_coalesced(v, chain, blocks, max_delay, graphs[k + 1], each[k], d);
    }
    assert(blocks =~= Seq::new(chain.len(), |i: int| g.nodes[chain[i]].block->0));
}

/// What becomes of a graph when all its chains are looked at.
proof fn lemma_all_coalesced(
    g: GraphView,
    max_delay: usize,
    h: GraphView,
    actions: Seq<RuntimeAction>,
)
    requires
        g.wf(),
        forall|k: int|
            0 <= k < chains_of(g).len() ==> held_up(
                g,
                #[trigger] chains_of(g)[k],
                chains_of(g)[k].len(),
            ) <= 255,
        coalesces_all(g, chains_of(g), max_delay, h, actions),
    ensures
        exists|graphs: Seq<GraphView>, each: Seq<Seq<RuntimeAction>>| #[trigger]
            give_way_in_turn(g, chains_of(g), max_delay, graphs, each, h) && actions
                == each.flatten(),
{
    let chains = chains_of(g);
    let (graphs, each) = choose|graphs: Seq<GraphView>, each: Seq<Seq<RuntimeAction>>|
        {
            &&& #[trigger] steps(g, chains, max_delay, graphs, each)
            &&& h == graphs.last()
            &&& actions == each.flatten()
        };
    assert forall|k: int| 0 <= k < chains.len() implies #[trigger] gives_way_next(
        g,
        chains,
        max_delay,
        graphs,
        each,
        k,
    ) by {
        assert(held_up(g, chains[k], chains[k].len()) <= 255);
        lemma_one_gives_way(g, max_delay, graphs, each, k);
    }
    assert(give_way_in_turn(g, chains, max_delay, graphs, each, h));
}

/// The pass lets every chain of the graph give way, one after the other, if that is worth it,
/// and asks for the actions of each in turn.
pub proof fn law_pass_lets_all_chains_give_way(
    pass: ChainCoalesce,
    graph: &mut CompileGraph,
    max_delay: usize,
    actions: &mut Vec<RuntimeAction>,
)
    requires
        contents(*old(graph)).wf(),
        forall|k: int|
            0 <= k < chains_of(contents(*old(graph))).len() ==> held_up(
                contents(*old(graph)),
                #[trigger] chains_of(contents(*old(graph)))[k],
                chains_of(contents(*old(graph)))[k].len(),
            ) <= 255,
        call_ensures(ChainCoalesce::run_pass, (&pass, graph, max_delay, actions), ())
            || call_ensures(ChainCoalesce::try_run_pass, (&pass, graph, max_delay, actions), true),
    ensures
        exists|graphs: Seq<GraphView>, each: Seq<Seq<RuntimeAction>>| #[trigger]
            give_way_in_turn(
                contents(*old(graph)),
                chains_of(contents(*old(graph))),
                max_delay,
                graphs,
                each,
                contents(*final(graph)),
            ) && final(actions)@ == old(actions)@ + each.flatten(),
{
    let g = contents(*old(graph));
    let h = contents(*final(graph));
    let new = choose|new: Seq<RuntimeAction>| #[trigger]
        coalesces_all(g, chains_of(g), max_delay, h, new) && final(actions)@ == old(actions)@ + new;
    lemma_all_coalesced(g, max_delay, h, new);
}

/// How many nodes are replaced is how many are in chains that it is worth it for.
pub proof fn law_replaced_nodes_are_counted(
    g: GraphView,
    chains: Seq<Seq<NodeIdx>>,
    chain: Seq<NodeIdx>,
    max_delay: usize,
    d: nat,
)
    requires
        chain.len() > 0,
        is_slowest(g, chain, d),
        held_up(g, chain, chain.len()) <= 255,
    ensures
        nodes_replaced(g, Seq::empty(), max_delay) == 0,
        nodes_replaced(g, chains.push(chain), max_delay) == nodes_replaced(g, chains, max_delay)
            + if is_worth_it(g, chain, d, max_delay) {
            chain.len()
        } else {
            0
        },
{
    lemma_summary(g, chain, d);
    lemma_slowest(kinds_of(g, chain));
    assert(chains.push(chain).drop_last() =~= chains);
}

/// The number of nodes that a call replaces is that of all chains of the graph.
pub proof fn law_coalescing_counts_replaced_nodes(
    builder: &mut ChainBuilder,
    graph: &mut CompileGraph,
    max_delay: usize,
    actions: &mut Vec<RuntimeAction>,
    count: usize,
)
    requires
        call_ensures(ChainBuilder::coalesce_all, (builder, graph, max_delay, actions), count),
    ensures
        count == nodes_replaced(
            contents(*old(graph)),
            chains_of(contents(*old(graph))),
            max_delay,
        ),
        final(builder).found().chains == chains_of(contents(*old(graph))),
{
}

/// The nodes that are made to stand in for a chain hold a signal back as long as they are
/// asked to, if that is as long as the first of them at least; the torch is there if it is
/// asked for; all others face what they are asked to.
pub proof fn law_made_nodes_do_what_they_are_asked_to(
    total: u8,
    facing_diode: bool,
    longest: u8,
    torch: bool,
    invert: bool,
    blocks: VecDeque<(BlockPos, u32)>,
    nodes: Vec<CompileNode>,
)
    requires
        torch ==> longest < 255,
        call_ensures(
            make_replacement,
            (total, facing_diode, longest, torch, invert, &blocks),
            nodes,
        ),
    ensures
        nodes@.len() == row_len(total as nat, longest as nat, torch),
        forall|i: int|
            0 <= i < nodes@.len() ==> {
                let node = #[trigger] nodes@[i];
                &&& !node.state.powered && !node.state.repeater_locked && node.state.output_strength
                    == 0
                &&& !node.is_input && !node.is_output
                &&& i < blocks@.len() ==> node.block == Some(blocks@[i])
                &&& i >= blocks@.len() ==> node.block is None
                &&& i == 0 ==> node.ty == NodeType::Repeater { delay: longest, facing_diode }
                &&& i == 1 && torch ==> node.ty == NodeType::Torch { invert }
                &&& i > 0 && !(i == 1 && torch) ==> node.ty is Chain
                    && node.ty->Chain_facing_diode == facing_diode && node.ty->Chain_delay + longest
                    + if torch {
                    1int
                } else {
                    0
                } == total
            },
{
}

} // verus!
