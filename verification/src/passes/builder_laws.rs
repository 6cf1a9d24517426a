//! How chains grow while they are looked for, and how their nodes are found again.

use vstd::prelude::*;

use crate::compile_graph::NodeIdx;
use crate::passes::chain_coalesce::{Chain, ChainBuilder};
use crate::world::BlockPos;

verus! {

/// A chain begins with one node, and grows at its end by one node at a time; the blocks of the
/// nodes stand where the nodes do.
pub proof fn law_chain_grows_node_by_node(
    first: NodeIdx,
    first_block: (BlockPos, u32),
    new: Chain,
    chain: &mut Chain,
    node: NodeIdx,
    block: (BlockPos, u32),
    len: usize,
    i: int,
)
    requires
        call_ensures(Chain::new, (first, first_block), new),
        call_ensures(Chain::push_back, (chain, node, block), ()),
        call_ensures(Chain::len, (&*final(chain),), len),
        old(chain).nodes@.len() == old(chain).blocks@.len(),
        0 <= i < len,
    ensures
        new.nodes@.len() == 1 && new.blocks@.len() == 1,
        new.nodes@[0] == first && new.blocks@[0] == first_block,
        len == old(chain).nodes@.len() + 1,
        final(chain).blocks@.len() == len,
        i < len - 1 ==> final(chain).nodes@[i] == old(chain).nodes@[i] && final(chain).blocks@[i]
            == old(chain).blocks@[i],
        i == len - 1 ==> final(chain).nodes@[i] == node && final(chain).blocks@[i] == block,
{
}

/// A chain put in front of another comes first, and both stay in their order.
pub proof fn law_chains_are_put_end_to_end(chain: &mut Chain, other: Chain, i: int)
    requires
        call_ensures(Chain::push_front, (chain, other), ()),
        old(chain).nodes@.len() == old(chain).blocks@.len(),
        other.nodes@.len() == other.blocks@.len(),
    ensures
        final(chain).nodes@.len() == other.nodes@.len() + old(chain).nodes@.len(),
        final(chain).blocks@.len() == final(chain).nodes@.len(),
        0 <= i < other.nodes@.len() ==> final(chain).nodes@[i] == other.nodes@[i]
            && final(chain).blocks@[i] == other.blocks@[i],
        0 <= i < old(chain).nodes@.len() ==> final(chain).nodes@[other.nodes@.len() + i]
            == old(chain).nodes@[i]
                && final(chain).blocks@[other.nodes@.len() + i] == old(chain).blocks@[i],
{
}

/// After a chain has been added its nodes are found in it, and all others where they were.
pub proof fn law_nodes_of_new_chain_are_found(
    builder: &mut ChainBuilder,
    chain: Chain,
    index: usize,
    node: NodeIdx,
    before: Option<usize>,
    after: Option<usize>,
)
    requires
        call_ensures(ChainBuilder::get_chain_index, (&*old(builder), node), before),
        call_ensures(ChainBuilder::new_chain, (builder, chain), index),
        call_ensures(ChainBuilder::get_chain_index, (&*final(builder), node), after),
    ensures
        index == old(builder).chains@.len(),
        final(builder).chains@.len() == index + 1,
        final(builder).chains@[index as int] == chain,
        forall|k: int|
            0 <= k < index ==> #[trigger] final(builder).chains@[k] == old(builder).chains@[k],
        chain.nodes@.contains(node) ==> after == Some(index),
        !chain.nodes@.contains(node) ==> after == before,
{
    assert(old(builder).found().chains.len() == old(builder).chains@.len());
    assert(final(builder).chain_map@ == final(builder).found().index);
    assert(old(builder).chains.len() == old(builder).chains@.len());
}

/// After a chain has been put in front of another its nodes are found in that one, and all
/// others where they were.
pub proof fn law_nodes_of_merged_chain_are_found(
    builder: &mut ChainBuilder,
    first: Chain,
    second: usize,
    node: NodeIdx,
    before: Option<usize>,
    after: Option<usize>,
)
    requires
        second < old(builder).chains@.len(),
        call_ensures(ChainBuilder::get_chain_index, (&*old(builder), node), before),
        call_ensures(ChainBuilder::merge_chains, (builder, first, second), ()),
        call_ensures(ChainBuilder::get_chain_index, (&*final(builder), node), after),
    ensures
        final(builder).chains@.len() == old(builder).chains@.len(),
        final(builder).chains@[second as int].nodes@
            == first.nodes@ + old(builder).chains@[second as int].nodes@,
        final(builder).chains@[second as int].blocks@
            == first.blocks@ + old(builder).chains@[second as int].blocks@,
        forall|k: int|
            0 <= k < old(builder).chains@.len() && k != second
                ==> #[trigger] final(builder).chains@[k] == old(builder).chains@[k],
        first.nodes@.contains(node) ==> after == Some(second),
        !first.nodes@.contains(node) ==> after == before,
{
    let k = second as int;
    assert(old(builder).found().chains[k] == old(builder).chains@[k].nodes@);
    assert(final(builder).found().chains[k] == final(builder).chains@[k].nodes@);
    assert(final(builder).chain_map@ == final(builder).found().index);
}

/// No chains are known at first.
pub proof fn law_new_builders_know_no_chains(
    builder: ChainBuilder,
    node: NodeIdx,
    index: Option<usize>,
)
    requires
        call_ensures(ChainBuilder::new, (), builder),
        call_ensures(ChainBuilder::get_chain_index, (&builder, node), index),
    ensures
        builder.chains@.len() == 0,
        index is None,
{
    assert(builder.found().chains.len() == builder.chains@.len());
    assert(builder.chain_map@ == builder.found().index);
}

} // verus!
