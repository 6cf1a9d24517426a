//! The order in which a node updates the nodes that it is linked to.

use itertools::Itertools;
use std::collections::HashMap;
use vstd::prelude::*;

use crate::compile_graph::NodeIdx;
use crate::graph::{lemma_filter_all, Direction, Edge, GraphView};

verus! {

/// A link to a node, with what decides its place in the order.
#[derive(Debug, Copy, Clone, PartialEq, Eq, Structural)]
pub struct Lead {
    /// The place of the target among all nodes.
    pub rank: u64,
    /// The kind of the target.
    pub kind: u32,
    /// The link itself.
    pub edge: Edge,
}

/// Whether `places` tells the place of every node that a link of `n` leads to.
pub open spec fn knows_targets<V>(g: GraphView, n: NodeIdx, places: Map<NodeIdx, V>) -> bool {
    let list = g.edges_of(n, Direction::Outgoing);
    forall|i: int| 0 <= i < list.len() ==> places.contains_key((#[trigger] list[i]).target)
}

/// Where the place of every node is told, so is that of every node that a link leads to.
pub proof fn lemma_knows_targets<V>(g: GraphView, n: NodeIdx, places: Map<NodeIdx, V>)
    requires
        g.wf(),
        g.nodes.contains_key(n),
        forall|m: NodeIdx| #[trigger] g.nodes.contains_key(m) ==> places.contains_key(m),
    ensures
        knows_targets(g, n, places),
{
    let list = g.edges_of(n, Direction::Outgoing);
    assert(g.lists_edges(n, Direction::Outgoing, list));
    assert forall|i: int| 0 <= i < list.len() implies places.contains_key(
        (#[trigger] list[i]).target,
    ) by {
        assert(g.nodes.contains_key(list[i].target));
    }
}

/// Whether a link leads to a node of this kind.
pub open spec fn of_kind(kind: u32) -> spec_fn(Lead) -> bool {
    |lead: Lead| lead.kind == kind
}

/// Whether a link leads to the node of this rank.
pub open spec fn of_rank(rank: u64) -> spec_fn(Lead) -> bool {
    |lead: Lead| lead.rank == rank
}

/// Whether `sorted` is `list` in ascending order of rank, links of the same rank in the
/// order that they had.
pub open spec fn sorts(list: Seq<Lead>, sorted: Seq<Lead>) -> bool {
    &&& forall|i: int, j: int|
        0 <= i < j < sorted.len() ==> (#[trigger] sorted[i]).rank <= (#[trigger] sorted[j]).rank
    &&& forall|rank: u64| #[trigger]
        sorted.filter(of_rank(rank)) == list.filter(of_rank(rank))
    &&& sorted.to_multiset() == list.to_multiset()
}

/// Whether `kinds` are the kinds that occur in `list`, each of them once.
pub open spec fn lists_kinds(list: Seq<Lead>, kinds: Seq<u32>) -> bool {
    &&& kinds.no_duplicates()
    &&& forall|kind: u32| #[trigger]
        kinds.contains(kind) <==> occurs(list, kind)
}

/// Whether a link of `list` leads to a node of this kind.
pub open spec fn occurs(list: Seq<Lead>, kind: u32) -> bool {
    exists|i: int| 0 <= i < list.len() && (#[trigger] list[i]).kind == kind
}

/// The links of `list`, kind by kind.
pub open spec fn grouped(list: Seq<Lead>, kinds: Seq<u32>) -> Seq<Lead> {
    kinds.map_values(|kind: u32| list.filter(of_kind(kind))).flatten()
}

/// Whether `out` is `list` kind by kind, in any order of the kinds, and in ascending
/// order of rank within each.
pub open spec fn arranges(list: Seq<Lead>, out: Seq<Lead>) -> bool {
    exists|sorted: Seq<Lead>, kinds: Seq<u32>|
        {
            &&& #[trigger] sorts(list, sorted)
            &&& #[trigger] lists_kinds(sorted, kinds)
            &&& out == grouped(sorted, kinds)
        }
}

/// `Itertools::sorted_by_key` on the rank: a stable sort in ascending order.
#[verifier::external_body]
fn sorted_by_rank(list: Vec<Lead>) -> (sorted: Vec<Lead>)
    ensures
        sorts(list@, sorted@),
{
    list.into_iter().sorted_by_key(|lead| lead.rank).collect()
}

/// `Itertools::into_group_map_by` on the kind: each kind that occurs leads to the links
/// of that kind, in the order that they had.
#[verifier::external_body]
fn grouped_by_kind(list: Vec<Lead>) -> (groups: HashMap<u32, Vec<Lead>>)
    ensures
        forall|kind: u32| #[trigger]
            groups@.contains_key(kind) <==> occurs(list@, kind),
        forall|kind: u32| #[trigger]
            groups@.contains_key(kind) ==> groups@[kind]@ == list@.filter(of_kind(kind)),
{
    list.into_iter().into_group_map_by(|lead| lead.kind)
}

/// The kinds and groups of a map, in the order of a walk over it.
proof fn lemma_one_more_group(sorted: Seq<Lead>, kinds: Seq<u32>, kind: u32)
    ensures
        grouped(sorted, kinds.push(kind)) == grouped(sorted, kinds) + sorted.filter(of_kind(kind)),
{
    let f = |k: u32| sorted.filter(of_kind(k));
    assert(kinds.push(kind).map_values(f) =~= kinds.map_values(f).push(f(kind)));
    kinds.map_values(f).lemma_flatten_push(f(kind));
}

/// Sorts the links by rank and groups them by kind.  The order of the kinds is that of
/// a walk over a hash map.
pub fn arrange(list: Vec<Lead>) -> (out: Vec<Lead>)
    ensures
        arranges(list@, out@),
{
    broadcast use vstd::std_specs::hash::group_hash_axioms;

    let sorted = sorted_by_rank(list);
    let ghost ordered = sorted@;
    let groups = grouped_by_kind(sorted);
    let ghost mut kinds = Seq::<u32>::empty();
    let mut out: Vec<Lead> = Vec::new();
    assert(out@ =~= grouped(ordered, kinds)) by {
        assert(kinds.map_values(|kind: u32| ordered.filter(of_kind(kind))) =~= Seq::empty());
    }
    let ghost pairs = vstd::std_specs::iter::IteratorSpec::remaining(&groups.iter());
    for pair in it: groups.iter()
        invariant
            it.seq() == pairs,
            it.seq().no_duplicates(),
            it.seq().len() == groups@.dom().len(),
            forall|i: int|
                0 <= i < it.seq().len() ==> groups@.contains_key(*(#[trigger] it.seq()[i]).0)
                    && groups@[*it.seq()[i].0] == *it.seq()[i].1,
            forall|kind: u32| #[trigger]
                groups@.contains_key(kind) ==> it.seq().contains((&kind, &groups@[kind])),
            forall|kind: u32| #[trigger]
                groups@.contains_key(kind) ==> groups@[kind]@ == ordered.filter(of_kind(kind)),
            kinds.len() == it.index(),
            forall|i: int| 0 <= i < kinds.len() ==> #[trigger] kinds[i] == *it.seq()[i].0,
            out@ == grouped(ordered, kinds),
    {
        let group = pair.1;
        let ghost before = out@;
        let mut i: usize = 0;
        assert(before + group@.take(0) =~= before);
        while i < group.len()
            invariant
                i <= group@.len(),
                out@ == before + group@.take(i as int),
            decreases group@.len() - i,
        {
            out.push(group[i]);
            assert(group@.take(i as int).push(group@[i as int]) =~= group@.take(i + 1));
            i += 1;
        }
        proof {
            assert(group@.take(i as int) =~= group@);
            lemma_one_more_group(ordered, kinds, *pair.0);
            kinds = kinds.push(*pair.0);
        }
    }
    assert(lists_kinds(ordered, kinds)) by {
        assert forall|kind: u32| #[trigger] kinds.contains(kind) <==> occurs(ordered, kind) by {
            if occurs(ordered, kind) {
                assert(groups@.contains_key(kind));
                let i = pairs.index_of((&kind, &groups@[kind]));
                assert(kinds[i] == kind);
            }
            if kinds.contains(kind) {
                let i = kinds.index_of(kind);
                assert(groups@.contains_key(*pairs[i].0));
            }
        }
    }
    out
}

/// Whether a link leads to a node of one of these kinds.
spec fn of_kinds(kinds: Seq<u32>) -> spec_fn(Lead) -> bool {
    |lead: Lead| kinds.contains(lead.kind)
}

/// Filtering by some kinds and by one more is filtering by all of them.
proof fn lemma_filter_splits(list: Seq<Lead>, kinds: Seq<u32>, kind: u32)
    requires
        !kinds.contains(kind),
    ensures
        list.filter(of_kinds(kinds.push(kind))).to_multiset() == list.filter(
            of_kinds(kinds),
        ).to_multiset().add(list.filter(of_kind(kind)).to_multiset()),
    decreases list.len(),
{
    broadcast use {
        vstd::seq_lib::group_to_multiset_ensures,
        vstd::multiset::group_multiset_axioms,
    };

    reveal(Seq::filter);
    let all = of_kinds(kinds.push(kind));
    let some = of_kinds(kinds);
    let one = of_kind(kind);
    if list.len() == 0 {
        assert(list.filter(all) =~= Seq::empty());
        assert(list.filter(some) =~= Seq::empty());
        assert(list.filter(one) =~= Seq::empty());
        assert(list.filter(all).to_multiset() =~= list.filter(some).to_multiset().add(
            list.filter(one).to_multiset(),
        ));
    } else {
        let rest = list.drop_last();
        let last = list.last();
        lemma_filter_splits(rest, kinds, kind);
        assert(all(last) == (some(last) || one(last))) by {
            let more = kinds.push(kind);
            if more.contains(last.kind) {
                let i = more.index_of(last.kind);
                if i < kinds.len() {
                    assert(kinds[i] == last.kind);
                }
            }
            if kinds.contains(last.kind) {
                let i = kinds.index_of(last.kind);
                assert(more[i] == last.kind);
            }
            assert(more[kinds.len() as int] == kind);
        }
        assert(!(some(last) && one(last)));
        assert(list.filter(all).to_multiset() =~= list.filter(some).to_multiset().add(
            list.filter(one).to_multiset(),
        ));
    }
}

/// Grouping by some kinds keeps the links of those kinds.
proof fn lemma_grouped_multiset(list: Seq<Lead>, kinds: Seq<u32>)
    requires
        kinds.no_duplicates(),
    ensures
        grouped(list, kinds).to_multiset() == list.filter(of_kinds(kinds)).to_multiset(),
    decreases kinds.len(),
{
    broadcast use vstd::seq_lib::group_to_multiset_ensures;

    if kinds.len() == 0 {
        assert(grouped(list, kinds) =~= Seq::empty()) by {
            assert(kinds.map_values(|kind: u32| list.filter(of_kind(kind))) =~= Seq::empty());
        }
        lemma_filter_none(list, of_kinds(kinds));
    } else {
        let rest = kinds.drop_last();
        let kind = kinds.last();
        assert(!rest.contains(kind));
        lemma_grouped_multiset(list, rest);
        assert(kinds =~= rest.push(kind));
        lemma_one_more_group(list, rest, kind);
        vstd::seq_lib::lemma_multiset_commutative(
            grouped(list, rest),
            list.filter(of_kind(kind)),
        );
        lemma_filter_splits(list, rest, kind);
    }
}

/// Filtering by what holds of none leaves nothing.
pub proof fn lemma_filter_none<A>(list: Seq<A>, p: spec_fn(A) -> bool)
    requires
        forall|i: int| 0 <= i < list.len() ==> !p(#[trigger] list[i]),
    ensures
        list.filter(p) == Seq::<A>::empty(),
    decreases list.len(),
{
    reveal(Seq::filter);
    if list.len() > 0 {
        let rest = list.drop_last();
        assert forall|i: int| 0 <= i < rest.len() implies !p(#[trigger] rest[i]) by {
            assert(rest[i] == list[i]);
        }
        lemma_filter_none(rest, p);
        assert(!p(list[list.len() - 1]));
    } else {
        assert(list.filter(p) =~= Seq::empty());
    }
}

/// Arranging links neither loses nor repeats one.
pub proof fn law_arranging_keeps_links(list: Seq<Lead>, out: Seq<Lead>)
    requires
        arranges(list, out),
    ensures
        out.to_multiset() == list.to_multiset(),
        out.len() == list.len(),
{
    broadcast use vstd::seq_lib::group_to_multiset_ensures;

    let (sorted, kinds) = choose|sorted: Seq<Lead>, kinds: Seq<u32>|
        {
            &&& #[trigger] sorts(list, sorted)
            &&& #[trigger] lists_kinds(sorted, kinds)
            &&& out == grouped(sorted, kinds)
        };
    lemma_grouped_multiset(sorted, kinds);
    assert forall|i: int| 0 <= i < sorted.len() implies of_kinds(kinds)(#[trigger] sorted[i]) by {
        assert(occurs(sorted, sorted[i].kind));
    }
    lemma_filter_all(sorted, of_kinds(kinds));
    assert(out.len() == out.to_multiset().len());
    assert(list.len() == list.to_multiset().len());
}

/// Sequences of the same items have as many that satisfy a predicate.
pub proof fn lemma_filter_permuted(a: Seq<Lead>, b: Seq<Lead>, p: spec_fn(Lead) -> bool)
    requires
        a.to_multiset() == b.to_multiset(),
    ensures
        a.filter(p).len() == b.filter(p).len(),
{
    broadcast use vstd::seq_lib::group_to_multiset_ensures;

    lemma_filter_multiset(a, p);
    lemma_filter_multiset(b, p);
    assert(a.filter(p).len() == a.filter(p).to_multiset().len());
    assert(b.filter(p).len() == b.filter(p).to_multiset().len());
}

/// Filtering a sequence filters its items.
proof fn lemma_filter_multiset(list: Seq<Lead>, p: spec_fn(Lead) -> bool)
    ensures
        list.filter(p).to_multiset() == list.to_multiset().filter(p),
    decreases list.len(),
{
    broadcast use {
        vstd::seq_lib::group_to_multiset_ensures,
        vstd::multiset::group_multiset_axioms,
    };

    reveal(Seq::filter);
    if list.len() == 0 {
        assert(list.filter(p) =~= Seq::empty());
        assert(list.filter(p).to_multiset() =~= list.to_multiset().filter(p));
    } else {
        let rest = list.drop_last();
        lemma_filter_multiset(rest, p);
        assert(list =~= rest.push(list.last()));
        assert(list.to_multiset() =~= rest.to_multiset().insert(list.last()));
        assert(list.filter(p).to_multiset() =~= list.to_multiset().filter(p));
    }
}

/// Filtering the leads of a node is filtering its edges.
pub proof fn lemma_filter_leads(
    list: Seq<Edge>,
    f: spec_fn(Edge) -> Lead,
    p: spec_fn(Edge) -> bool,
    r: spec_fn(Lead) -> bool,
)
    requires
        forall|edge: Edge| r(#[trigger] f(edge)) == p(edge),
    ensures
        list.map_values(f).filter(r).len() == list.filter(p).len(),
    decreases list.len(),
{
    reveal(Seq::filter);
    if list.len() > 0 {
        lemma_filter_leads(list.drop_last(), f, p, r);
        assert(list.map_values(f).drop_last() =~= list.drop_last().map_values(f));
    }
}

/// Mapping items and then filtering them is filtering them by what they are mapped to.
proof fn lemma_map_then_filter<W>(
    list: Seq<Lead>,
    h: spec_fn(Lead) -> W,
    q: spec_fn(W) -> bool,
    r: spec_fn(Lead) -> bool,
)
    requires
        forall|lead: Lead| r(lead) == q(#[trigger] h(lead)),
    ensures
        list.map_values(h).filter(q).len() == list.filter(r).len(),
    decreases list.len(),
{
    reveal(Seq::filter);
    if list.len() > 0 {
        lemma_map_then_filter(list.drop_last(), h, q, r);
        assert(list.map_values(h).drop_last() =~= list.drop_last().map_values(h));
        assert(r(list.last()) == q(h(list.last())));
    }
}

/// What arranged links become has as many of each as there are edges that become it.
pub proof fn lemma_arranged_count<W>(
    list: Seq<Edge>,
    f: spec_fn(Edge) -> Lead,
    leads: Seq<Lead>,
    h: spec_fn(Lead) -> W,
    q: spec_fn(W) -> bool,
    p: spec_fn(Edge) -> bool,
)
    requires
        arranges(list.map_values(f), leads),
        forall|edge: Edge| p(edge) == q(h(#[trigger] f(edge))),
    ensures
        leads.map_values(h).filter(q).len() == list.filter(p).len(),
{
    let r = |lead: Lead| q(h(lead));
    law_arranging_keeps_links(list.map_values(f), leads);
    lemma_map_then_filter(leads, h, q, r);
    lemma_filter_permuted(leads, list.map_values(f), r);
    lemma_filter_leads(list, f, p, r);
}

/// Every item of what links are grouped to is of one of the kinds.
proof fn lemma_grouped_kinds(sorted: Seq<Lead>, kinds: Seq<u32>, i: int)
    requires
        0 <= i < grouped(sorted, kinds).len(),
    ensures
        kinds.contains(grouped(sorted, kinds)[i].kind),
    decreases kinds.len(),
{
    if kinds.len() == 0 {
        assert(kinds.map_values(|kind: u32| sorted.filter(of_kind(kind))) =~= Seq::empty());
    } else {
        let rest = kinds.drop_last();
        let last = kinds.last();
        lemma_one_more_group(sorted, rest, last);
        assert(rest.push(last) =~= kinds);
        let earlier = grouped(sorted, rest);
        if i < earlier.len() {
            lemma_grouped_kinds(sorted, rest, i);
            let k = rest.index_of(earlier[i].kind);
            assert(kinds[k] == earlier[i].kind);
        } else {
            sorted.lemma_filter_pred(of_kind(last), i - earlier.len());
            assert(kinds[kinds.len() - 1] == last);
        }
    }
}

/// Filtering keeps an ascending order.
proof fn lemma_filter_ascends(list: Seq<Lead>, p: spec_fn(Lead) -> bool)
    requires
        forall|i: int, j: int| 0 <= i < j < list.len() ==> (#[trigger] list[i]).rank <= (
        #[trigger] list[j]).rank,
    ensures
        forall|i: int, j: int|
            0 <= i < j < list.filter(p).len() ==> (#[trigger] list.filter(p)[i]).rank <= (
            #[trigger] list.filter(p)[j]).rank,
    decreases list.len(),
{
    reveal(Seq::filter);
    if list.len() > 0 {
        let rest = list.drop_last();
        assert forall|i: int, j: int| 0 <= i < j < rest.len() implies (#[trigger] rest[i]).rank <= (
        #[trigger] rest[j]).rank by {
            assert(rest[i] == list[i] && rest[j] == list[j]);
        }
        lemma_filter_ascends(rest, p);
        assert forall|i: int, j: int| 0 <= i < j < list.filter(p).len() implies (
        #[trigger] list.filter(p)[i]).rank <= (#[trigger] list.filter(p)[j]).rank by {
            if j == rest.filter(p).len() {
                assert(rest.filter(p).contains(rest.filter(p)[i]));
                rest.lemma_filter_contains_rev(p, rest.filter(p)[i]);
                let k = rest.index_of(rest.filter(p)[i]);
                assert(list[k] == rest.filter(p)[i]);
                assert(list[k].rank <= list[list.len() - 1].rank);
            }
        }
    }
}

/// Within a kind grouped links ascend, and a kind is not interrupted.
proof fn lemma_grouped_order(sorted: Seq<Lead>, kinds: Seq<u32>)
    requires
        kinds.no_duplicates(),
        forall|i: int, j: int| 0 <= i < j < sorted.len() ==> (#[trigger] sorted[i]).rank <= (
        #[trigger] sorted[j]).rank,
    ensures
        in_order(grouped(sorted, kinds)),
    decreases kinds.len(),
{
    if kinds.len() == 0 {
        assert(kinds.map_values(|kind: u32| sorted.filter(of_kind(kind))) =~= Seq::empty());
    } else {
        let rest = kinds.drop_last();
        let last = kinds.last();
        lemma_grouped_order(sorted, rest);
        lemma_one_more_group(sorted, rest, last);
        assert(rest.push(last) =~= kinds);
        let earlier = grouped(sorted, rest);
        let group = sorted.filter(of_kind(last));
        let out = grouped(sorted, kinds);
        lemma_filter_ascends(sorted, of_kind(last));
        assert forall|i: int| 0 <= i < out.len() implies ((#[trigger] out[i]).kind == last <==> i
            >= earlier.len()) by {
            if i < earlier.len() {
                lemma_grouped_kinds(sorted, rest, i);
                assert(!rest.contains(last)) by {
                    if rest.contains(last) {
                        let k = rest.index_of(last);
                        assert(kinds[k] == kinds[kinds.len() - 1]);
                    }
                }
            } else {
                sorted.lemma_filter_pred(of_kind(last), i - earlier.len());
            }
        }
        assert forall|i: int, j: int|
            0 <= i < j < out.len() && (#[trigger] out[i]).kind == (
            #[trigger] out[j]).kind implies out[i].rank <= out[j].rank by {
            if j < earlier.len() {
                assert(earlier[i].kind == earlier[j].kind);
            } else {
                assert(group[i - earlier.len()].rank <= group[j - earlier.len()].rank);
            }
        }
        assert forall|i: int, m: int, j: int|
            0 <= i < m < j < out.len() && (#[trigger] out[i]).kind == (
            #[trigger] out[j]).kind implies (#[trigger] out[m]).kind == out[i].kind by {
            if j < earlier.len() {
                assert(earlier[i].kind == earlier[j].kind);
                assert(earlier[m] == out[m]);
            }
        }
    }
}

/// Whether links to nodes of a kind come one after the other, in ascending order of the places
/// of those nodes.
pub open spec fn in_order(out: Seq<Lead>) -> bool {
    &&& forall|i: int, j: int|
        0 <= i < j < out.len() && (#[trigger] out[i]).kind == (#[trigger] out[j]).kind
            ==> out[i].rank <= out[j].rank
    &&& forall|i: int, m: int, j: int|
        0 <= i < m < j < out.len() && (#[trigger] out[i]).kind == (#[trigger] out[j]).kind ==> (
        #[trigger] out[m]).kind == out[i].kind
}

/// Arranged links are those that there were; links to nodes of a kind come one after the other,
/// in ascending order of the places of those nodes.
pub proof fn law_links_are_arranged_by_kind_and_place(list: Vec<Lead>, out: Vec<Lead>)
    requires
        call_ensures(arrange, (list,), out),
    ensures
        out@.to_multiset() == list@.to_multiset(),
        in_order(out@),
{
    law_arranging_keeps_links(list@, out@);
    let (sorted, kinds) = choose|sorted: Seq<Lead>, kinds: Seq<u32>|
        {
            &&& #[trigger] sorts(list@, sorted)
            &&& #[trigger] lists_kinds(sorted, kinds)
            &&& out@ == grouped(sorted, kinds)
        };
    lemma_grouped_order(sorted, kinds);
}

/// What arranges links puts them in order.
pub proof fn lemma_arranged_in_order(list: Seq<Lead>, out: Seq<Lead>)
    requires
        arranges(list, out),
    ensures
        in_order(out),
{
    let (sorted, kinds) = choose|sorted: Seq<Lead>, kinds: Seq<u32>|
        {
            &&& #[trigger] sorts(list, sorted)
            &&& #[trigger] lists_kinds(sorted, kinds)
            &&& out == grouped(sorted, kinds)
        };
    lemma_grouped_order(sorted, kinds);
}

} // verus!
