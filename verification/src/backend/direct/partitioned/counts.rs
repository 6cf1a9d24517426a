//! Why the counts of inputs stay right: they are the strengths that arrive over the links
//! of all nodes, and every change of a strength is delivered to where it is counted.

use vstd::prelude::*;

use crate::backend::direct::node::Node;
use crate::backend::direct::partitioned::partition::{NodeLocation, PartitionForwardLink};
use crate::backend::direct::partitioned::{
    can_recount, change_of, deliveries, delivery, input_total, law_update_moves_one_input, matters,
    recounted, weakened, Delivery,
};

verus! {

/// The input of a node from one side.
pub struct Entry {
    pub location: NodeLocation,
    pub side: bool,
}

/// Whether the link of a word leads to an input.
pub open spec fn leads_to(word: u32, entry: Entry) -> bool {
    PartitionForwardLink::target(word) == entry.location && PartitionForwardLink::enters_side(word)
        == entry.side
}

/// The strength that arrives over the link of a word.
pub open spec fn arriving(word: u32, power: u8) -> u8 {
    weakened(power, PartitionForwardLink::distance(word))
}

/// One if the link of a word brings strength `ss` to an input, else zero.
pub open spec fn brings(word: u32, power: u8, entry: Entry, ss: int) -> int {
    if leads_to(word, entry) && arriving(word, power) == ss {
        1
    } else {
        0
    }
}

/// How many links of a node of strength `power` bring strength `ss` to an input.
pub open spec fn brought(words: Seq<u32>, power: u8, entry: Entry, ss: int) -> int
    decreases words.len(),
{
    if words.len() == 0 {
        0
    } else {
        brought(words.drop_last(), power, entry, ss) + brings(words.last(), power, entry, ss)
    }
}

/// How many links of all nodes bring strength `ss` to an input.
pub open spec fn brought_by_all(nodes: Seq<Node>, entry: Entry, ss: int) -> int
    decreases nodes.len(),
{
    if nodes.len() == 0 {
        0
    } else {
        brought_by_all(nodes.drop_last(), entry, ss) + brought(
            nodes.last().updates@,
            nodes.last().output_power,
            entry,
            ss,
        )
    }
}

/// Whether `counts` are the strengths that arrive at an input from `nodes`, and beyond
/// those from sources that never change.
pub open spec fn counts_right(
    nodes: Seq<Node>,
    fixed: Seq<nat>,
    entry: Entry,
    counts: Seq<u8>,
) -> bool {
    counts.len() == 16 && forall|ss: int|
        0 <= ss < 16 ==> #[trigger] counts[ss] == brought_by_all(nodes, entry, ss) + fixed[ss]
}

/// Where a delivery from partition `index` goes.
pub open spec fn destination(index: usize, delivery: Delivery) -> Entry {
    match delivery {
        Delivery::Local(change) => Entry {
            location: NodeLocation { partition: index as u16, index: change.node_id },
            side: change.side,
        },
        Delivery::Remote(partition, change) => Entry {
            location: NodeLocation { partition: partition as u16, index: change.node_id },
            side: change.side,
        },
    }
}

/// The counts of an input once the deliveries that go there have been handled.
pub open spec fn handled(counts: Seq<u8>, index: usize, sent: Seq<Delivery>, entry: Entry) -> Seq<
    u8,
>
    decreases sent.len(),
{
    if sent.len() == 0 {
        counts
    } else {
        let earlier = handled(counts, index, sent.drop_last(), entry);
        if destination(index, sent.last()) == entry {
            recounted(earlier, change_of(sent.last()).old_power, change_of(sent.last()).new_power)
        } else {
            earlier
        }
    }
}

/// Whether all the deliveries that go to an input can be handled there in turn.
pub open spec fn can_handle(
    counts: Seq<u8>,
    index: usize,
    sent: Seq<Delivery>,
    entry: Entry,
) -> bool
    decreases sent.len(),
{
    sent.len() > 0 ==> {
        &&& can_handle(counts, index, sent.drop_last(), entry)
        &&& destination(index, sent.last()) == entry ==> can_recount(
            handled(counts, index, sent.drop_last(), entry),
            change_of(sent.last()).old_power,
            change_of(sent.last()).new_power,
        )
    }
}

/// The strengths that arrive change with the node whose strength changes.
proof fn lemma_node_changed(nodes: Seq<Node>, m: int, changed: Node, entry: Entry, ss: int)
    requires
        0 <= m < nodes.len(),
    ensures
        brought_by_all(nodes.update(m, changed), entry, ss) == brought_by_all(nodes, entry, ss)
            - brought(nodes[m].updates@, nodes[m].output_power, entry, ss) + brought(
            changed.updates@,
            changed.output_power,
            entry,
            ss,
        ),
    decreases nodes.len(),
{
    let after = nodes.update(m, changed);
    if m == nodes.len() - 1 {
        assert(after.drop_last() =~= nodes.drop_last());
    } else {
        assert(after.drop_last() =~= nodes.drop_last().update(m, changed));
        lemma_node_changed(nodes.drop_last(), m, changed, entry, ss);
    }
}

/// What one node brings is part of what all bring.
proof fn lemma_part_of_all(nodes: Seq<Node>, m: int, entry: Entry, ss: int)
    requires
        0 <= m < nodes.len(),
    ensures
        0 <= brought(nodes[m].updates@, nodes[m].output_power, entry, ss) <= brought_by_all(
            nodes,
            entry,
            ss,
        ),
    decreases nodes.len(),
{
    lemma_brought_positive(nodes[m].updates@, nodes[m].output_power, entry, ss);
    if m < nodes.len() - 1 {
        lemma_part_of_all(nodes.drop_last(), m, entry, ss);
        lemma_brought_positive(nodes.last().updates@, nodes.last().output_power, entry, ss);
    } else {
        lemma_all_positive(nodes.drop_last(), entry, ss);
    }
}

proof fn lemma_brought_positive(words: Seq<u32>, power: u8, entry: Entry, ss: int)
    ensures
        brought(words, power, entry, ss) >= 0,
    decreases words.len(),
{
    if words.len() > 0 {
        lemma_brought_positive(words.drop_last(), power, entry, ss);
    }
}

proof fn lemma_all_positive(nodes: Seq<Node>, entry: Entry, ss: int)
    ensures
        brought_by_all(nodes, entry, ss) >= 0,
    decreases nodes.len(),
{
    if nodes.len() > 0 {
        lemma_all_positive(nodes.drop_last(), entry, ss);
        lemma_brought_positive(nodes.last().updates@, nodes.last().output_power, entry, ss);
    }
}

/// What some links bring, and one more.
proof fn lemma_one_more(words: Seq<u32>, k: int, power: u8, entry: Entry, ss: int)
    requires
        0 <= k < words.len(),
    ensures
        brought(words.take(k + 1), power, entry, ss) == brought(words.take(k), power, entry, ss)
            + brings(words[k], power, entry, ss),
        brought(words.take(k + 1), power, entry, ss) <= brought(words, power, entry, ss),
    decreases words.len() - k,
{
    assert(words.take(k + 1).drop_last() =~= words.take(k));
    if k + 1 < words.len() {
        lemma_one_more(words, k + 1, power, entry, ss);
    } else {
        assert(words.take(k + 1) =~= words);
    }
}

/// A delivery over a link goes where the link leads.
proof fn lemma_destination(index: usize, word: u32, old_power: u8, new_power: u8)
    ensures
        destination(index, delivery(index, word, old_power, new_power)).location
            == PartitionForwardLink::target(word),
        destination(index, delivery(index, word, old_power, new_power)).side
            == PartitionForwardLink::enters_side(word),
        change_of(delivery(index, word, old_power, new_power)).old_power == arriving(word, old_power),
        change_of(delivery(index, word, old_power, new_power)).new_power == arriving(word, new_power),
{
}

/// Two counts are no more than all together.
proof fn lemma_two_of_total(counts: Seq<u8>, i: int, j: int)
    requires
        0 <= i < counts.len(),
        0 <= j < counts.len(),
        i != j,
    ensures
        counts[i] + counts[j] <= input_total(counts),
    decreases counts.len(),
{
    let rest = counts.drop_last();
    let last = counts.len() - 1;
    if i == last {
        lemma_one_of_total(rest, j);
    } else if j == last {
        lemma_one_of_total(rest, i);
    } else {
        lemma_two_of_total(rest, i, j);
    }
}

proof fn lemma_one_of_total(counts: Seq<u8>, i: int)
    requires
        0 <= i < counts.len(),
    ensures
        counts[i] <= input_total(counts),
    decreases counts.len(),
{
    let rest = counts.drop_last();
    lemma_total_positive(rest);
    if i < rest.len() {
        lemma_one_of_total(rest, i);
    }
}

proof fn lemma_total_positive(counts: Seq<u8>)
    ensures
        input_total(counts) >= 0,
    decreases counts.len(),
{
    if counts.len() > 0 {
        lemma_total_positive(counts.drop_last());
    }
}

/// After the deliveries over some links the counts are those of a node of which these
/// links carry the new strength and the others the old one.
proof fn lemma_partly_handled(
    words: Seq<u32>,
    k: int,
    index: usize,
    old_power: u8,
    new_power: u8,
    entry: Entry,
    counts: Seq<u8>,
)
    requires
        0 <= k <= words.len(),
        index < 0x1_0000,
        old_power < 16,
        new_power < 16,
        counts.len() == 16,
        input_total(counts) <= 255,
        forall|ss: int|
            0 <= ss < 16 ==> brought(words, old_power, entry, ss) <= #[trigger] counts[ss],
    ensures
        ({
            let sent = deliveries(index, words.take(k), old_power, new_power);
            let after = handled(counts, index, sent, entry);
            &&& can_handle(counts, index, sent, entry)
            &&& after.len() == 16
            &&& input_total(after) <= 255
            &&& forall|ss: int|
                0 <= ss < 16 ==> #[trigger] after[ss] == counts[ss] - brought(
                    words.take(k),
                    old_power,
                    entry,
                    ss,
                ) + brought(words.take(k), new_power, entry, ss)
        }),
    decreases k,
{
    if k > 0 {
        lemma_partly_handled(words, k - 1, index, old_power, new_power, entry, counts);
        let word = words[k - 1];
        let earlier = deliveries(index, words.take(k - 1), old_power, new_power);
        let sent = deliveries(index, words.take(k), old_power, new_power);
        let before = handled(counts, index, earlier, entry);
        assert(words.take(k).drop_last() =~= words.take(k - 1));
        assert(words.take(k).last() == word);
        assert forall|ss: int| 0 <= ss < 16 implies {
            &&& #[trigger] brought(words.take(k), old_power, entry, ss) == brought(
                words.take(k - 1),
                old_power,
                entry,
                ss,
            ) + brings(word, old_power, entry, ss)
            &&& brought(words.take(k), new_power, entry, ss) == brought(
                words.take(k - 1),
                new_power,
                entry,
                ss,
            ) + brings(word, new_power, entry, ss)
            &&& brought(words.take(k), old_power, entry, ss) <= counts[ss]
            &&& brought(words.take(k - 1), new_power, entry, ss) >= 0
        } by {
            lemma_one_more(words, k - 1, old_power, entry, ss);
            lemma_one_more(words, k - 1, new_power, entry, ss);
            lemma_brought_positive(words.take(k - 1), new_power, entry, ss);
            assert(counts[ss] >= brought(words, old_power, entry, ss));
        }
        lemma_destination(index, word, old_power, new_power);
        if matters(word, old_power, new_power) {
            let last = delivery(index, word, old_power, new_power);
            assert(sent =~= earlier.push(last));
            assert(sent.drop_last() =~= earlier);
            let there = arriving(word, old_power);
            let then = arriving(word, new_power);
            if leads_to(word, entry) {
                assert(destination(index, last) == entry);
                // the link itself is counted with the old strength
                assert(brought(words.take(k), old_power, entry, there as int) <= counts[there as int]);
                assert(before[there as int] >= 1);
                lemma_two_of_total(before, there as int, then as int);
                assert(can_recount(before, there, then));
                law_update_moves_one_input(before, there, then);
                assert forall|ss: int| 0 <= ss < 16 implies #[trigger] recounted(
                    before,
                    there,
                    then,
                )[ss] == counts[ss] - brought(words.take(k), old_power, entry, ss) + brought(
                    words.take(k),
                    new_power,
                    entry,
                    ss,
                ) by {
                    assert(before[ss] == counts[ss] - brought(
                        words.take(k - 1),
                        old_power,
                        entry,
                        ss,
                    ) + brought(words.take(k - 1), new_power, entry, ss));
                    assert(brought(words.take(k), old_power, entry, ss) <= counts[ss]);
                }
            } else {
                assert(destination(index, last) != entry);
                assert forall|ss: int| 0 <= ss < 16 implies #[trigger] before[ss] == counts[ss]
                    - brought(words.take(k), old_power, entry, ss) + brought(
                    words.take(k),
                    new_power,
                    entry,
                    ss,
                ) by {
                    assert(brought(words.take(k), old_power, entry, ss) <= counts[ss]);
                }
            }
        } else {
            assert(sent =~= earlier);
            assert forall|ss: int| 0 <= ss < 16 implies #[trigger] before[ss] == counts[ss]
                - brought(words.take(k), old_power, entry, ss) + brought(
                words.take(k),
                new_power,
                entry,
                ss,
            ) by {
                assert(brought(words.take(k), old_power, entry, ss) <= counts[ss]);
            }
        }
    } else {
        assert(words.take(0) =~= Seq::empty());
    }
}

/// Whatever node is set to another strength: at every input, the changes that this sends
/// out can all be handled, and once they have been, the counts there are again those of
/// the strengths that arrive.
pub proof fn law_setting_a_node_keeps_counts_right(
    nodes: Seq<Node>,
    m: int,
    index: usize,
    changed: Node,
    fixed: Seq<nat>,
    entry: Entry,
    counts: Seq<u8>,
)
    requires
        0 <= m < nodes.len(),
        index < 0x1_0000,
        changed.updates@ == nodes[m].updates@,
        nodes[m].output_power < 16,
        changed.output_power < 16,
        counts_right(nodes, fixed, entry, counts),
        input_total(counts) <= 255,
    ensures
        ({
            let sent = deliveries(
                index,
                nodes[m].updates@,
                nodes[m].output_power,
                changed.output_power,
            );
            &&& can_handle(counts, index, sent, entry)
            &&& counts_right(
                nodes.update(m, changed),
                fixed,
                entry,
                handled(counts, index, sent, entry),
            )
        }),
{
    let words = nodes[m].updates@;
    let old_power = nodes[m].output_power;
    let new_power = changed.output_power;
    assert forall|ss: int| 0 <= ss < 16 implies brought(words, old_power, entry, ss)
        <= #[trigger] counts[ss] by {
        lemma_part_of_all(nodes, m, entry, ss);
    }
    lemma_partly_handled(
        words,
        words.len() as int,
        index,
        old_power,
        new_power,
        entry,
        counts,
    );
    assert(words.take(words.len() as int) =~= words);
    let after = handled(counts, index, deliveries(index, words, old_power, new_power), entry);
    assert forall|ss: int| 0 <= ss < 16 implies #[trigger] after[ss] == brought_by_all(
        nodes.update(m, changed),
        entry,
        ss,
    ) + fixed[ss] by {
        lemma_node_changed(nodes, m, changed, entry, ss);
        assert(counts[ss] == brought_by_all(nodes, entry, ss) + fixed[ss]);
    }
}

} // verus!
