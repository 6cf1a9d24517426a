//! The partitions of a circuit as a graph in the dot language.

use vstd::prelude::*;

use crate::backend::direct::node::{ForwardLinkData, Node, NodeType, Updates};
use crate::backend::direct::partitioned::backend::{Blocks, PartitionedBackend};
use crate::backend::direct::partitioned::partition::{
    lemma_link_of_word, NodeLocation, PartitionForwardLink,
};
use crate::backend::direct::partitioned::PartitionInterface;
use crate::maps;
use crate::world::{Block, BlockPos, ComparatorMode};

verus! {

/// A decimal digit.
pub open spec fn digit(d: int) -> Seq<char> {
    if d == 0 {
        "0"@
    } else if d == 1 {
        "1"@
    } else if d == 2 {
        "2"@
    } else if d == 3 {
        "3"@
    } else if d == 4 {
        "4"@
    } else if d == 5 {
        "5"@
    } else if d == 6 {
        "6"@
    } else if d == 7 {
        "7"@
    } else if d == 8 {
        "8"@
    } else {
        "9"@
    }
}

/// A number in decimal.
pub open spec fn decimal(n: int) -> Seq<char>
    decreases
            if n < 0 {
                1 - n
            } else {
                n
            },
{
    if n < 0 {
        "-"@ + decimal(-n)
    } else if n < 10 {
        digit(n)
    } else {
        decimal(n / 10) + digit(n % 10)
    }
}

/// What a node is called.
pub open spec fn label(node: Node) -> Seq<char> {
    match node.ty {
        NodeType::Repeater { delay, .. } => "Repeater("@ + decimal(delay as int) + ")"@,
        NodeType::Torch => "Torch"@,
        NodeType::Comparator { mode, .. } => "Comparator("@ + (match mode {
            ComparatorMode::Compare => "Cmp"@,
            ComparatorMode::Subtract => "Sub"@,
        }) + ")"@,
        NodeType::Lamp => "Lamp"@,
        NodeType::Button => "Button"@,
        NodeType::Lever => "Lever"@,
        NodeType::PressurePlate => "PressurePlate"@,
        NodeType::Trapdoor => "Trapdoor"@,
        NodeType::Wire => "Wire"@,
        NodeType::Constant => "Constant("@ + decimal(node.output_power as int) + ")"@,
        NodeType::NoteBlock { .. } => "NoteBlock"@,
    }
}

/// Where the block of a node is.
pub open spec fn position(block: Option<(BlockPos, Block)>) -> Seq<char> {
    match block {
        Some((pos, _)) => decimal(pos.x as int) + ", "@ + decimal(pos.y as int) + ", "@ + decimal(
            pos.z as int,
        ),
        None => "No Pos"@,
    }
}

/// The name of the node at `i` in partition `p`.
pub open spec fn name(p: int, i: int) -> Seq<char> {
    "p"@ + decimal(p) + "n"@ + decimal(i)
}

/// The line for the link of a word.
pub open spec fn link_line(p: int, i: int, word: u32) -> Seq<char> {
    let target = PartitionForwardLink::target(word);
    "    "@ + name(p, i) + " -> "@ + name(target.partition as int, target.index.id as int)
        + " [ label = \""@ + decimal(PartitionForwardLink::distance(word) as int) + "\""@ + (
    if PartitionForwardLink::enters_side(word) {
        ",color=\"blue\""@
    } else {
        ""@
    }) + " ];\n"@
}

/// The lines for the links of a node.
pub open spec fn link_lines(p: int, i: int, words: Seq<u32>) -> Seq<char>
    decreases words.len(),
{
    if words.len() == 0 {
        Seq::empty()
    } else {
        link_lines(p, i, words.drop_last()) + link_line(p, i, words.last())
    }
}

/// The block of the node at `i` in partition `p`, if any.
pub open spec fn block_at(blocks: Blocks, p: int, i: int) -> Option<(BlockPos, Block)> {
    if blocks.contains_key((p as u16, i as u32)) {
        Some(blocks[(p as u16, i as u32)])
    } else {
        None
    }
}

/// The lines for a node: none for a wire.
pub open spec fn node_lines(p: int, i: int, node: Node, block: Option<(BlockPos, Block)>) -> Seq<
    char,
> {
    if node.ty is Wire {
        Seq::empty()
    } else {
        "    "@ + name(p, i) + " [ label = \""@ + label(node) + "\\n("@ + position(block)
            + ")\" ];\n"@ + link_lines(p, i, node.updates@)
    }
}

/// The lines for the nodes of partition `p`.
pub open spec fn partition_lines(p: int, nodes: Seq<Node>, blocks: Blocks) -> Seq<char>
    decreases nodes.len(),
{
    if nodes.len() == 0 {
        Seq::empty()
    } else {
        let i = nodes.len() - 1;
        partition_lines(p, nodes.drop_last(), blocks) + node_lines(
            p,
            i,
            nodes.last(),
            block_at(blocks, p, i),
        )
    }
}

/// The lines for some partitions.
pub open spec fn graph_lines(partitions: Seq<PartitionInterface>, blocks: Blocks) -> Seq<char>
    decreases partitions.len(),
{
    if partitions.len() == 0 {
        Seq::empty()
    } else {
        graph_lines(partitions.drop_last(), blocks) + partition_lines(
            partitions.len() - 1,
            partitions.last().nodes.nodes@,
            blocks,
        )
    }
}

/// The whole graph.
pub open spec fn dot_graph(partitions: Seq<PartitionInterface>, blocks: Blocks) -> Seq<char> {
    "digraph {\n"@ + graph_lines(partitions, blocks) + "}\n"@
}

/// A decimal digit.
fn digit_text(d: u64) -> (text: &'static str)
    requires
        d < 10,
    ensures
        text@ == digit(d as int),
{
    if d == 0 {
        "0"
    } else if d == 1 {
        "1"
    } else if d == 2 {
        "2"
    } else if d == 3 {
        "3"
    } else if d == 4 {
        "4"
    } else if d == 5 {
        "5"
    } else if d == 6 {
        "6"
    } else if d == 7 {
        "7"
    } else if d == 8 {
        "8"
    } else {
        "9"
    }
}

/// Appends a number in decimal.
fn write_number(out: &mut String, n: u64)
    ensures
        final(out)@ == old(out)@ + decimal(n as int),
    decreases n,
{
    if n >= 10 {
        write_number(out, n / 10);
        out.append(digit_text(n % 10));
        assert(out@ =~= old(out)@ + decimal(n as int));
    } else {
        out.append(digit_text(n));
    }
}

/// Appends a number in decimal.
fn write_signed(out: &mut String, n: i32)
    ensures
        final(out)@ == old(out)@ + decimal(n as int),
{
    let wide: i64 = n as i64;
    if wide < 0 {
        out.append("-");
        write_number(out, (0 - wide) as u64);
        assert(out@ =~= old(out)@ + decimal(n as int));
    } else {
        write_number(out, wide as u64);
    }
}

/// Appends what a node is called.
fn write_label(out: &mut String, node: &Node)
    ensures
        final(out)@ == old(out)@ + label(*node),
{
    match node.ty {
        NodeType::Repeater { delay, .. } => {
            out.append("Repeater(");
            write_number(out, delay as u64);
            out.append(")");
        },
        NodeType::Torch => {
            out.append("Torch");
        },
        NodeType::Comparator { mode, .. } => {
            out.append("Comparator(");
            match mode {
                ComparatorMode::Compare => {
                    out.append("Cmp");
                },
                ComparatorMode::Subtract => {
                    out.append("Sub");
                },
            }
            out.append(")");
        },
        NodeType::Lamp => {
            out.append("Lamp");
        },
        NodeType::Button => {
            out.append("Button");
        },
        NodeType::Lever => {
            out.append("Lever");
        },
        NodeType::PressurePlate => {
            out.append("PressurePlate");
        },
        NodeType::Trapdoor => {
            out.append("Trapdoor");
        },
        NodeType::Wire => {
            out.append("Wire");
        },
        NodeType::Constant => {
            out.append("Constant(");
            write_number(out, node.output_power as u64);
            out.append(")");
        },
        NodeType::NoteBlock { .. } => {
            out.append("NoteBlock");
        },
    }
    assert(out@ =~= old(out)@ + label(*node));
}

/// Appends where the block of a node is.
fn write_position(out: &mut String, block: Option<(BlockPos, Block)>)
    ensures
        final(out)@ == old(out)@ + position(block),
{
    match block {
        Some((pos, _)) => {
            write_signed(out, pos.x);
            out.append(", ");
            write_signed(out, pos.y);
            out.append(", ");
            write_signed(out, pos.z);
        },
        None => {
            out.append("No Pos");
        },
    }
    assert(out@ =~= old(out)@ + position(block));
}

/// Appends the name of a node.
fn write_name(out: &mut String, partition_id: usize, node_id: usize)
    ensures
        final(out)@ == old(out)@ + name(partition_id as int, node_id as int),
{
    out.append("p");
    write_number(out, partition_id as u64);
    out.append("n");
    write_number(out, node_id as u64);
    assert(out@ =~= old(out)@ + name(partition_id as int, node_id as int));
}

/// Appends the line for the link of a word.
fn write_link(out: &mut String, partition_id: usize, node_id: usize, word: u32)
    ensures
        final(out)@ == old(out)@ + link_line(partition_id as int, node_id as int, word),
{
    let data = ForwardLinkData::new(word);
    let link = PartitionForwardLink::from(data);
    proof {
        lemma_link_of_word(data);
    }
    let target = link.node();
    out.append("    ");
    write_name(out, partition_id, node_id);
    out.append(" -> ");
    write_name(out, target.partition(), target.index().index());
    out.append(" [ label = \"");
    write_number(out, link.ss() as u64);
    out.append("\"");
    if link.side() {
        out.append(",color=\"blue\"");
    } else {
        out.append("");
    }
    out.append(" ];\n");
    assert(out@ =~= old(out)@ + link_line(partition_id as int, node_id as int, word));
}

/// Appends the lines for the links of a node.
fn write_links(out: &mut String, partition_id: usize, node_id: usize, updates: &Updates)
    ensures
        final(out)@ == old(out)@ + link_lines(partition_id as int, node_id as int, updates@),
{
    let ghost p = partition_id as int;
    let ghost i = node_id as int;
    let len: usize = updates.len();
    let mut k: usize = 0;
    assert(out@ =~= old(out)@ + link_lines(p, i, updates@.take(0)));
    while k < len
        invariant
            k <= len == updates@.len(),
            p == partition_id,
            i == node_id,
            out@ == old(out)@ + link_lines(p, i, updates@.take(k as int)),
        decreases len - k,
    {
        write_link(out, partition_id, node_id, updates.word(k));
        assert(updates@.take(k + 1).drop_last() =~= updates@.take(k as int));
        k += 1;
        assert(out@ =~= old(out)@ + link_lines(p, i, updates@.take(k as int)));
    }
    assert(updates@.take(k as int) =~= updates@);
}

/// Appends the lines for a node.
fn write_node(
    out: &mut String,
    partition_id: usize,
    node_id: usize,
    node: &Node,
    block: Option<(BlockPos, Block)>,
)
    ensures
        final(out)@ == old(out)@ + node_lines(
            partition_id as int,
            node_id as int,
            *node,
            block,
        ),
{
    if let NodeType::Wire = node.ty {
        assert(out@ =~= old(out)@ + node_lines(partition_id as int, node_id as int, *node, block));
        return;
    }
    out.append("    ");
    write_name(out, partition_id, node_id);
    out.append(" [ label = \"");
    write_label(out, node);
    out.append("\\n(");
    write_position(out, block);
    out.append(")\" ];\n");
    write_links(out, partition_id, node_id, &node.updates);
    assert(out@ =~= old(out)@ + node_lines(partition_id as int, node_id as int, *node, block));
}

impl PartitionedBackend {
    /// Appends the lines for the nodes of a partition.
    fn write_partition(&self, out: &mut String, partition_id: usize)
        requires
            self.wf(),
            partition_id < self.partitions@.len(),
        ensures
            final(out)@ == old(out)@ + partition_lines(
                partition_id as int,
                self.partitions@[partition_id as int].nodes.nodes@,
                self.blocks@,
            ),
    {
        let nodes = &self.partitions[partition_id].nodes.nodes;
        let ghost p = partition_id as int;
        let mut i: usize = 0;
        assert(out@ =~= old(out)@ + partition_lines(p, nodes@.take(0), self.blocks@));
        while i < nodes.len()
            invariant
                i <= nodes@.len() <= u32::MAX,
                p == partition_id,
                partition_id < self.partitions@.len(),
                self.wf(),
                out@ == old(out)@ + partition_lines(p, nodes@.take(i as int), self.blocks@),
            decreases nodes@.len() - i,
        {
            let location = NodeLocation::from(partition_id, i);
            assert(location.parts() == (p as u16, i as u32));
            let block = match maps::get(&self.blocks, location.key()) {
                Some(entry) => Some(*entry),
                None => None,
            };
            write_node(out, partition_id, i, &nodes[i], block);
            assert(nodes@.take(i + 1).drop_last() =~= nodes@.take(i as int));
            i += 1;
            assert(out@ =~= old(out)@ + partition_lines(p, nodes@.take(i as int), self.blocks@));
        }
        assert(nodes@.take(i as int) =~= nodes@);
    }

    /// The partitions as a graph in the dot language.
    pub fn to_dot(&self) -> (text: String)
        requires
            self.wf(),
        ensures
            text@ == dot_graph(self.partitions@, self.blocks@),
    {
        let mut out = String::new();
        out.append("digraph {\n");
        let mut p: usize = 0;
        assert(out@ =~= "digraph {\n"@ + graph_lines(self.partitions@.take(0), self.blocks@));
        while p < self.partitions.len()
            invariant
                p <= self.partitions@.len(),
                self.wf(),
                out@ == "digraph {\n"@ + graph_lines(
                    self.partitions@.take(p as int),
                    self.blocks@,
                ),
            decreases self.partitions@.len() - p,
        {
            self.write_partition(&mut out, p);
            assert(self.partitions@.take(p + 1).drop_last() =~= self.partitions@.take(p as int));
            p += 1;
            assert(out@ =~= "digraph {\n"@ + graph_lines(
                self.partitions@.take(p as int),
                self.blocks@,
            ));
        }
        assert(self.partitions@.take(p as int) =~= self.partitions@);
        out.append("}\n");
        assert(out@ =~= dot_graph(self.partitions@, self.blocks@));
        out
    }
}

} // verus!
