//! What is in the text that a backend is written as.

use vstd::prelude::*;

use crate::backend::direct::node::Node;
use crate::backend::direct::partitioned::backend::PartitionedBackend;
use crate::backend::direct::partitioned::compile::Compiled;
use crate::backend::direct::partitioned::dot::{
    block_at, decimal, digit, graph_lines, label, link_line, link_lines, node_lines,
    partition_lines,
};
use crate::compile_graph::CompileGraph;
use crate::options::CompilerOptions;
use crate::world::{Block, BlockPos, BlockTable, ComparatorMode, TickEntry};

verus! {

/// The character of a digit.
pub open spec fn character(d: int) -> char {
    (48 + d) as char
}

/// The digits of a number.
pub open spec fn digits(n: nat) -> Seq<char>
    decreases n,
{
    if n < 10 {
        seq![character(n as int)]
    } else {
        digits(n / 10).push(character((n % 10) as int))
    }
}

/// The number that some digits are read as.
pub open spec fn read(text: Seq<char>) -> int
    decreases text.len(),
{
    if text.len() == 0 {
        0
    } else {
        10 * read(text.drop_last()) + (text.last() as int - 48)
    }
}

/// A number, with a sign if it is negative.
pub open spec fn number(n: int) -> Seq<char> {
    if n < 0 {
        seq!['-'] + digits(-n as nat)
    } else {
        digits(n as nat)
    }
}

/// The digits of a number are read as that number, and begin with a zero only if that is all.
pub proof fn law_digits_are_read_as_their_number(n: nat)
    ensures
        read(digits(n)) == n,
        digits(n).len() > 0,
        digits(n).len() > 1 ==> digits(n)[0] != '0',
        forall|i: int| 0 <= i < digits(n).len() ==> '0' <= #[trigger] digits(n)[i] <= '9',
    decreases n,
{
    reveal_with_fuel(read, 2);
    if n >= 10 {
        law_digits_are_read_as_their_number(n / 10);
        assert(digits(n).drop_last() =~= digits(n / 10));
    } else {
        assert(digits(n).drop_last() =~= Seq::empty());
    }
}

proof fn lemma_digit(d: int)
    requires
        0 <= d < 10,
    ensures
        digit(d) == seq![character(d)],
{
    reveal_strlit("0");
    reveal_strlit("1");
    reveal_strlit("2");
    reveal_strlit("3");
    reveal_strlit("4");
    reveal_strlit("5");
    reveal_strlit("6");
    reveal_strlit("7");
    reveal_strlit("8");
    reveal_strlit("9");
    assert(digit(d) =~= seq![character(d)]);
}

proof fn lemma_digits(n: nat)
    ensures
        decimal(n as int) == digits(n),
    decreases n,
{
    lemma_digit((n % 10) as int);
    if n >= 10 {
        lemma_digits(n / 10);
        assert(digits(n / 10) + seq![character((n % 10) as int)] =~= digits(n));
    }
}

proof fn lemma_number(n: int)
    ensures
        decimal(n) == number(n),
{
    reveal_strlit("-");
    assert("-"@ =~= seq!['-']);
    if n < 0 {
        lemma_digits(-n as nat);
    } else {
        lemma_digits(n as nat);
    }
}

/// What a node is called: by its kind, with the delay of a repeater, the mode of a comparator
/// and the strength of a constant.
pub open spec fn called(node: Node) -> Seq<char> {
    if node.ty is Repeater {
        "Repeater("@ + number(node.ty->Repeater_delay as int) + ")"@
    } else if node.ty is Torch {
        "Torch"@
    } else if node.ty is Comparator {
        if node.ty->Comparator_mode == ComparatorMode::Compare {
            "Comparator("@ + "Cmp"@ + ")"@
        } else {
            "Comparator("@ + "Sub"@ + ")"@
        }
    } else if node.ty is Lamp {
        "Lamp"@
    } else if node.ty is Button {
        "Button"@
    } else if node.ty is Lever {
        "Lever"@
    } else if node.ty is PressurePlate {
        "PressurePlate"@
    } else if node.ty is Trapdoor {
        "Trapdoor"@
    } else if node.ty is Wire {
        "Wire"@
    } else if node.ty is Constant {
        "Constant("@ + number(node.output_power as int) + ")"@
    } else {
        "NoteBlock"@
    }
}

/// How a node is referred to.
pub open spec fn referred(p: int, i: int) -> Seq<char> {
    "p"@ + number(p) + "n"@ + number(i)
}

/// Where a node is in the world.
pub open spec fn placed_at(block: Option<(BlockPos, Block)>) -> Seq<char> {
    if block is Some {
        number((block->0).0.x as int) + ", "@ + number((block->0).0.y as int) + ", "@ + number(
            (block->0).0.z as int,
        )
    } else {
        "No Pos"@
    }
}

/// The line of a link: from a node to the one that the top 27 bits of the word tell, with the
/// loss that the lowest four bits tell, in another color if the bit between them is set.
pub open spec fn line_of_link(p: int, i: int, word: u32) -> Seq<char> {
    "    "@ + referred(p, i) + " -> "@ + referred(
        word as int / 0x200_0000,
        word as int / 0x20 % 0x10_0000,
    ) + " [ label = \""@ + number(word as int % 0x10) + "\""@ + (if word as int / 0x10 % 2 == 1 {
        ",color=\"blue\""@
    } else {
        ""@
    }) + " ];\n"@
}

/// The line of a node.
pub open spec fn line_of_node(
    p: int,
    i: int,
    node: Node,
    block: Option<(BlockPos, Block)>,
) -> Seq<char> {
    "    "@ + referred(p, i) + " [ label = \""@ + called(node) + "\\n("@ + placed_at(block)
        + ")\" ];\n"@
}

/// The block of a node.
pub open spec fn block_in(backend: PartitionedBackend, p: int, i: int) -> Option<
    (BlockPos, Block),
> {
    if backend.blocks@.contains_key((p as u16, i as u32)) {
        Some(backend.blocks@[(p as u16, i as u32)])
    } else {
        None
    }
}

/// The first `k` lines of links of a node.
pub open spec fn link_part(p: int, i: int, words: Seq<u32>, k: nat) -> Seq<char>
    decreases k,
{
    if k == 0 {
        Seq::empty()
    } else {
        link_part(p, i, words, (k - 1) as nat) + line_of_link(p, i, words[k - 1])
    }
}

/// What is written for the first `k` nodes of a partition: for each that is no wire its line,
/// and then those of its links.
pub open spec fn node_part(backend: PartitionedBackend, p: int, k: nat) -> Seq<char>
    decreases k,
{
    if k == 0 {
        Seq::empty()
    } else {
        let i = k - 1;
        let node = backend.partitions@[p].nodes.nodes@[i];
        node_part(backend, p, i as nat) + if node.ty is Wire {
            Seq::empty()
        } else {
            line_of_node(p, i, node, block_in(backend, p, i)) + link_part(
                p,
                i,
                node.updates@,
                node.updates@.len(),
            )
        }
    }
}

/// What is written for the first `k` partitions.
pub open spec fn partition_part(backend: PartitionedBackend, k: nat) -> Seq<char>
    decreases k,
{
    if k == 0 {
        Seq::empty()
    } else {
        partition_part(backend, (k - 1) as nat) + node_part(
            backend,
            k - 1,
            backend.partitions@[k - 1].nodes.nodes@.len(),
        )
    }
}

proof fn lemma_link_line(p: int, i: int, word: u32)
    ensures
        link_line(p, i, word) == line_of_link(p, i, word),
{
    lemma_number(p);
    lemma_number(i);
    lemma_number(word as int / 0x200_0000);
    lemma_number(word as int / 0x20 % 0x10_0000);
    lemma_number(word as int % 0x10);
}

proof fn lemma_link_part(p: int, i: int, words: Seq<u32>, k: nat)
    requires
        k <= words.len(),
    ensures
        link_lines(p, i, words.take(k as int)) == link_part(p, i, words, k),
    decreases k,
{
    if k > 0 {
        lemma_link_part(p, i, words, (k - 1) as nat);
        lemma_link_line(p, i, words[k - 1]);
        assert(words.take(k as int).drop_last() =~= words.take(k - 1));
    }
}

proof fn lemma_node_part(backend: PartitionedBackend, p: int, k: nat)
    requires
        0 <= p < backend.partitions@.len(),
        k <= backend.partitions@[p].nodes.nodes@.len(),
    ensures
        partition_lines(p, backend.partitions@[p].nodes.nodes@.take(k as int), backend.blocks@)
            == node_part(backend, p, k),
    decreases k,
{
    if k > 0 {
        let nodes = backend.partitions@[p].nodes.nodes@;
        let i = k - 1;
        let node = nodes[i];
        lemma_node_part(backend, p, i as nat);
        assert(nodes.take(k as int).drop_last() =~= nodes.take(i));
        lemma_number(p);
        lemma_number(i);
        if node.ty is Repeater {
            lemma_number(node.ty->Repeater_delay as int);
        }
        lemma_number(node.output_power as int);
        let block = block_in(backend, p, i);
        if block is Some {
            lemma_number((block->0).0.x as int);
            lemma_number((block->0).0.y as int);
            lemma_number((block->0).0.z as int);
        }
        lemma_link_part(p, i, node.updates@, node.updates@.len());
        assert(node.updates@.take(node.updates@.len() as int) =~= node.updates@);
        assert(label(node) == called(node));
        assert(node_lines(p, i, node, block_at(backend.blocks@, p, i)) == if node.ty is Wire {
            Seq::empty()
        } else {
            line_of_node(p, i, node, block) + link_part(p, i, node.updates@, node.updates@.len())
        });
    }
}

proof fn lemma_partition_part(backend: PartitionedBackend, k: nat)
    requires
        k <= backend.partitions@.len(),
    ensures
        graph_lines(backend.partitions@.take(k as int), backend.blocks@) == partition_part(
            backend,
            k,
        ),
    decreases k,
{
    if k > 0 {
        let nodes = backend.partitions@[k - 1].nodes.nodes@;
        lemma_partition_part(backend, (k - 1) as nat);
        lemma_node_part(backend, k - 1, nodes.len());
        assert(nodes.take(nodes.len() as int) =~= nodes);
        assert(backend.partitions@.take(k as int).drop_last() =~= backend.partitions@.take(k - 1));
    }
}

/// The text of a backend is that of its partitions in order, as one directed graph.
pub proof fn law_backend_is_written_line_by_line(backend: PartitionedBackend, text: String)
    requires
        call_ensures(PartitionedBackend::to_dot, (&backend,), text),
    ensures
        text@ == "digraph {\n"@ + partition_part(backend, backend.partitions@.len()) + "}\n"@,
{
    lemma_partition_part(backend, backend.partitions@.len());
    assert(backend.partitions@.take(backend.partitions@.len() as int) =~= backend.partitions@);
}

proof fn lemma_node_part_holds(backend: PartitionedBackend, p: int, k: nat, i: int)
    requires
        0 <= i < k,
        !(backend.partitions@[p].nodes.nodes@[i].ty is Wire),
    ensures
        exists|before: Seq<char>, after: Seq<char>|
            node_part(backend, p, k) == #[trigger] (before + line_of_node(
                p,
                i,
                backend.partitions@[p].nodes.nodes@[i],
                block_in(backend, p, i),
            ) + after),
    decreases k,
{
    let node = backend.partitions@[p].nodes.nodes@[i];
    let line = line_of_node(p, i, node, block_in(backend, p, i));
    if i == k - 1 {
        let before = node_part(backend, p, i as nat);
        let after = link_part(p, i, node.updates@, node.updates@.len());
        assert(node_part(backend, p, k) =~= before + line + after);
    } else {
        lemma_node_part_holds(backend, p, (k - 1) as nat, i);
        let (before, after) = choose|before: Seq<char>, after: Seq<char>|
            node_part(backend, p, (k - 1) as nat) == #[trigger] (before + line + after);
        let rest = node_part(backend, p, k).skip(
            node_part(backend, p, (k - 1) as nat).len() as int,
        );
        assert(node_part(backend, p, k) =~= before + line + (after + rest));
    }
}

proof fn lemma_partition_part_holds(backend: PartitionedBackend, k: nat, p: int)
    requires
        0 <= p < k,
    ensures
        exists|before: Seq<char>, after: Seq<char>|
            partition_part(backend, k) == #[trigger] (before + node_part(
                backend,
                p,
                backend.partitions@[p].nodes.nodes@.len(),
            ) + after),
    decreases k,
{
    let part = node_part(backend, p, backend.partitions@[p].nodes.nodes@.len());
    if p == k - 1 {
        assert(partition_part(backend, k) =~= partition_part(backend, p as nat) + part
            + Seq::empty());
    } else {
        lemma_partition_part_holds(backend, (k - 1) as nat, p);
        let (before, after) = choose|before: Seq<char>, after: Seq<char>|
            partition_part(backend, (k - 1) as nat) == #[trigger] (before + part + after);
        let rest = partition_part(backend, k).skip(
            partition_part(backend, (k - 1) as nat).len() as int,
        );
        assert(partition_part(backend, k) =~= before + part + (after + rest));
    }
}

/// The line of every node that is no wire is in the text.
pub proof fn law_every_node_is_written(
    backend: PartitionedBackend,
    text: String,
    p: int,
    i: int,
)
    requires
        call_ensures(PartitionedBackend::to_dot, (&backend,), text),
        0 <= p < backend.partitions@.len(),
        0 <= i < backend.partitions@[p].nodes.nodes@.len(),
        !(backend.partitions@[p].nodes.nodes@[i].ty is Wire),
    ensures
        exists|before: Seq<char>, after: Seq<char>|
            text@ == #[trigger] (before + line_of_node(
                p,
                i,
                backend.partitions@[p].nodes.nodes@[i],
                block_in(backend, p, i),
            ) + after),
{
    let nodes = backend.partitions@[p].nodes.nodes@;
    let line = line_of_node(p, i, nodes[i], block_in(backend, p, i));
    let part = node_part(backend, p, nodes.len());
    law_backend_is_written_line_by_line(backend, text);
    lemma_partition_part_holds(backend, backend.partitions@.len(), p);
    lemma_node_part_holds(backend, p, nodes.len(), i);
    let (a, b) = choose|before: Seq<char>, after: Seq<char>|
        partition_part(backend, backend.partitions@.len()) == #[trigger] (before + part + after);
    let (c, d) = choose|before: Seq<char>, after: Seq<char>|
        part == #[trigger] (before + line + after);
    assert(text@ =~= ("digraph {\n"@ + a + c) + line + (d + b + "}\n"@));
}

/// A circuit that is to be exported is written as its backend is.
pub proof fn law_exported_text_is_that_of_the_backend(
    backend: &mut PartitionedBackend,
    graph: CompileGraph,
    ticks: Vec<TickEntry>,
    options: CompilerOptions,
    table: BlockTable,
    compiled: Compiled,
    text: String,
)
    requires
        call_ensures(
            PartitionedBackend::compile,
            (backend, graph, ticks, &options, &table),
            compiled,
        ),
        call_ensures(PartitionedBackend::to_dot, (&*final(backend),), text),
    ensures
        compiled.dot is Some <==> options.export_dot_graph,
        compiled.dot is Some ==> (compiled.dot->0)@ == text@,
{
}

} // verus!
