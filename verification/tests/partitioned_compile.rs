use petgraph::stable_graph::{NodeIndex, StableGraph};
use redpiler::backend::direct::node::{ForwardLinkData, Node, NodeId, NodeType, NonMaxU8};
use redpiler::backend::direct::partitioned::backend::PartitionedBackend;
use redpiler::backend::direct::partitioned::compile::FinalGraphStats;
use redpiler::backend::direct::partitioned::partition::{NodeLocation, PartitionForwardLink};
use redpiler::backend::direct::partitioned::{
    Delivery, Partition, PartitionMessage, Step,
};
use redpiler::compile_graph::NodeType as CNodeType;
use redpiler::compile_graph::{
    Annotations, CompileGraph, CompileLink, CompileNode, LinkType, NodeState,
};
use redpiler::options::CompilerOptions;
use redpiler::world::{
    Block, BlockPos, BlockTable, ComparatorMode, Instrument, TickEntry, TickPriority,
};

const OPTIONS: CompilerOptions = CompilerOptions { export_dot_graph: false };

/// Every other block can be powered.
fn table() -> BlockTable {
    let blocks = (0..200)
        .map(|id| Block {
            id,
            powered: if id % 2 == 0 { Some(false) } else { None },
            power: None,
            locked: None,
        })
        .collect();
    BlockTable { blocks }
}

fn pos(x: i32) -> BlockPos {
    BlockPos { x, y: -2, z: 7 }
}

fn node(ty: CNodeType, x: i32) -> CompileNode {
    CompileNode {
        ty,
        block: Some((pos(x), 100 + x as u32)),
        state: NodeState { powered: false, repeater_locked: false, output_strength: 0 },
        is_input: false,
        is_output: false,
        annotations: Annotations {},
    }
}

fn link(ty: LinkType, ss: u8) -> CompileLink {
    CompileLink { ty, ss }
}

fn note(id: u32, note: u32) -> CNodeType {
    CNodeType::NoteBlock { instrument: Instrument { id }, note }
}

/// A lever that is on, a comparator that it feeds twice, and two note blocks.
fn sample() -> CompileGraph {
    let mut graph: CompileGraph = StableGraph::default();
    let lever = graph.add_node(node(CNodeType::Lever, 0));
    graph[lever].state.powered = true;
    graph[lever].state.output_strength = 15;
    graph[lever].is_input = true;
    let comparator = graph.add_node(node(
        CNodeType::Comparator {
            mode: ComparatorMode::Subtract,
            far_input: Some(6),
            facing_diode: true,
        },
        1,
    ));
    let first = graph.add_node(node(note(3, 11), 2));
    let second = graph.add_node(node(note(4, 12), 3));
    graph[second].state.repeater_locked = true;
    graph.add_edge(lever, comparator, link(LinkType::Default, 2));
    graph.add_edge(lever, comparator, link(LinkType::Side, 5));
    graph.add_edge(comparator, first, link(LinkType::Default, 0));
    graph.add_edge(comparator, second, link(LinkType::Default, 14));
    graph
}

fn words(node: &Node) -> Vec<u32> {
    // a node sends a change over each of its links if nothing is lost on the way
    let mut partition = Partition::new(
        0,
        redpiler::backend::direct::node::Nodes::new(vec![node.duplicate()]),
    );
    partition.nodes.nodes[0].output_power = 0;
    let sent = partition.set_node(NodeId { id: 0 }, true, 255);
    sent.iter()
        .map(|delivery| match delivery {
            Delivery::Local(change) => {
                (NodeLocation { partition: 0, index: change.node_id }, *change)
            }
            Delivery::Remote(p, change) => (
                NodeLocation { partition: *p as u16, index: change.node_id },
                *change,
            ),
        })
        .map(|(location, change)| {
            PartitionForwardLink::new(location, change.side, 255 - change.new_power).inner()
        })
        .collect()
}

#[test]
fn nodes_are_lowered() {
    let mut backend = PartitionedBackend::default();
    let compiled = backend.compile(sample(), vec![], &OPTIONS, &table());
    assert_eq!(compiled.partitions.len(), 1);
    assert_eq!(compiled.partitions[0].index, 0);
    let nodes = &compiled.partitions[0].nodes.nodes;
    assert_eq!(nodes.len(), 4);
    assert_eq!(nodes[0].ty, NodeType::Lever);
    assert_eq!(
        nodes[1].ty,
        NodeType::Comparator {
            mode: ComparatorMode::Subtract,
            far_input: NonMaxU8::new(6),
            facing_diode: true,
        }
    );
    assert_eq!(nodes[2].ty, NodeType::NoteBlock { noteblock_id: 0 });
    assert_eq!(nodes[3].ty, NodeType::NoteBlock { noteblock_id: 1 });
    assert!(nodes[0].powered && nodes[0].is_io && !nodes[0].locked);
    assert_eq!(nodes[0].output_power, 15);
    assert!(!nodes[1].powered && !nodes[1].is_io);
    assert!(nodes[3].locked);
    for node in nodes {
        assert!(!node.changed && !node.pending_tick);
    }
    assert_eq!(nodes[1].default_inputs.ss_counts[13], 1);
    assert_eq!(nodes[1].side_inputs.ss_counts[10], 1);
    assert_eq!(nodes[2].default_inputs.ss_counts[0], 1);
    assert_eq!(nodes[0].default_inputs.ss_counts, [0; 16]);
}

#[test]
fn links_are_lowered() {
    let mut backend = PartitionedBackend::default();
    let compiled = backend.compile(sample(), vec![], &OPTIONS, &table());
    let nodes = &compiled.partitions[0].nodes.nodes;
    let to = |index, side, ss| {
        PartitionForwardLink::new(NodeLocation::from(0, index), side, ss).inner()
    };
    assert_eq!(words(&nodes[0]), vec![to(1, true, 5), to(1, false, 2)]);
    assert_eq!(words(&nodes[1]), vec![to(2, false, 0), to(3, false, 14)]);
    assert!(words(&nodes[2]).is_empty());
    assert_eq!(
        compiled.stats,
        FinalGraphStats { update_link_count: 4, side_link_count: 1, default_link_count: 3 }
    );
}

#[test]
fn backend_knows_nodes_and_blocks() {
    let mut backend = PartitionedBackend::default();
    let compiled = backend.compile(sample(), vec![], &OPTIONS, &table());
    assert_eq!(backend.partitions.len(), 1);
    assert_eq!(backend.partitions[0].nodes.nodes.len(), 4);
    assert!(backend.partitions[0].events.is_empty());
    for (a, b) in
        backend.partitions[0].nodes.nodes.iter().zip(&compiled.partitions[0].nodes.nodes)
    {
        assert_eq!(a.ty, b.ty);
        assert_eq!(words(a), words(b));
        assert_eq!(a.default_inputs.ss_counts, b.default_inputs.ss_counts);
    }
    assert_eq!(backend.blocks.len(), 4);
    assert_eq!(backend.blocks.get(&(0, 2)), Some(&(pos(2), Block::from_id(&table(), 102))));
    assert_eq!(backend.blocks[&(0, 2)].1.powered, Some(false));
    assert_eq!(backend.blocks[&(0, 3)].1.powered, None);
    assert_eq!(
        backend.pos_map.get(&(3, -2, 7)),
        Some(&NodeLocation::from(0, 3))
    );
    assert_eq!(
        backend.noteblock_info,
        vec![(pos(2), Instrument { id: 3 }, 11), (pos(3), Instrument { id: 4 }, 12)]
    );
    assert!(compiled.dot.is_none());
}

#[test]
fn note_blocks_are_numbered_on() {
    let mut backend = PartitionedBackend::default();
    backend.compile(sample(), vec![], &OPTIONS, &table());
    let compiled = backend.compile(sample(), vec![], &OPTIONS, &table());
    let nodes = &compiled.partitions[0].nodes.nodes;
    assert_eq!(nodes[2].ty, NodeType::NoteBlock { noteblock_id: 2 });
    assert_eq!(backend.noteblock_info.len(), 4);
    assert_eq!(backend.blocks.len(), 4);
}

#[test]
fn pending_ticks_become_messages() {
    let mut backend = PartitionedBackend::default();
    let tick = |x, ticks_left, tick_priority| TickEntry {
        ticks_left,
        tick_priority,
        pos: pos(x),
    };
    let ticks = vec![
        tick(1, 4, TickPriority::High),
        tick(77, 1, TickPriority::Normal),
        tick(3, 2, TickPriority::Highest),
    ];
    let compiled = backend.compile(sample(), ticks, &OPTIONS, &table());
    assert_eq!(compiled.messages.len(), 2);
    assert_eq!(compiled.messages[0].partition, 0);
    assert!(matches!(
        compiled.messages[0].message,
        PartitionMessage::ScheduleTick {
            node_id: NodeId { id: 1 },
            delay: 4,
            priority: TickPriority::High,
        }
    ));
    assert!(matches!(
        compiled.messages[1].message,
        PartitionMessage::ScheduleTick {
            node_id: NodeId { id: 3 },
            delay: 2,
            priority: TickPriority::Highest,
        }
    ));
}

#[test]
fn a_position_with_two_blocks_leads_to_one_of_them() {
    let mut graph = sample();
    graph[NodeIndex::new(1)].block = Some((pos(0), 5));
    let mut backend = PartitionedBackend::default();
    backend.compile(graph, vec![], &OPTIONS, &table());
    assert_eq!(backend.pos_map.len(), 3);
    let found = backend.pos_map[&(0, -2, 7)];
    assert!(found == NodeLocation::from(0, 0) || found == NodeLocation::from(0, 1));
}

#[test]
fn large_graphs_are_split() {
    let mut graph: CompileGraph = StableGraph::default();
    let count = 32768 + 3;
    let nodes: Vec<NodeIndex> = (0..count)
        .map(|_| {
            let mut lamp = node(CNodeType::Lamp, 0);
            lamp.block = None;
            graph.add_node(lamp)
        })
        .collect();
    graph[nodes[0]].ty = CNodeType::Lever;
    graph[nodes[32770]].block = Some((pos(5), 1));
    graph.add_edge(nodes[0], nodes[32769], link(LinkType::Default, 1));
    let mut backend = PartitionedBackend::default();
    let compiled = backend.compile(graph, vec![], &OPTIONS, &table());
    let sizes: Vec<usize> =
        compiled.partitions.iter().map(|p| p.nodes.nodes.len()).collect();
    assert_eq!(sizes, vec![32768, 3]);
    assert_eq!(compiled.partitions[1].index, 1);
    assert_eq!(backend.pos_map[&(5, -2, 7)], NodeLocation::from(1, 2));
    assert_eq!(
        words(&compiled.partitions[0].nodes.nodes[0]),
        vec![PartitionForwardLink::new(NodeLocation::from(1, 1), false, 1).inner()]
    );
    assert_eq!(compiled.partitions[1].nodes.nodes[1].default_inputs.ss_counts[0], 1);
}

#[test]
fn empty_graph_has_no_partition() {
    let mut backend = PartitionedBackend::default();
    let compiled = backend.compile(StableGraph::default(), vec![], &OPTIONS, &table());
    assert!(compiled.partitions.is_empty());
    assert!(backend.partitions.is_empty());
    assert_eq!(
        compiled.stats,
        FinalGraphStats { update_link_count: 0, side_link_count: 0, default_link_count: 0 }
    );
}

#[test]
fn unlowerable_graphs_are_refused() {
    let refuses = |graph: CompileGraph| {
        let mut backend = PartitionedBackend::default();
        let refused = backend.try_compile(graph, vec![], &OPTIONS, &table()).is_none();
        assert!(!refused || backend.partitions.is_empty());
        refused
    };
    assert!(!refuses(sample()));

    let mut graph = sample();
    graph.add_node(node(CNodeType::Chain { delay: 1, facing_diode: false }, 9));
    assert!(refuses(graph));

    let mut graph = sample();
    graph.add_node(node(CNodeType::Torch { invert: false }, 9));
    assert!(refuses(graph));
    let mut graph = sample();
    graph.add_node(node(CNodeType::Torch { invert: true }, 9));
    assert!(!refuses(graph));

    let mut graph = sample();
    graph.add_node(node(
        CNodeType::Comparator {
            mode: ComparatorMode::Compare,
            far_input: Some(255),
            facing_diode: false,
        },
        9,
    ));
    assert!(refuses(graph));

    let mut graph = sample();
    graph[NodeIndex::new(2)].block = None;
    assert!(refuses(graph));

    let mut graph = sample();
    graph.add_edge(NodeIndex::new(1), NodeIndex::new(2), link(LinkType::Side, 15));
    assert!(refuses(graph));

    let mut graph = sample();
    graph[NodeIndex::new(0)].state.output_strength = 18;
    assert!(refuses(graph));

    let mut graph = sample();
    for _ in 0..254 {
        graph.add_edge(NodeIndex::new(0), NodeIndex::new(1), link(LinkType::Side, 0));
    }
    assert!(!refuses(graph.clone()));
    graph.add_edge(NodeIndex::new(0), NodeIndex::new(1), link(LinkType::Side, 0));
    assert!(refuses(graph));
}

#[test]
fn constants_are_counted_but_not_linked() {
    let mut graph: CompileGraph = StableGraph::default();
    let constant = graph.add_node(node(CNodeType::Constant, 0));
    graph[constant].state.output_strength = 9;
    let lamp = graph.add_node(node(CNodeType::Lamp, 1));
    graph.add_edge(constant, lamp, link(LinkType::Default, 20));
    graph.add_edge(constant, lamp, link(LinkType::Default, 4));
    let mut backend = PartitionedBackend::default();
    let compiled = backend.compile(graph, vec![], &OPTIONS, &table());
    let nodes = &compiled.partitions[0].nodes.nodes;
    assert!(words(&nodes[0]).is_empty());
    assert_eq!(nodes[1].default_inputs.ss_counts[0], 1);
    assert_eq!(nodes[1].default_inputs.ss_counts[5], 1);
}

#[test]
fn compiled_counts_follow_every_change() {
    let mut backend = PartitionedBackend::default();
    let mut compiled = backend.compile(sample(), vec![], &OPTIONS, &table());
    let partition = &mut compiled.partitions[0];
    for power in [3, 0, 15, 15, 7] {
        let set = PartitionMessage::SetNode {
            node_id: NodeId { id: 0 },
            powered: power > 0,
            new_power: power,
        };
        let Step::Deliver(sent) = partition.handle_message(set) else {
            panic!("a set node delivers changes");
        };
        for delivery in sent {
            let Delivery::Local(change) = delivery else {
                panic!("there is one partition");
            };
            let update = PartitionMessage::Update {
                node_id: change.node_id,
                side: change.side,
                old_power: change.old_power,
                new_power: change.new_power,
            };
            assert!(partition.can_handle(&update));
            assert!(matches!(
                partition.handle_message(update),
                Step::React(NodeId { id: 1 })
            ));
        }
        let mut behind = [0u8; 16];
        behind[power.saturating_sub(2) as usize] = 1;
        let mut side = [0u8; 16];
        side[power.saturating_sub(5) as usize] = 1;
        assert_eq!(partition.nodes.nodes[1].default_inputs.ss_counts, behind);
        assert_eq!(partition.nodes.nodes[1].side_inputs.ss_counts, side);
    }
}

#[test]
fn words_of_links_can_be_made_into_links() {
    let mut backend = PartitionedBackend::default();
    let compiled = backend.compile(sample(), vec![], &OPTIONS, &table());
    for word in words(&compiled.partitions[0].nodes.nodes[0]) {
        let link = PartitionForwardLink::from(ForwardLinkData::new(word));
        assert_eq!(link.node(), NodeLocation::from(0, 1));
    }
}

#[test]
fn links_lead_to_nodes_of_a_partition() {
    let mut backend = PartitionedBackend::default();
    let compiled = backend.compile(sample(), vec![], &OPTIONS, &table());
    let mut links = 0;
    for node in &compiled.partitions[0].nodes.nodes {
        for word in words(node) {
            let location = PartitionForwardLink::from(ForwardLinkData::new(word)).node();
            let nodes = &compiled.partitions[location.partition()].nodes.nodes;
            assert!(location.index().index() < nodes.len());
            links += 1;
        }
    }
    assert_eq!(links, 4);
}

#[test]
fn positions_lead_to_the_nodes_that_stand_there() {
    let mut backend = PartitionedBackend::default();
    backend.compile(sample(), vec![], &OPTIONS, &table());
    for x in 0..4 {
        assert_eq!(backend.inspect(pos(x)).unwrap().0, NodeLocation::from(0, x as usize));
    }
    assert!(backend.inspect(pos(4)).is_none());
}
