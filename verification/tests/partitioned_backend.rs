use petgraph::stable_graph::StableGraph;
use redpiler::backend::direct::node::{NodeId, NodeType as DNodeType, Nodes};
use redpiler::backend::direct::partitioned::backend::{PartitionedBackend, WorldEffect};
use redpiler::backend::direct::partitioned::partition::NodeLocation;
use redpiler::backend::direct::partitioned::{GlobalMessage, Partition, PartitionMessage, Sent};
use redpiler::backend::direct::Event;
use redpiler::compile_graph::{
    Annotations, CompileGraph, CompileLink, CompileNode, LinkType, NodeState, NodeType,
};
use redpiler::options::CompilerOptions;
use redpiler::world::{
    Block, BlockPos, BlockTable, ComparatorMode, Instrument, TickEntry, TickPriority,
};

/// The blocks 100 to 104 can be powered, 104 is a repeater and 106 a wire.
fn table() -> BlockTable {
    let blocks = (0..107)
        .map(|id| Block {
            id,
            powered: if (100..105).contains(&id) { Some(false) } else { None },
            power: if id == 106 { Some(0) } else { None },
            locked: if id == 104 { Some(false) } else { None },
        })
        .collect();
    BlockTable { blocks }
}

fn block(x: i32) -> Block {
    Block::from_id(&table(), 100 + x as u32)
}

fn pos(x: i32) -> BlockPos {
    BlockPos { x, y: 4, z: -5 }
}

fn node(ty: NodeType, x: i32) -> CompileNode {
    CompileNode {
        ty,
        block: Some((pos(x), 100 + x as u32)),
        state: NodeState { powered: false, repeater_locked: false, output_strength: 0 },
        is_input: false,
        is_output: false,
        annotations: Annotations {},
    }
}

/// One node of each kind that matters, with a link or two.
fn sample() -> PartitionedBackend {
    let mut graph: CompileGraph = StableGraph::default();
    let lever = graph.add_node(node(NodeType::Lever, 0));
    graph[lever].is_input = true;
    let button = graph.add_node(node(NodeType::Button, 1));
    let plate = graph.add_node(node(NodeType::PressurePlate, 2));
    let comparator = graph.add_node(node(
        NodeType::Comparator {
            mode: ComparatorMode::Compare,
            far_input: None,
            facing_diode: false,
        },
        3,
    ));
    graph[comparator].state.output_strength = 6;
    let repeater =
        graph.add_node(node(NodeType::Repeater { delay: 2, facing_diode: false }, 4));
    let note = NodeType::NoteBlock { instrument: Instrument { id: 8 }, note: 21 };
    let note = graph.add_node(node(note, 5));
    let mut wire = node(NodeType::Wire, 6);
    wire.block = None;
    graph.add_node(wire);
    graph.add_edge(lever, comparator, CompileLink { ty: LinkType::Side, ss: 4 });
    graph.add_edge(button, repeater, CompileLink { ty: LinkType::Default, ss: 0 });
    graph.add_edge(plate, note, CompileLink { ty: LinkType::Default, ss: 1 });
    let mut backend = PartitionedBackend::default();
    backend.compile(graph, vec![], &CompilerOptions { export_dot_graph: false }, &table());
    backend
}

fn set_node(sent: &Sent) -> (usize, u32, bool, u8) {
    match sent.message {
        PartitionMessage::SetNode { node_id, powered, new_power } => {
            (sent.partition, node_id.id, powered, new_power)
        }
        _ => panic!("not a set node message"),
    }
}

#[test]
fn lever_is_thrown() {
    let mut backend = sample();
    let sent = backend.on_use_block(pos(0)).unwrap();
    assert_eq!(sent.len(), 1);
    assert_eq!(set_node(&sent[0]), (0, 0, true, 15));
    backend.partitions[0].nodes.nodes[0].powered = true;
    let sent = backend.on_use_block(pos(0)).unwrap();
    assert_eq!(set_node(&sent[0]), (0, 0, false, 0));
}

#[test]
fn button_is_pressed_once() {
    let mut backend = sample();
    let sent = backend.on_use_block(pos(1)).unwrap();
    assert_eq!(sent.len(), 2);
    assert!(matches!(
        sent[0].message,
        PartitionMessage::ScheduleTick {
            node_id: NodeId { id: 1 },
            delay: 10,
            priority: TickPriority::Normal,
        }
    ));
    assert_eq!(set_node(&sent[1]), (0, 1, true, 15));
    backend.partitions[0].nodes.nodes[1].powered = true;
    assert!(backend.on_use_block(pos(1)).unwrap().is_empty());
}

#[test]
fn other_nodes_cannot_be_used() {
    let backend = sample();
    for x in 2..6 {
        assert!(backend.on_use_block(pos(x)).is_none());
    }
}

#[test]
fn pressure_plate_is_set() {
    let backend = sample();
    let sent = backend.set_pressure_plate(pos(2), true).unwrap();
    assert_eq!(sent.len(), 1);
    assert_eq!(set_node(&sent[0]), (0, 2, true, 15));
    let sent = backend.set_pressure_plate(pos(2), false).unwrap();
    assert_eq!(set_node(&sent[0]), (0, 2, false, 0));
    assert!(backend.set_pressure_plate(pos(0), true).is_none());
}

/// Lets partition 0 handle the messages, and the backend know what became of its nodes.
fn handle(backend: &mut PartitionedBackend, sent: Vec<Sent>) {
    let mut partition = Partition::new(0, backend.partitions[0].nodes.duplicate());
    for one in sent {
        assert_eq!(one.partition, 0);
        assert!(partition.can_handle(&one.message));
        partition.handle_message(one.message);
    }
    backend.take_tick_end(0, GlobalMessage::TickEnd(partition.nodes, vec![]));
}

#[test]
fn lever_thrown_twice_is_as_it_was() {
    let mut backend = sample();
    let sent = backend.on_use_block(pos(0)).unwrap();
    handle(&mut backend, sent);
    let lever = &backend.partitions[0].nodes.nodes[0];
    assert_eq!((lever.powered, lever.output_power, lever.changed), (true, 15, true));
    let sent = backend.on_use_block(pos(0)).unwrap();
    handle(&mut backend, sent);
    let lever = &backend.partitions[0].nodes.nodes[0];
    assert_eq!((lever.powered, lever.output_power, lever.changed), (false, 0, true));
}

#[test]
fn pressure_plate_has_the_state_it_was_set_to_last() {
    let mut backend = sample();
    for powered in [true, true, false] {
        let sent = backend.set_pressure_plate(pos(2), powered).unwrap();
        handle(&mut backend, sent);
        let plate = &backend.partitions[0].nodes.nodes[2];
        let power = if powered { 15 } else { 0 };
        assert_eq!((plate.powered, plate.output_power), (powered, power));
    }
}

#[test]
fn nodes_are_inspected_by_position() {
    let backend = sample();
    let (location, node) = backend.inspect(pos(4)).unwrap();
    assert_eq!(location, NodeLocation::from(0, 4));
    assert_eq!(node.ty, DNodeType::Repeater { delay: 2, facing_diode: false });
    assert!(backend.inspect(pos(6)).is_none());
}

#[test]
fn every_partition_is_ticked() {
    let backend = sample();
    assert_eq!(
        backend.tick(),
        vec![
            TickPriority::Highest,
            TickPriority::Higher,
            TickPriority::High,
            TickPriority::Normal,
        ]
    );
    let sent = backend.tick_with_priority(TickPriority::High);
    assert_eq!(sent.len(), 1);
    assert_eq!(sent[0].partition, 0);
    assert!(matches!(sent[0].message, PartitionMessage::Tick(TickPriority::High)));
    assert!(PartitionedBackend::default().tick_with_priority(TickPriority::High).is_empty());
}

#[test]
fn ticks_are_scheduled_across_partitions() {
    let sent =
        sample().cross_schedule_tick(NodeLocation::from(3, 9), 2, TickPriority::Highest);
    assert_eq!(sent.partition, 3);
    assert!(matches!(
        sent.message,
        PartitionMessage::ScheduleTick {
            node_id: NodeId { id: 9 },
            delay: 2,
            priority: TickPriority::Highest,
        }
    ));
}

fn change(backend: &mut PartitionedBackend, i: usize, power: u8) {
    let node = &mut backend.partitions[0].nodes.nodes[i];
    node.changed = true;
    node.powered = power > 0;
    node.output_power = power;
}

fn shown(x: i32, power: u8) -> WorldEffect {
    WorldEffect::SetBlock {
        pos: pos(x),
        block: Block { powered: Some(power > 0), ..block(x) },
    }
}

#[test]
fn changes_are_flushed_once() {
    let mut backend = sample();
    change(&mut backend, 4, 15);
    change(&mut backend, 0, 15);
    change(&mut backend, 6, 3);
    let effects = backend.flush(false);
    assert_eq!(effects, vec![shown(0, 15), shown(4, 15)]);
    assert_eq!(
        backend.blocks[&(0, 4)].1,
        Block { id: 104, powered: Some(true), power: None, locked: Some(false) }
    );
    assert_eq!(backend.blocks[&(0, 3)].1, block(3));
    assert!(!backend.partitions[0].nodes.nodes[4].changed);
    // a node without a block is never shown
    assert!(backend.partitions[0].nodes.nodes[6].changed);
    assert!(backend.flush(false).is_empty());
}

#[test]
fn only_inputs_and_outputs_are_flushed_on_demand() {
    let mut backend = sample();
    change(&mut backend, 4, 15);
    change(&mut backend, 0, 15);
    let effects = backend.flush(true);
    assert_eq!(effects, vec![shown(0, 15)]);
    assert!(!backend.partitions[0].nodes.nodes[4].changed);
    assert_eq!(backend.blocks[&(0, 4)].1, block(4));
}

#[test]
fn notes_are_played_before_blocks_are_set() {
    let mut backend = sample();
    change(&mut backend, 4, 1);
    let events = vec![
        Event::NoteBlockPlay { noteblock_id: 0 },
        Event::NoteBlockPlay { noteblock_id: 0 },
    ];
    backend.partitions[0].events = events;
    let note = WorldEffect::PlayNote { pos: pos(5), instrument: Instrument { id: 8 }, note: 21 };
    assert_eq!(backend.flush(false), vec![note, note, shown(4, 1)]);
    assert!(backend.partitions[0].events.is_empty());
}

#[test]
fn reset_gives_the_circuit_back() {
    let mut backend = sample();
    let (steps, mut partitions) = backend.reset(true);
    assert_eq!(steps.len(), 1);
    assert_eq!(partitions.len(), 1);
    assert_eq!(partitions[0].nodes.nodes.len(), 7);
    let entry = TickEntry { ticks_left: 3, tick_priority: TickPriority::High, pos: pos(4) };
    let (entries, expected) =
        partitions[0].wait_tick_entries(GlobalMessage::TickEntries(vec![entry]));
    assert_eq!((entries, expected), (vec![entry], true));
    let set = |x: i32| WorldEffect::SetBlock { pos: pos(x), block: block(x) };
    assert_eq!(
        steps[0].effects,
        vec![
            set(1),
            set(2),
            WorldEffect::SetComparator { pos: pos(3), output_strength: 6 },
            set(3),
            set(4),
            set(5),
        ]
    );
    let PartitionMessage::RequestTickEntries(blocks) = &steps[0].message else {
        panic!("the pending ticks are requested");
    };
    assert_eq!(blocks.len(), 7);
    assert_eq!(blocks[0], Some((pos(0), block(0))));
    assert_eq!(blocks[6], None);
    assert!(backend.partitions.is_empty());
    assert!(backend.blocks.is_empty());
    assert!(backend.pos_map.is_empty());
    assert!(backend.noteblock_info.is_empty());
}

#[test]
fn reset_of_everything_sets_comparators_only() {
    let mut backend = sample();
    let (steps, _) = backend.reset(false);
    assert_eq!(
        steps[0].effects,
        vec![WorldEffect::SetComparator { pos: pos(3), output_strength: 6 }]
    );
}

#[test]
fn answers_are_taken_if_they_can_be_true() {
    let mut backend = sample();
    let mut nodes = backend.partitions[0].nodes.duplicate();
    nodes.nodes[2].powered = true;
    let short = GlobalMessage::TickEnd(Nodes::new(vec![]), vec![]);
    assert!(!backend.can_take(0, &short));
    let unknown = GlobalMessage::TickEnd(
        nodes.duplicate(),
        vec![Event::NoteBlockPlay { noteblock_id: 1 }],
    );
    assert!(!backend.can_take(0, &unknown));
    let answer =
        GlobalMessage::TickEnd(nodes, vec![Event::NoteBlockPlay { noteblock_id: 0 }]);
    assert!(!backend.can_take(1, &answer));
    assert!(backend.can_take(0, &answer));
    assert!(backend.take_tick_end(0, answer));
    assert!(backend.partitions[0].nodes.nodes[2].powered);
    assert_eq!(backend.partitions[0].events.len(), 1);
    let other = GlobalMessage::TickEntries(vec![]);
    assert!(backend.can_take(0, &other));
    assert!(!backend.take_tick_end(0, other));
    assert!(backend.partitions[0].nodes.nodes[2].powered);
}

#[test]
fn circuit_is_drawn_as_a_dot_graph() {
    let mut backend = sample();
    backend.blocks.remove(&(0, 5));
    let expected = "digraph {
    p0n0 [ label = \"Lever\\n(0, 4, -5)\" ];
    p0n0 -> p0n3 [ label = \"4\",color=\"blue\" ];
    p0n1 [ label = \"Button\\n(1, 4, -5)\" ];
    p0n1 -> p0n4 [ label = \"0\" ];
    p0n2 [ label = \"PressurePlate\\n(2, 4, -5)\" ];
    p0n2 -> p0n5 [ label = \"1\" ];
    p0n3 [ label = \"Comparator(Cmp)\\n(3, 4, -5)\" ];
    p0n4 [ label = \"Repeater(2)\\n(4, 4, -5)\" ];
    p0n5 [ label = \"NoteBlock\\n(No Pos)\" ];
}
";
    assert_eq!(backend.to_dot(), expected);
}

#[test]
fn dot_graph_names_every_kind() {
    let mut graph: CompileGraph = StableGraph::default();
    let constant = graph.add_node(node(NodeType::Constant, -123));
    graph[constant].state.output_strength = 14;
    graph.add_node(node(NodeType::Torch { invert: true }, i32::MIN));
    graph.add_node(node(NodeType::Lamp, 1000));
    graph.add_node(node(NodeType::Trapdoor, 7));
    graph.add_node(node(
        NodeType::Comparator {
            mode: ComparatorMode::Subtract,
            far_input: None,
            facing_diode: false,
        },
        10,
    ));
    let mut backend = PartitionedBackend::default();
    let compiled =
        backend.compile(graph, vec![], &CompilerOptions { export_dot_graph: true }, &table());
    let expected = "digraph {
    p0n0 [ label = \"Constant(14)\\n(-123, 4, -5)\" ];
    p0n1 [ label = \"Torch\\n(-2147483648, 4, -5)\" ];
    p0n2 [ label = \"Lamp\\n(1000, 4, -5)\" ];
    p0n3 [ label = \"Trapdoor\\n(7, 4, -5)\" ];
    p0n4 [ label = \"Comparator(Sub)\\n(10, 4, -5)\" ];
}
";
    assert_eq!(compiled.dot.unwrap(), expected);
}

#[test]
fn empty_backend_draws_nothing() {
    assert_eq!(PartitionedBackend::default().to_dot(), "digraph {\n}\n");
}

#[test]
fn blocks_show_what_they_have_a_property_for() {
    let mut graph: CompileGraph = StableGraph::default();
    graph.add_node(node(NodeType::Wire, 6));
    graph.add_node(node(NodeType::Repeater { delay: 1, facing_diode: false }, 4));
    graph.add_node(node(NodeType::Lever, 0));
    graph.add_node(node(NodeType::Lamp, 5));
    let mut backend = PartitionedBackend::default();
    backend.compile(graph, vec![], &CompilerOptions { export_dot_graph: false }, &table());
    for i in 0..4 {
        change(&mut backend, i, 9);
        backend.partitions[0].nodes.nodes[i].locked = true;
    }
    let blocks: Vec<Block> = backend
        .flush(false)
        .iter()
        .map(|effect| match effect {
            WorldEffect::SetBlock { block, .. } => *block,
            _ => panic!("blocks are set"),
        })
        .collect();
    assert_eq!(
        blocks,
        vec![
            Block { id: 106, powered: None, power: Some(9), locked: None },
            Block { id: 104, powered: Some(true), power: None, locked: Some(true) },
            Block { id: 100, powered: Some(true), power: None, locked: None },
            Block { id: 105, powered: None, power: None, locked: None },
        ]
    );
}
