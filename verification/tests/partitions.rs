use petgraph::stable_graph::StableGraph;
use redpiler::backend::direct::node::{NodeId, Nodes};
use redpiler::backend::direct::partitioned::backend::PartitionedBackend;
use redpiler::backend::direct::partitioned::{
    Change, Delivery, GlobalMessage, Partition, PartitionInterface, PartitionMessage, Queues, Step,
};
use redpiler::backend::direct::Event;
use redpiler::compile_graph::{
    Annotations, CompileGraph, CompileLink, CompileNode, LinkType, NodeState, NodeType,
};
use redpiler::options::CompilerOptions;
use redpiler::world::{Block, BlockPos, BlockTable, TickEntry, TickPriority};

fn lamp() -> CompileNode {
    CompileNode {
        ty: NodeType::Lamp,
        block: None,
        state: NodeState { powered: false, repeater_locked: false, output_strength: 0 },
        is_input: false,
        is_output: false,
        annotations: Annotations {},
    }
}

/// A lever in partition 0 that feeds a lamp of its own and one of partition 1.
fn split() -> Vec<Partition> {
    let mut graph: CompileGraph = StableGraph::default();
    let count = 32768 + 2;
    let nodes: Vec<_> = (0..count).map(|_| graph.add_node(lamp())).collect();
    graph[nodes[0]].ty = NodeType::Lever;
    let link = |ty, ss| CompileLink { ty, ss };
    graph.add_edge(nodes[0], nodes[7], link(LinkType::Default, 3));
    graph.add_edge(nodes[0], nodes[32769], link(LinkType::Side, 0));
    graph.add_edge(nodes[0], nodes[8], link(LinkType::Default, 12));
    let mut backend = PartitionedBackend::default();
    backend
        .compile(
            graph,
            vec![],
            &CompilerOptions { export_dot_graph: false },
            &BlockTable { blocks: vec![] },
        )
        .partitions
}

fn id(id: u32) -> NodeId {
    NodeId { id }
}

#[test]
fn changes_go_to_where_links_lead() {
    let mut partitions = split();
    let sent = partitions[0].set_node(id(0), true, 10);
    assert_eq!(
        sent,
        vec![
            Delivery::Local(Change {
                node_id: id(7),
                side: false,
                old_power: 0,
                new_power: 7
            }),
            Delivery::Remote(
                1,
                Change { node_id: id(1), side: true, old_power: 0, new_power: 10 }
            ),
        ]
    );
    let node = &partitions[0].nodes.nodes[0];
    assert!(node.changed && node.powered);
    assert_eq!(node.output_power, 10);
}

#[test]
fn setting_back_takes_changes_back() {
    let mut partitions = split();
    let there = partitions[0].set_node(id(0), true, 15);
    let back = partitions[0].set_node(id(0), false, 0);
    assert_eq!(there.len(), 3);
    assert_eq!(back.len(), 3);
    let change = |delivery: &Delivery| match delivery {
        Delivery::Local(change) => (0, *change),
        Delivery::Remote(p, change) => (*p, *change),
    };
    for (a, b) in there.iter().zip(&back) {
        let ((p, a), (q, b)) = (change(a), change(b));
        assert_eq!((p, a.node_id, a.side), (q, b.node_id, b.side));
        assert_eq!((a.old_power, a.new_power), (b.new_power, b.old_power));
    }
    assert!(partitions[0].set_node(id(0), false, 0).is_empty());
}

#[test]
fn update_recounts_one_input() {
    let mut partitions = split();
    let partition = &mut partitions[1];
    assert_eq!(partition.nodes.nodes[1].side_inputs.ss_counts[0], 1);
    partition.update(id(1), true, 0, 9);
    let counts = partition.nodes.nodes[1].side_inputs.ss_counts;
    assert_eq!((counts[0], counts[9]), (0, 1));
    assert_eq!(counts.iter().map(|c| *c as u32).sum::<u32>(), 1);
    partition.update(id(1), true, 9, 0);
    let counts = partition.nodes.nodes[1].side_inputs.ss_counts;
    assert_eq!((counts[0], counts[9]), (1, 0));
    assert_eq!(partition.nodes.nodes[1].default_inputs.ss_counts, [0; 16]);
}

#[test]
fn messages_are_checked() {
    let partitions = split();
    let partition = &partitions[1];
    let update = |node, side, old_power, new_power| PartitionMessage::Update {
        node_id: id(node),
        side,
        old_power,
        new_power,
    };
    assert!(partition.can_handle(&update(1, true, 0, 15)));
    assert!(partition.can_handle(&update(1, true, 0, 0)));
    assert!(!partition.can_handle(&update(1, false, 0, 15)));
    assert!(!partition.can_handle(&update(1, true, 1, 0)));
    assert!(!partition.can_handle(&update(1, true, 0, 16)));
    assert!(!partition.can_handle(&update(2, true, 0, 1)));
    assert!(partition.can_handle(&PartitionMessage::Tick(TickPriority::High)));
    assert!(partition.can_handle(&PartitionMessage::RequestTickEntries(vec![])));
    let schedule = |node| PartitionMessage::ScheduleTick {
        node_id: id(node),
        delay: 1,
        priority: TickPriority::Normal,
    };
    assert!(partition.can_handle(&schedule(1)));
    assert!(!partition.can_handle(&schedule(2)));
    let set = |node| PartitionMessage::SetNode {
        node_id: id(node),
        powered: true,
        new_power: 1,
    };
    assert!(partition.can_handle(&set(0)));
    assert!(!partition.can_handle(&set(2)));
}

#[test]
fn ticks_begin_with_the_highest_and_end_with_normal() {
    let mut partitions = split();
    for (priority, first, last) in [
        (TickPriority::Highest, true, false),
        (TickPriority::Higher, false, false),
        (TickPriority::High, false, false),
        (TickPriority::Normal, false, true),
    ] {
        let step = partitions[0].handle_message(PartitionMessage::Tick(priority));
        let Step::Tick { priority: ran, begins, ends } = step else {
            panic!("a tick is a tick");
        };
        assert_eq!((ran, begins, ends), (priority, first, last));
    }
}

#[test]
fn scheduling_marks_the_node() {
    let mut partitions = split();
    let step = partitions[0].handle_message(PartitionMessage::ScheduleTick {
        node_id: id(5),
        delay: 3,
        priority: TickPriority::Higher,
    });
    assert!(matches!(
        step,
        Step::Schedule {
            node_id: NodeId { id: 5 },
            delay: 3,
            priority: TickPriority::Higher,
        }
    ));
    assert!(partitions[0].nodes.nodes[5].pending_tick);
    assert!(!partitions[0].nodes.nodes[4].pending_tick);
}

#[test]
fn requests_for_tick_entries_are_passed_on() {
    let mut partitions = split();
    let block = Block::from_id(&BlockTable { blocks: vec![] }, 4);
    let blocks = vec![None, Some((BlockPos { x: 1, y: 2, z: 3 }, block))];
    let step = partitions[0].handle_message(PartitionMessage::RequestTickEntries(blocks.clone()));
    let Step::ReportTickEntries(passed) = step else {
        panic!("a request is passed on");
    };
    assert_eq!(passed, blocks);
}

#[test]
fn queues_are_kept_for_a_tick() {
    let mut partition = Partition::new(4, Nodes::new(vec![]));
    assert_eq!(partition.index, 4);
    assert!(partition.tick_with_priority(TickPriority::High).is_empty());
    partition.start_tick(Queues {
        highest: vec![id(1)],
        higher: vec![],
        high: vec![id(2), id(3)],
        normal: vec![id(4)],
    });
    assert_eq!(partition.tick_with_priority(TickPriority::Highest), vec![id(1)]);
    assert!(partition.tick_with_priority(TickPriority::Higher).is_empty());
    assert_eq!(partition.tick_with_priority(TickPriority::High), vec![id(2), id(3)]);
    assert_eq!(partition.tick_with_priority(TickPriority::Normal), vec![id(4)]);
    let queues = partition.end_tick();
    assert_eq!(queues.high, vec![id(2), id(3)]);
    assert!(partition.tick_with_priority(TickPriority::High).is_empty());
}

#[test]
fn interface_takes_expected_answers_only() {
    let nodes = split().remove(1).nodes;
    let mut interface = PartitionInterface::new(Nodes::new(vec![]));
    let entry = TickEntry {
        ticks_left: 3,
        tick_priority: TickPriority::High,
        pos: BlockPos { x: 0, y: 0, z: 0 },
    };
    assert!(!interface.wait_tick_end(GlobalMessage::TickEntries(vec![entry])));
    assert!(interface.nodes.nodes.is_empty());
    let events = vec![Event::NoteBlockPlay { noteblock_id: 3 }];
    assert!(interface.wait_tick_end(GlobalMessage::TickEnd(nodes, events.clone())));
    assert_eq!(interface.nodes.nodes.len(), 2);
    assert_eq!(interface.events, events);

    let (entries, expected) = interface.wait_tick_entries(GlobalMessage::TickEntries(vec![entry]));
    assert_eq!((entries, expected), (vec![entry], true));
    let end = GlobalMessage::TickEnd(Nodes::new(vec![]), vec![]);
    let (entries, expected) = interface.wait_tick_entries(end);
    assert!(entries.is_empty() && !expected);
    assert_eq!(interface.nodes.nodes.len(), 2);

    interface.local_nodes().nodes[0].changed = true;
    assert!(interface.nodes.nodes[0].changed);
    interface.local_events().clear();
    assert!(interface.events.is_empty());
}

#[test]
fn ticks_are_answered_with_what_the_partition_holds() {
    let mut partition = split().remove(0);
    partition.set_node(id(0), true, 10);
    partition.events.push(Event::NoteBlockPlay { noteblock_id: 3 });
    partition.events.push(Event::NoteBlockPlay { noteblock_id: 1 });
    let GlobalMessage::TickEnd(nodes, events) = partition.tick_end() else {
        panic!("the end of a tick is expected");
    };
    assert_eq!(events, partition.events);
    assert_eq!(nodes.nodes.len(), 32768);
    assert_eq!(nodes.nodes[0].output_power, 10);
    assert!(nodes.nodes[0].powered && nodes.nodes[0].changed);
    assert!(!nodes.nodes[1].powered && !nodes.nodes[1].changed);

    let mut interface = PartitionInterface::new(Nodes::new(vec![]));
    assert!(interface.wait_tick_end(partition.tick_end()));
    assert_eq!(interface.nodes.nodes.len(), 32768);
    assert_eq!(interface.events, partition.events);
}

#[test]
fn changes_are_told_as_updates() {
    let change = Change { node_id: id(7), side: true, old_power: 4, new_power: 9 };
    let PartitionMessage::Update { node_id, side, old_power, new_power } = change.message() else {
        panic!("an update is expected");
    };
    assert_eq!((node_id, side, old_power, new_power), (id(7), true, 4, 9));
}
