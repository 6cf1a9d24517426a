use petgraph::stable_graph::{NodeIndex, StableGraph};
use petgraph::visit::EdgeRef;
use petgraph::Direction;
use redpiler::compile_graph::{
    Annotations, CompileGraph, CompileLink, CompileNode, LinkType, NodeState, NodeType,
};
use redpiler::passes::chain_coalesce::{make_replacement, Chain, ChainBuilder, ChainCoalesce};
use redpiler::passes::RuntimeAction;
use redpiler::world::{BlockPos, TickPriority};
use std::collections::VecDeque;

const MAX_DELAY: usize = 64;

fn block(n: i32) -> (BlockPos, u32) {
    (BlockPos { x: n, y: 0, z: 0 }, n as u32)
}

fn node(ty: NodeType, n: i32) -> CompileNode {
    CompileNode {
        ty,
        block: Some(block(n)),
        state: NodeState { powered: false, repeater_locked: false, output_strength: 0 },
        is_input: false,
        is_output: false,
        annotations: Annotations {},
    }
}

fn repeater(delay: u8) -> NodeType {
    NodeType::Repeater { delay, facing_diode: false }
}

fn link() -> CompileLink {
    CompileLink { ty: LinkType::Default, ss: 0 }
}

/// A lever, the given components and a lamp, one behind the other.
fn row(types: &[NodeType]) -> CompileGraph {
    let mut graph: CompileGraph = StableGraph::default();
    let mut last = graph.add_node(node(NodeType::Lever, 0));
    for (i, ty) in types.iter().enumerate() {
        let next = graph.add_node(node(*ty, i as i32 + 1));
        graph.add_edge(last, next, link());
        last = next;
    }
    let lamp = graph.add_node(node(NodeType::Lamp, types.len() as i32 + 1));
    graph.add_edge(last, lamp, link());
    graph
}

fn edges(graph: &CompileGraph) -> Vec<(usize, usize)> {
    let mut list: Vec<(usize, usize)> = graph
        .edge_indices()
        .map(|edge| graph.edge_endpoints(edge).unwrap())
        .map(|(a, b)| (a.index(), b.index()))
        .collect();
    list.sort();
    list
}

fn types(graph: &CompileGraph) -> Vec<NodeType> {
    graph.node_indices().map(|idx| graph[idx].ty).collect()
}

#[test]
fn chain_with_torch_is_replaced() {
    let torch = NodeType::Torch { invert: true };
    let mut graph = row(&[repeater(1), repeater(2), torch, repeater(1)]);
    let mut actions = vec![];
    ChainCoalesce.run_pass(&mut graph, MAX_DELAY, &mut actions);
    assert_eq!(graph.node_count(), 9);
    assert_eq!(graph[NodeIndex::new(6)], CompileNode {
        ty: repeater(2),
        ..node(repeater(2), 1)
    });
    assert_eq!(graph[NodeIndex::new(7)].ty, torch);
    assert_eq!(graph[NodeIndex::new(7)].block, Some(block(2)));
    assert_eq!(
        graph[NodeIndex::new(8)].ty,
        NodeType::Chain { delay: 2, facing_diode: false }
    );
    assert_eq!(graph[NodeIndex::new(8)].block, Some(block(3)));
    for i in 1..5 {
        assert_eq!(graph[NodeIndex::new(i)].block, None);
    }
    assert_eq!(
        edges(&graph),
        vec![(0, 6), (1, 2), (2, 3), (3, 4), (4, 5), (6, 7), (7, 8), (8, 5)]
    );
    assert_eq!(
        actions,
        vec![
            RuntimeAction::Update(6),
            RuntimeAction::Tick(7, 3, TickPriority::Normal),
            RuntimeAction::BreakLink(4, 5),
        ]
    );
}

#[test]
fn chain_without_torch_is_replaced() {
    let facing = NodeType::Repeater { delay: 4, facing_diode: true };
    let mut graph = row(&[repeater(1), repeater(1), facing]);
    let mut actions = vec![RuntimeAction::Update(99)];
    ChainCoalesce.run_pass(&mut graph, MAX_DELAY, &mut actions);
    assert_eq!(graph[NodeIndex::new(5)].ty, facing);
    assert_eq!(
        graph[NodeIndex::new(6)].ty,
        NodeType::Chain { delay: 2, facing_diode: true }
    );
    assert_eq!(
        actions,
        vec![
            RuntimeAction::Update(99),
            RuntimeAction::Update(5),
            RuntimeAction::BreakLink(3, 6),
        ]
    );
}

#[test]
fn torches_alone_become_repeater_and_torch() {
    let torch = NodeType::Torch { invert: true };
    let mut graph = row(&[torch, torch, torch, torch]);
    let mut actions = vec![];
    ChainCoalesce.run_pass(&mut graph, MAX_DELAY, &mut actions);
    assert_eq!(graph[NodeIndex::new(6)].ty, repeater(1));
    assert_eq!(graph[NodeIndex::new(7)].ty, NodeType::Torch { invert: false });
    assert_eq!(
        graph[NodeIndex::new(8)].ty,
        NodeType::Chain { delay: 2, facing_diode: false }
    );
}

#[test]
fn replacement_keeps_delay_and_inversion() {
    let rows: [Vec<NodeType>; 4] = [
        vec![repeater(1), repeater(2), repeater(3), repeater(4)],
        vec![NodeType::Torch { invert: true }; 5],
        vec![repeater(4), NodeType::Torch { invert: true }, repeater(2), repeater(1)],
        vec![
            NodeType::Torch { invert: false },
            NodeType::Torch { invert: true },
            repeater(1),
            repeater(1),
        ],
    ];
    fn delay(ty: &NodeType) -> u32 {
        match ty {
            NodeType::Repeater { delay, .. } => *delay as u32,
            NodeType::Torch { .. } => 1,
            NodeType::Chain { delay, .. } => *delay as u32,
            _ => 0,
        }
    }
    fn inverts(types: &[NodeType]) -> bool {
        types.iter().filter(|ty| **ty == NodeType::Torch { invert: true }).count() % 2 == 1
    }
    for row_types in rows.iter() {
        let mut graph = row(row_types);
        let mut actions = vec![];
        ChainCoalesce.run_pass(&mut graph, MAX_DELAY, &mut actions);
        let new: Vec<NodeType> = types(&graph)[row_types.len() + 2..].to_vec();
        assert!(!new.is_empty() && new.len() < row_types.len());
        assert_eq!(
            new.iter().map(delay).sum::<u32>(),
            row_types.iter().map(delay).sum::<u32>()
        );
        assert_eq!(inverts(&new), inverts(row_types));
    }
}

#[test]
fn short_chain_stays() {
    let mut graph = row(&[repeater(1), repeater(1)]);
    let before = (types(&graph), edges(&graph));
    let mut actions = vec![];
    ChainCoalesce.run_pass(&mut graph, MAX_DELAY, &mut actions);
    assert_eq!((types(&graph), edges(&graph)), before);
    assert!(actions.is_empty());
}

#[test]
fn single_torch_stays() {
    let mut graph = row(&[NodeType::Torch { invert: true }]);
    let mut actions = vec![];
    ChainCoalesce.run_pass(&mut graph, MAX_DELAY, &mut actions);
    assert_eq!(graph.node_count(), 3);
    assert!(actions.is_empty());
}

#[test]
fn slow_chain_stays() {
    let mut graph = row(&[repeater(4), repeater(4), repeater(4)]);
    let mut actions = vec![];
    ChainCoalesce.run_pass(&mut graph, 11, &mut actions);
    assert_eq!(graph.node_count(), 5);
    assert!(actions.is_empty());
    ChainCoalesce.run_pass(&mut graph, 12, &mut actions);
    assert_eq!(graph.node_count(), 7);
    assert_eq!(actions.len(), 2);
}

#[test]
fn inputs_and_outputs_stay_out_of_chains() {
    let mut graph = row(&[repeater(1), repeater(1), repeater(1), repeater(1)]);
    graph[NodeIndex::new(2)].is_output = true;
    let mut builder = ChainBuilder::new();
    assert!(builder.identify_chains(&graph));
    let chains: Vec<Vec<u32>> =
        builder.chains.iter().map(|c| c.nodes.iter().copied().collect()).collect();
    assert_eq!(chains, vec![vec![1], vec![3, 4]]);
}

#[test]
fn side_links_end_chains() {
    let mut graph = row(&[repeater(1), repeater(1), repeater(1)]);
    let edge = graph.find_edge(NodeIndex::new(1), NodeIndex::new(2)).unwrap();
    graph[edge].ty = LinkType::Side;
    let mut builder = ChainBuilder::new();
    assert!(builder.identify_chains(&graph));
    let chains: Vec<Vec<u32>> =
        builder.chains.iter().map(|c| c.nodes.iter().copied().collect()).collect();
    assert_eq!(chains, vec![vec![1], vec![3]]);
}

#[test]
fn branches_end_chains() {
    let mut graph = row(&[repeater(1), repeater(1), repeater(1)]);
    let lamp = graph.add_node(node(NodeType::Lamp, 9));
    graph.add_edge(NodeIndex::new(2), lamp, link());
    let mut builder = ChainBuilder::new();
    assert!(builder.identify_chains(&graph));
    let chains: Vec<Vec<u32>> =
        builder.chains.iter().map(|c| c.nodes.iter().copied().collect()).collect();
    assert_eq!(chains, vec![vec![1, 2], vec![3]]);
}

#[test]
fn walk_is_put_in_front_of_the_chain_it_meets() {
    let mut graph: CompileGraph = StableGraph::default();
    let nodes: Vec<NodeIndex> =
        (0..4).map(|i| graph.add_node(node(repeater(1), i))).collect();
    let lever = graph.add_node(node(NodeType::Lever, 9));
    graph.add_edge(lever, nodes[3], link());
    for i in (0..3).rev() {
        graph.add_edge(nodes[i + 1], nodes[i], link());
    }
    let mut builder = ChainBuilder::new();
    assert!(builder.identify_chains(&graph));
    assert_eq!(builder.chains.len(), 1);
    let chain: Vec<u32> = builder.chains[0].nodes.iter().copied().collect();
    assert_eq!(chain, vec![3, 2, 1, 0]);
    let blocks: Vec<u32> = builder.chains[0].blocks.iter().map(|b| b.1).collect();
    assert_eq!(blocks, vec![3, 2, 1, 0]);
    for n in 0..4 {
        assert_eq!(builder.get_chain_index(n), Some(0));
    }
    assert_eq!(builder.get_chain_index(4), None);
}

#[test]
fn chains_end_at_their_limit() {
    let graph = row(&vec![repeater(1); 300]);
    let mut builder = ChainBuilder::new();
    assert!(builder.identify_chains(&graph));
    let lens: Vec<usize> = builder.chains.iter().map(|c| c.len()).collect();
    assert_eq!(lens, vec![255, 45]);
}

#[test]
fn found_chains_are_linked() {
    let graph = row(&vec![repeater(1); 40]);
    let mut builder = ChainBuilder::new();
    assert!(builder.identify_chains(&graph));
    for chain in &builder.chains {
        let list: Vec<u32> = chain.nodes.iter().copied().collect();
        for pair in list.windows(2) {
            let out: Vec<_> = graph
                .edges_directed(NodeIndex::new(pair[0] as usize), Direction::Outgoing)
                .collect();
            assert_eq!(out.len(), 1);
            assert_eq!(out[0].target().index() as u32, pair[1]);
            let into = graph
                .edges_directed(NodeIndex::new(pair[1] as usize), Direction::Incoming)
                .count();
            assert_eq!(into, 1);
        }
    }
}

#[test]
fn all_outputs_of_a_chain_are_taken_over() {
    let mut graph = row(&[repeater(2), repeater(1), repeater(1)]);
    let comparator = graph.add_node(node(NodeType::Wire, 9));
    graph.add_edge(NodeIndex::new(3), comparator, CompileLink { ty: LinkType::Side, ss: 7 });
    let mut actions = vec![];
    assert!(ChainCoalesce.try_run_pass(&mut graph, MAX_DELAY, &mut actions));
    let out: Vec<(usize, CompileLink)> = graph
        .edges_directed(NodeIndex::new(7), Direction::Outgoing)
        .map(|e| (e.target().index(), *e.weight()))
        .collect();
    assert_eq!(graph[NodeIndex::new(7)].ty, NodeType::Chain { delay: 2, facing_diode: false });
    assert_eq!(out.len(), 2);
    assert!(out.contains(&(4, link())));
    assert!(out.contains(&(5, CompileLink { ty: LinkType::Side, ss: 7 })));
    assert_eq!(graph.edges_directed(NodeIndex::new(1), Direction::Incoming).count(), 0);
}

#[test]
fn pass_does_not_run_without_blocks() {
    let mut graph = row(&[repeater(1), repeater(1), repeater(1)]);
    graph[NodeIndex::new(2)].block = None;
    let before = (types(&graph), edges(&graph));
    let mut actions = vec![];
    assert!(!ChainCoalesce.try_run_pass(&mut graph, MAX_DELAY, &mut actions));
    assert_eq!((types(&graph), edges(&graph)), before);
    assert!(actions.is_empty());
}

#[test]
fn pass_does_not_run_on_delays_it_cannot_count() {
    let mut graph = row(&[repeater(200), repeater(56)]);
    let mut actions = vec![];
    assert!(!ChainCoalesce.try_run_pass(&mut graph, MAX_DELAY, &mut actions));
    let mut graph = row(&[repeater(200), repeater(55)]);
    assert!(ChainCoalesce.try_run_pass(&mut graph, MAX_DELAY, &mut actions));
    assert_eq!(graph.node_count(), 4);
    assert!(actions.is_empty());
}

#[test]
fn chain_nodes_join_chains_without_delay() {
    let chain = NodeType::Chain { delay: 9, facing_diode: false };
    let mut graph = row(&[repeater(2), chain, repeater(1)]);
    let mut actions = vec![];
    ChainCoalesce.run_pass(&mut graph, MAX_DELAY, &mut actions);
    assert_eq!(graph[NodeIndex::new(5)].ty, repeater(2));
    assert_eq!(
        graph[NodeIndex::new(6)].ty,
        NodeType::Chain { delay: 1, facing_diode: false }
    );
}

#[test]
fn chain_is_pushed_to_both_ends() {
    let mut chain = Chain::new(4, block(4));
    chain.push_back(5, block(5));
    let mut front = Chain::new(1, block(1));
    front.push_back(2, block(2));
    chain.push_front(front);
    assert_eq!(chain.len(), 4);
    assert_eq!(chain.nodes, VecDeque::from(vec![1, 2, 4, 5]));
    assert_eq!(chain.blocks, VecDeque::from(vec![block(1), block(2), block(4), block(5)]));
}

#[test]
fn replacement_takes_blocks_in_order() {
    let blocks: VecDeque<(BlockPos, u32)> = VecDeque::from(vec![block(1), block(2)]);
    let nodes = make_replacement(9, true, 4, true, true, &blocks);
    assert_eq!(nodes.len(), 3);
    assert_eq!(nodes[0].ty, NodeType::Repeater { delay: 4, facing_diode: true });
    assert_eq!(nodes[1].ty, NodeType::Torch { invert: true });
    assert_eq!(nodes[2].ty, NodeType::Chain { delay: 4, facing_diode: true });
    assert_eq!(nodes[0].block, Some(block(1)));
    assert_eq!(nodes[1].block, Some(block(2)));
    assert_eq!(nodes[2].block, None);
    let nodes = make_replacement(4, false, 4, false, false, &blocks);
    assert_eq!(nodes.len(), 1);
    let nodes = make_replacement(5, false, 4, true, false, &blocks);
    assert_eq!(nodes.len(), 2);
}

#[test]
fn pass_names_itself() {
    assert_eq!(ChainCoalesce.status_message(), "Coalescing chains");
}

#[test]
fn chains_above_a_gap_are_found() {
    let mut graph = row(&[repeater(1), repeater(2), repeater(1), repeater(1), repeater(3)]);
    // a lever at 0 feeds the repeater at 5 over the gap
    for n in 1..5 {
        graph.remove_node(NodeIndex::new(n));
    }
    graph.remove_node(NodeIndex::new(6));
    graph.add_edge(NodeIndex::new(0), NodeIndex::new(5), link());
    assert_eq!(graph.node_count(), 2);
    let mut builder = ChainBuilder::new();
    assert!(builder.identify_chains(&graph));
    assert_eq!(builder.chains.len(), 1);
    assert_eq!(builder.get_chain_index(5), Some(0));
    assert_eq!(builder.get_chain_index(0), None);
}

#[test]
fn chains_above_a_gap_are_replaced() {
    let mut graph: CompileGraph = StableGraph::default();
    let spare: Vec<NodeIndex> =
        (0..6).map(|i| graph.add_node(node(NodeType::Wire, 50 + i))).collect();
    let mut last = graph.add_node(node(NodeType::Lever, 0));
    for i in 1..5 {
        let next = graph.add_node(node(repeater(2), i));
        graph.add_edge(last, next, link());
        last = next;
    }
    for n in spare {
        graph.remove_node(n);
    }
    let mut actions = vec![];
    assert!(ChainCoalesce.try_run_pass(&mut graph, MAX_DELAY, &mut actions));
    assert_eq!(graph.node_count(), 7);
    assert!(types(&graph).contains(&NodeType::Chain { delay: 6, facing_diode: false }));
    assert!(matches!(actions[1], RuntimeAction::BreakLink(10, 8)));
}

#[test]
fn chains_share_no_node() {
    let mut graph = row(&[
        repeater(1),
        repeater(1),
        NodeType::Torch { invert: true },
        NodeType::Wire,
        repeater(2),
        repeater(2),
    ]);
    // a branch ends the chain before it, and begins another
    let branch = graph.add_node(node(repeater(1), 20));
    graph.add_edge(NodeIndex::new(2), branch, link());
    let mut builder = ChainBuilder::new();
    assert!(builder.identify_chains(&graph));
    let mut held: Vec<u32> = vec![];
    for (k, chain) in builder.chains.iter().enumerate() {
        for n in &chain.nodes {
            assert_eq!(builder.get_chain_index(*n), Some(k));
            assert!(!held.contains(n));
            held.push(*n);
        }
    }
    held.sort();
    assert_eq!(held, vec![1, 2, 3, 5, 6, 8]);
}

#[test]
fn nodes_outside_chains_keep_blocks_and_inputs() {
    let mut graph = row(&[repeater(2), repeater(1), repeater(1)]);
    let wire = graph.add_node(node(NodeType::Wire, 9));
    let side = CompileLink { ty: LinkType::Side, ss: 3 };
    let edge = graph.add_edge(NodeIndex::new(0), wire, side);
    let lamp = NodeIndex::new(4);
    let into_lamp: Vec<_> =
        graph.edges_directed(lamp, Direction::Incoming).map(|e| e.id()).collect();
    let mut actions = vec![];
    assert!(ChainCoalesce.try_run_pass(&mut graph, MAX_DELAY, &mut actions));
    assert_eq!(graph[wire].block, Some(block(9)));
    assert_eq!(graph[lamp].block, Some(block(4)));
    assert_eq!(graph[NodeIndex::new(2)].block, None);
    assert_eq!(graph.edge_endpoints(edge), Some((NodeIndex::new(0), wire)));
    for id in into_lamp {
        assert_eq!(graph.edge_endpoints(id), Some((NodeIndex::new(3), lamp)));
    }
    // what else leads to the lamp comes from a new node
    let sources: Vec<usize> = graph
        .edges_directed(lamp, Direction::Incoming)
        .map(|e| e.source().index())
        .collect();
    assert_eq!(sources.len(), 2);
    assert!(sources.contains(&3) && sources.iter().any(|n| *n > 5));
}

/// A row of repeaters in which the indices of the first `late` are above those of the rest.
fn row_with_late_front(len: usize, late: usize) -> CompileGraph {
    let mut graph: CompileGraph = StableGraph::default();
    let rest: Vec<NodeIndex> =
        (late..len).map(|i| graph.add_node(node(repeater(1), i as i32))).collect();
    let mut all: Vec<NodeIndex> =
        (0..late).map(|i| graph.add_node(node(repeater(1), i as i32))).collect();
    all.extend(rest);
    let lever = graph.add_node(node(NodeType::Lever, -1));
    graph.add_edge(lever, all[0], link());
    for pair in all.windows(2) {
        graph.add_edge(pair[0], pair[1], link());
    }
    graph
}

#[test]
fn rows_of_full_length_are_one_chain() {
    let graph = row_with_late_front(255, 100);
    assert_eq!(graph.node_count(), 256);
    let mut builder = ChainBuilder::new();
    assert!(builder.identify_chains(&graph));
    assert_eq!(builder.chains.len(), 1);
    assert_eq!(builder.chains[0].nodes.len(), 255);
    let mut held: Vec<u32> = builder.chains[0].nodes.iter().copied().collect();
    held.sort();
    assert_eq!(held, (0..255).collect::<Vec<u32>>());
    for n in held {
        assert_eq!(builder.get_chain_index(n), Some(0));
    }
}

#[test]
fn rows_beyond_full_length_can_overlap() {
    let graph = row_with_late_front(256, 1);
    let mut builder = ChainBuilder::new();
    assert!(builder.identify_chains(&graph));
    let lens: Vec<usize> = builder.chains.iter().map(|chain| chain.nodes.len()).collect();
    assert_eq!(lens, vec![255, 255]);
}
