use petgraph::stable_graph::{NodeIndex, StableGraph};
use redpiler::backend::gpu::compile::{
    can_compile, compile, compile_node, count_links, type_info,
};
use redpiler::backend::gpu::pipelines::{BufferId, CompilationData};
use redpiler::backend::gpu::shader_types::{ForwardLink, NeighborInfo, NodeType, State, TypeInfo};
use redpiler::backend::gpu::GpuBackend;
use redpiler::compile_graph::NodeType as CNodeType;
use redpiler::compile_graph::{
    Annotations, CompileGraph, CompileLink, CompileNode, LinkType, NodeState,
};
use redpiler::options::CompilerOptions;
use redpiler::world::{
    Block, BlockPos, BlockTable, ComparatorMode, Instrument, TickEntry, TickPriority,
};

const OPTIONS: CompilerOptions = CompilerOptions { export_dot_graph: false };

/// Every other block can be powered.
fn table() -> BlockTable {
    let blocks = (0..200)
        .map(|id| Block {
            id,
            powered: if id % 2 == 0 { Some(false) } else { None },
            power: None,
            locked: None,
        })
        .collect();
    BlockTable { blocks }
}

fn pos(x: i32) -> BlockPos {
    BlockPos { x, y: 0, z: 0 }
}

fn node(ty: CNodeType, x: i32) -> CompileNode {
    CompileNode {
        ty,
        block: Some((pos(x), 100 + x as u32)),
        state: NodeState { powered: false, repeater_locked: false, output_strength: 0 },
        is_input: false,
        is_output: false,
        annotations: Annotations {},
    }
}

fn link(ty: LinkType, ss: u8) -> CompileLink {
    CompileLink { ty, ss }
}

fn tick(x: i32, ticks_left: u32, tick_priority: TickPriority) -> TickEntry {
    TickEntry { ticks_left, tick_priority, pos: pos(x) }
}

/// A lever that is on, a comparator that it feeds twice, and a repeater.
fn sample() -> CompileGraph {
    let mut graph: CompileGraph = StableGraph::default();
    let lever = graph.add_node(node(CNodeType::Lever, 0));
    graph[lever].state.powered = true;
    graph[lever].state.output_strength = 15;
    let comparator = graph.add_node(node(
        CNodeType::Comparator {
            mode: ComparatorMode::Subtract,
            far_input: None,
            facing_diode: true,
        },
        1,
    ));
    let repeater =
        graph.add_node(node(CNodeType::Repeater { delay: 3, facing_diode: false }, 2));
    graph[repeater].state.powered = true;
    graph[repeater].state.repeater_locked = true;
    graph.add_edge(lever, comparator, link(LinkType::Default, 2));
    graph.add_edge(lever, comparator, link(LinkType::Side, 5));
    graph.add_edge(comparator, repeater, link(LinkType::Default, 0));
    graph
}

#[test]
fn nodes_are_lowered_in_order() {
    let (data, _) = compile(sample(), vec![], &OPTIONS, &table());
    assert_eq!(data.node_count, 3);
    assert_eq!(
        data.types,
        vec![
            TypeInfo { ty: NodeType::Lever, data: 0, facing_diode: false, far_input: 0 },
            TypeInfo { ty: NodeType::Comparator, data: 1, facing_diode: true, far_input: 255 },
            TypeInfo { ty: NodeType::Repeater, data: 3, facing_diode: false, far_input: 0 },
        ]
    );
    assert_eq!(
        data.states,
        vec![
            State { output_strength: 15, repeater_locked: false, changed: false },
            State { output_strength: 0, repeater_locked: false, changed: false },
            State { output_strength: 15, repeater_locked: true, changed: false },
        ]
    );
}

#[test]
fn links_are_lowered_behind_each_other() {
    let (data, _) = compile(sample(), vec![], &OPTIONS, &table());
    assert_eq!(
        data.neighbor_info,
        vec![
            NeighborInfo { count: 2, index: 0 },
            NeighborInfo { count: 1, index: 2 },
            NeighborInfo { count: 0, index: 3 },
        ]
    );
    // links to the same node come latest first
    assert_eq!(
        data.neighbor_links,
        vec![
            ForwardLink { distance: 5, is_side: true, node_index: 1 },
            ForwardLink { distance: 2, is_side: false, node_index: 1 },
            ForwardLink { distance: 0, is_side: false, node_index: 2 },
        ]
    );
}

#[test]
fn inputs_are_counted_by_strength() {
    let (data, _) = compile(sample(), vec![], &OPTIONS, &table());
    let mut default_inputs = vec![[0u32; 16]; 3];
    default_inputs[1][13] = 1;
    default_inputs[2][0] = 1;
    let mut side_inputs = vec![[0u32; 16]; 3];
    side_inputs[1][10] = 1;
    assert_eq!(data.default_inputs, default_inputs);
    assert_eq!(data.side_inputs, side_inputs);
}

#[test]
fn lost_signals_count_as_zero() {
    let mut graph: CompileGraph = StableGraph::default();
    let lever = graph.add_node(node(CNodeType::Lever, 0));
    graph[lever].state.output_strength = 3;
    let lamp = graph.add_node(node(CNodeType::Lamp, 1));
    graph.add_edge(lever, lamp, link(LinkType::Default, 9));
    graph.add_edge(lever, lamp, link(LinkType::Default, 3));
    graph.add_edge(lever, lamp, link(LinkType::Default, 2));
    let (data, _) = compile(graph, vec![], &OPTIONS, &table());
    assert_eq!(data.default_inputs[1][0], 2);
    assert_eq!(data.default_inputs[1][1], 1);
}

#[test]
fn links_are_grouped_by_kind_and_sorted_by_target() {
    let mut graph: CompileGraph = StableGraph::default();
    let lever = graph.add_node(node(CNodeType::Lever, 0));
    let lamps: Vec<NodeIndex> =
        (1..4).map(|x| graph.add_node(node(CNodeType::Lamp, x))).collect();
    let doors: Vec<NodeIndex> =
        (4..7).map(|x| graph.add_node(node(CNodeType::Trapdoor, x))).collect();
    for target in [doors[1], lamps[2], lamps[0], doors[2], lamps[1], doors[0]] {
        graph.add_edge(lever, target, link(LinkType::Default, 0));
    }
    let (data, _) = compile(graph, vec![], &OPTIONS, &table());
    let targets: Vec<usize> = data.neighbor_links.iter().map(|l| l.node_index).collect();
    assert!(
        targets == vec![1, 2, 3, 4, 5, 6] || targets == vec![4, 5, 6, 1, 2, 3],
        "{:?}",
        targets
    );
}

#[test]
fn constants_have_no_links() {
    let mut graph: CompileGraph = StableGraph::default();
    let constant = graph.add_node(node(CNodeType::Constant, 0));
    graph[constant].state.output_strength = 7;
    let lamp = graph.add_node(node(CNodeType::Lamp, 1));
    for _ in 0..300 {
        graph.add_edge(constant, lamp, link(LinkType::Default, 1));
    }
    let (data, _) = compile(graph, vec![], &OPTIONS, &table());
    assert!(data.neighbor_links.is_empty());
    assert_eq!(data.neighbor_info[0], NeighborInfo { count: 0, index: 0 });
    assert_eq!(data.default_inputs[1][6], 300);
}

#[test]
fn removed_nodes_leave_no_gap() {
    let mut graph = sample();
    let extra = graph.add_node(node(CNodeType::Lamp, 3));
    graph.add_edge(NodeIndex::new(2), extra, link(LinkType::Default, 0));
    graph.remove_node(NodeIndex::new(1));
    let (data, info) = compile(graph, vec![], &OPTIONS, &table());
    assert_eq!(data.node_count, 3);
    assert_eq!(data.neighbor_links, vec![ForwardLink {
        distance: 0,
        is_side: false,
        node_index: 2
    }]);
    assert_eq!(info.pos_map.get(&(2, 0, 0)), Some(&1));
    assert_eq!(info.pos_map.get(&(3, 0, 0)), Some(&2));
    assert_eq!(info.pos_map.get(&(1, 0, 0)), None);
}

#[test]
fn blocks_are_found_by_position() {
    let mut graph = sample();
    graph[NodeIndex::new(1)].block = None;
    let again = graph.add_node(node(CNodeType::Lamp, 0));
    graph[again].block = Some((pos(0), 55));
    let (_, info) = compile(graph, vec![], &OPTIONS, &table());
    assert_eq!(
        info.blocks,
        vec![
            Some((pos(0), Block::from_id(&table(), 100))),
            None,
            Some((pos(2), Block::from_id(&table(), 102))),
            Some((pos(0), Block::from_id(&table(), 55))),
        ]
    );
    assert_eq!(info.blocks[0].unwrap().1.powered, Some(false));
    assert_eq!(
        info.blocks[3].unwrap().1,
        Block { id: 55, powered: None, power: None, locked: None }
    );
    // the last block at a position is the one that is found
    assert_eq!(info.pos_map.len(), 2);
    assert_eq!(info.pos_map.get(&(0, 0, 0)), Some(&3));
    assert_eq!(info.pos_map.get(&(2, 0, 0)), Some(&2));
}

#[test]
fn ticks_are_placed_by_priority() {
    let ticks = vec![
        tick(0, 4, TickPriority::Normal),
        tick(2, 2, TickPriority::Highest),
        tick(9, 7, TickPriority::High),
        tick(1, 3, TickPriority::Higher),
        tick(0, 1, TickPriority::High),
        tick(0, 6, TickPriority::Normal),
    ];
    let (data, _) = compile(sample(), ticks, &OPTIONS, &table());
    assert_eq!(data.tick_delay.to_vec(), vec![0, 0, 2, 0, 3, 0, 1, 0, 0, 6, 0, 0]);
}

#[test]
fn every_kind_is_lowered() {
    let plain = |ty| TypeInfo { ty, data: 0, facing_diode: false, far_input: 0 };
    assert_eq!(type_info(&CNodeType::Torch { invert: true }, 7), plain(NodeType::Torch));
    assert_eq!(type_info(&CNodeType::Lamp, 7), plain(NodeType::Lamp));
    assert_eq!(type_info(&CNodeType::Button, 7), plain(NodeType::Button));
    assert_eq!(type_info(&CNodeType::PressurePlate, 7), plain(NodeType::PressurePlate));
    assert_eq!(type_info(&CNodeType::Trapdoor, 7), plain(NodeType::Trapdoor));
    assert_eq!(type_info(&CNodeType::Wire, 7), plain(NodeType::Wire));
    assert_eq!(type_info(&CNodeType::Constant, 7), plain(NodeType::Constant));
    let note = CNodeType::NoteBlock { instrument: Instrument { id: 4 }, note: 12 };
    assert_eq!(
        type_info(&note, 7),
        TypeInfo { ty: NodeType::NoteBlock, data: 7, facing_diode: false, far_input: 0 }
    );
    assert_eq!(type_info(&note, 0), plain(NodeType::NoteBlock));
    let comparator = CNodeType::Comparator {
        mode: ComparatorMode::Compare,
        far_input: Some(6),
        facing_diode: false,
    };
    assert_eq!(
        type_info(&comparator, 7),
        TypeInfo { ty: NodeType::Comparator, data: 0, facing_diode: false, far_input: 6 }
    );
}

fn raw_sample() -> CompilationData {
    compile(sample(), vec![tick(1, 3, TickPriority::Highest)], &OPTIONS, &table()).0
}

#[test]
fn raw_data_is_packed_word_by_word() {
    let data = raw_sample();
    let states: Vec<u32> = data.states.iter().map(|s| s.as_packed()).collect();
    assert_eq!(data.get_raw_states().to_vec(), states);
    let raw = data.to_raw();
    assert_eq!(raw.types.to_vec(), vec![5, 2 | 1 << 8 | 1 << 16 | 255 << 17, 3 << 8]);
    assert_eq!(raw.neighbor_info.to_vec(), vec![2, 2 << 8 | 1, 3 << 8]);
    assert_eq!(
        raw.neighbor_links.to_vec(),
        vec![1 << 5 | 1 << 4 | 5, 1 << 5 | 2, 2 << 5]
    );
    assert_eq!(raw.states.to_vec(), vec![15, 0, 15 | 1 << 8]);
    assert_eq!(raw.default_inputs.len(), 48);
    assert_eq!(raw.default_inputs[16 + 13], 1);
    assert_eq!(raw.default_inputs[32], 1);
    assert_eq!(raw.default_inputs.iter().sum::<u32>(), 2);
    assert_eq!(raw.side_inputs[16 + 10], 1);
    assert_eq!(raw.side_inputs.iter().sum::<u32>(), 1);
    assert_eq!(raw.tick_delay.to_vec(), vec![0, 3, 0, 0, 0, 0, 0, 0, 0, 0, 0, 0]);
}

#[test]
fn graphs_are_checked() {
    assert!(can_compile(&sample(), &vec![tick(0, 4, TickPriority::Normal)]));

    let mut graph = sample();
    graph.add_node(node(CNodeType::Chain { delay: 1, facing_diode: false }, 7));
    assert!(!can_compile(&graph, &vec![]));

    let mut graph = sample();
    graph.add_node(node(CNodeType::Torch { invert: false }, 7));
    assert!(!can_compile(&graph, &vec![]));

    let mut graph = sample();
    graph[NodeIndex::new(0)].state.output_strength = 18;
    assert!(!can_compile(&graph, &vec![]));
    graph[NodeIndex::new(0)].state.output_strength = 17;
    assert!(can_compile(&graph, &vec![]));

    let mut graph = sample();
    for _ in 0..254 {
        graph.add_edge(NodeIndex::new(1), NodeIndex::new(2), link(LinkType::Default, 0));
    }
    assert!(can_compile(&graph, &vec![]));
    graph.add_edge(NodeIndex::new(1), NodeIndex::new(2), link(LinkType::Default, 0));
    assert!(!can_compile(&graph, &vec![]));
}

#[test]
fn links_are_counted() {
    let graph = sample();
    assert_eq!(count_links(&graph, &vec![0, 1, 2]), 3);
}

#[test]
fn backend_takes_on_a_circuit() {
    let mut backend = GpuBackend::create();
    assert!(backend.pipelines.is_none());
    assert!(backend.raw_states.is_empty());
    assert_eq!(backend.tick(), None);
    assert_eq!(backend.tickn(5), None);

    let uploads = backend.compile(sample(), vec![], &OPTIONS, &table());
    let ids: Vec<BufferId> = uploads.iter().map(|u| u.buffer).collect();
    assert_eq!(
        ids,
        vec![
            BufferId::Types,
            BufferId::NeighborInfo,
            BufferId::NeighborLinks,
            BufferId::States,
            BufferId::DefaultInputsIn,
            BufferId::SideInputsIn,
            BufferId::TickDelayIn,
            BufferId::TickDelayOut,
            BufferId::DefaultInputsOut,
            BufferId::SideInputsOut,
            BufferId::TickPriority,
        ]
    );
    assert_eq!(backend.raw_states.to_vec(), vec![15, 0, 15 | 1 << 8]);
    assert_eq!(backend.blocks.len(), 3);
    assert_eq!(backend.pos_map.len(), 3);
    assert_eq!(backend.pipelines.unwrap().buffer_size, 16);
    assert_eq!(backend.tick(), Some(1));
    assert_eq!(backend.tickn(5), Some(5));
}

#[test]
fn backend_refuses_what_it_cannot_run() {
    let mut backend = GpuBackend::create();
    let mut graph = sample();
    graph.add_node(node(CNodeType::Chain { delay: 1, facing_diode: false }, 7));
    assert!(backend.try_compile(graph, vec![], &OPTIONS, &table()).is_none());
    assert!(backend.pipelines.is_none());
    assert_eq!(backend.try_compile(sample(), vec![], &OPTIONS, &table()).unwrap().len(), 11);
    assert!(backend.pipelines.is_some());
}

#[test]
fn note_blocks_are_numbered() {
    let note = |x: i32| {
        node(CNodeType::NoteBlock { instrument: Instrument { id: 4 }, note: 12 }, x)
    };
    let mut graph = sample();
    graph.add_node(note(3));
    graph.add_node(node(CNodeType::Lamp, 4));
    graph.add_node(note(5));
    graph.add_node(note(6));
    let (data, _) = compile(graph, vec![], &OPTIONS, &table());
    let notes: Vec<u8> = data
        .types
        .iter()
        .filter(|info| info.ty == NodeType::NoteBlock)
        .map(|info| info.data)
        .collect();
    assert_eq!(notes, vec![0, 1, 2]);
    assert_eq!(data.types[4].data, 0);
    assert_eq!(data.types[2].data, 3);
}

#[test]
fn note_numbers_keep_what_a_byte_holds() {
    let mut graph: CompileGraph = StableGraph::default();
    for _ in 0..258 {
        graph.add_node(node(
            CNodeType::NoteBlock { instrument: Instrument { id: 4 }, note: 12 },
            3,
        ));
    }
    let (data, _) = compile(graph, vec![], &OPTIONS, &table());
    assert_eq!(data.types[255].data, 255);
    assert_eq!(data.types[256].data, 0);
    assert_eq!(data.types[257].data, 1);
}

#[test]
fn one_node_needs_the_places_of_its_targets_only() {
    let graph = sample();
    let mut places = rustc_hash::FxHashMap::default();
    places.insert(2u32, 9usize);
    let (mut types, mut infos, mut links) = (vec![], vec![], vec![]);
    let (mut states, mut defaults, mut sides) = (vec![], vec![], vec![]);
    compile_node(
        &graph,
        1,
        &places,
        &mut types,
        &mut infos,
        &mut links,
        &mut states,
        &mut defaults,
        &mut sides,
    );
    assert_eq!(links, vec![ForwardLink { distance: 0, is_side: false, node_index: 9 }]);
    assert_eq!(infos, vec![NeighborInfo { count: 1, index: 0 }]);
    assert_eq!(defaults[0][13], 1);
    assert_eq!(sides[0][10], 1);
}

#[test]
fn inputs_and_delays_start_alike_on_both_sides() {
    let mut backend = GpuBackend::create();
    let ticks = vec![tick(1, 3, TickPriority::Higher)];
    let uploads = backend.compile(sample(), ticks, &OPTIONS, &table());
    assert_eq!(uploads[4].bytes, uploads[8].bytes);
    assert_eq!(uploads[5].bytes, uploads[9].bytes);
    assert_eq!(uploads[6].bytes, uploads[7].bytes);
    let delays: Vec<u32> = uploads[7]
        .bytes
        .chunks(4)
        .map(|c| u32::from_ne_bytes([c[0], c[1], c[2], c[3]]))
        .collect();
    assert_eq!(delays[..12], [0, 0, 0, 0, 3, 0, 0, 0, 0, 0, 0, 0]);
    assert!(delays[12..].iter().all(|word| *word == u32::MAX));
}

#[test]
fn nodes_by_themselves_number_note_blocks_alike() {
    let note = |x: i32| {
        node(CNodeType::NoteBlock { instrument: Instrument { id: 4 }, note: 12 }, x)
    };
    let mut graph: CompileGraph = StableGraph::default();
    let gap = graph.add_node(note(0));
    let first = graph.add_node(note(1));
    graph.add_node(node(CNodeType::Lamp, 2));
    let second = graph.add_node(note(3));
    graph.remove_node(gap);
    let number = |idx: usize| {
        let places = rustc_hash::FxHashMap::default();
        let (mut types, mut infos, mut links) = (vec![], vec![], vec![]);
        let (mut states, mut defaults, mut sides) = (vec![], vec![], vec![]);
        compile_node(
            &graph,
            idx as u32,
            &places,
            &mut types,
            &mut infos,
            &mut links,
            &mut states,
            &mut defaults,
            &mut sides,
        );
        assert_eq!(types[0].ty, NodeType::NoteBlock);
        types[0].data
    };
    assert_eq!(number(second.index()), 1);
    assert_eq!(number(first.index()), 0);
}
