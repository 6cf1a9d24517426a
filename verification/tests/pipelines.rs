use redpiler::backend::gpu::pipelines::{
    buffer_group_entry, buffer_layout_entry, create_storage_buffer, store_initial, BindingKind,
    BufferId, BufferPlan, BufferUsage, Command, CommandCache, CommonStorage, CompilationData,
    ConstantStorage, GroupEntry, LayoutEntry, Pipeline, Pipelines, TickStorage,
};
use redpiler::backend::gpu::shader_types::{
    ForwardLink, NeighborInfo, NodeType, State, TickPriority, TypeInfo,
};

fn storage(id: BufferId, size: u64, copy_dst: bool, copy_src: bool) -> BufferPlan {
    BufferPlan {
        id,
        size,
        usage: BufferUsage {
            storage: true,
            uniform: false,
            copy_dst,
            copy_src,
            map_write: false,
            map_read: false,
        },
        mapped_at_creation: true,
    }
}

fn words(bytes: &[u8]) -> Vec<u32> {
    bytes
        .chunks(4)
        .map(|c| u32::from_ne_bytes([c[0], c[1], c[2], c[3]]))
        .collect()
}

#[test]
fn buffer_sizes_are_multiples_of_eight() {
    let sizes: Vec<u64> =
        (0..6).map(|count| Pipelines::create(count, 0).buffer_size).collect();
    assert_eq!(sizes, vec![8, 8, 8, 16, 16, 24]);
    let pipelines = Pipelines::create(3, 5);
    assert_eq!(pipelines.node_count, 3);
    assert_eq!(
        pipelines.constant_storage.neighbor_links,
        storage(BufferId::NeighborLinks, 24, false, false)
    );
}

#[test]
fn buffers_are_planned_for_their_use() {
    let pipelines = Pipelines::create(3, 0);
    assert_eq!(
        pipelines.constant_storage,
        ConstantStorage {
            types: storage(BufferId::Types, 16, false, false),
            neighbor_info: storage(BufferId::NeighborInfo, 16, false, false),
            neighbor_links: storage(BufferId::NeighborLinks, 8, false, false),
        }
    );
    assert_eq!(
        pipelines.common_storage,
        CommonStorage {
            states: storage(BufferId::States, 16, true, true),
            default_inputs_in: storage(BufferId::DefaultInputsIn, 256, true, false),
            side_inputs_in: storage(BufferId::SideInputsIn, 256, true, false),
            tick_delay_in: storage(BufferId::TickDelayIn, 64, true, false),
            tick_delay_out: storage(BufferId::TickDelayOut, 64, false, true),
        }
    );
    assert_eq!(
        pipelines.tick_storage.default_inputs_out,
        storage(BufferId::DefaultInputsOut, 256, false, true)
    );
    assert_eq!(
        pipelines.tick_storage.side_inputs_out,
        storage(BufferId::SideInputsOut, 256, false, true)
    );
    let priority = pipelines.tick_storage.tick_priority;
    assert_eq!(priority.size, 16);
    assert!(priority.usage.uniform && priority.usage.copy_dst && !priority.usage.storage);
    let cache = pipelines.tick_storage.tick_priorities_cache;
    assert_eq!(cache.size, 16);
    assert!(cache.usage.copy_src && !cache.usage.uniform && !cache.usage.copy_dst);
    let upload = pipelines.upload_buffer;
    assert!(upload.usage.map_write && upload.usage.copy_src && !upload.mapped_at_creation);
    assert!(!upload.usage.map_read && !upload.usage.copy_dst);
    let download = pipelines.download_buffer;
    assert!(download.usage.map_read && download.usage.copy_dst && !download.mapped_at_creation);
    assert_eq!((upload.size, download.size), (16, 16));
}

#[test]
fn sizes_that_cannot_be_told_are_refused() {
    assert!(Pipelines::is_plannable(0, 0));
    assert!(Pipelines::is_plannable(1 << 32, 1 << 40));
    assert!(!Pipelines::is_plannable(usize::MAX, 0));
    assert!(!Pipelines::is_plannable(0, u64::MAX / 4));
    assert!(!Pipelines::is_plannable(usize::MAX / 32, 0));
}

#[test]
fn layouts_match_the_bind_groups() {
    let entry = |binding, read_only| LayoutEntry {
        binding,
        kind: BindingKind::Storage { read_only },
    };
    assert_eq!(buffer_layout_entry(7, true), entry(7, true));
    assert_eq!(
        ConstantStorage::create_layout(),
        vec![entry(0, true), entry(1, true), entry(2, true)]
    );
    assert_eq!(
        CommonStorage::create_layout(),
        vec![entry(0, false), entry(1, true), entry(2, true), entry(3, true), entry(4, false)]
    );
    assert_eq!(
        TickStorage::create_layout(),
        vec![
            entry(0, false),
            entry(1, false),
            LayoutEntry { binding: 2, kind: BindingKind::Uniform },
        ]
    );
    let pipelines = Pipelines::create(1, 1);
    let bound = |binding, buffer| GroupEntry { binding, buffer };
    assert_eq!(
        buffer_group_entry(3, &create_storage_buffer(BufferId::States, 8, true, true)),
        bound(3, BufferId::States)
    );
    assert_eq!(
        pipelines.constant_storage.create_bind_group(),
        vec![
            bound(0, BufferId::Types),
            bound(1, BufferId::NeighborInfo),
            bound(2, BufferId::NeighborLinks),
        ]
    );
    assert_eq!(
        pipelines.common_storage.create_bind_group(),
        vec![
            bound(0, BufferId::States),
            bound(1, BufferId::DefaultInputsIn),
            bound(2, BufferId::SideInputsIn),
            bound(3, BufferId::TickDelayIn),
            bound(4, BufferId::TickDelayOut),
        ]
    );
    assert_eq!(
        pipelines.tick_storage.create_bind_group(),
        vec![
            bound(0, BufferId::DefaultInputsOut),
            bound(1, BufferId::SideInputsOut),
            bound(2, BufferId::TickPriority),
        ]
    );
}

#[test]
fn priorities_are_cached_at_their_own_place() {
    assert_eq!(words(&TickStorage::cached_priorities()), vec![0, 1, 2, 3]);
}

#[test]
fn stored_data_is_padded() {
    let buffer = create_storage_buffer(BufferId::States, 8, true, true);
    let upload = store_initial(&buffer, &[1, 2, 3]);
    assert_eq!(upload.buffer, BufferId::States);
    assert_eq!(upload.bytes, vec![1, 2, 3, 0xFF, 0xFF, 0xFF, 0xFF, 0xFF]);
    let upload = store_initial(&buffer, &[9; 8]);
    assert_eq!(upload.bytes, vec![9; 8]);
}

fn one_node() -> CompilationData {
    CompilationData {
        node_count: 1,
        types: vec![TypeInfo {
            ty: NodeType::Lever,
            data: 0,
            facing_diode: false,
            far_input: 0,
        }],
        neighbor_info: vec![NeighborInfo { count: 1, index: 0 }],
        neighbor_links: vec![ForwardLink { distance: 0, is_side: false, node_index: 0 }],
        states: vec![State { output_strength: 15, repeater_locked: false, changed: true }],
        default_inputs: vec![[7; 16]],
        side_inputs: vec![[8; 16]],
        tick_delay: vec![1, 2, 3, 0x0102_0304].into_boxed_slice(),
    }
}

#[test]
fn all_buffers_are_filled() {
    let pipelines = Pipelines::create(1, 1);
    let uploads = pipelines.upload_all(one_node());
    let none = u32::MAX;
    assert_eq!(words(&uploads[0].bytes), vec![5, none]);
    assert_eq!(words(&uploads[1].bytes), vec![1, none]);
    assert_eq!(words(&uploads[2].bytes), vec![0, none]);
    assert_eq!(words(&uploads[3].bytes), vec![15 | 1 << 9, none]);
    let mut inputs = vec![7; 16];
    inputs.extend(vec![none; 16]);
    assert_eq!(words(&uploads[4].bytes), inputs);
    assert_eq!(words(&uploads[8].bytes), inputs);
    let mut inputs = vec![8; 16];
    inputs.extend(vec![none; 16]);
    assert_eq!(words(&uploads[5].bytes), inputs);
    assert_eq!(words(&uploads[9].bytes), inputs);
    let delays = vec![1, 2, 3, 0x0102_0304, none, none, none, none];
    assert_eq!(words(&uploads[6].bytes), delays);
    assert_eq!(words(&uploads[7].bytes), delays);
    assert_eq!(words(&uploads[10].bytes), vec![0, none, none, none]);
    assert_eq!(uploads[10].buffer, BufferId::TickPriority);
    assert_eq!(uploads.len(), 11);
}

fn copy(from: BufferId, offset: u64, to: BufferId, size: u64) -> Command {
    Command::Copy { from, offset, to, size }
}

#[test]
fn tick_pass_fetches_its_priority_and_hands_on() {
    let pipelines = Pipelines::create(3, 0);
    let mut commands = vec![];
    pipelines.encode_tick_pass(&mut commands, TickPriority::High);
    assert_eq!(
        commands,
        vec![
            copy(BufferId::TickPrioritiesCache, 8, BufferId::TickPriority, 4),
            Command::Pass { pipeline: Pipeline::Tick, groups: 3, workgroups: Some(64) },
            copy(BufferId::DefaultInputsOut, 0, BufferId::DefaultInputsIn, 256),
            copy(BufferId::SideInputsOut, 0, BufferId::SideInputsIn, 256),
            copy(BufferId::TickDelayOut, 0, BufferId::TickDelayIn, 64),
        ]
    );
}

#[test]
fn update_pass_hands_on_delays() {
    let pipelines = Pipelines::create(3, 0);
    let mut commands = vec![];
    pipelines.encode_update_pass(&mut commands);
    assert_eq!(
        commands,
        vec![
            Command::Pass { pipeline: Pipeline::Update, groups: 2, workgroups: None },
            copy(BufferId::TickDelayOut, 0, BufferId::TickDelayIn, 64),
        ]
    );
}

#[test]
fn a_tick_runs_all_priorities_in_order() {
    let pipelines = Pipelines::create(3, 0);
    let mut expected = vec![];
    for priority in [
        TickPriority::Highest,
        TickPriority::Higher,
        TickPriority::High,
        TickPriority::Normal,
    ] {
        pipelines.encode_tick_pass(&mut expected, priority);
        pipelines.encode_update_pass(&mut expected);
    }
    assert_eq!(expected.len(), 28);
    assert_eq!(pipelines.create_command_buffer(0), vec![]);
    assert_eq!(pipelines.create_command_buffer(1), expected);
    let twice: Vec<Command> = [expected.clone(), expected.clone()].concat();
    assert_eq!(pipelines.create_command_buffer(2), twice);
}

#[test]
fn cache_gives_the_latest_buffer_first() {
    let mut cache: CommandCache<u32> = CommandCache::new();
    assert_eq!(cache.pop(), None);
    cache.push(1);
    cache.push(2);
    assert_eq!(cache.pop(), Some(2));
    assert_eq!(cache.pop(), Some(1));
    assert_eq!(cache.pop(), None);
}

#[test]
fn cache_is_filled_until_there_is_enough() {
    let mut cache: CommandCache<u32> = CommandCache::new();
    assert_eq!(cache.missing(), 10);
    for i in 0..10 {
        cache.push(i);
    }
    assert_eq!(cache.missing(), 10);
    cache.push(10);
    assert_eq!(cache.missing(), 0);
}

#[test]
fn copies_stay_inside_buffers_made_for_them() {
    let pipelines = Pipelines::create(3, 5);
    let buffers = [
        pipelines.common_storage.default_inputs_in,
        pipelines.common_storage.side_inputs_in,
        pipelines.common_storage.tick_delay_in,
        pipelines.common_storage.tick_delay_out,
        pipelines.tick_storage.default_inputs_out,
        pipelines.tick_storage.side_inputs_out,
        pipelines.tick_storage.tick_priority,
        pipelines.tick_storage.tick_priorities_cache,
    ];
    let find = |id: BufferId| buffers.iter().find(|plan| plan.id == id).unwrap();
    let mut copies = 0;
    for command in pipelines.create_command_buffer(2) {
        if let Command::Copy { from, offset, to, size } = command {
            assert!(find(from).usage.copy_src && find(to).usage.copy_dst);
            assert!(offset + size <= find(from).size && size <= find(to).size);
            assert_eq!((offset % 4, size % 4), (0, 0));
            copies += 1;
        }
    }
    assert_eq!(copies, 40);
}
