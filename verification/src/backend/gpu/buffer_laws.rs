//! What the words, buffers and commands of the device are, told number by number.

use vstd::prelude::*;

use crate::backend::gpu::compile::{law_compiled_circuit_fits, lemma_link_buffer_len};
use crate::backend::gpu::device_laws::{lemma_tells, tells};
use crate::backend::gpu::pipelines::{
    buffer_group_entry, buffer_layout_entry, bytes_of, create_storage_buffer, input_words,
    law_stored_data_fills_buffer, lemma_input_words_len, link_words, neighbor_words, state_words,
    store_initial, stores, type_words, BindingKind, BufferId, BufferPlan, BufferUsage, Command,
    CommandCache, CommonStorage, CompilationData, ConstantStorage, GroupEntry, LayoutEntry,
    Pipeline, Pipelines, RawCompilationData, TickStorage, Upload,
};
use crate::backend::gpu::shader_types::{
    law_forward_link_is_recoverable, ForwardLink, NeighborInfo, NodeType, State, TickPriority,
    TypeInfo,
};
use crate::backend::gpu::{can_run, runs, uploads_data, GpuBackend};
use crate::compile_graph::{CompileGraph, NodeIdx};
use crate::graph::{ascends, contents, lemma_ascends, lemma_ascends_unique};
use crate::options::CompilerOptions;
use crate::world::{BlockTable, TickEntry};

verus! {

/// The word of a state: from the bottom eight bits of output, one for the lock, one for a
/// change.
pub open spec fn state_word(state: State) -> int {
    state.output_strength + (if state.repeater_locked {
        256int
    } else {
        0
    }) + (if state.changed {
        512int
    } else {
        0
    })
}

/// The number that the shader knows a kind by.
pub open spec fn kind_code(ty: NodeType) -> int {
    if ty is Repeater {
        0
    } else if ty is Torch {
        1
    } else if ty is Comparator {
        2
    } else if ty is Lamp {
        3
    } else if ty is Button {
        4
    } else if ty is Lever {
        5
    } else if ty is PressurePlate {
        6
    } else if ty is Trapdoor {
        7
    } else if ty is Wire {
        8
    } else if ty is Constant {
        9
    } else {
        10
    }
}

/// The word of a kind: from the bottom eight bits of kind, eight of data, one for a diode, eight
/// of far input.
pub open spec fn type_word(info: TypeInfo) -> int {
    kind_code(info.ty) + info.data * 256 + (if info.facing_diode {
        65536int
    } else {
        0
    }) + info.far_input * 131072
}

/// The words of states are those of their parts, and states come back from them.
pub proof fn law_states_are_packed_part_by_part(state: State, word: u32, back: State)
    requires
        call_ensures(State::as_packed, (&state,), word),
        call_ensures(State::from_packed, (word,), back),
    ensures
        word == state_word(state),
        back == state,
{
}

/// What is read from the word of a state: the output from the low byte, the lock from the bit
/// above it, the change from the next.
pub proof fn law_states_are_read_part_by_part(word: u32, state: State)
    requires
        call_ensures(State::from_packed, (word,), state),
    ensures
        state.output_strength == word % 256,
        state.repeater_locked <==> word / 256 % 2 == 1,
        state.changed <==> word / 512 % 2 == 1,
{
}

/// The words of kinds are those of their parts.
pub proof fn law_kinds_are_packed_part_by_part(info: TypeInfo, word: u32)
    requires
        call_ensures(TypeInfo::as_packed, (&info,), word),
    ensures
        word == type_word(info),
{
}

/// The word of a link: from the bottom four bits of loss, one for the side, the place of the
/// node it leads to above them.
pub proof fn law_links_are_packed_part_by_part(link: ForwardLink, word: u32)
    requires
        link.distance < 16,
        link.node_index < 0x800_0000,
        call_ensures(ForwardLink::as_packed, (&link,), word),
    ensures
        word == link.node_index * 32 + (if link.is_side {
            16int
        } else {
            0
        }) + link.distance,
{
    law_forward_link_is_recoverable(link);
}

/// The word of a place among the links: how many in the low byte, from where on above it.
pub proof fn law_places_are_packed_part_by_part(info: NeighborInfo, word: u32)
    requires
        info.index < 0x100_0000,
        call_ensures(NeighborInfo::as_packed, (&info,), word),
    ensures
        word == info.index * 256 + info.count,
{
}

/// The words of some rows of inputs are those of the rows, one after the other.
proof fn lemma_input_word(rows: Seq<[u32; 16]>, i: int, ss: int)
    requires
        0 <= i < rows.len(),
        0 <= ss < 16,
    ensures
        input_words(rows).len() == 16 * rows.len(),
        input_words(rows)[16 * i + ss] == rows[i]@[ss],
    decreases rows.len(),
{
    lemma_input_words_len(rows);
    let f = |row: [u32; 16]| row@;
    let rest = rows.drop_last();
    lemma_input_words_len(rest);
    assert(rows.map_values(f) =~= rest.map_values(f).push(rows.last()@));
    rest.map_values(f).lemma_flatten_push(rows.last()@);
    if i < rest.len() {
        lemma_input_word(rest, i, ss);
    }
}

/// The words that the device is given are those of the circuit, part by part and in order.
pub proof fn law_raw_data_is_the_circuit(
    data: CompilationData,
    raw: RawCompilationData,
    i: int,
    ss: int,
)
    requires
        call_ensures(CompilationData::to_raw, (data,), raw),
        0 <= ss < 16,
    ensures
        raw.types@.len() == data.types@.len(),
        0 <= i < data.types@.len() ==> raw.types@[i] == type_word(data.types@[i]),
        raw.states@.len() == data.states@.len(),
        0 <= i < data.states@.len() ==> raw.states@[i] == state_word(data.states@[i]),
        raw.neighbor_info@.len() == data.neighbor_info@.len(),
        0 <= i < data.neighbor_info@.len() && data.neighbor_info@[i].index < 0x100_0000
            ==> raw.neighbor_info@[i] == data.neighbor_info@[i].index * 256
            + data.neighbor_info@[i].count,
        raw.neighbor_links@.len() == data.neighbor_links@.len(),
        0 <= i < data.neighbor_links@.len() && data.neighbor_links@[i].distance < 16
            && data.neighbor_links@[i].node_index < 0x800_0000 ==> raw.neighbor_links@[i]
            == data.neighbor_links@[i].node_index * 32 + (if data.neighbor_links@[i].is_side {
            16int
        } else {
            0
        }) + data.neighbor_links@[i].distance,
        raw.default_inputs@.len() == 16 * data.default_inputs@.len(),
        0 <= i < data.default_inputs@.len() ==> raw.default_inputs@[16 * i + ss]
            == data.default_inputs@[i]@[ss],
        raw.side_inputs@.len() == 16 * data.side_inputs@.len(),
        0 <= i < data.side_inputs@.len() ==> raw.side_inputs@[16 * i + ss]
            == data.side_inputs@[i]@[ss],
        raw.tick_delay@ == data.tick_delay@,
{
    lemma_input_words_len(data.default_inputs@);
    lemma_input_words_len(data.side_inputs@);
    if 0 <= i < data.default_inputs@.len() {
        lemma_input_word(data.default_inputs@, i, ss);
    }
    if 0 <= i < data.side_inputs@.len() {
        lemma_input_word(data.side_inputs@, i, ss);
    }
    if 0 <= i < data.neighbor_links@.len() && data.neighbor_links@[i].distance < 16
        && data.neighbor_links@[i].node_index < 0x800_0000 {
        law_forward_link_is_recoverable(
            data.neighbor_links@[i],
        );
    }
}

/// The words of the states are those of the states in order.
pub proof fn law_raw_states_are_the_states(data: CompilationData, words: Box<[u32]>, i: int)
    requires
        call_ensures(CompilationData::get_raw_states, (&data,), words),
        0 <= i < data.states@.len(),
    ensures
        words@.len() == data.states@.len(),
        words@[i] == state_word(data.states@[i]),
{
}

/// Whether `size` is the least multiple of eight, but zero, that holds `count` words.
pub open spec fn just_holds(size: u64, count: int) -> bool {
    &&& size % 8 == 0
    &&& size >= 8
    &&& size >= 4 * count
    &&& size == 8 || size < 4 * count + 8
}

/// Whether a storage buffer that can be written right away is planned, of a size, to be copied
/// to or from.
pub open spec fn is_storage(
    plan: BufferPlan,
    id: BufferId,
    size: int,
    copied_to: bool,
    copied_from: bool,
) -> bool {
    &&& plan.id == id
    &&& plan.size == size
    &&& plan.usage.storage && !plan.usage.uniform
    &&& plan.usage.copy_dst == copied_to
    &&& plan.usage.copy_src == copied_from
    &&& !plan.usage.map_read && !plan.usage.map_write
    &&& plan.mapped_at_creation
}

/// The buffers of a circuit: a word for each node and link, sixteen for the inputs of a node of
/// each type, four for its delays, the priority and all priorities, and a word for each node on
/// the way in and out.  A buffer can be copied to or from if what a pass writes into it or
/// reads from it has to be.
pub proof fn law_buffers_are_planned_for_the_circuit(
    nodes: usize,
    links: usize,
    pipelines: Pipelines,
)
    requires
        Pipelines::can_plan(nodes, links),
        call_ensures(Pipelines::create, (nodes, links), pipelines),
    ensures
        ({
            let size = pipelines.buffer_size;
            let constant = pipelines.constant_storage;
            let common = pipelines.common_storage;
            let tick = pipelines.tick_storage;
            &&& pipelines.node_count == nodes
            &&& just_holds(size, nodes as int)
            &&& is_storage(constant.types, BufferId::Types, size as int, false, false)
            &&& is_storage(constant.neighbor_info, BufferId::NeighborInfo, size as int, false, false)
            &&& just_holds(constant.neighbor_links.size, links as int)
            &&& is_storage(
                constant.neighbor_links,
                BufferId::NeighborLinks,
                constant.neighbor_links.size as int,
                false,
                false,
            )
            &&& is_storage(common.states, BufferId::States, size as int, true, true)
            &&& is_storage(
                common.default_inputs_in,
                BufferId::DefaultInputsIn,
                16 * size,
                true,
                false,
            )
            &&& is_storage(common.side_inputs_in, BufferId::SideInputsIn, 16 * size, true, false)
            &&& is_storage(common.tick_delay_in, BufferId::TickDelayIn, 4 * size, true, false)
            &&& is_storage(common.tick_delay_out, BufferId::TickDelayOut, 4 * size, false, true)
            &&& is_storage(
                tick.default_inputs_out,
                BufferId::DefaultInputsOut,
                16 * size,
                false,
                true,
            )
            &&& is_storage(tick.side_inputs_out, BufferId::SideInputsOut, 16 * size, false, true)
            &&& tick.tick_priority.id == BufferId::TickPriority
            &&& tick.tick_priority.size == 16 && tick.tick_priority.mapped_at_creation
            &&& tick.tick_priority.usage == (BufferUsage {
                storage: false,
                uniform: true,
                copy_dst: true,
                copy_src: false,
                map_write: false,
                map_read: false,
            })
            &&& tick.tick_priorities_cache.id == BufferId::TickPrioritiesCache
            &&& tick.tick_priorities_cache.size == 16
            &&& tick.tick_priorities_cache.mapped_at_creation
            &&& tick.tick_priorities_cache.usage == (BufferUsage {
                storage: false,
                uniform: false,
                copy_dst: false,
                copy_src: true,
                map_write: false,
                map_read: false,
            })
            &&& pipelines.upload_buffer.id == BufferId::Upload
            &&& pipelines.upload_buffer.size == size && !pipelines.upload_buffer.mapped_at_creation
            &&& pipelines.upload_buffer.usage == (BufferUsage {
                storage: false,
                uniform: false,
                copy_dst: false,
                copy_src: true,
                map_write: true,
                map_read: false,
            })
            &&& pipelines.download_buffer.id == BufferId::Download
            &&& pipelines.download_buffer.size == size
            &&& !pipelines.download_buffer.mapped_at_creation
            &&& pipelines.download_buffer.usage == (BufferUsage {
                storage: false,
                uniform: false,
                copy_dst: true,
                copy_src: false,
                map_write: false,
                map_read: true,
            })
        }),
{
}

/// Whether a layout entry is for a storage buffer at a binding, which is written or not.
pub open spec fn lays_out(entry: LayoutEntry, binding: int, written: bool) -> bool {
    entry.binding == binding && entry.kind is Storage && entry.kind->read_only == !written
}

/// Whether a group entry is for a buffer at a binding.
pub open spec fn binds(entry: GroupEntry, binding: int, buffer: BufferPlan) -> bool {
    entry.binding == binding && entry.buffer == buffer.id
}

/// The buffers are bound in the order in which the layouts have them.  Those that are written
/// are the states, the outgoing delays and the outgoing inputs; the priority is uniform.
pub proof fn law_buffers_are_bound_as_laid_out(
    pipelines: Pipelines,
    constant_layout: Vec<LayoutEntry>,
    constant: Vec<GroupEntry>,
    common_layout: Vec<LayoutEntry>,
    common: Vec<GroupEntry>,
    tick_layout: Vec<LayoutEntry>,
    tick: Vec<GroupEntry>,
)
    requires
        call_ensures(ConstantStorage::create_layout, (), constant_layout),
        call_ensures(
            ConstantStorage::create_bind_group,
            (&pipelines.constant_storage,),
            constant,
        ),
        call_ensures(CommonStorage::create_layout, (), common_layout),
        call_ensures(CommonStorage::create_bind_group, (&pipelines.common_storage,), common),
        call_ensures(TickStorage::create_layout, (), tick_layout),
        call_ensures(TickStorage::create_bind_group, (&pipelines.tick_storage,), tick),
    ensures
        constant_layout@.len() == 3 && constant@.len() == 3,
        lays_out(constant_layout@[0], 0, false) && binds(
            constant@[0],
            0,
            pipelines.constant_storage.types,
        ),
        lays_out(constant_layout@[1], 1, false) && binds(
            constant@[1],
            1,
            pipelines.constant_storage.neighbor_info,
        ),
        lays_out(constant_layout@[2], 2, false) && binds(
            constant@[2],
            2,
            pipelines.constant_storage.neighbor_links,
        ),
        common_layout@.len() == 5 && common@.len() == 5,
        lays_out(common_layout@[0], 0, true) && binds(
            common@[0],
            0,
            pipelines.common_storage.states,
        ),
        lays_out(common_layout@[1], 1, false) && binds(
            common@[1],
            1,
            pipelines.common_storage.default_inputs_in,
        ),
        lays_out(common_layout@[2], 2, false) && binds(
            common@[2],
            2,
            pipelines.common_storage.side_inputs_in,
        ),
        lays_out(common_layout@[3], 3, false) && binds(
            common@[3],
            3,
            pipelines.common_storage.tick_delay_in,
        ),
        lays_out(common_layout@[4], 4, true) && binds(
            common@[4],
            4,
            pipelines.common_storage.tick_delay_out,
        ),
        tick_layout@.len() == 3 && tick@.len() == 3,
        lays_out(tick_layout@[0], 0, true) && binds(
            tick@[0],
            0,
            pipelines.tick_storage.default_inputs_out,
        ),
        lays_out(tick_layout@[1], 1, true) && binds(
            tick@[1],
            1,
            pipelines.tick_storage.side_inputs_out,
        ),
        tick_layout@[2].binding == 2 && tick_layout@[2].kind is Uniform && binds(
            tick@[2],
            2,
            pipelines.tick_storage.tick_priority,
        ),
{
}

/// Whether a command copies so many bytes from a place in a buffer to the start of another.
pub open spec fn copies(
    command: Command,
    from: BufferPlan,
    offset: int,
    to: BufferPlan,
    size: int,
) -> bool {
    &&& command is Copy
    &&& command->from == from.id
    &&& command->offset == offset
    &&& command->to == to.id
    &&& command->size == size
}

/// Whether the seven commands from `at` on run a priority: its word is fetched, the tick
/// pipeline runs on 64 workgroups with all bind groups, what came out of it goes in; then the
/// update pipeline is set with the first two, and the delays go in again.
pub open spec fn runs_priority(
    pipelines: Pipelines,
    commands: Seq<Command>,
    at: int,
    priority: int,
) -> bool {
    let size = pipelines.buffer_size;
    let common = pipelines.common_storage;
    let tick = pipelines.tick_storage;
    &&& copies(commands[at], tick.tick_priorities_cache, 4 * priority, tick.tick_priority, 4)
    &&& commands[at + 1] == Command::Pass {
        pipeline: Pipeline::Tick,
        groups: 3,
        workgroups: Some(64),
    }
    &&& copies(commands[at + 2], tick.default_inputs_out, 0, common.default_inputs_in, 16 * size)
    &&& copies(commands[at + 3], tick.side_inputs_out, 0, common.side_inputs_in, 16 * size)
    &&& copies(commands[at + 4], common.tick_delay_out, 0, common.tick_delay_in, 4 * size)
    &&& commands[at + 5] == Command::Pass {
        pipeline: Pipeline::Update,
        groups: 2,
        workgroups: None,
    }
    &&& copies(commands[at + 6], common.tick_delay_out, 0, common.tick_delay_in, 4 * size)
}

proof fn lemma_commands(pipelines: Pipelines, count: nat, tick: int, priority: int)
    requires
        pipelines.wf(),
        0 <= tick < count,
        0 <= priority < 4,
    ensures
        pipelines.commands(count).len() == 28 * count,
        runs_priority(
            pipelines,
            pipelines.commands(count),
            28 * tick + 7 * priority,
            priority,
        ),
    decreases count,
{
    let rest = (count - 1) as nat;
    lemma_commands_len(pipelines, rest);
    let one = pipelines.tick_commands();
    let all = pipelines.commands(count);
    assert(all == pipelines.commands(rest) + one);
    assert(one.len() == 28);
    let at = 28 * tick + 7 * priority;
    if tick < rest {
        lemma_commands(pipelines, rest, tick, priority);
        assert(forall|k: int| 0 <= k < 7
            ==> all[#[trigger] (at + k)] == pipelines.commands(rest)[at + k]);
        assert(all[at] == pipelines.commands(rest)[at]);
        assert(all[at + 1] == pipelines.commands(rest)[at + 1]);
        assert(all[at + 2] == pipelines.commands(rest)[at + 2]);
        assert(all[at + 3] == pipelines.commands(rest)[at + 3]);
        assert(all[at + 4] == pipelines.commands(rest)[at + 4]);
        assert(all[at + 5] == pipelines.commands(rest)[at + 5]);
        assert(all[at + 6] == pipelines.commands(rest)[at + 6]);
    } else {
        assert(all[at] == one[7 * priority]);
        assert(all[at + 1] == one[7 * priority + 1]);
        assert(all[at + 2] == one[7 * priority + 2]);
        assert(all[at + 3] == one[7 * priority + 3]);
        assert(all[at + 4] == one[7 * priority + 4]);
        assert(all[at + 5] == one[7 * priority + 5]);
        assert(all[at + 6] == one[7 * priority + 6]);
        assert(priority == 0 || priority == 1 || priority == 2 || priority == 3);
    }
}

proof fn lemma_commands_len(pipelines: Pipelines, count: nat)
    ensures
        pipelines.commands(count).len() == 28 * count,
    decreases count,
{
    if count > 0 {
        lemma_commands_len(pipelines, (count - 1) as nat);
    }
}

/// The commands of some ticks run, for each tick, the four priorities, the highest first.
pub proof fn law_commands_run_all_priorities(
    pipelines: Pipelines,
    count: u64,
    commands: Vec<Command>,
    tick: int,
    priority: int,
)
    requires
        pipelines.wf(),
        call_ensures(Pipelines::create_command_buffer, (&pipelines, count), commands),
        0 <= tick < count,
        0 <= priority < 4,
    ensures
        commands@.len() == 28 * count,
        runs_priority(pipelines, commands@, 28 * tick + 7 * priority, priority),
{
    lemma_commands(pipelines, count as nat, tick, priority);
}

/// The numbers of the priorities: the higher it is, the lower.  Each is the word at its own
/// place among those to copy from.
pub proof fn law_priorities_are_numbered(priority: TickPriority, code: u32, bytes: Vec<u8>)
    requires
        call_ensures(TickPriority::code, (priority,), code),
        call_ensures(TickStorage::cached_priorities, (), bytes),
    ensures
        priority is Highest ==> code == 0,
        priority is Higher ==> code == 1,
        priority is High ==> code == 2,
        priority is Normal ==> code == 3,
        bytes_of(seq![0u32, 1u32, 2u32, 3u32], bytes@),
{
}

/// What is stored in a buffer at the start: the data, and then 0xFF up to the size.
pub proof fn law_rest_of_buffer_is_marked(buffer: BufferPlan, data: &[u8], upload: Upload, i: int)
    requires
        data@.len() <= buffer.size,
        call_ensures(store_initial, (&buffer, data), upload),
        0 <= i < buffer.size,
    ensures
        upload.buffer == buffer.id,
        upload.bytes@.len() == buffer.size,
        i < data@.len() ==> upload.bytes@[i] == data@[i],
        i >= data@.len() ==> upload.bytes@[i] == 0xFF,
{
}

/// Whether an upload fills a buffer with words, and with 0xFF up to its size.
pub open spec fn takes(upload: Upload, buffer: BufferPlan, words: Seq<int>) -> bool {
    &&& upload.buffer == buffer.id
    &&& upload.bytes@.len() == buffer.size
    &&& 4 * words.len() <= buffer.size
    &&& bytes_of(
        words.map_values(|word: int| word as u32),
        upload.bytes@.take(4 * words.len() as int),
    )
    &&& forall|i: int| 4 * words.len() <= i < buffer.size ==> #[trigger] upload.bytes@[i] == 0xFF
}

/// The words of some rows, one after the other.
pub open spec fn rows_in_turn(rows: Seq<[u32; 16]>) -> Seq<int> {
    Seq::new(16 * rows.len(), |k: int| rows[k / 16]@[k % 16] as int)
}

proof fn lemma_rows_in_turn(rows: Seq<[u32; 16]>)
    ensures
        input_words(rows) == rows_in_turn(rows).map_values(|word: int| word as u32),
{
    lemma_input_words_len(rows);
    let words = rows_in_turn(rows).map_values(|word: int| word as u32);
    assert forall|k: int| 0 <= k < words.len()
        implies input_words(rows)[k] == #[trigger] words[k] by {
        lemma_input_word(rows, k / 16, k % 16);
        assert(16 * (k / 16) + k % 16 == k);
    }
    assert(input_words(rows) =~= words);
}

/// A stored upload takes the buffer.
proof fn lemma_takes(upload: Upload, buffer: BufferPlan, words: Seq<u32>, numbers: Seq<int>)
    requires
        stores(upload, buffer, words),
        4 * words.len() <= buffer.size,
        words == numbers.map_values(|word: int| word as u32),
    ensures
        takes(upload, buffer, numbers),
{
    law_stored_data_fills_buffer(upload, buffer, words);
}

/// The device is given a circuit: each of its buffers, in turn, is filled with the words that
/// it is for, and the states are kept.
pub open spec fn is_given(
    backend: GpuBackend,
    data: CompilationData,
    uploads: Seq<Upload>,
) -> bool {
    let pipelines = backend.pipelines->0;
    let constant = pipelines.constant_storage;
    let common = pipelines.common_storage;
    let tick = pipelines.tick_storage;
    &&& backend.pipelines is Some
    &&& uploads.len() == 11
    &&& takes(
        uploads[0],
        constant.types,
        Seq::new(data.types@.len(), |i: int| type_word(data.types@[i])),
    )
    &&& takes(uploads[3], common.states, Seq::new(data.states@.len(), |i: int| state_word(data.states@[i])))
    &&& takes(uploads[4], common.default_inputs_in, rows_in_turn(data.default_inputs@))
    &&& takes(uploads[5], common.side_inputs_in, rows_in_turn(data.side_inputs@))
    &&& takes(uploads[6], common.tick_delay_in, data.tick_delay@.map_values(|w: u32| w as int))
    &&& takes(uploads[7], common.tick_delay_out, data.tick_delay@.map_values(|w: u32| w as int))
    &&& takes(uploads[8], tick.default_inputs_out, rows_in_turn(data.default_inputs@))
    &&& takes(uploads[9], tick.side_inputs_out, rows_in_turn(data.side_inputs@))
    &&& takes(uploads[10], tick.tick_priority, seq![0int])
    &&& uploads[1].buffer == constant.neighbor_info.id
    &&& uploads[2].buffer == constant.neighbor_links.id
    &&& (forall|i: int|
        0 <= i < data.neighbor_info@.len() ==> (#[trigger] data.neighbor_info@[i]).index
            < 0x100_0000) ==> takes(
        uploads[1],
        constant.neighbor_info,
        Seq::new(
            data.neighbor_info@.len(),
            |i: int| data.neighbor_info@[i].index * 256 + data.neighbor_info@[i].count,
        ),
    )
    &&& (forall|i: int|
        0 <= i < data.neighbor_links@.len() ==> (#[trigger] data.neighbor_links@[i]).distance < 16
            && data.neighbor_links@[i].node_index < 0x800_0000) ==> takes(
        uploads[2],
        constant.neighbor_links,
        Seq::new(
            data.neighbor_links@.len(),
            |i: int|
                data.neighbor_links@[i].node_index * 32 + (if data.neighbor_links@[i].is_side {
                    16int
                } else {
                    0
                }) + data.neighbor_links@[i].distance,
        ),
    )
    &&& backend.raw_states@.len() == data.states@.len()
    &&& forall|i: int|
        0 <= i < data.states@.len() ==> #[trigger] backend.raw_states@[i] == state_word(
            data.states@[i],
        )
}

/// What a call that compiles a circuit for the device hands over is the circuit, told component
/// by component, in the buffers that are planned for it.
pub proof fn law_device_is_given_the_circuit(
    backend: &mut GpuBackend,
    graph: CompileGraph,
    ticks: Vec<TickEntry>,
    options: CompilerOptions,
    table: BlockTable,
    uploads: Vec<Upload>,
    order: Seq<NodeIdx>,
)
    requires
        contents(graph).wf(),
        contents(graph).nodes.len() <= u32::MAX,
        ascends(contents(graph), order),
        can_run(contents(graph), ticks@),
        call_ensures(GpuBackend::compile, (backend, graph, ticks, &options, &table), uploads)
            || call_ensures(
            GpuBackend::try_compile,
            (backend, graph, ticks, &options, &table),
            Some(uploads),
        ),
    ensures
        exists|data: CompilationData| #[trigger]
            is_given(*final(backend), data, uploads@) && data.types@.len() == order.len() && forall|
                i: int,
            |
                0 <= i < order.len() ==> tells(contents(graph), order, data, i),
{
    let g = contents(graph);
    let (other, data) = choose|other: Seq<NodeIdx>, data: CompilationData|
        ascends(g, other) && #[trigger] runs(
            g,
            ticks@,
            other,
            data,
            table,
            *final(backend),
            uploads@,
        );
    lemma_ascends_unique(g, order, other);
    lemma_ascends(g, order);
    assert forall|i: int| 0 <= i < order.len() implies tells(g, order, data, i) by {
        lemma_tells(g, order, data, i);
    }
    let pipelines = final(backend).pipelines->0;
    assert(data.neighbor_links.len() == data.neighbor_links@.len());
    lemma_link_buffer_len(g, order, data);
    law_compiled_circuit_fits(
        g,
        order,
        data,
        table,
        final(backend).pos_map@,
        ticks@,
    );
    assert(pipelines.fits(data));
    assert(final(backend).raw_states@ == state_words(data.states@));
    lemma_given(*final(backend), data, uploads@);
}

/// The words that a circuit is uploaded as.
proof fn lemma_given(backend: GpuBackend, data: CompilationData, uploads: Seq<Upload>)
    requires
        backend.pipelines is Some,
        (backend.pipelines->0).fits(data),
        uploads_data(backend.pipelines->0, data, uploads),
        backend.raw_states@ == state_words(data.states@),
    ensures
        is_given(backend, data, uploads),
{
    let pipelines = backend.pipelines->0;
    lemma_input_words_len(data.default_inputs@);
    lemma_input_words_len(data.side_inputs@);
    lemma_rows_in_turn(data.default_inputs@);
    lemma_rows_in_turn(data.side_inputs@);
    let constant = pipelines.constant_storage;
    let common = pipelines.common_storage;
    let tick = pipelines.tick_storage;
    let as_word = |word: int| word as u32;
    let types = Seq::new(data.types@.len(), |i: int| type_word(data.types@[i]));
    assert(type_words(data.types@) =~= types.map_values(as_word));
    lemma_takes(uploads[0], constant.types, type_words(data.types@), types);
    let states = Seq::new(data.states@.len(), |i: int| state_word(data.states@[i]));
    assert(state_words(data.states@) =~= states.map_values(as_word));
    lemma_takes(uploads[3], common.states, state_words(data.states@), states);
    lemma_takes(
        uploads[4],
        common.default_inputs_in,
        input_words(data.default_inputs@),
        rows_in_turn(data.default_inputs@),
    );
    lemma_takes(
        uploads[5],
        common.side_inputs_in,
        input_words(data.side_inputs@),
        rows_in_turn(data.side_inputs@),
    );
    let waits = data.tick_delay@.map_values(|w: u32| w as int);
    assert(data.tick_delay@ =~= waits.map_values(as_word));
    lemma_takes(uploads[6], common.tick_delay_in, data.tick_delay@, waits);
    lemma_takes(uploads[7], common.tick_delay_out, data.tick_delay@, waits);
    lemma_takes(
        uploads[8],
        tick.default_inputs_out,
        input_words(data.default_inputs@),
        rows_in_turn(data.default_inputs@),
    );
    lemma_takes(
        uploads[9],
        tick.side_inputs_out,
        input_words(data.side_inputs@),
        rows_in_turn(data.side_inputs@),
    );
    assert(seq![0u32] =~= seq![0int].map_values(as_word));
    lemma_takes(uploads[10], tick.tick_priority, seq![0u32], seq![0int]);
    lemma_given_places(constant.neighbor_info, data, uploads[1]);
    lemma_given_links(constant.neighbor_links, data, uploads[2]);
}

/// The words of the places among the links.
proof fn lemma_given_places(buffer: BufferPlan, data: CompilationData, upload: Upload)
    requires
        4 * data.neighbor_info@.len() <= buffer.size,
        stores(upload, buffer, neighbor_words(data.neighbor_info@)),
    ensures
        (forall|i: int|
            0 <= i < data.neighbor_info@.len() ==> (#[trigger] data.neighbor_info@[i]).index
                < 0x100_0000) ==> takes(
            upload,
            buffer,
            Seq::new(
                data.neighbor_info@.len(),
                |i: int| data.neighbor_info@[i].index * 256 + data.neighbor_info@[i].count,
            ),
        ),
{
    let as_word = |word: int| word as u32;
    if forall|i: int|
        0 <= i < data.neighbor_info@.len() ==> (#[trigger] data.neighbor_info@[i]).index
            < 0x100_0000 {
        let numbers = Seq::new(
            data.neighbor_info@.len(),
            |i: int| data.neighbor_info@[i].index * 256 + data.neighbor_info@[i].count,
        );
        assert(neighbor_words(data.neighbor_info@) =~= numbers.map_values(as_word)) by {
            assert forall|i: int| 0 <= i < numbers.len() implies neighbor_words(
                data.neighbor_info@,
            )[i] == #[trigger] numbers.map_values(as_word)[i] by {
                assert(data.neighbor_info@[i].index < 0x100_0000);
            }
        }
        lemma_takes(
            upload,
            buffer,
            neighbor_words(data.neighbor_info@),
            numbers,
        );
    }
}

/// The words of the links.
proof fn lemma_given_links(buffer: BufferPlan, data: CompilationData, upload: Upload)
    requires
        4 * data.neighbor_links@.len() <= buffer.size,
        stores(upload, buffer, link_words(data.neighbor_links@)),
    ensures
        (forall|i: int|
            0 <= i < data.neighbor_links@.len() ==> (#[trigger] data.neighbor_links@[i]).distance
                < 16 && data.neighbor_links@[i].node_index < 0x800_0000) ==> takes(
            upload,
            buffer,
            Seq::new(
                data.neighbor_links@.len(),
                |i: int|
                    data.neighbor_links@[i].node_index * 32 + (if data.neighbor_links@[i].is_side {
                        16int
                    } else {
                        0
                    }) + data.neighbor_links@[i].distance,
            ),
        ),
{
    let as_word = |word: int| word as u32;
    if forall|i: int|
        0 <= i < data.neighbor_links@.len() ==> (#[trigger] data.neighbor_links@[i]).distance < 16
            && data.neighbor_links@[i].node_index < 0x800_0000 {
        let numbers = Seq::new(
            data.neighbor_links@.len(),
            |i: int|
                data.neighbor_links@[i].node_index * 32 + (if data.neighbor_links@[i].is_side {
                    16int
                } else {
                    0
                }) + data.neighbor_links@[i].distance,
        );
        assert(link_words(data.neighbor_links@) =~= numbers.map_values(as_word)) by {
            assert forall|i: int| 0 <= i < numbers.len() implies link_words(
                data.neighbor_links@,
            )[i] == #[trigger] numbers.map_values(as_word)[i] by {
                assert(data.neighbor_links@[i].distance < 16);
                law_forward_link_is_recoverable(
                    data.neighbor_links@[i],
                );
            }
        }
        lemma_takes(
            upload,
            buffer,
            link_words(data.neighbor_links@),
            numbers,
        );
    }
}

/// Ten command buffers are made where no more than ten are ready, else none; the one that was
/// added last is taken first.
pub proof fn law_command_buffers_are_kept_ready(
    cache: &mut CommandCache<u64>,
    missing: usize,
    other: &mut CommandCache<u64>,
    buffer: u64,
    emptied: &mut CommandCache<u64>,
    taken: Option<u64>,
)
    requires
        call_ensures(CommandCache::<u64>::missing, (&*old(cache),), missing),
        call_ensures(CommandCache::<u64>::push, (other, buffer), ()),
        *old(emptied) == *final(other),
        call_ensures(CommandCache::<u64>::pop, (emptied,), taken),
    ensures
        old(cache).cache@.len() > 10 ==> missing == 0,
        old(cache).cache@.len() <= 10 ==> missing == 10,
        taken == Some(buffer),
        final(emptied).cache@ == old(other).cache@,
{
    assert(old(other).cache@.push(buffer).drop_last() =~= old(other).cache@);
}

/// As many command buffers of one tick are submitted as ticks are to be run, if there is a
/// circuit.
pub proof fn law_ticks_are_submitted_one_by_one(
    backend: GpuBackend,
    one: Option<u64>,
    ticks: u64,
    several: Option<u64>,
)
    requires
        call_ensures(GpuBackend::tick, (&backend,), one),
        call_ensures(GpuBackend::tickn, (&backend, ticks), several),
    ensures
        backend.pipelines is Some ==> one == Some(1u64) && several == Some(ticks),
        backend.pipelines is None ==> one is None && several is None,
{
}

/// One tick pass takes the word of its priority, runs, and hands on what it has written; one
/// update pass runs and hands on the ticks.  What has been asked for before stays.
pub proof fn law_passes_hand_on_what_they_write(
    pipelines: Pipelines,
    ticks: &mut Vec<Command>,
    updates: &mut Vec<Command>,
    priority: TickPriority,
    code: u32,
    i: int,
)
    requires
        pipelines.wf(),
        call_ensures(TickPriority::code, (priority,), code),
        call_ensures(Pipelines::encode_tick_pass, (&pipelines, ticks, priority), ()),
        call_ensures(Pipelines::encode_update_pass, (&pipelines, updates), ()),
    ensures
        0 <= i < old(ticks)@.len() ==> final(ticks)@[i] == old(ticks)@[i],
        0 <= i < old(updates)@.len() ==> final(updates)@[i] == old(updates)@[i],
        final(ticks)@.len() == old(ticks)@.len() + 5,
        ({
            let at = old(ticks)@.len() as int;
            &&& final(ticks)@[at] == Command::Copy {
                from: pipelines.tick_storage.tick_priorities_cache.id,
                offset: (4 * code) as u64,
                to: pipelines.tick_storage.tick_priority.id,
                size: 4,
            }
            &&& final(ticks)@[at + 1] == Command::Pass {
                pipeline: Pipeline::Tick,
                groups: 3,
                workgroups: Some(64),
            }
            &&& final(ticks)@[at + 2] == Command::Copy {
                from: pipelines.tick_storage.default_inputs_out.id,
                offset: 0,
                to: pipelines.common_storage.default_inputs_in.id,
                size: (16 * pipelines.buffer_size) as u64,
            }
            &&& final(ticks)@[at + 3] == Command::Copy {
                from: pipelines.tick_storage.side_inputs_out.id,
                offset: 0,
                to: pipelines.common_storage.side_inputs_in.id,
                size: (16 * pipelines.buffer_size) as u64,
            }
            &&& final(ticks)@[at + 4] == Command::Copy {
                from: pipelines.common_storage.tick_delay_out.id,
                offset: 0,
                to: pipelines.common_storage.tick_delay_in.id,
                size: (4 * pipelines.buffer_size) as u64,
            }
        }),
        final(updates)@.len() == old(updates)@.len() + 2,
        ({
            let at = old(updates)@.len() as int;
            &&& final(updates)@[at] == Command::Pass {
                pipeline: Pipeline::Update,
                groups: 2,
                workgroups: None,
            }
            &&& final(updates)@[at + 1] == Command::Copy {
                from: pipelines.common_storage.tick_delay_out.id,
                offset: 0,
                to: pipelines.common_storage.tick_delay_in.id,
                size: (4 * pipelines.buffer_size) as u64,
            }
        }),
{
}

/// A storage buffer is one that shaders and, if asked for, copies can use, and is written first;
/// an entry of a layout or of a group is the one that is asked for.
pub proof fn law_buffers_are_made_as_asked_for(
    id: BufferId,
    size: u64,
    copy_dst: bool,
    copy_src: bool,
    plan: BufferPlan,
    binding: u32,
    read_only: bool,
    layout: LayoutEntry,
    group: GroupEntry,
)
    requires
        call_ensures(create_storage_buffer, (id, size, copy_dst, copy_src), plan),
        call_ensures(buffer_layout_entry, (binding, read_only), layout),
        call_ensures(buffer_group_entry, (binding, &plan), group),
    ensures
        plan.id == id && plan.size == size && plan.mapped_at_creation,
        plan.usage.storage && !plan.usage.uniform,
        plan.usage.copy_dst == copy_dst && plan.usage.copy_src == copy_src,
        !plan.usage.map_read && !plan.usage.map_write,
        layout.binding == binding,
        layout.kind == (BindingKind::Storage { read_only }),
        group.binding == binding && group.buffer == id,
{
}

/// A new backend has no circuit and knows no blocks.
pub proof fn law_new_device_backends_are_empty(backend: GpuBackend)
    requires
        call_ensures(GpuBackend::create, (), backend),
    ensures
        backend.pipelines is None,
        backend.raw_states@.len() == 0,
        backend.blocks@.len() == 0,
        forall|pos: (i32, i32, i32)| !#[trigger] backend.pos_map@.contains_key(pos),
{
}

/// No command buffer is ready at first, and none is taken while none is.
pub proof fn law_no_command_buffer_is_taken_before_it_is_made(
    new: CommandCache<u64>,
    cache: &mut CommandCache<u64>,
    taken: Option<u64>,
)
    requires
        call_ensures(CommandCache::<u64>::new, (), new),
        *old(cache) == new,
        call_ensures(CommandCache::<u64>::pop, (cache,), taken),
    ensures
        taken is None,
        final(cache).cache@.len() == 0,
{
}

} // verus!
