//! The buffers of the device, what they hold at the start, and the commands of a tick.

use vstd::prelude::*;

use crate::backend::gpu::shader_types::{ForwardLink, NeighborInfo, State, TickPriority, TypeInfo};

verus! {

/// A compiled circuit.
#[derive(Debug)]
pub struct CompilationData {
    pub node_count: usize,
    pub types: Vec<TypeInfo>,
    pub neighbor_info: Vec<NeighborInfo>,
    pub neighbor_links: Vec<ForwardLink>,
    pub states: Vec<State>,
    pub default_inputs: Vec<[u32; 16]>,
    pub side_inputs: Vec<[u32; 16]>,
    pub tick_delay: Box<[u32]>,
}

/// A compiled circuit as the words that the device is given.
pub struct RawCompilationData {
    pub types: Box<[u32]>,
    pub neighbor_info: Box<[u32]>,
    pub neighbor_links: Box<[u32]>,
    pub states: Box<[u32]>,
    pub default_inputs: Box<[u32]>,
    pub side_inputs: Box<[u32]>,
    pub tick_delay: Box<[u32]>,
}

/// The words of some states.
pub open spec fn state_words(states: Seq<State>) -> Seq<u32> {
    states.map_values(|state: State| state.packed() as u32)
}

/// The words of some types.
pub open spec fn type_words(types: Seq<TypeInfo>) -> Seq<u32> {
    types.map_values(|info: TypeInfo| info.packed() as u32)
}

/// The words of some places in the link buffer.
pub open spec fn neighbor_words(infos: Seq<NeighborInfo>) -> Seq<u32> {
    infos.map_values(|info: NeighborInfo| info.packed() as u32)
}

/// The words of some links.
pub open spec fn link_words(links: Seq<ForwardLink>) -> Seq<u32> {
    links.map_values(|link: ForwardLink| link.packed())
}

/// The words of some rows of input counts, row by row.
pub open spec fn input_words(rows: Seq<[u32; 16]>) -> Seq<u32> {
    rows.map_values(|row: [u32; 16]| row@).flatten()
}

/// `Vec::into_boxed_slice`: the items stay as they are.
#[verifier::external_body]
pub(crate) fn boxed(words: Vec<u32>) -> (slice: Box<[u32]>)
    ensures
        slice@ == words@,
{
    words.into_boxed_slice()
}

/// The words of some rows of input counts, row by row.
fn flat(rows: &Vec<[u32; 16]>) -> (words: Vec<u32>)
    ensures
        words@ == input_words(rows@),
{
    let mut words: Vec<u32> = Vec::new();
    let ghost f = |row: [u32; 16]| row@;
    let mut i: usize = 0;
    assert(rows@.take(0).map_values(f) =~= Seq::empty());
    while i < rows.len()
        invariant
            i <= rows@.len(),
            f == (|row: [u32; 16]| row@),
            words@ == input_words(rows@.take(i as int)),
        decreases rows@.len() - i,
    {
        let row = &rows[i];
        let ghost before = words@;
        let mut j: usize = 0;
        assert(before + row@.take(0) =~= before);
        while j < 16
            invariant
                j <= 16,
                words@ == before + row@.take(j as int),
            decreases 16 - j,
        {
            words.push(row[j]);
            assert(row@.take(j as int).push(row@[j as int]) =~= row@.take(j + 1));
            j += 1;
        }
        proof {
            assert(row@.take(16) =~= row@);
            let done = rows@.take(i as int).map_values(f);
            done.lemma_flatten_push(row@);
            assert(rows@.take(i + 1).map_values(f) =~= done.push(row@));
        }
        i += 1;
    }
    assert(rows@.take(i as int) =~= rows@);
    words
}

impl CompilationData {
    /// The words that the device is given.
    pub fn to_raw(self) -> (raw: RawCompilationData)
        ensures
            raw.types@ == type_words(self.types@),
            raw.neighbor_info@ == neighbor_words(self.neighbor_info@),
            raw.neighbor_links@ == link_words(self.neighbor_links@),
            raw.states@ == state_words(self.states@),
            raw.default_inputs@ == input_words(self.default_inputs@),
            raw.side_inputs@ == input_words(self.side_inputs@),
            raw.tick_delay@ == self.tick_delay@,
    {
        let mut types_vec: Vec<u32> = Vec::new();
        let mut i: usize = 0;
        while i < self.types.len()
            invariant
                i <= self.types@.len(),
                types_vec@ == type_words(self.types@.take(i as int)),
            decreases self.types@.len() - i,
        {
            types_vec.push(self.types[i].as_packed());
            i += 1;
            assert(types_vec@ =~= type_words(self.types@.take(i as int)));
        }
        assert(self.types@.take(i as int) =~= self.types@);

        let mut neighbor_info_vec: Vec<u32> = Vec::new();
        let mut i: usize = 0;
        while i < self.neighbor_info.len()
            invariant
                i <= self.neighbor_info@.len(),
                neighbor_info_vec@ == neighbor_words(self.neighbor_info@.take(i as int)),
            decreases self.neighbor_info@.len() - i,
        {
            neighbor_info_vec.push(self.neighbor_info[i].as_packed());
            i += 1;
            assert(neighbor_info_vec@ =~= neighbor_words(self.neighbor_info@.take(i as int)));
        }
        assert(self.neighbor_info@.take(i as int) =~= self.neighbor_info@);

        let mut neighbor_links_vec: Vec<u32> = Vec::new();
        let mut i: usize = 0;
        while i < self.neighbor_links.len()
            invariant
                i <= self.neighbor_links@.len(),
                neighbor_links_vec@ == link_words(self.neighbor_links@.take(i as int)),
            decreases self.neighbor_links@.len() - i,
        {
            neighbor_links_vec.push(self.neighbor_links[i].as_packed());
            i += 1;
            assert(neighbor_links_vec@ =~= link_words(self.neighbor_links@.take(i as int)));
        }
        assert(self.neighbor_links@.take(i as int) =~= self.neighbor_links@);

        let default_inputs_vec = flat(&self.default_inputs);
        let side_inputs_vec = flat(&self.side_inputs);
        RawCompilationData {
            types: boxed(types_vec),
            neighbor_info: boxed(neighbor_info_vec),
            neighbor_links: boxed(neighbor_links_vec),
            states: self.get_raw_states(),
            default_inputs: boxed(default_inputs_vec),
            side_inputs: boxed(side_inputs_vec),
            tick_delay: self.tick_delay,
        }
    }

    /// The words of the states.
    pub fn get_raw_states(&self) -> (words: Box<[u32]>)
        ensures
            words@ == state_words(self.states@),
    {
        let mut states: Vec<u32> = Vec::new();
        let mut i: usize = 0;
        while i < self.states.len()
            invariant
                i <= self.states@.len(),
                states@ == state_words(self.states@.take(i as int)),
            decreases self.states@.len() - i,
        {
            states.push(self.states[i].as_packed());
            i += 1;
            assert(states@ =~= state_words(self.states@.take(i as int)));
        }
        assert(self.states@.take(i as int) =~= self.states@);
        boxed(states)
    }
}

/// The buffers of the device.
#[derive(Debug, Copy, Clone, PartialEq, Eq, Structural)]
pub enum BufferId {
    Types,
    NeighborInfo,
    NeighborLinks,
    States,
    DefaultInputsIn,
    SideInputsIn,
    TickDelayIn,
    TickDelayOut,
    DefaultInputsOut,
    SideInputsOut,
    TickPriority,
    TickPrioritiesCache,
    Upload,
    Download,
}

/// What a buffer is made for.
#[derive(Debug, Copy, Clone, PartialEq, Eq, Structural)]
pub struct BufferUsage {
    pub storage: bool,
    pub uniform: bool,
    pub copy_dst: bool,
    pub copy_src: bool,
    pub map_write: bool,
    pub map_read: bool,
}

/// A buffer to be made: its size in bytes, what it is for, and whether it can be written
/// right away.
#[derive(Debug, Copy, Clone, PartialEq, Eq, Structural)]
pub struct BufferPlan {
    pub id: BufferId,
    pub size: u64,
    pub usage: BufferUsage,
    pub mapped_at_creation: bool,
}

/// What the shader sees at a binding.
#[derive(Debug, Copy, Clone, PartialEq, Eq, Structural)]
pub enum BindingKind {
    Storage { read_only: bool },
    Uniform,
}

/// An entry of a layout.
#[derive(Debug, Copy, Clone, PartialEq, Eq, Structural)]
pub struct LayoutEntry {
    pub binding: u32,
    pub kind: BindingKind,
}

/// An entry of a bind group: a whole buffer.
#[derive(Debug, Copy, Clone, PartialEq, Eq, Structural)]
pub struct GroupEntry {
    pub binding: u32,
    pub buffer: BufferId,
}

/// A storage buffer that can be written right away.
pub open spec fn storage_plan(
    id: BufferId,
    size: int,
    copy_dst: bool,
    copy_src: bool,
) -> BufferPlan {
    BufferPlan {
        id,
        size: size as u64,
        usage: BufferUsage {
            storage: true,
            uniform: false,
            copy_dst,
            copy_src,
            map_write: false,
            map_read: false,
        },
        mapped_at_creation: true,
    }
}

/// A storage buffer that can be written right away.
pub fn create_storage_buffer(id: BufferId, size: u64, copy_dst: bool, copy_src: bool) -> (plan:
    BufferPlan)
    ensures
        plan == storage_plan(id, size as int, copy_dst, copy_src),
{
    let usage = BufferUsage {
        storage: true,
        uniform: false,
        copy_dst,
        copy_src,
        map_write: false,
        map_read: false,
    };
    BufferPlan { id, size, usage, mapped_at_creation: true }
}

/// A storage buffer in a layout.
pub open spec fn storage_entry(binding: u32, read_only: bool) -> LayoutEntry {
    LayoutEntry { binding, kind: BindingKind::Storage { read_only } }
}

/// A storage buffer in a layout.
pub fn buffer_layout_entry(binding: u32, read_only: bool) -> (entry: LayoutEntry)
    ensures
        entry == storage_entry(binding, read_only),
{
    LayoutEntry { binding, kind: BindingKind::Storage { read_only } }
}

/// A buffer in a bind group.
pub open spec fn bound(binding: u32, buffer: BufferId) -> GroupEntry {
    GroupEntry { binding, buffer }
}

/// A buffer in a bind group.
pub fn buffer_group_entry(binding: u32, buffer: &BufferPlan) -> (entry: GroupEntry)
    ensures
        entry == bound(binding, buffer.id),
{
    GroupEntry { binding, buffer: buffer.id }
}

/// The buffers that no pass writes.
#[derive(Debug, Copy, Clone, PartialEq, Eq, Structural)]
pub struct ConstantStorage {
    pub types: BufferPlan,
    pub neighbor_info: BufferPlan,
    pub neighbor_links: BufferPlan,
}

impl ConstantStorage {
    /// The buffers for nodes that take `size` bytes and links that take `link_size`.
    pub open spec fn planned(size: int, link_size: int) -> ConstantStorage {
        ConstantStorage {
            types: storage_plan(BufferId::Types, size, false, false),
            neighbor_info: storage_plan(BufferId::NeighborInfo, size, false, false),
            neighbor_links: storage_plan(BufferId::NeighborLinks, link_size, false, false),
        }
    }

    pub fn new(size: u64, link_buffer_size: u64) -> (storage: ConstantStorage)
        ensures
            storage == ConstantStorage::planned(size as int, link_buffer_size as int),
    {
        ConstantStorage {
            types: create_storage_buffer(BufferId::Types, size, false, false),
            neighbor_info: create_storage_buffer(BufferId::NeighborInfo, size, false, false),
            neighbor_links: create_storage_buffer(
                BufferId::NeighborLinks,
                link_buffer_size,
                false,
                false,
            ),
        }
    }

    /// All three are read only.
    pub fn create_layout() -> (layout: Vec<LayoutEntry>)
        ensures
            layout@ == seq![
                storage_entry(0, true),
                storage_entry(1, true),
                storage_entry(2, true),
            ],
    {
        vec![
            buffer_layout_entry(0, true),
            buffer_layout_entry(1, true),
            buffer_layout_entry(2, true),
        ]
    }

    /// The types, the places in the link buffer and the links.
    pub fn create_bind_group(&self) -> (group: Vec<GroupEntry>)
        ensures
            group@ == seq![
                bound(0, self.types.id),
                bound(1, self.neighbor_info.id),
                bound(2, self.neighbor_links.id),
            ],
    {
        vec![
            buffer_group_entry(0, &self.types),
            buffer_group_entry(1, &self.neighbor_info),
            buffer_group_entry(2, &self.neighbor_links),
        ]
    }
}

/// The buffers that both passes use.
#[derive(Debug, Copy, Clone, PartialEq, Eq, Structural)]
pub struct CommonStorage {
    pub states: BufferPlan,
    pub default_inputs_in: BufferPlan,
    pub side_inputs_in: BufferPlan,
    pub tick_delay_in: BufferPlan,
    pub tick_delay_out: BufferPlan,
}

impl CommonStorage {
    /// The buffers for nodes that take `size` bytes: sixteen words of inputs of each type
    /// and four delays for each.
    pub open spec fn planned(size: int) -> CommonStorage {
        CommonStorage {
            states: storage_plan(BufferId::States, size, true, true),
            default_inputs_in: storage_plan(BufferId::DefaultInputsIn, size * 16, true, false),
            side_inputs_in: storage_plan(BufferId::SideInputsIn, size * 16, true, false),
            tick_delay_in: storage_plan(BufferId::TickDelayIn, size * 4, true, false),
            tick_delay_out: storage_plan(BufferId::TickDelayOut, size * 4, false, true),
        }
    }

    pub fn new(size: u64) -> (storage: CommonStorage)
        requires
            size * 16 <= u64::MAX,
        ensures
            storage == CommonStorage::planned(size as int),
    {
        CommonStorage {
            states: create_storage_buffer(BufferId::States, size, true, true),
            default_inputs_in: create_storage_buffer(
                BufferId::DefaultInputsIn,
                size * 16,
                true,
                false,
            ),
            side_inputs_in: create_storage_buffer(BufferId::SideInputsIn, size * 16, true, false),
            tick_delay_in: create_storage_buffer(BufferId::TickDelayIn, size * 4, true, false),
            tick_delay_out: create_storage_buffer(BufferId::TickDelayOut, size * 4, false, true),
        }
    }

    /// The states and the outgoing delays are written.
    pub fn create_layout() -> (layout: Vec<LayoutEntry>)
        ensures
            layout@ == seq![
                storage_entry(0, false),
                storage_entry(1, true),
                storage_entry(2, true),
                storage_entry(3, true),
                storage_entry(4, false),
            ],
    {
        vec![
            buffer_layout_entry(0, false),
            buffer_layout_entry(1, true),
            buffer_layout_entry(2, true),
            buffer_layout_entry(3, true),
            buffer_layout_entry(4, false),
        ]
    }

    /// The states, the inputs of each type, and the delays before and after.
    pub fn create_bind_group(&self) -> (group: Vec<GroupEntry>)
        ensures
            group@ == seq![
                bound(0, self.states.id),
                bound(1, self.default_inputs_in.id),
                bound(2, self.side_inputs_in.id),
                bound(3, self.tick_delay_in.id),
                bound(4, self.tick_delay_out.id),
            ],
    {
        vec![
            buffer_group_entry(0, &self.states),
            buffer_group_entry(1, &self.default_inputs_in),
            buffer_group_entry(2, &self.side_inputs_in),
            buffer_group_entry(3, &self.tick_delay_in),
            buffer_group_entry(4, &self.tick_delay_out),
        ]
    }
}

/// The buffers that only the tick pass uses.
#[derive(Debug, Copy, Clone, PartialEq, Eq, Structural)]
pub struct TickStorage {
    pub default_inputs_out: BufferPlan,
    pub side_inputs_out: BufferPlan,
    pub tick_priority: BufferPlan,
    pub tick_priorities_cache: BufferPlan,
}

/// The priorities in the order of their numbers, each the word at its own number.
pub open spec fn priority_words() -> Seq<u32> {
    seq![
        TickPriority::Highest.number(),
        TickPriority::Higher.number(),
        TickPriority::High.number(),
        TickPriority::Normal.number(),
    ]
}

impl TickStorage {
    /// The buffers for nodes that take `size` bytes, and those for the priority of the
    /// pass: one word in a uniform buffer, and all four to copy from.
    pub open spec fn planned(size: int) -> TickStorage {
        TickStorage {
            default_inputs_out: storage_plan(BufferId::DefaultInputsOut, size * 16, false, true),
            side_inputs_out: storage_plan(BufferId::SideInputsOut, size * 16, false, true),
            tick_priority: BufferPlan {
                id: BufferId::TickPriority,
                size: 16,
                usage: BufferUsage {
                    storage: false,
                    uniform: true,
                    copy_dst: true,
                    copy_src: false,
                    map_write: false,
                    map_read: false,
                },
                mapped_at_creation: true,
            },
            tick_priorities_cache: BufferPlan {
                id: BufferId::TickPrioritiesCache,
                size: 16,
                usage: BufferUsage {
                    storage: false,
                    uniform: false,
                    copy_dst: false,
                    copy_src: true,
                    map_write: false,
                    map_read: false,
                },
                mapped_at_creation: true,
            },
        }
    }

    pub fn new(size: u64) -> (storage: TickStorage)
        requires
            size * 16 <= u64::MAX,
        ensures
            storage == TickStorage::planned(size as int),
    {
        TickStorage {
            default_inputs_out: create_storage_buffer(
                BufferId::DefaultInputsOut,
                size * 16,
                false,
                true,
            ),
            side_inputs_out: create_storage_buffer(BufferId::SideInputsOut, size * 16, false, true),
            tick_priority: BufferPlan {
                id: BufferId::TickPriority,
                size: 16,
                usage: BufferUsage {
                    storage: false,
                    uniform: true,
                    copy_dst: true,
                    copy_src: false,
                    map_write: false,
                    map_read: false,
                },
                mapped_at_creation: true,
            },
            tick_priorities_cache: BufferPlan {
                id: BufferId::TickPrioritiesCache,
                size: 16,
                usage: BufferUsage {
                    storage: false,
                    uniform: false,
                    copy_dst: false,
                    copy_src: true,
                    map_write: false,
                    map_read: false,
                },
                mapped_at_creation: true,
            },
        }
    }

    /// The inputs are written, the priority is uniform.
    pub fn create_layout() -> (layout: Vec<LayoutEntry>)
        ensures
            layout@ == seq![
                storage_entry(0, false),
                storage_entry(1, false),
                LayoutEntry { binding: 2, kind: BindingKind::Uniform },
            ],
    {
        vec![
            buffer_layout_entry(0, false),
            buffer_layout_entry(1, false),
            LayoutEntry { binding: 2, kind: BindingKind::Uniform },
        ]
    }

    /// The outgoing inputs of each type, and the priority.
    pub fn create_bind_group(&self) -> (group: Vec<GroupEntry>)
        ensures
            group@ == seq![
                bound(0, self.default_inputs_out.id),
                bound(1, self.side_inputs_out.id),
                bound(2, self.tick_priority.id),
            ],
    {
        vec![
            buffer_group_entry(0, &self.default_inputs_out),
            buffer_group_entry(1, &self.side_inputs_out),
            buffer_group_entry(2, &self.tick_priority),
        ]
    }

    /// What the buffer of all priorities holds.
    pub fn cached_priorities() -> (bytes: Vec<u8>)
        ensures
            bytes_of(priority_words(), bytes@),
    {
        let words: [u32; 4] = [
            TickPriority::Highest.code(),
            TickPriority::Higher.code(),
            TickPriority::High.code(),
            TickPriority::Normal.code(),
        ];
        assert(words@ =~= priority_words());
        let bytes = cast_slice(&words);
        copied(bytes)
    }
}

/// The byte of a word that stands `k` places above the lowest.
pub open spec fn byte(word: u32, k: int) -> u8 {
    if k == 0 {
        (word % 0x100) as u8
    } else if k == 1 {
        (word / 0x100 % 0x100) as u8
    } else if k == 2 {
        (word / 0x1_0000 % 0x100) as u8
    } else {
        (word / 0x100_0000) as u8
    }
}

/// Whether `bytes` are the bytes of `words`, in the byte order of the machine: the lowest
/// byte of each word first, or the highest.
pub open spec fn bytes_of(words: Seq<u32>, bytes: Seq<u8>) -> bool {
    ||| bytes == Seq::new(4 * words.len(), |i: int| byte(words[i / 4], i % 4))
    ||| bytes == Seq::new(4 * words.len(), |i: int| byte(words[i / 4], 3 - i % 4))
}

/// `bytemuck::cast_slice` from words to bytes: the bytes of each word, in the byte order
/// of the machine.
#[verifier::external_body]
fn cast_slice(words: &[u32]) -> (bytes: &[u8])
    ensures
        bytes_of(words@, bytes@),
{
    bytemuck::cast_slice(words)
}

/// The items of a slice.
fn copied(bytes: &[u8]) -> (vec: Vec<u8>)
    ensures
        vec@ == bytes@,
{
    let mut vec: Vec<u8> = Vec::new();
    let mut i: usize = 0;
    while i < bytes.len()
        invariant
            i <= bytes@.len(),
            vec@ == bytes@.take(i as int),
        decreases bytes@.len() - i,
    {
        vec.push(bytes[i]);
        i += 1;
        assert(vec@ =~= bytes@.take(i as int));
    }
    assert(bytes@.take(i as int) =~= bytes@);
    vec
}

/// What a buffer of `size` bytes is filled with when `data` is stored in it: the rest is
/// set to a value that tells the shader that there is nothing to operate on.
pub open spec fn padded(data: Seq<u8>, size: int) -> Seq<u8> {
    data + Seq::new((size - data.len()) as nat, |i: int| 0xFFu8)
}

/// What is stored in a buffer at the start.
#[derive(Debug)]
pub struct Upload {
    pub buffer: BufferId,
    pub bytes: Vec<u8>,
}

/// What is stored in a buffer at the start: the data, and up to its size the value that
/// tells the shader that there is nothing to operate on.
pub fn store_initial(buffer: &BufferPlan, data: &[u8]) -> (upload: Upload)
    requires
        data@.len() <= buffer.size,
    ensures
        upload.buffer == buffer.id,
        upload.bytes@ == padded(data@, buffer.size as int),
{
    let data_len: u64 = data.len() as u64;
    let mut vec = copied(data);
    let mut left: u64 = buffer.size - data_len;
    assert(vec@ =~= padded(data@, buffer.size - left));
    while left > 0
        invariant
            left <= buffer.size - data@.len(),
            vec@ == padded(data@, buffer.size - left),
        decreases left,
    {
        vec.push(0xFF);
        left -= 1;
        assert(vec@ =~= padded(data@, buffer.size - left));
    }
    Upload { buffer: buffer.id, bytes: vec }
}

/// Whether `upload` stores `words` in a buffer.
pub open spec fn stores(upload: Upload, buffer: BufferPlan, words: Seq<u32>) -> bool {
    upload.buffer == buffer.id && exists|bytes: Seq<u8>| #[trigger]
        bytes_of(words, bytes) && upload.bytes@ == padded(bytes, buffer.size as int)
}

/// Whether two uploads are the same bytes.
pub open spec fn same_bytes(one: Upload, other: Upload) -> bool {
    one.bytes@ == other.bytes@
}

/// What is stored in a buffer at the start.
fn store_words(buffer: &BufferPlan, words: &[u32]) -> (upload: Upload)
    requires
        4 * words@.len() <= buffer.size,
    ensures
        stores(upload, *buffer, words@),
{
    let bytes = cast_slice(words);
    store_initial(buffer, bytes)
}

/// The pipelines of the shader.
#[derive(Debug, Copy, Clone, PartialEq, Eq, Structural)]
pub enum Pipeline {
    Tick,
    Update,
}

/// A command to the device.
#[derive(Debug, Copy, Clone, PartialEq, Eq, Structural)]
pub enum Command {
    /// Copy bytes from a place in a buffer to the start of another.
    Copy { from: BufferId, offset: u64, to: BufferId, size: u64 },
    /// Run a pipeline in a pass of its own with the first `groups` bind groups, and, if
    /// any, with this many workgroups.
    Pass { pipeline: Pipeline, groups: u32, workgroups: Option<u32> },
}

/// The size in bytes of a buffer for `count` words: a multiple of eight, and not zero.
pub open spec fn padded_size(count: int) -> int {
    if count == 0 {
        8
    } else {
        (4 * count + 7) / 8 * 8
    }
}

/// The size in bytes of a buffer for `count` words.
fn pad(count: usize) -> (size: u64)
    requires
        4 * count <= usize::MAX,
        4 * count + 7 <= u64::MAX,
    ensures
        size == padded_size(count as int),
{
    let unpadded_size: u64 = (count * 4) as u64;
    proof {
        let x = unpadded_size;
        assert((x + 7) as u64 & !7u64 == (x + 7) / 8 * 8) by (bit_vector)
            requires
                x + 7 <= 0xFFFF_FFFF_FFFF_FFFFu64,
        ;
    }
    let rounded: u64 = (unpadded_size + 7) & !7u64;
    if rounded > 8 {
        rounded
    } else {
        8
    }
}

/// The buffers of a compiled circuit and the commands on them.
#[derive(Debug, Copy, Clone, PartialEq, Eq, Structural)]
pub struct Pipelines {
    pub node_count: usize,
    pub buffer_size: u64,
    pub constant_storage: ConstantStorage,
    pub common_storage: CommonStorage,
    pub tick_storage: TickStorage,
    pub upload_buffer: BufferPlan,
    pub download_buffer: BufferPlan,
}

/// A buffer through which the host reaches the others.
pub open spec fn staging_plan(id: BufferId, size: int, upload: bool) -> BufferPlan {
    BufferPlan {
        id,
        size: size as u64,
        usage: BufferUsage {
            storage: false,
            uniform: false,
            copy_dst: !upload,
            copy_src: upload,
            map_write: upload,
            map_read: !upload,
        },
        mapped_at_creation: false,
    }
}

/// A buffer through which the host reaches the others.
fn create_staging_buffer(id: BufferId, size: u64, upload: bool) -> (plan: BufferPlan)
    ensures
        plan == staging_plan(id, size as int, upload),
{
    BufferPlan {
        id,
        size,
        usage: BufferUsage {
            storage: false,
            uniform: false,
            copy_dst: !upload,
            copy_src: upload,
            map_write: upload,
            map_read: !upload,
        },
        mapped_at_creation: false,
    }
}

impl Pipelines {
    /// The buffers for `node_count` nodes and `link_count` links between them.
    pub open spec fn planned(node_count: usize, link_count: int) -> Pipelines {
        let size = padded_size(node_count as int);
        Pipelines {
            node_count,
            buffer_size: size as u64,
            constant_storage: ConstantStorage::planned(size, padded_size(link_count)),
            common_storage: CommonStorage::planned(size),
            tick_storage: TickStorage::planned(size),
            upload_buffer: staging_plan(BufferId::Upload, size, true),
            download_buffer: staging_plan(BufferId::Download, size, false),
        }
    }

    /// Whether the sizes of all buffers can be told.
    pub open spec fn can_plan(node_count: usize, link_count: usize) -> bool {
        &&& 4 * node_count <= usize::MAX
        &&& 4 * link_count <= usize::MAX
        &&& 4 * link_count + 7 <= u64::MAX
        &&& 16 * padded_size(node_count as int) <= u64::MAX
    }

    /// Whether the sizes of all that is copied can be told.
    pub open spec fn wf(self) -> bool {
        self.buffer_size * 16 <= u64::MAX
    }

    /// Whether the sizes of all buffers can be told.
    pub fn is_plannable(node_count: usize, link_count: u64) -> (r: bool)
        ensures
            r == (link_count <= usize::MAX && Pipelines::can_plan(node_count, link_count as usize)),
    {
        let nodes: u128 = node_count as u128;
        let links: u128 = link_count as u128;
        if links > usize::MAX as u128 || nodes * 4 > usize::MAX as u128 || links * 4
            > usize::MAX as u128 || links * 4 + 7 > u64::MAX as u128 {
            return false;
        }
        let size: u128 = if nodes == 0 {
            8
        } else {
            (nodes * 4 + 7) / 8 * 8
        };
        assert(size == padded_size(node_count as int));
        size * 16 <= u64::MAX as u128
    }

    /// Plans the buffers for a circuit.
    pub fn create(node_count: usize, neighbor_link_count: usize) -> (pipelines: Pipelines)
        requires
            Pipelines::can_plan(node_count, neighbor_link_count),
        ensures
            pipelines == Pipelines::planned(node_count, neighbor_link_count as int),
            pipelines.wf(),
    {
        let buffer_size: u64 = pad(node_count);
        let link_buffer_size: u64 = pad(neighbor_link_count);
        Pipelines {
            node_count,
            buffer_size,
            constant_storage: ConstantStorage::new(buffer_size, link_buffer_size),
            common_storage: CommonStorage::new(buffer_size),
            tick_storage: TickStorage::new(buffer_size),
            upload_buffer: create_staging_buffer(BufferId::Upload, buffer_size, true),
            download_buffer: create_staging_buffer(BufferId::Download, buffer_size, false),
        }
    }

    /// Whether the buffers are large enough for a compiled circuit.
    pub open spec fn fits(self, data: CompilationData) -> bool {
        &&& 4 * data.types@.len() <= self.constant_storage.types.size
        &&& 4 * data.neighbor_info@.len() <= self.constant_storage.neighbor_info.size
        &&& 4 * data.neighbor_links@.len() <= self.constant_storage.neighbor_links.size
        &&& 4 * data.states@.len() <= self.common_storage.states.size
        &&& 64 * data.default_inputs@.len() <= self.common_storage.default_inputs_in.size
        &&& 64 * data.side_inputs@.len() <= self.common_storage.side_inputs_in.size
        &&& 4 * data.tick_delay@.len() <= self.common_storage.tick_delay_in.size
        &&& 4 * data.tick_delay@.len() <= self.common_storage.tick_delay_out.size
        &&& 64 * data.default_inputs@.len() <= self.tick_storage.default_inputs_out.size
        &&& 64 * data.side_inputs@.len() <= self.tick_storage.side_inputs_out.size
        &&& 4 <= self.tick_storage.tick_priority.size
    }

    /// What all the buffers are filled with at the start.
    pub fn upload_all(&self, compilation_data: CompilationData) -> (uploads: Vec<Upload>)
        requires
            self.fits(compilation_data),
        ensures
            uploads@.len() == 11,
            stores(
                uploads@[0],
                self.constant_storage.types,
                type_words(compilation_data.types@),
            ),
            stores(
                uploads@[1],
                self.constant_storage.neighbor_info,
                neighbor_words(compilation_data.neighbor_info@),
            ),
            stores(
                uploads@[2],
                self.constant_storage.neighbor_links,
                link_words(compilation_data.neighbor_links@),
            ),
            stores(
                uploads@[3],
                self.common_storage.states,
                state_words(compilation_data.states@),
            ),
            stores(
                uploads@[4],
                self.common_storage.default_inputs_in,
                input_words(compilation_data.default_inputs@),
            ),
            stores(
                uploads@[5],
                self.common_storage.side_inputs_in,
                input_words(compilation_data.side_inputs@),
            ),
            stores(
                uploads@[6],
                self.common_storage.tick_delay_in,
                compilation_data.tick_delay@,
            ),
            stores(
                uploads@[7],
                self.common_storage.tick_delay_out,
                compilation_data.tick_delay@,
            ),
            stores(
                uploads@[8],
                self.tick_storage.default_inputs_out,
                input_words(compilation_data.default_inputs@),
            ),
            stores(
                uploads@[9],
                self.tick_storage.side_inputs_out,
                input_words(compilation_data.side_inputs@),
            ),
            stores(uploads@[10], self.tick_storage.tick_priority, seq![0u32]),
            self.common_storage.default_inputs_in.size == self.tick_storage.default_inputs_out.size
                ==> same_bytes(uploads@[4], uploads@[8]),
            self.common_storage.side_inputs_in.size == self.tick_storage.side_inputs_out.size
                ==> same_bytes(uploads@[5], uploads@[9]),
            self.common_storage.tick_delay_in.size == self.common_storage.tick_delay_out.size
                ==> same_bytes(uploads@[6], uploads@[7]),
    {
        proof {
            lemma_input_words_len(compilation_data.default_inputs@);
            lemma_input_words_len(compilation_data.side_inputs@);
        }
        let raw_data = compilation_data.to_raw();
        let default_inputs = cast_slice(&raw_data.default_inputs);
        let side_inputs = cast_slice(&raw_data.side_inputs);
        let tick_delay = cast_slice(&raw_data.tick_delay);
        let first: [u32; 1] = [0];
        assert(first@ =~= seq![0u32]);
        vec![
            store_words(&self.constant_storage.types, &raw_data.types),
            store_words(&self.constant_storage.neighbor_info, &raw_data.neighbor_info),
            store_words(&self.constant_storage.neighbor_links, &raw_data.neighbor_links),
            store_words(&self.common_storage.states, &raw_data.states),
            store_initial(&self.common_storage.default_inputs_in, default_inputs),
            store_initial(&self.common_storage.side_inputs_in, side_inputs),
            store_initial(&self.common_storage.tick_delay_in, tick_delay),
            store_initial(&self.common_storage.tick_delay_out, tick_delay),
            store_initial(&self.tick_storage.default_inputs_out, default_inputs),
            store_initial(&self.tick_storage.side_inputs_out, side_inputs),
            store_words(&self.tick_storage.tick_priority, &first),
        ]
    }

    /// The copies by which the outgoing inputs become the incoming ones.
    pub open spec fn input_copies(self) -> Seq<Command> {
        seq![
            Command::Copy {
                from: self.tick_storage.default_inputs_out.id,
                offset: 0,
                to: self.common_storage.default_inputs_in.id,
                size: (self.buffer_size * 16) as u64,
            },
            Command::Copy {
                from: self.tick_storage.side_inputs_out.id,
                offset: 0,
                to: self.common_storage.side_inputs_in.id,
                size: (self.buffer_size * 16) as u64,
            },
        ]
    }

    /// The copy by which the outgoing delays become the incoming ones.
    pub open spec fn tick_copies(self) -> Seq<Command> {
        seq![
            Command::Copy {
                from: self.common_storage.tick_delay_out.id,
                offset: 0,
                to: self.common_storage.tick_delay_in.id,
                size: (self.buffer_size * 4) as u64,
            },
        ]
    }

    /// The commands of a tick pass: the word of the priority is fetched, the pipeline
    /// runs on sixty-four workgroups with all three bind groups, and what came out goes in.
    pub open spec fn tick_pass(self, priority: TickPriority) -> Seq<Command> {
        seq![
            Command::Copy {
                from: self.tick_storage.tick_priorities_cache.id,
                offset: (priority.number() * 4) as u64,
                to: self.tick_storage.tick_priority.id,
                size: 4,
            },
            Command::Pass { pipeline: Pipeline::Tick, groups: 3, workgroups: Some(64) },
        ] + self.input_copies() + self.tick_copies()
    }

    /// The commands of an update pass: the pipeline is set, without a workgroup, and what
    /// came out goes in.
    pub open spec fn update_pass(self) -> Seq<Command> {
        seq![
            Command::Pass { pipeline: Pipeline::Update, groups: 2, workgroups: None },
        ] + self.tick_copies()
    }

    /// The commands of one tick: a tick pass for each priority, the highest first, with an
    /// update pass after each.
    pub open spec fn tick_commands(self) -> Seq<Command> {
        self.tick_pass(TickPriority::Highest) + self.update_pass() + self.tick_pass(
            TickPriority::Higher,
        ) + self.update_pass() + self.tick_pass(TickPriority::High) + self.update_pass()
            + self.tick_pass(TickPriority::Normal) + self.update_pass()
    }

    /// The commands of `count` ticks.
    pub open spec fn commands(self, count: nat) -> Seq<Command>
        decreases count,
    {
        if count == 0 {
            Seq::empty()
        } else {
            self.commands((count - 1) as nat) + self.tick_commands()
        }
    }

    fn copy_inputs_out_to_in(&self, commands: &mut Vec<Command>)
        requires
            self.wf(),
        ensures
            final(commands)@ == old(commands)@ + self.input_copies(),
    {
        commands.push(
            Command::Copy {
                from: self.tick_storage.default_inputs_out.id,
                offset: 0,
                to: self.common_storage.default_inputs_in.id,
                size: self.buffer_size * 16,
            },
        );
        commands.push(
            Command::Copy {
                from: self.tick_storage.side_inputs_out.id,
                offset: 0,
                to: self.common_storage.side_inputs_in.id,
                size: self.buffer_size * 16,
            },
        );
        assert(commands@ =~= old(commands)@ + self.input_copies());
    }

    fn copy_ticks_out_to_in(&self, commands: &mut Vec<Command>)
        requires
            self.wf(),
        ensures
            final(commands)@ == old(commands)@ + self.tick_copies(),
    {
        commands.push(
            Command::Copy {
                from: self.common_storage.tick_delay_out.id,
                offset: 0,
                to: self.common_storage.tick_delay_in.id,
                size: self.buffer_size * 4,
            },
        );
        assert(commands@ =~= old(commands)@ + self.tick_copies());
    }

    pub fn encode_tick_pass(&self, commands: &mut Vec<Command>, tick_priority: TickPriority)
        requires
            self.wf(),
        ensures
            final(commands)@ == old(commands)@ + self.tick_pass(tick_priority),
    {
        // The right tick priority value will be at its own index in the cached buffer
        commands.push(
            Command::Copy {
                from: self.tick_storage.tick_priorities_cache.id,
                offset: (tick_priority.code() * 4) as u64,
                to: self.tick_storage.tick_priority.id,
                size: 4,
            },
        );
        commands.push(
            Command::Pass { pipeline: Pipeline::Tick, groups: 3, workgroups: Some(64) },
        );
        self.copy_inputs_out_to_in(commands);
        self.copy_ticks_out_to_in(commands);
        assert(commands@ =~= old(commands)@ + self.tick_pass(tick_priority));
    }

    pub fn encode_update_pass(&self, commands: &mut Vec<Command>)
        requires
            self.wf(),
        ensures
            final(commands)@ == old(commands)@ + self.update_pass(),
    {
        commands.push(Command::Pass { pipeline: Pipeline::Update, groups: 2, workgroups: None });
        self.copy_ticks_out_to_in(commands);
        assert(commands@ =~= old(commands)@ + self.update_pass());
    }

    /// The commands of `count` ticks.
    pub fn create_command_buffer(&self, count: u64) -> (commands: Vec<Command>)
        requires
            self.wf(),
        ensures
            commands@ == self.commands(count as nat),
    {
        let mut commands: Vec<Command> = Vec::new();
        let mut i: u64 = 0;
        while i < count
            invariant
                i <= count,
                self.wf(),
                commands@ == self.commands(i as nat),
            decreases count - i,
        {
            let ghost before = commands@;
            self.encode_tick_pass(&mut commands, TickPriority::Highest);
            self.encode_update_pass(&mut commands);
            self.encode_tick_pass(&mut commands, TickPriority::Higher);
            self.encode_update_pass(&mut commands);
            self.encode_tick_pass(&mut commands, TickPriority::High);
            self.encode_update_pass(&mut commands);
            self.encode_tick_pass(&mut commands, TickPriority::Normal);
            self.encode_update_pass(&mut commands);
            i += 1;
            assert(commands@ =~= before + self.tick_commands());
        }
        commands
    }
}

/// Each row of inputs takes sixteen words.
pub proof fn lemma_input_words_len(rows: Seq<[u32; 16]>)
    ensures
        input_words(rows).len() == 16 * rows.len(),
    decreases rows.len(),
{
    let f = |row: [u32; 16]| row@;
    if rows.len() == 0 {
        assert(rows.map_values(f) =~= Seq::empty());
    } else {
        let rest = rows.drop_last();
        lemma_input_words_len(rest);
        assert(rows.map_values(f) =~= rest.map_values(f).push(rows.last()@));
        rest.map_values(f).lemma_flatten_push(rows.last()@);
    }
}

/// A buffer is as large as what it is for, a multiple of eight bytes, and not empty.
pub proof fn law_buffers_are_padded(count: int)
    requires
        count >= 0,
    ensures
        padded_size(count) % 8 == 0,
        padded_size(count) >= 8,
        4 * count <= padded_size(count) <= 4 * count + 8,
{
}

/// What a buffer is filled with takes all of it, and begins with the data.
pub proof fn law_stored_data_fills_buffer(upload: Upload, buffer: BufferPlan, words: Seq<u32>)
    requires
        stores(upload, buffer, words),
        4 * words.len() <= buffer.size,
    ensures
        upload.bytes@.len() == buffer.size,
        bytes_of(words, upload.bytes@.take(4 * words.len() as int)),
        forall|i: int| 4 * words.len() <= i < buffer.size ==> #[trigger] upload.bytes@[i] == 0xFF,
{
    let bytes = choose|bytes: Seq<u8>| #[trigger]
        bytes_of(words, bytes) && upload.bytes@ == padded(bytes, buffer.size as int);
    assert(upload.bytes@.take(4 * words.len() as int) =~= bytes);
}

/// Every pass ends with the copy of the outgoing delays to the incoming ones, so that the
/// next pass starts from what this one left.
pub proof fn law_passes_hand_on_delays(pipelines: Pipelines, priority: TickPriority)
    ensures
        pipelines.tick_pass(priority).last() == pipelines.tick_copies()[0],
        pipelines.update_pass().last() == pipelines.tick_copies()[0],
{
}

/// The commands of several ticks are those of one tick, one after the other.
pub proof fn law_commands_add_up(pipelines: Pipelines, first: nat, second: nat)
    ensures
        pipelines.commands(first + second) == pipelines.commands(first) + pipelines.commands(
            second,
        ),
    decreases second,
{
    if second == 0 {
        assert(pipelines.commands(first) + pipelines.commands(0) =~= pipelines.commands(first));
    } else {
        law_commands_add_up(pipelines, first, (second - 1) as nat);
        assert(pipelines.commands(first + second) =~= pipelines.commands(first)
            + pipelines.commands(second));
    }
}

/// Every priority stands at its own index among those to copy from.
pub proof fn law_priorities_stand_at_their_index(priority: TickPriority)
    ensures
        0 <= priority.number() < priority_words().len(),
        priority_words()[priority.number() as int] == priority.number(),
{
}

impl Pipelines {
    /// The buffer of this name.
    pub open spec fn buffer(self, id: BufferId) -> BufferPlan {
        match id {
            BufferId::Types => self.constant_storage.types,
            BufferId::NeighborInfo => self.constant_storage.neighbor_info,
            BufferId::NeighborLinks => self.constant_storage.neighbor_links,
            BufferId::States => self.common_storage.states,
            BufferId::DefaultInputsIn => self.common_storage.default_inputs_in,
            BufferId::SideInputsIn => self.common_storage.side_inputs_in,
            BufferId::TickDelayIn => self.common_storage.tick_delay_in,
            BufferId::TickDelayOut => self.common_storage.tick_delay_out,
            BufferId::DefaultInputsOut => self.tick_storage.default_inputs_out,
            BufferId::SideInputsOut => self.tick_storage.side_inputs_out,
            BufferId::TickPriority => self.tick_storage.tick_priority,
            BufferId::TickPrioritiesCache => self.tick_storage.tick_priorities_cache,
            BufferId::Upload => self.upload_buffer,
            BufferId::Download => self.download_buffer,
        }
    }

    /// Whether the buffers are made for a command: a copy is from one that can be copied
    /// from to one that can be copied to, inside both, and in whole words.
    pub open spec fn allows(self, command: Command) -> bool {
        match command {
            Command::Copy { from, offset, to, size } => {
                &&& self.buffer(from).usage.copy_src
                &&& self.buffer(to).usage.copy_dst
                &&& offset + size <= self.buffer(from).size
                &&& size <= self.buffer(to).size
                &&& offset % 4 == 0
                &&& size % 4 == 0
            },
            Command::Pass { .. } => true,
        }
    }

    /// Whether the buffers are made for all commands of a list.
    pub open spec fn allows_all(self, commands: Seq<Command>) -> bool {
        forall|i: int| 0 <= i < commands.len() ==> self.allows(#[trigger] commands[i])
    }
}

/// The buffers that are planned for a circuit are made for the commands of any number of
/// ticks.
pub proof fn law_planned_buffers_allow_commands(node_count: usize, link_count: usize, count: nat)
    requires
        Pipelines::can_plan(node_count, link_count),
    ensures
        Pipelines::planned(node_count, link_count as int).allows_all(
            Pipelines::planned(node_count, link_count as int).commands(count),
        ),
    decreases count,
{
    if count > 0 {
        let pipelines = Pipelines::planned(node_count, link_count as int);
        law_planned_buffers_allow_commands(node_count, link_count, (count - 1) as nat);
        assert forall|priority: TickPriority| pipelines.allows_all(
            #[trigger] pipelines.tick_pass(priority),
        ) by {}
        assert(pipelines.allows_all(pipelines.update_pass()));
    }
}

/// The command buffers that are ready to be submitted.
pub struct CommandCache<T> {
    pub cache: Vec<T>,
}

/// With more than this many buffers ready none is added.
pub const ENOUGH: usize = 10;

/// How many buffers are added at once.
pub const THREAD_COUNT: usize = 10;

impl<T> CommandCache<T> {
    pub fn new() -> (cache: Self)
        ensures
            cache.cache@ == Seq::<T>::empty(),
    {
        CommandCache { cache: Vec::new() }
    }

    /// How many buffers are to be added now: a batch, unless enough are ready.
    pub fn missing(&self) -> (count: usize)
        ensures
            count == if self.cache@.len() > ENOUGH {
                0
            } else {
                THREAD_COUNT
            },
    {
        if self.cache.len() > ENOUGH {
            return 0;
        }
        THREAD_COUNT
    }

    /// Adds a buffer.
    pub fn push(&mut self, buffer: T)
        ensures
            final(self).cache@ == old(self).cache@.push(buffer),
    {
        self.cache.push(buffer);
    }

    /// Takes the buffer that was added last, if any is ready.
    pub fn pop(&mut self) -> (buffer: Option<T>)
        ensures
            old(self).cache@.len() == 0 ==> buffer is None && final(self).cache@
                == old(self).cache@,
            old(self).cache@.len() > 0 ==> buffer == Some(old(self).cache@.last())
                && final(self).cache@ == old(self).cache@.drop_last(),
    {
        if !self.cache.is_empty() {
            return self.cache.pop();
        }
        None
    }
}

} // verus!
