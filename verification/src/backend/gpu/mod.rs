//! A backend that runs the circuit as compute passes of a graphics device.

pub mod buffer_laws;
pub mod compile;
pub mod device_laws;
pub mod pipelines;
pub mod shader_types;
pub mod success_laws;

use rustc_hash::FxHashMap;
use vstd::prelude::*;

use crate::backend::gpu::compile::{
    blocks_of, can_lower, law_compiled_circuit_fits, link_total, locates, lowered_state, lowers,
};
use crate::backend::gpu::pipelines::{
    boxed, bytes_of, input_words, law_stored_data_fills_buffer, lemma_input_words_len, link_words,
    neighbor_words, same_bytes, state_words, stores, type_words, BufferPlan, CompilationData,
    Pipelines, Upload,
};
use crate::compile_graph::{CompileGraph, NodeIdx};
use crate::graph::{
    ascends, contents, lemma_ascends, lemma_ascends_unique, node_count, node_indices, GraphView,
};
use crate::options::CompilerOptions;
use crate::world::{Block, BlockPos, BlockTable, TickEntry};

verus! {

/// The backend, apart from the device that it runs on.
pub struct GpuBackend {
    /// The buffers and commands of the circuit, once one has been compiled.
    pub pipelines: Option<Pipelines>,
    /// The words of the states that the nodes start in.
    pub raw_states: Box<[u32]>,
    /// The block that each node stands for, if any.
    pub blocks: Vec<Option<(BlockPos, Block)>>,
    /// The node that stands for the block at a position.
    pub pos_map: FxHashMap<(i32, i32, i32), usize>,
}

/// Whether the backend can run the graph with these pending ticks: the graph can be
/// lowered, and the sizes of the buffers can be told.
pub open spec fn can_run(g: GraphView, ticks: Seq<TickEntry>) -> bool {
    &&& can_lower(g, ticks)
    &&& forall|order: Seq<NodeIdx>| #[trigger]
        ascends(g, order) ==> link_total(g, order) <= usize::MAX && Pipelines::can_plan(
            g.nodes.len() as usize,
            link_total(g, order) as usize,
        )
}

/// Whether `uploads` fill the buffers of `pipelines` with the words of `data`, and what
/// comes in starts as what goes out.
pub open spec fn uploads_data(
    pipelines: Pipelines,
    data: CompilationData,
    uploads: Seq<Upload>,
) -> bool {
    &&& uploads.len() == 11
    &&& stores(uploads[0], pipelines.constant_storage.types, type_words(data.types@))
    &&& stores(
        uploads[1],
        pipelines.constant_storage.neighbor_info,
        neighbor_words(data.neighbor_info@),
    )
    &&& stores(
        uploads[2],
        pipelines.constant_storage.neighbor_links,
        link_words(data.neighbor_links@),
    )
    &&& stores(uploads[3], pipelines.common_storage.states, state_words(data.states@))
    &&& stores(
        uploads[4],
        pipelines.common_storage.default_inputs_in,
        input_words(data.default_inputs@),
    )
    &&& stores(
        uploads[5],
        pipelines.common_storage.side_inputs_in,
        input_words(data.side_inputs@),
    )
    &&& stores(uploads[6], pipelines.common_storage.tick_delay_in, data.tick_delay@)
    &&& stores(uploads[7], pipelines.common_storage.tick_delay_out, data.tick_delay@)
    &&& stores(
        uploads[8],
        pipelines.tick_storage.default_inputs_out,
        input_words(data.default_inputs@),
    )
    &&& stores(
        uploads[9],
        pipelines.tick_storage.side_inputs_out,
        input_words(data.side_inputs@),
    )
    &&& stores(uploads[10], pipelines.tick_storage.tick_priority, seq![0u32])
    &&& same_bytes(uploads[4], uploads[8])
    &&& same_bytes(uploads[5], uploads[9])
    &&& same_bytes(uploads[6], uploads[7])
}

/// Whether an upload takes all of a buffer: the bytes of `words`, and then the value that
/// tells the shader that there is nothing to operate on.
pub open spec fn fills(upload: Upload, buffer: BufferPlan, words: Seq<u32>) -> bool {
    &&& upload.buffer == buffer.id
    &&& upload.bytes@.len() == buffer.size
    &&& bytes_of(words, upload.bytes@.take(4 * words.len() as int))
    &&& forall|i: int| 4 * words.len() <= i < buffer.size ==> #[trigger] upload.bytes@[i] == 0xFF
}

/// The buffers of a circuit are each filled with the words that it is for, and the inputs
/// and delays that come in start as those that go out.
pub proof fn law_buffers_start_alike(
    pipelines: Pipelines,
    data: CompilationData,
    uploads: Seq<Upload>,
)
    requires
        pipelines.fits(data),
        uploads_data(pipelines, data, uploads),
    ensures
        fills(uploads[0], pipelines.constant_storage.types, type_words(data.types@)),
        fills(
            uploads[1],
            pipelines.constant_storage.neighbor_info,
            neighbor_words(data.neighbor_info@),
        ),
        fills(
            uploads[2],
            pipelines.constant_storage.neighbor_links,
            link_words(data.neighbor_links@),
        ),
        fills(uploads[3], pipelines.common_storage.states, state_words(data.states@)),
        fills(
            uploads[4],
            pipelines.common_storage.default_inputs_in,
            input_words(data.default_inputs@),
        ),
        fills(
            uploads[5],
            pipelines.common_storage.side_inputs_in,
            input_words(data.side_inputs@),
        ),
        fills(uploads[6], pipelines.common_storage.tick_delay_in, data.tick_delay@),
        fills(uploads[7], pipelines.common_storage.tick_delay_out, data.tick_delay@),
        fills(
            uploads[8],
            pipelines.tick_storage.default_inputs_out,
            input_words(data.default_inputs@),
        ),
        fills(
            uploads[9],
            pipelines.tick_storage.side_inputs_out,
            input_words(data.side_inputs@),
        ),
        fills(uploads[10], pipelines.tick_storage.tick_priority, seq![0u32]),
        uploads[4].bytes@ == uploads[8].bytes@,
        uploads[5].bytes@ == uploads[9].bytes@,
        uploads[6].bytes@ == uploads[7].bytes@,
{
    lemma_input_words_len(data.default_inputs@);
    lemma_input_words_len(data.side_inputs@);
    let constant = pipelines.constant_storage;
    let common = pipelines.common_storage;
    let tick = pipelines.tick_storage;
    law_stored_data_fills_buffer(uploads[0], constant.types, type_words(data.types@));
    law_stored_data_fills_buffer(
        uploads[1],
        constant.neighbor_info,
        neighbor_words(data.neighbor_info@),
    );
    law_stored_data_fills_buffer(
        uploads[2],
        constant.neighbor_links,
        link_words(data.neighbor_links@),
    );
    law_stored_data_fills_buffer(uploads[3], common.states, state_words(data.states@));
    let default_words = input_words(data.default_inputs@);
    let side_words = input_words(data.side_inputs@);
    law_stored_data_fills_buffer(uploads[4], common.default_inputs_in, default_words);
    law_stored_data_fills_buffer(uploads[5], common.side_inputs_in, side_words);
    law_stored_data_fills_buffer(uploads[6], common.tick_delay_in, data.tick_delay@);
    law_stored_data_fills_buffer(uploads[7], common.tick_delay_out, data.tick_delay@);
    law_stored_data_fills_buffer(uploads[8], tick.default_inputs_out, default_words);
    law_stored_data_fills_buffer(uploads[9], tick.side_inputs_out, side_words);
    law_stored_data_fills_buffer(uploads[10], tick.tick_priority, seq![0u32]);
}

/// Whether the backend is set up for `data`, which the graph was lowered to with these
/// pending ticks, and `uploads` fill its buffers.
pub open spec fn runs(
    g: GraphView,
    ticks: Seq<TickEntry>,
    order: Seq<NodeIdx>,
    data: CompilationData,
    table: BlockTable,
    backend: GpuBackend,
    uploads: Seq<Upload>,
) -> bool {
    &&& lowers(g, order, data)
    &&& data.tick_delay@ == compile::delays(g.nodes.len(), backend.pos_map@, ticks)
    &&& backend.blocks@ == blocks_of(g, order, table)
    &&& locates(backend.blocks@, backend.pos_map@)
    &&& backend.raw_states@ == state_words(
        order.map_values(|n: NodeIdx| lowered_state(g.nodes[n])),
    )
    &&& backend.pipelines == Some(Pipelines::planned(order.len() as usize, link_total(g, order) as int))
    &&& uploads_data(backend.pipelines->0, data, uploads)
}

impl GpuBackend {
    /// A backend without a circuit.
    pub fn create() -> (backend: GpuBackend)
        ensures
            backend.pipelines is None,
            backend.raw_states@ == Seq::<u32>::empty(),
            backend.blocks@ == Seq::<Option<(BlockPos, Block)>>::empty(),
            backend.pos_map@ == Map::<(i32, i32, i32), usize>::empty(),
    {
        GpuBackend {
            pipelines: None,
            raw_states: boxed(Vec::new()),
            blocks: Vec::new(),
            pos_map: FxHashMap::default(),
        }
    }

    /// Takes on a circuit.  The table tells what its blocks are.  What the buffers of the
    /// device are to be filled with comes back.
    pub fn compile(
        &mut self,
        graph: CompileGraph,
        ticks: Vec<TickEntry>,
        options: &CompilerOptions,
        table: &BlockTable,
    ) -> (uploads: Vec<Upload>)
        requires
            can_run(contents(graph), ticks@),
        ensures
            exists|order: Seq<NodeIdx>, data: CompilationData|
                ascends(contents(graph), order) && #[trigger] runs(
                    contents(graph),
                    ticks@,
                    order,
                    data,
                    *table,
                    *final(self),
                    uploads@,
                ),
            final(self).pipelines is Some && (final(self).pipelines->0).wf(),
    {
        let ghost g = contents(graph);
        let (data, block_info) = compile::compile(graph, ticks, options, table);
        let ghost order = choose|order: Seq<NodeIdx>| #[trigger]
            ascends(g, order) && lowers(g, order, data) && block_info.blocks@ == blocks_of(
                g,
                order,
                *table,
            );
        let ghost lowered = data;
        proof {
            lemma_ascends(g, order);
            compile::lemma_link_buffer_len(g, order, data);
            law_compiled_circuit_fits(g, order, data, *table, block_info.pos_map@, ticks@);
        }
        let pipelines = Pipelines::create(data.node_count, data.neighbor_links.len());
        self.pipelines = Some(pipelines);
        self.raw_states = data.get_raw_states();
        self.blocks = block_info.blocks;
        self.pos_map = block_info.pos_map;

        let uploads = pipelines.upload_all(data);
        assert(runs(g, ticks@, order, lowered, *table, *self, uploads@));
        uploads
    }

    /// Takes on a circuit, if the backend can run it.  What the buffers of the device are
    /// to be filled with comes back.
    pub fn try_compile(
        &mut self,
        graph: CompileGraph,
        ticks: Vec<TickEntry>,
        options: &CompilerOptions,
        table: &BlockTable,
    ) -> (uploads: Option<Vec<Upload>>)
        ensures
            uploads is Some <==> can_run(contents(graph), ticks@),
            uploads is None ==> *final(self) == *old(self),
            uploads is Some ==> {
                &&& exists|order: Seq<NodeIdx>, data: CompilationData|
                    ascends(contents(graph), order) && #[trigger] runs(
                        contents(graph),
                        ticks@,
                        order,
                        data,
                        *table,
                        *final(self),
                        (uploads->0)@,
                    )
                &&& final(self).pipelines is Some && (final(self).pipelines->0).wf()
            },
    {
        let ghost g = contents(graph);
        if !compile::can_compile(&graph, &ticks) {
            return None;
        }
        let nodes_len: usize = node_count(&graph);
        let order = node_indices(&graph);
        proof {
            lemma_ascends(g, order@);
            assert forall|other: Seq<NodeIdx>| #[trigger] ascends(g, other) implies other
                == order@ by {
                lemma_ascends_unique(g, other, order@);
            }
        }
        let links: u128 = compile::count_links(&graph, &order);
        if !Pipelines::is_plannable(nodes_len, links as u64) {
            assert(ascends(g, order@));
            return None;
        }
        let list = self.compile(graph, ticks, options, table);
        proof {
            let (order, data) = choose|order: Seq<NodeIdx>, data: CompilationData|
                ascends(g, order) && #[trigger] runs(g, ticks@, order, data, *table, *self, list@);
            assert(runs(g, ticks@, order, data, *table, *self, (Some(list)->0)@));
        }
        Some(list)
    }

    /// How many command buffers, each of one tick, are to be submitted for a tick; none,
    /// not even zero, without a circuit.
    pub fn tick(&self) -> (submit: Option<u64>)
        ensures
            submit == if self.pipelines is Some {
                Some(1u64)
            } else {
                None
            },
    {
        self.tickn(1)
    }

    /// How many command buffers, each of one tick, are to be submitted for some ticks;
    /// none, not even zero, without a circuit.
    pub fn tickn(&self, ticks: u64) -> (submit: Option<u64>)
        ensures
            submit == if self.pipelines is Some {
                Some(ticks)
            } else {
                None
            },
    {
        match self.pipelines {
            Some(_) => Some(ticks),
            None => None,
        }
    }
}

} // verus!
