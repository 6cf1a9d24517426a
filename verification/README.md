# redpiler

A compiler for redstone circuits, written and proved in Verus.

- `src/passes`: rewrites of the component graph. `clamp_weights` removes the links on which every
  signal is lost, `chain_coalesce` replaces chains of repeaters and torches by fewer nodes;
  `chain_laws` states what holds of the chains and of what stands in for them.
- `src/backend/gpu`: lowers a graph to the words, buffers and commands of a compute device.
- `src/backend/direct/partitioned`: lowers a graph to partitions that send each other changes of
  signal strength, and the backend that drives them; `counts` and `compile_laws` state why the
  counts of inputs are right.
- `src/backend/inputs.rs`, `src/backend/links.rs`: what both backends share.
- `src/graph.rs`, `src/maps.rs`: the graphs of `petgraph` and the hash maps under `rustc_hash`,
  with the contracts that the rest is proved against.
- `app`: the device, the threads and channels, and the world around the library.

Public proof functions whose names begin with `law_` state what holds of several functions
together.
