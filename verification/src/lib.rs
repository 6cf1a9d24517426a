//! A compiler for redstone circuits: passes that rewrite the graph of components, and
//! backends that lower it and run it.

pub mod backend;
pub mod compile_graph;
pub mod graph;
pub mod maps;
pub mod options;
pub mod passes;
pub mod world;
