//! The backends that a compiled graph runs on.

pub mod direct;
pub mod gpu;
pub mod inputs;
pub mod links;
