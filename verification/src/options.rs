//! What the user asks of the compiler.

use vstd::prelude::*;

verus! {

/// What the user asks of the compiler.
#[derive(Debug, Copy, Clone, PartialEq, Eq, Structural)]
pub struct CompilerOptions {
    /// Whether the compiled graph is to be written to a dot file.
    pub export_dot_graph: bool,
}

} // verus!
