//! Backends that run the circuit node by node.

pub mod node;
pub mod partitioned;

use vstd::prelude::*;

verus! {

/// What a node does beyond changing its state.
#[derive(Debug, Copy, Clone, PartialEq, Eq, Structural)]
pub enum Event {
    /// A note block plays its note.
    NoteBlockPlay { noteblock_id: u16 },
}

/// The signal strength of something that is either on or off.
pub open spec fn on_or_off(powered: bool) -> u8 {
    if powered {
        15
    } else {
        0
    }
}

/// The signal strength of something that is either on or off.
pub fn bool_to_ss(powered: bool) -> (ss: u8)
    ensures
        ss == on_or_off(powered),
{
    if powered {
        15
    } else {
        0
    }
}

} // verus!
