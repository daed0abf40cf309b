//! Values exchanged with the external scripting runtime.

use vstd::prelude::*;

verus! {

/// A plain value exposed across the scripting boundary. The embedding
/// shell mirrors it with the runtime's own derives and registers it, with
/// its accessors, in the runtime's module table.
#[derive(Debug, Clone, Copy, PartialEq, Eq)]
pub struct External {
    /// The value the scripts may read.
    pub value: u32,
}

} // verus!
