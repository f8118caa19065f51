//! Block type identifiers.

use vstd::prelude::*;

verus! {

/// Identifier of a block type. The value 0 is air.
#[derive(Debug, Clone, Copy, PartialEq, Eq, Hash, Structural)]
pub struct BlockId(pub u16);

impl View for BlockId {
    type V = u16;

    open spec fn view(&self) -> u16 {
        self.0
    }
}

impl BlockId {
    /// The identifier that holds the raw value `id`.
    pub fn new(id: u16) -> (b: Self)
        ensures
            b@ == id,
    {
        BlockId(id)
    }

    /// The raw value of this identifier.
    pub fn as_u16(&self) -> (id: u16)
        ensures
            id == self@,
    {
        self.0
    }
}

} // verus!
