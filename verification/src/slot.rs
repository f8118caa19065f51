//! Slots of an inventory.

use vstd::prelude::*;
use crate::item_stack::ItemStack;

verus! {

/// A place for one stack.
#[derive(Debug, Clone, Copy, PartialEq, Eq)]
pub struct Slot {
    pub item: Option<ItemStack>,
}

impl Slot {
    /// An empty slot.
    pub fn new() -> (slot: Self)
        ensures
            slot.item is None,
    {
        Slot { item: None }
    }

    /// Whether the slot holds nothing.
    pub fn is_empty(&self) -> (b: bool)
        ensures
            b <==> self.item is None,
    {
        self.item.is_none()
    }

    /// Empties the slot.
    pub fn clear(&mut self)
        ensures
            final(self).item is None,
    {
        self.item = None;
    }
}

impl Default for Slot {
    fn default() -> (slot: Self)
        ensures
            slot.item is None,
    {
        Slot::new()
    }
}

} // verus!
