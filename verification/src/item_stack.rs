//! Stacks of items.

use vstd::prelude::*;

verus! {

/// A number of items of one kind.
#[derive(Debug, Clone, Copy, PartialEq, Eq, Structural)]
pub struct ItemStack {
    pub item_id: u16,
    pub count: u8,
    pub max_stack_size: u8,
}

impl ItemStack {
    /// Whether the two stacks hold the same kind of item with the same limit.
    pub open spec fn stacks_with(&self, other: &ItemStack) -> bool {
        self.item_id == other.item_id && self.max_stack_size == other.max_stack_size
    }

    /// How many more items the stack takes.
    pub open spec fn space(&self) -> u8 {
        if self.max_stack_size >= self.count {
            (self.max_stack_size - self.count) as u8
        } else {
            0
        }
    }

    /// A stack of `count` items of the kind `item_id` that takes up to
    /// `max_stack_size` items.
    pub fn new(item_id: u16, count: u8, max_stack_size: u8) -> (stack: Self)
        ensures
            stack == (ItemStack { item_id, count, max_stack_size }),
    {
        ItemStack { item_id, count, max_stack_size }
    }

    /// Whether the two stacks hold the same kind of item with the same limit.
    pub fn can_stack_with(&self, other: &ItemStack) -> (b: bool)
        ensures
            b == self.stacks_with(other),
    {
        self.item_id == other.item_id && self.max_stack_size == other.max_stack_size
    }

    /// How many more items the stack takes.
    pub fn remaining_space(&self) -> (n: u8)
        ensures
            n == self.space(),
    {
        self.max_stack_size.saturating_sub(self.count)
    }

    /// Whether the stack takes no more.
    pub fn is_full(&self) -> (b: bool)
        ensures
            b <==> self.count >= self.max_stack_size,
            b <==> self.space() == 0,
    {
        self.count >= self.max_stack_size
    }
}

} // verus!
