//! An inventory of 36 slots.

use vstd::prelude::*;
use crate::item_stack::ItemStack;
use crate::slot::Slot;

verus! {

/// Number of slots of an inventory.
pub const INVENTORY_SIZE: usize = 36;

/// The slots and what is left of `item` after the first `k` slots have taken
/// of it what they can: a slot takes from `item` if it holds a stack of the
/// same kind and limit that is not full.
pub open spec fn stacked(slots: Seq<Slot>, item: ItemStack, k: int) -> (Seq<Slot>, u8)
    decreases k,
{
    if k <= 0 {
        (slots, item.count)
    } else {
        let before = stacked(slots, item, k - 1);
        let left = before.1;
        match before.0[k - 1].item {
            Some(existing) => {
                if left > 0 && existing.stacks_with(&item) && existing.count
                    < existing.max_stack_size {
                    let moved = if left <= existing.space() {
                        left
                    } else {
                        existing.space()
                    };
                    (
                        before.0.update(
                            k - 1,
                            Slot {
                                item: Some(
                                    ItemStack {
                                        item_id: existing.item_id,
                                        count: (existing.count + moved) as u8,
                                        max_stack_size: existing.max_stack_size,
                                    },
                                ),
                            },
                        ),
                        (left - moved) as u8,
                    )
                } else {
                    before
                }
            },
            None => before,
        }
    }
}

/// The first empty slot from `from` on; the number of slots if there is none.
pub open spec fn first_empty(slots: Seq<Slot>, from: int) -> int
    decreases slots.len() - from,
{
    if from >= slots.len() {
        slots.len() as int
    } else if from >= 0 && slots[from].item is None {
        from
    } else if from < 0 {
        first_empty(slots, 0)
    } else {
        first_empty(slots, from + 1)
    }
}

/// The slots after `item` was added, and whether all of it found a place:
/// first the stacks of its kind take what they can, in the order of the slots;
/// what is left goes to the first empty slot.
pub open spec fn added(slots: Seq<Slot>, item: ItemStack) -> (Seq<Slot>, bool) {
    if item.count == 0 {
        (slots, true)
    } else {
        let s = stacked(slots, item, slots.len() as int);
        if s.1 == 0 {
            (s.0, true)
        } else if first_empty(s.0, 0) < slots.len() {
            (
                s.0.update(
                    first_empty(s.0, 0),
                    Slot {
                        item: Some(
                            ItemStack {
                                item_id: item.item_id,
                                count: s.1,
                                max_stack_size: item.max_stack_size,
                            },
                        ),
                    },
                ),
                true,
            )
        } else {
            (s.0, false)
        }
    }
}

/// The slots after the stack of the slot `from` was moved to the slot `to`,
/// and whether anything moved: onto an empty slot the stack moves whole; onto
/// a stack of its kind it moves as far as there is room; with a stack of
/// another kind it changes places.
pub open spec fn moved(slots: Seq<Slot>, from: int, to: int) -> (Seq<Slot>, bool) {
    if !(0 <= from < slots.len() && 0 <= to < slots.len()) || from == to {
        (slots, false)
    } else {
        match (slots[from].item, slots[to].item) {
            (Some(a), Some(b)) => {
                if a.stacks_with(&b) {
                    let n = if a.count <= b.space() {
                        a.count
                    } else {
                        b.space()
                    };
                    let rest = if a.count - n > 0 {
                        Some(
                            ItemStack {
                                item_id: a.item_id,
                                count: (a.count - n) as u8,
                                max_stack_size: a.max_stack_size,
                            },
                        )
                    } else {
                        None
                    };
                    (
                        slots.update(from, Slot { item: rest }).update(
                            to,
                            Slot {
                                item: Some(
                                    ItemStack {
                                        item_id: b.item_id,
                                        count: (b.count + n) as u8,
                                        max_stack_size: b.max_stack_size,
                                    },
                                ),
                            },
                        ),
                        true,
                    )
                } else {
                    (
                        slots.update(from, Slot { item: Some(b) }).update(to, Slot { item: Some(a) }),
                        true,
                    )
                }
            },
            (Some(a), None) => (
                slots.update(to, Slot { item: Some(a) }).update(from, Slot { item: None }),
                true,
            ),
            _ => (slots, false),
        }
    }
}

/// The first empty slot is empty, and the slots before it are not.
proof fn lemma_first_empty(slots: Seq<Slot>, from: int)
    requires
        0 <= from <= slots.len(),
    ensures
        from <= first_empty(slots, from) <= slots.len(),
        forall|j: int| from <= j < first_empty(slots, from) ==> (#[trigger] slots[j]).item is Some,
        first_empty(slots, from) < slots.len() ==> slots[first_empty(slots, from)].item is None,
    decreases slots.len() - from,
{
    if from < slots.len() && !(slots[from].item is None) {
        lemma_first_empty(slots, from + 1);
    }
}

/// Behind slots that hold something, the search may start later.
proof fn lemma_first_empty_from(slots: Seq<Slot>, from: int)
    requires
        0 <= from <= slots.len(),
        forall|j: int| 0 <= j < from ==> (#[trigger] slots[j]).item is Some,
    ensures
        first_empty(slots, 0) == first_empty(slots, from),
    decreases from,
{
    if from > 0 {
        lemma_first_empty_from(slots, from - 1);
    }
}

/// An inventory.
pub struct Inventory {
    slots: [Slot; INVENTORY_SIZE],
}

impl View for Inventory {
    type V = Seq<Slot>;

    closed spec fn view(&self) -> Seq<Slot> {
        self.slots@
    }
}

impl Inventory {
    /// 36 empty slots.
    pub fn new() -> (inv: Self)
        ensures
            inv@.len() == 36,
            forall|i: int| 0 <= i < 36 ==> (#[trigger] inv@[i]).item is None,
    {
        let empty = Slot { item: None };
        let slots = [empty;INVENTORY_SIZE];
        proof {
            vstd::array::axiom_spec_array_fill_for_copy_type::<Slot, 36>(empty);
        }
        Inventory { slots }
    }

    /// Adds `item`: see [`added`]. Says whether all of it found a place;
    /// where it did not, the stacks of its kind still took what they could.
    pub fn add_item(&mut self, item: ItemStack) -> (all: bool)
        ensures
            final(self)@.len() == 36,
            (final(self)@, all) == added(old(self)@, item),
    {
        let ghost given = item;
        let ghost start = self@;
        let mut rest = item;
        if rest.count == 0 {
            return true;
        }
        for i in 0..INVENTORY_SIZE
            invariant
                self@.len() == 36,
                rest.item_id == given.item_id,
                rest.max_stack_size == given.max_stack_size,
                rest.count > 0,
                given.count > 0,
                start.len() == 36,
                start == old(self)@,
                given == item,
                (self@, rest.count) == stacked(start, given, i as int),
        {
            let ghost before = self@;
            match self.slots[i].item {
                Some(existing) => {
                    if existing.can_stack_with(&rest) && !existing.is_full() {
                        let space = existing.remaining_space();
                        let to_add = if rest.count <= space {
                            rest.count
                        } else {
                            space
                        };
                        self.slots[i].item = Some(
                            ItemStack {
                                item_id: existing.item_id,
                                count: existing.count + to_add,
                                max_stack_size: existing.max_stack_size,
                            },
                        );
                        rest.count -= to_add;
                        proof {
                            assert(self@ =~= before.update(
                                i as int,
                                Slot {
                                    item: Some(
                                        ItemStack {
                                            item_id: existing.item_id,
                                            count: (existing.count + to_add) as u8,
                                            max_stack_size: existing.max_stack_size,
                                        },
                                    ),
                                },
                            ));
                        }
                        proof {
                            assert(stacked(start, given, i + 1) == (self@, rest.count));
                        }
                        if rest.count == 0 {
                            proof {
                                lemma_stacked_done(start, given, i + 1, 36);
                                assert(added(start, given) == (self@, true));
                            }
                            return true;
                        }
                    }
                },
                None => {},
            }
        }
        let ghost filled = self@;

        for i in 0..INVENTORY_SIZE
            invariant
                self@ == filled,
                self@.len() == 36,
                forall|j: int| 0 <= j < i ==> (#[trigger] filled[j]).item is Some,
                (filled, rest.count) == stacked(start, given, 36),
                rest.item_id == given.item_id,
                rest.max_stack_size == given.max_stack_size,
                rest.count > 0,
                given.count > 0,
                start.len() == 36,
                start == old(self)@,
                given == item,
        {
            if self.slots[i].is_empty() {
                self.slots[i].item = Some(rest);
                proof {
                    lemma_first_empty_from(filled, i as int);
                    assert(filled[i as int].item is None);
                    assert(first_empty(filled, i as int) == i);
                    assert(self@ =~= filled.update(i as int, Slot { item: Some(rest) }));
                    assert(rest == ItemStack {
                        item_id: given.item_id,
                        count: stacked(start, given, 36).1,
                        max_stack_size: given.max_stack_size,
                    });
                    assert(added(start, given) == (self@, true));
                }
                return true;
            }
        }
        proof {
            lemma_first_empty_from(filled, 36);
            assert(added(start, given) == (self@, false));
        }
        false
    }

    /// Takes the stack out of the slot `slot`; `None` if the slot is empty or
    /// does not exist.
    pub fn remove_item(&mut self, slot: usize) -> (item: Option<ItemStack>)
        ensures
            final(self)@.len() == old(self)@.len(),
            slot < 36 ==> item == old(self)@[slot as int].item && final(self)@ == old(self)@.update(
                slot as int,
                Slot { item: None },
            ),
            slot >= 36 ==> item is None && final(self)@ == old(self)@,
    {
        if slot >= INVENTORY_SIZE {
            return None;
        }
        let item = self.slots[slot].item;
        self.slots[slot].item = None;
        proof {
            assert(self@ =~= old(self)@.update(slot as int, Slot { item: None }));
        }
        item
    }

    /// Moves the stack of the slot `from` to the slot `to`: see [`moved`].
    pub fn move_item(&mut self, from: usize, to: usize) -> (done: bool)
        requires
            old(self)@.len() == 36,
        ensures
            (final(self)@, done) == moved(old(self)@, from as int, to as int),
    {
        if from >= INVENTORY_SIZE || to >= INVENTORY_SIZE || from == to {
            return false;
        }
        let ghost before = self@;
        let from_item = self.slots[from].item;
        let to_item = self.slots[to].item;

        match (from_item, to_item) {
            (Some(from_stack), Some(to_stack)) => {
                if from_stack.can_stack_with(&to_stack) {
                    let space = to_stack.remaining_space();
                    let to_add = if from_stack.count <= space {
                        from_stack.count
                    } else {
                        space
                    };
                    let grown = ItemStack {
                        item_id: to_stack.item_id,
                        count: to_stack.count + to_add,
                        max_stack_size: to_stack.max_stack_size,
                    };

                    let remaining = from_stack.count - to_add;
                    if remaining > 0 {
                        self.slots[from].item = Some(
                            ItemStack::new(
                                from_stack.item_id,
                                remaining,
                                from_stack.max_stack_size,
                            ),
                        );
                    } else {
                        self.slots[from].item = None;
                    }

                    self.slots[to].item = Some(grown);
                } else {
                    self.slots[from].item = to_item;
                    self.slots[to].item = from_item;
                }
                proof {
                    assert(self@ =~= moved(before, from as int, to as int).0);
                }
                true
            },
            (Some(_), None) => {
                self.slots[to].item = from_item;
                self.slots[from].item = None;
                proof {
                    assert(self@ =~= moved(before, from as int, to as int).0);
                }
                true
            },
            _ => false,
        }
    }

    /// The first slot that holds items of the kind `item_id`.
    pub fn find_item(&self, item_id: u16) -> (found: Option<usize>)
        ensures
            match found {
                Some(i) => i < self@.len() && self@[i as int].item is Some && self@[i as int].item->0.item_id
                    == item_id && forall|j: int|
                    0 <= j < i ==> !((#[trigger] self@[j]).item is Some && self@[j].item->0.item_id
                        == item_id),
                None => forall|j: int|
                    0 <= j < self@.len() ==> !((#[trigger] self@[j]).item is Some
                        && self@[j].item->0.item_id == item_id),
            },
    {
        for i in 0..INVENTORY_SIZE
            invariant
                forall|j: int|
                    0 <= j < i ==> !((#[trigger] self@[j]).item is Some && self@[j].item->0.item_id
                        == item_id),
        {
            match self.slots[i].item {
                Some(item) => {
                    if item.item_id == item_id {
                        return Some(i);
                    }
                },
                None => {},
            }
        }
        None
    }

    /// The slot number `index`, if there is one.
    pub fn get_slot(&self, index: usize) -> (slot: Option<&Slot>)
        ensures
            index < self@.len() ==> slot is Some && *slot->0 == self@[index as int],
            index >= self@.len() ==> slot is None,
    {
        if index < INVENTORY_SIZE {
            Some(&self.slots[index])
        } else {
            None
        }
    }

    /// The slot number `index`, to be changed, if there is one.
    pub fn get_slot_mut(&mut self, index: usize) -> (slot: Option<&mut Slot>)
        ensures
            index < old(self)@.len() ==> slot is Some && *slot->0 == old(self)@[index as int]
                && final(self)@ == old(self)@.update(index as int, *final(slot->0)),
            index >= old(self)@.len() ==> slot is None && final(self)@ == old(self)@,
    {
        if index < INVENTORY_SIZE {
            Some(&mut self.slots[index])
        } else {
            None
        }
    }
}

/// Once nothing is left of the item, the slots stay as they are.
proof fn lemma_stacked_done(slots: Seq<Slot>, item: ItemStack, k: int, n: int)
    requires
        0 <= k <= n,
        stacked(slots, item, k).1 == 0,
    ensures
        stacked(slots, item, n) == stacked(slots, item, k),
    decreases n - k,
{
    if k < n {
        lemma_stacked_done(slots, item, k, n - 1);
    }
}

impl Default for Inventory {
    fn default() -> (inv: Self)
        ensures
            inv@.len() == 36,
            forall|i: int| 0 <= i < 36 ==> (#[trigger] inv@[i]).item is None,
    {
        Inventory::new()
    }
}

} // verus!
