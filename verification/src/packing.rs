//! Small numbers packed into 64-bit words.
//!
//! A word holds `64 / bits` slots of `bits` bits each, the first slot in the
//! lowest bits. No slot lies across two words.

use vstd::prelude::*;

verus! {

/// The widths that a slot can have.
pub open spec fn is_width(bits: u64) -> bool {
    bits == 1 || bits == 2 || bits == 4 || bits == 8 || bits == 16
}

/// The largest number that fits a slot of `bits` bits.
pub open spec fn slot_mask(bits: u64) -> u64 {
    ((1u64 << bits) - 1) as u64
}

/// The number in the slot that starts at the bit `offset` of `word`.
pub open spec fn slot_at(word: u64, bits: u64, offset: u64) -> u64 {
    (word >> offset) & slot_mask(bits)
}

/// `word` with `value` written to the slot that starts at the bit `offset`.
pub open spec fn with_slot(word: u64, bits: u64, offset: u64, value: u64) -> u64 {
    (word & !(slot_mask(bits) << offset)) | ((value & slot_mask(bits)) << offset)
}

/// The masks of the five widths.
pub proof fn lemma_mask_values()
    by (bit_vector)
    ensures
        slot_mask(1) == 1,
        slot_mask(2) == 3,
        slot_mask(4) == 15,
        slot_mask(8) == 255,
        slot_mask(16) == 65535,
        (1u64 << 1u64) == 2,
        (1u64 << 2u64) == 4,
        (1u64 << 4u64) == 16,
        (1u64 << 8u64) == 256,
        (1u64 << 16u64) == 65536,
{
}

/// What a slot holds fits the slot, and an empty word holds 0 everywhere.
pub proof fn lemma_slot_bound(word: u64, bits: u64, offset: u64)
    by (bit_vector)
    requires
        is_width(bits),
        offset < 64,
    ensures
        slot_at(word, bits, offset) <= slot_mask(bits),
        slot_at(0, bits, offset) == 0,
{
}

/// A number that fits a slot is not changed by the mask of the slot.
pub proof fn lemma_small_value(value: u64, bits: u64)
    by (bit_vector)
    requires
        is_width(bits),
        value <= slot_mask(bits),
    ensures
        value & slot_mask(bits) == value,
{
}

/// Writing a slot changes that slot and no other.
pub proof fn lemma_with_slot(word: u64, bits: u64, offset: u64, value: u64, other: u64)
    requires
        is_width(bits),
        offset % bits == 0,
        other % bits == 0,
        offset < 64,
        other < 64,
    ensures
        slot_at(with_slot(word, bits, offset, value), bits, other) == if other == offset {
            value & slot_mask(bits)
        } else {
            slot_at(word, bits, other)
        },
{
    if bits == 1 {
        assert(slot_at(with_slot(word, 1u64, offset, value), 1u64, other) == if other == offset {
            value & slot_mask(1u64)
        } else {
            slot_at(word, 1u64, other)
        }) by (bit_vector)
            requires
                offset % 1u64 == 0,
                other % 1u64 == 0,
                offset < 64,
                other < 64,
        ;
    } else if bits == 2 {
        assert(slot_at(with_slot(word, 2u64, offset, value), 2u64, other) == if other == offset {
            value & slot_mask(2u64)
        } else {
            slot_at(word, 2u64, other)
        }) by (bit_vector)
            requires
                offset % 2u64 == 0,
                other % 2u64 == 0,
                offset < 64,
                other < 64,
        ;
    } else if bits == 4 {
        assert(slot_at(with_slot(word, 4u64, offset, value), 4u64, other) == if other == offset {
            value & slot_mask(4u64)
        } else {
            slot_at(word, 4u64, other)
        }) by (bit_vector)
            requires
                offset % 4u64 == 0,
                other % 4u64 == 0,
                offset < 64,
                other < 64,
        ;
    } else if bits == 8 {
        assert(slot_at(with_slot(word, 8u64, offset, value), 8u64, other) == if other == offset {
            value & slot_mask(8u64)
        } else {
            slot_at(word, 8u64, other)
        }) by (bit_vector)
            requires
                offset % 8u64 == 0,
                other % 8u64 == 0,
                offset < 64,
                other < 64,
        ;
    } else if bits == 16 {
        assert(slot_at(with_slot(word, 16u64, offset, value), 16u64, other) == if other == offset {
            value & slot_mask(16u64)
        } else {
            slot_at(word, 16u64, other)
        }) by (bit_vector)
            requires
                offset % 16u64 == 0,
                other % 16u64 == 0,
                offset < 64,
                other < 64,
        ;
    }
}

/// Or-ing a number into an empty slot writes it there and changes no other slot.
pub proof fn lemma_fill_slot(word: u64, bits: u64, offset: u64, value: u64, other: u64)
    requires
        is_width(bits),
        offset % bits == 0,
        other % bits == 0,
        offset < 64,
        other < 64,
        slot_at(word, bits, offset) == 0,
    ensures
        slot_at(word | ((value & slot_mask(bits)) << offset), bits, other) == if other == offset {
            value & slot_mask(bits)
        } else {
            slot_at(word, bits, other)
        },
{
    if bits == 1 {
        assert(slot_at(word | ((value & slot_mask(1u64)) << offset), 1u64, other) == if other == offset {
            value & slot_mask(1u64)
        } else {
            slot_at(word, 1u64, other)
        }) by (bit_vector)
            requires
                offset % 1u64 == 0,
                other % 1u64 == 0,
                offset < 64,
                other < 64,
                slot_at(word, 1u64, offset) == 0,
        ;
    } else if bits == 2 {
        assert(slot_at(word | ((value & slot_mask(2u64)) << offset), 2u64, other) == if other == offset {
            value & slot_mask(2u64)
        } else {
            slot_at(word, 2u64, other)
        }) by (bit_vector)
            requires
                offset % 2u64 == 0,
                other % 2u64 == 0,
                offset < 64,
                other < 64,
                slot_at(word, 2u64, offset) == 0,
        ;
    } else if bits == 4 {
        assert(slot_at(word | ((value & slot_mask(4u64)) << offset), 4u64, other) == if other == offset {
            value & slot_mask(4u64)
        } else {
            slot_at(word, 4u64, other)
        }) by (bit_vector)
            requires
                offset % 4u64 == 0,
                other % 4u64 == 0,
                offset < 64,
                other < 64,
                slot_at(word, 4u64, offset) == 0,
        ;
    } else if bits == 8 {
        assert(slot_at(word | ((value & slot_mask(8u64)) << offset), 8u64, other) == if other == offset {
            value & slot_mask(8u64)
        } else {
            slot_at(word, 8u64, other)
        }) by (bit_vector)
            requires
                offset % 8u64 == 0,
                other % 8u64 == 0,
                offset < 64,
                other < 64,
                slot_at(word, 8u64, offset) == 0,
        ;
    } else if bits == 16 {
        assert(slot_at(word | ((value & slot_mask(16u64)) << offset), 16u64, other) == if other == offset {
            value & slot_mask(16u64)
        } else {
            slot_at(word, 16u64, other)
        }) by (bit_vector)
            requires
                offset % 16u64 == 0,
                other % 16u64 == 0,
                offset < 64,
                other < 64,
                slot_at(word, 16u64, offset) == 0,
        ;
    }
}

} // verus!
