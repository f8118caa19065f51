//! Facts about single bits of 32-bit column masks.

use vstd::prelude::*;

verus! {

/// Bit `i` of `m` is set.
pub open spec fn bit(m: u32, i: u32) -> bool {
    (m >> i) & 1u32 == 1u32
}

/// The mask with exactly the bits from `lo` up to, not including, `hi`.
pub open spec fn range_mask(lo: u32, hi: u32) -> u32 {
    if hi >= 32 {
        !(((1u32 << lo) - 1) as u32)
    } else {
        (((1u32 << hi) - 1) as u32) & !(((1u32 << lo) - 1) as u32)
    }
}

/// The mask 0 has no bit set.
pub proof fn lemma_bit_zero()
    by (bit_vector)
    ensures
        forall|i: u32| i < 32 ==> !#[trigger] bit(0u32, i),
{
}

/// Testing a bit by shift and mask tells whether it is set.
pub proof fn lemma_bit_test(m: u32, i: u32)
    by (bit_vector)
    requires
        i < 32,
    ensures
        ((m >> i) & 1u32 != 0u32) == bit(m, i),
        ((m >> i) & 1u32 == 0u32) == !bit(m, i),
{
}

/// Or-ing a bit in sets that bit and changes no other.
pub proof fn lemma_set_bit(m: u32, k: u32)
    by (bit_vector)
    requires
        k < 32,
    ensures
        forall|i: u32| i < 32 ==> #[trigger] bit(m | (1u32 << k), i) == (bit(m, i) || i == k),
{
}

/// Masking a bit out clears that bit and changes no other.
pub proof fn lemma_clear_bit(m: u32, k: u32)
    by (bit_vector)
    requires
        k < 32,
    ensures
        forall|i: u32| i < 32 ==> #[trigger] bit(m & !(1u32 << k), i) == (bit(m, i) && i != k),
{
}

/// A one shifted by less than the width is not lost.
pub proof fn lemma_shift_one(k: u32)
    by (bit_vector)
    requires
        k < 32,
    ensures
        (1u32 << k) >= 1,
{
}

/// Masking a range of bits out clears those bits and changes no other.
pub proof fn lemma_clear_range(m: u32, lo: u32, hi: u32)
    by (bit_vector)
    requires
        lo < 32,
        lo < hi <= 32,
    ensures
        forall|i: u32|
            i < 32 ==> #[trigger] bit(m & !range_mask(lo, hi), i) == (bit(m, i) && !(lo <= i < hi)),
{
}

/// Keeps the bits of `c` whose upper neighbour is clear.
pub proof fn lemma_upper_clear(c: u32)
    by (bit_vector)
    ensures
        forall|i: u32|
            i < 31 ==> #[trigger] bit(c & !(c >> 1u32), i) == (bit(c, i) && !bit(c, (i + 1) as u32)),
        bit(c & !(c >> 1u32), 31) == bit(c, 31),
{
}

/// Keeps the bits of `c` whose lower neighbour is clear.
pub proof fn lemma_lower_clear(c: u32)
    by (bit_vector)
    ensures
        forall|i: u32|
            0 < i < 32 ==> #[trigger] bit(c & !(c << 1u32), i) == (bit(c, i) && !bit(c, (i - 1) as u32)),
        bit(c & !(c << 1u32), 0) == bit(c, 0),
{
}

/// The lowest set bit of a mask that is not zero.
pub proof fn lemma_lowest_bit(m: u32)
    requires
        m != 0,
    ensures
        m.trailing_zeros() < 32,
        bit(m, m.trailing_zeros()),
        forall|i: u32| i < m.trailing_zeros() ==> !#[trigger] bit(m, i),
{
    vstd::std_specs::bits::axiom_u32_trailing_zeros(m);
    let t = m.trailing_zeros();
    assert forall|i: u32| i < t implies !#[trigger] bit(m, i) by {
        assert((m >> i) & 1u32 == 0u32);
    }
}

} // verus!
