//! Chunk storage with a palette.
//!
//! The chunk keeps the list of the block types that occur in it, the palette,
//! and for each of its 32768 cells the place of its block in that list. The
//! places are packed into 64-bit words, each with as many bits as the size of
//! the palette asks for: none for one type, then 1, 2, 4, 8 or 16 bits.

use vstd::prelude::*;
use crate::block::BlockId;
use crate::packing::{
    is_width, lemma_fill_slot, lemma_mask_values, lemma_slot_bound, lemma_small_value,
    lemma_with_slot, slot_at, slot_mask, with_slot,
};

verus! {

/// Number of cells in a chunk.
pub const TOTAL_BLOCKS: usize = 32768;

/// Where the cell `(x, y, z)` stands among the cells of a chunk.
pub open spec fn spec_block_index(x: int, y: int, z: int) -> int {
    x * 1024 + y * 32 + z
}

/// Where the cell `(x, y, z)` stands among the cells of a chunk.
pub fn block_index(x: usize, y: usize, z: usize) -> (i: usize)
    requires
        spec_block_index(x as int, y as int, z as int) <= usize::MAX,
    ensures
        i == spec_block_index(x as int, y as int, z as int),
{
    x * 32 * 32 + y * 32 + z
}

/// The number of bits for a place in a palette of `n` types.
pub open spec fn spec_bits_needed(n: int) -> u8 {
    if n <= 1 {
        0
    } else if n == 2 {
        1
    } else if n <= 4 {
        2
    } else if n <= 16 {
        4
    } else if n <= 256 {
        8
    } else {
        16
    }
}

/// The number of bits for a place in a palette of `palette_size` types: the
/// least of 0, 1, 2, 4, 8 and 16 that can tell that many types apart; 16 for
/// more than 256 types.
pub fn bits_needed(palette_size: usize) -> (bits: u8)
    ensures
        bits == spec_bits_needed(palette_size as int),
{
    if palette_size <= 1 {
        0
    } else if palette_size == 2 {
        1
    } else if palette_size <= 4 {
        2
    } else if palette_size <= 16 {
        4
    } else if palette_size <= 256 {
        8
    } else {
        16
    }
}

/// How many types places of `bits` bits can tell apart.
pub open spec fn types_told_apart(bits: u8) -> int {
    if bits == 0 {
        1
    } else if bits == 1 {
        2
    } else if bits == 2 {
        4
    } else if bits == 4 {
        16
    } else if bits == 8 {
        256
    } else {
        65536
    }
}

/// The bits for a palette tell its types apart, and no narrower width of 0,
/// 1, 2, 4, 8 and 16 bits does.
pub proof fn lemma_bits_needed_fits(n: int, narrower: u8)
    requires
        1 <= n <= 65536,
        narrower == 0 || narrower == 1 || narrower == 2 || narrower == 4 || narrower == 8,
        narrower < spec_bits_needed(n),
    ensures
        n <= types_told_apart(spec_bits_needed(n)),
        n > types_told_apart(narrower),
{
}

/// A palette that grows never needs fewer bits.
pub proof fn lemma_bits_needed_grows(smaller: int, larger: int)
    requires
        smaller <= larger,
    ensures
        spec_bits_needed(smaller) <= spec_bits_needed(larger),
{
}

/// A chunk made of blocks gives every one of them back.
pub proof fn lemma_round_trip(chunk: CompressedChunk, blocks: Seq<BlockId>, x: int, y: int, z: int)
    requires
        chunk@ == blocks,
        blocks.len() == 32768,
        0 <= x < 32,
        0 <= y < 32,
        0 <= z < 32,
    ensures
        0 <= spec_block_index(x, y, z) < 32768,
        chunk@[spec_block_index(x, y, z)] == blocks[spec_block_index(x, y, z)],
{
}

/// How many places of `bits` bits a word holds.
pub open spec fn per_word(bits: u8) -> int {
    if bits == 1 {
        64
    } else if bits == 2 {
        32
    } else if bits == 4 {
        16
    } else if bits == 8 {
        8
    } else {
        4
    }
}

/// The word that holds the place of cell `i`.
pub open spec fn word_of(bits: u8, i: int) -> int {
    i / per_word(bits)
}

/// The bit at which the place of cell `i` starts in its word.
pub open spec fn offset_of(bits: u8, i: int) -> int {
    if bits == 1 {
        i % 64
    } else if bits == 2 {
        (i % 32) * 2
    } else if bits == 4 {
        (i % 16) * 4
    } else if bits == 8 {
        (i % 8) * 8
    } else {
        (i % 4) * 16
    }
}

/// How many words hold the places of all cells.
pub open spec fn words_for(bits: u8) -> int {
    512 * bits
}

/// The place stored for cell `i`; with no bits per place, the first place.
pub open spec fn stored_index(data: Seq<u64>, bits: u8, i: int) -> int {
    if bits == 0 {
        0
    } else {
        slot_at(data[word_of(bits, i)], bits as u64, offset_of(bits, i) as u64) as int
    }
}

/// The types of `v` in the order in which they first occur.
pub open spec fn first_seen(v: Seq<BlockId>) -> Seq<BlockId>
    decreases v.len(),
{
    if v.len() == 0 {
        Seq::empty()
    } else {
        let before = first_seen(v.drop_last());
        if before.contains(v.last()) {
            before
        } else {
            before.push(v.last())
        }
    }
}

/// Where the place of a cell lies.
proof fn lemma_place(bits: u8, i: int)
    requires
        is_width(bits as u64),
        0 <= i < 32768,
    ensures
        0 <= word_of(bits, i) < words_for(bits),
        0 <= offset_of(bits, i) < 64,
        offset_of(bits, i) % (bits as int) == 0,
        (offset_of(bits, i) as u64) % (bits as u64) == 0,
        per_word(bits) == 64int / (bits as int),
        offset_of(bits, i) == (i % per_word(bits)) * bits,
        words_for(bits) == (32768 + per_word(bits) - 1) / per_word(bits),
{
    if bits == 1 {
        assert(64int / 1 == 64);
    } else if bits == 2 {
        assert(64int / 2 == 32);
        assert(((i % 32) * 2) % 2 == 0);
    } else if bits == 4 {
        assert(64int / 4 == 16);
        assert(((i % 16) * 4) % 4 == 0);
    } else if bits == 8 {
        assert(64int / 8 == 8);
        assert(((i % 8) * 8) % 8 == 0);
    } else {
        assert(64int / 16 == 4);
        assert(((i % 4) * 16) % 16 == 0);
    }
}

/// Two cells do not share a place.
proof fn lemma_places_differ(bits: u8, i: int, j: int)
    requires
        is_width(bits as u64),
        0 <= i < 32768,
        0 <= j < 32768,
        i != j,
        word_of(bits, i) == word_of(bits, j),
    ensures
        offset_of(bits, i) != offset_of(bits, j),
{
}

/// No more than 65536 different types exist.
proof fn lemma_distinct_bound(s: Seq<BlockId>)
    requires
        s.no_duplicates(),
    ensures
        s.len() <= 65536,
{
    let ids = Seq::new(s.len(), |i: int| s[i].0 as int);
    assert forall|i: int, j: int| 0 <= i < ids.len() && 0 <= j < ids.len() && i != j implies ids[i]
        != ids[j] by {
        assert(s[i] != s[j]);
    }
    ids.unique_seq_to_set();
    vstd::set_lib::lemma_int_range(0, 65536);
    let all = vstd::set_lib::set_int_range(0, 65536);
    assert forall|v: int| ids.to_set().contains(v) implies all.contains(v) by {
        let i = choose|i: int| 0 <= i < ids.len() && ids[i] == v;
    }
    vstd::set_lib::lemma_len_subset(ids.to_set(), all);
}

/// What one more block adds to the types seen.
proof fn lemma_first_seen_push(v: Seq<BlockId>, e: BlockId)
    ensures
        first_seen(v.push(e)) == if first_seen(v).contains(e) {
            first_seen(v)
        } else {
            first_seen(v).push(e)
        },
{
    assert(v.push(e).drop_last() =~= v);
}

/// `Vec::capacity` of std: how many elements the vector has room for without
/// allocating again, which is never less than its length.
#[verifier::external_body]
fn capacity_of<T>(v: &Vec<T>) -> (c: usize)
    ensures
        c >= v@.len(),
{
    v.capacity()
}

/// `a * b`, or the largest number where the product does not fit.
fn times_or_most(a: usize, b: usize) -> (c: usize)
    ensures
        c == if a * b <= usize::MAX {
            a * b
        } else {
            usize::MAX as int
        },
{
    match a.checked_mul(b) {
        Some(c) => c,
        None => usize::MAX,
    }
}

/// The place of `id` in `palette`, if it is there.
fn find_in_palette(palette: &Vec<BlockId>, id: BlockId) -> (found: Option<usize>)
    ensures
        match found {
            Some(i) => i < palette@.len() && palette@[i as int] == id,
            None => !palette@.contains(id),
        },
{
    let mut i: usize = 0;
    while i < palette.len()
        invariant
            i <= palette@.len(),
            forall|j: int| 0 <= j < i ==> palette@[j] != id,
        decreases palette@.len() - i,
    {
        if palette[i] == id {
            return Some(i);
        }
        i += 1;
    }
    None
}

/// Packs the places `indices` into words with `bpb` bits per place.
fn pack_indices(indices: &[u16; TOTAL_BLOCKS], bpb: u8) -> (data: Vec<u64>)
    requires
        bpb == 0 || is_width(bpb as u64),
    ensures
        data@.len() == words_for(bpb),
        bpb != 0 ==> forall|i: int|
            0 <= i < 32768 ==> #[trigger] stored_index(data@, bpb, i) == (indices[i] as u64
                & slot_mask(bpb as u64)),
{
    if bpb == 0 {
        return Vec::new();
    }
    let bits = bpb;
    let bpb = bpb as usize;
    let indices_per_u64 = 64 / bpb;
    proof {
        lemma_place(bits, 0);
        lemma_mask_values();
    }
    let num_words = (TOTAL_BLOCKS + indices_per_u64 - 1) / indices_per_u64;
    let mut data = vec![0u64; num_words];
    let mask = (1u64 << (bpb as u64)) - 1;
    proof {
        assert forall|i: int| 0 <= i < 32768 implies #[trigger] stored_index(data@, bits, i)
            == 0 by {
            lemma_place(bits, i);
            lemma_slot_bound(0, bits as u64, offset_of(bits, i) as u64);
        }
    }

    for i in 0..TOTAL_BLOCKS
        invariant
            is_width(bits as u64),
            bpb == bits,
            indices_per_u64 == per_word(bits),
            mask == slot_mask(bits as u64),
            data@.len() == words_for(bits),
            forall|j: int|
                0 <= j < 32768 ==> #[trigger] stored_index(data@, bits, j) == if j < i {
                    (indices[j] as u64 & mask) as int
                } else {
                    0
                },
    {
        let idx = indices[i];
        proof {
            lemma_place(bits, i as int);
        }
        let word_idx = i / indices_per_u64;
        let bit_offset = (i % indices_per_u64) * bpb;
        let ghost before = data@;
        let word = data[word_idx];
        data[word_idx] = word | ((idx as u64 & mask) << (bit_offset as u64));
        proof {
            assert(stored_index(before, bits, i as int) == 0);
            assert forall|j: int| 0 <= j < 32768 implies #[trigger] stored_index(data@, bits, j)
                == if j < i + 1 {
                (indices[j] as u64 & mask) as int
            } else {
                0
            } by {
                lemma_place(bits, j);
                if word_of(bits, j) == word_idx {
                    if j != i {
                        lemma_places_differ(bits, i as int, j);
                    }
                    lemma_fill_slot(
                        word,
                        bits as u64,
                        bit_offset as u64,
                        idx as u64,
                        offset_of(bits, j) as u64,
                    );
                } else {
                    assert(data@[word_of(bits, j)] == before[word_of(bits, j)]);
                }
                assert(stored_index(before, bits, j) == if j < i {
                    (indices[j] as u64 & mask) as int
                } else {
                    0
                });
            }
        }
    }
    data
}

/// A chunk stored with a palette.
pub struct CompressedChunk {
    palette: Vec<BlockId>,
    data: Vec<u64>,
    bits_per_block: u8,
}

impl View for CompressedChunk {
    type V = Seq<BlockId>;

    /// The blocks of the chunk, cell by cell, see [`spec_block_index`].
    closed spec fn view(&self) -> Seq<BlockId> {
        Seq::new(
            32768,
            |i: int| self.palette@[stored_index(self.data@, self.bits_per_block, i)],
        )
    }
}

impl CompressedChunk {
    /// The types that occur in the chunk, in the order in which they came.
    pub closed spec fn palette(&self) -> Seq<BlockId> {
        self.palette@
    }

    /// The number of bits per place.
    pub closed spec fn bits(&self) -> u8 {
        self.bits_per_block
    }

    /// The number of words that hold the places.
    pub closed spec fn words(&self) -> int {
        self.data@.len() as int
    }

    /// The palette is not empty and holds no type twice, the places have the
    /// number of bits that the size of the palette asks for, and every place
    /// lies in the palette.
    pub closed spec fn wf(&self) -> bool {
        &&& 1 <= self.palette@.len() <= 65536
        &&& self.palette@.no_duplicates()
        &&& self.bits_per_block == spec_bits_needed(self.palette@.len() as int)
        &&& self.data@.len() == words_for(self.bits_per_block)
        &&& forall|i: int|
            0 <= i < 32768 ==> 0 <= #[trigger] stored_index(self.data@, self.bits_per_block, i)
                < self.palette@.len()
    }

    /// What a well-formed chunk is known to satisfy.
    pub proof fn lemma_wf(&self)
        requires
            self.wf(),
        ensures
            self@.len() == 32768,
            1 <= self.palette().len() <= 65536,
            self.palette().no_duplicates(),
            self.bits() == spec_bits_needed(self.palette().len() as int),
            self.words() == words_for(self.bits()),
            forall|i: int| 0 <= i < 32768 ==> self.palette().contains(#[trigger] self@[i]),
    {
        assert forall|i: int| 0 <= i < 32768 implies self.palette().contains(#[trigger] self@[i]) by {
            let k = stored_index(self.data@, self.bits_per_block, i);
            assert(self.palette@[k] == self@[i]);
        }
    }

    /// A chunk of air.
    pub fn new() -> (chunk: Self)
        ensures
            chunk.wf(),
            chunk.palette() == seq![BlockId(0)],
            chunk.bits() == 0,
            chunk.words() == 0,
            chunk@.len() == 32768,
            forall|i: int| 0 <= i < 32768 ==> #[trigger] chunk@[i] == BlockId(0),
    {
        let mut palette = Vec::new();
        palette.push(BlockId::new(0));
        assert(palette@ =~= seq![BlockId(0)]);
        CompressedChunk { palette, data: Vec::new(), bits_per_block: 0 }
    }

    /// The block of the cell `(x, y, z)`; air outside the chunk.
    pub fn get_block(&self, x: usize, y: usize, z: usize) -> (block: BlockId)
        requires
            self.wf(),
        ensures
            block == if x < 32 && y < 32 && z < 32 {
                self@[spec_block_index(x as int, y as int, z as int)]
            } else {
                BlockId(0)
            },
    {
        if x >= 32 || y >= 32 || z >= 32 {
            return BlockId::new(0);
        }
        let index = block_index(x, y, z);
        let palette_idx = self.get_palette_index(index);
        self.palette[palette_idx]
    }

    /// Puts the block `block_id` into the cell `(x, y, z)`; does nothing
    /// outside the chunk. A type that the palette does not hold yet is added
    /// to its end, and the places get more bits where the palette has outgrown
    /// them.
    pub fn set_block(&mut self, x: usize, y: usize, z: usize, block_id: BlockId)
        requires
            old(self).wf(),
        ensures
            final(self).wf(),
            final(self)@.len() == 32768,
            old(self)@.len() == 32768,
            final(self).bits() == spec_bits_needed(final(self).palette().len() as int),
            final(self).bits() >= old(self).bits(),
            final(self).words() == words_for(final(self).bits()),
            x < 32 && y < 32 && z < 32 ==> {
                &&& final(self)@ == old(self)@.update(
                    spec_block_index(x as int, y as int, z as int),
                    block_id,
                )
                &&& final(self).palette() == if old(self).palette().contains(block_id) {
                    old(self).palette()
                } else {
                    old(self).palette().push(block_id)
                }
            },
            !(x < 32 && y < 32 && z < 32) ==> {
                &&& final(self)@ == old(self)@
                &&& final(self).palette() == old(self).palette()
                &&& final(self).bits() == old(self).bits()
            },
    {
        if x >= 32 || y >= 32 || z >= 32 {
            return ;
        }
        let ghost before = old(self)@;
        let ghost start = *self;

        let palette_idx = match find_in_palette(&self.palette, block_id) {
            Some(idx) => idx,
            None => {
                self.palette.push(block_id);
                let new_idx = self.palette.len() - 1;
                proof {
                    assert forall|i: int, j: int|
                        0 <= i < self.palette@.len() && 0 <= j < self.palette@.len() && i
                            != j implies self.palette@[i] != self.palette@[j] by {
                        if i < new_idx {
                            assert(self.palette@[i] == start.palette@[i]);
                            assert(start.palette@.contains(start.palette@[i]));
                        }
                        if j < new_idx {
                            assert(self.palette@[j] == start.palette@[j]);
                            assert(start.palette@.contains(start.palette@[j]));
                        }
                    }
                    lemma_distinct_bound(self.palette@);
                }

                let required_bpb = bits_needed(self.palette.len());
                if required_bpb > self.bits_per_block {
                    self.resize_storage(required_bpb);
                }
                new_idx
            },
        };
        proof {
            assert forall|i: int| 0 <= i < 32768 implies self.palette@[stored_index(
                self.data@,
                self.bits_per_block,
                i,
            )] == #[trigger] before[i] by {
                let k = stored_index(start.data@, start.bits_per_block, i);
                assert(stored_index(self.data@, self.bits_per_block, i) == k);
                assert(self.palette@[k] == start.palette@[k]);
            }
            lemma_mask_values();
        }

        let index = block_index(x, y, z);
        self.set_palette_index(index, palette_idx);
        proof {
            assert(self@ =~= before.update(index as int, block_id));
        }
    }

    /// The bytes that the chunk takes: the struct itself and what its palette
    /// and its words have room for, which is at least what they hold. Where
    /// the sum does not fit, the largest number.
    pub fn memory_usage(&self) -> (bytes: usize)
        ensures
            bytes == usize::MAX || bytes >= vstd::layout::size_of::<Self>() + self.palette().len()
                * vstd::layout::size_of::<BlockId>() + self.words() * vstd::layout::size_of::<u64>(),
    {
        let struct_size = core::mem::size_of::<Self>();
        let palette_room = capacity_of(&self.palette);
        let data_room = capacity_of(&self.data);
        let palette_heap = times_or_most(palette_room, core::mem::size_of::<BlockId>());
        let data_heap = times_or_most(data_room, core::mem::size_of::<u64>());
        proof {
            assert(self.palette@.len() * vstd::layout::size_of::<BlockId>() <= palette_room
                * vstd::layout::size_of::<BlockId>()) by (nonlinear_arith)
                requires
                    self.palette@.len() <= palette_room,
            ;
            assert(self.data@.len() * vstd::layout::size_of::<u64>() <= data_room
                * vstd::layout::size_of::<u64>()) by (nonlinear_arith)
                requires
                    self.data@.len() <= data_room,
            ;
        }
        struct_size.saturating_add(palette_heap).saturating_add(data_heap)
    }

    /// The number of types in the palette.
    pub fn palette_size(&self) -> (n: usize)
        ensures
            n == self.palette().len(),
    {
        self.palette.len()
    }

    /// The number of bits per place.
    pub fn bits_per_block(&self) -> (bits: u8)
        ensures
            bits == self.bits(),
    {
        self.bits_per_block
    }

    /// The chunk that holds `blocks`, cell by cell. Its palette holds the
    /// types of `blocks` in the order in which they first occur.
    pub fn from_blocks(blocks: &[BlockId; TOTAL_BLOCKS]) -> (chunk: Self)
        ensures
            chunk.wf(),
            chunk@ == blocks@,
            chunk.palette() == first_seen(blocks@),
            chunk.bits() == spec_bits_needed(chunk.palette().len() as int),
    {
        let mut palette: Vec<BlockId> = Vec::new();
        let mut indices = [0u16;TOTAL_BLOCKS];

        for i in 0..TOTAL_BLOCKS
            invariant
                palette@ == first_seen(blocks@.take(i as int)),
                palette@.no_duplicates(),
                palette@.len() <= i,
                i > 0 ==> palette@.len() >= 1,
                forall|j: int|
                    0 <= j < i ==> (#[trigger] indices[j]) < palette@.len()
                        && palette@[indices[j] as int] == blocks[j],
        {
            let block = blocks[i];
            let ghost before = palette@;
            proof {
                lemma_first_seen_push(blocks@.take(i as int), block);
                assert(blocks@.take(i as int).push(block) =~= blocks@.take(i + 1));
            }
            let idx = match find_in_palette(&palette, block) {
                Some(idx) => idx,
                None => {
                    palette.push(block);
                    palette.len() - 1
                },
            };
            indices[i] = idx as u16;
            proof {
                assert forall|j: int| 0 <= j < i + 1 implies (#[trigger] indices[j]) < palette@.len()
                    && palette@[indices[j] as int] == blocks[j] by {
                    if j < i {
                        assert(palette@[indices[j] as int] == before[indices[j] as int]);
                    }
                }
                assert forall|a: int, b: int|
                    0 <= a < palette@.len() && 0 <= b < palette@.len() && a != b implies palette@[a]
                    != palette@[b] by {
                    if a < before.len() {
                        assert(before.contains(before[a]));
                    }
                    if b < before.len() {
                        assert(before.contains(before[b]));
                    }
                }
            }
        }
        proof {
            assert(blocks@.take(32768) =~= blocks@);
            lemma_mask_values();
        }

        let bpb = bits_needed(palette.len());
        let data = if bpb == 0 {
            Vec::new()
        } else {
            pack_indices(&indices, bpb)
        };
        let chunk = CompressedChunk { palette, data, bits_per_block: bpb };
        proof {
            assert forall|i: int| 0 <= i < 32768 implies #[trigger] stored_index(
                chunk.data@,
                bpb,
                i,
            ) == indices[i] by {
                if bpb != 0 {
                    lemma_small_value(indices[i] as u64, bpb as u64);
                    assert(stored_index(chunk.data@, bpb, i) == (indices[i] as u64 & slot_mask(
                        bpb as u64,
                    )));
                } else {
                    assert(indices[i] < chunk.palette@.len());
                }
            }
            assert forall|i: int| 0 <= i < 32768 implies chunk@[i] == blocks@[i] by {
                assert(stored_index(chunk.data@, bpb, i) == indices[i]);
                assert(chunk.palette@[indices[i] as int] == blocks[i]);
            }
            assert(chunk@ =~= blocks@);
        }
        chunk
    }

    /// The place stored for the cell number `block_idx`.
    fn get_palette_index(&self, block_idx: usize) -> (idx: usize)
        requires
            self.wf(),
            block_idx < 32768,
        ensures
            idx == stored_index(self.data@, self.bits_per_block, block_idx as int),
            idx < self.palette@.len(),
            self.palette@[idx as int] == self@[block_idx as int],
    {
        if self.bits_per_block == 0 {
            return 0;
        }
        proof {
            lemma_place(self.bits_per_block, block_idx as int);
            assert(0 <= stored_index(self.data@, self.bits_per_block, block_idx as int)
                < self.palette@.len());
            lemma_mask_values();
        }
        let bpb = self.bits_per_block as usize;
        let indices_per_u64 = 64 / bpb;
        let word_idx = block_idx / indices_per_u64;
        let bit_offset = (block_idx % indices_per_u64) * bpb;
        let mask = (1u64 << (bpb as u64)) - 1;

        ((self.data[word_idx] >> (bit_offset as u64)) & mask) as usize
    }

    /// Stores the place `palette_idx` for the cell number `block_idx`.
    fn set_palette_index(&mut self, block_idx: usize, palette_idx: usize)
        requires
            old(self).bits_per_block == 0 || is_width(old(self).bits_per_block as u64),
            old(self).data@.len() == words_for(old(self).bits_per_block),
            block_idx < 32768,
            old(self).bits_per_block == 0 ==> palette_idx == 0,
            old(self).bits_per_block != 0 ==> palette_idx <= slot_mask(
                old(self).bits_per_block as u64,
            ),
        ensures
            final(self).palette == old(self).palette,
            final(self).bits_per_block == old(self).bits_per_block,
            final(self).data@.len() == old(self).data@.len(),
            forall|i: int|
                0 <= i < 32768 ==> #[trigger] stored_index(
                    final(self).data@,
                    final(self).bits_per_block,
                    i,
                ) == if i == block_idx {
                    palette_idx as int
                } else {
                    stored_index(old(self).data@, old(self).bits_per_block, i)
                },
    {
        if self.bits_per_block == 0 {
            return ;
        }
        let bits = self.bits_per_block;
        proof {
            lemma_place(bits, block_idx as int);
            lemma_mask_values();
        }
        let bpb = self.bits_per_block as usize;
        let indices_per_u64 = 64 / bpb;
        let word_idx = block_idx / indices_per_u64;
        let bit_offset = (block_idx % indices_per_u64) * bpb;
        let mask = (1u64 << (bpb as u64)) - 1;

        let ghost before = self.data@;
        let word = self.data[word_idx];
        let cleared = word & !(mask << (bit_offset as u64));
        self.data[word_idx] = cleared;
        let word = self.data[word_idx];
        self.data[word_idx] = word | ((palette_idx as u64 & mask) << (bit_offset as u64));
        proof {
            let now = with_slot(before[word_idx as int], bits as u64, bit_offset as u64, palette_idx as u64);
            assert(self.data@[word_idx as int] == now);
            lemma_small_value(palette_idx as u64, bits as u64);
            assert forall|i: int| 0 <= i < 32768 implies #[trigger] stored_index(
                self.data@,
                bits,
                i,
            ) == if i == block_idx {
                palette_idx as int
            } else {
                stored_index(before, bits, i)
            } by {
                lemma_place(bits, i);
                if word_of(bits, i) == word_idx {
                    if i != block_idx {
                        lemma_places_differ(bits, block_idx as int, i);
                    }
                    lemma_with_slot(
                        before[word_idx as int],
                        bits as u64,
                        bit_offset as u64,
                        palette_idx as u64,
                        offset_of(bits, i) as u64,
                    );
                } else {
                    assert(self.data@[word_of(bits, i)] == before[word_of(bits, i)]);
                }
            }
        }
    }

    /// Gives the places `new_bpb` bits each and keeps what they hold.
    fn resize_storage(&mut self, new_bpb: u8)
        requires
            old(self).bits_per_block == 0 || is_width(old(self).bits_per_block as u64),
            old(self).data@.len() == words_for(old(self).bits_per_block),
            is_width(new_bpb as u64),
            new_bpb > old(self).bits_per_block,
        ensures
            final(self).palette == old(self).palette,
            final(self).bits_per_block == new_bpb,
            final(self).data@.len() == words_for(new_bpb),
            forall|i: int|
                0 <= i < 32768 ==> #[trigger] stored_index(final(self).data@, new_bpb, i)
                    == stored_index(old(self).data@, old(self).bits_per_block, i),
    {
        let old_bpb = self.bits_per_block;

        if old_bpb == new_bpb {
            return ;
        }
        let mut indices = [0u16;TOTAL_BLOCKS];
        if old_bpb > 0 {
            let old_bpb_usize = old_bpb as usize;
            let old_per_u64 = 64 / old_bpb_usize;
            proof {
                lemma_place(old_bpb, 0);
                lemma_mask_values();
            }
            let old_mask = (1u64 << (old_bpb_usize as u64)) - 1;

            for i in 0..TOTAL_BLOCKS
                invariant
                    is_width(old_bpb as u64),
                    old_bpb < 16,
                    old_bpb == self.bits_per_block,
                    old_bpb_usize == old_bpb,
                    old_per_u64 == per_word(old_bpb),
                    old_mask == slot_mask(old_bpb as u64),
                    self.data@.len() == words_for(old_bpb),
                    forall|j: int|
                        0 <= j < i ==> (#[trigger] indices[j]) as int == stored_index(
                            self.data@,
                            old_bpb,
                            j,
                        ),
            {
                proof {
                    lemma_place(old_bpb, i as int);
                    lemma_mask_values();
                }
                let word_idx = i / old_per_u64;
                let bit_offset = (i % old_per_u64) * old_bpb_usize;
                proof {
                    lemma_slot_bound(self.data@[word_idx as int], old_bpb as u64, bit_offset as u64);
                }
                indices[i] = ((self.data[word_idx] >> (bit_offset as u64)) & old_mask) as u16;
            }
        }
        let ghost old_data = self.data@;

        self.bits_per_block = new_bpb;
        self.data = pack_indices(&indices, new_bpb);
        proof {
            lemma_mask_values();
            assert forall|i: int| 0 <= i < 32768 implies #[trigger] stored_index(
                self.data@,
                new_bpb,
                i,
            ) == stored_index(old_data, old_bpb, i) by {
                assert(stored_index(self.data@, new_bpb, i) == (indices[i] as u64 & slot_mask(
                    new_bpb as u64,
                )));
                if old_bpb > 0 {
                    lemma_place(old_bpb, i);
                    lemma_slot_bound(
                        old_data[word_of(old_bpb, i)],
                        old_bpb as u64,
                        offset_of(old_bpb, i) as u64,
                    );
                    assert(indices[i] as int == stored_index(old_data, old_bpb, i));
                }
                assert(indices[i] as u64 <= slot_mask(new_bpb as u64));
                lemma_small_value(indices[i] as u64, new_bpb as u64);
            }
        }
    }
}

impl Default for CompressedChunk {
    fn default() -> (chunk: Self)
        ensures
            chunk.wf(),
            chunk.palette() == seq![BlockId(0)],
            chunk@.len() == 32768,
            forall|i: int| 0 <= i < 32768 ==> #[trigger] chunk@[i] == BlockId(0),
    {
        CompressedChunk::new()
    }
}

} // verus!
