//! A chunk that holds one block per cell.

use vstd::prelude::*;
use crate::block::BlockId;
use crate::mesh::CHUNK_SIZE;

verus! {

/// The blocks of 32x32x32 cells.
pub struct Chunk {
    blocks: [[[BlockId; CHUNK_SIZE]; CHUNK_SIZE]; CHUNK_SIZE],
}

impl Chunk {
    /// The block of the cell `(x, y, z)`: air outside the chunk.
    pub closed spec fn block(&self, x: int, y: int, z: int) -> BlockId {
        if 0 <= x < 32 && 0 <= y < 32 && 0 <= z < 32 {
            self.blocks[x][y][z]
        } else {
            BlockId(0)
        }
    }

    /// A chunk of air.
    pub fn new() -> (chunk: Self)
        ensures
            forall|x: int, y: int, z: int| #[trigger] chunk.block(x, y, z) == BlockId(0),
    {
        Chunk { blocks: [[[BlockId(0);CHUNK_SIZE];CHUNK_SIZE];CHUNK_SIZE] }
    }

    /// The block of the cell `(x, y, z)`: air outside the chunk.
    pub fn get_block(&self, x: usize, y: usize, z: usize) -> (block: BlockId)
        ensures
            block == self.block(x as int, y as int, z as int),
    {
        if x >= CHUNK_SIZE || y >= CHUNK_SIZE || z >= CHUNK_SIZE {
            return BlockId::new(0);
        }
        self.blocks[x][y][z]
    }

    /// Puts `block_id` into the cell `(x, y, z)`; does nothing outside the chunk.
    pub fn set_block(&mut self, x: usize, y: usize, z: usize, block_id: BlockId)
        ensures
            forall|a: int, b: int, c: int|
                #[trigger] final(self).block(a, b, c) == if a == x && b == y && c == z && x < 32
                    && y < 32 && z < 32 {
                    block_id
                } else {
                    old(self).block(a, b, c)
                },
    {
        if x < CHUNK_SIZE && y < CHUNK_SIZE && z < CHUNK_SIZE {
            self.blocks[x][y][z] = block_id;
        }
    }
}

impl Default for Chunk {
    fn default() -> (chunk: Self)
        ensures
            forall|x: int, y: int, z: int| #[trigger] chunk.block(x, y, z) == BlockId(0),
    {
        Chunk::new()
    }
}

/// Breaking and placing blocks.
pub trait BlockInteraction {
    /// Turns the cell `(x, y, z)` into air.
    fn break_block(&mut self, x: usize, y: usize, z: usize);

    /// Puts `block_id` into the cell `(x, y, z)` if the cell holds air, and
    /// says whether it did.
    fn place_block(&mut self, x: usize, y: usize, z: usize, block_id: BlockId) -> bool;
}

impl BlockInteraction for Chunk {
    /// The cell `(x, y, z)` holds air afterwards, all others what they held.
    fn break_block(&mut self, x: usize, y: usize, z: usize)
        ensures
            forall|a: int, b: int, c: int|
                #[trigger] final(self).block(a, b, c) == if a == x && b == y && c == z {
                    BlockId(0)
                } else {
                    old(self).block(a, b, c)
                },
    {
        self.set_block(x, y, z, BlockId::new(0));
    }

    /// The block is placed where the cell held air; a cell outside the
    /// chunk counts as air and stays so.
    fn place_block(&mut self, x: usize, y: usize, z: usize, block_id: BlockId) -> (placed: bool)
        ensures
            placed <==> old(self).block(x as int, y as int, z as int) == BlockId(0),
            forall|a: int, b: int, c: int|
                #[trigger] final(self).block(a, b, c) == if placed && a == x && b == y && c == z
                    && x < 32 && y < 32 && z < 32 {
                    block_id
                } else {
                    old(self).block(a, b, c)
                },
    {
        let current = self.get_block(x, y, z);
        if current.as_u16() == 0 {
            self.set_block(x, y, z, block_id);
            true
        } else {
            false
        }
    }
}

} // verus!
