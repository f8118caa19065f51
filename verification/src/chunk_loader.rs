//! Loading and unloading the chunks of a world.

use vstd::prelude::*;
use crate::chunk::Chunk;
use crate::world::{ChunkPos, World};

verus! {

/// Why a chunk could not be loaded.
#[derive(Debug, Clone, Copy, PartialEq, Eq, Structural)]
pub enum ChunkLoaderError {
    /// The data of the chunk could not be read.
    ParseError,
    /// There is no chunk at this place.
    InvalidPosition { x: i32, z: i32 },
}

/// Keeps a world and puts chunks in and out of it.
pub struct ChunkLoader {
    world: World,
}

impl ChunkLoader {
    /// The world that the loader keeps.
    pub closed spec fn chunks(&self) -> World {
        self.world
    }

    /// A loader with an empty world.
    pub fn new() -> (loader: Self)
        ensures
            loader.chunks()@ == Map::<ChunkPos, Chunk>::empty(),
    {
        ChunkLoader { world: World::new() }
    }

    /// The world.
    pub fn world(&self) -> (world: &World)
        ensures
            *world == self.chunks(),
    {
        &self.world
    }

    /// The world, to be changed.
    pub fn world_mut(&mut self) -> (world: &mut World)
        ensures
            *world == old(self).chunks(),
            final(self).chunks() == *final(world),
    {
        &mut self.world
    }

    /// Puts a fresh chunk of air at the place `(x, z)`, instead of the chunk
    /// that may be there.
    pub fn load_chunk(&mut self, x: i32, z: i32) -> (result: Result<(), ChunkLoaderError>)
        ensures
            result is Ok,
            final(self).chunks()@.dom() == old(self).chunks()@.dom().insert(ChunkPos { x, z }),
            forall|pos: ChunkPos|
                pos != (ChunkPos { x, z }) && old(self).chunks()@.contains_key(pos)
                    ==> #[trigger] final(self).chunks()@[pos] == old(self).chunks()@[pos],
            forall|a: int, b: int, c: int|
                #[trigger] final(self).chunks()@[ChunkPos { x, z }].block(a, b, c)
                    == crate::block::BlockId(0),
    {
        let pos = ChunkPos { x, z };
        let chunk = Chunk::new();
        self.world.set_chunk(pos, chunk);
        Ok(())
    }

    /// Takes the chunk at the place `(x, z)` out of the world, if there is one.
    pub fn unload_chunk(&mut self, x: i32, z: i32) -> (chunk: Option<Chunk>)
        ensures
            final(self).chunks()@ == old(self).chunks()@.remove(ChunkPos { x, z }),
            chunk is Some <==> old(self).chunks()@.contains_key(ChunkPos { x, z }),
            chunk is Some ==> chunk->0 == old(self).chunks()@[ChunkPos { x, z }],
    {
        let pos = ChunkPos { x, z };
        self.world.remove_chunk(pos)
    }
}

impl Default for ChunkLoader {
    fn default() -> (loader: Self)
        ensures
            loader.chunks()@ == Map::<ChunkPos, Chunk>::empty(),
    {
        ChunkLoader::new()
    }
}

} // verus!
