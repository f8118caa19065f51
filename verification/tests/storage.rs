use ferrum::block::BlockId;
use ferrum::chunk::Chunk;
use ferrum::chunk_loader::{ChunkLoader, ChunkLoaderError};
use ferrum::compressed::{bits_needed, CompressedChunk, TOTAL_BLOCKS};
use ferrum::world::{ChunkPos, World};

#[test]
fn palette_widens_step_by_step() {
    let mut chunk = CompressedChunk::new();
    assert_eq!(chunk.bits_per_block(), 0);
    chunk.set_block(0, 0, 0, BlockId::new(1));
    assert_eq!(chunk.bits_per_block(), 1);
    chunk.set_block(1, 0, 0, BlockId::new(3));
    assert_eq!(chunk.bits_per_block(), 2);
    chunk.set_block(2, 0, 0, BlockId::new(9));
    assert_eq!(chunk.bits_per_block(), 2);
    chunk.set_block(3, 0, 0, BlockId::new(10));
    assert_eq!(chunk.bits_per_block(), 4);
    assert_eq!(chunk.get_block(0, 0, 0), BlockId::new(1));
    assert_eq!(chunk.get_block(1, 0, 0), BlockId::new(3));
    assert_eq!(chunk.get_block(2, 0, 0), BlockId::new(9));
    assert_eq!(chunk.get_block(3, 0, 0), BlockId::new(10));
    assert_eq!(chunk.get_block(4, 0, 0), BlockId::new(0));
}

#[test]
fn palette_of_many_types_gets_the_widest_places() {
    let mut chunk = CompressedChunk::new();
    let mut widest = 0;
    for i in 0..300usize {
        chunk.set_block(i % 32, (i / 32) % 32, 0, BlockId::new(i as u16));
        assert!(chunk.bits_per_block() >= widest);
        widest = chunk.bits_per_block();
        assert_eq!(chunk.bits_per_block(), bits_needed(chunk.palette_size()));
    }
    assert_eq!(chunk.palette_size(), 300);
    assert_eq!(chunk.bits_per_block(), 16);
    for i in 0..300usize {
        assert_eq!(chunk.get_block(i % 32, (i / 32) % 32, 0), BlockId::new(i as u16));
    }
    assert_eq!(chunk.get_block(0, 0, 1), BlockId::new(0));
}

#[test]
fn chunk_of_blocks_gives_every_block_back() {
    let mut blocks = [BlockId::new(0); TOTAL_BLOCKS];
    for (i, block) in blocks.iter_mut().enumerate() {
        *block = BlockId::new(((i * 7 + i / 1024) % 23) as u16);
    }
    let chunk = CompressedChunk::from_blocks(&blocks);
    assert_eq!(chunk.palette_size(), 23);
    assert_eq!(chunk.bits_per_block(), 8);
    for x in 0..32 {
        for y in 0..32 {
            for z in 0..32 {
                assert_eq!(chunk.get_block(x, y, z), blocks[x * 1024 + y * 32 + z]);
            }
        }
    }
}

#[test]
fn memory_counts_what_the_chunk_holds() {
    let empty = CompressedChunk::new();
    assert!(empty.memory_usage() >= std::mem::size_of::<CompressedChunk>() + 2);
    let mut two = CompressedChunk::new();
    two.set_block(0, 0, 0, BlockId::new(1));
    assert!(two.memory_usage() >= std::mem::size_of::<CompressedChunk>() + 4 + 512 * 8);
    assert!(two.memory_usage() < 5_000);
    assert!(CompressedChunk::default().memory_usage() < 100);
}

#[test]
fn writes_outside_the_chunk_change_nothing() {
    let mut chunk = CompressedChunk::new();
    chunk.set_block(0, 32, 0, BlockId::new(5));
    chunk.set_block(0, 0, usize::MAX, BlockId::new(5));
    assert_eq!(chunk.palette_size(), 1);
    assert_eq!(chunk.bits_per_block(), 0);
    let mut plain = Chunk::new();
    plain.set_block(32, 0, 0, BlockId::new(5));
    assert_eq!(plain.get_block(32, 0, 0), BlockId::new(0));
    assert_eq!(Chunk::default().get_block(1, 2, 3), BlockId::new(0));
}

#[test]
fn chunk_of_a_world_can_be_changed_in_place() {
    let mut world = World::new();
    let pos = ChunkPos { x: -3, z: 7 };
    assert!(world.get_chunk_mut(pos).is_none());
    world.set_chunk(pos, Chunk::new());
    world.set_chunk(ChunkPos { x: 7, z: -3 }, Chunk::new());
    world.get_chunk_mut(pos).unwrap().set_block(1, 2, 3, BlockId::new(4));
    assert_eq!(world.get_chunk(pos).unwrap().get_block(1, 2, 3), BlockId::new(4));
    assert_eq!(
        world.get_chunk(ChunkPos { x: 7, z: -3 }).unwrap().get_block(1, 2, 3),
        BlockId::new(0)
    );
    assert_eq!(world.chunk_count(), 2);
}

#[test]
fn places_of_a_world_are_listed_once_each() {
    let mut world = World::default();
    assert!(world.iter_chunks().is_empty());
    let places = [
        ChunkPos { x: i32::MIN, z: i32::MAX },
        ChunkPos { x: 0, z: 0 },
        ChunkPos { x: -1, z: -1 },
        ChunkPos { x: i32::MAX, z: i32::MIN },
    ];
    for (i, pos) in places.iter().enumerate() {
        let mut chunk = Chunk::new();
        chunk.set_block(0, 0, 0, BlockId::new(i as u16 + 1));
        world.set_chunk(*pos, chunk);
    }
    let listed = world.iter_chunks();
    assert_eq!(listed.len(), 4);
    for (i, pos) in places.iter().enumerate() {
        let found: Vec<_> = listed.iter().filter(|(p, _)| p == pos).collect();
        assert_eq!(found.len(), 1);
        assert_eq!(found[0].1.get_block(0, 0, 0), BlockId::new(i as u16 + 1));
    }
}

#[test]
fn loader_loads_chunks_of_air() {
    let mut loader = ChunkLoader::default();
    assert_eq!(loader.load_chunk(2, -2), Ok(()));
    assert!(loader.world().has_chunk(ChunkPos { x: 2, z: -2 }));
    assert_eq!(loader.world().chunk_count(), 1);
    let chunk = loader.unload_chunk(2, -2).unwrap();
    assert_eq!(chunk.get_block(0, 0, 0), BlockId::new(0));
    assert!(loader.world().is_empty());
    assert_ne!(
        ChunkLoaderError::ParseError,
        ChunkLoaderError::InvalidPosition { x: 0, z: 0 }
    );
}
