use ferrum::chunk::Chunk;
use ferrum::chunk_loader::ChunkLoader;
use ferrum::world::ChunkPos;

#[test]
fn test_chunk_loader_creation() {
    let loader = ChunkLoader::new();
    assert!(loader.world().is_empty());
}

#[test]
fn test_unload_chunk_directly() {
    let mut loader = ChunkLoader::new();

    let pos = ChunkPos { x: 5, z: 10 };
    loader.world_mut().set_chunk(pos, Chunk::new());
    assert!(loader.world().has_chunk(pos));

    let unloaded = loader.unload_chunk(5, 10);
    assert!(unloaded.is_some());
    assert!(!loader.world().has_chunk(pos));
}

#[test]
fn test_unload_nonexistent_chunk() {
    let mut loader = ChunkLoader::new();
    let unloaded = loader.unload_chunk(99, 99);
    assert!(unloaded.is_none());
}

#[test]
fn test_world_access() {
    let mut loader = ChunkLoader::new();

    loader
        .world_mut()
        .set_chunk(ChunkPos { x: 0, z: 0 }, Chunk::new());
    loader
        .world_mut()
        .set_chunk(ChunkPos { x: 1, z: 1 }, Chunk::new());

    assert_eq!(loader.world().chunk_count(), 2);
}
