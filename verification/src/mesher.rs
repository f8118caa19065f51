//! The meshers behind one interface.

use vstd::prelude::*;
use crate::binary_greedy::mesh;
use crate::mesh::{is_mesh_of, ChunkMesh, CHUNK_SIZE_CB};
use crate::runs::in_sweep_order;

verus! {

/// Something that gives the mesh of a chunk.
pub trait ChunkMesher {
    /// The mesh of the chunk `voxels`.
    fn mesh_chunk(&self, voxels: &[u32; CHUNK_SIZE_CB]) -> ChunkMesh;
}

/// The binary greedy mesher, which runs on the host.
#[derive(Clone, Copy, Debug, Default)]
pub struct CpuMesher;

impl CpuMesher {
    /// The mesher; it holds nothing.
    pub fn new() -> Self {
        CpuMesher
    }
}

impl ChunkMesher for CpuMesher {
    /// The mesh of the chunk: its quads are the maximal runs of exposed
    /// faces that show one block, each run once.
    fn mesh_chunk(&self, voxels: &[u32; CHUNK_SIZE_CB]) -> (result: ChunkMesh)
        ensures
            is_mesh_of(result@, voxels@, 32, 1),
            in_sweep_order(result@, 1, true),
    {
        mesh(voxels)
    }
}

} // verus!
