//! Voxel chunks of 32x32x32 cells: how they are stored, lit and turned into
//! meshes, and the rules of a small game around them.
//!
//! - [`mesh`] says what a mesh of a grid is; [`binary_greedy`] builds the mesh
//!   of a chunk with column masks, [`lod`] the meshes of coarser grids, and
//!   [`mesh_laws`] holds what follows for every mesh.
//! - [`gpu`] holds what the host does around the compute passes of a GPU
//!   mesher; [`block_renderer`] and [`texture_atlas`] turn quads into buffers.
//! - [`compressed`] stores a chunk with a palette, [`chunk`] and [`world`]
//!   store chunks plainly, [`lighting`] spreads block light and sky light.
//! - [`inventory`], [`crafting`], [`combat`], [`protocol`], [`server`],
//!   [`settings`] and [`movement`] hold rules of the game and its surroundings.

pub mod binary_greedy;
pub mod bits;
pub mod block;
pub mod block_renderer;
pub mod chunk;
pub mod chunk_loader;
pub mod combat;
pub mod compressed;
pub mod crafting;
pub mod error;
pub mod gpu;
pub mod inventory;
pub mod item_stack;
pub mod lighting;
pub mod lod;
pub mod mesh;
pub mod mesh_laws;
pub mod mesher;
pub mod movement;
pub mod packing;
pub mod physics;
pub mod protocol;
pub mod runs;
pub mod samples;
pub mod server;
pub mod settings;
pub mod slot;
pub mod texture_atlas;
pub mod world;
