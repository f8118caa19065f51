//! From quads to the buffers that a renderer draws.
//!
//! Each quad gives four vertices in the order of its face, one normal for all
//! four, the texture coordinates of its tile and six indices for its two
//! triangles. Positions are in voxels; a face towards the higher
//! coordinate lies one voxel beyond the origin of its quad.

use vstd::prelude::*;
use crate::lighting::LightingEngine;
use crate::mesh::{ChunkMesh, Face, MeshQuad};
use crate::texture_atlas::{tile_uvs, TextureAtlas};

verus! {

/// The buffers of a mesh.
#[derive(Clone, Debug)]
pub struct MeshBuffers {
    /// The place of each vertex.
    pub positions: Vec<[u16; 3]>,
    /// The direction in which the face of each vertex looks.
    pub normals: Vec<[i8; 3]>,
    /// The texture coordinates of each vertex, as numerators over `uv_denominator`.
    pub uvs: Vec<[u64; 2]>,
    /// What the texture coordinates are over.
    pub uv_denominator: u64,
    /// Three indices into the vertices for each triangle.
    pub indices: Vec<u32>,
}

/// The four corners of a quad, in the order in which they are wound.
pub open spec fn quad_corners(q: MeshQuad) -> Seq<(int, int, int)> {
    let x = q.x as int;
    let y = q.y as int;
    let z = q.z as int;
    let w = q.width as int;
    let h = q.height as int;
    match q.face {
        Face::Up => seq![(x, y + 1, z), (x + w, y + 1, z), (x + w, y + 1, z + h), (x, y + 1, z + h)],
        Face::Down => seq![(x, y, z + h), (x + w, y, z + h), (x + w, y, z), (x, y, z)],
        Face::Right => seq![(x + 1, y, z), (x + 1, y, z + w), (x + 1, y + h, z + w), (x + 1, y + h, z)],
        Face::Left => seq![(x, y, z + w), (x, y, z), (x, y + h, z), (x, y + h, z + w)],
        Face::Front => seq![(x, y, z + 1), (x + w, y, z + 1), (x + w, y + h, z + 1), (x, y + h, z + 1)],
        Face::Back => seq![(x + w, y, z), (x, y, z), (x, y + h, z), (x + w, y + h, z)],
    }
}

/// The direction in which a face looks.
pub open spec fn face_normal(face: Face) -> (int, int, int) {
    match face {
        Face::Up => (0, 1, 0),
        Face::Down => (0, -1, 0),
        Face::Right => (1, 0, 0),
        Face::Left => (-1, 0, 0),
        Face::Front => (0, 0, 1),
        Face::Back => (0, 0, -1),
    }
}

/// Where, among the corners of a quad, the corners of its two triangles are.
pub open spec fn triangle_corners() -> Seq<int> {
    seq![0, 1, 2, 0, 2, 3]
}

/// The buffers hold the first `n` quads of `quads`, with the tiles of `atlas`.
pub open spec fn buffers_hold(buffers: MeshBuffers, quads: Seq<MeshQuad>, atlas: TextureAtlas, n: int) -> bool {
    &&& buffers.positions@.len() == 4 * n
    &&& buffers.normals@.len() == 4 * n
    &&& buffers.uvs@.len() == 4 * n
    &&& buffers.indices@.len() == 6 * n
    &&& buffers.uv_denominator == 32 * atlas.texels()
    &&& forall|i: int, k: int|
        0 <= i < n && 0 <= k < 4 ==> {
            let p = #[trigger] buffers.positions@[4 * i + k];
            (p[0] as int, p[1] as int, p[2] as int) == quad_corners(quads[i])[k]
        }
    &&& forall|i: int, k: int|
        0 <= i < n && 0 <= k < 4 ==> {
            let v = #[trigger] buffers.normals@[4 * i + k];
            (v[0] as int, v[1] as int, v[2] as int) == face_normal(quads[i].face)
        }
    &&& forall|i: int, k: int|
        0 <= i < n && 0 <= k < 4 ==> {
            let uv = #[trigger] buffers.uvs@[4 * i + k];
            (uv[0] as int, uv[1] as int) == tile_uvs(
                atlas.tile(quads[i].block_type, quads[i].face),
                atlas.texels(),
            )[k]
        }
    &&& forall|i: int, k: int|
        0 <= i < n && 0 <= k < 6 ==> #[trigger] buffers.indices@[6 * i + k] == 4 * i
            + triangle_corners()[k]
}

/// The four corners of a quad, in the order in which they are wound.
fn corners_of(quad: &MeshQuad) -> (corners: [[u16; 3]; 4])
    ensures
        forall|k: int|
            0 <= k < 4 ==> ((#[trigger] corners[k])[0] as int, corners[k][1] as int, corners[k][2] as int)
                == quad_corners(*quad)[k],
{
    let x = quad.x as u16;
    let y = quad.y as u16;
    let z = quad.z as u16;
    let w = quad.width as u16;
    let h = quad.height as u16;
    match quad.face {
        Face::Up => [[x, y + 1, z], [x + w, y + 1, z], [x + w, y + 1, z + h], [x, y + 1, z + h]],
        Face::Down => [[x, y, z + h], [x + w, y, z + h], [x + w, y, z], [x, y, z]],
        Face::Right => [[x + 1, y, z], [x + 1, y, z + w], [x + 1, y + h, z + w], [x + 1, y + h, z]],
        Face::Left => [[x, y, z + w], [x, y, z], [x, y + h, z], [x, y + h, z + w]],
        Face::Front => [[x, y, z + 1], [x + w, y, z + 1], [x + w, y + h, z + 1], [x, y + h, z + 1]],
        Face::Back => [[x + w, y, z], [x, y, z], [x, y + h, z], [x + w, y + h, z]],
    }
}

/// The direction in which a face looks.
fn normal_of(face: Face) -> (normal: [i8; 3])
    ensures
        (normal[0] as int, normal[1] as int, normal[2] as int) == face_normal(face),
{
    match face {
        Face::Up => [0, 1, 0],
        Face::Down => [0, -1, 0],
        Face::Right => [1, 0, 0],
        Face::Left => [-1, 0, 0],
        Face::Front => [0, 0, 1],
        Face::Back => [0, 0, -1],
    }
}

/// Namespace of the mesh assembly.
pub struct BlockRenderer;

impl BlockRenderer {
    /// The buffers of a mesh: for each quad its four corners, four times its
    /// normal, the texture coordinates of its tile, and the indices of its
    /// two triangles.
    pub fn create_mesh(chunk_mesh: &ChunkMesh, atlas: &TextureAtlas) -> (buffers: MeshBuffers)
        requires
            atlas.texels() > 0,
            chunk_mesh@.len() * 4 <= u32::MAX,
        ensures
            buffers_hold(buffers, chunk_mesh@, *atlas, chunk_mesh@.len() as int),
    {
        let mut buffers = MeshBuffers {
            positions: Vec::new(),
            normals: Vec::new(),
            uvs: Vec::new(),
            uv_denominator: atlas.uv_denominator(),
            indices: Vec::new(),
        };
        let mut vertex_count = 0u32;

        for i in 0..chunk_mesh.quads.len()
            invariant
                atlas.texels() > 0,
                chunk_mesh@.len() * 4 <= u32::MAX,
                vertex_count == 4 * i,
                buffers_hold(buffers, chunk_mesh@, *atlas, i as int),
        {
            let quad = &chunk_mesh.quads[i];
            let corners = corners_of(quad);
            let normal = normal_of(quad.face);
            let quad_uvs = atlas.get_uvs(quad.block_type, quad.face);
            let ghost before = buffers;

            buffers.positions.push(corners[0]);
            buffers.positions.push(corners[1]);
            buffers.positions.push(corners[2]);
            buffers.positions.push(corners[3]);
            buffers.normals.push(normal);
            buffers.normals.push(normal);
            buffers.normals.push(normal);
            buffers.normals.push(normal);
            buffers.uvs.push(quad_uvs[0]);
            buffers.uvs.push(quad_uvs[1]);
            buffers.uvs.push(quad_uvs[2]);
            buffers.uvs.push(quad_uvs[3]);
            buffers.indices.push(vertex_count);
            buffers.indices.push(vertex_count + 1);
            buffers.indices.push(vertex_count + 2);
            buffers.indices.push(vertex_count);
            buffers.indices.push(vertex_count + 2);
            buffers.indices.push(vertex_count + 3);

            vertex_count += 4;
            proof {
                let quads = chunk_mesh@;
                assert forall|j: int, k: int| 0 <= j < i + 1 && 0 <= k < 4 implies {
                    let p = #[trigger] buffers.positions@[4 * j + k];
                    (p[0] as int, p[1] as int, p[2] as int) == quad_corners(quads[j])[k]
                } by {
                    if j < i {
                        assert(buffers.positions@[4 * j + k] == before.positions@[4 * j + k]);
                    } else {
                        assert(buffers.positions@[4 * j + k] == corners[k]);
                    }
                }
                assert forall|j: int, k: int| 0 <= j < i + 1 && 0 <= k < 4 implies {
                    let v = #[trigger] buffers.normals@[4 * j + k];
                    (v[0] as int, v[1] as int, v[2] as int) == face_normal(quads[j].face)
                } by {
                    if j < i {
                        assert(buffers.normals@[4 * j + k] == before.normals@[4 * j + k]);
                    }
                }
                assert forall|j: int, k: int| 0 <= j < i + 1 && 0 <= k < 4 implies {
                    let uv = #[trigger] buffers.uvs@[4 * j + k];
                    (uv[0] as int, uv[1] as int) == tile_uvs(
                        atlas.tile(quads[j].block_type, quads[j].face),
                        atlas.texels(),
                    )[k]
                } by {
                    if j < i {
                        assert(buffers.uvs@[4 * j + k] == before.uvs@[4 * j + k]);
                    } else {
                        assert(buffers.uvs@[4 * j + k] == quad_uvs[k]);
                    }
                }
                assert forall|j: int, k: int|
                    0 <= j < i + 1 && 0 <= k < 6 implies #[trigger] buffers.indices@[6 * j + k] == 4
                    * j + triangle_corners()[k] by {
                    if j < i {
                        assert(buffers.indices@[6 * j + k] == before.indices@[6 * j + k]);
                    }
                }
            }
        }
        buffers
    }

    /// The light of each vertex of a mesh and how much of it each vertex
    /// keeps: for the corner number `k` of the quad number `i`, at `4 * i + k`,
    /// the smooth light at the corner, and the ambient occlusion of the
    /// corner `k` of the face at the origin of the quad, in quarters.
    pub fn light_mesh(chunk_mesh: &ChunkMesh, lighting: &LightingEngine) -> (lit: (Vec<u8>, Vec<u8>))
        ensures
            lit.0@.len() == 4 * chunk_mesh@.len(),
            lit.1@.len() == 4 * chunk_mesh@.len(),
            forall|i: int, k: int|
                0 <= i < chunk_mesh@.len() && 0 <= k < 4 ==> #[trigger] lit.0@[4 * i + k]
                    == lighting.smooth_at(
                    quad_corners(chunk_mesh@[i])[k].0,
                    quad_corners(chunk_mesh@[i])[k].1,
                    quad_corners(chunk_mesh@[i])[k].2,
                ),
            forall|i: int, k: int|
                0 <= i < chunk_mesh@.len() && 0 <= k < 4 ==> #[trigger] lit.1@[4 * i + k]
                    == crate::lighting::occlusion_quarters(
                    lighting.opacity(),
                    chunk_mesh@[i].x as int,
                    chunk_mesh@[i].y as int,
                    chunk_mesh@[i].z as int,
                    chunk_mesh@[i].face.code(),
                    k,
                ),
            forall|j: int| 0 <= j < lit.0@.len() ==> #[trigger] lit.0@[j] <= 15,
    {
        let mut light: Vec<u8> = Vec::new();
        let mut occlusion: Vec<u8> = Vec::new();
        for i in 0..chunk_mesh.quads.len()
            invariant
                light@.len() == 4 * i,
                occlusion@.len() == 4 * i,
                forall|j: int, k: int|
                    0 <= j < i && 0 <= k < 4 ==> #[trigger] light@[4 * j + k] == lighting.smooth_at(
                        quad_corners(chunk_mesh@[j])[k].0,
                        quad_corners(chunk_mesh@[j])[k].1,
                        quad_corners(chunk_mesh@[j])[k].2,
                    ),
                forall|j: int, k: int|
                    0 <= j < i && 0 <= k < 4 ==> #[trigger] occlusion@[4 * j + k]
                        == crate::lighting::occlusion_quarters(
                        lighting.opacity(),
                        chunk_mesh@[j].x as int,
                        chunk_mesh@[j].y as int,
                        chunk_mesh@[j].z as int,
                        chunk_mesh@[j].face.code(),
                        k,
                    ),
                forall|j: int| 0 <= j < light@.len() ==> #[trigger] light@[j] <= 15,
        {
            let quad = &chunk_mesh.quads[i];
            let corners = corners_of(quad);
            let face = quad.face.index();
            let ghost before = occlusion@;
            let ghost lit_before = light@;
            for k in 0..4usize
                invariant
                    face == quad.face.code(),
                    *quad == chunk_mesh@[i as int],
                    light@.len() == 4 * i + k,
                    occlusion@.len() == 4 * i + k,
                    forall|j: int| 0 <= j < 4 * i ==> occlusion@[j] == before[j],
                    forall|j: int| 0 <= j < 4 * i ==> light@[j] == lit_before[j],
                    forall|c: int|
                        0 <= c < 4 ==> ((#[trigger] corners[c])[0] as int, corners[c][1] as int, corners[c][2] as int)
                            == quad_corners(*quad)[c],
                    forall|c: int|
                        0 <= c < k ==> #[trigger] light@[4 * i + c] == lighting.smooth_at(
                            quad_corners(*quad)[c].0,
                            quad_corners(*quad)[c].1,
                            quad_corners(*quad)[c].2,
                        ),
                    forall|c: int|
                        0 <= c < k ==> #[trigger] occlusion@[4 * i + c]
                            == crate::lighting::occlusion_quarters(
                            lighting.opacity(),
                            quad.x as int,
                            quad.y as int,
                            quad.z as int,
                            quad.face.code(),
                            c,
                        ),
                    forall|j: int| 0 <= j < light@.len() ==> #[trigger] light@[j] <= 15,
            {
                let corner = corners[k];
                let ghost lit = light@;
                light.push(
                    lighting.get_smooth_light(
                        corner[0] as usize,
                        corner[1] as usize,
                        corner[2] as usize,
                        face,
                    ),
                );
                occlusion.push(
                    lighting.calculate_ambient_occlusion(
                        quad.x as usize,
                        quad.y as usize,
                        quad.z as usize,
                        face,
                        k,
                    ),
                );
                proof {
                    assert forall|j: int| 0 <= j < light@.len() implies #[trigger] light@[j]
                        <= 15 by {
                        if j < lit.len() {
                            assert(light@[j] == lit[j]);
                        }
                    }
                    assert((corner[0] as int, corner[1] as int, corner[2] as int) == quad_corners(
                        *quad,
                    )[k as int]);
                }
            }
            proof {
                assert forall|j: int, k: int| 0 <= j < i + 1 && 0 <= k < 4 implies #[trigger] light@[4
                    * j + k] == lighting.smooth_at(
                    quad_corners(chunk_mesh@[j])[k].0,
                    quad_corners(chunk_mesh@[j])[k].1,
                    quad_corners(chunk_mesh@[j])[k].2,
                ) by {
                    if j < i {
                        assert(light@[4 * j + k] == lit_before[4 * j + k]);
                    }
                }
                assert forall|j: int, k: int| 0 <= j < i + 1 && 0 <= k < 4 implies #[trigger] occlusion@[4
                    * j + k] == crate::lighting::occlusion_quarters(
                    lighting.opacity(),
                    chunk_mesh@[j].x as int,
                    chunk_mesh@[j].y as int,
                    chunk_mesh@[j].z as int,
                    chunk_mesh@[j].face.code(),
                    k,
                ) by {
                    if j < i {
                        assert(occlusion@[4 * j + k] == before[4 * j + k]);
                    }
                }
            }
        }
        (light, occlusion)
    }
}

} // verus!
