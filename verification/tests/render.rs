use ferrum::block_renderer::BlockRenderer;
use ferrum::error::RenderError;
use ferrum::lighting::LightingEngine;
use ferrum::mesh::{ChunkMesh, Face, MeshQuad};
use ferrum::texture_atlas::{TextureAtlas, ATLAS_TILES};

const FACES: [Face; 6] = [
    Face::Right,
    Face::Left,
    Face::Up,
    Face::Down,
    Face::Front,
    Face::Back,
];

#[test]
fn test_texture_atlas_creation() {
    let atlas = TextureAtlas::new(16);
    assert_eq!(atlas.tile_size(), 16);
}

#[test]
fn test_uv_coordinates_for_block_face() {
    let atlas = TextureAtlas::new(16);
    let uvs = atlas.get_uvs(1, Face::Up);
    let den = atlas.uv_denominator() as f64;
    let u = uvs[0][0] as f64 / den;
    let v = uvs[0][1] as f64 / den;
    assert!(u >= 0.0 && u <= 1.0);
    assert!(v >= 0.0 && v <= 1.0);
    assert_eq!(uvs.len(), 4);
}

#[test]
fn test_different_faces_have_different_uvs() {
    let atlas = TextureAtlas::new(16);
    let top_uvs = atlas.get_uvs(2, Face::Up);
    let side_uvs = atlas.get_uvs(2, Face::Right);
    assert_eq!(top_uvs.len(), 4);
    assert_eq!(side_uvs.len(), 4);
    assert_ne!(top_uvs, side_uvs);
}

#[test]
fn tiles_of_the_atlas() {
    let atlas = TextureAtlas::new(16);
    assert_eq!(ATLAS_TILES, 16);
    assert_eq!(atlas.uv_denominator(), 512);
    for face in FACES {
        assert_eq!(atlas.get_tile(0, face), (0, 0));
        assert_eq!(atlas.get_tile(1, face), (1, 0));
        assert_eq!(atlas.get_tile(3, face), (2, 1));
        assert_eq!(atlas.get_tile(4, face), (0, 0));
        assert_eq!(atlas.get_tile(u32::MAX, face), (0, 0));
    }
    assert_eq!(atlas.get_tile(2, Face::Up), (0, 1));
    assert_eq!(atlas.get_tile(2, Face::Down), (2, 0));
    for face in [Face::Right, Face::Left, Face::Front, Face::Back] {
        assert_eq!(atlas.get_tile(2, face), (3, 0));
    }
}

#[test]
fn corners_of_a_tile_lie_half_a_texel_inside() {
    let atlas = TextureAtlas::new(16);
    // tile (2, 1): u from 64 to 96 half texels, v from 32 to 64
    assert_eq!(atlas.get_uvs(3, Face::Left), [[65, 63], [95, 63], [95, 33], [65, 33]]);
    assert_eq!(atlas.get_uvs(0, Face::Up), [[1, 31], [31, 31], [31, 1], [1, 1]]);
    let small = TextureAtlas::new(1);
    assert_eq!(small.uv_denominator(), 32);
    assert_eq!(small.get_uvs(1, Face::Up), [[3, 1], [3, 1], [3, 1], [3, 1]]);
}

fn quad(x: u8, y: u8, z: u8, width: u8, height: u8, face: Face, block_type: u32) -> MeshQuad {
    MeshQuad { x, y, z, width, height, face, block_type }
}

#[test]
fn test_empty_chunk_mesh() {
    let buffers = BlockRenderer::create_mesh(&ChunkMesh::new(), &TextureAtlas::new(16));
    assert!(buffers.positions.is_empty());
    assert!(buffers.normals.is_empty());
    assert!(buffers.uvs.is_empty());
    assert!(buffers.indices.is_empty());
    assert_eq!(buffers.uv_denominator, 512);
}

#[test]
fn test_quad_generates_correct_vertex_count() {
    let mut mesh = ChunkMesh::new();
    mesh.quads.push(quad(5, 10, 15, 2, 3, Face::Front, 3));
    let atlas = TextureAtlas::new(16);
    let buffers = BlockRenderer::create_mesh(&mesh, &atlas);
    assert_eq!(
        buffers.positions,
        vec![[5, 10, 16], [7, 10, 16], [7, 13, 16], [5, 13, 16]]
    );
    assert_eq!(buffers.normals, vec![[0, 0, 1]; 4]);
    assert_eq!(buffers.uvs, atlas.get_uvs(3, Face::Front).to_vec());
    assert_eq!(buffers.indices, vec![0, 1, 2, 0, 2, 3]);
}

#[test]
fn each_face_gets_its_corners_and_its_normal() {
    let mut mesh = ChunkMesh::new();
    for face in FACES {
        mesh.quads.push(quad(1, 2, 3, 4, 5, face, 1));
    }
    let buffers = BlockRenderer::create_mesh(&mesh, &TextureAtlas::new(16));
    let expected: [([[u16; 3]; 4], [i8; 3]); 6] = [
        ([[2, 2, 3], [2, 2, 7], [2, 7, 7], [2, 7, 3]], [1, 0, 0]),
        ([[1, 2, 7], [1, 2, 3], [1, 7, 3], [1, 7, 7]], [-1, 0, 0]),
        ([[1, 3, 3], [5, 3, 3], [5, 3, 8], [1, 3, 8]], [0, 1, 0]),
        ([[1, 2, 8], [5, 2, 8], [5, 2, 3], [1, 2, 3]], [0, -1, 0]),
        ([[1, 2, 4], [5, 2, 4], [5, 7, 4], [1, 7, 4]], [0, 0, 1]),
        ([[5, 2, 3], [1, 2, 3], [1, 7, 3], [5, 7, 3]], [0, 0, -1]),
    ];
    for (i, (corners, normal)) in expected.iter().enumerate() {
        assert_eq!(&buffers.positions[4 * i..4 * i + 4], corners);
        assert_eq!(&buffers.normals[4 * i..4 * i + 4], &[*normal; 4]);
        let first = 4 * i as u32;
        assert_eq!(
            &buffers.indices[6 * i..6 * i + 6],
            &[first, first + 1, first + 2, first, first + 2, first + 3]
        );
    }
}

#[test]
fn vertices_get_light_and_shade() {
    let mut mesh = ChunkMesh::new();
    mesh.quads.push(quad(5, 5, 5, 1, 1, Face::Right, 1));
    mesh.quads.push(quad(8, 8, 8, 1, 1, Face::Up, 1));
    let mut lighting = LightingEngine::new();
    lighting.set_block_light(6, 5, 5, 12);
    lighting.set_opaque(6, 5, 5, true);
    lighting.set_opaque(5, 6, 5, true);
    let (light, shade) = BlockRenderer::light_mesh(&mesh, &lighting);
    assert_eq!(light.len(), 8);
    assert_eq!(shade.len(), 8);
    // corner 0 of the first quad is at (6, 5, 5): the mean of four cells, one of them lit
    assert_eq!(light[0], 3);
    assert_eq!(&light[4..], &[0, 0, 0, 0]);
    assert_eq!(&shade[..4], &[0, 3, 0, 3]);
    assert_eq!(&shade[4..], &[4, 4, 4, 4]);
}

#[test]
fn render_errors_carry_their_text() {
    let a = RenderError::TextureLoadFailed("stone.png".to_string());
    let b = RenderError::InvalidMeshData("no indices".to_string());
    assert_ne!(a, b);
    assert_eq!(a.clone(), RenderError::TextureLoadFailed("stone.png".to_string()));
}
