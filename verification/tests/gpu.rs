use ferrum::gpu::{
    batch_capacity, batch_from_bytes, batch_len, buffer_sizes, face_culling_groups,
    face_mask_index, greedy_merge_groups, mesh_from_packed, quad_count, quads_from_bytes,
    read_word, voxel_offset, voxel_upload, PackedQuad, FACE_MASK_STRIDE, MAX_BATCH_SIZE,
    MAX_QUADS,
};
use ferrum::mesh::{Face, MeshQuad};

#[test]
fn constants_of_the_layout() {
    assert_eq!(MAX_QUADS, 65536);
    assert_eq!(MAX_BATCH_SIZE, 256);
    assert_eq!(FACE_MASK_STRIDE, 6 * 1024);
}

#[test]
fn packed_quad_fields() {
    let word0 = 3 | (7 << 5) | (31 << 10) | (2 << 15) | (17 << 20) | (5 << 25);
    let q = PackedQuad { word0, block_type: 42 };
    assert_eq!(
        (q.x(), q.y(), q.z(), q.width(), q.height(), q.face()),
        (3, 7, 31, 2, 17, 5)
    );
    assert_eq!(PackedQuad::from_parts(3, 7, 31, 2, 17, 5, 42), q);
    // the four highest bits are not read
    let high = PackedQuad { word0: word0 | 0xF000_0000, block_type: 42 };
    assert_eq!(
        (high.x(), high.y(), high.z(), high.width(), high.height(), high.face()),
        (3, 7, 31, 2, 17, 5)
    );
    assert_eq!(PackedQuad::from_parts(31, 31, 31, 31, 31, 7, 0).word0, 0x0FFF_FFFF);
}

#[test]
fn packed_quads_become_quads() {
    let packed = [
        PackedQuad::from_parts(1, 2, 3, 4, 5, 0, 9),
        PackedQuad::from_parts(1, 2, 3, 4, 5, 6, 9),
        PackedQuad::from_parts(6, 7, 8, 1, 1, 5, 2),
        PackedQuad::from_parts(0, 0, 0, 0, 0, 7, 1),
    ];
    let mesh = mesh_from_packed(&packed);
    assert_eq!(
        mesh.quads,
        vec![
            MeshQuad { x: 1, y: 2, z: 3, width: 4, height: 5, face: Face::Right, block_type: 9 },
            MeshQuad { x: 6, y: 7, z: 8, width: 1, height: 1, face: Face::Back, block_type: 2 },
        ]
    );
    assert!(mesh_from_packed(&[]).is_empty());
}

#[test]
fn sizes_and_shapes_of_a_dispatch() {
    assert_eq!(batch_capacity(0), 1);
    assert_eq!(batch_capacity(1), 1);
    assert_eq!(batch_capacity(64), 64);
    assert_eq!(batch_capacity(256), 256);
    assert_eq!(batch_capacity(257), 256);
    assert_eq!(batch_len(3, 8), 3);
    assert_eq!(batch_len(9, 8), 8);
    assert_eq!(batch_len(0, 8), 0);
    let one = buffer_sizes(1);
    assert_eq!(
        (one.voxel, one.quad, one.counter, one.face_mask),
        (131_072, 524_288, 4, 24_576)
    );
    let most = buffer_sizes(256);
    assert_eq!(most.quad, 256 * 65_536 * 8);
    assert_eq!(voxel_offset(0), 0);
    assert_eq!(voxel_offset(3), 3 * 131_072);
    assert_eq!(face_culling_groups(5), (4, 6, 5));
    assert_eq!(greedy_merge_groups(5), (32, 6, 5));
    assert_eq!(face_mask_index(0, 0, 0, 0), 0);
    assert_eq!(face_mask_index(2, 3, 4, 5), 2 * 6144 + 3 * 1024 + 4 * 32 + 5);
    assert_eq!(quad_count(0), 0);
    assert_eq!(quad_count(65_536), 65_536);
    assert_eq!(quad_count(65_537), 65_536);
    assert_eq!(quad_count(u32::MAX), 65_536);
}

#[test]
fn words_are_little_endian() {
    let bytes = [0x78, 0x56, 0x34, 0x12, 0xFF, 0xFF, 0xFF, 0xFF, 1, 0, 0, 0];
    assert_eq!(read_word(&bytes, 0), 0x1234_5678);
    assert_eq!(read_word(&bytes, 4), u32::MAX);
    assert_eq!(read_word(&bytes, 8), 1);
    assert_eq!(read_word(&bytes, 1), 0xFF12_3456);
    let quads = quads_from_bytes(&bytes, 0, 1);
    assert_eq!(quads, vec![PackedQuad { word0: 0x1234_5678, block_type: u32::MAX }]);
    assert!(quads_from_bytes(&bytes, 1, 0).is_empty());
}

#[test]
fn quads_of_a_batch_are_read_chunk_by_chunk() {
    let a = PackedQuad::from_parts(1, 2, 3, 1, 1, 0, 5);
    let b = PackedQuad::from_parts(4, 5, 6, 1, 2, 3, 6);
    let c = PackedQuad::from_parts(7, 8, 9, 3, 1, 4, 7);
    let mut quad_bytes = vec![0u8; 3 * MAX_QUADS * 8];
    let mut put = |chunk: usize, i: usize, q: PackedQuad| {
        let at = (chunk * MAX_QUADS + i) * 8;
        quad_bytes[at..at + 4].copy_from_slice(&q.word0.to_le_bytes());
        quad_bytes[at + 4..at + 8].copy_from_slice(&q.block_type.to_le_bytes());
    };
    put(0, 0, a);
    put(0, 1, b);
    put(2, 0, c);
    put(2, 1, a);
    let mut counter_bytes = Vec::new();
    for count in [2u32, 0, 1] {
        counter_bytes.extend_from_slice(&count.to_le_bytes());
    }
    let results = batch_from_bytes(&quad_bytes, &counter_bytes, 3);
    assert_eq!(results, vec![vec![a, b], vec![], vec![c]]);
    assert!(batch_from_bytes(&quad_bytes, &counter_bytes, 0).is_empty());
}

#[test]
fn a_counter_beyond_the_limit_is_cut() {
    let quad_bytes = vec![0u8; MAX_QUADS * 8];
    let counter_bytes = 70_000u32.to_le_bytes();
    let results = batch_from_bytes(&quad_bytes, &counter_bytes, 1);
    assert_eq!(results.len(), 1);
    assert_eq!(results[0].len(), MAX_QUADS);
}

#[test]
fn voxels_are_uploaded_as_they_lie_in_memory() {
    let mut voxels = [0u32; 32768];
    for (i, v) in voxels.iter_mut().enumerate() {
        *v = (i as u32).wrapping_mul(0x0101_0203) ^ 0x8000_0001;
    }
    let (offset, bytes) = voxel_upload(&voxels, 2);
    assert_eq!(offset, 2 * 131_072);
    assert_eq!(bytes.len(), 131_072);
    for (i, word) in bytes.chunks_exact(4).enumerate() {
        assert_eq!(u32::from_ne_bytes([word[0], word[1], word[2], word[3]]), voxels[i]);
    }
    assert_eq!(voxel_upload(&voxels, 0).0, 0);
    assert_eq!(voxel_upload(&voxels, 255).0, 255 * 131_072);
}
