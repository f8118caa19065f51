use ferrum::lod::{LodConfig, LodLevel, LodMesher, LodStats, DISTANCE_UNIT};
use ferrum::mesh::CHUNK_SIZE;
use ferrum::mesher::{ChunkMesher, CpuMesher};
use ferrum::samples::{terrain_chunk, uniform_chunk};

/// A distance of `chunks` chunks and `halves` half chunks.
fn chunks(chunks: u32, halves: u32) -> u32 {
    chunks * DISTANCE_UNIT + halves * DISTANCE_UNIT / 2
}

#[test]
fn lod_level_scales() {
    assert_eq!(LodLevel::Full.scale(), 1);
    assert_eq!(LodLevel::Reduced.scale(), 2);
    assert_eq!(LodLevel::Low.scale(), 4);
    assert_eq!(LodLevel::Minimal.scale(), 8);
}

#[test]
fn lod_level_grid_sizes() {
    assert_eq!(LodLevel::Full.grid_size(), 32);
    assert_eq!(LodLevel::Reduced.grid_size(), 16);
    assert_eq!(LodLevel::Low.grid_size(), 8);
    assert_eq!(LodLevel::Minimal.grid_size(), 4);
}

#[test]
fn lod_level_ordering() {
    assert!(LodLevel::Full < LodLevel::Reduced);
    assert!(LodLevel::Reduced < LodLevel::Low);
    assert!(LodLevel::Low < LodLevel::Minimal);
}

#[test]
fn default_config_thresholds() {
    let config = LodConfig::default();
    assert_eq!(config.select_lod(chunks(0, 0)), Some(LodLevel::Full));
    assert_eq!(config.select_lod(chunks(16, 0)), Some(LodLevel::Full));
    assert_eq!(config.select_lod(chunks(17, 0)), Some(LodLevel::Reduced));
    assert_eq!(config.select_lod(chunks(32, 0)), Some(LodLevel::Reduced));
    assert_eq!(config.select_lod(chunks(33, 0)), Some(LodLevel::Low));
    assert_eq!(config.select_lod(chunks(48, 0)), Some(LodLevel::Low));
    assert_eq!(config.select_lod(chunks(49, 0)), Some(LodLevel::Minimal));
    assert_eq!(config.select_lod(chunks(64, 0)), Some(LodLevel::Minimal));
    assert_eq!(config.select_lod(chunks(65, 0)), None);
}

#[test]
fn custom_config_thresholds() {
    let config = LodConfig::new(chunks(8, 0), chunks(16, 0), chunks(24, 0), chunks(32, 0));
    assert_eq!(config.select_lod(chunks(5, 0)), Some(LodLevel::Full));
    assert_eq!(config.select_lod(chunks(12, 0)), Some(LodLevel::Reduced));
    assert_eq!(config.select_lod(chunks(20, 0)), Some(LodLevel::Low));
    assert_eq!(config.select_lod(chunks(28, 0)), Some(LodLevel::Minimal));
    assert_eq!(config.select_lod(chunks(33, 0)), None);
}

#[test]
fn blend_factor_zero_in_center() {
    let config = LodConfig::default();
    let transition = config.select_lod_with_blend(chunks(8, 0)).unwrap();
    assert_eq!(transition.primary, LodLevel::Full);
    assert_eq!(transition.blend_num, 0);
    assert!(!transition.is_blending());
}

#[test]
fn blend_factor_nonzero_near_boundary() {
    let config = LodConfig::default();
    let transition = config.select_lod_with_blend(chunks(15, 1)).unwrap();
    assert_eq!(transition.primary, LodLevel::Full);
    assert_eq!(transition.next, Some(LodLevel::Reduced));
    assert!(transition.blend_num > 0);
    assert!(transition.blend_num < transition.blend_den);
    assert!(transition.is_blending());
}

#[test]
fn blend_factor_at_exact_boundary() {
    let config = LodConfig::default();
    let transition = config.select_lod_with_blend(chunks(16, 0)).unwrap();
    assert_eq!(transition.primary, LodLevel::Full);
    let blend = transition.blend_num as f64 / transition.blend_den as f64;
    assert!((blend - 0.5).abs() < 0.01);
}

#[test]
fn beyond_render_distance_returns_none() {
    let config = LodConfig::default();
    assert!(config.select_lod_with_blend(chunks(100, 0)).is_none());
}

#[test]
fn lod_full_returns_none() {
    let chunk = uniform_chunk(1);
    assert!(LodMesher::mesh_chunk_lod(&chunk, LodLevel::Full).is_none());
}

#[test]
fn lod_air_chunk_produces_no_quads() {
    let chunk = uniform_chunk(0);
    for lod in [LodLevel::Reduced, LodLevel::Low, LodLevel::Minimal] {
        let mesh = LodMesher::mesh_chunk_lod(&chunk, lod).unwrap();
        assert!(
            mesh.is_empty(),
            "Air chunk at {:?} should produce 0 quads, got {}",
            lod,
            mesh.quad_count()
        );
    }
}

#[test]
fn lod_solid_chunk_produces_surface_quads() {
    let chunk = uniform_chunk(1);
    for lod in [LodLevel::Reduced, LodLevel::Low, LodLevel::Minimal] {
        let mesh = LodMesher::mesh_chunk_lod(&chunk, lod).unwrap();
        assert!(
            !mesh.is_empty(),
            "Solid chunk at {:?} should produce quads",
            lod
        );

        for q in &mesh.quads {
            assert_eq!(q.block_type, 1, "Block type mismatch at {:?}", lod);
        }

        let faces: std::collections::HashSet<_> = mesh.quads.iter().map(|q| q.face).collect();
        assert_eq!(
            faces.len(),
            6,
            "Solid chunk at {:?} should have all 6 faces, got {}",
            lod,
            faces.len()
        );
    }
}

#[test]
fn lod_reduces_quad_count() {
    let chunk = terrain_chunk();

    let full_mesh = CpuMesher::new().mesh_chunk(&chunk);
    let reduced = LodMesher::mesh_chunk_lod(&chunk, LodLevel::Reduced).unwrap();
    let low = LodMesher::mesh_chunk_lod(&chunk, LodLevel::Low).unwrap();
    let minimal = LodMesher::mesh_chunk_lod(&chunk, LodLevel::Minimal).unwrap();

    assert!(
        reduced.quad_count() < full_mesh.quad_count(),
        "Reduced ({}) should have fewer quads than Full ({})",
        reduced.quad_count(),
        full_mesh.quad_count()
    );
    assert!(
        low.quad_count() < reduced.quad_count(),
        "Low ({}) should have fewer quads than Reduced ({})",
        low.quad_count(),
        reduced.quad_count()
    );
    assert!(
        minimal.quad_count() < low.quad_count(),
        "Minimal ({}) should have fewer quads than Low ({})",
        minimal.quad_count(),
        low.quad_count()
    );
}

#[test]
fn lod_quads_within_chunk_bounds() {
    let chunk = terrain_chunk();
    for lod in [LodLevel::Reduced, LodLevel::Low, LodLevel::Minimal] {
        let mesh = LodMesher::mesh_chunk_lod(&chunk, lod).unwrap();
        for q in &mesh.quads {
            assert!(q.x < CHUNK_SIZE as u8, "{:?}: x={} out of bounds", lod, q.x);
            assert!(q.y < CHUNK_SIZE as u8, "{:?}: y={} out of bounds", lod, q.y);
            assert!(q.z < CHUNK_SIZE as u8, "{:?}: z={} out of bounds", lod, q.z);
            assert!(q.width > 0, "{:?}: width must be > 0", lod);
            assert!(q.height > 0, "{:?}: height must be > 0", lod);
            assert!(q.block_type > 0, "{:?}: block type must be non-air", lod);
        }
    }
}

#[test]
fn lod_quad_dimensions_are_multiples_of_scale() {
    let chunk = uniform_chunk(1);
    for lod in [LodLevel::Reduced, LodLevel::Low, LodLevel::Minimal] {
        let scale = lod.scale() as u8;
        let mesh = LodMesher::mesh_chunk_lod(&chunk, lod).unwrap();
        for q in &mesh.quads {
            assert_eq!(
                q.x % scale,
                0,
                "{:?}: x={} not aligned to scale {}",
                lod,
                q.x,
                scale
            );
            assert_eq!(
                q.y % scale,
                0,
                "{:?}: y={} not aligned to scale {}",
                lod,
                q.y,
                scale
            );
            assert_eq!(
                q.z % scale,
                0,
                "{:?}: z={} not aligned to scale {}",
                lod,
                q.z,
                scale
            );
            assert_eq!(
                q.width % scale,
                0,
                "{:?}: width={} not multiple of scale {}",
                lod,
                q.width,
                scale
            );
            assert_eq!(
                q.height % scale,
                0,
                "{:?}: height={} not multiple of scale {}",
                lod,
                q.height,
                scale
            );
        }
    }
}

#[test]
fn lod_solid_chunk_quad_count_per_level() {
    let chunk = uniform_chunk(1);

    for lod in [LodLevel::Reduced, LodLevel::Low, LodLevel::Minimal] {
        let mesh = LodMesher::mesh_chunk_lod(&chunk, lod).unwrap();
        let expected = 6 * lod.grid_size();
        assert_eq!(
            mesh.quad_count(),
            expected,
            "{:?}: expected {} quads for solid chunk, got {}",
            lod,
            expected,
            mesh.quad_count()
        );
    }
}

#[test]
fn lod_preserves_block_types_in_terrain() {
    let chunk = terrain_chunk();
    for lod in [LodLevel::Reduced, LodLevel::Low, LodLevel::Minimal] {
        let mesh = LodMesher::mesh_chunk_lod(&chunk, lod).unwrap();
        let block_types: std::collections::HashSet<_> =
            mesh.quads.iter().map(|q| q.block_type).collect();
        assert!(
            !block_types.is_empty(),
            "{:?}: should have block types",
            lod
        );
        for &bt in &block_types {
            assert!(
                bt >= 1 && bt <= 3,
                "{:?}: unexpected block type {}",
                lod,
                bt
            );
        }
    }
}

#[test]
fn lod_stats_tracking() {
    let mut stats = LodStats::new();
    stats.record(LodLevel::Full, 1000);
    stats.record(LodLevel::Full, 800);
    stats.record(LodLevel::Reduced, 200);
    stats.record(LodLevel::Low, 50);
    stats.record(LodLevel::Minimal, 10);

    assert_eq!(stats.total_chunks(), 5);
    assert_eq!(stats.total_quads(), 2060);
    assert_eq!(stats.chunks_per_level[0], 2);
    assert_eq!(stats.chunks_per_level[1], 1);
}

#[test]
fn lod_stats_reduction_ratio() {
    let mut stats = LodStats::new();
    for _ in 0..5 {
        stats.record(LodLevel::Full, 100);
    }
    for _ in 0..5 {
        stats.record(LodLevel::Reduced, 25);
    }
    let (num, den) = stats.reduction_ratio(100);
    let ratio = num as f64 / den as f64;
    assert!((ratio - 0.625).abs() < 0.01);
}
