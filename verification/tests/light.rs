use ferrum::lighting::{LightingEngine, AO_OFFSETS, CHUNK_SIZE};

fn open() -> [[[bool; CHUNK_SIZE]; CHUNK_SIZE]; CHUNK_SIZE] {
    [[[false; CHUNK_SIZE]; CHUNK_SIZE]; CHUNK_SIZE]
}

#[test]
fn one_source_lights_by_steps() {
    let mut lighting = LightingEngine::new();
    lighting.set_block_light(16, 16, 16, 14);
    lighting.propagate_block_light(&open());
    assert_eq!(lighting.get_block_light(16, 16, 16), 14);
    assert_eq!(lighting.get_block_light(17, 16, 16), 13);
    assert_eq!(lighting.get_block_light(19, 16, 16), 11);
    assert_eq!(lighting.get_block_light(20, 16, 16), 10);
    assert_eq!(lighting.get_block_light(30, 16, 16), 0);
    for x in 0..32usize {
        for y in 0..32usize {
            for z in 0..32usize {
                let steps = x.abs_diff(16) + y.abs_diff(16) + z.abs_diff(16);
                let expected = 14usize.saturating_sub(steps) as u8;
                assert_eq!(lighting.get_block_light(x, y, z), expected);
            }
        }
    }
}

#[test]
fn light_goes_round_an_opaque_cell_and_not_into_it() {
    let mut lighting = LightingEngine::new();
    let mut opaque = open();
    opaque[11][10][10] = true;
    lighting.set_block_light(10, 10, 10, 10);
    lighting.set_block_light(11, 10, 10, 15);
    lighting.propagate_block_light(&opaque);
    assert_eq!(lighting.get_block_light(11, 10, 10), 0);
    assert_eq!(lighting.get_block_light(12, 10, 10), 6);
    assert_eq!(lighting.get_block_light(11, 11, 10), 8);
    assert_eq!(lighting.get_block_light(9, 10, 10), 9);
}

#[test]
fn sky_light_falls_without_loss_and_spreads_with_loss() {
    let mut lighting = LightingEngine::new();
    let mut opaque = open();
    opaque[5][3][5] = true;
    lighting.set_sky_light(5, 31, 5, 15);
    lighting.propagate_sky_light(&opaque);
    for y in 4..32 {
        assert_eq!(lighting.get_sky_light(5, y, 5), 15);
        assert_eq!(lighting.get_sky_light(6, y, 5), 14);
    }
    assert_eq!(lighting.get_sky_light(5, 3, 5), 0);
    assert_eq!(lighting.get_sky_light(6, 3, 5), 14);
    assert_eq!(lighting.get_sky_light(5, 2, 5), 13);
    assert_eq!(lighting.get_sky_light(5, 0, 5), 13);
    assert_eq!(lighting.get_block_light(5, 31, 5), 0);
}

#[test]
fn sky_light_does_not_rise_without_loss() {
    let mut lighting = LightingEngine::new();
    lighting.set_sky_light(5, 10, 5, 8);
    lighting.propagate_sky_light(&open());
    assert_eq!(lighting.get_sky_light(5, 11, 5), 7);
    assert_eq!(lighting.get_sky_light(5, 0, 5), 8);
    assert_eq!(lighting.get_sky_light(5, 17, 5), 1);
    assert_eq!(lighting.get_sky_light(5, 18, 5), 0);
}

#[test]
fn spreading_keeps_the_other_light_and_the_opacity() {
    let mut lighting = LightingEngine::default();
    lighting.set_opaque(1, 1, 1, true);
    lighting.set_sky_light(2, 2, 2, 9);
    lighting.set_block_light(3, 3, 3, 4);
    lighting.propagate_block_light(&open());
    assert_eq!(lighting.get_sky_light(2, 2, 2), 9);
    assert_eq!(lighting.get_sky_light(2, 1, 2), 0);
    assert!(lighting.get_opaque(1, 1, 1));
    assert!(!lighting.get_opaque(1, 1, 2));
    assert!(!lighting.get_opaque(32, 1, 1));
    lighting.set_opaque(32, 0, 0, true);
    lighting.set_sky_light(0, 32, 0, 3);
    assert_eq!(lighting.get_sky_light(0, 32, 0), 0);
    assert_eq!(lighting.get_combined_light(2, 2, 2), 9);
    assert_eq!(lighting.get_combined_light(3, 3, 3), 4);
}

#[test]
fn smooth_light_is_the_mean_of_four() {
    let mut lighting = LightingEngine::new();
    lighting.set_block_light(4, 4, 4, 8);
    lighting.set_block_light(5, 4, 4, 4);
    lighting.set_sky_light(4, 5, 4, 3);
    lighting.set_block_light(5, 5, 4, 15);
    assert_eq!(lighting.get_smooth_light(5, 5, 4, 0), 7);
    assert_eq!(lighting.get_smooth_light(4, 4, 4, 0), 2);
    // at the lower edge the cell stands for its missing neighbours
    lighting.set_block_light(0, 0, 0, 6);
    assert_eq!(lighting.get_smooth_light(0, 0, 0, 2), 6);
}

#[test]
fn corners_are_shaded_by_their_neighbours() {
    let mut lighting = LightingEngine::new();
    assert_eq!(lighting.calculate_ambient_occlusion(5, 5, 5, 0, 0), 4);
    // face 0, corner 0: the sides are (+1, 0, 0) and (0, +1, 0), across is (+1, +1, 0)
    assert_eq!(AO_OFFSETS[0][0], [1, 0, 0, 0, 1, 0, 1, 1, 0]);
    lighting.set_opaque(6, 5, 5, true);
    assert_eq!(lighting.calculate_ambient_occlusion(5, 5, 5, 0, 0), 3);
    lighting.set_opaque(6, 6, 5, true);
    assert_eq!(lighting.calculate_ambient_occlusion(5, 5, 5, 0, 0), 2);
    lighting.set_opaque(5, 6, 5, true);
    assert_eq!(lighting.calculate_ambient_occlusion(5, 5, 5, 0, 0), 0);
    lighting.set_opaque(6, 6, 5, false);
    assert_eq!(lighting.calculate_ambient_occlusion(5, 5, 5, 0, 0), 0);
    assert_eq!(lighting.calculate_ambient_occlusion(5, 5, 5, 6, 0), 4);
    assert_eq!(lighting.calculate_ambient_occlusion(5, 5, 5, 0, 4), 4);
    // cells outside the chunk shade nothing
    assert_eq!(lighting.calculate_ambient_occlusion(0, 0, 0, 1, 1), 4);
    assert_eq!(lighting.calculate_ambient_occlusion(31, 31, 31, 0, 0), 4);
    let mut other = open();
    other[4][5][6] = true;
    assert_eq!(
        lighting.calculate_ambient_occlusion_with_opaque(&other, 5, 5, 5, 1, 0),
        3
    );
}
