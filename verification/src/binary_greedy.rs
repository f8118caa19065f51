//! Binary greedy meshing of a 32x32x32 chunk.
//!
//! Face culling works on 32-bit column masks, one bit per voxel of a column. The
//! merge then sweeps each layer row by row and joins the exposed faces of one
//! kind that follow each other from row to row.
//!
//! The masks of a face are laid out as `[layer * 32 + row]`, with the bits along
//! the axis that the face looks along:
//! faces along x: layer = z, row = y, bit = x;
//! faces along y: layer = z, row = x, bit = y;
//! faces along z: layer = y, row = x, bit = z.

use vstd::prelude::*;
use crate::bits::{
    bit, lemma_bit_test, lemma_bit_zero, lemma_clear_bit, lemma_clear_range, lemma_lower_clear,
    lemma_lowest_bit, lemma_set_bit, lemma_shift_one, lemma_upper_clear, range_mask,
};
use crate::mesh::{
    block_at, is_mesh_of, ChunkMesh, Face, MeshQuad, Run, CHUNK_SIZE, CHUNK_SIZE_CB, CHUNK_SIZE_SQ,
};
use crate::runs::{
    back_len, in_sweep_order, lemma_back_len, lemma_back_len_in_run, lemma_gathered_run,
    lemma_no_neighbours, lemma_partial_mesh_empty, lemma_partial_mesh_full,
    lemma_partial_mesh_push, lemma_partial_mesh_skip, lemma_quad_run, lemma_run_in_grid,
    lemma_run_slice, lemma_shows_at, partial_mesh, pending, run_bit, run_key, run_layer,
    run_of_slice, run_row, slice_block, slice_exposed, slice_key, slice_shows,
};

verus! {

/// Bit `i` of the column `cols[a * 32 + b]`.
pub open spec fn col_bit(cols: [u32; 1024], a: int, b: int, i: int) -> bool {
    bit(cols[a * 32 + b], i as u32)
}

/// The masks of one face say which faces of the grid are exposed.
pub open spec fn face_masks_match(masks: [u32; 1024], grid: Seq<u32>, face: Face) -> bool {
    forall|layer: int, row: int, b: int|
        0 <= layer < 32 && 0 <= row < 32 && 0 <= b < 32 ==> #[trigger] col_bit(masks, layer, row, b)
            == slice_exposed(grid, 32, face, layer, row, b)
}

/// The masks of all six faces, in the order of the face codes, say which faces
/// of the grid are exposed.
pub open spec fn masks_match(masks: [[u32; 1024]; 6], grid: Seq<u32>) -> bool {
    &&& face_masks_match(masks[0], grid, Face::Right)
    &&& face_masks_match(masks[1], grid, Face::Left)
    &&& face_masks_match(masks[2], grid, Face::Up)
    &&& face_masks_match(masks[3], grid, Face::Down)
    &&& face_masks_match(masks[4], grid, Face::Front)
    &&& face_masks_match(masks[5], grid, Face::Back)
}

/// The voxel `(x, y, z)` of a chunk.
pub fn voxel_at(voxels: &[u32; CHUNK_SIZE_CB], x: usize, y: usize, z: usize) -> (block: u32)
    requires
        x < 32,
        y < 32,
        z < 32,
    ensures
        block == block_at(voxels@, 32, x as int, y as int, z as int),
{
    voxels[z * CHUNK_SIZE_SQ + y * CHUNK_SIZE + x]
}

/// Fills `masks` with the column masks of the exposed faces of `voxels`.
///
/// A bit of a mask of a face towards the higher coordinate is set when the voxel
/// is solid and the next voxel up the column is air or outside the chunk; for a
/// face towards the lower coordinate, the next voxel down the column.
pub fn build_face_masks(voxels: &[u32; CHUNK_SIZE_CB], masks: &mut [[u32; CHUNK_SIZE_SQ]; 6])
    ensures
        masks_match(*final(masks), voxels@),
{
    let mut opaque_x = [0u32;CHUNK_SIZE_SQ];
    let mut opaque_y = [0u32;CHUNK_SIZE_SQ];
    let mut opaque_z = [0u32;CHUNK_SIZE_SQ];
    let ghost grid = voxels@;
    proof {
        lemma_bit_zero();
    }

    for z in 0..CHUNK_SIZE
        invariant
            grid == voxels@,
            forall|zz: int, yy: int, i: int|
                0 <= zz < 32 && 0 <= yy < 32 && 0 <= i < 32 ==> #[trigger] col_bit(
                    opaque_x,
                    zz,
                    yy,
                    i,
                ) == (zz < z && block_at(grid, 32, i, yy, zz) != 0),
            forall|zz: int, xx: int, i: int|
                0 <= zz < 32 && 0 <= xx < 32 && 0 <= i < 32 ==> #[trigger] col_bit(
                    opaque_y,
                    zz,
                    xx,
                    i,
                ) == (zz < z && block_at(grid, 32, xx, i, zz) != 0),
            forall|yy: int, xx: int, i: int|
                0 <= yy < 32 && 0 <= xx < 32 && 0 <= i < 32 ==> #[trigger] col_bit(
                    opaque_z,
                    yy,
                    xx,
                    i,
                ) == (i < z && block_at(grid, 32, xx, yy, i) != 0),
    {
        for y in 0..CHUNK_SIZE
            invariant
                z < 32,
                grid == voxels@,
                forall|zz: int, yy: int, i: int|
                    0 <= zz < 32 && 0 <= yy < 32 && 0 <= i < 32 ==> #[trigger] col_bit(
                        opaque_x,
                        zz,
                        yy,
                        i,
                    ) == ((zz < z || (zz == z && yy < y)) && block_at(grid, 32, i, yy, zz) != 0),
                forall|zz: int, xx: int, i: int|
                    0 <= zz < 32 && 0 <= xx < 32 && 0 <= i < 32 ==> #[trigger] col_bit(
                        opaque_y,
                        zz,
                        xx,
                        i,
                    ) == ((zz < z || (zz == z && i < y)) && block_at(grid, 32, xx, i, zz) != 0),
                forall|yy: int, xx: int, i: int|
                    0 <= yy < 32 && 0 <= xx < 32 && 0 <= i < 32 ==> #[trigger] col_bit(
                        opaque_z,
                        yy,
                        xx,
                        i,
                    ) == ((i < z || (i == z && yy < y)) && block_at(grid, 32, xx, yy, i) != 0),
        {
            let row_base = z * CHUNK_SIZE_SQ + y * CHUNK_SIZE;
            let mut col_x = 0u32;
            proof {
                lemma_bit_zero();
            }
            for x in 0..CHUNK_SIZE
                invariant
                    z < 32,
                    y < 32,
                    row_base == z * 1024 + y * 32,
                    grid == voxels@,
                    forall|i: int|
                        0 <= i < 32 ==> #[trigger] bit(col_x, i as u32) == (i < x && block_at(
                            grid,
                            32,
                            i,
                            y as int,
                            z as int,
                        ) != 0),
            {
                let ghost old_col = col_x;
                if voxels[row_base + x] != 0 {
                    proof {
                        lemma_set_bit(col_x, x as u32);
                    }
                    col_x |= 1u32 << (x as u32);
                }
                proof {
                    assert forall|i: int| 0 <= i < 32 implies #[trigger] bit(col_x, i as u32) == (i
                        < x + 1 && block_at(grid, 32, i, y as int, z as int) != 0) by {
                        assert(bit(old_col, i as u32) == (i < x && block_at(
                            grid,
                            32,
                            i,
                            y as int,
                            z as int,
                        ) != 0));
                        if voxels[row_base as int + x as int] != 0 {
                            assert(bit(col_x, i as u32) == (bit(old_col, i as u32) || (i as u32)
                                == (x as u32)));
                        }
                    }
                }
            }
            let ghost old_x = opaque_x;
            opaque_x[z * CHUNK_SIZE + y] = col_x;
            proof {
                assert forall|zz: int, yy: int, i: int|
                    0 <= zz < 32 && 0 <= yy < 32 && 0 <= i < 32 implies #[trigger] col_bit(
                    opaque_x,
                    zz,
                    yy,
                    i,
                ) == ((zz < z || (zz == z && yy < y + 1)) && block_at(grid, 32, i, yy, zz) != 0) by {
                    if zz == z && yy == y {
                        assert(opaque_x[zz * 32 + yy] == col_x);
                    } else {
                        assert(opaque_x[zz * 32 + yy] == old_x[zz * 32 + yy]);
                        assert(col_bit(old_x, zz, yy, i) == ((zz < z || (zz == z && yy < y))
                            && block_at(grid, 32, i, yy, zz) != 0));
                    }
                }
            }

            for x in 0..CHUNK_SIZE
                invariant
                    z < 32,
                    y < 32,
                    row_base == z * 1024 + y * 32,
                    grid == voxels@,
                    forall|zz: int, xx: int, i: int|
                        0 <= zz < 32 && 0 <= xx < 32 && 0 <= i < 32 ==> #[trigger] col_bit(
                            opaque_y,
                            zz,
                            xx,
                            i,
                        ) == ((zz < z || (zz == z && (i < y || (i == y && xx < x)))) && block_at(
                            grid,
                            32,
                            xx,
                            i,
                            zz,
                        ) != 0),
                    forall|yy: int, xx: int, i: int|
                        0 <= yy < 32 && 0 <= xx < 32 && 0 <= i < 32 ==> #[trigger] col_bit(
                            opaque_z,
                            yy,
                            xx,
                            i,
                        ) == ((i < z || (i == z && (yy < y || (yy == y && xx < x)))) && block_at(
                            grid,
                            32,
                            xx,
                            yy,
                            i,
                        ) != 0),
            {
                let ghost prev_y = opaque_y;
                let ghost prev_z = opaque_z;
                if voxels[row_base + x] != 0 {
                    let old_y = opaque_y[z * CHUNK_SIZE + x];
                    let old_z = opaque_z[y * CHUNK_SIZE + x];
                    proof {
                        lemma_set_bit(old_y, y as u32);
                        lemma_set_bit(old_z, z as u32);
                    }
                    opaque_y[z * CHUNK_SIZE + x] = old_y | (1u32 << (y as u32));
                    opaque_z[y * CHUNK_SIZE + x] = old_z | (1u32 << (z as u32));
                }
                proof {
                    let solid = voxels[row_base as int + x as int] != 0;
                    assert(solid == (block_at(grid, 32, x as int, y as int, z as int) != 0));
                    assert forall|zz: int, xx: int, i: int|
                        0 <= zz < 32 && 0 <= xx < 32 && 0 <= i < 32 implies #[trigger] col_bit(
                        opaque_y,
                        zz,
                        xx,
                        i,
                    ) == ((zz < z || (zz == z && (i < y || (i == y && xx < x + 1)))) && block_at(
                        grid,
                        32,
                        xx,
                        i,
                        zz,
                    ) != 0) by {
                        assert(col_bit(prev_y, zz, xx, i) == ((zz < z || (zz == z && (i < y || (i
                            == y && xx < x)))) && block_at(grid, 32, xx, i, zz) != 0));
                        if solid && zz == z && xx == x {
                            let o = prev_y[z * 32 + x];
                            assert(opaque_y[zz * 32 + xx] == o | (1u32 << (y as u32)));
                            assert(bit(o | (1u32 << (y as u32)), i as u32) == (bit(o, i as u32)
                                || (i as u32) == (y as u32)));
                        } else {
                            assert(opaque_y[zz * 32 + xx] == prev_y[zz * 32 + xx]);
                        }
                    }
                    assert forall|yy: int, xx: int, i: int|
                        0 <= yy < 32 && 0 <= xx < 32 && 0 <= i < 32 implies #[trigger] col_bit(
                        opaque_z,
                        yy,
                        xx,
                        i,
                    ) == ((i < z || (i == z && (yy < y || (yy == y && xx < x + 1)))) && block_at(
                        grid,
                        32,
                        xx,
                        yy,
                        i,
                    ) != 0) by {
                        assert(col_bit(prev_z, yy, xx, i) == ((i < z || (i == z && (yy < y || (yy
                            == y && xx < x)))) && block_at(grid, 32, xx, yy, i) != 0));
                        if solid && yy == y && xx == x {
                            let o = prev_z[y * 32 + x];
                            assert(opaque_z[yy * 32 + xx] == o | (1u32 << (z as u32)));
                            assert(bit(o | (1u32 << (z as u32)), i as u32) == (bit(o, i as u32)
                                || (i as u32) == (z as u32)));
                        } else {
                            assert(opaque_z[yy * 32 + xx] == prev_z[yy * 32 + xx]);
                        }
                    }
                }
            }
        }
    }

    for i in 0..CHUNK_SIZE_SQ
        invariant
            grid == voxels@,
            forall|zz: int, yy: int, b: int|
                0 <= zz < 32 && 0 <= yy < 32 && 0 <= b < 32 ==> #[trigger] col_bit(
                    opaque_x,
                    zz,
                    yy,
                    b,
                ) == (block_at(grid, 32, b, yy, zz) != 0),
            forall|zz: int, xx: int, b: int|
                0 <= zz < 32 && 0 <= xx < 32 && 0 <= b < 32 ==> #[trigger] col_bit(
                    opaque_y,
                    zz,
                    xx,
                    b,
                ) == (block_at(grid, 32, xx, b, zz) != 0),
            forall|yy: int, xx: int, b: int|
                0 <= yy < 32 && 0 <= xx < 32 && 0 <= b < 32 ==> #[trigger] col_bit(
                    opaque_z,
                    yy,
                    xx,
                    b,
                ) == (block_at(grid, 32, xx, yy, b) != 0),
            forall|layer: int, row: int, b: int|
                0 <= layer < 32 && 0 <= row < 32 && 0 <= b < 32 && layer * 32 + row < i
                    ==> #[trigger] col_bit(masks[0], layer, row, b) == slice_exposed(
                    grid,
                    32,
                    Face::Right,
                    layer,
                    row,
                    b,
                ),
            forall|layer: int, row: int, b: int|
                0 <= layer < 32 && 0 <= row < 32 && 0 <= b < 32 && layer * 32 + row < i
                    ==> #[trigger] col_bit(masks[1], layer, row, b) == slice_exposed(
                    grid,
                    32,
                    Face::Left,
                    layer,
                    row,
                    b,
                ),
            forall|layer: int, row: int, b: int|
                0 <= layer < 32 && 0 <= row < 32 && 0 <= b < 32 && layer * 32 + row < i
                    ==> #[trigger] col_bit(masks[2], layer, row, b) == slice_exposed(
                    grid,
                    32,
                    Face::Up,
                    layer,
                    row,
                    b,
                ),
            forall|layer: int, row: int, b: int|
                0 <= layer < 32 && 0 <= row < 32 && 0 <= b < 32 && layer * 32 + row < i
                    ==> #[trigger] col_bit(masks[3], layer, row, b) == slice_exposed(
                    grid,
                    32,
                    Face::Down,
                    layer,
                    row,
                    b,
                ),
            forall|layer: int, row: int, b: int|
                0 <= layer < 32 && 0 <= row < 32 && 0 <= b < 32 && layer * 32 + row < i
                    ==> #[trigger] col_bit(masks[4], layer, row, b) == slice_exposed(
                    grid,
                    32,
                    Face::Front,
                    layer,
                    row,
                    b,
                ),
            forall|layer: int, row: int, b: int|
                0 <= layer < 32 && 0 <= row < 32 && 0 <= b < 32 && layer * 32 + row < i
                    ==> #[trigger] col_bit(masks[5], layer, row, b) == slice_exposed(
                    grid,
                    32,
                    Face::Back,
                    layer,
                    row,
                    b,
                ),
    {
        let ghost layer = i as int / 32;
        let ghost row = i as int % 32;
        let ghost prev = *masks;

        let cx = opaque_x[i];
        let cy = opaque_y[i];
        let cz = opaque_z[i];
        masks[0][i] = cx & !(cx >> 1);
        masks[1][i] = cx & !(cx << 1);
        masks[2][i] = cy & !(cy >> 1);
        masks[3][i] = cy & !(cy << 1);
        masks[4][i] = cz & !(cz >> 1);
        masks[5][i] = cz & !(cz << 1);

        proof {
            lemma_upper_clear(cx);
            lemma_lower_clear(cx);
            lemma_upper_clear(cy);
            lemma_lower_clear(cy);
            lemma_upper_clear(cz);
            lemma_lower_clear(cz);
            assert(masks[0][i as int] == cx & !(cx >> 1));
            assert(masks[1][i as int] == cx & !(cx << 1));
            assert(masks[2][i as int] == cy & !(cy >> 1));
            assert(masks[3][i as int] == cy & !(cy << 1));
            assert(masks[4][i as int] == cz & !(cz >> 1));
            assert(masks[5][i as int] == cz & !(cz << 1));
            assert forall|f: int, j: int| 0 <= f < 6 && 0 <= j < 1024 && j != i implies masks[f][j]
                == prev[f][j] by {}
            assert forall|b: int| 0 <= b < 32 implies bit(cx, b as u32) == (block_at(
                grid,
                32,
                b,
                row,
                layer,
            ) != 0) by {
                assert(col_bit(opaque_x, layer, row, b) == bit(cx, b as u32));
            }
            assert forall|b: int| 0 <= b < 32 implies bit(cy, b as u32) == (block_at(
                grid,
                32,
                row,
                b,
                layer,
            ) != 0) by {
                assert(col_bit(opaque_y, layer, row, b) == bit(cy, b as u32));
            }
            assert forall|b: int| 0 <= b < 32 implies bit(cz, b as u32) == (block_at(
                grid,
                32,
                row,
                layer,
                b,
            ) != 0) by {
                assert(col_bit(opaque_z, layer, row, b) == bit(cz, b as u32));
            }
            assert forall|l: int, r: int, b: int|
                0 <= l < 32 && 0 <= r < 32 && 0 <= b < 32 && l * 32 + r < i + 1 implies #[trigger] col_bit(
                masks[0],
                l,
                r,
                b,
            ) == slice_exposed(grid, 32, Face::Right, l, r, b) by {
                if l * 32 + r == i {
                    if b < 31 {
                        assert(bit(cx, (b + 1) as u32) == (block_at(grid, 32, b + 1, row, layer)
                            != 0));
                        assert(bit(cx & !(cx >> 1u32), b as u32) == (bit(cx, b as u32) && !bit(
                            cx,
                            ((b as u32) + 1) as u32,
                        )));
                    }
                } else {
                    assert(col_bit(prev[0], l, r, b) == col_bit(masks[0], l, r, b));
                }
            }
            assert forall|l: int, r: int, b: int|
                0 <= l < 32 && 0 <= r < 32 && 0 <= b < 32 && l * 32 + r < i + 1 implies #[trigger] col_bit(
                masks[1],
                l,
                r,
                b,
            ) == slice_exposed(grid, 32, Face::Left, l, r, b) by {
                if l * 32 + r == i {
                    if b > 0 {
                        assert(bit(cx, (b - 1) as u32) == (block_at(grid, 32, b - 1, row, layer)
                            != 0));
                        assert(bit(cx & !(cx << 1u32), b as u32) == (bit(cx, b as u32) && !bit(
                            cx,
                            ((b as u32) - 1) as u32,
                        )));
                    }
                } else {
                    assert(col_bit(prev[1], l, r, b) == col_bit(masks[1], l, r, b));
                }
            }
            assert forall|l: int, r: int, b: int|
                0 <= l < 32 && 0 <= r < 32 && 0 <= b < 32 && l * 32 + r < i + 1 implies #[trigger] col_bit(
                masks[2],
                l,
                r,
                b,
            ) == slice_exposed(grid, 32, Face::Up, l, r, b) by {
                if l * 32 + r == i {
                    if b < 31 {
                        assert(bit(cy, (b + 1) as u32) == (block_at(grid, 32, row, b + 1, layer)
                            != 0));
                        assert(bit(cy & !(cy >> 1u32), b as u32) == (bit(cy, b as u32) && !bit(
                            cy,
                            ((b as u32) + 1) as u32,
                        )));
                    }
                } else {
                    assert(col_bit(prev[2], l, r, b) == col_bit(masks[2], l, r, b));
                }
            }
            assert forall|l: int, r: int, b: int|
                0 <= l < 32 && 0 <= r < 32 && 0 <= b < 32 && l * 32 + r < i + 1 implies #[trigger] col_bit(
                masks[3],
                l,
                r,
                b,
            ) == slice_exposed(grid, 32, Face::Down, l, r, b) by {
                if l * 32 + r == i {
                    if b > 0 {
                        assert(bit(cy, (b - 1) as u32) == (block_at(grid, 32, row, b - 1, layer)
                            != 0));
                        assert(bit(cy & !(cy << 1u32), b as u32) == (bit(cy, b as u32) && !bit(
                            cy,
                            ((b as u32) - 1) as u32,
                        )));
                    }
                } else {
                    assert(col_bit(prev[3], l, r, b) == col_bit(masks[3], l, r, b));
                }
            }
            assert forall|l: int, r: int, b: int|
                0 <= l < 32 && 0 <= r < 32 && 0 <= b < 32 && l * 32 + r < i + 1 implies #[trigger] col_bit(
                masks[4],
                l,
                r,
                b,
            ) == slice_exposed(grid, 32, Face::Front, l, r, b) by {
                if l * 32 + r == i {
                    if b < 31 {
                        assert(bit(cz, (b + 1) as u32) == (block_at(grid, 32, row, layer, b + 1)
                            != 0));
                        assert(bit(cz & !(cz >> 1u32), b as u32) == (bit(cz, b as u32) && !bit(
                            cz,
                            ((b as u32) + 1) as u32,
                        )));
                    }
                } else {
                    assert(col_bit(prev[4], l, r, b) == col_bit(masks[4], l, r, b));
                }
            }
            assert forall|l: int, r: int, b: int|
                0 <= l < 32 && 0 <= r < 32 && 0 <= b < 32 && l * 32 + r < i + 1 implies #[trigger] col_bit(
                masks[5],
                l,
                r,
                b,
            ) == slice_exposed(grid, 32, Face::Back, l, r, b) by {
                if l * 32 + r == i {
                    if b > 0 {
                        assert(bit(cz, (b - 1) as u32) == (block_at(grid, 32, row, layer, b - 1)
                            != 0));
                        assert(bit(cz & !(cz << 1u32), b as u32) == (bit(cz, b as u32) && !bit(
                            cz,
                            ((b as u32) - 1) as u32,
                        )));
                    }
                } else {
                    assert(col_bit(prev[5], l, r, b) == col_bit(masks[5], l, r, b));
                }
            }
        }
    }
}

/// The block of the cell `(layer, row, bit_pos)` in the sweep of the face with
/// the code `face_idx`.
pub fn get_block(
    voxels: &[u32; CHUNK_SIZE_CB],
    face_idx: usize,
    layer: usize,
    row: usize,
    bit_pos: usize,
) -> (block: u32)
    requires
        face_idx < 6,
        layer < 32,
        row < 32,
        bit_pos < 32,
    ensures
        forall|face: Face|
            face.code() == face_idx ==> block == #[trigger] slice_block(
                voxels@,
                32,
                face,
                layer as int,
                row as int,
                bit_pos as int,
            ),
{
    match face_idx {
        0 | 1 => voxel_at(voxels, bit_pos, row, layer),
        2 | 3 => voxel_at(voxels, row, bit_pos, layer),
        _ => voxel_at(voxels, row, layer, bit_pos),
    }
}

/// The quad that starts in the cell `(layer, row_start, bit_pos)` of the sweep of
/// `face`, `width` cells along the bits and `length` cells along the rows.
pub open spec fn slice_quad(
    face: Face,
    layer: int,
    row_start: int,
    bit_pos: int,
    width: u8,
    length: u8,
    block: u32,
) -> MeshQuad {
    if face.along_x() {
        MeshQuad {
            x: bit_pos as u8,
            y: row_start as u8,
            z: layer as u8,
            width,
            height: length,
            face,
            block_type: block,
        }
    } else if face.along_y() {
        MeshQuad {
            x: row_start as u8,
            y: bit_pos as u8,
            z: layer as u8,
            width: length,
            height: width,
            face,
            block_type: block,
        }
    } else {
        MeshQuad {
            x: row_start as u8,
            y: layer as u8,
            z: bit_pos as u8,
            width: length,
            height: width,
            face,
            block_type: block,
        }
    }
}

/// Adds to `result` the quad that starts in the cell `(layer, row_start, bit_pos)`
/// of the sweep of `face`.
fn emit_quad(
    result: &mut ChunkMesh,
    face: Face,
    face_idx: usize,
    layer: usize,
    row_start: usize,
    bit_pos: usize,
    width: u8,
    length: u8,
    block: u32,
)
    requires
        face_idx == face.code(),
        layer < 32,
        row_start < 32,
        bit_pos < 32,
    ensures
        final(result)@ == old(result)@.push(
            slice_quad(face, layer as int, row_start as int, bit_pos as int, width, length, block),
        ),
{
    let (qx, qy, qz, qw, qh) = match face_idx {
        0 | 1 => (bit_pos as u8, row_start as u8, layer as u8, width, length),
        2 | 3 => (row_start as u8, bit_pos as u8, layer as u8, length, width),
        _ => (row_start as u8, layer as u8, bit_pos as u8, length, width),
    };
    result.quads.push(
        MeshQuad { x: qx, y: qy, z: qz, width: qw, height: qh, face, block_type: block },
    );
}

/// A maximal run whose place lies in one row of the sweep, between the bits
/// `lo` and `hi`, lies in that row and shows its block there.
proof fn lemma_key_in_row(
    r: Run,
    grid: Seq<u32>,
    code: int,
    layer: int,
    row: int,
    lo: int,
    hi: int,
)
    requires
        r.is_maximal(grid, 32),
        0 <= layer < 32,
        0 <= row < 32,
        0 <= lo <= hi <= 32,
        slice_key(code, layer, row, lo) <= run_key(r, true) < slice_key(code, layer, row, hi),
    ensures
        r.face.code() == code,
        run_layer(r) == layer,
        run_row(r) + r.len - 1 == row,
        lo <= run_bit(r) < hi,
        slice_shows(grid, 32, r.face, r.block, layer, row, run_bit(r)),
        !slice_shows(grid, 32, r.face, r.block, layer, row + 1, run_bit(r)),
        back_len(grid, 32, r.face, r.block, layer, row, run_bit(r)) == r.len - 1,
{
    lemma_run_in_grid(r, grid, 32);
    assert(r.shows_at(grid, 32, r.len - 1));
    lemma_shows_at(r, grid, 32, r.len - 1);
    lemma_shows_at(r, grid, 32, r.len);
    lemma_back_len_in_run(r, grid, 32, r.len - 1);
}

/// Where a cell is not exposed, a sweep has gathered nothing, and it has
/// gathered nothing at the cell of the next row either.
proof fn lemma_pending_unexposed(grid: Seq<u32>, face: Face, layer: int, row: int, b: int)
    requires
        !slice_exposed(grid, 32, face, layer, row, b),
    ensures
        pending(grid, 32, face, layer, row, b) == 0,
        pending(grid, 32, face, layer, row + 1, b) == 0,
{
}

/// The step of the sweep at a face that goes on in the next row.
proof fn lemma_step_forward(
    quads: Seq<MeshQuad>,
    grid: Seq<u32>,
    face: Face,
    block: u32,
    layer: int,
    row: int,
    p: int,
    b: int,
)
    requires
        0 <= layer < 32,
        0 <= row < 32,
        0 <= p <= b < 32,
        partial_mesh(quads, grid, 32, 1, true, slice_key(face.code(), layer, row, p)),
        forall|c: int| p <= c < b ==> !#[trigger] slice_exposed(grid, 32, face, layer, row, c),
        slice_shows(grid, 32, face, block, layer, row, b),
        slice_shows(grid, 32, face, block, layer, row + 1, b),
    ensures
        partial_mesh(quads, grid, 32, 1, true, slice_key(face.code(), layer, row, b + 1)),
        pending(grid, 32, face, layer, row + 1, b) == pending(grid, 32, face, layer, row, b) + 1,
        pending(grid, 32, face, layer, row, b) < row + 1 < 32,
{
    let code = face.code();
    assert forall|r: Run| #[trigger] r.is_maximal(grid, 32) implies !(slice_key(
        code,
        layer,
        row,
        p,
    ) <= run_key(r, true) < slice_key(code, layer, row, b + 1)) by {
        if slice_key(code, layer, row, p) <= run_key(r, true) < slice_key(code, layer, row, b + 1) {
            lemma_key_in_row(r, grid, code, layer, row, p, b + 1);
        }
    }
    lemma_partial_mesh_skip(
        quads,
        grid,
        32,
        1,
        true,
        slice_key(code, layer, row, p),
        slice_key(code, layer, row, b + 1),
    );
    lemma_back_len(grid, 32, face, block, layer, row, b);
}

/// The step of the sweep at a face that does not go on in the next row.
proof fn lemma_step_emit(
    quads: Seq<MeshQuad>,
    grid: Seq<u32>,
    face: Face,
    block: u32,
    layer: int,
    row: int,
    p: int,
    b: int,
)
    requires
        0 <= layer < 32,
        0 <= row < 32,
        0 <= p <= b < 32,
        partial_mesh(quads, grid, 32, 1, true, slice_key(face.code(), layer, row, p)),
        forall|c: int| p <= c < b ==> !#[trigger] slice_exposed(grid, 32, face, layer, row, c),
        slice_shows(grid, 32, face, block, layer, row, b),
        !slice_shows(grid, 32, face, block, layer, row + 1, b),
    ensures
        0 <= pending(grid, 32, face, layer, row, b) <= row,
        partial_mesh(
            quads.push(
                slice_quad(
                    face,
                    layer,
                    row - pending(grid, 32, face, layer, row, b),
                    b,
                    1,
                    (pending(grid, 32, face, layer, row, b) + 1) as u8,
                    block,
                ),
            ),
            grid,
            32,
            1,
            true,
            slice_key(face.code(), layer, row, b + 1),
        ),
        pending(grid, 32, face, layer, row + 1, b) == 0,
{
    let code = face.code();
    let m = back_len(grid, 32, face, block, layer, row, b);
    lemma_back_len(grid, 32, face, block, layer, row, b);
    let run = run_of_slice(face, layer, row - m, b, m + 1, block);
    lemma_gathered_run(grid, 32, face, block, layer, row, b);
    lemma_quad_run(run, 1);
    assert(run.quad(1) == slice_quad(face, layer, row - m, b, 1, (m + 1) as u8, block));
    assert forall|r: Run| #[trigger]
        r.is_maximal(grid, 32) && slice_key(code, layer, row, p) <= run_key(r, true) < slice_key(
            code,
            layer,
            row,
            b + 1,
        ) implies r == run by {
        lemma_key_in_row(r, grid, code, layer, row, p, b + 1);
        lemma_run_slice(r);
    }
    lemma_partial_mesh_push(
        quads,
        grid,
        32,
        1,
        true,
        slice_key(code, layer, row, p),
        slice_key(code, layer, row, b + 1),
        run,
    );
}

/// Merges the exposed faces `face` of a chunk and adds the quads to `result`.
///
/// Layer by layer and row by row, the lowest set bit of the row's mask is
/// taken. If the face goes on in the next row with the same block, the count
/// of the bit grows by one. Otherwise the quad is closed and added.
fn merge_face(
    voxels: &[u32; CHUNK_SIZE_CB],
    masks: &[u32; CHUNK_SIZE_SQ],
    face: Face,
    face_idx: usize,
    forward_merged: &mut [u8; CHUNK_SIZE],
    result: &mut ChunkMesh,
)
    requires
        face_idx == face.code(),
        face_masks_match(*masks, voxels@, face),
        forall|b: int| 0 <= b < 32 ==> old(forward_merged)[b] == 0,
        partial_mesh(old(result)@, voxels@, 32, 1, true, slice_key(face.code(), 0, 0, 0)),
    ensures
        forall|b: int| 0 <= b < 32 ==> final(forward_merged)[b] == 0,
        partial_mesh(final(result)@, voxels@, 32, 1, true, slice_key(face.code() + 1, 0, 0, 0)),
{
    let ghost grid = voxels@;
    let ghost code = face.code();
    for layer in 0..CHUNK_SIZE
        invariant
            grid == voxels@,
            code == face.code(),
            face_idx == code,
            face_masks_match(*masks, grid, face),
            forall|b: int| 0 <= b < 32 ==> forward_merged[b] == 0,
            partial_mesh(result@, grid, 32, 1, true, slice_key(code, layer as int, 0, 0)),
    {
        let base = layer * CHUNK_SIZE;
        for row in 0..CHUNK_SIZE
            invariant
                grid == voxels@,
                code == face.code(),
                face_idx == code,
                layer < 32,
                base == layer * 32,
                face_masks_match(*masks, grid, face),
                forall|b: int|
                    0 <= b < 32 ==> #[trigger] forward_merged[b] as int == pending(
                        grid,
                        32,
                        face,
                        layer as int,
                        row as int,
                        b,
                    ),
                partial_mesh(result@, grid, 32, 1, true, slice_key(code, layer as int, row as int, 0)),
        {
            let mut bits = masks[base + row];
            let next_bits = if row + 1 < CHUNK_SIZE {
                masks[base + row + 1]
            } else {
                0
            };
            let ghost mut p: int = 0;
            proof {
                lemma_bit_zero();
                assert forall|b: int| 0 <= b < 32 implies #[trigger] bit(bits, b as u32)
                    == slice_exposed(grid, 32, face, layer as int, row as int, b) by {
                    assert(col_bit(*masks, layer as int, row as int, b) == bit(bits, b as u32));
                }
                assert forall|b: int| 0 <= b < 32 implies #[trigger] bit(next_bits, b as u32)
                    == slice_exposed(grid, 32, face, layer as int, row + 1, b) by {
                    if row + 1 < 32 {
                        assert(col_bit(*masks, layer as int, row + 1, b) == bit(
                            next_bits,
                            b as u32,
                        ));
                    }
                }
            }

            while bits != 0
                invariant
                    grid == voxels@,
                    code == face.code(),
                    face_idx == code,
                    layer < 32,
                    row < 32,
                    0 <= p <= 32,
                    forall|b: int|
                        0 <= b < 32 ==> #[trigger] bit(bits, b as u32) == (b >= p && slice_exposed(
                            grid,
                            32,
                            face,
                            layer as int,
                            row as int,
                            b,
                        )),
                    forall|b: int|
                        0 <= b < 32 ==> #[trigger] bit(next_bits, b as u32) == slice_exposed(
                            grid,
                            32,
                            face,
                            layer as int,
                            row + 1,
                            b,
                        ),
                    forall|b: int|
                        0 <= b < 32 ==> #[trigger] forward_merged[b] as int == if b < p {
                            pending(grid, 32, face, layer as int, row + 1, b)
                        } else {
                            pending(grid, 32, face, layer as int, row as int, b)
                        },
                    partial_mesh(
                        result@,
                        grid,
                        32,
                        1,
                        true,
                        slice_key(code, layer as int, row as int, p),
                    ),
                decreases 32 - p,
            {
                let tz: u32 = bits.trailing_zeros();
                let bit_pos = tz as usize;
                proof {
                    lemma_lowest_bit(bits);
                    lemma_bit_test(next_bits, tz);
                    lemma_bit_zero();
                    assert(bit(bits, (bit_pos as int) as u32));
                    assert forall|b: int| p <= b < bit_pos implies !slice_exposed(
                        grid,
                        32,
                        face,
                        layer as int,
                        row as int,
                        b,
                    ) by {
                        assert(!bit(bits, b as u32));
                    }
                    assert(bit(next_bits, (bit_pos as int) as u32) == slice_exposed(
                        grid,
                        32,
                        face,
                        layer as int,
                        row + 1,
                        bit_pos as int,
                    ));
                }
                let block = get_block(voxels, face_idx, layer, row, bit_pos);
                let ghost old_fm = *forward_merged;
                let ghost old_bits = bits;
                let ghost old_quads = result@;
                proof {
                    assert(block == slice_block(
                        grid,
                        32,
                        face,
                        layer as int,
                        row as int,
                        bit_pos as int,
                    ));
                    assert(forward_merged[bit_pos as int] as int == pending(
                        grid,
                        32,
                        face,
                        layer as int,
                        row as int,
                        bit_pos as int,
                    ));
                    lemma_back_len(grid, 32, face, block, layer as int, row as int, bit_pos as int);
                    assert(0 <= forward_merged[bit_pos as int] <= row);
                }

                if (next_bits >> tz & 1) != 0 && block == get_block(
                    voxels,
                    face_idx,
                    layer,
                    row + 1,
                    bit_pos,
                ) {
                    let count = forward_merged[bit_pos];
                    forward_merged[bit_pos] = count + 1;
                    proof {
                        lemma_clear_bit(bits, tz);
                    }
                    bits &= !(1u32 << tz);
                    proof {
                        lemma_step_forward(
                            old_quads,
                            grid,
                            face,
                            block,
                            layer as int,
                            row as int,
                            p,
                            bit_pos as int,
                        );
                        assert forall|b: int| 0 <= b < 32 implies #[trigger] bit(bits, b as u32)
                            == (b >= bit_pos + 1 && slice_exposed(
                            grid,
                            32,
                            face,
                            layer as int,
                            row as int,
                            b,
                        )) by {
                            assert(bit(old_bits, b as u32) == (b >= p && slice_exposed(
                                grid,
                                32,
                                face,
                                layer as int,
                                row as int,
                                b,
                            )));
                            assert(bit(old_bits & !(1u32 << tz), b as u32) == (bit(
                                old_bits,
                                b as u32,
                            ) && (b as u32) != tz));
                        }
                        assert forall|b: int| 0 <= b < 32 implies #[trigger] forward_merged[b] as int
                            == if b < bit_pos + 1 {
                            pending(grid, 32, face, layer as int, row + 1, b)
                        } else {
                            pending(grid, 32, face, layer as int, row as int, b)
                        } by {
                            if b != bit_pos {
                                assert(forward_merged[b] == old_fm[b]);
                                if p <= b < bit_pos {
                                    lemma_pending_unexposed(grid, face, layer as int, row as int, b);
                                }
                            }
                        }
                        p = bit_pos + 1;
                    }
                } else {
                    let mut right_merged: u8 = 1;
                    let mut right = bit_pos + 1;
                    proof {
                        lemma_no_neighbours(
                            grid,
                            32,
                            face,
                            layer as int,
                            row as int,
                            bit_pos as int,
                        );
                    }
                    while right < CHUNK_SIZE
                        invariant
                            right == bit_pos + 1,
                            right_merged == 1,
                            bit_pos < 32,
                            face_idx < 6,
                            layer < 32,
                            row < 32,
                            *forward_merged == old_fm,
                            right < 32 ==> !bit(bits, right as u32),
                        decreases CHUNK_SIZE - right,
                    {
                        proof {
                            lemma_bit_test(bits, right as u32);
                        }
                        if (bits >> (right as u32) & 1) == 0 || forward_merged[bit_pos]
                            != forward_merged[right] || block != get_block(
                            voxels,
                            face_idx,
                            layer,
                            row,
                            right,
                        ) {
                            break ;
                        }
                        forward_merged[right] = 0;
                        right_merged += 1;
                        right += 1;
                    }

                    let end = bit_pos + right_merged as usize;
                    proof {
                        lemma_shift_one(tz);
                        if end < 32 {
                            lemma_shift_one(end as u32);
                        }
                        lemma_clear_range(bits, tz, end as u32);
                    }
                    let clear_mask = if end >= 32 {
                        !((1u32 << tz) - 1)
                    } else {
                        ((1u32 << (end as u32)) - 1) & !((1u32 << tz) - 1)
                    };
                    assert(clear_mask == range_mask(tz, end as u32));
                    bits &= !clear_mask;

                    let row_start = row - forward_merged[bit_pos] as usize;
                    let length = forward_merged[bit_pos] + 1;
                    let width = right_merged;

                    forward_merged[bit_pos] = 0;

                    emit_quad(
                        result,
                        face,
                        face_idx,
                        layer,
                        row_start,
                        bit_pos,
                        width,
                        length,
                        block,
                    );
                    proof {
                        lemma_step_emit(
                            old_quads,
                            grid,
                            face,
                            block,
                            layer as int,
                            row as int,
                            p,
                            bit_pos as int,
                        );
                        assert forall|b: int| 0 <= b < 32 implies #[trigger] bit(bits, b as u32)
                            == (b >= bit_pos + 1 && slice_exposed(
                            grid,
                            32,
                            face,
                            layer as int,
                            row as int,
                            b,
                        )) by {
                            assert(bit(old_bits, b as u32) == (b >= p && slice_exposed(
                                grid,
                                32,
                                face,
                                layer as int,
                                row as int,
                                b,
                            )));
                            assert(bit(old_bits & !range_mask(tz, end as u32), b as u32) == (bit(
                                old_bits,
                                b as u32,
                            ) && !(tz <= (b as u32) < (end as u32))));
                        }
                        assert forall|b: int| 0 <= b < 32 implies #[trigger] forward_merged[b] as int
                            == if b < bit_pos + 1 {
                            pending(grid, 32, face, layer as int, row + 1, b)
                        } else {
                            pending(grid, 32, face, layer as int, row as int, b)
                        } by {
                            if b != bit_pos {
                                assert(forward_merged[b] == old_fm[b]);
                                if p <= b < bit_pos {
                                    lemma_pending_unexposed(grid, face, layer as int, row as int, b);
                                }
                            }
                        }
                        p = bit_pos + 1;
                    }
                }
            }
            proof {
                lemma_bit_zero();
                assert forall|r: Run| #[trigger]
                    r.is_maximal(grid, 32) implies !(slice_key(code, layer as int, row as int, p)
                    <= run_key(r, true) < slice_key(code, layer as int, row as int, 32)) by {
                    if slice_key(code, layer as int, row as int, p) <= run_key(r, true)
                        < slice_key(code, layer as int, row as int, 32) {
                        lemma_key_in_row(r, grid, code, layer as int, row as int, p, 32);
                        assert(!bit(bits, run_bit(r) as u32));
                    }
                }
                lemma_partial_mesh_skip(
                    result@,
                    grid,
                    32,
                    1,
                    true,
                    slice_key(code, layer as int, row as int, p),
                    slice_key(code, layer as int, row as int, 32),
                );
                assert forall|b: int| 0 <= b < 32 implies #[trigger] forward_merged[b] as int
                    == pending(grid, 32, face, layer as int, row + 1, b) by {
                    if b >= p {
                        assert(!bit(bits, b as u32));
                    }
                }
            }
        }
    }
}

/// Adds to `result` the quads of all six faces, in the order of the face codes.
fn greedy_merge(
    voxels: &[u32; CHUNK_SIZE_CB],
    masks: &[[u32; CHUNK_SIZE_SQ]; 6],
    result: &mut ChunkMesh,
)
    requires
        masks_match(*masks, voxels@),
        old(result)@.len() == 0,
    ensures
        is_mesh_of(final(result)@, voxels@, 32, 1),
        in_sweep_order(final(result)@, 1, true),
{
    let mut forward_merged = [0u8;CHUNK_SIZE];
    proof {
        lemma_partial_mesh_empty(voxels@, 32, 1, true);
        assert(result@ =~= Seq::<MeshQuad>::empty());
    }

    for face_idx in 0..6usize
        invariant
            masks_match(*masks, voxels@),
            forall|b: int| 0 <= b < 32 ==> forward_merged[b] == 0,
            partial_mesh(result@, voxels@, 32, 1, true, slice_key(face_idx as int, 0, 0, 0)),
    {
        let face = match face_idx {
            0 => Face::Right,
            1 => Face::Left,
            2 => Face::Up,
            3 => Face::Down,
            4 => Face::Front,
            _ => Face::Back,
        };
        merge_face(voxels, &masks[face_idx], face, face_idx, &mut forward_merged, result);
    }
    proof {
        lemma_partial_mesh_full(result@, voxels@, 32, 1, true);
    }
}

/// The mesh of a chunk: its quads are the maximal runs of exposed faces that
/// show one block, each run once, in the order in which the sweep closes them.
pub fn mesh(voxels: &[u32; CHUNK_SIZE_CB]) -> (result: ChunkMesh)
    ensures
        is_mesh_of(result@, voxels@, 32, 1),
        in_sweep_order(result@, 1, true),
{
    let mut result = ChunkMesh::new();
    let mut face_masks = [[0u32;CHUNK_SIZE_SQ];6];
    build_face_masks(voxels, &mut face_masks);
    greedy_merge(voxels, &face_masks, &mut result);
    result
}

} // verus!
