//! Chunks to try the meshers on.

use vstd::prelude::*;
use crate::mesh::{block_at, CHUNK_SIZE, CHUNK_SIZE_CB, CHUNK_SIZE_SQ};

verus! {

/// The height of the ground of the sample terrain above the column `(x, z)`.
pub open spec fn terrain_height(x: int, z: int) -> int {
    16 + (x * 3 + z * 7) % 5 - 2
}

/// The block of the sample terrain in the cell `(x, y, z)`: air from the
/// height of the ground on, one layer of block 3 below it, two layers of
/// block 2 below that, block 1 further down.
pub open spec fn terrain_block(x: int, y: int, z: int) -> u32 {
    let height = terrain_height(x, z);
    if y >= height {
        0
    } else if y < height - 3 {
        1
    } else if y < height - 1 {
        2
    } else {
        3
    }
}

/// A chunk in which every cell holds `block_id`.
pub fn uniform_chunk(block_id: u32) -> (voxels: [u32; CHUNK_SIZE_CB])
    ensures
        forall|i: int| 0 <= i < 32768 ==> #[trigger] voxels[i] == block_id,
{
    [block_id;CHUNK_SIZE_CB]
}

/// A chunk in which `block_id` and air take turns: a cell holds `block_id`
/// where the sum of its coordinates is even.
pub fn checkerboard_chunk(block_id: u32) -> (voxels: [u32; CHUNK_SIZE_CB])
    ensures
        forall|x: int, y: int, z: int|
            0 <= x < 32 && 0 <= y < 32 && 0 <= z < 32 ==> #[trigger] block_at(voxels@, 32, x, y, z)
                == if (x + y + z) % 2 == 0 {
                block_id
            } else {
                0
            },
{
    let mut voxels = [0u32;CHUNK_SIZE_CB];
    for z in 0..CHUNK_SIZE
        invariant
            forall|a: int, b: int, c: int|
                0 <= a < 32 && 0 <= b < 32 && 0 <= c < 32 ==> #[trigger] block_at(
                    voxels@,
                    32,
                    a,
                    b,
                    c,
                ) == if c < z && (a + b + c) % 2 == 0 {
                    block_id
                } else {
                    0
                },
    {
        for y in 0..CHUNK_SIZE
            invariant
                z < 32,
                forall|a: int, b: int, c: int|
                    0 <= a < 32 && 0 <= b < 32 && 0 <= c < 32 ==> #[trigger] block_at(
                        voxels@,
                        32,
                        a,
                        b,
                        c,
                    ) == if (c < z || (c == z && b < y)) && (a + b + c) % 2 == 0 {
                        block_id
                    } else {
                        0
                    },
        {
            for x in 0..CHUNK_SIZE
                invariant
                    z < 32,
                    y < 32,
                    forall|a: int, b: int, c: int|
                        0 <= a < 32 && 0 <= b < 32 && 0 <= c < 32 ==> #[trigger] block_at(
                            voxels@,
                            32,
                            a,
                            b,
                            c,
                        ) == if (c < z || (c == z && (b < y || (b == y && a < x)))) && (a + b + c)
                            % 2 == 0 {
                            block_id
                        } else {
                            0
                        },
            {
                let ghost before = voxels@;
                if (x + y + z) % 2 == 0 {
                    voxels[z * CHUNK_SIZE_SQ + y * CHUNK_SIZE + x] = block_id;
                }
                proof {
                    assert forall|a: int, b: int, c: int|
                        0 <= a < 32 && 0 <= b < 32 && 0 <= c < 32 implies #[trigger] block_at(
                        voxels@,
                        32,
                        a,
                        b,
                        c,
                    ) == if (c < z || (c == z && (b < y || (b == y && a < x + 1)))) && (a + b + c)
                        % 2 == 0 {
                        block_id
                    } else {
                        0
                    } by {
                        if !(a == x && b == y && c == z) {
                            assert(block_at(voxels@, 32, a, b, c) == block_at(before, 32, a, b, c));
                        } else {
                            assert(block_at(before, 32, a, b, c) == 0);
                        }
                    }
                }
            }
        }
    }
    voxels
}

/// A chunk of sample terrain: see [`terrain_block`].
pub fn terrain_chunk() -> (voxels: [u32; CHUNK_SIZE_CB])
    ensures
        forall|x: int, y: int, z: int|
            0 <= x < 32 && 0 <= y < 32 && 0 <= z < 32 ==> #[trigger] block_at(voxels@, 32, x, y, z)
                == terrain_block(x, y, z),
{
    let mut voxels = [0u32;CHUNK_SIZE_CB];
    for z in 0..CHUNK_SIZE
        invariant
            forall|a: int, b: int, c: int|
                0 <= a < 32 && 0 <= b < 32 && 0 <= c < 32 ==> #[trigger] block_at(
                    voxels@,
                    32,
                    a,
                    b,
                    c,
                ) == if c < z {
                    terrain_block(a, b, c)
                } else {
                    0
                },
    {
        for y in 0..CHUNK_SIZE
            invariant
                z < 32,
                forall|a: int, b: int, c: int|
                    0 <= a < 32 && 0 <= b < 32 && 0 <= c < 32 ==> #[trigger] block_at(
                        voxels@,
                        32,
                        a,
                        b,
                        c,
                    ) == if c < z || (c == z && b < y) {
                        terrain_block(a, b, c)
                    } else {
                        0
                    },
        {
            for x in 0..CHUNK_SIZE
                invariant
                    z < 32,
                    y < 32,
                    forall|a: int, b: int, c: int|
                        0 <= a < 32 && 0 <= b < 32 && 0 <= c < 32 ==> #[trigger] block_at(
                            voxels@,
                            32,
                            a,
                            b,
                            c,
                        ) == if c < z || (c == z && (b < y || (b == y && a < x))) {
                            terrain_block(a, b, c)
                        } else {
                            0
                        },
            {
                let ghost before = voxels@;
                let height: i32 = 16 + ((x * 3 + z * 7) % 5) as i32 - 2;
                if (y as i32) < height {
                    let block: u32 = if (y as i32) < height - 3 {
                        1
                    } else if (y as i32) < height - 1 {
                        2
                    } else {
                        3
                    };
                    voxels[z * CHUNK_SIZE_SQ + y * CHUNK_SIZE + x] = block;
                }
                proof {
                    assert(height == terrain_height(x as int, z as int));
                    assert forall|a: int, b: int, c: int|
                        0 <= a < 32 && 0 <= b < 32 && 0 <= c < 32 implies #[trigger] block_at(
                        voxels@,
                        32,
                        a,
                        b,
                        c,
                    ) == if c < z || (c == z && (b < y || (b == y && a < x + 1))) {
                        terrain_block(a, b, c)
                    } else {
                        0
                    } by {
                        if !(a == x && b == y && c == z) {
                            assert(block_at(voxels@, 32, a, b, c) == block_at(before, 32, a, b, c));
                        } else {
                            assert(block_at(before, 32, a, b, c) == 0);
                        }
                    }
                }
            }
        }
    }
    voxels
}

} // verus!
