//! Which tile of the texture atlas a face of a block shows.
//!
//! The atlas is a square of 16 by 16 tiles. Texture coordinates are fractions
//! of its edge, given as a numerator over [`TextureAtlas::uv_denominator`].

use std::collections::HashMap;
use vstd::prelude::*;
use crate::mesh::Face;

verus! {

/// Number of tiles along an edge of the atlas.
pub const ATLAS_TILES: u32 = 16;

/// The number that stands for a face of a block type.
pub open spec fn tile_key(block_type: u32, face: Face) -> u64 {
    (block_type * 8 + face.code()) as u64
}

/// The tile that the atlas gives a face of a block type to start with, as
/// column and row: stone in (1, 0); grass with its top in (0, 1), its bottom
/// in (2, 0) and its sides in (3, 0); block 3 in (2, 1); all else in (0, 0).
pub open spec fn default_tile(block_type: u32, face: Face) -> (u32, u32) {
    if block_type == 1 {
        (1, 0)
    } else if block_type == 2 {
        if face == Face::Up {
            (0, 1)
        } else if face == Face::Down {
            (2, 0)
        } else {
            (3, 0)
        }
    } else if block_type == 3 {
        (2, 1)
    } else {
        (0, 0)
    }
}

/// The corners of a tile in texture coordinates, each as the numerators of u
/// and v: lower left, lower right, upper right, upper left, where v grows
/// downwards. The corners lie half a texel inside the tile.
pub open spec fn tile_uvs(tile: (u32, u32), tile_size: u32) -> Seq<(int, int)> {
    let u_min = tile.0 * 2 * tile_size + 1;
    let u_max = (tile.0 + 1) * 2 * tile_size - 1;
    let v_min = tile.1 * 2 * tile_size + 1;
    let v_max = (tile.1 + 1) * 2 * tile_size - 1;
    seq![(u_min, v_max), (u_max, v_max), (u_max, v_min), (u_min, v_min)]
}

/// The tiles of the faces of the block types.
pub struct TextureAtlas {
    tile_size: u32,
    block_textures: HashMap<u64, (u32, u32)>,
}

/// The number that stands for a face of a block type.
fn key_of(block_type: u32, face: Face) -> (key: u64)
    ensures
        key == tile_key(block_type, face),
{
    (block_type as u64) * 8 + (face.index() as u64)
}

/// Two faces of block types with one number are one.
proof fn lemma_tile_key(a: u32, fa: Face, b: u32, fb: Face)
    ensures
        tile_key(a, fa) == tile_key(b, fb) ==> a == b && fa == fb,
{
}

impl TextureAtlas {
    #[verifier::type_invariant]
    spec fn tiles_in_atlas(self) -> bool {
        forall|key: u64| #[trigger]
            self.block_textures@.contains_key(key) ==> self.block_textures@[key].0 < 16
                && self.block_textures@[key].1 < 16
    }

    /// The edge of a tile in texels.
    pub closed spec fn texels(&self) -> u32 {
        self.tile_size
    }

    /// The tile of the face `face` of the block type `block_type`: the tile
    /// in column 0 and row 0 where the atlas knows none.
    pub closed spec fn tile(&self, block_type: u32, face: Face) -> (u32, u32) {
        if self.block_textures@.contains_key(tile_key(block_type, face)) {
            self.block_textures@[tile_key(block_type, face)]
        } else {
            (0, 0)
        }
    }

    /// The atlas with tiles of `tile_size` texels and the tiles of
    /// [`default_tile`].
    pub fn new(tile_size: u32) -> (atlas: Self)
        ensures
            atlas.texels() == tile_size,
            forall|block_type: u32, face: Face| #[trigger]
                atlas.tile(block_type, face) == default_tile(block_type, face),
    {
        let mut block_textures: HashMap<u64, (u32, u32)> = HashMap::new();

        block_textures.insert(key_of(0, Face::Up), (0, 0));
        block_textures.insert(key_of(0, Face::Down), (0, 0));
        block_textures.insert(key_of(0, Face::Right), (0, 0));
        block_textures.insert(key_of(0, Face::Left), (0, 0));
        block_textures.insert(key_of(0, Face::Front), (0, 0));
        block_textures.insert(key_of(0, Face::Back), (0, 0));

        block_textures.insert(key_of(1, Face::Up), (1, 0));
        block_textures.insert(key_of(1, Face::Down), (1, 0));
        block_textures.insert(key_of(1, Face::Right), (1, 0));
        block_textures.insert(key_of(1, Face::Left), (1, 0));
        block_textures.insert(key_of(1, Face::Front), (1, 0));
        block_textures.insert(key_of(1, Face::Back), (1, 0));

        block_textures.insert(key_of(2, Face::Up), (0, 1));
        block_textures.insert(key_of(2, Face::Down), (2, 0));
        block_textures.insert(key_of(2, Face::Right), (3, 0));
        block_textures.insert(key_of(2, Face::Left), (3, 0));
        block_textures.insert(key_of(2, Face::Front), (3, 0));
        block_textures.insert(key_of(2, Face::Back), (3, 0));

        block_textures.insert(key_of(3, Face::Up), (2, 1));
        block_textures.insert(key_of(3, Face::Down), (2, 1));
        block_textures.insert(key_of(3, Face::Right), (2, 1));
        block_textures.insert(key_of(3, Face::Left), (2, 1));
        block_textures.insert(key_of(3, Face::Front), (2, 1));
        block_textures.insert(key_of(3, Face::Back), (2, 1));

        let atlas = TextureAtlas { tile_size, block_textures };
        proof {
            assert forall|block_type: u32, face: Face| #[trigger]
                atlas.tile(block_type, face) == default_tile(block_type, face) by {
                let key = tile_key(block_type, face);
                lemma_tile_key(block_type, face, 0, Face::Up);
                lemma_tile_key(block_type, face, 0, Face::Down);
                lemma_tile_key(block_type, face, 0, Face::Right);
                lemma_tile_key(block_type, face, 0, Face::Left);
                lemma_tile_key(block_type, face, 0, Face::Front);
                lemma_tile_key(block_type, face, 0, Face::Back);
                lemma_tile_key(block_type, face, 1, Face::Up);
                lemma_tile_key(block_type, face, 1, Face::Down);
                lemma_tile_key(block_type, face, 1, Face::Right);
                lemma_tile_key(block_type, face, 1, Face::Left);
                lemma_tile_key(block_type, face, 1, Face::Front);
                lemma_tile_key(block_type, face, 1, Face::Back);
                lemma_tile_key(block_type, face, 2, Face::Up);
                lemma_tile_key(block_type, face, 2, Face::Down);
                lemma_tile_key(block_type, face, 2, Face::Right);
                lemma_tile_key(block_type, face, 2, Face::Left);
                lemma_tile_key(block_type, face, 2, Face::Front);
                lemma_tile_key(block_type, face, 2, Face::Back);
                lemma_tile_key(block_type, face, 3, Face::Up);
                lemma_tile_key(block_type, face, 3, Face::Down);
                lemma_tile_key(block_type, face, 3, Face::Right);
                lemma_tile_key(block_type, face, 3, Face::Left);
                lemma_tile_key(block_type, face, 3, Face::Front);
                lemma_tile_key(block_type, face, 3, Face::Back);
            }
        }
        atlas
    }

    /// The edge of a tile in texels.
    pub fn tile_size(&self) -> (n: u32)
        ensures
            n == self.texels(),
    {
        self.tile_size
    }

    /// What the numerators of texture coordinates are over: the number of
    /// half texels along an edge of the atlas.
    pub fn uv_denominator(&self) -> (n: u64)
        ensures
            n == 32 * self.texels(),
    {
        32 * (self.tile_size as u64)
    }

    /// The tile of the face `face` of the block type `block_type`, as column
    /// and row.
    pub fn get_tile(&self, block_type: u32, face: Face) -> (tile: (u32, u32))
        ensures
            tile == self.tile(block_type, face),
            tile.0 < 16,
            tile.1 < 16,
    {
        proof {
            use_type_invariant(self);
        }
        let key = key_of(block_type, face);
        match self.block_textures.get(&key) {
            Some(tile) => *tile,
            None => (0, 0),
        }
    }

    /// The texture coordinates of the four corners of the face `face` of the
    /// block type `block_type`: see [`tile_uvs`].
    pub fn get_uvs(&self, block_type: u32, face: Face) -> (uvs: [[u64; 2]; 4])
        requires
            self.texels() > 0,
        ensures
            forall|k: int|
                0 <= k < 4 ==> (#[trigger] uvs[k])[0] == tile_uvs(
                    self.tile(block_type, face),
                    self.texels(),
                )[k].0 && uvs[k][1] == tile_uvs(self.tile(block_type, face), self.texels())[k].1,
            forall|k: int|
                0 <= k < 4 ==> 0 < (#[trigger] uvs[k])[0] < 32 * self.texels() && 0 < uvs[k][1] < 32
                    * self.texels(),
    {
        let (tile_x, tile_y) = self.get_tile(block_type, face);
        let texels = 2 * (self.tile_size as u64);
        assert(tile_x * texels <= 15 * texels && (tile_x + 1) * texels <= 16 * texels && tile_y
            * texels <= 15 * texels && (tile_y + 1) * texels <= 16 * texels && (tile_x + 1)
            * texels >= texels && (tile_y + 1) * texels >= texels && tile_x * texels >= 0
            && tile_x * 2 * self.tile_size == tile_x * texels && (tile_x + 1) * 2
            * self.tile_size == (tile_x + 1) * texels && tile_y * 2 * self.tile_size == tile_y
            * texels && (tile_y + 1) * 2 * self.tile_size == (tile_y + 1) * texels)
            by (nonlinear_arith)
            requires
                tile_x < 16,
                tile_y < 16,
                texels == 2 * self.tile_size,
                self.tile_size > 0,
        ;
        let u_min = (tile_x as u64) * texels + 1;
        let v_min = (tile_y as u64) * texels + 1;
        let u_max = (tile_x as u64 + 1) * texels - 1;
        let v_max = (tile_y as u64 + 1) * texels - 1;

        [[u_min, v_max], [u_max, v_max], [u_max, v_min], [u_min, v_min]]
    }
}

} // verus!
