//! Levels of detail for distant chunks.
//!
//! A level with scale `s` divides the chunk into cells of `s * s * s` voxels,
//! gives each cell one block by a vote among its voxels, and meshes the grid of
//! cells. The quads are given in voxels, so all their numbers are multiples of
//! `s`.
//!
//! Distances are whole numbers of [`DISTANCE_UNIT`]ths of a chunk.

use vstd::prelude::*;
use crate::mesh::{
    block_at, is_mesh_of, neighbor_block, ChunkMesh, Face, MeshQuad, CHUNK_SIZE, CHUNK_SIZE_CB,
    CHUNK_SIZE_SQ,
};
use crate::runs::{
    in_sweep_order, is_run_from, lemma_back_len_extend, lemma_cell_index, lemma_flat_index,
    lemma_no_neighbours, lemma_partial_mesh_empty, lemma_partial_mesh_full, lemma_sweep_emit,
    lemma_sweep_skip, lemma_sweep_wrap, lemma_swept_emit, lemma_swept_skip, partial_mesh,
    run_of_slice, slice_block, slice_cell, slice_exposed, slice_key, slice_shows, starts_run, swept,
};

verus! {

/// How many distance units make one chunk.
pub const DISTANCE_UNIT: u32 = 256;

/// A level of detail, from the finest to the coarsest.
#[derive(Clone, Copy, Debug, PartialEq, Eq, Hash, PartialOrd, Ord, Structural)]
pub enum LodLevel {
    /// Every voxel: the chunk is meshed as it is.
    Full,
    /// Cells of 2x2x2 voxels.
    Reduced,
    /// Cells of 4x4x4 voxels.
    Low,
    /// Cells of 8x8x8 voxels.
    Minimal,
}

impl LodLevel {
    /// The place of the level in the order from fine to coarse.
    pub open spec fn rank(self) -> int {
        match self {
            LodLevel::Full => 0,
            LodLevel::Reduced => 1,
            LodLevel::Low => 2,
            LodLevel::Minimal => 3,
        }
    }

    /// The edge of a cell in voxels.
    pub open spec fn spec_scale(self) -> usize {
        match self {
            LodLevel::Full => 1,
            LodLevel::Reduced => 2,
            LodLevel::Low => 4,
            LodLevel::Minimal => 8,
        }
    }

    /// The edge of a cell in voxels.
    #[verifier::when_used_as_spec(spec_scale)]
    pub fn scale(self) -> (s: usize)
        ensures
            s == self.spec_scale(),
    {
        match self {
            LodLevel::Full => 1,
            LodLevel::Reduced => 2,
            LodLevel::Low => 4,
            LodLevel::Minimal => 8,
        }
    }

    /// The edge of the grid of cells.
    pub open spec fn spec_grid_size(self) -> usize {
        match self {
            LodLevel::Full => 32,
            LodLevel::Reduced => 16,
            LodLevel::Low => 8,
            LodLevel::Minimal => 4,
        }
    }

    /// The edge of the grid of cells: the chunk's edge divided by the scale.
    #[verifier::when_used_as_spec(spec_grid_size)]
    pub fn grid_size(self) -> (n: usize)
        ensures
            n == self.spec_grid_size(),
            n * self.spec_scale() == 32,
    {
        CHUNK_SIZE / self.scale()
    }

    /// The place of the level in the order from fine to coarse.
    pub fn index(self) -> (i: usize)
        ensures
            i == self.rank(),
            i < 4,
    {
        match self {
            LodLevel::Full => 0,
            LodLevel::Reduced => 1,
            LodLevel::Low => 2,
            LodLevel::Minimal => 3,
        }
    }

    /// The four levels, from fine to coarse.
    pub fn all() -> (levels: [LodLevel; 4])
        ensures
            levels@ == seq![LodLevel::Full, LodLevel::Reduced, LodLevel::Low, LodLevel::Minimal],
            forall|i: int| 0 <= i < 4 ==> (#[trigger] levels[i]).rank() == i,
    {
        let levels = [LodLevel::Full, LodLevel::Reduced, LodLevel::Low, LodLevel::Minimal];
        assert(levels@ =~= seq![LodLevel::Full, LodLevel::Reduced, LodLevel::Low, LodLevel::Minimal]);
        levels
    }
}

/// The distances up to which each level is used.
#[derive(Clone, Copy, Debug, PartialEq, Eq, Structural)]
pub struct LodConfig {
    /// Largest distance with full detail.
    pub full_max: u32,
    /// Largest distance with reduced detail.
    pub reduced_max: u32,
    /// Largest distance with low detail.
    pub low_max: u32,
    /// Largest distance at which a chunk is rendered at all.
    pub max_render_distance: u32,
    /// Width of the zone in which a level blends into the next one.
    pub transition_width: u32,
}

/// A level together with how far it has blended into the next one.
#[derive(Clone, Copy, Debug, PartialEq, Eq, Structural)]
pub struct LodTransition {
    /// The level chosen for the distance.
    pub primary: LodLevel,
    /// The next coarser level, if there is one.
    pub next: Option<LodLevel>,
    /// The blend factor is `blend_num / blend_den`: 0 is the primary level
    /// alone, 1 the next level alone.
    pub blend_num: u64,
    /// See `blend_num`. Never 0.
    pub blend_den: u64,
}

impl LodTransition {
    /// Whether the two levels are both visible: the blend factor lies strictly
    /// between 0 and 1 and there is a next level.
    pub fn is_blending(&self) -> (b: bool)
        ensures
            b <==> 0 < self.blend_num < self.blend_den && self.next is Some,
    {
        self.blend_num > 0 && self.blend_num < self.blend_den && self.next.is_some()
    }
}

impl LodConfig {
    /// The level for `distance`, `None` beyond the render distance.
    pub open spec fn level_at(self, distance: u32) -> Option<LodLevel> {
        if distance > self.max_render_distance {
            None
        } else if distance <= self.full_max {
            Some(LodLevel::Full)
        } else if distance <= self.reduced_max {
            Some(LodLevel::Reduced)
        } else if distance <= self.low_max {
            Some(LodLevel::Low)
        } else {
            Some(LodLevel::Minimal)
        }
    }

    /// The largest distance that the level covers.
    pub open spec fn boundary(self, level: LodLevel) -> u32 {
        match level {
            LodLevel::Full => self.full_max,
            LodLevel::Reduced => self.reduced_max,
            LodLevel::Low => self.low_max,
            LodLevel::Minimal => self.max_render_distance,
        }
    }

    /// The next coarser level.
    pub open spec fn next_level(level: LodLevel) -> Option<LodLevel> {
        match level {
            LodLevel::Full => Some(LodLevel::Reduced),
            LodLevel::Reduced => Some(LodLevel::Low),
            LodLevel::Low => Some(LodLevel::Minimal),
            LodLevel::Minimal => None,
        }
    }

    /// Twice the distance by which `distance` has entered the blend zone of the
    /// boundary; the zone starts half the transition width before the boundary.
    pub open spec fn blend_twice(self, boundary: u32, distance: u32) -> int {
        let into = 2 * distance - 2 * boundary + self.transition_width;
        if self.transition_width == 0 || into <= 0 {
            0
        } else if into >= 2 * self.transition_width {
            2 * self.transition_width
        } else {
            into
        }
    }

    /// The thresholds given, with a transition zone two chunks wide.
    pub fn new(full_max: u32, reduced_max: u32, low_max: u32, max_render_distance: u32) -> (c: Self)
        ensures
            c == (LodConfig {
                full_max,
                reduced_max,
                low_max,
                max_render_distance,
                transition_width: 512,
            }),
    {
        LodConfig {
            full_max,
            reduced_max,
            low_max,
            max_render_distance,
            transition_width: 2 * DISTANCE_UNIT,
        }
    }

    /// The level for a chunk at `distance`: the finest level whose threshold the
    /// distance does not exceed, `None` beyond the render distance.
    pub fn select_lod(&self, distance: u32) -> (level: Option<LodLevel>)
        ensures
            level == self.level_at(distance),
            level is None <==> distance > self.max_render_distance,
    {
        if distance > self.max_render_distance {
            None
        } else if distance <= self.full_max {
            Some(LodLevel::Full)
        } else if distance <= self.reduced_max {
            Some(LodLevel::Reduced)
        } else if distance <= self.low_max {
            Some(LodLevel::Low)
        } else {
            Some(LodLevel::Minimal)
        }
    }

    /// The level for a chunk at `distance` and how far it has blended into the
    /// next one. The blend factor is 0 up to half the transition width before
    /// the level's boundary and grows from there by one per transition width,
    /// so that it is one half at the boundary itself.
    pub fn select_lod_with_blend(&self, distance: u32) -> (t: Option<LodTransition>)
        ensures
            t is None <==> distance > self.max_render_distance,
            t is Some ==> {
                let level = self.level_at(distance)->0;
                let b = self.boundary(level);
                &&& self.level_at(distance) is Some
                &&& t->0.primary == level
                &&& t->0.next == Self::next_level(level)
                &&& distance <= b
                &&& t->0.blend_num == self.blend_twice(b, distance)
                &&& t->0.blend_den == if self.transition_width == 0 {
                    1
                } else {
                    2 * self.transition_width
                }
                &&& 2 * t->0.blend_num <= t->0.blend_den
                &&& (distance == b && self.transition_width > 0 ==> 2 * t->0.blend_num
                    == t->0.blend_den)
            },
    {
        let lod = match self.select_lod(distance) {
            Some(lod) => lod,
            None => { return None; },
        };

        let boundary = match lod {
            LodLevel::Full => self.full_max,
            LodLevel::Reduced => self.reduced_max,
            LodLevel::Low => self.low_max,
            LodLevel::Minimal => self.max_render_distance,
        };

        let next_lod = match lod {
            LodLevel::Full => Some(LodLevel::Reduced),
            LodLevel::Reduced => Some(LodLevel::Low),
            LodLevel::Low => Some(LodLevel::Minimal),
            LodLevel::Minimal => None,
        };

        let width = self.transition_width as u64;
        let reach = 2 * (boundary as u64);
        let at = 2 * (distance as u64) + width;
        let (blend_num, blend_den) = if width == 0 || at <= reach {
            (0, if width == 0 { 1 } else { 2 * width })
        } else {
            let into = at - reach;
            (if into >= 2 * width { 2 * width } else { into }, 2 * width)
        };

        Some(LodTransition { primary: lod, next: next_lod, blend_num, blend_den })
    }
}

impl Default for LodConfig {
    /// Full detail up to 16 chunks, reduced up to 32, low up to 48, nothing
    /// beyond 64; the transition zone is two chunks wide.
    fn default() -> (c: Self)
        ensures
            c == (LodConfig {
                full_max: 4096,
                reduced_max: 8192,
                low_max: 12288,
                max_render_distance: 16384,
                transition_width: 512,
            }),
    {
        LodConfig {
            full_max: 16 * DISTANCE_UNIT,
            reduced_max: 32 * DISTANCE_UNIT,
            low_max: 48 * DISTANCE_UNIT,
            max_render_distance: 64 * DISTANCE_UNIT,
            transition_width: 2 * DISTANCE_UNIT,
        }
    }
}

/// A chunk that is farther away never gets a finer level, and if it is still
/// rendered then so is the nearer one.
pub proof fn lemma_select_lod_monotone(config: LodConfig, near: u32, far: u32)
    requires
        near <= far,
    ensures
        config.level_at(far) is Some ==> config.level_at(near) is Some,
        config.level_at(far) is Some ==> config.level_at(near)->0.rank() <= config.level_at(
            far,
        )->0.rank(),
{
}

/// At the boundary of a level the blend factor is one half, whatever the
/// width of the transition zone, as long as it is not zero.
pub proof fn lemma_blend_half_at_boundary(config: LodConfig, level: LodLevel)
    requires
        config.transition_width > 0,
    ensures
        2 * config.blend_twice(config.boundary(level), config.boundary(level)) == 2
            * config.transition_width,
{
}

/// Counts of chunks and quads per level.
#[derive(Clone, Debug, Default)]
pub struct LodStats {
    /// Number of chunks recorded at each level.
    pub chunks_per_level: [u32; 4],
    /// Number of quads recorded at each level.
    pub quads_per_level: [u32; 4],
}

/// The sum of four counts.
pub open spec fn sum4(a: [u32; 4]) -> int {
    a[0] + a[1] + a[2] + a[3]
}

impl LodStats {
    /// Nothing recorded.
    pub fn new() -> (s: Self)
        ensures
            forall|i: int| 0 <= i < 4 ==> s.chunks_per_level[i] == 0 && s.quads_per_level[i] == 0,
    {
        LodStats { chunks_per_level: [0u32;4], quads_per_level: [0u32;4] }
    }

    /// Records one chunk of `quad_count` quads at level `lod`.
    pub fn record(&mut self, lod: LodLevel, quad_count: u32)
        requires
            old(self).chunks_per_level[lod.rank()] < u32::MAX,
            old(self).quads_per_level[lod.rank()] + quad_count <= u32::MAX,
        ensures
            final(self).chunks_per_level@ == old(self).chunks_per_level@.update(
                lod.rank(),
                (old(self).chunks_per_level[lod.rank()] + 1) as u32,
            ),
            final(self).quads_per_level@ == old(self).quads_per_level@.update(
                lod.rank(),
                (old(self).quads_per_level[lod.rank()] + quad_count) as u32,
            ),
    {
        let idx = lod.index();
        let chunks = self.chunks_per_level[idx];
        let quads = self.quads_per_level[idx];
        self.chunks_per_level[idx] = chunks + 1;
        self.quads_per_level[idx] = quads + quad_count;
    }

    /// The number of chunks recorded, all levels together.
    pub fn total_chunks(&self) -> (n: u32)
        requires
            sum4(self.chunks_per_level) <= u32::MAX,
        ensures
            n == sum4(self.chunks_per_level),
    {
        self.chunks_per_level[0] + self.chunks_per_level[1] + self.chunks_per_level[2]
            + self.chunks_per_level[3]
    }

    /// The number of quads recorded, all levels together.
    pub fn total_quads(&self) -> (n: u32)
        requires
            sum4(self.quads_per_level) <= u32::MAX,
        ensures
            n == sum4(self.quads_per_level),
    {
        self.quads_per_level[0] + self.quads_per_level[1] + self.quads_per_level[2]
            + self.quads_per_level[3]
    }

    /// The quads recorded, as a fraction of the quads that full detail would
    /// have taken at `avg_full_detail_quads` quads per chunk: numerator and
    /// denominator. The fraction is 1/1 where nothing was recorded or the
    /// average is zero.
    pub fn reduction_ratio(&self, avg_full_detail_quads: u32) -> (ratio: (u64, u64))
        requires
            sum4(self.chunks_per_level) <= u32::MAX,
            sum4(self.quads_per_level) <= u32::MAX,
        ensures
            ratio.1 > 0,
            ratio == if avg_full_detail_quads == 0 || sum4(self.chunks_per_level) == 0 {
                (1u64, 1u64)
            } else {
                (
                    sum4(self.quads_per_level) as u64,
                    (sum4(self.chunks_per_level) * avg_full_detail_quads) as u64,
                )
            },
    {
        if avg_full_detail_quads == 0 || self.total_chunks() == 0 {
            return (1, 1);
        }
        let chunks = self.total_chunks() as u64;
        let avg = avg_full_detail_quads as u64;
        assert(chunks * avg <= 0xffff_ffff * 0xffff_ffff && chunks * avg > 0) by (nonlinear_arith)
            requires
                0 < chunks <= 0xffff_ffff,
                0 < avg <= 0xffff_ffff,
        ;
        (self.total_quads() as u64, chunks * avg)
    }
}

/// How often `t` occurs in `v`.
pub open spec fn count_of(v: Seq<u32>, t: u32) -> nat
    decreases v.len(),
{
    if v.len() == 0 {
        0
    } else {
        count_of(v.drop_last(), t) + if v.last() == t {
            1nat
        } else {
            0nat
        }
    }
}

/// The solid types that a vote keeps count of: the first four different ones,
/// in the order in which they first occur.
pub open spec fn tracked_types(v: Seq<u32>) -> Seq<u32>
    decreases v.len(),
{
    if v.len() == 0 {
        Seq::empty()
    } else {
        let before = tracked_types(v.drop_last());
        let e = v.last();
        if e != 0 && !before.contains(e) && before.len() < 4 {
            before.push(e)
        } else {
            before
        }
    }
}

/// The type that leads among the first `i` of `types`, with its count: the one
/// that occurs most often in `v`, the earlier one of two that occur equally
/// often. Without a type, air with the count 0.
pub open spec fn leader(types: Seq<u32>, v: Seq<u32>, i: int) -> (u32, nat)
    decreases i,
{
    if i <= 0 {
        (0u32, 0nat)
    } else {
        let before = leader(types, v, i - 1);
        if count_of(v, types[i - 1]) > before.1 {
            (types[i - 1], count_of(v, types[i - 1]))
        } else {
            before
        }
    }
}

/// The block that stands for the voxels `v`: air if more than half of them are
/// air, else the solid type that leads among the types counted.
pub open spec fn vote(v: Seq<u32>) -> u32 {
    if count_of(v, 0) > v.len() / 2 {
        0
    } else {
        leader(tracked_types(v), v, tracked_types(v).len() as int).0
    }
}

/// The `len` voxels from `(x0, y, z)` on along x.
pub open spec fn cell_row(voxels: Seq<u32>, x0: int, y: int, z: int, len: int) -> Seq<u32> {
    Seq::new(len as nat, |i: int| block_at(voxels, 32, x0 + i, y, z))
}

/// The voxels of `rows` rows of `s` voxels, from `(x0, y0, z)` on, row after row.
pub open spec fn cell_plane(voxels: Seq<u32>, s: int, x0: int, y0: int, z: int, rows: int) -> Seq<u32>
    decreases rows,
{
    if rows <= 0 {
        Seq::empty()
    } else {
        cell_plane(voxels, s, x0, y0, z, rows - 1) + cell_row(voxels, x0, y0 + rows - 1, z, s)
    }
}

/// The voxels of `planes` planes of `s` rows, from `(x0, y0, z0)` on, plane after plane.
pub open spec fn cell_cube(voxels: Seq<u32>, s: int, x0: int, y0: int, z0: int, planes: int) -> Seq<u32>
    decreases planes,
{
    if planes <= 0 {
        Seq::empty()
    } else {
        cell_cube(voxels, s, x0, y0, z0, planes - 1) + cell_plane(
            voxels,
            s,
            x0,
            y0,
            z0 + planes - 1,
            s,
        )
    }
}

/// The voxels of the cell `(gx, gy, gz)` of `s * s * s` voxels, along x first,
/// then y, then z.
pub open spec fn cell_voxels(voxels: Seq<u32>, s: int, gx: int, gy: int, gz: int) -> Seq<u32> {
    cell_cube(voxels, s, gx * s, gy * s, gz * s, s)
}

/// The block that stands for the cell `(gx, gy, gz)` of `s * s * s` voxels.
pub open spec fn cell_vote(voxels: Seq<u32>, s: int, gx: int, gy: int, gz: int) -> u32 {
    vote(cell_voxels(voxels, s, gx, gy, gz))
}

/// What one more voxel adds to a count.
proof fn lemma_count_push(v: Seq<u32>, e: u32, t: u32)
    ensures
        count_of(v.push(e), t) == count_of(v, t) + if e == t {
            1nat
        } else {
            0nat
        },
        count_of(v, t) <= v.len(),
    decreases v.len(),
{
    assert(v.push(e).drop_last() =~= v);
    if v.len() > 0 {
        lemma_count_push(v.drop_last(), v.last(), t);
        assert(v.drop_last().push(v.last()) =~= v);
    }
}

/// What one more voxel adds to the types counted.
proof fn lemma_tracked_push(v: Seq<u32>, e: u32)
    ensures
        tracked_types(v.push(e)) == if e != 0 && !tracked_types(v).contains(e) && tracked_types(
            v,
        ).len() < 4 {
            tracked_types(v).push(e)
        } else {
            tracked_types(v)
        },
{
    assert(v.push(e).drop_last() =~= v);
}

/// A plane of `k` rows holds `k * s` voxels.
proof fn lemma_plane_length(voxels: Seq<u32>, s: int, x0: int, y0: int, z: int, k: int)
    requires
        0 <= s,
        0 <= k,
    ensures
        cell_plane(voxels, s, x0, y0, z, k).len() == k * s,
    decreases k,
{
    if k > 0 {
        lemma_plane_length(voxels, s, x0, y0, z, k - 1);
        assert(k * s == (k - 1) * s + s) by (nonlinear_arith);
    } else {
        assert(0 * s == 0) by (nonlinear_arith);
    }
}

/// A cube of `k` planes holds `k * s * s` voxels.
proof fn lemma_cube_length(voxels: Seq<u32>, s: int, x0: int, y0: int, z0: int, k: int)
    requires
        0 <= s,
        0 <= k,
    ensures
        cell_cube(voxels, s, x0, y0, z0, k).len() == k * s * s,
    decreases k,
{
    if k > 0 {
        lemma_cube_length(voxels, s, x0, y0, z0, k - 1);
        lemma_plane_length(voxels, s, x0, y0, z0 + k - 1, s);
        assert(k * s * s == (k - 1) * s * s + s * s) by (nonlinear_arith);
    } else {
        assert(0 * s * s == 0) by (nonlinear_arith);
    }
}

/// The grid of cells of `s * s * s` voxels: each cell holds the block that
/// stands for its voxels.
pub open spec fn lod_grid(voxels: Seq<u32>, s: int) -> Seq<u32> {
    let n = 32int / s;
    Seq::new((n * n * n) as nat, |i: int| cell_vote(voxels, s, i % n, (i / n) % n, i / (n * n)))
}

/// What the grid of cells holds for the cell `(x, y, z)`.
pub proof fn lemma_lod_grid_at(voxels: Seq<u32>, s: int, x: int, y: int, z: int)
    requires
        s == 2 || s == 4 || s == 8,
        0 <= x < 32int / s,
        0 <= y < 32int / s,
        0 <= z < 32int / s,
    ensures
        lod_grid(voxels, s).len() == (32int / s) * (32int / s) * (32int / s),
        0 <= z * (32int / s) * (32int / s) + y * (32int / s) + x < lod_grid(voxels, s).len(),
        lod_grid(voxels, s)[z * (32int / s) * (32int / s) + y * (32int / s) + x] == cell_vote(
            voxels,
            s,
            x,
            y,
            z,
        ),
        block_at(lod_grid(voxels, s), 32int / s, x, y, z) == cell_vote(voxels, s, x, y, z),
{
    let n = 32int / s;
    let i = z * n * n + y * n + x;
    if s == 2 {
        assert(n == 16);
        assert(z * n * n == z * 256 && y * n == y * 16 && n * n * n == 4096 && n * n == 256)
            by (nonlinear_arith)
            requires
                n == 16,
        ;
        assert(i % 16 == x && (i / 16) % 16 == y && i / 256 == z);
    } else if s == 4 {
        assert(n == 8);
        assert(z * n * n == z * 64 && y * n == y * 8 && n * n * n == 512 && n * n == 64)
            by (nonlinear_arith)
            requires
                n == 8,
        ;
        assert(i % 8 == x && (i / 8) % 8 == y && i / 64 == z);
    } else {
        assert(n == 4);
        assert(z * n * n == z * 16 && y * n == y * 4 && n * n * n == 64 && n * n == 16)
            by (nonlinear_arith)
            requires
                n == 4,
        ;
        assert(i % 4 == x && (i / 4) % 4 == y && i / 16 == z);
    }
}

/// The entry for `(r, c)` of a square of edge `n` stored row by row.
pub open spec fn at2(m: Seq<bool>, n: int, r: int, c: int) -> bool {
    m[r * n + c]
}

/// The quad for `width` by `height` cells from `(layer, row, col)` on in the
/// sweep of `face`, in voxels, a cell being `s` voxels wide.
pub open spec fn scaled_quad_dims(
    face: Face,
    layer: int,
    row: int,
    col: int,
    width: int,
    height: int,
    s: int,
) -> (u8, u8, u8, u8, u8) {
    if face.along_x() {
        ((col * s) as u8, (row * s) as u8, (layer * s) as u8, (width * s) as u8, (height * s) as u8)
    } else if face.along_y() {
        ((row * s) as u8, (col * s) as u8, (layer * s) as u8, (height * s) as u8, (width * s) as u8)
    } else {
        ((row * s) as u8, (layer * s) as u8, (col * s) as u8, (height * s) as u8, (width * s) as u8)
    }
}

/// The block in cell `(x, y, z)` of a grid of edge `gs`.
fn grid_at(grid: &[u32], gs: usize, x: usize, y: usize, z: usize) -> (block: u32)
    requires
        0 < gs <= 16,
        grid@.len() == gs * gs * gs,
        x < gs,
        y < gs,
        z < gs,
    ensures
        block == block_at(grid@, gs as int, x as int, y as int, z as int),
{
    proof {
        lemma_cell_index(gs as int, x as int, y as int, z as int);
        assert(gs * gs <= 256 && gs * gs * gs <= 4096) by (nonlinear_arith)
            requires
                0 < gs <= 16,
        ;
    }
    let gs2 = gs * gs;
    grid[z * gs2 + y * gs + x]
}

/// Where the entry for `(r, c)` of a square of edge `gs` is stored.
fn flat(gs: usize, r: usize, c: usize) -> (i: usize)
    requires
        0 < gs <= 16,
        r < gs,
        c < gs,
    ensures
        i == r * gs + c,
        i < gs * gs,
{
    proof {
        lemma_cell_index(gs as int, c as int, r as int, 0);
        assert(gs * gs <= 256) by (nonlinear_arith)
            requires
                0 < gs <= 16,
        ;
    }
    r * gs + c
}

/// Namespace of the mesher for the coarse levels.
pub struct LodMesher;

impl LodMesher {
    /// The block that stands for the cell `(gx, gy, gz)` of `scale` voxels along
    /// each edge: air if more than half of the voxels are air; else the solid
    /// type that occurs most often among the first four types met.
    pub fn downsample_cell(
        voxels: &[u32; CHUNK_SIZE_CB],
        gx: usize,
        gy: usize,
        gz: usize,
        scale: usize,
    ) -> (block: u32)
        requires
            scale == 2 || scale == 4 || scale == 8,
            gx * scale + scale <= 32,
            gy * scale + scale <= 32,
            gz * scale + scale <= 32,
        ensures
            block == cell_vote(voxels@, scale as int, gx as int, gy as int, gz as int),
    {
        let base_x = gx * scale;
        let base_y = gy * scale;
        let base_z = gz * scale;

        assert(scale * scale * scale <= 512 && scale * scale <= 64) by (nonlinear_arith)
            requires
                scale <= 8,
        ;
        let total = scale * scale * scale;
        let mut air_count = 0u32;
        let mut types = [0u32;4];
        let mut counts = [0u32;4];
        let mut num_types = 0usize;
        let ghost grid = voxels@;
        let ghost s = scale as int;
        let ghost mut seen: Seq<u32> = Seq::empty();

        for dz in 0..scale
            invariant
                grid == voxels@,
                s == scale,
                scale == 2 || scale == 4 || scale == 8,
                base_x == gx * scale,
                base_y == gy * scale,
                base_z == gz * scale,
                base_x + scale <= 32,
                base_y + scale <= 32,
                base_z + scale <= 32,
                seen == cell_cube(grid, s, base_x as int, base_y as int, base_z as int, dz as int),
                seen.len() == dz * s * s,
                air_count == count_of(seen, 0),
                num_types == tracked_types(seen).len(),
                num_types <= 4,
                forall|i: int|
                    0 <= i < num_types ==> #[trigger] types[i] == tracked_types(seen)[i] && types[i]
                        != 0 && counts[i] == count_of(seen, types[i]),
                forall|i: int, j: int| 0 <= i < j < num_types ==> types[i] != types[j],
                num_types < 4 ==> forall|t: u32|
                    t != 0 && #[trigger] count_of(seen, t) > 0 ==> exists|i: int|
                        0 <= i < num_types && types[i] == t,
        {
            let ghost cube = seen;
            proof {
                lemma_cube_length(grid, s, base_x as int, base_y as int, base_z as int, dz as int);
                assert(dz * s * s <= 7 * 64) by (nonlinear_arith)
                    requires
                        0 <= dz < s,
                        s <= 8,
                ;
            }
            for dy in 0..scale
                invariant
                    grid == voxels@,
                    s == scale,
                    scale == 2 || scale == 4 || scale == 8,
                    dz < scale,
                    base_x + scale <= 32,
                    base_y + scale <= 32,
                    base_z + scale <= 32,
                    cube.len() == dz * s * s,
                    cube.len() <= 448,
                    seen == cube + cell_plane(
                        grid,
                        s,
                        base_x as int,
                        base_y as int,
                        base_z + dz,
                        dy as int,
                    ),
                    seen.len() == cube.len() + dy * s,
                    air_count == count_of(seen, 0),
                    num_types == tracked_types(seen).len(),
                    num_types <= 4,
                    forall|i: int|
                        0 <= i < num_types ==> #[trigger] types[i] == tracked_types(seen)[i]
                            && types[i] != 0 && counts[i] == count_of(seen, types[i]),
                    forall|i: int, j: int| 0 <= i < j < num_types ==> types[i] != types[j],
                    num_types < 4 ==> forall|t: u32|
                        t != 0 && #[trigger] count_of(seen, t) > 0 ==> exists|i: int|
                            0 <= i < num_types && types[i] == t,
            {
                let ghost plane = seen;
                proof {
                    lemma_plane_length(grid, s, base_x as int, base_y as int, base_z + dz, dy as int);
                    assert(dy * s <= 56) by (nonlinear_arith)
                        requires
                            0 <= dy < s,
                            s <= 8,
                    ;
                }
                for dx in 0..scale
                    invariant
                        grid == voxels@,
                        s == scale,
                        scale == 2 || scale == 4 || scale == 8,
                        dz < scale,
                        dy < scale,
                        base_x + scale <= 32,
                        base_y + scale <= 32,
                        base_z + scale <= 32,
                        plane.len() <= 504,
                        seen == plane + cell_row(
                            grid,
                            base_x as int,
                            base_y + dy,
                            base_z + dz,
                            dx as int,
                        ),
                        seen.len() == plane.len() + dx,
                        air_count == count_of(seen, 0),
                        num_types == tracked_types(seen).len(),
                        num_types <= 4,
                        forall|i: int|
                            0 <= i < num_types ==> #[trigger] types[i] == tracked_types(seen)[i]
                                && types[i] != 0 && counts[i] == count_of(seen, types[i]),
                        forall|i: int, j: int| 0 <= i < j < num_types ==> types[i] != types[j],
                        num_types < 4 ==> forall|t: u32|
                            t != 0 && #[trigger] count_of(seen, t) > 0 ==> exists|i: int|
                                0 <= i < num_types && types[i] == t,
                {
                    let x = base_x + dx;
                    let y = base_y + dy;
                    let z = base_z + dz;
                    let block = voxels[z * CHUNK_SIZE_SQ + y * CHUNK_SIZE + x];
                    let ghost before = seen;
                    let ghost old_types = types;
                    let ghost old_counts = counts;
                    let ghost old_num = num_types;
                    proof {
                        assert(block == block_at(grid, 32, x as int, y as int, z as int));
                        seen = before.push(block);
                        assert(seen =~= plane + cell_row(
                            grid,
                            base_x as int,
                            base_y + dy,
                            base_z + dz,
                            dx + 1,
                        ));
                        lemma_tracked_push(before, block);
                        lemma_count_push(before, block, 0);
                        assert forall|t: u32| true implies #[trigger] count_of(seen, t) == count_of(
                            before,
                            t,
                        ) + if block == t {
                            1nat
                        } else {
                            0nat
                        } && count_of(before, t) <= before.len() by {
                            lemma_count_push(before, block, t);
                        }
                        assert forall|j: int| 0 <= j < num_types implies #[trigger] old_counts[j]
                            <= before.len() by {
                            lemma_count_push(before, block, old_types[j]);
                        }
                        assert(air_count <= before.len());
                    }

                    if block == 0 {
                        air_count += 1;
                    } else {
                        let mut found = false;
                        let mut i: usize = 0;
                        while i < num_types
                            invariant_except_break
                                !found,
                                forall|j: int| 0 <= j < i ==> old_types[j] != block,
                                counts == old_counts,
                            invariant
                                0 <= i <= num_types,
                                num_types == old_num,
                                num_types <= 4,
                                types == old_types,
                                forall|j: int|
                                    0 <= j < num_types ==> #[trigger] old_counts[j] <= before.len(),
                                before.len() <= 511,
                            ensures
                                found ==> 0 <= i < num_types && old_types[i as int] == block
                                    && counts@ == old_counts@.update(
                                    i as int,
                                    (old_counts[i as int] + 1) as u32,
                                ),
                                !found ==> counts == old_counts && forall|j: int|
                                    0 <= j < num_types ==> old_types[j] != block,
                            decreases num_types - i,
                        {
                            if types[i] == block {
                                let c = counts[i];
                                counts[i] = c + 1;
                                found = true;
                                break ;
                            }
                            i += 1;
                        }
                        if !found && num_types < 4 {
                            types[num_types] = block;
                            counts[num_types] = 1;
                            num_types += 1;
                            proof {
                                if tracked_types(before).contains(block) {
                                    let w = choose|w: int|
                                        0 <= w < tracked_types(before).len() && tracked_types(
                                            before,
                                        )[w] == block;
                                    assert(old_types[w] == block);
                                    assert(false);
                                }
                                if count_of(before, block) > 0 {
                                    let w = choose|w: int|
                                        0 <= w < old_num && old_types[w] == block;
                                    assert(false);
                                }
                            }
                        } else {
                            proof {
                                if found {
                                    assert(tracked_types(before)[i as int] == block);
                                    assert(tracked_types(before).contains(block));
                                }
                            }
                        }
                    }
                    proof {
                        assert(tracked_types(seen).len() == num_types);
                        assert forall|j: int| 0 <= j < num_types implies #[trigger] types[j]
                            == tracked_types(seen)[j] && types[j] != 0 && counts[j] == count_of(
                            seen,
                            types[j],
                        ) by {
                            if j < old_num {
                                assert(old_types[j] == tracked_types(before)[j]);
                                assert(count_of(seen, old_types[j]) == count_of(
                                    before,
                                    old_types[j],
                                ) + if block == old_types[j] {
                                    1nat
                                } else {
                                    0nat
                                });
                            }
                        }
                        if num_types < 4 {
                            assert forall|t: u32|
                                t != 0 && #[trigger] count_of(seen, t) > 0 implies exists|w: int|
                                0 <= w < num_types && types[w] == t by {
                                if count_of(before, t) > 0 {
                                    let w = choose|w: int| 0 <= w < old_num && old_types[w] == t;
                                    assert(types[w] == t);
                                } else {
                                    assert(t == block);
                                    if old_num < num_types {
                                        assert(types[old_num as int] == t);
                                    }
                                }
                            }
                        }
                    }
                }
                proof {
                    assert(seen =~= cube + cell_plane(
                        grid,
                        s,
                        base_x as int,
                        base_y as int,
                        base_z + dz,
                        dy + 1,
                    ));
                    assert((dy + 1) * s == dy * s + s) by (nonlinear_arith);
                }
            }
            proof {
                let all = cell_cube(grid, s, base_x as int, base_y as int, base_z as int, dz + 1);
                assert(seen =~= all);
                assert((dz + 1) * s * s == dz * s * s + s * s) by (nonlinear_arith);
            }
        }

        assert(seen.len() == total) by (nonlinear_arith)
            requires
                seen.len() == scale * s * s,
                s == scale,
                total == scale * scale * scale,
        ;
        if air_count > (total as u32) / 2 {
            return 0;
        }
        let mut best_type = 0u32;
        let mut best_count = 0u32;
        for i in 0..num_types
            invariant
                num_types == tracked_types(seen).len(),
                num_types <= 4,
                forall|j: int|
                    0 <= j < num_types ==> #[trigger] types[j] == tracked_types(seen)[j]
                        && counts[j] == count_of(seen, types[j]),
                best_type == leader(tracked_types(seen), seen, i as int).0,
                best_count == leader(tracked_types(seen), seen, i as int).1,
        {
            proof {
                assert(types[i as int] == tracked_types(seen)[i as int]);
                assert(counts[i as int] == count_of(seen, types[i as int]));
                let before = leader(tracked_types(seen), seen, i as int);
                assert(leader(tracked_types(seen), seen, i + 1) == if count_of(
                    seen,
                    tracked_types(seen)[i as int],
                ) > before.1 {
                    (tracked_types(seen)[i as int], count_of(seen, tracked_types(seen)[i as int]))
                } else {
                    before
                });
            }
            if counts[i] > best_count {
                best_count = counts[i];
                best_type = types[i];
            }
        }
        best_type
    }

    /// The cell that `(layer, row, col)` names in the sweep of the face with the
    /// code `face_idx`.
    pub fn remap_coords(face_idx: u8, layer: usize, row: usize, col: usize) -> (cell: (
        usize,
        usize,
        usize,
    ))
        requires
            face_idx < 6,
        ensures
            forall|face: Face|
                face.code() == face_idx ==> (cell.0 as int, cell.1 as int, cell.2 as int)
                    == #[trigger] slice_cell(face, layer as int, row as int, col as int),
    {
        match face_idx {
            0 | 1 => (col, row, layer),
            2 | 3 => (row, col, layer),
            _ => (row, layer, col),
        }
    }

    /// The block next to the cell `(x, y, z)` on the side of the face with the
    /// code `face_idx`: air outside the grid.
    pub fn get_neighbor(grid: &[u32], gs: usize, face_idx: u8, x: usize, y: usize, z: usize) -> (block:
        u32)
        requires
            face_idx < 6,
            0 < gs <= 16,
            grid@.len() == gs * gs * gs,
            x < gs,
            y < gs,
            z < gs,
        ensures
            forall|face: Face|
                face.code() == face_idx ==> block == #[trigger] neighbor_block(
                    grid@,
                    gs as int,
                    face,
                    x as int,
                    y as int,
                    z as int,
                ),
    {
        let (nx, ny, nz) = match face_idx {
            0 => {
                if x + 1 >= gs {
                    return 0;
                }
                (x + 1, y, z)
            },
            1 => {
                if x == 0 {
                    return 0;
                }
                (x - 1, y, z)
            },
            2 => {
                if y + 1 >= gs {
                    return 0;
                }
                (x, y + 1, z)
            },
            3 => {
                if y == 0 {
                    return 0;
                }
                (x, y - 1, z)
            },
            4 => {
                if z + 1 >= gs {
                    return 0;
                }
                (x, y, z + 1)
            },
            _ => {
                if z == 0 {
                    return 0;
                }
                (x, y, z - 1)
            },
        };
        grid_at(grid, gs, nx, ny, nz)
    }

    /// Position and size, in voxels, of the quad for `width` by `height` cells
    /// from `(layer, row, col)` on in the sweep of the face with the code
    /// `face_idx`.
    pub fn emit_scaled_quad(
        face_idx: u8,
        layer: usize,
        row: usize,
        col: usize,
        width: usize,
        height: usize,
        scale: usize,
    ) -> (quad: (u8, u8, u8, u8, u8))
        requires
            face_idx < 6,
            layer * scale <= usize::MAX,
            row * scale <= usize::MAX,
            col * scale <= usize::MAX,
            width * scale <= usize::MAX,
            height * scale <= usize::MAX,
        ensures
            forall|face: Face|
                face.code() == face_idx ==> quad == #[trigger] scaled_quad_dims(
                    face,
                    layer as int,
                    row as int,
                    col as int,
                    width as int,
                    height as int,
                    scale as int,
                ),
    {
        let s = scale;
        match face_idx {
            0 | 1 => (
                (col * s) as u8,
                (row * s) as u8,
                (layer * s) as u8,
                (width * s) as u8,
                (height * s) as u8,
            ),
            2 | 3 => (
                (row * s) as u8,
                (col * s) as u8,
                (layer * s) as u8,
                (height * s) as u8,
                (width * s) as u8,
            ),
            _ => (
                (row * s) as u8,
                (layer * s) as u8,
                (col * s) as u8,
                (height * s) as u8,
                (width * s) as u8,
            ),
        }
    }

    /// Meshes a grid of cells and adds the quads to `result`, in voxels.
    ///
    /// Face by face and layer by layer, the exposed faces of the layer are
    /// marked; then each marked face that no quad holds yet starts a quad,
    /// which grows along the columns and then along the rows as far as the
    /// faces are marked, free and of the same block.
    fn mesh_reduced_grid(grid: &[u32], grid_size: usize, scale: usize, result: &mut ChunkMesh)
        requires
            scale == 2 || scale == 4 || scale == 8,
            grid_size * scale == 32,
            grid@.len() == grid_size * grid_size * grid_size,
            old(result)@.len() == 0,
        ensures
            is_mesh_of(final(result)@, grid@, grid_size as int, scale as int),
            in_sweep_order(final(result)@, scale as int, false),
    {
        let gs = grid_size;
        let ghost g = grid@;
        let ghost n = gs as int;
        let ghost s = scale as int;
        assert(0 < gs <= 16 && gs * gs <= 256) by (nonlinear_arith)
            requires
                gs * scale == 32,
                scale >= 2,
        ;
        let gs2 = gs * gs;
        proof {
            lemma_partial_mesh_empty(g, n, s, false);
            assert(result@ =~= Seq::<MeshQuad>::empty());
        }

        for face_idx in 0..6u8
            invariant
                g == grid@,
                n == gs,
                s == scale,
                scale == 2 || scale == 4 || scale == 8,
                gs * scale == 32,
                0 < gs <= 16,
                gs2 == gs * gs,
                gs2 <= 256,
                grid@.len() == gs * gs * gs,
                partial_mesh(result@, g, n, s, false, slice_key(face_idx as int, 0, 0, 0)),
        {
            let face = match face_idx {
                0 => Face::Right,
                1 => Face::Left,
                2 => Face::Up,
                3 => Face::Down,
                4 => Face::Front,
                _ => Face::Back,
            };
            let ghost code = face_idx as int;

            for layer in 0..gs
                invariant
                    g == grid@,
                    n == gs,
                    s == scale,
                    scale == 2 || scale == 4 || scale == 8,
                    gs * scale == 32,
                    0 < gs <= 16,
                    gs2 == gs * gs,
                    gs2 <= 256,
                    grid@.len() == gs * gs * gs,
                    face_idx < 6,
                    code == face_idx,
                    face.code() == code,
                    partial_mesh(result@, g, n, s, false, slice_key(code, layer as int, 0, 0)),
            {
                let mut mask = vec![false; gs2];
                proof {
                    assert forall|r: int, c: int| 0 <= r < n && 0 <= c < n implies #[trigger] at2(
                        mask@,
                        n,
                        r,
                        c,
                    ) == false by {
                        lemma_cell_index(n, c, r, 0);
                    }
                }

                for row in 0..gs
                    invariant
                        g == grid@,
                        n == gs,
                        0 < gs <= 16,
                        gs2 == gs * gs,
                        grid@.len() == gs * gs * gs,
                        face_idx < 6,
                        face.code() == face_idx,
                        layer < gs,
                        mask@.len() == gs2,
                        forall|r: int, c: int|
                            0 <= r < n && 0 <= c < n ==> #[trigger] at2(mask@, n, r, c) == (r < row
                                && slice_exposed(g, n, face, layer as int, r, c)),
                {
                    for col in 0..gs
                        invariant
                            g == grid@,
                            n == gs,
                            0 < gs <= 16,
                            gs2 == gs * gs,
                            grid@.len() == gs * gs * gs,
                            face_idx < 6,
                            face.code() == face_idx,
                            layer < gs,
                            row < gs,
                            mask@.len() == gs2,
                            forall|r: int, c: int|
                                0 <= r < n && 0 <= c < n ==> #[trigger] at2(mask@, n, r, c) == ((r
                                    < row || (r == row && c < col)) && slice_exposed(
                                    g,
                                    n,
                                    face,
                                    layer as int,
                                    r,
                                    c,
                                )),
                    {
                        let (x, y, z) = Self::remap_coords(face_idx, layer, row, col);
                        let ghost cell = slice_cell(face, layer as int, row as int, col as int);
                        let block = grid_at(grid, gs, x, y, z);
                        let ghost old_mask = mask@;
                        let at = flat(gs, row, col);
                        if block != 0 {
                            let neighbor_block = Self::get_neighbor(grid, gs, face_idx, x, y, z);
                            proof {
                                assert(neighbor_block == crate::mesh::neighbor_block(
                                    g,
                                    n,
                                    face,
                                    x as int,
                                    y as int,
                                    z as int,
                                ));
                            }
                            if neighbor_block == 0 {
                                mask[at] = true;
                            }
                        }
                        proof {
                            assert(at2(mask@, n, row as int, col as int) == slice_exposed(
                                g,
                                n,
                                face,
                                layer as int,
                                row as int,
                                col as int,
                            )) by {
                                assert(at2(old_mask, n, row as int, col as int) == false);
                            }
                            assert forall|r: int, c: int| 0 <= r < n && 0 <= c < n implies #[trigger] at2(
                                mask@,
                                n,
                                r,
                                c,
                            ) == ((r < row || (r == row && c < col + 1)) && slice_exposed(
                                g,
                                n,
                                face,
                                layer as int,
                                r,
                                c,
                            )) by {
                                if r != row || c != col {
                                    if r * n + c == row * n + col {
                                        lemma_flat_index(n, r, c, row as int, col as int);
                                    }
                                    lemma_cell_index(n, c, r, 0);
                                    assert(at2(mask@, n, r, c) == at2(old_mask, n, r, c));
                                }
                            }
                        }
                    }
                }

                let mut visited = vec![false; gs2];
                proof {
                    assert forall|r: int, c: int| 0 <= r < n && 0 <= c < n implies #[trigger] at2(
                        visited@,
                        n,
                        r,
                        c,
                    ) == swept(g, n, face, layer as int, r, c, 0, 0) by {
                        lemma_cell_index(n, c, r, 0);
                        if slice_exposed(g, n, face, layer as int, r, c) {
                            crate::runs::lemma_start_cell(g, n, face, layer as int, r, c);
                        }
                    }
                }
                for row in 0..gs
                    invariant
                        g == grid@,
                        n == gs,
                        s == scale,
                        scale == 2 || scale == 4 || scale == 8,
                        gs * scale == 32,
                        0 < gs <= 16,
                        gs2 == gs * gs,
                        grid@.len() == gs * gs * gs,
                        face_idx < 6,
                        code == face_idx,
                        face.code() == code,
                        layer < gs,
                        mask@.len() == gs2,
                        visited@.len() == gs2,
                        forall|r: int, c: int|
                            0 <= r < n && 0 <= c < n ==> #[trigger] at2(mask@, n, r, c)
                                == slice_exposed(g, n, face, layer as int, r, c),
                        forall|r: int, c: int|
                            0 <= r < n && 0 <= c < n ==> #[trigger] at2(visited@, n, r, c) == swept(
                                g,
                                n,
                                face,
                                layer as int,
                                r,
                                c,
                                row as int,
                                0,
                            ),
                        partial_mesh(
                            result@,
                            g,
                            n,
                            s,
                            false,
                            slice_key(code, layer as int, row as int, 0),
                        ),
                {
                    for col in 0..gs
                        invariant
                            g == grid@,
                            n == gs,
                            s == scale,
                            scale == 2 || scale == 4 || scale == 8,
                            gs * scale == 32,
                            0 < gs <= 16,
                            gs2 == gs * gs,
                            grid@.len() == gs * gs * gs,
                            face_idx < 6,
                            code == face_idx,
                            face.code() == code,
                            layer < gs,
                            row < gs,
                            mask@.len() == gs2,
                            visited@.len() == gs2,
                            forall|r: int, c: int|
                                0 <= r < n && 0 <= c < n ==> #[trigger] at2(mask@, n, r, c)
                                    == slice_exposed(g, n, face, layer as int, r, c),
                            forall|r: int, c: int|
                                0 <= r < n && 0 <= c < n ==> #[trigger] at2(visited@, n, r, c)
                                    == swept(g, n, face, layer as int, r, c, row as int, col as int),
                            partial_mesh(
                                result@,
                                g,
                                n,
                                s,
                                false,
                                slice_key(code, layer as int, row as int, col as int),
                            ),
                    {
                        let at = flat(gs, row, col);
                        let ghost before = visited@;
                        let ghost old_quads = result@;
                        proof {
                            assert(at2(mask@, n, row as int, col as int) == mask@[at as int]);
                            assert(at2(visited@, n, row as int, col as int) == visited@[at as int]);
                            if slice_exposed(g, n, face, layer as int, row as int, col as int) {
                                crate::runs::lemma_start_cell(
                                    g,
                                    n,
                                    face,
                                    layer as int,
                                    row as int,
                                    col as int,
                                );
                            }
                        }
                        if mask[at] && !visited[at] {
                            let (x, y, z) = Self::remap_coords(face_idx, layer, row, col);
                            let ghost cell = slice_cell(face, layer as int, row as int, col as int);
                            let block = grid_at(grid, gs, x, y, z);
                            proof {
                                assert(block == slice_block(
                                    g,
                                    n,
                                    face,
                                    layer as int,
                                    row as int,
                                    col as int,
                                ));
                                assert(starts_run(g, n, face, layer as int, row as int, col as int));
                                lemma_no_neighbours(g, n, face, layer as int, row as int, col as int);
                                assert(gs * gs <= 256) by (nonlinear_arith)
                                    requires
                                        0 < gs <= 16,
                                ;
                                if col + 1 < gs {
                                    lemma_cell_index(n, col + 1, row as int, 0);
                                    assert(at2(mask@, n, row as int, col + 1) == mask@[at + 1]);
                                }
                            }

                            let mut width = 1usize;
                            while col + width < gs && mask[at + width] && !visited[at + width]
                                invariant
                                    width == 1,
                                    at == row * gs + col,
                                    at < gs * gs,
                                    col < gs,
                                    mask@.len() == gs * gs,
                                    visited@.len() == gs * gs,
                                    gs * gs <= 256,
                                    col + 1 < gs ==> at + 1 < gs * gs && !mask@[at + 1],
                                decreases gs - col - width,
                            {
                                proof {
                                    assert(false);
                                }
                                let (nx, ny, nz) = Self::remap_coords(
                                    face_idx,
                                    layer,
                                    row,
                                    col + width,
                                );
                                if grid_at(grid, gs, nx, ny, nz) != block {
                                    break ;
                                }
                                width += 1;
                            }

                            let mut height = 1usize;
                            while row + height < gs
                                invariant
                                    g == grid@,
                                    n == gs,
                                    0 < gs <= 16,
                                    gs2 == gs * gs,
                                    grid@.len() == gs * gs * gs,
                                    face_idx < 6,
                                    face.code() == face_idx,
                                    layer < gs,
                                    row < gs,
                                    col < gs,
                                    width == 1,
                                    mask@.len() == gs2,
                                    visited@.len() == gs2,
                                    visited@ == before,
                                    1 <= height,
                                    row + height <= gs,
                                    starts_run(g, n, face, layer as int, row as int, col as int),
                                    block == slice_block(
                                        g,
                                        n,
                                        face,
                                        layer as int,
                                        row as int,
                                        col as int,
                                    ),
                                    forall|r: int, c: int|
                                        0 <= r < n && 0 <= c < n ==> #[trigger] at2(mask@, n, r, c)
                                            == slice_exposed(g, n, face, layer as int, r, c),
                                    forall|r: int, c: int|
                                        0 <= r < n && 0 <= c < n ==> #[trigger] at2(before, n, r, c)
                                            == swept(
                                            g,
                                            n,
                                            face,
                                            layer as int,
                                            r,
                                            c,
                                            row as int,
                                            col as int,
                                        ),
                                    forall|k: int|
                                        0 <= k < height ==> #[trigger] slice_shows(
                                            g,
                                            n,
                                            face,
                                            block,
                                            layer as int,
                                            row + k,
                                            col as int,
                                        ),
                                ensures
                                    1 <= height,
                                    row + height <= gs,
                                    visited@ == before,
                                    mask@.len() == gs2,
                                    forall|k: int|
                                        0 <= k < height ==> #[trigger] slice_shows(
                                            g,
                                            n,
                                            face,
                                            block,
                                            layer as int,
                                            row + k,
                                            col as int,
                                        ),
                                    !slice_shows(
                                        g,
                                        n,
                                        face,
                                        block,
                                        layer as int,
                                        row + height,
                                        col as int,
                                    ),
                                decreases gs - row - height,
                            {
                                let mut fits = true;
                                let mut c = col;
                                while c < col + width
                                    invariant_except_break
                                        fits,
                                    invariant
                                        g == grid@,
                                        n == gs,
                                        0 < gs <= 16,
                                        gs2 == gs * gs,
                                        grid@.len() == gs * gs * gs,
                                        face_idx < 6,
                                        face.code() == face_idx,
                                        layer < gs,
                                        row + height < gs,
                                        col < gs,
                                        width == 1,
                                        col <= c <= col + 1,
                                        mask@.len() == gs2,
                                        visited@.len() == gs2,
                                        visited@ == before,
                                        1 <= height,
                                        starts_run(g, n, face, layer as int, row as int, col as int),
                                        block == slice_block(
                                            g,
                                            n,
                                            face,
                                            layer as int,
                                            row as int,
                                            col as int,
                                        ),
                                        forall|r: int, c: int|
                                            0 <= r < n && 0 <= c < n ==> #[trigger] at2(
                                                mask@,
                                                n,
                                                r,
                                                c,
                                            ) == slice_exposed(g, n, face, layer as int, r, c),
                                        forall|r: int, c: int|
                                            0 <= r < n && 0 <= c < n ==> #[trigger] at2(
                                                before,
                                                n,
                                                r,
                                                c,
                                            ) == swept(
                                                g,
                                                n,
                                                face,
                                                layer as int,
                                                r,
                                                c,
                                                row as int,
                                                col as int,
                                            ),
                                        forall|k: int|
                                            0 <= k < height ==> #[trigger] slice_shows(
                                                g,
                                                n,
                                                face,
                                                block,
                                                layer as int,
                                                row + k,
                                                col as int,
                                            ),
                                        c == col + 1 ==> slice_shows(
                                            g,
                                            n,
                                            face,
                                            block,
                                            layer as int,
                                            row + height,
                                            col as int,
                                        ),
                                    ensures
                                        fits ==> slice_shows(
                                            g,
                                            n,
                                            face,
                                            block,
                                            layer as int,
                                            row + height,
                                            col as int,
                                        ),
                                        !fits ==> !slice_shows(
                                            g,
                                            n,
                                            face,
                                            block,
                                            layer as int,
                                            row + height,
                                            col as int,
                                        ),
                                    decreases col + width - c,
                                {
                                    let below = flat(gs, row + height, c);
                                    proof {
                                        assert(at2(mask@, n, row + height, c as int)
                                            == mask@[below as int]);
                                        assert(at2(before, n, row + height, c as int)
                                            == before[below as int]);
                                    }
                                    if !mask[below] || visited[below] {
                                        proof {
                                            if slice_shows(
                                                g,
                                                n,
                                                face,
                                                block,
                                                layer as int,
                                                row + height,
                                                col as int,
                                            ) {
                                                lemma_back_len_extend(
                                                    g,
                                                    n,
                                                    face,
                                                    block,
                                                    layer as int,
                                                    row as int,
                                                    col as int,
                                                    height as int,
                                                );
                                                assert(false);
                                            }
                                        }
                                        fits = false;
                                        break ;
                                    }
                                    let (nx, ny, nz) = Self::remap_coords(
                                        face_idx,
                                        layer,
                                        row + height,
                                        c,
                                    );
                                    let ghost below_cell = slice_cell(
                                        face,
                                        layer as int,
                                        row + height,
                                        c as int,
                                    );
                                    if grid_at(grid, gs, nx, ny, nz) != block {
                                        fits = false;
                                        break ;
                                    }
                                    c += 1;
                                }
                                if !fits {
                                    break ;
                                }
                                height += 1;
                            }

                            proof {
                                assert(is_run_from(
                                    g,
                                    n,
                                    face,
                                    block,
                                    layer as int,
                                    row as int,
                                    col as int,
                                    height as int,
                                ));
                            }
                            for r in row..row + height
                                invariant
                                    n == gs,
                                    0 < gs <= 16,
                                    gs2 == gs * gs,
                                    row + height <= gs,
                                    col < gs,
                                    width == 1,
                                    visited@.len() == gs2,
                                    forall|rr: int, cc: int|
                                        0 <= rr < n && 0 <= cc < n ==> #[trigger] at2(
                                            visited@,
                                            n,
                                            rr,
                                            cc,
                                        ) == (at2(before, n, rr, cc) || (cc == col && row <= rr
                                            < r)),
                            {
                                for c in col..col + width
                                    invariant
                                        n == gs,
                                        0 < gs <= 16,
                                        gs2 == gs * gs,
                                        row <= r,
                                        r < row + height,
                                        row + height <= gs,
                                        col < gs,
                                        width == 1,
                                        visited@.len() == gs2,
                                        forall|rr: int, cc: int|
                                            0 <= rr < n && 0 <= cc < n ==> #[trigger] at2(
                                                visited@,
                                                n,
                                                rr,
                                                cc,
                                            ) == (at2(before, n, rr, cc) || (cc == col && (row <= rr
                                                < r || (rr == r && c > col)))),
                                {
                                    let here = flat(gs, r, c);
                                    let ghost prev = visited@;
                                    visited[here] = true;
                                    proof {
                                        assert forall|rr: int, cc: int|
                                            0 <= rr < n && 0 <= cc < n implies #[trigger] at2(
                                            visited@,
                                            n,
                                            rr,
                                            cc,
                                        ) == (at2(before, n, rr, cc) || (cc == col && (row <= rr < r
                                            || (rr == r && c + 1 > col)))) by {
                                            lemma_cell_index(n, cc, rr, 0);
                                            if rr * n + cc == r * n + c {
                                                lemma_flat_index(n, rr, cc, r as int, c as int);
                                            } else {
                                                assert(at2(visited@, n, rr, cc) == at2(
                                                    prev,
                                                    n,
                                                    rr,
                                                    cc,
                                                ));
                                            }
                                        }
                                    }
                                }
                            }

                            proof {
                                assert(layer * scale <= 32 && row * scale <= 32 && col * scale <= 32
                                    && width * scale <= 32 && height * scale <= 32)
                                    by (nonlinear_arith)
                                    requires
                                        layer < gs,
                                        row < gs,
                                        col < gs,
                                        width == 1,
                                        row + height <= gs,
                                        gs * scale == 32,
                                        scale >= 1,
                                ;
                            }
                            let (qx, qy, qz, qw, qh) = Self::emit_scaled_quad(
                                face_idx,
                                layer,
                                row,
                                col,
                                width,
                                height,
                                scale,
                            );
                            let quad = MeshQuad {
                                x: qx,
                                y: qy,
                                z: qz,
                                width: qw,
                                height: qh,
                                face,
                                block_type: block,
                            };
                            result.quads.push(quad);
                            proof {
                                let run = run_of_slice(
                                    face,
                                    layer as int,
                                    row as int,
                                    col as int,
                                    height as int,
                                    block,
                                );
                                assert((qx, qy, qz, qw, qh) == scaled_quad_dims(
                                    face,
                                    layer as int,
                                    row as int,
                                    col as int,
                                    width as int,
                                    height as int,
                                    s,
                                ));
                                assert(1 * s == s) by (nonlinear_arith);
                                assert(quad == run.quad(s));
                                lemma_sweep_emit(
                                    old_quads,
                                    g,
                                    n,
                                    s,
                                    face,
                                    block,
                                    layer as int,
                                    row as int,
                                    col as int,
                                    height as int,
                                );
                                assert forall|rr: int, cc: int|
                                    0 <= rr < n && 0 <= cc < n implies #[trigger] at2(
                                    visited@,
                                    n,
                                    rr,
                                    cc,
                                ) == swept(g, n, face, layer as int, rr, cc, row as int, col + 1) by {
                                    lemma_swept_emit(
                                        g,
                                        n,
                                        face,
                                        block,
                                        layer as int,
                                        row as int,
                                        col as int,
                                        height as int,
                                        rr,
                                        cc,
                                    );
                                    assert(at2(before, n, rr, cc) == swept(
                                        g,
                                        n,
                                        face,
                                        layer as int,
                                        rr,
                                        cc,
                                        row as int,
                                        col as int,
                                    ));
                                }
                            }
                        } else {
                            proof {
                                assert(!starts_run(g, n, face, layer as int, row as int, col as int));
                                lemma_sweep_skip(
                                    old_quads,
                                    g,
                                    n,
                                    s,
                                    face,
                                    layer as int,
                                    row as int,
                                    col as int,
                                );
                                assert forall|rr: int, cc: int|
                                    0 <= rr < n && 0 <= cc < n implies #[trigger] at2(
                                    visited@,
                                    n,
                                    rr,
                                    cc,
                                ) == swept(g, n, face, layer as int, rr, cc, row as int, col + 1) by {
                                    lemma_swept_skip(
                                        g,
                                        n,
                                        face,
                                        layer as int,
                                        row as int,
                                        col as int,
                                        rr,
                                        cc,
                                    );
                                }
                            }
                        }
                    }
                    proof {
                        lemma_sweep_wrap(result@, g, n, s, false, code, layer as int, row as int);
                        assert forall|rr: int, cc: int|
                            0 <= rr < n && 0 <= cc < n implies #[trigger] at2(visited@, n, rr, cc)
                            == swept(g, n, face, layer as int, rr, cc, row + 1, 0) by {
                            assert(at2(visited@, n, rr, cc) == swept(
                                g,
                                n,
                                face,
                                layer as int,
                                rr,
                                cc,
                                row as int,
                                n,
                            ));
                        }
                    }
                }
                proof {
                    lemma_sweep_wrap(result@, g, n, s, false, code, layer as int, n);
                }
            }
            proof {
                lemma_sweep_wrap(result@, g, n, s, false, code, n, 0);
            }
        }
        proof {
            lemma_partial_mesh_full(result@, g, n, s, false);
        }
    }

    /// The mesh of the grid of cells of `scale` voxels along each edge.
    fn mesh_downsampled(voxels: &[u32; CHUNK_SIZE_CB], scale: usize) -> (mesh: ChunkMesh)
        requires
            scale == 2 || scale == 4 || scale == 8,
        ensures
            is_mesh_of(mesh@, lod_grid(voxels@, scale as int), 32int / (scale as int), scale as int),
            in_sweep_order(mesh@, scale as int, false),
    {
        let grid_size = CHUNK_SIZE / scale;
        let ghost n = grid_size as int;
        let ghost s = scale as int;
        assert(grid_size * scale == 32 && 0 < grid_size <= 16) by {
            if scale == 2 {
                assert(32usize / 2 == 16);
            } else if scale == 4 {
                assert(32usize / 4 == 8);
            } else {
                assert(32usize / 8 == 4);
            }
        }
        assert(n == 32int / s);
        assert(grid_size * grid_size <= 256 && grid_size * grid_size * grid_size <= 4096)
            by (nonlinear_arith)
            requires
                0 < grid_size <= 16,
        ;
        let grid_len = grid_size * grid_size * grid_size;
        let ghost want = lod_grid(voxels@, s);

        let mut grid = vec![0u32; grid_len];
        let ghost mut k: int = 0;
        proof {
            assert(0 * n * n == 0) by (nonlinear_arith);
        }
        for gz in 0..grid_size
            invariant
                n == grid_size,
                s == scale,
                scale == 2 || scale == 4 || scale == 8,
                grid_size * scale == 32,
                0 < grid_size <= 16,
                n == 32int / s,
                want == lod_grid(voxels@, s),
                grid@.len() == n * n * n,
                k == gz * n * n,
                forall|i: int| 0 <= i < k ==> grid@[i] == want[i],
        {
            proof {
                assert(0 * n == 0) by (nonlinear_arith);
            }
            for gy in 0..grid_size
                invariant
                    n == grid_size,
                    s == scale,
                    scale == 2 || scale == 4 || scale == 8,
                    grid_size * scale == 32,
                    0 < grid_size <= 16,
                    n == 32int / s,
                    gz < grid_size,
                    want == lod_grid(voxels@, s),
                    grid@.len() == n * n * n,
                    k == gz * n * n + gy * n,
                    forall|i: int| 0 <= i < k ==> grid@[i] == want[i],
            {
                for gx in 0..grid_size
                    invariant
                        n == grid_size,
                        s == scale,
                        scale == 2 || scale == 4 || scale == 8,
                        grid_size * scale == 32,
                        0 < grid_size <= 16,
                        n == 32int / s,
                        gz < grid_size,
                        gy < grid_size,
                        want == lod_grid(voxels@, s),
                        grid@.len() == n * n * n,
                        k == gz * n * n + gy * n + gx,
                        forall|i: int| 0 <= i < k ==> grid@[i] == want[i],
                {
                    proof {
                        lemma_cell_index(n, gx as int, gy as int, gz as int);
                        lemma_lod_grid_at(voxels@, s, gx as int, gy as int, gz as int);
                        assert(gx * scale + scale <= 32 && gy * scale + scale <= 32 && gz * scale
                            + scale <= 32) by (nonlinear_arith)
                            requires
                                gx < grid_size,
                                gy < grid_size,
                                gz < grid_size,
                                grid_size * scale == 32,
                        ;
                        assert(gz * grid_size * grid_size == gz * (grid_size * grid_size))
                            by (nonlinear_arith);
                        assert(n * n * n <= 4096 && 0 <= gz * n <= 256 && 0 <= gz * n * n <= 4096
                            && 0 <= gy * n <= 256) by (nonlinear_arith)
                            requires
                                0 < n <= 16,
                                0 <= gz < n,
                                0 <= gy < n,
                        ;
                    }
                    let vote = Self::downsample_cell(voxels, gx, gy, gz, scale);
                    grid[gz * grid_size * grid_size + gy * grid_size + gx] = vote;
                    proof {
                        k = k + 1;
                    }
                }
                proof {
                    assert(gz * n * n + gy * n + n == gz * n * n + (gy + 1) * n)
                        by (nonlinear_arith);
                }
            }
            proof {
                assert(gz * n * n + n * n == (gz + 1) * n * n) by (nonlinear_arith);
            }
        }
        proof {
            lemma_lod_grid_at(voxels@, s, 0, 0, 0);
            assert(grid@ =~= want);
        }

        let mut mesh = ChunkMesh::new();
        Self::mesh_reduced_grid(grid.as_slice(), grid_size, scale, &mut mesh);
        mesh
    }

    /// The mesh of a chunk at a coarse level of detail, `None` for the full
    /// level, which the caller meshes as it is. The quads are the maximal runs
    /// of the grid of cells, each once, in voxels, in the order in which the
    /// sweep starts them.
    pub fn mesh_chunk_lod(voxels: &[u32; CHUNK_SIZE_CB], lod: LodLevel) -> (mesh: Option<
        ChunkMesh,
    >)
        ensures
            mesh is None <==> lod == LodLevel::Full,
            mesh is Some ==> is_mesh_of(
                mesh->0@,
                lod_grid(voxels@, lod.spec_scale() as int),
                lod.spec_grid_size() as int,
                lod.spec_scale() as int,
            ) && in_sweep_order(mesh->0@, lod.spec_scale() as int, false),
    {
        match lod {
            LodLevel::Full => None,
            LodLevel::Reduced => Some(Self::mesh_downsampled(voxels, 2)),
            LodLevel::Low => Some(Self::mesh_downsampled(voxels, 4)),
            LodLevel::Minimal => Some(Self::mesh_downsampled(voxels, 8)),
        }
    }
}

} // verus!
