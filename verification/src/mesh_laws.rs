//! What holds of every mesh of a grid.

use vstd::prelude::*;
use vstd::arithmetic::div_mod::lemma_fundamental_div_mod;
use crate::mesh::{
    block_at, every_quad_is_a_run, every_run_has_a_quad, exposed, is_mesh_of, no_quad_twice, shows,
    Face, MeshQuad, Run,
};
use crate::runs::{
    back_len, in_sweep_order, lemma_back_len, lemma_back_len_in_run, lemma_quad_run,
    lemma_run_in_grid, lemma_run_quad, lemma_run_slice, lemma_shows_at, run_key, run_of_slice,
    slice_cell, slice_shows,
};

verus! {

/// A grid of air has no quads.
pub proof fn lemma_air_has_no_quads(quads: Seq<MeshQuad>, grid: Seq<u32>, n: int, s: int)
    requires
        is_mesh_of(quads, grid, n, s),
        forall|x: int, y: int, z: int| #[trigger] block_at(grid, n, x, y, z) == 0,
    ensures
        quads.len() == 0,
{
    if quads.len() > 0 {
        let r = quads[0].run(s);
        assert(r.is_maximal(grid, n));
        assert(r.shows_at(grid, n, 0));
        assert(block_at(grid, n, r.cell(0).0, r.cell(0).1, r.cell(0).2) == 0);
    }
}

/// Every quad of a mesh of a chunk lies in the chunk, is at least one voxel
/// wide and high and at most 32, and shows a block that is not air.
pub proof fn lemma_quads_in_chunk(quads: Seq<MeshQuad>, grid: Seq<u32>, n: int, s: int, i: int)
    requires
        is_mesh_of(quads, grid, n, s),
        s == 1 || s == 2 || s == 4 || s == 8,
        n * s == 32,
        0 <= i < quads.len(),
    ensures
        quads[i].x < 32,
        quads[i].y < 32,
        quads[i].z < 32,
        1 <= quads[i].width <= 32,
        1 <= quads[i].height <= 32,
        0 <= quads[i].face.code() <= 5,
        quads[i].block_type != 0,
{
    let q = quads[i];
    let r = q.run(s);
    assert(q.on_lattice(s) && r.is_maximal(grid, n));
    lemma_run_in_grid(r, grid, n);
    lemma_fundamental_div_mod(q.x as int, s);
    lemma_fundamental_div_mod(q.y as int, s);
    lemma_fundamental_div_mod(q.z as int, s);
    lemma_fundamental_div_mod(q.width as int, s);
    lemma_fundamental_div_mod(q.height as int, s);
    assert(r.x < n && r.y < n && r.z < n);
    assert(s * r.x < 32 && s * r.y < 32 && s * r.z < 32 && s <= s * r.len <= 32)
        by (nonlinear_arith)
        requires
            0 <= r.x < n,
            0 <= r.y < n,
            0 <= r.z < n,
            1 <= r.len <= n,
            n * s == 32,
            s >= 1,
    ;
}

/// Every number of a quad of a mesh is a multiple of the width of a cell.
pub proof fn lemma_quads_on_lattice(quads: Seq<MeshQuad>, grid: Seq<u32>, n: int, s: int, i: int)
    requires
        is_mesh_of(quads, grid, n, s),
        0 <= i < quads.len(),
    ensures
        quads[i].x as int % s == 0,
        quads[i].y as int % s == 0,
        quads[i].z as int % s == 0,
        quads[i].width as int % s == 0,
        quads[i].height as int % s == 0,
{
    assert(quads[i].on_lattice(s));
}

/// Every voxel face that a quad of a mesh covers is exposed and shows the
/// block of the quad: no quad holds air, a hidden face or two kinds of block.
pub proof fn lemma_covered_face_shows(
    quads: Seq<MeshQuad>,
    grid: Seq<u32>,
    n: int,
    i: int,
    face: Face,
    x: int,
    y: int,
    z: int,
)
    requires
        is_mesh_of(quads, grid, n, 1),
        0 <= i < quads.len(),
        quads[i].covers(face, x, y, z),
    ensures
        shows(grid, n, face, quads[i].block_type, x, y, z),
{
    let q = quads[i];
    let r = q.run(1);
    assert(q.on_lattice(1) && r.is_maximal(grid, n));
    let k = if face.along_x() {
        y - q.y
    } else {
        x - q.x
    };
    assert(r.shows_at(grid, n, k));
}

/// How many cells directly behind `row` show `block`, going on along the rows.
pub open spec fn fore_len(
    grid: Seq<u32>,
    n: int,
    face: Face,
    block: u32,
    layer: int,
    row: int,
    bit: int,
) -> int
    decreases n - row,
{
    if row + 1 < n && slice_shows(grid, n, face, block, layer, row + 1, bit) {
        1 + fore_len(grid, n, face, block, layer, row + 1, bit)
    } else {
        0
    }
}

/// The cells counted by `fore_len` show the block, and the one behind them does not.
proof fn lemma_fore_len(grid: Seq<u32>, n: int, face: Face, block: u32, layer: int, row: int, bit: int)
    ensures
        0 <= fore_len(grid, n, face, block, layer, row, bit),
        forall|j: int|
            1 <= j <= fore_len(grid, n, face, block, layer, row, bit) ==> #[trigger] slice_shows(
                grid,
                n,
                face,
                block,
                layer,
                row + j,
                bit,
            ),
        !slice_shows(
            grid,
            n,
            face,
            block,
            layer,
            row + fore_len(grid, n, face, block, layer, row, bit) + 1,
            bit,
        ),
    decreases n - row,
{
    if row + 1 < n && slice_shows(grid, n, face, block, layer, row + 1, bit) {
        lemma_fore_len(grid, n, face, block, layer, row + 1, bit);
        let m = fore_len(grid, n, face, block, layer, row + 1, bit);
        assert forall|j: int| 1 <= j <= m + 1 implies #[trigger] slice_shows(
            grid,
            n,
            face,
            block,
            layer,
            row + j,
            bit,
        ) by {
            if j > 1 {
                assert(slice_shows(grid, n, face, block, layer, (row + 1) + (j - 1), bit));
            }
        }
    }
}

/// Where the cell `(x, y, z)` lies in the sweep of `face`.
pub open spec fn cell_slice(face: Face, x: int, y: int, z: int) -> (int, int, int) {
    if face.along_x() {
        (z, y, x)
    } else if face.along_y() {
        (z, x, y)
    } else {
        (y, x, z)
    }
}

/// The maximal run through an exposed face.
proof fn lemma_run_through(grid: Seq<u32>, n: int, face: Face, x: int, y: int, z: int) -> (r: Run)
    requires
        exposed(grid, n, face, x, y, z),
    ensures
        r.is_maximal(grid, n),
        r.face == face,
        r.block == block_at(grid, n, x, y, z),
        exists|k: int| 0 <= k < r.len && r.cell(k) == (x, y, z),
        0 <= r.x < n && 0 <= r.y < n && 0 <= r.z < n && 1 <= r.len <= n,
{
    let c = cell_slice(face, x, y, z);
    let layer = c.0;
    let row = c.1;
    let bit = c.2;
    assert(slice_cell(face, layer, row, bit) == (x, y, z));
    let block = block_at(grid, n, x, y, z);
    let back = back_len(grid, n, face, block, layer, row, bit);
    let fore = fore_len(grid, n, face, block, layer, row, bit);
    lemma_back_len(grid, n, face, block, layer, row, bit);
    lemma_fore_len(grid, n, face, block, layer, row, bit);
    let r = run_of_slice(face, layer, row - back, bit, back + 1 + fore, block);
    assert forall|k: int| 0 <= k < r.len implies #[trigger] r.shows_at(grid, n, k) by {
        lemma_shows_at(r, grid, n, k);
        if k < back {
            assert(slice_shows(grid, n, face, block, layer, row - (back - k), bit));
        } else if k > back {
            assert(slice_shows(grid, n, face, block, layer, row + (k - back), bit));
        }
    }
    lemma_shows_at(r, grid, n, -1);
    lemma_shows_at(r, grid, n, r.len);
    lemma_run_slice(r);
    assert(r.cell(back) == (x, y, z));
    lemma_run_in_grid(r, grid, n);
    r
}

/// Two maximal runs of one face through one cell are one run.
proof fn lemma_one_run_through(grid: Seq<u32>, n: int, a: Run, b: Run, ka: int, kb: int)
    requires
        a.is_maximal(grid, n),
        b.is_maximal(grid, n),
        a.face == b.face,
        0 <= ka < a.len,
        0 <= kb < b.len,
        a.cell(ka) == b.cell(kb),
    ensures
        a == b,
{
    lemma_run_slice(a);
    lemma_run_slice(b);
    lemma_run_in_grid(a, grid, n);
    lemma_run_in_grid(b, grid, n);
    assert(a.shows_at(grid, n, ka));
    assert(b.shows_at(grid, n, kb));
    assert(a.block == b.block);
    lemma_back_len_in_run(a, grid, n, ka);
    lemma_back_len_in_run(b, grid, n, kb);
    assert(ka == kb);
    if a.len < b.len {
        assert(b.shows_at(grid, n, a.len));
        lemma_shows_at(a, grid, n, a.len);
        lemma_shows_at(b, grid, n, a.len);
    }
    if b.len < a.len {
        assert(a.shows_at(grid, n, b.len));
        lemma_shows_at(a, grid, n, b.len);
        lemma_shows_at(b, grid, n, b.len);
    }
}

/// Every exposed voxel face lies in one quad of a mesh, and in one only.
pub proof fn lemma_exposed_face_in_one_quad(
    quads: Seq<MeshQuad>,
    grid: Seq<u32>,
    n: int,
    face: Face,
    x: int,
    y: int,
    z: int,
) -> (i: int)
    requires
        0 < n <= 32,
        is_mesh_of(quads, grid, n, 1),
        exposed(grid, n, face, x, y, z),
    ensures
        0 <= i < quads.len(),
        quads[i].covers(face, x, y, z),
        forall|j: int| 0 <= j < quads.len() && #[trigger] quads[j].covers(face, x, y, z) ==> j == i,
{
    let r = lemma_run_through(grid, n, face, x, y, z);
    let k = choose|k: int| 0 <= k < r.len && r.cell(k) == (x, y, z);
    lemma_quad_run(r, 1);
    let q = r.quad(1);
    assert(crate::mesh::every_run_has_a_quad(quads, grid, n, 1));
    let i = choose|i: int| 0 <= i < quads.len() && quads[i] == r.quad(1);
    assert(quads[i].covers(face, x, y, z));
    assert forall|j: int| 0 <= j < quads.len() && #[trigger] quads[j].covers(
        face,
        x,
        y,
        z,
    ) implies j == i by {
        let other = quads[j].run(1);
        assert(quads[j].on_lattice(1) && other.is_maximal(grid, n));
        let kj = if face.along_x() {
            y - quads[j].y
        } else {
            x - quads[j].x
        };
        assert(other.cell(kj) == (x, y, z));
        lemma_one_run_through(grid, n, r, other, k, kj);
        crate::runs::lemma_run_quad(quads[j], 1);
        assert(quads[j] == quads[i]);
        if j < i {
            assert(quads[j] != quads[i]);
        }
        if i < j {
            assert(quads[i] != quads[j]);
        }
    }
    i
}

/// Where a quad of one mesh stands in another mesh of the same grid.
proof fn lemma_place_in_other(
    a: Seq<MeshQuad>,
    b: Seq<MeshQuad>,
    grid: Seq<u32>,
    n: int,
    s: int,
    k: int,
) -> (t: int)
    requires
        s == 1 || s == 2 || s == 4 || s == 8,
        is_mesh_of(a, grid, n, s),
        is_mesh_of(b, grid, n, s),
        0 <= k < a.len(),
    ensures
        0 <= t < b.len(),
        b[t] == a[k],
{
    assert(every_quad_is_a_run(a, grid, n, s));
    assert(a[k].on_lattice(s) && a[k].run(s).is_maximal(grid, n));
    lemma_run_quad(a[k], s);
    let r = a[k].run(s);
    assert(every_run_has_a_quad(b, grid, n, s));
    let q = r.quad(s);
    choose|t: int| 0 <= t < b.len() && b[t] == r.quad(s)
}

/// Two meshes of one grid in the order of the sweep agree in their first quads.
proof fn lemma_meshes_agree(
    a: Seq<MeshQuad>,
    b: Seq<MeshQuad>,
    grid: Seq<u32>,
    n: int,
    s: int,
    by_end: bool,
    k: int,
)
    requires
        s == 1 || s == 2 || s == 4 || s == 8,
        is_mesh_of(a, grid, n, s),
        is_mesh_of(b, grid, n, s),
        in_sweep_order(a, s, by_end),
        in_sweep_order(b, s, by_end),
        0 <= k < a.len(),
    ensures
        k < b.len(),
        a[k] == b[k],
    decreases k,
{
    assert(no_quad_twice(a) && no_quad_twice(b));
    let t = lemma_place_in_other(a, b, grid, n, s, k);
    if t < k {
        lemma_meshes_agree(a, b, grid, n, s, by_end, t);
        assert(a[t] == a[k]);
    } else if t > k {
        let u = lemma_place_in_other(b, a, grid, n, s, k);
        if u < k {
            lemma_meshes_agree(a, b, grid, n, s, by_end, u);
            assert(b[u] == b[k]);
        } else if u > k {
            assert(run_key(b[k].run(s), by_end) < run_key(b[t].run(s), by_end));
            assert(run_key(a[k].run(s), by_end) < run_key(a[u].run(s), by_end));
        }
    }
}

/// A grid has one mesh in the order of a sweep.
pub proof fn lemma_one_mesh(
    a: Seq<MeshQuad>,
    b: Seq<MeshQuad>,
    grid: Seq<u32>,
    n: int,
    s: int,
    by_end: bool,
)
    requires
        s == 1 || s == 2 || s == 4 || s == 8,
        is_mesh_of(a, grid, n, s),
        is_mesh_of(b, grid, n, s),
        in_sweep_order(a, s, by_end),
        in_sweep_order(b, s, by_end),
    ensures
        a == b,
{
    if a.len() > 0 {
        lemma_meshes_agree(a, b, grid, n, s, by_end, a.len() - 1);
    }
    if b.len() > 0 {
        lemma_meshes_agree(b, a, grid, n, s, by_end, b.len() - 1);
    }
    assert forall|k: int| 0 <= k < a.len() implies a[k] == b[k] by {
        lemma_meshes_agree(a, b, grid, n, s, by_end, k);
    }
    assert(a =~= b);
}

} // verus!
