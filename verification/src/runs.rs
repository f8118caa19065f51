//! Runs of exposed faces, seen layer by layer.
//!
//! A mesher sweeps the faces of one kind layer by layer, each layer row by row,
//! each row position by position. `(layer, row, bit)` names a cell in that sweep:
//! faces along x: layer = z, row = y, bit = x;
//! faces along y: layer = z, row = x, bit = y;
//! faces along z: layer = y, row = x, bit = z.
//! A run goes along the rows, at one layer and one bit.

use vstd::prelude::*;
use vstd::arithmetic::div_mod::{
    lemma_div_by_multiple, lemma_fundamental_div_mod, lemma_mod_multiples_basic,
};
use vstd::arithmetic::mul::lemma_mul_is_commutative;
use crate::mesh::{
    block_at, every_quad_is_a_run, every_run_has_a_quad, exposed, is_mesh_of, no_quad_twice, Face,
    MeshQuad, Run,
};

verus! {

/// The cell that `(layer, row, bit)` names in the sweep of `face`.
pub open spec fn slice_cell(face: Face, layer: int, row: int, bit: int) -> (int, int, int) {
    if face.along_x() {
        (bit, row, layer)
    } else if face.along_y() {
        (row, bit, layer)
    } else {
        (row, layer, bit)
    }
}

/// The block in the cell that `(layer, row, bit)` names in the sweep of `face`.
pub open spec fn slice_block(grid: Seq<u32>, n: int, face: Face, layer: int, row: int, bit: int) -> u32 {
    let c = slice_cell(face, layer, row, bit);
    block_at(grid, n, c.0, c.1, c.2)
}

/// The face `face` of the cell that `(layer, row, bit)` names is exposed.
pub open spec fn slice_exposed(grid: Seq<u32>, n: int, face: Face, layer: int, row: int, bit: int) -> bool {
    let c = slice_cell(face, layer, row, bit);
    exposed(grid, n, face, c.0, c.1, c.2)
}

/// The face `face` of the cell that `(layer, row, bit)` names is exposed and shows `block`.
pub open spec fn slice_shows(
    grid: Seq<u32>,
    n: int,
    face: Face,
    block: u32,
    layer: int,
    row: int,
    bit: int,
) -> bool {
    slice_exposed(grid, n, face, layer, row, bit) && slice_block(grid, n, face, layer, row, bit)
        == block
}

/// The run of `len` cells that starts in the cell `(layer, row, bit)` of the sweep of `face`.
pub open spec fn run_of_slice(face: Face, layer: int, row: int, bit: int, len: int, block: u32) -> Run {
    let c = slice_cell(face, layer, row, bit);
    Run { face, x: c.0, y: c.1, z: c.2, len, block }
}

/// The layer of a run.
pub open spec fn run_layer(r: Run) -> int {
    if r.face.along_z() {
        r.y
    } else {
        r.z
    }
}

/// The row in which a run starts.
pub open spec fn run_row(r: Run) -> int {
    if r.face.along_x() {
        r.y
    } else {
        r.x
    }
}

/// The bit of a run.
pub open spec fn run_bit(r: Run) -> int {
    if r.face.along_x() {
        r.x
    } else if r.face.along_y() {
        r.y
    } else {
        r.z
    }
}

/// The place of `(layer, row, bit)` of the face with the given code in the order
/// of the sweep.
pub open spec fn slice_key(code: int, layer: int, row: int, bit: int) -> int {
    ((code * 32 + layer) * 32 + row) * 32 + bit
}

/// The place of the run in the order in which a sweep meets the runs: by its
/// last cell where `by_end` holds, else by its first.
pub open spec fn run_key(r: Run, by_end: bool) -> int {
    slice_key(
        r.face.code(),
        run_layer(r),
        if by_end {
            run_row(r) + r.len - 1
        } else {
            run_row(r)
        },
        run_bit(r),
    )
}

/// How many cells directly before `row` show `block`, going back along the rows.
pub open spec fn back_len(
    grid: Seq<u32>,
    n: int,
    face: Face,
    block: u32,
    layer: int,
    row: int,
    bit: int,
) -> int
    decreases row,
{
    if row > 0 && slice_shows(grid, n, face, block, layer, row - 1, bit) {
        1 + back_len(grid, n, face, block, layer, row - 1, bit)
    } else {
        0
    }
}

/// The length of the run that a sweep has gathered when it reaches `(layer, row, bit)`:
/// the cells before it that show the same block, if the cell itself is exposed.
pub open spec fn pending(grid: Seq<u32>, n: int, face: Face, layer: int, row: int, bit: int) -> int {
    if slice_exposed(grid, n, face, layer, row, bit) {
        back_len(grid, n, face, slice_block(grid, n, face, layer, row, bit), layer, row, bit)
    } else {
        0
    }
}

/// The quads stand in the order in which a sweep meets their runs: face by
/// face in the order of the face codes, each face layer by layer, each layer
/// row by row, each row bit by bit, where a run counts by its last cell if
/// `by_end` holds and else by its first.
pub open spec fn in_sweep_order(quads: Seq<MeshQuad>, s: int, by_end: bool) -> bool {
    forall|i: int, j: int|
        0 <= i < j < quads.len() ==> run_key((#[trigger] quads[i]).run(s), by_end) < run_key(
            (#[trigger] quads[j]).run(s),
            by_end,
        )
}

/// `quads` holds the maximal runs that come before `pos` in the order of the
/// sweep, each of them once and in that order, and nothing else.
pub open spec fn partial_mesh(
    quads: Seq<MeshQuad>,
    grid: Seq<u32>,
    n: int,
    s: int,
    by_end: bool,
    pos: int,
) -> bool {
    &&& forall|i: int|
        0 <= i < quads.len() ==> (#[trigger] quads[i]).on_lattice(s) && quads[i].run(s).is_maximal(
            grid,
            n,
        ) && run_key(quads[i].run(s), by_end) < pos
    &&& forall|r: Run|
        r.is_maximal(grid, n) && run_key(r, by_end) < pos ==> exists|i: int|
            0 <= i < quads.len() && quads[i] == #[trigger] r.quad(s)
    &&& forall|i: int, j: int| 0 <= i < j < quads.len() ==> quads[i] != quads[j]
    &&& in_sweep_order(quads, s, by_end)
}

/// A run is given by where it starts in the sweep.
pub proof fn lemma_run_slice(r: Run)
    ensures
        r == run_of_slice(r.face, run_layer(r), run_row(r), run_bit(r), r.len, r.block),
        forall|k: int| #[trigger]
            r.cell(k) == slice_cell(r.face, run_layer(r), run_row(r) + k, run_bit(r)),
{
}

/// What `shows_at` says in the coordinates of the sweep.
pub proof fn lemma_shows_at(r: Run, grid: Seq<u32>, n: int, k: int)
    ensures
        r.shows_at(grid, n, k) == slice_shows(
            grid,
            n,
            r.face,
            r.block,
            run_layer(r),
            run_row(r) + k,
            run_bit(r),
        ),
{
}

/// A maximal run lies inside the grid.
pub proof fn lemma_run_in_grid(r: Run, grid: Seq<u32>, n: int)
    requires
        r.is_maximal(grid, n),
    ensures
        0 <= run_layer(r) < n,
        0 <= run_bit(r) < n,
        0 <= run_row(r),
        run_row(r) + r.len <= n,
        r.len >= 1,
        r.block != 0,
{
    assert(r.shows_at(grid, n, 0));
    assert(r.shows_at(grid, n, r.len - 1));
}

/// The cells counted by `back_len` show the block, and the one before them does not.
pub proof fn lemma_back_len(
    grid: Seq<u32>,
    n: int,
    face: Face,
    block: u32,
    layer: int,
    row: int,
    bit: int,
)
    requires
        0 <= row,
    ensures
        0 <= back_len(grid, n, face, block, layer, row, bit) <= row,
        forall|j: int|
            1 <= j <= back_len(grid, n, face, block, layer, row, bit) ==> #[trigger] slice_shows(
                grid,
                n,
                face,
                block,
                layer,
                row - j,
                bit,
            ),
        !slice_shows(
            grid,
            n,
            face,
            block,
            layer,
            row - back_len(grid, n, face, block, layer, row, bit) - 1,
            bit,
        ),
    decreases row,
{
    if row > 0 && slice_shows(grid, n, face, block, layer, row - 1, bit) {
        lemma_back_len(grid, n, face, block, layer, row - 1, bit);
        let m = back_len(grid, n, face, block, layer, row - 1, bit);
        assert forall|j: int| 1 <= j <= m + 1 implies #[trigger] slice_shows(
            grid,
            n,
            face,
            block,
            layer,
            row - j,
            bit,
        ) by {
            if j > 1 {
                assert(slice_shows(grid, n, face, block, layer, (row - 1) - (j - 1), bit));
            }
        }
    }
}

/// Behind `k` cells of a run, `back_len` counts `k`.
pub proof fn lemma_back_len_in_run(r: Run, grid: Seq<u32>, n: int, k: int)
    requires
        r.is_maximal(grid, n),
        0 <= k < r.len,
    ensures
        back_len(grid, n, r.face, r.block, run_layer(r), run_row(r) + k, run_bit(r)) == k,
    decreases k,
{
    lemma_run_in_grid(r, grid, n);
    if k == 0 {
        lemma_shows_at(r, grid, n, -1);
    } else {
        lemma_back_len_in_run(r, grid, n, k - 1);
        assert(r.shows_at(grid, n, k - 1));
        lemma_shows_at(r, grid, n, k - 1);
    }
}

/// The cells that a sweep has gathered at `(layer, row, bit)`, with that cell,
/// are a maximal run if the next cell does not go on with it.
pub proof fn lemma_gathered_run(
    grid: Seq<u32>,
    n: int,
    face: Face,
    block: u32,
    layer: int,
    row: int,
    bit: int,
)
    requires
        slice_shows(grid, n, face, block, layer, row, bit),
        !slice_shows(grid, n, face, block, layer, row + 1, bit),
    ensures
        run_of_slice(
            face,
            layer,
            row - back_len(grid, n, face, block, layer, row, bit),
            bit,
            back_len(grid, n, face, block, layer, row, bit) + 1,
            block,
        ).is_maximal(grid, n),
{
    let m = back_len(grid, n, face, block, layer, row, bit);
    lemma_back_len(grid, n, face, block, layer, row, bit);
    let r = run_of_slice(face, layer, row - m, bit, m + 1, block);
    assert forall|k: int| 0 <= k < r.len implies #[trigger] r.shows_at(grid, n, k) by {
        lemma_shows_at(r, grid, n, k);
        if k < m {
            assert(slice_shows(grid, n, face, block, layer, row - (m - k), bit));
        }
    }
    lemma_shows_at(r, grid, n, -1);
    lemma_shows_at(r, grid, n, r.len);
}

/// A quad of a run inside a chunk gives the run back.
pub proof fn lemma_quad_run(r: Run, s: int)
    requires
        s == 1 || s == 2 || s == 4 || s == 8,
        0 <= r.x && 0 <= r.y && 0 <= r.z,
        r.x * s < 256 && r.y * s < 256 && r.z * s < 256,
        1 <= r.len,
        r.len * s < 256,
    ensures
        r.quad(s).run(s) == r,
        r.quad(s).on_lattice(s),
{
    lemma_div_by_multiple(r.x, s);
    lemma_div_by_multiple(r.y, s);
    lemma_div_by_multiple(r.z, s);
    lemma_div_by_multiple(r.len, s);
    lemma_mod_multiples_basic(r.x, s);
    lemma_mod_multiples_basic(r.y, s);
    lemma_mod_multiples_basic(r.z, s);
    lemma_mod_multiples_basic(r.len, s);
    assert(r.len * s >= s) by (nonlinear_arith)
        requires
            r.len >= 1,
            s >= 1,
    ;
}

/// A quad on the lattice is the quad of its run.
pub proof fn lemma_run_quad(q: MeshQuad, s: int)
    requires
        s == 1 || s == 2 || s == 4 || s == 8,
        q.on_lattice(s),
    ensures
        q.run(s).quad(s) == q,
{
    lemma_fundamental_div_mod(q.x as int, s);
    lemma_fundamental_div_mod(q.y as int, s);
    lemma_fundamental_div_mod(q.z as int, s);
    lemma_fundamental_div_mod(q.width as int, s);
    lemma_fundamental_div_mod(q.height as int, s);
    lemma_mul_is_commutative(s, q.x as int / s);
    lemma_mul_is_commutative(s, q.y as int / s);
    lemma_mul_is_commutative(s, q.z as int / s);
    lemma_mul_is_commutative(s, q.width as int / s);
    lemma_mul_is_commutative(s, q.height as int / s);
}

/// Nothing is a partial mesh up to the start of the sweep.
pub proof fn lemma_partial_mesh_empty(grid: Seq<u32>, n: int, s: int, by_end: bool)
    requires
        0 < n <= 32,
    ensures
        partial_mesh(Seq::<MeshQuad>::empty(), grid, n, s, by_end, 0),
{
    assert forall|r: Run| #[trigger] r.is_maximal(grid, n) implies run_key(r, by_end) >= 0 by {
        lemma_run_in_grid(r, grid, n);
    }
}

/// A partial mesh up to the end of the sweep is a mesh.
pub proof fn lemma_partial_mesh_full(quads: Seq<MeshQuad>, grid: Seq<u32>, n: int, s: int, by_end: bool)
    requires
        0 < n <= 32,
        partial_mesh(quads, grid, n, s, by_end, slice_key(6, 0, 0, 0)),
    ensures
        is_mesh_of(quads, grid, n, s),
        in_sweep_order(quads, s, by_end),
{
    assert forall|r: Run| r.is_maximal(grid, n) implies exists|i: int|
        0 <= i < quads.len() && quads[i] == #[trigger] r.quad(s) by {
        lemma_run_in_grid(r, grid, n);
        assert(run_key(r, by_end) < slice_key(6, 0, 0, 0));
    }
    assert(every_quad_is_a_run(quads, grid, n, s));
    assert(every_run_has_a_quad(quads, grid, n, s));
    assert(no_quad_twice(quads));
}

/// A sweep may pass a stretch in which no maximal run has its place.
pub proof fn lemma_partial_mesh_skip(
    quads: Seq<MeshQuad>,
    grid: Seq<u32>,
    n: int,
    s: int,
    by_end: bool,
    from: int,
    to: int,
)
    requires
        partial_mesh(quads, grid, n, s, by_end, from),
        from <= to,
        forall|r: Run| #[trigger]
            r.is_maximal(grid, n) ==> !(from <= run_key(r, by_end) < to),
    ensures
        partial_mesh(quads, grid, n, s, by_end, to),
{
}

/// A sweep may pass a stretch in which one maximal run has its place, if it
/// adds the quad of that run.
pub proof fn lemma_partial_mesh_push(
    quads: Seq<MeshQuad>,
    grid: Seq<u32>,
    n: int,
    s: int,
    by_end: bool,
    from: int,
    to: int,
    run: Run,
)
    requires
        partial_mesh(quads, grid, n, s, by_end, from),
        run.is_maximal(grid, n),
        run.quad(s).run(s) == run,
        run.quad(s).on_lattice(s),
        from <= run_key(run, by_end) < to,
        forall|r: Run| #[trigger]
            r.is_maximal(grid, n) && from <= run_key(r, by_end) < to ==> r == run,
    ensures
        partial_mesh(quads.push(run.quad(s)), grid, n, s, by_end, to),
{
    let q = run.quad(s);
    let next = quads.push(q);
    assert forall|i: int| 0 <= i < next.len() implies (#[trigger] next[i]).on_lattice(s)
        && next[i].run(s).is_maximal(grid, n) && run_key(next[i].run(s), by_end) < to by {
        if i < quads.len() {
            assert(next[i] == quads[i]);
        }
    }
    assert forall|r: Run| r.is_maximal(grid, n) && run_key(r, by_end) < to implies exists|i: int|
        0 <= i < next.len() && next[i] == #[trigger] r.quad(s) by {
        if run_key(r, by_end) < from {
            let i = choose|i: int| 0 <= i < quads.len() && quads[i] == r.quad(s);
            assert(next[i] == r.quad(s));
        } else {
            assert(r == run);
            assert(next[quads.len() as int] == r.quad(s));
        }
    }
    assert forall|i: int, j: int| 0 <= i < j < next.len() implies run_key(
        (#[trigger] next[i]).run(s),
        by_end,
    ) < run_key((#[trigger] next[j]).run(s), by_end) by {
        assert(next[i] == quads[i]);
        if j < quads.len() {
            assert(next[j] == quads[j]);
        }
    }
    assert forall|i: int, j: int| 0 <= i < j < next.len() implies next[i] != next[j] by {
        if j == quads.len() {
            assert(next[i] == quads[i]);
            if next[i] == next[j] {
                assert(quads[i].run(s) == run);
            }
        } else {
            assert(next[i] == quads[i]);
            assert(next[j] == quads[j]);
        }
    }
}

/// Of two cells that follow each other along the bits, at most one is exposed.
pub proof fn lemma_no_neighbours(grid: Seq<u32>, n: int, face: Face, layer: int, row: int, b: int)
    requires
        slice_exposed(grid, n, face, layer, row, b),
    ensures
        !slice_exposed(grid, n, face, layer, row, b + 1),
{
}

/// Behind `h` cells that show the block, `back_len` counts `h` more.
pub proof fn lemma_back_len_extend(
    grid: Seq<u32>,
    n: int,
    face: Face,
    block: u32,
    layer: int,
    row: int,
    bit: int,
    h: int,
)
    requires
        0 <= row,
        0 <= h,
        forall|k: int| 0 <= k < h ==> #[trigger] slice_shows(grid, n, face, block, layer, row + k, bit),
    ensures
        back_len(grid, n, face, block, layer, row + h, bit) == h + back_len(
            grid,
            n,
            face,
            block,
            layer,
            row,
            bit,
        ),
    decreases h,
{
    if h > 0 {
        lemma_back_len_extend(grid, n, face, block, layer, row, bit, h - 1);
        assert(slice_shows(grid, n, face, block, layer, row + (h - 1), bit));
    }
}

/// The row in which the run through the cell `(layer, row, bit)` starts, if the
/// cell is exposed.
pub open spec fn run_start(grid: Seq<u32>, n: int, face: Face, layer: int, row: int, bit: int) -> int {
    row - pending(grid, n, face, layer, row, bit)
}

/// A run starts in the cell `(layer, row, bit)`.
pub open spec fn starts_run(grid: Seq<u32>, n: int, face: Face, layer: int, row: int, bit: int) -> bool {
    slice_exposed(grid, n, face, layer, row, bit) && run_start(grid, n, face, layer, row, bit)
        == row
}

/// The cell `(layer, r, c)` is exposed and its run starts before `(row, col)`
/// in the order of a sweep that goes row by row.
pub open spec fn swept(
    grid: Seq<u32>,
    n: int,
    face: Face,
    layer: int,
    r: int,
    c: int,
    row: int,
    col: int,
) -> bool {
    slice_exposed(grid, n, face, layer, r, c) && (run_start(grid, n, face, layer, r, c) < row || (
    run_start(grid, n, face, layer, r, c) == row && c < col))
}

/// The cells from the start of a run up to an exposed cell of it show its block.
pub proof fn lemma_start_cell(grid: Seq<u32>, n: int, face: Face, layer: int, r: int, c: int)
    requires
        slice_exposed(grid, n, face, layer, r, c),
        0 <= r,
    ensures
        0 <= run_start(grid, n, face, layer, r, c) <= r,
        forall|k: int|
            run_start(grid, n, face, layer, r, c) <= k <= r ==> #[trigger] slice_shows(
                grid,
                n,
                face,
                slice_block(grid, n, face, layer, r, c),
                layer,
                k,
                c,
            ),
        starts_run(grid, n, face, layer, run_start(grid, n, face, layer, r, c), c),
{
    let b = slice_block(grid, n, face, layer, r, c);
    let m = back_len(grid, n, face, b, layer, r, c);
    lemma_back_len(grid, n, face, b, layer, r, c);
    assert forall|k: int| r - m <= k <= r implies #[trigger] slice_shows(
        grid,
        n,
        face,
        b,
        layer,
        k,
        c,
    ) by {
        if k < r {
            assert(slice_shows(grid, n, face, b, layer, r - (r - k), c));
        }
    }
    assert(slice_shows(grid, n, face, b, layer, r - m, c));
    assert(back_len(grid, n, face, b, layer, r - m, c) == 0);
}

/// The run that starts in `(layer, row, col)` and is `h` cells long, with the
/// block that the first cell shows.
pub open spec fn is_run_from(
    grid: Seq<u32>,
    n: int,
    face: Face,
    block: u32,
    layer: int,
    row: int,
    col: int,
    h: int,
) -> bool {
    &&& 0 <= row
    &&& 1 <= h
    &&& starts_run(grid, n, face, layer, row, col)
    &&& forall|k: int| 0 <= k < h ==> #[trigger] slice_shows(grid, n, face, block, layer, row + k, col)
    &&& !slice_shows(grid, n, face, block, layer, row + h, col)
}

/// A sweep that passes a cell in which no run starts has swept the same cells as before.
pub proof fn lemma_swept_skip(
    grid: Seq<u32>,
    n: int,
    face: Face,
    layer: int,
    row: int,
    col: int,
    r: int,
    c: int,
)
    requires
        0 <= r,
        0 <= row,
        !starts_run(grid, n, face, layer, row, col),
    ensures
        swept(grid, n, face, layer, r, c, row, col + 1) == swept(grid, n, face, layer, r, c, row, col),
{
    if slice_exposed(grid, n, face, layer, r, c) {
        lemma_start_cell(grid, n, face, layer, r, c);
    }
}

/// A sweep that passes the start of a run has swept the cells of that run besides.
pub proof fn lemma_swept_emit(
    grid: Seq<u32>,
    n: int,
    face: Face,
    block: u32,
    layer: int,
    row: int,
    col: int,
    h: int,
    r: int,
    c: int,
)
    requires
        0 <= r,
        is_run_from(grid, n, face, block, layer, row, col, h),
    ensures
        swept(grid, n, face, layer, r, c, row, col + 1) == (swept(
            grid,
            n,
            face,
            layer,
            r,
            c,
            row,
            col,
        ) || (c == col && row <= r < row + h)),
        c == col && row <= r < row + h ==> !swept(grid, n, face, layer, r, c, row, col),
{
    assert(slice_shows(grid, n, face, block, layer, row + 0, col));
    lemma_back_len(grid, n, face, block, layer, row, col);
    if c == col && row <= r < row + h {
        assert(slice_shows(grid, n, face, block, layer, row + (r - row), col));
        assert forall|k: int| 0 <= k < r - row implies #[trigger] slice_shows(
            grid,
            n,
            face,
            block,
            layer,
            row + k,
            col,
        ) by {}
        lemma_back_len_extend(grid, n, face, block, layer, row, col, r - row);
    } else if c == col && slice_exposed(grid, n, face, layer, r, c) && run_start(
        grid,
        n,
        face,
        layer,
        r,
        c,
    ) == row {
        lemma_start_cell(grid, n, face, layer, r, c);
        let b = slice_block(grid, n, face, layer, r, c);
        assert(slice_shows(grid, n, face, b, layer, row, c));
        if r >= row + h {
            assert(slice_shows(grid, n, face, b, layer, row + h, c));
        }
    }
}

/// A maximal run whose first cell has its place in one row of the sweep, between
/// the bits `lo` and `hi`, starts in that row.
pub proof fn lemma_key_at_start(
    r: Run,
    grid: Seq<u32>,
    n: int,
    code: int,
    layer: int,
    row: int,
    lo: int,
    hi: int,
)
    requires
        0 < n <= 32,
        r.is_maximal(grid, n),
        0 <= layer < 32,
        0 <= row < 32,
        0 <= lo <= hi <= 32,
        slice_key(code, layer, row, lo) <= run_key(r, false) < slice_key(code, layer, row, hi),
    ensures
        r.face.code() == code,
        run_layer(r) == layer,
        run_row(r) == row,
        lo <= run_bit(r) < hi,
        starts_run(grid, n, r.face, layer, row, run_bit(r)),
        slice_block(grid, n, r.face, layer, row, run_bit(r)) == r.block,
{
    lemma_run_in_grid(r, grid, n);
    assert(r.shows_at(grid, n, 0));
    lemma_shows_at(r, grid, n, 0);
    lemma_shows_at(r, grid, n, -1);
    lemma_back_len_in_run(r, grid, n, 0);
}

/// A sweep by first cells may pass a cell in which no run starts.
pub proof fn lemma_sweep_skip(
    quads: Seq<MeshQuad>,
    grid: Seq<u32>,
    n: int,
    s: int,
    face: Face,
    layer: int,
    row: int,
    col: int,
)
    requires
        0 < n <= 32,
        0 <= layer < 32,
        0 <= row < 32,
        0 <= col < 32,
        partial_mesh(quads, grid, n, s, false, slice_key(face.code(), layer, row, col)),
        !starts_run(grid, n, face, layer, row, col),
    ensures
        partial_mesh(quads, grid, n, s, false, slice_key(face.code(), layer, row, col + 1)),
{
    let code = face.code();
    assert forall|r: Run| #[trigger] r.is_maximal(grid, n) implies !(slice_key(
        code,
        layer,
        row,
        col,
    ) <= run_key(r, false) < slice_key(code, layer, row, col + 1)) by {
        if slice_key(code, layer, row, col) <= run_key(r, false) < slice_key(
            code,
            layer,
            row,
            col + 1,
        ) {
            lemma_key_at_start(r, grid, n, code, layer, row, col, col + 1);
        }
    }
    lemma_partial_mesh_skip(
        quads,
        grid,
        n,
        s,
        false,
        slice_key(code, layer, row, col),
        slice_key(code, layer, row, col + 1),
    );
}

/// A sweep by first cells may pass the start of a run if it adds the run's quad.
pub proof fn lemma_sweep_emit(
    quads: Seq<MeshQuad>,
    grid: Seq<u32>,
    n: int,
    s: int,
    face: Face,
    block: u32,
    layer: int,
    row: int,
    col: int,
    h: int,
)
    requires
        s == 1 || s == 2 || s == 4 || s == 8,
        0 < n,
        n * s <= 32,
        0 <= layer < 32,
        0 <= row < 32,
        0 <= col < 32,
        partial_mesh(quads, grid, n, s, false, slice_key(face.code(), layer, row, col)),
        is_run_from(grid, n, face, block, layer, row, col, h),
    ensures
        partial_mesh(
            quads.push(run_of_slice(face, layer, row, col, h, block).quad(s)),
            grid,
            n,
            s,
            false,
            slice_key(face.code(), layer, row, col + 1),
        ),
        run_of_slice(face, layer, row, col, h, block).is_maximal(grid, n),
{
    let code = face.code();
    let run = run_of_slice(face, layer, row, col, h, block);
    assert(slice_shows(grid, n, face, block, layer, row + 0, col));
    lemma_back_len(grid, n, face, block, layer, row, col);
    assert forall|k: int| 0 <= k < run.len implies #[trigger] run.shows_at(grid, n, k) by {
        lemma_shows_at(run, grid, n, k);
        assert(slice_shows(grid, n, face, block, layer, row + k, col));
    }
    lemma_shows_at(run, grid, n, -1);
    lemma_shows_at(run, grid, n, h);
    assert(run.is_maximal(grid, n));
    lemma_run_in_grid(run, grid, n);
    assert(run.x * s < 256 && run.y * s < 256 && run.z * s < 256 && run.len * s < 256)
        by (nonlinear_arith)
        requires
            0 <= run.x < n,
            0 <= run.y < n,
            0 <= run.z < n,
            1 <= run.len <= n,
            n * s <= 32,
            s >= 1,
    ;
    lemma_quad_run(run, s);
    assert forall|r: Run| #[trigger]
        r.is_maximal(grid, n) && slice_key(code, layer, row, col) <= run_key(r, false) < slice_key(
            code,
            layer,
            row,
            col + 1,
        ) implies r == run by {
        lemma_key_at_start(r, grid, n, code, layer, row, col, col + 1);
        lemma_run_slice(r);
        assert(r.block == block);
        if r.len < h {
            lemma_shows_at(r, grid, n, r.len);
            assert(slice_shows(grid, n, face, block, layer, row + r.len, col));
        }
        if r.len > h {
            assert(r.shows_at(grid, n, h));
            lemma_shows_at(r, grid, n, h);
        }
    }
    lemma_partial_mesh_push(
        quads,
        grid,
        n,
        s,
        false,
        slice_key(code, layer, row, col),
        slice_key(code, layer, row, col + 1),
        run,
    );
}

/// A sweep of a grid of edge `n` may go from the end of a row, a layer or a
/// face to the start of the next one: no run has its place in between.
pub proof fn lemma_sweep_wrap(
    quads: Seq<MeshQuad>,
    grid: Seq<u32>,
    n: int,
    s: int,
    by_end: bool,
    code: int,
    layer: int,
    row: int,
)
    requires
        0 < n <= 32,
        0 <= code,
        0 <= layer <= n,
        0 <= row <= n,
        layer == n ==> row == 0,
        partial_mesh(
            quads,
            grid,
            n,
            s,
            by_end,
            if layer == n {
                slice_key(code, n, 0, 0)
            } else if row == n {
                slice_key(code, layer, n, 0)
            } else {
                slice_key(code, layer, row, n)
            },
        ),
    ensures
        partial_mesh(
            quads,
            grid,
            n,
            s,
            by_end,
            if layer == n {
                slice_key(code + 1, 0, 0, 0)
            } else if row == n {
                slice_key(code, layer + 1, 0, 0)
            } else {
                slice_key(code, layer, row + 1, 0)
            },
        ),
{
    let from = if layer == n {
        slice_key(code, n, 0, 0)
    } else if row == n {
        slice_key(code, layer, n, 0)
    } else {
        slice_key(code, layer, row, n)
    };
    let to = if layer == n {
        slice_key(code + 1, 0, 0, 0)
    } else if row == n {
        slice_key(code, layer + 1, 0, 0)
    } else {
        slice_key(code, layer, row + 1, 0)
    };
    assert(from <= to);
    assert forall|r: Run| #[trigger] r.is_maximal(grid, n) implies !(from <= run_key(r, by_end)
        < to) by {
        lemma_run_in_grid(r, grid, n);
        let rc = r.face.code();
        let rl = run_layer(r);
        let rr = if by_end {
            run_row(r) + r.len - 1
        } else {
            run_row(r)
        };
        let rb = run_bit(r);
        lemma_in_or_out(n, code, layer, row, rc, rl, rr, rb);
    }
    lemma_partial_mesh_skip(quads, grid, n, s, by_end, from, to);
}

/// A place inside a grid of edge `n` does not lie between the end of a row, a
/// layer or a face and the start of the next one.
proof fn lemma_in_or_out(n: int, code: int, layer: int, row: int, rc: int, rl: int, rr: int, rb: int)
    requires
        0 < n <= 32,
        0 <= layer <= n,
        0 <= row <= n,
        layer == n ==> row == 0,
        0 <= rl < n,
        0 <= rr < n,
        0 <= rb < n,
    ensures
        !((if layer == n {
            slice_key(code, n, 0, 0)
        } else if row == n {
            slice_key(code, layer, n, 0)
        } else {
            slice_key(code, layer, row, n)
        }) <= slice_key(rc, rl, rr, rb) < (if layer == n {
            slice_key(code + 1, 0, 0, 0)
        } else if row == n {
            slice_key(code, layer + 1, 0, 0)
        } else {
            slice_key(code, layer, row + 1, 0)
        })),
{
    if rc < code {
    } else if rc > code {
    } else if layer == n {
    } else if rl < layer {
    } else if rl > layer {
    } else if row == n {
    } else if rr < row {
    } else if rr > row {
    } else {
    }
}

/// Where the cell `(x, y, z)` of a grid of edge `n` is stored.
pub proof fn lemma_cell_index(n: int, x: int, y: int, z: int)
    requires
        0 <= x < n,
        0 <= y < n,
        0 <= z < n,
    ensures
        0 <= z * n * n + y * n + x < n * n * n,
        z * (n * n) + y * n + x == z * n * n + y * n + x,
        0 <= y * n + x < n * n,
        0 <= z * n < n * n,
        0 <= y * n,
        0 <= z * (n * n),
{
    assert(0 <= z * n * n + y * n + x < n * n * n && z * (n * n) == z * n * n && 0 <= y * n + x < n
        * n && 0 <= z * n < n * n && 0 <= y * n && 0 <= z * (n * n)) by (nonlinear_arith)
        requires
            0 <= x < n,
            0 <= y < n,
            0 <= z < n,
    ;
}

/// Two places in a square of edge `n` that are stored at one index are one place.
pub proof fn lemma_flat_index(n: int, r: int, c: int, r2: int, c2: int)
    requires
        0 <= r < n,
        0 <= c < n,
        0 <= r2 < n,
        0 <= c2 < n,
        r * n + c == r2 * n + c2,
    ensures
        r == r2,
        c == c2,
{
    assert(r == r2) by (nonlinear_arith)
        requires
            0 <= r < n,
            0 <= c < n,
            0 <= r2 < n,
            0 <= c2 < n,
            r * n + c == r2 * n + c2,
    ;
}

} // verus!
