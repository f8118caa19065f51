//! Block light and sky light of a chunk.
//!
//! Light has the levels 0 to 15. It spreads from cell to cell through the six
//! sides and loses one level with each step; sky light that goes straight down
//! loses nothing. Opaque cells hold no light and pass none on.

use std::collections::VecDeque;
use vstd::prelude::*;
pub use crate::mesh::CHUNK_SIZE;

verus! {

/// One light level for each cell of a chunk, as `[x][y][z]`.
pub type LightGrid = [[[u8; CHUNK_SIZE]; CHUNK_SIZE]; CHUNK_SIZE];

/// Which cells of a chunk are opaque, as `[x][y][z]`.
pub type OpacityGrid = [[[bool; CHUNK_SIZE]; CHUNK_SIZE]; CHUNK_SIZE];

/// Whether `(x, y, z)` is a cell of the chunk.
pub open spec fn in_chunk(x: int, y: int, z: int) -> bool {
    0 <= x < 32 && 0 <= y < 32 && 0 <= z < 32
}

/// The light level of the cell `(x, y, z)`: 0 outside the chunk.
pub open spec fn light_at(grid: LightGrid, x: int, y: int, z: int) -> int {
    if in_chunk(x, y, z) {
        grid[x][y][z] as int
    } else {
        0
    }
}

/// Whether the cell `(x, y, z)` is opaque: outside the chunk nothing is.
pub open spec fn opaque_at(opaque: OpacityGrid, x: int, y: int, z: int) -> bool {
    in_chunk(x, y, z) && opaque[x][y][z]
}

/// Whether light can be in the cell `(x, y, z)`: it lies in the chunk and is
/// not opaque.
pub open spec fn is_open(opaque: OpacityGrid, x: int, y: int, z: int) -> bool {
    in_chunk(x, y, z) && !opaque[x][y][z]
}

/// Light of the level `v` reaches the cell `(x, y, z)`: the cell is open, and
/// its own light is at least `v` or light of one level more reaches one of its
/// six neighbours. Where `falls` holds, light comes down from the cell above
/// without loss.
pub open spec fn light_reaches(
    light: LightGrid,
    opaque: OpacityGrid,
    x: int,
    y: int,
    z: int,
    v: int,
    falls: bool,
) -> bool
    decreases 256 - v, 32 - y,
{
    if !(is_open(opaque, x, y, z) && 1 <= v <= 255) {
        false
    } else {
        ||| light_at(light, x, y, z) >= v
        ||| light_reaches(light, opaque, x + 1, y, z, v + 1, falls)
        ||| light_reaches(light, opaque, x - 1, y, z, v + 1, falls)
        ||| light_reaches(
            light,
            opaque,
            x,
            y + 1,
            z,
            if falls {
                v
            } else {
                v + 1
            },
            falls,
        )
        ||| light_reaches(light, opaque, x, y - 1, z, v + 1, falls)
        ||| light_reaches(light, opaque, x, y, z + 1, v + 1, falls)
        ||| light_reaches(light, opaque, x, y, z - 1, v + 1, falls)
    }
}

/// The highest level up to `v` whose light reaches the cell `(x, y, z)`, 0 if
/// none does.
pub open spec fn brightest(
    light: LightGrid,
    opaque: OpacityGrid,
    x: int,
    y: int,
    z: int,
    v: int,
    falls: bool,
) -> int
    decreases v,
{
    if v <= 0 {
        0
    } else if light_reaches(light, opaque, x, y, z, v, falls) {
        v
    } else {
        brightest(light, opaque, x, y, z, v - 1, falls)
    }
}

/// The block light of the cell `(x, y, z)` once the light of `light` has spread.
pub open spec fn block_light_spread(light: LightGrid, opaque: OpacityGrid, x: int, y: int, z: int) -> int {
    brightest(light, opaque, x, y, z, 255, false)
}

/// The sky light of the cell `(x, y, z)` once the light of `light` has spread.
pub open spec fn sky_light_spread(light: LightGrid, opaque: OpacityGrid, x: int, y: int, z: int) -> int {
    brightest(light, opaque, x, y, z, 255, true)
}

/// The cell `(x, y, z)` is not open or holds at least the level `v`.
pub open spec fn relaxed(res: LightGrid, opaque: OpacityGrid, x: int, y: int, z: int, v: int) -> bool {
    !is_open(opaque, x, y, z) || light_at(res, x, y, z) >= v
}

/// The six neighbours of the cell `(x, y, z)` hold what its light gives them.
pub open spec fn settled(res: LightGrid, opaque: OpacityGrid, x: int, y: int, z: int, falls: bool) -> bool {
    let v = light_at(res, x, y, z);
    &&& relaxed(res, opaque, x + 1, y, z, v - 1)
    &&& relaxed(res, opaque, x - 1, y, z, v - 1)
    &&& relaxed(res, opaque, x, y + 1, z, v - 1)
    &&& relaxed(res, opaque, x, y - 1, z, if falls {
        v
    } else {
        v - 1
    })
    &&& relaxed(res, opaque, x, y, z + 1, v - 1)
    &&& relaxed(res, opaque, x, y, z - 1, v - 1)
}

/// The sum of the light levels of the first `k` cells, counted along z first,
/// then y, then x.
pub open spec fn light_sum(res: LightGrid, k: int) -> int
    decreases k,
{
    if k <= 0 {
        0
    } else {
        light_sum(res, k - 1) + res[(k - 1) / 1024][((k - 1) / 32) % 32][(k - 1) % 32]
    }
}

/// `after` is `before` with the cell `(x, y, z)` raised to `v`.
pub open spec fn raised(before: LightGrid, after: LightGrid, x: int, y: int, z: int, v: int) -> bool {
    &&& in_chunk(x, y, z)
    &&& light_at(before, x, y, z) < v
    &&& light_at(after, x, y, z) == v
    &&& forall|a: int, b: int, c: int|
        in_chunk(a, b, c) && !(a == x && b == y && c == z) ==> #[trigger] light_at(after, a, b, c)
            == light_at(before, a, b, c)
}

/// Raising one cell raises the sum by as much.
proof fn lemma_light_sum_raised(before: LightGrid, after: LightGrid, x: int, y: int, z: int, v: int, k: int)
    requires
        raised(before, after, x, y, z, v),
        0 <= k <= 32768,
    ensures
        light_sum(after, k) == light_sum(before, k) + if x * 1024 + y * 32 + z < k {
            v - light_at(before, x, y, z)
        } else {
            0
        },
        0 <= light_sum(before, k) <= 255 * k,
    decreases k,
{
    if k > 0 {
        lemma_light_sum_raised(before, after, x, y, z, v, k - 1);
        let i = k - 1;
        let a = i / 1024;
        let b = (i / 32) % 32;
        let c = i % 32;
        assert(in_chunk(a, b, c));
        assert(light_at(before, a, b, c) == before[a][b][c]);
        assert(light_at(after, a, b, c) == after[a][b][c]);
        if i == x * 1024 + y * 32 + z {
            assert(a == x && b == y && c == z);
        } else {
            assert(!(a == x && b == y && c == z));
        }
    }
}

/// What the spreading of light keeps true of the light found so far, `res`,
/// and the cells that wait to pass their light on, `queue`. The cell
/// `(px, py, pz)` is being worked on and need not be settled.
#[verifier::opaque]
pub open spec fn spreading(
    light: LightGrid,
    opaque: OpacityGrid,
    res: LightGrid,
    queue: Seq<(usize, usize, usize)>,
    falls: bool,
    px: int,
    py: int,
    pz: int,
) -> bool {
    &&& forall|i: int|
        0 <= i < queue.len() ==> in_chunk(
            (#[trigger] queue[i]).0 as int,
            queue[i].1 as int,
            queue[i].2 as int,
        )
    &&& forall|x: int, y: int, z: int|
        in_chunk(x, y, z) ==> {
            let v = #[trigger] light_at(res, x, y, z);
            &&& v <= 15
            &&& v == 0 || light_reaches(light, opaque, x, y, z, v, falls)
            &&& is_open(opaque, x, y, z) ==> v >= light_at(light, x, y, z)
        }
    &&& forall|x: int, y: int, z: int|
        in_chunk(x, y, z) ==> (x == px && y == py && z == pz) || #[trigger] settled(
            res,
            opaque,
            x,
            y,
            z,
            falls,
        ) || queue.contains((x as usize, y as usize, z as usize))
}

/// How much work the spreading may still have to do.
pub open spec fn work_left(res: LightGrid, queue: Seq<(usize, usize, usize)>) -> int {
    2 * (255 * 32768 - light_sum(res, 32768)) + queue.len()
}

/// Light levels and opacity of the cells of one chunk.
pub struct LightingEngine {
    block_light: LightGrid,
    sky_light: LightGrid,
    opaque: OpacityGrid,
}

/// Gives the cell `(nx, ny, nz)` the level `new_light` if the cell lies in the
/// chunk, is not opaque and holds less, and then lets it wait in `queue`.
fn relax(
    result: &mut LightGrid,
    queue: &mut VecDeque<(usize, usize, usize)>,
    opaque: &OpacityGrid,
    nx: usize,
    ny: usize,
    nz: usize,
    new_light: u8,
    Ghost(light): Ghost<LightGrid>,
    Ghost(falls): Ghost<bool>,
    Ghost(p): Ghost<(int, int, int)>,
)
    requires
        spreading(light, *opaque, *old(result), old(queue)@, falls, p.0, p.1, p.2),
        new_light <= 15,
        !(nx == p.0 && ny == p.1 && nz == p.2),
        new_light == 0 || !is_open(*opaque, nx as int, ny as int, nz as int) || light_reaches(
            light,
            *opaque,
            nx as int,
            ny as int,
            nz as int,
            new_light as int,
            falls,
        ),
    ensures
        spreading(light, *opaque, *final(result), final(queue)@, falls, p.0, p.1, p.2),
        relaxed(*final(result), *opaque, nx as int, ny as int, nz as int, new_light as int),
        forall|x: int, y: int, z: int|
            in_chunk(x, y, z) ==> #[trigger] light_at(*final(result), x, y, z) >= light_at(
                *old(result),
                x,
                y,
                z,
            ),
        light_at(*final(result), p.0, p.1, p.2) == light_at(*old(result), p.0, p.1, p.2),
        work_left(*final(result), final(queue)@) <= work_left(*old(result), old(queue)@),
{
    proof {
        reveal(spreading);
    }
    if nx >= CHUNK_SIZE || ny >= CHUNK_SIZE || nz >= CHUNK_SIZE {
        return ;
    }
    if new_light == 0 {
        return ;
    }
    if opaque[nx][ny][nz] {
        return ;
    }
    if result[nx][ny][nz] < new_light {
        let ghost before = *result;
        let ghost waiting = queue@;
        result[nx][ny][nz] = new_light;
        queue.push_back((nx, ny, nz));
        proof {
            let after = *result;
            assert(raised(before, after, nx as int, ny as int, nz as int, new_light as int));
            lemma_light_sum_raised(
                before,
                after,
                nx as int,
                ny as int,
                nz as int,
                new_light as int,
                32768,
            );
            let q = (nx, ny, nz);
            assert(queue@[waiting.len() as int] == q);
            assert forall|i: int| 0 <= i < queue@.len() implies in_chunk(
                (#[trigger] queue@[i]).0 as int,
                queue@[i].1 as int,
                queue@[i].2 as int,
            ) by {
                if i < waiting.len() {
                    assert(queue@[i] == waiting[i]);
                }
            }
            assert forall|x: int, y: int, z: int| in_chunk(x, y, z) implies (x == p.0 && y == p.1
                && z == p.2) || #[trigger] settled(after, *opaque, x, y, z, falls)
                || queue@.contains((x as usize, y as usize, z as usize)) by {
                if x == nx && y == ny && z == nz {
                    assert(queue@.contains(q));
                } else if x == p.0 && y == p.1 && z == p.2 {
                } else if settled(before, *opaque, x, y, z, falls) {
                    assert(light_at(after, x, y, z) == light_at(before, x, y, z));
                    lemma_raised_neighbours(before, after, nx as int, ny as int, nz as int, new_light as int, x, y, z);
                } else {
                    let c = (x as usize, y as usize, z as usize);
                    assert(waiting.contains(c));
                    let i = choose|i: int| 0 <= i < waiting.len() && waiting[i] == c;
                    assert(queue@[i] == c);
                }
            }
            assert forall|x: int, y: int, z: int| in_chunk(x, y, z) implies {
                let v = #[trigger] light_at(after, x, y, z);
                &&& v <= 15
                &&& v == 0 || light_reaches(light, *opaque, x, y, z, v, falls)
                &&& is_open(*opaque, x, y, z) ==> v >= light_at(light, x, y, z)
            } by {
                if !(x == nx && y == ny && z == nz) {
                    assert(light_at(after, x, y, z) == light_at(before, x, y, z));
                }
            }
        }
    }
}

/// Raising one cell leaves the light of the six neighbours of any cell at
/// least as high as it was.
proof fn lemma_raised_neighbours(
    before: LightGrid,
    after: LightGrid,
    nx: int,
    ny: int,
    nz: int,
    v: int,
    x: int,
    y: int,
    z: int,
)
    requires
        raised(before, after, nx, ny, nz, v),
    ensures
        light_at(after, x + 1, y, z) >= light_at(before, x + 1, y, z),
        light_at(after, x - 1, y, z) >= light_at(before, x - 1, y, z),
        light_at(after, x, y + 1, z) >= light_at(before, x, y + 1, z),
        light_at(after, x, y - 1, z) >= light_at(before, x, y - 1, z),
        light_at(after, x, y, z + 1) >= light_at(before, x, y, z + 1),
        light_at(after, x, y, z - 1) >= light_at(before, x, y, z - 1),
{
    lemma_raised_one(before, after, nx, ny, nz, v, x + 1, y, z);
    lemma_raised_one(before, after, nx, ny, nz, v, x - 1, y, z);
    lemma_raised_one(before, after, nx, ny, nz, v, x, y + 1, z);
    lemma_raised_one(before, after, nx, ny, nz, v, x, y - 1, z);
    lemma_raised_one(before, after, nx, ny, nz, v, x, y, z + 1);
    lemma_raised_one(before, after, nx, ny, nz, v, x, y, z - 1);
}

/// Raising one cell leaves no cell darker.
proof fn lemma_raised_one(
    before: LightGrid,
    after: LightGrid,
    nx: int,
    ny: int,
    nz: int,
    v: int,
    x: int,
    y: int,
    z: int,
)
    requires
        raised(before, after, nx, ny, nz, v),
    ensures
        light_at(after, x, y, z) >= light_at(before, x, y, z),
{
    if in_chunk(x, y, z) && !(x == nx && y == ny && z == nz) {
        assert(light_at(after, x, y, z) == light_at(before, x, y, z));
    }
}

/// Where every cell is settled, the light found is at least every level that
/// reaches the cell.
proof fn lemma_reach_bound(
    light: LightGrid,
    opaque: OpacityGrid,
    res: LightGrid,
    falls: bool,
    x: int,
    y: int,
    z: int,
    v: int,
)
    requires
        forall|a: int, b: int, c: int|
            in_chunk(a, b, c) ==> #[trigger] settled(res, opaque, a, b, c, falls),
        forall|a: int, b: int, c: int|
            is_open(opaque, a, b, c) ==> #[trigger] light_at(res, a, b, c) >= light_at(
                light,
                a,
                b,
                c,
            ),
        light_reaches(light, opaque, x, y, z, v, falls),
    ensures
        light_at(res, x, y, z) >= v,
    decreases 256 - v, 32 - y,
{
    if light_at(light, x, y, z) >= v {
        assert(light_at(res, x, y, z) >= light_at(light, x, y, z));
    } else if light_reaches(light, opaque, x + 1, y, z, v + 1, falls) {
        lemma_reach_bound(light, opaque, res, falls, x + 1, y, z, v + 1);
        assert(settled(res, opaque, x + 1, y, z, falls));
    } else if light_reaches(light, opaque, x - 1, y, z, v + 1, falls) {
        lemma_reach_bound(light, opaque, res, falls, x - 1, y, z, v + 1);
        assert(settled(res, opaque, x - 1, y, z, falls));
    } else if light_reaches(light, opaque, x, y + 1, z, if falls {
        v
    } else {
        v + 1
    }, falls) {
        lemma_reach_bound(light, opaque, res, falls, x, y + 1, z, if falls {
            v
        } else {
            v + 1
        });
        assert(settled(res, opaque, x, y + 1, z, falls));
    } else if light_reaches(light, opaque, x, y - 1, z, v + 1, falls) {
        lemma_reach_bound(light, opaque, res, falls, x, y - 1, z, v + 1);
        assert(settled(res, opaque, x, y - 1, z, falls));
    } else if light_reaches(light, opaque, x, y, z + 1, v + 1, falls) {
        lemma_reach_bound(light, opaque, res, falls, x, y, z + 1, v + 1);
        assert(settled(res, opaque, x, y, z + 1, falls));
    } else {
        lemma_reach_bound(light, opaque, res, falls, x, y, z - 1, v + 1);
        assert(settled(res, opaque, x, y, z - 1, falls));
    }
}

/// A level that reaches the cell and is not below any level that reaches it
/// is the brightest one.
proof fn lemma_brightest_is(
    light: LightGrid,
    opaque: OpacityGrid,
    falls: bool,
    x: int,
    y: int,
    z: int,
    r: int,
    v: int,
)
    requires
        0 <= r <= v,
        r == 0 || light_reaches(light, opaque, x, y, z, r, falls),
        forall|w: int| #[trigger] light_reaches(light, opaque, x, y, z, w, falls) ==> w <= r,
    ensures
        brightest(light, opaque, x, y, z, v, falls) == r,
    decreases v,
{
    if v > r {
        lemma_brightest_is(light, opaque, falls, x, y, z, r, v - 1);
    }
}

/// When no cell waits any more, the light found is the light spread.
proof fn lemma_spreading_done(light: LightGrid, opaque: OpacityGrid, res: LightGrid, falls: bool)
    requires
        spreading(light, opaque, res, Seq::<(usize, usize, usize)>::empty(), falls, -1, -1, -1),
    ensures
        forall|x: int, y: int, z: int|
            in_chunk(x, y, z) ==> #[trigger] light_at(res, x, y, z) == brightest(
                light,
                opaque,
                x,
                y,
                z,
                255,
                falls,
            ),
{
    reveal(spreading);
    let none = Seq::<(usize, usize, usize)>::empty();
    assert forall|a: int, b: int, c: int| in_chunk(a, b, c) implies #[trigger] settled(
        res,
        opaque,
        a,
        b,
        c,
        falls,
    ) by {
        assert(!none.contains((a as usize, b as usize, c as usize)));
    }
    assert forall|a: int, b: int, c: int| is_open(opaque, a, b, c) implies #[trigger] light_at(
        res,
        a,
        b,
        c,
    ) >= light_at(light, a, b, c) by {}
    assert forall|x: int, y: int, z: int| in_chunk(x, y, z) implies #[trigger] light_at(
        res,
        x,
        y,
        z,
    ) == brightest(light, opaque, x, y, z, 255, falls) by {
        let r = light_at(res, x, y, z);
        assert forall|w: int| #[trigger]
            light_reaches(light, opaque, x, y, z, w, falls) implies w <= r by {
            lemma_reach_bound(light, opaque, res, falls, x, y, z, w);
        }
        lemma_brightest_is(light, opaque, falls, x, y, z, r, 255);
    }
}

/// Copies to a fresh grid the light of the cells that are not opaque and lets
/// each cell that holds light wait in the queue.
fn light_sources(light: &LightGrid, opaque: &OpacityGrid, Ghost(falls): Ghost<bool>) -> (out: (
    LightGrid,
    VecDeque<(usize, usize, usize)>,
))
    requires
        forall|x: int, y: int, z: int| in_chunk(x, y, z) ==> #[trigger] light_at(*light, x, y, z) <= 15,
    ensures
        spreading(*light, *opaque, out.0, out.1@, falls, -1, -1, -1),
{
    let mut result = [[[0u8;CHUNK_SIZE];CHUNK_SIZE];CHUNK_SIZE];
    let mut queue: VecDeque<(usize, usize, usize)> = VecDeque::new();

    for x in 0..CHUNK_SIZE
        invariant
            forall|i: int|
                0 <= i < queue@.len() ==> in_chunk(
                    (#[trigger] queue@[i]).0 as int,
                    queue@[i].1 as int,
                    queue@[i].2 as int,
                ),
            forall|a: int, b: int, c: int|
                in_chunk(a, b, c) ==> #[trigger] light_at(result, a, b, c) == if a < x && is_open(
                    *opaque,
                    a,
                    b,
                    c,
                ) {
                    light_at(*light, a, b, c)
                } else {
                    0
                },
            forall|a: int, b: int, c: int|
                in_chunk(a, b, c) && #[trigger] light_at(result, a, b, c) > 0 ==> queue@.contains(
                    (a as usize, b as usize, c as usize),
                ),
    {
        for y in 0..CHUNK_SIZE
            invariant
                x < 32,
                forall|i: int|
                    0 <= i < queue@.len() ==> in_chunk(
                        (#[trigger] queue@[i]).0 as int,
                        queue@[i].1 as int,
                        queue@[i].2 as int,
                    ),
                forall|a: int, b: int, c: int|
                    in_chunk(a, b, c) ==> #[trigger] light_at(result, a, b, c) == if (a < x || (a
                        == x && b < y)) && is_open(*opaque, a, b, c) {
                        light_at(*light, a, b, c)
                    } else {
                        0
                    },
                forall|a: int, b: int, c: int|
                    in_chunk(a, b, c) && #[trigger] light_at(result, a, b, c) > 0
                        ==> queue@.contains((a as usize, b as usize, c as usize)),
        {
            for z in 0..CHUNK_SIZE
                invariant
                    x < 32,
                    y < 32,
                    forall|i: int|
                        0 <= i < queue@.len() ==> in_chunk(
                            (#[trigger] queue@[i]).0 as int,
                            queue@[i].1 as int,
                            queue@[i].2 as int,
                        ),
                    forall|a: int, b: int, c: int|
                        in_chunk(a, b, c) ==> #[trigger] light_at(result, a, b, c) == if (a < x || (
                        a == x && (b < y || (b == y && c < z)))) && is_open(*opaque, a, b, c) {
                            light_at(*light, a, b, c)
                        } else {
                            0
                        },
                    forall|a: int, b: int, c: int|
                        in_chunk(a, b, c) && #[trigger] light_at(result, a, b, c) > 0
                            ==> queue@.contains((a as usize, b as usize, c as usize)),
            {
                let level = light[x][y][z];
                let ghost before = result;
                let ghost waiting = queue@;
                proof {
                    assert(light_at(*light, x as int, y as int, z as int) == level);
                    assert(light_at(before, x as int, y as int, z as int) == 0);
                }
                if level > 0 && !opaque[x][y][z] {
                    result[x][y][z] = level;
                    queue.push_back((x, y, z));
                    proof {
                        assert(raised(before, result, x as int, y as int, z as int, level as int));
                        assert(queue@[waiting.len() as int] == (x, y, z));
                        assert forall|i: int| 0 <= i < queue@.len() implies in_chunk(
                            (#[trigger] queue@[i]).0 as int,
                            queue@[i].1 as int,
                            queue@[i].2 as int,
                        ) by {
                            if i < waiting.len() {
                                assert(queue@[i] == waiting[i]);
                            }
                        }
                    }
                }
                proof {
                    assert forall|a: int, b: int, c: int|
                        in_chunk(a, b, c) && #[trigger] light_at(result, a, b, c)
                            > 0 implies queue@.contains((a as usize, b as usize, c as usize)) by {
                        let cell = (a as usize, b as usize, c as usize);
                        if a == x && b == y && c == z {
                            assert(queue@[waiting.len() as int] == cell);
                        } else {
                            assert(light_at(before, a, b, c) == light_at(result, a, b, c));
                            assert(waiting.contains(cell));
                            let i = choose|i: int| 0 <= i < waiting.len() && waiting[i] == cell;
                            assert(queue@[i] == cell);
                        }
                    }
                    assert forall|a: int, b: int, c: int| in_chunk(a, b, c) implies #[trigger] light_at(
                        result,
                        a,
                        b,
                        c,
                    ) == if (a < x || (a == x && (b < y || (b == y && c < z + 1)))) && is_open(
                        *opaque,
                        a,
                        b,
                        c,
                    ) {
                        light_at(*light, a, b, c)
                    } else {
                        0
                    } by {
                        if !(a == x && b == y && c == z) {
                            assert(light_at(before, a, b, c) == light_at(result, a, b, c));
                        }
                    }
                }
            }
        }
    }
    proof {
        reveal(spreading);
        assert forall|a: int, b: int, c: int| in_chunk(a, b, c) implies (a == -1 && b == -1 && c
            == -1) || #[trigger] settled(result, *opaque, a, b, c, falls) || queue@.contains(
            (a as usize, b as usize, c as usize),
        ) by {
            if light_at(result, a, b, c) == 0 {
                assert(settled(result, *opaque, a, b, c, falls));
            }
        }
    }
    (result, queue)
}

/// Taking the first waiting cell out leaves the spreading as it was, with that
/// cell being worked on.
proof fn lemma_spreading_pop(
    light: LightGrid,
    opaque: OpacityGrid,
    res: LightGrid,
    waiting: Seq<(usize, usize, usize)>,
    falls: bool,
)
    requires
        spreading(light, opaque, res, waiting, falls, -1, -1, -1),
        waiting.len() > 0,
    ensures
        in_chunk(waiting[0].0 as int, waiting[0].1 as int, waiting[0].2 as int),
        spreading(
            light,
            opaque,
            res,
            waiting.subrange(1, waiting.len() as int),
            falls,
            waiting[0].0 as int,
            waiting[0].1 as int,
            waiting[0].2 as int,
        ),
        light_at(res, waiting[0].0 as int, waiting[0].1 as int, waiting[0].2 as int) <= 15,
        light_at(res, waiting[0].0 as int, waiting[0].1 as int, waiting[0].2 as int) == 0
            || light_reaches(
            light,
            opaque,
            waiting[0].0 as int,
            waiting[0].1 as int,
            waiting[0].2 as int,
            light_at(res, waiting[0].0 as int, waiting[0].1 as int, waiting[0].2 as int),
            falls,
        ),
{
    reveal(spreading);
    let rest = waiting.subrange(1, waiting.len() as int);
    let p = (waiting[0].0 as int, waiting[0].1 as int, waiting[0].2 as int);
    assert forall|i: int| 0 <= i < rest.len() implies in_chunk(
        (#[trigger] rest[i]).0 as int,
        rest[i].1 as int,
        rest[i].2 as int,
    ) by {
        assert(rest[i] == waiting[i + 1]);
    }
    assert forall|a: int, b: int, c: int| in_chunk(a, b, c) implies (a == p.0 && b == p.1 && c
        == p.2) || #[trigger] settled(res, opaque, a, b, c, falls) || rest.contains(
        (a as usize, b as usize, c as usize),
    ) by {
        let cell = (a as usize, b as usize, c as usize);
        if !(a == p.0 && b == p.1 && c == p.2) && !settled(res, opaque, a, b, c, falls) {
            assert(waiting.contains(cell));
            let i = choose|i: int| 0 <= i < waiting.len() && waiting[i] == cell;
            assert(i > 0);
            assert(rest[i - 1] == cell);
        }
    }
    assert(light_at(res, p.0, p.1, p.2) <= 15);
}

/// Once the cell being worked on is settled, no cell is left out.
proof fn lemma_spreading_close(
    light: LightGrid,
    opaque: OpacityGrid,
    res: LightGrid,
    queue: Seq<(usize, usize, usize)>,
    falls: bool,
    px: int,
    py: int,
    pz: int,
)
    requires
        spreading(light, opaque, res, queue, falls, px, py, pz),
        settled(res, opaque, px, py, pz, falls),
    ensures
        spreading(light, opaque, res, queue, falls, -1, -1, -1),
{
    reveal(spreading);
}

/// Light that reaches a cell reaches its open neighbours with one level less,
/// and the cell below with the same level where light falls.
proof fn lemma_reach_step(
    light: LightGrid,
    opaque: OpacityGrid,
    x: int,
    y: int,
    z: int,
    v: int,
    falls: bool,
)
    requires
        light_reaches(light, opaque, x, y, z, v, falls),
    ensures
        v >= 2 && is_open(opaque, x + 1, y, z) ==> light_reaches(light, opaque, x + 1, y, z, v - 1, falls),
        v >= 2 && is_open(opaque, x - 1, y, z) ==> light_reaches(light, opaque, x - 1, y, z, v - 1, falls),
        v >= 2 && is_open(opaque, x, y + 1, z) ==> light_reaches(light, opaque, x, y + 1, z, v - 1, falls),
        v >= 2 && !falls && is_open(opaque, x, y - 1, z) ==> light_reaches(
            light,
            opaque,
            x,
            y - 1,
            z,
            v - 1,
            falls,
        ),
        falls && is_open(opaque, x, y - 1, z) ==> light_reaches(light, opaque, x, y - 1, z, v, falls),
        v >= 2 && is_open(opaque, x, y, z + 1) ==> light_reaches(light, opaque, x, y, z + 1, v - 1, falls),
        v >= 2 && is_open(opaque, x, y, z - 1) ==> light_reaches(light, opaque, x, y, z - 1, v - 1, falls),
{
    if v >= 2 && is_open(opaque, x + 1, y, z) {
        assert(light_reaches(light, opaque, (x + 1) - 1, y, z, (v - 1) + 1, falls));
    }
    if v >= 2 && is_open(opaque, x - 1, y, z) {
        assert(light_reaches(light, opaque, (x - 1) + 1, y, z, (v - 1) + 1, falls));
    }
    if v >= 2 && is_open(opaque, x, y + 1, z) {
        assert(light_reaches(light, opaque, x, (y + 1) - 1, z, (v - 1) + 1, falls));
    }
    if is_open(opaque, x, y - 1, z) {
        assert(light_reaches(light, opaque, x, (y - 1) + 1, z, v, falls));
        if v >= 2 {
            assert(light_reaches(light, opaque, x, (y - 1) + 1, z, (v - 1) + 1, falls));
        }
    }
    if v >= 2 && is_open(opaque, x, y, z + 1) {
        assert(light_reaches(light, opaque, x, y, (z + 1) - 1, (v - 1) + 1, falls));
    }
    if v >= 2 && is_open(opaque, x, y, z - 1) {
        assert(light_reaches(light, opaque, x, y, (z - 1) + 1, (v - 1) + 1, falls));
    }
}

/// Passes the light of the cell `(x, y, z)` on to its six neighbours.
fn pass_on(
    result: &mut LightGrid,
    queue: &mut VecDeque<(usize, usize, usize)>,
    opaque: &OpacityGrid,
    x: usize,
    y: usize,
    z: usize,
    falls: bool,
    Ghost(light): Ghost<LightGrid>,
)
    requires
        in_chunk(x as int, y as int, z as int),
        spreading(light, *opaque, *old(result), old(queue)@, falls, x as int, y as int, z as int),
        light_at(*old(result), x as int, y as int, z as int) <= 15,
        light_at(*old(result), x as int, y as int, z as int) == 0 || light_reaches(
            light,
            *opaque,
            x as int,
            y as int,
            z as int,
            light_at(*old(result), x as int, y as int, z as int),
            falls,
        ),
    ensures
        spreading(light, *opaque, *final(result), final(queue)@, falls, -1, -1, -1),
        work_left(*final(result), final(queue)@) <= work_left(*old(result), old(queue)@),
{
    let ghost p = (x as int, y as int, z as int);
    let current_light = result[x][y][z];
    proof {
        assert(light_at(*result, p.0, p.1, p.2) == current_light);
        if current_light > 0 {
            lemma_reach_step(light, *opaque, p.0, p.1, p.2, current_light as int, falls);
        }
    }
    if falls || current_light > 1 {
        let side = current_light.saturating_sub(1);
        let down = if falls {
            current_light
        } else {
            side
        };
        relax(result, queue, opaque, x + 1, y, z, side, Ghost(light), Ghost(falls), Ghost(p));
        let ghost r1 = *result;
        relax(
            result,
            queue,
            opaque,
            x.wrapping_sub(1),
            y,
            z,
            side,
            Ghost(light),
            Ghost(falls),
            Ghost(p),
        );
        let ghost r2 = *result;
        relax(result, queue, opaque, x, y + 1, z, side, Ghost(light), Ghost(falls), Ghost(p));
        let ghost r3 = *result;
        relax(
            result,
            queue,
            opaque,
            x,
            y.wrapping_sub(1),
            z,
            down,
            Ghost(light),
            Ghost(falls),
            Ghost(p),
        );
        let ghost r4 = *result;
        relax(result, queue, opaque, x, y, z + 1, side, Ghost(light), Ghost(falls), Ghost(p));
        let ghost r5 = *result;
        relax(
            result,
            queue,
            opaque,
            x,
            y,
            z.wrapping_sub(1),
            side,
            Ghost(light),
            Ghost(falls),
            Ghost(p),
        );
        proof {
            lemma_at_least(r1, r2, p.0 + 1, p.1, p.2);
            lemma_at_least(r2, r3, p.0 + 1, p.1, p.2);
            lemma_at_least(r3, r4, p.0 + 1, p.1, p.2);
            lemma_at_least(r4, r5, p.0 + 1, p.1, p.2);
            lemma_at_least(r5, *result, p.0 + 1, p.1, p.2);
            lemma_at_least(r2, r3, p.0 - 1, p.1, p.2);
            lemma_at_least(r3, r4, p.0 - 1, p.1, p.2);
            lemma_at_least(r4, r5, p.0 - 1, p.1, p.2);
            lemma_at_least(r5, *result, p.0 - 1, p.1, p.2);
            lemma_at_least(r3, r4, p.0, p.1 + 1, p.2);
            lemma_at_least(r4, r5, p.0, p.1 + 1, p.2);
            lemma_at_least(r5, *result, p.0, p.1 + 1, p.2);
            lemma_at_least(r4, r5, p.0, p.1 - 1, p.2);
            lemma_at_least(r5, *result, p.0, p.1 - 1, p.2);
            lemma_at_least(r5, *result, p.0, p.1, p.2 + 1);
            assert(settled(*result, *opaque, p.0, p.1, p.2, falls));
        }
    } else {
        proof {
            assert(settled(*result, *opaque, p.0, p.1, p.2, falls));
        }
    }
    proof {
        lemma_spreading_close(light, *opaque, *result, queue@, falls, p.0, p.1, p.2);
    }
}

/// Light that only grew is at least what it was, in every cell and outside.
proof fn lemma_at_least(before: LightGrid, after: LightGrid, x: int, y: int, z: int)
    requires
        forall|a: int, b: int, c: int|
            in_chunk(a, b, c) ==> #[trigger] light_at(after, a, b, c) >= light_at(before, a, b, c),
    ensures
        light_at(after, x, y, z) >= light_at(before, x, y, z),
{
}

/// Lets the light of `light` spread: every cell gets the highest level that
/// reaches it.
fn spread(light: &LightGrid, opaque: &OpacityGrid, falls: bool) -> (result: LightGrid)
    requires
        forall|x: int, y: int, z: int| in_chunk(x, y, z) ==> #[trigger] light_at(*light, x, y, z) <= 15,
    ensures
        forall|x: int, y: int, z: int|
            in_chunk(x, y, z) ==> #[trigger] light_at(result, x, y, z) == brightest(
                *light,
                *opaque,
                x,
                y,
                z,
                255,
                falls,
            ),
        forall|x: int, y: int, z: int| in_chunk(x, y, z) ==> #[trigger] light_at(result, x, y, z) <= 15,
{
    let (mut result, mut queue) = light_sources(light, opaque, Ghost(falls));

    loop
        invariant
            spreading(*light, *opaque, result, queue@, falls, -1, -1, -1),
        ensures
            spreading(*light, *opaque, result, Seq::<(usize, usize, usize)>::empty(), falls, -1, -1, -1),
        decreases work_left(result, queue@),
    {
        let ghost waiting = queue@;
        proof {
            lemma_light_sum_bound(result, 32768);
        }
        let (x, y, z) = match queue.pop_front() {
            Some(cell) => cell,
            None => {
                proof {
                    assert(queue@ =~= Seq::<(usize, usize, usize)>::empty());
                }
                break ;
            },
        };
        proof {
            lemma_spreading_pop(*light, *opaque, result, waiting, falls);
        }
        pass_on(&mut result, &mut queue, opaque, x, y, z, falls, Ghost(*light));
        proof {
            lemma_light_sum_bound(result, 32768);
        }
    }
    proof {
        lemma_spreading_done(*light, *opaque, result, falls);
        reveal(spreading);
    }
    result
}

/// The sum of the levels of `k` cells is at most 255 for each.
proof fn lemma_light_sum_bound(res: LightGrid, k: int)
    requires
        0 <= k,
    ensures
        0 <= light_sum(res, k) <= 255 * k,
    decreases k,
{
    if k > 0 {
        lemma_light_sum_bound(res, k - 1);
    }
}

/// For each face and each of its four corners, the steps from a cell to the
/// three cells that can shade the corner: the two at its sides, then the one
/// across.
pub const AO_OFFSETS: [[[i8; 9]; 4]; 6] = [
    [
        [1, 0, 0, 0, 1, 0, 1, 1, 0],
        [1, 0, 0, 0, 0, 1, 1, 0, 1],
        [1, 0, 0, 0, 1, 0, 1, 1, 0],
        [1, 0, 0, 0, 0, 1, 1, 0, 1],
    ],
    [
        [-1, 0, 0, 0, 0, 1, -1, 0, 1],
        [-1, 0, 0, 0, 0, -1, -1, 0, -1],
        [-1, 0, 0, 0, 1, 0, -1, 1, 0],
        [-1, 0, 0, 0, 1, 0, -1, 1, 0],
    ],
    [
        [0, 0, 1, 0, 1, 0, 0, 1, 1],
        [0, 0, 1, 1, 0, 0, 1, 0, 1],
        [0, 0, 1, 0, 1, 0, 0, 1, 1],
        [0, 0, 1, -1, 0, 0, -1, 0, 1],
    ],
    [
        [0, 0, -1, 1, 0, 0, 1, 0, -1],
        [0, 0, -1, 0, 0, -1, 0, 0, -1],
        [0, 0, -1, 0, 1, 0, 0, 1, -1],
        [0, 0, -1, -1, 0, 0, -1, 0, -1],
    ],
    [
        [0, 1, 0, 0, 0, 1, 0, 1, 1],
        [0, 1, 0, 1, 0, 0, 1, 1, 0],
        [0, 1, 0, 0, 0, 1, 0, 1, 1],
        [0, 1, 0, -1, 0, 0, -1, 1, 0],
    ],
    [
        [0, -1, 0, 0, 0, 1, 0, -1, 1],
        [0, -1, 0, 1, 0, 0, 1, -1, 0],
        [0, -1, 0, 0, 0, -1, 0, -1, -1],
        [0, -1, 0, -1, 0, 0, -1, -1, 0],
    ],
];

/// How much light a corner keeps, in quarters, see
/// [`LightingEngine::calculate_ambient_occlusion_with_opaque`].
pub open spec fn occlusion_quarters(
    opaque: OpacityGrid,
    x: int,
    y: int,
    z: int,
    face: int,
    corner: int,
) -> int {
    if !(0 <= face < 6 && 0 <= corner < 4) {
        4
    } else {
        let d = AO_OFFSETS[face][corner];
        let side1 = opaque_at(opaque, x + d[0], y + d[1], z + d[2]);
        let side2 = opaque_at(opaque, x + d[3], y + d[4], z + d[5]);
        let diagonal = opaque_at(opaque, x + d[6], y + d[7], z + d[8]);
        if side1 && side2 {
            0
        } else {
            4 - (if side1 {
                1int
            } else {
                0
            }) - (if side2 {
                1int
            } else {
                0
            }) - (if diagonal {
                1int
            } else {
                0
            })
        }
    }
}

/// The coordinate `v + d` if it lies in the chunk.
fn shifted(v: usize, d: i8) -> (r: Option<usize>)
    ensures
        r is Some <==> 0 <= v + d < 32,
        r is Some ==> r->0 == v + d,
{
    if d >= 0 {
        let up = d as usize;
        if v < CHUNK_SIZE && up < CHUNK_SIZE - v {
            Some(v + up)
        } else {
            None
        }
    } else {
        let down = (-(d as i16)) as usize;
        if v >= down && v - down < CHUNK_SIZE {
            Some(v - down)
        } else {
            None
        }
    }
}

/// Whether the cell `(x + dx, y + dy, z + dz)` is opaque.
fn sample_opaque(opaque: &OpacityGrid, x: usize, y: usize, z: usize, dx: i8, dy: i8, dz: i8) -> (b:
    bool)
    ensures
        b == opaque_at(*opaque, x + dx, y + dy, z + dz),
{
    match (shifted(x, dx), shifted(y, dy), shifted(z, dz)) {
        (Some(nx), Some(ny), Some(nz)) => opaque[nx][ny][nz],
        _ => false,
    }
}

/// Gives the cell `(x, y, z)` of `grid` the level `level`.
fn set_level(grid: &mut LightGrid, x: usize, y: usize, z: usize, level: u8)
    requires
        in_chunk(x as int, y as int, z as int),
    ensures
        forall|a: int, b: int, c: int|
            #[trigger] light_at(*final(grid), a, b, c) == if a == x && b == y && c == z {
                level as int
            } else {
                light_at(*old(grid), a, b, c)
            },
    no_unwind
{
    grid[x][y][z] = level;
}

impl LightingEngine {
    #[verifier::type_invariant]
    spec fn levels_in_range(self) -> bool {
        &&& forall|x: int, y: int, z: int|
            in_chunk(x, y, z) ==> #[trigger] light_at(self.block_light, x, y, z) <= 15
        &&& forall|x: int, y: int, z: int|
            in_chunk(x, y, z) ==> #[trigger] light_at(self.sky_light, x, y, z) <= 15
    }

    /// The block light of all cells.
    pub closed spec fn block_lights(&self) -> LightGrid {
        self.block_light
    }

    /// The sky light of all cells.
    pub closed spec fn sky_lights(&self) -> LightGrid {
        self.sky_light
    }

    /// Which cells are opaque.
    pub closed spec fn opacity(&self) -> OpacityGrid {
        self.opaque
    }

    /// The greater of block light and sky light of the cell `(x, y, z)`.
    pub open spec fn combined_at(&self, x: int, y: int, z: int) -> int {
        if light_at(self.block_lights(), x, y, z) >= light_at(self.sky_lights(), x, y, z) {
            light_at(self.block_lights(), x, y, z)
        } else {
            light_at(self.sky_lights(), x, y, z)
        }
    }

    /// No light anywhere and nothing opaque.
    pub fn new() -> (engine: Self)
        ensures
            forall|x: int, y: int, z: int|
                in_chunk(x, y, z) ==> #[trigger] light_at(engine.block_lights(), x, y, z) == 0
                    && light_at(engine.sky_lights(), x, y, z) == 0 && !opaque_at(
                    engine.opacity(),
                    x,
                    y,
                    z,
                ),
    {
        LightingEngine {
            block_light: [[[0u8;CHUNK_SIZE];CHUNK_SIZE];CHUNK_SIZE],
            sky_light: [[[0u8;CHUNK_SIZE];CHUNK_SIZE];CHUNK_SIZE],
            opaque: [[[false;CHUNK_SIZE];CHUNK_SIZE];CHUNK_SIZE],
        }
    }

    /// Makes the cell `(x, y, z)` opaque or not; does nothing outside the chunk.
    pub fn set_opaque(&mut self, x: usize, y: usize, z: usize, is_opaque: bool)
        ensures
            final(self).block_lights() == old(self).block_lights(),
            final(self).sky_lights() == old(self).sky_lights(),
            forall|a: int, b: int, c: int|
                #[trigger] opaque_at(final(self).opacity(), a, b, c) == if a == x && b == y && c
                    == z && in_chunk(a, b, c) {
                    is_opaque
                } else {
                    opaque_at(old(self).opacity(), a, b, c)
                },
    {
        if x >= CHUNK_SIZE || y >= CHUNK_SIZE || z >= CHUNK_SIZE {
            return ;
        }
        proof {
            use_type_invariant(&*self);
        }
        self.opaque[x][y][z] = is_opaque;
    }

    /// Whether the cell `(x, y, z)` is opaque; outside the chunk nothing is.
    pub fn get_opaque(&self, x: usize, y: usize, z: usize) -> (b: bool)
        ensures
            b == opaque_at(self.opacity(), x as int, y as int, z as int),
    {
        if x >= CHUNK_SIZE || y >= CHUNK_SIZE || z >= CHUNK_SIZE {
            return false;
        }
        self.opaque[x][y][z]
    }

    /// The block light of the cell `(x, y, z)`, 0 outside the chunk.
    pub fn get_block_light(&self, x: usize, y: usize, z: usize) -> (level: u8)
        ensures
            level == light_at(self.block_lights(), x as int, y as int, z as int),
            level <= 15,
    {
        proof {
            use_type_invariant(self);
        }
        if x >= CHUNK_SIZE || y >= CHUNK_SIZE || z >= CHUNK_SIZE {
            return 0;
        }
        proof {
            assert(light_at(self.block_light, x as int, y as int, z as int) <= 15);
        }
        self.block_light[x][y][z]
    }

    /// Sets the block light of the cell `(x, y, z)` to `value`, at most 15;
    /// does nothing outside the chunk.
    pub fn set_block_light(&mut self, x: usize, y: usize, z: usize, value: u8)
        ensures
            final(self).sky_lights() == old(self).sky_lights(),
            final(self).opacity() == old(self).opacity(),
            forall|a: int, b: int, c: int|
                #[trigger] light_at(final(self).block_lights(), a, b, c) == if a == x && b == y && c
                    == z && in_chunk(a, b, c) {
                    if value <= 15 {
                        value as int
                    } else {
                        15
                    }
                } else {
                    light_at(old(self).block_lights(), a, b, c)
                },
    {
        if x >= CHUNK_SIZE || y >= CHUNK_SIZE || z >= CHUNK_SIZE {
            return ;
        }
        proof {
            use_type_invariant(&*self);
        }
        let level = if value < 15 {
            value
        } else {
            15
        };
        set_level(&mut self.block_light, x, y, z, level);
    }

    /// The sky light of the cell `(x, y, z)`, 0 outside the chunk.
    pub fn get_sky_light(&self, x: usize, y: usize, z: usize) -> (level: u8)
        ensures
            level == light_at(self.sky_lights(), x as int, y as int, z as int),
            level <= 15,
    {
        proof {
            use_type_invariant(self);
        }
        if x >= CHUNK_SIZE || y >= CHUNK_SIZE || z >= CHUNK_SIZE {
            return 0;
        }
        proof {
            assert(light_at(self.sky_light, x as int, y as int, z as int) <= 15);
        }
        self.sky_light[x][y][z]
    }

    /// Sets the sky light of the cell `(x, y, z)` to `value`, at most 15; does
    /// nothing outside the chunk.
    pub fn set_sky_light(&mut self, x: usize, y: usize, z: usize, value: u8)
        ensures
            final(self).block_lights() == old(self).block_lights(),
            final(self).opacity() == old(self).opacity(),
            forall|a: int, b: int, c: int|
                #[trigger] light_at(final(self).sky_lights(), a, b, c) == if a == x && b == y && c
                    == z && in_chunk(a, b, c) {
                    if value <= 15 {
                        value as int
                    } else {
                        15
                    }
                } else {
                    light_at(old(self).sky_lights(), a, b, c)
                },
    {
        if x >= CHUNK_SIZE || y >= CHUNK_SIZE || z >= CHUNK_SIZE {
            return ;
        }
        proof {
            use_type_invariant(&*self);
        }
        let level = if value < 15 {
            value
        } else {
            15
        };
        set_level(&mut self.sky_light, x, y, z, level);
    }

    /// The greater of block light and sky light of the cell `(x, y, z)`.
    pub fn get_combined_light(&self, x: usize, y: usize, z: usize) -> (level: u8)
        ensures
            level == self.combined_at(x as int, y as int, z as int),
            level <= 15,
    {
        let block = self.get_block_light(x, y, z);
        let sky = self.get_sky_light(x, y, z);
        if block >= sky {
            block
        } else {
            sky
        }
    }

    /// Lets the block light spread through the cells that `opaque` leaves open.
    /// Every cell of the chunk then holds the highest level that reaches it:
    /// its own light, or one less than what reaches a neighbour.
    pub fn propagate_block_light(&mut self, opaque: &OpacityGrid)
        ensures
            final(self).sky_lights() == old(self).sky_lights(),
            final(self).opacity() == old(self).opacity(),
            forall|x: int, y: int, z: int|
                in_chunk(x, y, z) ==> #[trigger] light_at(final(self).block_lights(), x, y, z)
                    == block_light_spread(old(self).block_lights(), *opaque, x, y, z),
    {
        proof {
            use_type_invariant(&*self);
        }
        let result = spread(&self.block_light, opaque, false);
        self.block_light = result;
    }

    /// Lets the sky light spread through the cells that `opaque` leaves open.
    /// Every cell of the chunk then holds the highest level that reaches it:
    /// its own light, what reaches the cell above, or one less than what
    /// reaches another neighbour.
    pub fn propagate_sky_light(&mut self, opaque: &OpacityGrid)
        ensures
            final(self).block_lights() == old(self).block_lights(),
            final(self).opacity() == old(self).opacity(),
            forall|x: int, y: int, z: int|
                in_chunk(x, y, z) ==> #[trigger] light_at(final(self).sky_lights(), x, y, z)
                    == sky_light_spread(old(self).sky_lights(), *opaque, x, y, z),
    {
        proof {
            use_type_invariant(&*self);
        }
        let result = spread(&self.sky_light, opaque, true);
        self.sky_light = result;
    }

    /// The mean of the combined light of the cell `(x, y, z)` and the three
    /// cells beside it towards lower x and lower y, rounded down. At the lower
    /// edge of the chunk the cell stands for its missing neighbour.
    pub open spec fn smooth_at(&self, x: int, y: int, z: int) -> int {
        let x0 = if x > 0 {
            x - 1
        } else {
            0
        };
        let y0 = if y > 0 {
            y - 1
        } else {
            0
        };
        (self.combined_at(x0, y0, z) + self.combined_at(x, y0, z) + self.combined_at(x0, y, z)
            + self.combined_at(x, y, z)) / 4
    }

    /// The light at the corner of the cell `(x, y, z)` towards lower x and y:
    /// see [`Self::smooth_at`]. The face does not matter.
    pub fn get_smooth_light(&self, x: usize, y: usize, z: usize, _face: usize) -> (level: u8)
        ensures
            level == self.smooth_at(x as int, y as int, z as int),
            level <= 15,
    {
        let x0 = x.saturating_sub(1);
        let y0 = y.saturating_sub(1);

        let l0 = self.get_combined_light(x0, y0, z);
        let l1 = self.get_combined_light(x, y0, z);
        let l2 = self.get_combined_light(x0, y, z);
        let l3 = self.get_combined_light(x, y, z);

        ((l0 as u32 + l1 as u32 + l2 as u32 + l3 as u32) / 4) as u8
    }

    /// How much light the corner `corner` of the face `face` of the cell
    /// `(x, y, z)` keeps, in quarters: 0 where both cells at its sides are
    /// opaque; else 4 less the number of opaque cells among the two at its
    /// sides and the one across. Cells outside the chunk are not opaque. For a
    /// face above 5 or a corner above 3, all 4 quarters.
    pub fn calculate_ambient_occlusion_with_opaque(
        &self,
        opaque: &OpacityGrid,
        x: usize,
        y: usize,
        z: usize,
        face: usize,
        corner: usize,
    ) -> (quarters: u8)
        ensures
            quarters == occlusion_quarters(*opaque, x as int, y as int, z as int, face as int, corner as int),
            quarters <= 4,
    {
        if face >= 6 || corner >= 4 {
            return 4;
        }
        let d = AO_OFFSETS[face][corner];
        let side1 = sample_opaque(opaque, x, y, z, d[0], d[1], d[2]);
        let side2 = sample_opaque(opaque, x, y, z, d[3], d[4], d[5]);
        let diagonal = sample_opaque(opaque, x, y, z, d[6], d[7], d[8]);

        if side1 && side2 {
            0
        } else {
            let mut quarters = 4u8;
            if side1 {
                quarters -= 1;
            }
            if side2 {
                quarters -= 1;
            }
            if diagonal {
                quarters -= 1;
            }
            quarters
        }
    }

    /// As [`Self::calculate_ambient_occlusion_with_opaque`], with the opacity
    /// that the engine holds.
    pub fn calculate_ambient_occlusion(
        &self,
        x: usize,
        y: usize,
        z: usize,
        face: usize,
        corner: usize,
    ) -> (quarters: u8)
        ensures
            quarters == occlusion_quarters(
                self.opacity(),
                x as int,
                y as int,
                z as int,
                face as int,
                corner as int,
            ),
            quarters <= 4,
    {
        self.calculate_ambient_occlusion_with_opaque(&self.opaque, x, y, z, face, corner)
    }
}

impl Default for LightingEngine {
    fn default() -> (engine: Self)
        ensures
            forall|x: int, y: int, z: int|
                in_chunk(x, y, z) ==> #[trigger] light_at(engine.block_lights(), x, y, z) == 0
                    && light_at(engine.sky_lights(), x, y, z) == 0 && !opaque_at(
                    engine.opacity(),
                    x,
                    y,
                    z,
                ),
    {
        LightingEngine::new()
    }
}


/// The number of steps from `(x, y, z)` to `(cx, cy, cz)`.
pub open spec fn steps_between(x: int, y: int, z: int, cx: int, cy: int, cz: int) -> int {
    (if x >= cx {
        x - cx
    } else {
        cx - x
    }) + (if y >= cy {
        y - cy
    } else {
        cy - y
    }) + (if z >= cz {
        z - cz
    } else {
        cz - z
    })
}

/// `light` holds the level `level` in the cell `(cx, cy, cz)` and nothing else.
pub open spec fn single_source(light: LightGrid, cx: int, cy: int, cz: int, level: int) -> bool {
    &&& in_chunk(cx, cy, cz)
    &&& forall|a: int, b: int, c: int|
        in_chunk(a, b, c) ==> #[trigger] light_at(light, a, b, c) == if a == cx && b == cy && c
            == cz {
            level
        } else {
            0
        }
}

/// No cell is opaque.
pub open spec fn all_open(opaque: OpacityGrid) -> bool {
    forall|a: int, b: int, c: int| in_chunk(a, b, c) ==> #[trigger] is_open(opaque, a, b, c)
}

/// Light of one source reaches no cell with more than the level of the
/// source less the steps to it.
proof fn lemma_single_source_far(
    light: LightGrid,
    opaque: OpacityGrid,
    cx: int,
    cy: int,
    cz: int,
    level: int,
    x: int,
    y: int,
    z: int,
    v: int,
)
    requires
        single_source(light, cx, cy, cz, level),
        light_reaches(light, opaque, x, y, z, v, false),
    ensures
        v <= level - steps_between(x, y, z, cx, cy, cz),
    decreases 256 - v,
{
    if light_at(light, x, y, z) >= v {
    } else if light_reaches(light, opaque, x + 1, y, z, v + 1, false) {
        lemma_single_source_far(light, opaque, cx, cy, cz, level, x + 1, y, z, v + 1);
    } else if light_reaches(light, opaque, x - 1, y, z, v + 1, false) {
        lemma_single_source_far(light, opaque, cx, cy, cz, level, x - 1, y, z, v + 1);
    } else if light_reaches(light, opaque, x, y + 1, z, v + 1, false) {
        lemma_single_source_far(light, opaque, cx, cy, cz, level, x, y + 1, z, v + 1);
    } else if light_reaches(light, opaque, x, y - 1, z, v + 1, false) {
        lemma_single_source_far(light, opaque, cx, cy, cz, level, x, y - 1, z, v + 1);
    } else if light_reaches(light, opaque, x, y, z + 1, v + 1, false) {
        lemma_single_source_far(light, opaque, cx, cy, cz, level, x, y, z + 1, v + 1);
    } else {
        lemma_single_source_far(light, opaque, cx, cy, cz, level, x, y, z - 1, v + 1);
    }
}

/// Light of one source reaches every cell with the level of the source less
/// the steps to it, where nothing is opaque.
proof fn lemma_single_source_near(
    light: LightGrid,
    opaque: OpacityGrid,
    cx: int,
    cy: int,
    cz: int,
    level: int,
    x: int,
    y: int,
    z: int,
    v: int,
)
    requires
        single_source(light, cx, cy, cz, level),
        all_open(opaque),
        level <= 255,
        in_chunk(x, y, z),
        1 <= v <= level - steps_between(x, y, z, cx, cy, cz),
    ensures
        light_reaches(light, opaque, x, y, z, v, false),
    decreases steps_between(x, y, z, cx, cy, cz),
{
    assert(is_open(opaque, x, y, z));
    if x < cx {
        lemma_single_source_near(light, opaque, cx, cy, cz, level, x + 1, y, z, v + 1);
    } else if x > cx {
        lemma_single_source_near(light, opaque, cx, cy, cz, level, x - 1, y, z, v + 1);
    } else if y < cy {
        lemma_single_source_near(light, opaque, cx, cy, cz, level, x, y + 1, z, v + 1);
    } else if y > cy {
        lemma_single_source_near(light, opaque, cx, cy, cz, level, x, y - 1, z, v + 1);
    } else if z < cz {
        lemma_single_source_near(light, opaque, cx, cy, cz, level, x, y, z + 1, v + 1);
    } else if z > cz {
        lemma_single_source_near(light, opaque, cx, cy, cz, level, x, y, z - 1, v + 1);
    } else {
        assert(light_at(light, x, y, z) == level);
    }
}

/// The block light of one source, with no opaque cell in the chunk, is in
/// every cell the level of the source less the number of steps to it, and 0
/// where that would be less.
pub proof fn lemma_single_source(
    light: LightGrid,
    opaque: OpacityGrid,
    cx: int,
    cy: int,
    cz: int,
    level: int,
    x: int,
    y: int,
    z: int,
)
    requires
        single_source(light, cx, cy, cz, level),
        all_open(opaque),
        0 <= level <= 255,
        in_chunk(x, y, z),
    ensures
        block_light_spread(light, opaque, x, y, z) == if level >= steps_between(
            x,
            y,
            z,
            cx,
            cy,
            cz,
        ) {
            level - steps_between(x, y, z, cx, cy, cz)
        } else {
            0
        },
{
    let m = level - steps_between(x, y, z, cx, cy, cz);
    let r = if m >= 0 {
        m
    } else {
        0
    };
    if r > 0 {
        lemma_single_source_near(light, opaque, cx, cy, cz, level, x, y, z, r);
    }
    assert forall|w: int| #[trigger] light_reaches(light, opaque, x, y, z, w, false) implies w
        <= r by {
        lemma_single_source_far(light, opaque, cx, cy, cz, level, x, y, z, w);
    }
    lemma_brightest_is(light, opaque, false, x, y, z, r, 255);
}

/// An opaque cell gets no light, whatever shines around it.
pub proof fn lemma_opaque_dark(light: LightGrid, opaque: OpacityGrid, x: int, y: int, z: int)
    requires
        opaque_at(opaque, x, y, z),
    ensures
        block_light_spread(light, opaque, x, y, z) == 0,
        sky_light_spread(light, opaque, x, y, z) == 0,
{
    lemma_brightest_is(light, opaque, false, x, y, z, 0, 255);
    lemma_brightest_is(light, opaque, true, x, y, z, 0, 255);
}

/// A level that reaches a cell is not above the brightest one.
proof fn lemma_brightest_at_least(
    light: LightGrid,
    opaque: OpacityGrid,
    falls: bool,
    x: int,
    y: int,
    z: int,
    v: int,
    top: int,
)
    requires
        light_reaches(light, opaque, x, y, z, v, falls),
        v <= top,
    ensures
        brightest(light, opaque, x, y, z, top, falls) >= v,
    decreases top,
{
    if top > v && !light_reaches(light, opaque, x, y, z, top, falls) {
        lemma_brightest_at_least(light, opaque, falls, x, y, z, v, top - 1);
    }
}

/// Sky light goes down a column of open cells without loss: below a cell
/// that holds the level `v`, every cell down to the first opaque one gets at
/// least `v`.
pub proof fn lemma_sky_light_falls(
    light: LightGrid,
    opaque: OpacityGrid,
    x: int,
    top: int,
    z: int,
    y: int,
    v: int,
)
    requires
        in_chunk(x, top, z),
        0 <= y <= top,
        forall|b: int| y <= b <= top ==> #[trigger] is_open(opaque, x, b, z),
        1 <= v <= light_at(light, x, top, z),
    ensures
        light_reaches(light, opaque, x, y, z, v, true),
        sky_light_spread(light, opaque, x, y, z) >= v,
    decreases top - y,
{
    assert(is_open(opaque, x, y, z));
    if y < top {
        lemma_sky_light_falls(light, opaque, x, top, z, y + 1, v);
    }
    lemma_brightest_at_least(light, opaque, true, x, y, z, v, 255);
}

} // verus!
