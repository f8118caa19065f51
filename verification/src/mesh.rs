//! Quads, meshes, and the mathematical model of what a mesh of a voxel grid is.
//!
//! A grid is a sequence of `n * n * n` block types, the cell `(x, y, z)` stored at
//! `z * n * n + y * n + x`; block type 0 is air, and every cell outside the grid
//! counts as air. A face of a cell is exposed when the cell is solid and its
//! neighbour on that side is air. A mesh covers the exposed faces with quads that
//! are one cell thick and run along one axis: along y for the faces that look
//! along x, along x for the others.

use vstd::prelude::*;

verus! {

/// Edge length of a chunk, in voxels.
pub const CHUNK_SIZE: usize = 32;

/// Number of voxels in one layer of a chunk.
pub const CHUNK_SIZE_SQ: usize = 1024;

/// Number of voxels in a chunk.
pub const CHUNK_SIZE_CB: usize = 32768;

/// One of the six sides of a voxel.
#[derive(Clone, Copy, Debug, PartialEq, Eq, Hash, Structural)]
pub enum Face {
    /// +X
    Right,
    /// -X
    Left,
    /// +Y
    Up,
    /// -Y
    Down,
    /// +Z
    Front,
    /// -Z
    Back,
}

impl Face {
    /// The number that encodes the face: 0 = +X, 1 = -X, 2 = +Y, 3 = -Y, 4 = +Z, 5 = -Z.
    pub open spec fn code(self) -> int {
        match self {
            Face::Right => 0,
            Face::Left => 1,
            Face::Up => 2,
            Face::Down => 3,
            Face::Front => 4,
            Face::Back => 5,
        }
    }

    /// The face that `code` encodes; codes above 5 stand for no face.
    pub open spec fn of_code(code: int) -> Option<Face> {
        if code == 0 {
            Some(Face::Right)
        } else if code == 1 {
            Some(Face::Left)
        } else if code == 2 {
            Some(Face::Up)
        } else if code == 3 {
            Some(Face::Down)
        } else if code == 4 {
            Some(Face::Front)
        } else if code == 5 {
            Some(Face::Back)
        } else {
            None
        }
    }

    /// Whether the face looks along the x axis.
    pub open spec fn along_x(self) -> bool {
        self == Face::Right || self == Face::Left
    }

    /// Whether the face looks along the y axis.
    pub open spec fn along_y(self) -> bool {
        self == Face::Up || self == Face::Down
    }

    /// Whether the face looks along the z axis.
    pub open spec fn along_z(self) -> bool {
        self == Face::Front || self == Face::Back
    }

    /// The code of the face, see [`Face::code`].
    pub fn index(self) -> (i: usize)
        ensures
            i == self.code(),
            Face::of_code(i as int) == Some(self),
    {
        match self {
            Face::Right => 0,
            Face::Left => 1,
            Face::Up => 2,
            Face::Down => 3,
            Face::Front => 4,
            Face::Back => 5,
        }
    }

    /// The face with the given code, `None` for a code above 5.
    pub fn from_index(code: usize) -> (face: Option<Face>)
        ensures
            face == Face::of_code(code as int),
            face is Some <==> code <= 5,
            face is Some ==> face->0.code() == code,
    {
        if code == 0 {
            Some(Face::Right)
        } else if code == 1 {
            Some(Face::Left)
        } else if code == 2 {
            Some(Face::Up)
        } else if code == 3 {
            Some(Face::Down)
        } else if code == 4 {
            Some(Face::Front)
        } else if code == 5 {
            Some(Face::Back)
        } else {
            None
        }
    }
}

/// A rectangle of voxel faces that all look the same way and show the same block.
///
/// `width` and `height` extend along the two axes orthogonal to `face`: for the
/// faces along x, `width` along z and `height` along y; for the faces along y,
/// `width` along x and `height` along z; for the faces along z, `width` along x
/// and `height` along y.
#[derive(Clone, Copy, Debug, PartialEq, Eq, Structural)]
pub struct MeshQuad {
    pub x: u8,
    pub y: u8,
    pub z: u8,
    pub width: u8,
    pub height: u8,
    pub face: Face,
    pub block_type: u32,
}

/// The quads of one chunk.
#[derive(Clone, Debug)]
pub struct ChunkMesh {
    pub quads: Vec<MeshQuad>,
}

impl View for ChunkMesh {
    type V = Seq<MeshQuad>;

    open spec fn view(&self) -> Seq<MeshQuad> {
        self.quads@
    }
}

impl ChunkMesh {
    /// A mesh without quads.
    pub fn new() -> (m: Self)
        ensures
            m@ == Seq::<MeshQuad>::empty(),
    {
        ChunkMesh { quads: Vec::new() }
    }

    /// The number of quads.
    pub fn quad_count(&self) -> (n: usize)
        ensures
            n == self@.len(),
    {
        self.quads.len()
    }

    /// Whether the mesh has no quad.
    pub fn is_empty(&self) -> (b: bool)
        ensures
            b <==> self@.len() == 0,
    {
        self.quads.len() == 0
    }
}

impl Default for ChunkMesh {
    fn default() -> (m: Self)
        ensures
            m@ == Seq::<MeshQuad>::empty(),
    {
        ChunkMesh::new()
    }
}

/// Whether `(x, y, z)` is a cell of the grid of edge `n`.
pub open spec fn in_grid(n: int, x: int, y: int, z: int) -> bool {
    0 <= x < n && 0 <= y < n && 0 <= z < n
}

/// The block in cell `(x, y, z)`: air outside the grid.
pub open spec fn block_at(grid: Seq<u32>, n: int, x: int, y: int, z: int) -> u32 {
    if in_grid(n, x, y, z) {
        grid[z * n * n + y * n + x]
    } else {
        0
    }
}

/// The block in the cell next to `(x, y, z)` on the side `face`.
pub open spec fn neighbor_block(grid: Seq<u32>, n: int, face: Face, x: int, y: int, z: int) -> u32 {
    match face {
        Face::Right => block_at(grid, n, x + 1, y, z),
        Face::Left => block_at(grid, n, x - 1, y, z),
        Face::Up => block_at(grid, n, x, y + 1, z),
        Face::Down => block_at(grid, n, x, y - 1, z),
        Face::Front => block_at(grid, n, x, y, z + 1),
        Face::Back => block_at(grid, n, x, y, z - 1),
    }
}

/// The face `face` of cell `(x, y, z)` is exposed: the cell is solid and the
/// neighbour on that side is air or outside the grid.
pub open spec fn exposed(grid: Seq<u32>, n: int, face: Face, x: int, y: int, z: int) -> bool {
    in_grid(n, x, y, z) && block_at(grid, n, x, y, z) != 0 && neighbor_block(grid, n, face, x, y, z)
        == 0
}

/// The face `face` of cell `(x, y, z)` is exposed and shows `block`.
pub open spec fn shows(grid: Seq<u32>, n: int, face: Face, block: u32, x: int, y: int, z: int) -> bool {
    exposed(grid, n, face, x, y, z) && block_at(grid, n, x, y, z) == block
}

/// A run of `len` cells that starts in `(x, y, z)` and goes along y for the faces
/// along x, along x for the other faces.
pub ghost struct Run {
    pub face: Face,
    pub x: int,
    pub y: int,
    pub z: int,
    pub len: int,
    pub block: u32,
}

impl Run {
    /// The cell number `k` of the run; `k` may lie before or behind it.
    pub open spec fn cell(self, k: int) -> (int, int, int) {
        if self.face.along_x() {
            (self.x, self.y + k, self.z)
        } else {
            (self.x + k, self.y, self.z)
        }
    }

    /// The face `self.face` of cell number `k` is exposed and shows `self.block`.
    pub open spec fn shows_at(self, grid: Seq<u32>, n: int, k: int) -> bool {
        shows(grid, n, self.face, self.block, self.cell(k).0, self.cell(k).1, self.cell(k).2)
    }

    /// Every cell of the run shows its block on the run's face, and the run
    /// cannot be made longer at either end.
    pub open spec fn is_maximal(self, grid: Seq<u32>, n: int) -> bool {
        &&& self.len >= 1
        &&& forall|k: int| 0 <= k < self.len ==> #[trigger] self.shows_at(grid, n, k)
        &&& !self.shows_at(grid, n, -1)
        &&& !self.shows_at(grid, n, self.len)
    }

    /// The quad that stands for the run when one cell is `s` voxels wide.
    pub open spec fn quad(self, s: int) -> MeshQuad {
        if self.face.along_x() {
            MeshQuad {
                x: (self.x * s) as u8,
                y: (self.y * s) as u8,
                z: (self.z * s) as u8,
                width: s as u8,
                height: (self.len * s) as u8,
                face: self.face,
                block_type: self.block,
            }
        } else {
            MeshQuad {
                x: (self.x * s) as u8,
                y: (self.y * s) as u8,
                z: (self.z * s) as u8,
                width: (self.len * s) as u8,
                height: s as u8,
                face: self.face,
                block_type: self.block,
            }
        }
    }
}

impl MeshQuad {
    /// The run that the quad stands for when one cell is `s` voxels wide.
    pub open spec fn run(self, s: int) -> Run {
        Run {
            face: self.face,
            x: self.x as int / s,
            y: self.y as int / s,
            z: self.z as int / s,
            len: if self.face.along_x() {
                self.height as int / s
            } else {
                self.width as int / s
            },
            block: self.block_type,
        }
    }

    /// The quad lies on the lattice of cells of `s` voxels and is one cell thick.
    pub open spec fn on_lattice(self, s: int) -> bool {
        &&& self.x as int % s == 0
        &&& self.y as int % s == 0
        &&& self.z as int % s == 0
        &&& self.width as int % s == 0
        &&& self.height as int % s == 0
        &&& if self.face.along_x() {
            self.width == s
        } else {
            self.height == s
        }
    }

    /// The quad covers the voxel face `face` of voxel `(x, y, z)`.
    pub open spec fn covers(self, face: Face, x: int, y: int, z: int) -> bool {
        &&& self.face == face
        &&& if face.along_x() {
            self.x == x && self.y <= y < self.y + self.height && self.z <= z < self.z + self.width
        } else if face.along_y() {
            self.y == y && self.x <= x < self.x + self.width && self.z <= z < self.z + self.height
        } else {
            self.z == z && self.x <= x < self.x + self.width && self.y <= y < self.y + self.height
        }
    }
}

/// Every quad stands for a maximal run of the grid of edge `n`, one cell being
/// `s` voxels wide.
pub open spec fn every_quad_is_a_run(quads: Seq<MeshQuad>, grid: Seq<u32>, n: int, s: int) -> bool {
    forall|i: int|
        0 <= i < quads.len() ==> (#[trigger] quads[i]).on_lattice(s) && quads[i].run(s).is_maximal(
            grid,
            n,
        )
}

/// Every maximal run of the grid of edge `n` has its quad among `quads`.
pub open spec fn every_run_has_a_quad(quads: Seq<MeshQuad>, grid: Seq<u32>, n: int, s: int) -> bool {
    forall|r: Run|
        r.is_maximal(grid, n) ==> exists|i: int|
            0 <= i < quads.len() && quads[i] == #[trigger] r.quad(s)
}

/// No quad occurs twice.
pub open spec fn no_quad_twice(quads: Seq<MeshQuad>) -> bool {
    forall|i: int, j: int| 0 <= i < j < quads.len() ==> quads[i] != quads[j]
}

/// `quads` is a mesh of the grid of edge `n`, one cell being `s` voxels wide:
/// its quads are the maximal runs of the grid, each of them once.
pub open spec fn is_mesh_of(quads: Seq<MeshQuad>, grid: Seq<u32>, n: int, s: int) -> bool {
    &&& every_quad_is_a_run(quads, grid, n, s)
    &&& every_run_has_a_quad(quads, grid, n, s)
    &&& no_quad_twice(quads)
}

} // verus!
