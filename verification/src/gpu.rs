//! What the host does around the compute passes of the GPU mesher: the layout
//! of the packed quads, the sizes of the buffers, the shape of the dispatches
//! and the reading of the results.
//!
//! A packed quad is two 32-bit words. Word 0 holds, from the lowest bit on,
//! x, y, z, width and height in 5 bits each and the face in 3 bits; word 1 is
//! the block type. In a buffer all words are little-endian.

use vstd::prelude::*;
use crate::mesh::{ChunkMesh, Face, MeshQuad, CHUNK_SIZE_CB};

verus! {

/// The most quads that the passes give out for one chunk.
pub const MAX_QUADS: usize = 65536;

/// The most chunks in one dispatch.
pub const MAX_BATCH_SIZE: usize = 256;

/// Number of face masks of one chunk: 1024 for each of the six faces.
pub const FACE_MASK_STRIDE: usize = 6144;

/// A quad as the passes write it.
#[derive(Clone, Copy, Debug, PartialEq, Eq, Structural)]
pub struct PackedQuad {
    /// x, y, z, width, height and face, see the module.
    pub word0: u32,
    pub block_type: u32,
}

impl PackedQuad {
    /// Bits 0 to 4 of word 0.
    pub open spec fn spec_x(&self) -> u32 {
        self.word0 % 32
    }

    /// Bits 5 to 9 of word 0.
    pub open spec fn spec_y(&self) -> u32 {
        (self.word0 / 32) % 32
    }

    /// Bits 10 to 14 of word 0.
    pub open spec fn spec_z(&self) -> u32 {
        (self.word0 / 1024) % 32
    }

    /// Bits 15 to 19 of word 0.
    pub open spec fn spec_width(&self) -> u32 {
        (self.word0 / 32768) % 32
    }

    /// Bits 20 to 24 of word 0.
    pub open spec fn spec_height(&self) -> u32 {
        (self.word0 / 1048576) % 32
    }

    /// Bits 25 to 27 of word 0.
    pub open spec fn spec_face(&self) -> u32 {
        (self.word0 / 33554432) % 8
    }

    /// Bits 0 to 4 of word 0.
    #[verifier::when_used_as_spec(spec_x)]
    pub fn x(&self) -> (v: u32)
        ensures
            v == self.spec_x(),
            v < 32,
    {
        let w = self.word0;
        assert(w & 0x1F == w % 32) by (bit_vector);
        self.word0 & 0x1F
    }

    /// Bits 5 to 9 of word 0.
    #[verifier::when_used_as_spec(spec_y)]
    pub fn y(&self) -> (v: u32)
        ensures
            v == self.spec_y(),
            v < 32,
    {
        let w = self.word0;
        assert((w >> 5) & 0x1F == (w / 32) % 32) by (bit_vector);
        (self.word0 >> 5) & 0x1F
    }

    /// Bits 10 to 14 of word 0.
    #[verifier::when_used_as_spec(spec_z)]
    pub fn z(&self) -> (v: u32)
        ensures
            v == self.spec_z(),
            v < 32,
    {
        let w = self.word0;
        assert((w >> 10) & 0x1F == (w / 1024) % 32) by (bit_vector);
        (self.word0 >> 10) & 0x1F
    }

    /// Bits 15 to 19 of word 0.
    #[verifier::when_used_as_spec(spec_width)]
    pub fn width(&self) -> (v: u32)
        ensures
            v == self.spec_width(),
            v < 32,
    {
        let w = self.word0;
        assert((w >> 15) & 0x1F == (w / 32768) % 32) by (bit_vector);
        (self.word0 >> 15) & 0x1F
    }

    /// Bits 20 to 24 of word 0.
    #[verifier::when_used_as_spec(spec_height)]
    pub fn height(&self) -> (v: u32)
        ensures
            v == self.spec_height(),
            v < 32,
    {
        let w = self.word0;
        assert((w >> 20) & 0x1F == (w / 1048576) % 32) by (bit_vector);
        (self.word0 >> 20) & 0x1F
    }

    /// Bits 25 to 27 of word 0: 0 = +X, 1 = -X, 2 = +Y, 3 = -Y, 4 = +Z, 5 = -Z.
    #[verifier::when_used_as_spec(spec_face)]
    pub fn face(&self) -> (v: u32)
        ensures
            v == self.spec_face(),
            v < 8,
    {
        let w = self.word0;
        assert((w >> 25) & 0x7 == (w / 33554432) % 8) by (bit_vector);
        (self.word0 >> 25) & 0x7
    }

    /// The packed quad with the given parts; the four highest bits of word 0
    /// are clear.
    pub fn from_parts(x: u32, y: u32, z: u32, width: u32, height: u32, face: u32, block_type: u32) -> (q:
        Self)
        requires
            x < 32,
            y < 32,
            z < 32,
            width < 32,
            height < 32,
            face < 8,
        ensures
            q.word0 == x + 32 * y + 1024 * z + 32768 * width + 1048576 * height + 33554432 * face,
            q.block_type == block_type,
            q.spec_x() == x,
            q.spec_y() == y,
            q.spec_z() == z,
            q.spec_width() == width,
            q.spec_height() == height,
            q.spec_face() == face,
    {
        let word0 = x | (y << 5) | (z << 10) | (width << 15) | (height << 20) | (face << 25);
        assert(word0 == x + 32 * y + 1024 * z + 32768 * width + 1048576 * height + 33554432 * face
            && word0 % 32 == x && (word0 / 32) % 32 == y && (word0 / 1024) % 32 == z && (word0
            / 32768) % 32 == width && (word0 / 1048576) % 32 == height && (word0 / 33554432) % 8
            == face) by (bit_vector)
            requires
                word0 == x | (y << 5) | (z << 10) | (width << 15) | (height << 20) | (face << 25),
                x < 32,
                y < 32,
                z < 32,
                width < 32,
                height < 32,
                face < 8,
        ;
        PackedQuad { word0, block_type }
    }
}

/// The quad that a packed quad stands for, if its face is one of the six.
pub open spec fn unpacked_quad(q: PackedQuad) -> Option<MeshQuad> {
    match Face::of_code(q.spec_face() as int) {
        Some(face) => Some(
            MeshQuad {
                x: q.spec_x() as u8,
                y: q.spec_y() as u8,
                z: q.spec_z() as u8,
                width: q.spec_width() as u8,
                height: q.spec_height() as u8,
                face,
                block_type: q.block_type,
            },
        ),
        None => None,
    }
}

/// The quads that the packed quads stand for, in their order, without those
/// whose face is none of the six.
pub open spec fn unpacked(quads: Seq<PackedQuad>) -> Seq<MeshQuad>
    decreases quads.len(),
{
    if quads.len() == 0 {
        Seq::empty()
    } else {
        match unpacked_quad(quads.last()) {
            Some(q) => unpacked(quads.drop_last()).push(q),
            None => unpacked(quads.drop_last()),
        }
    }
}

/// The mesh of the quads that the GPU gave: see [`unpacked`].
pub fn mesh_from_packed(gpu_quads: &[PackedQuad]) -> (mesh: ChunkMesh)
    ensures
        mesh@ == unpacked(gpu_quads@),
{
    let mut mesh = ChunkMesh::new();
    for i in 0..gpu_quads.len()
        invariant
            mesh@ == unpacked(gpu_quads@.take(i as int)),
    {
        let q = gpu_quads[i];
        proof {
            assert(gpu_quads@.take(i + 1).drop_last() =~= gpu_quads@.take(i as int));
            assert(gpu_quads@.take(i + 1).last() == q);
        }
        match Face::from_index(q.face() as usize) {
            Some(face) => {
                mesh.quads.push(
                    MeshQuad {
                        x: q.x() as u8,
                        y: q.y() as u8,
                        z: q.z() as u8,
                        width: q.width() as u8,
                        height: q.height() as u8,
                        face,
                        block_type: q.block_type,
                    },
                );
            },
            None => {},
        }
    }
    proof {
        assert(gpu_quads@.take(gpu_quads@.len() as int) =~= gpu_quads@);
    }
    mesh
}

/// The number of chunks that the buffers are made for, given the number asked
/// for: at least 1, at most [`MAX_BATCH_SIZE`].
pub fn batch_capacity(batch_size: usize) -> (n: usize)
    ensures
        n == if batch_size < 1 {
            1
        } else if batch_size > 256 {
            256
        } else {
            batch_size as int
        },
{
    if batch_size < 1 {
        1
    } else if batch_size > MAX_BATCH_SIZE {
        MAX_BATCH_SIZE
    } else {
        batch_size
    }
}

/// The number of chunks of one dispatch: those given, as far as the buffers
/// have room.
pub fn batch_len(chunks: usize, capacity: usize) -> (n: usize)
    ensures
        n == if chunks <= capacity {
            chunks
        } else {
            capacity
        },
{
    if chunks <= capacity {
        chunks
    } else {
        capacity
    }
}

/// The sizes of the buffers in bytes.
#[derive(Clone, Copy, Debug, PartialEq, Eq, Structural)]
pub struct BufferSizes {
    /// The voxels: 32768 words for each chunk.
    pub voxel: u64,
    /// The quads: [`MAX_QUADS`] packed quads for each chunk.
    pub quad: u64,
    /// The counters: one word for each chunk.
    pub counter: u64,
    /// The face masks: [`FACE_MASK_STRIDE`] words for each chunk.
    pub face_mask: u64,
}

/// The sizes of the buffers for `capacity` chunks.
pub fn buffer_sizes(capacity: usize) -> (sizes: BufferSizes)
    requires
        capacity <= MAX_BATCH_SIZE,
    ensures
        sizes.voxel == capacity * 32768 * 4,
        sizes.quad == capacity * 65536 * 8,
        sizes.counter == capacity * 4,
        sizes.face_mask == capacity * 6144 * 4,
{
    let n = capacity as u64;
    BufferSizes {
        voxel: n * 32768 * 4,
        quad: n * 65536 * 2 * 4,
        counter: n * 4,
        face_mask: n * 6144 * 4,
    }
}

/// Where the voxels of the chunk number `chunk` start in the voxel buffer, in bytes.
pub fn voxel_offset(chunk: usize) -> (offset: u64)
    requires
        chunk < MAX_BATCH_SIZE,
    ensures
        offset == chunk * 32768 * 4,
{
    (chunk as u64) * 32768 * 4
}

/// `bytemuck::cast_slice` from words to bytes: the bytes of the words as they
/// lie in memory, four for each word. With bytes as the target the cast
/// never fails.
#[verifier::external_body]
fn words_as_bytes(words: &[u32]) -> (bytes: &[u8])
    ensures
        bytes@.len() == 4 * words@.len(),
{
    bytemuck::cast_slice(words)
}

/// What is written to the voxel buffer for the chunk number `chunk` of a
/// dispatch: where, in bytes from the start of the buffer, and the bytes of
/// its voxels as they lie in memory.
pub fn voxel_upload(voxels: &[u32; CHUNK_SIZE_CB], chunk: usize) -> (upload: (u64, &[u8]))
    requires
        chunk < MAX_BATCH_SIZE,
    ensures
        upload.0 == chunk * 32768 * 4,
        upload.1@.len() == 32768 * 4,
        upload.0 + upload.1@.len() <= (chunk + 1) * 32768 * 4,
{
    (voxel_offset(chunk), words_as_bytes(voxels.as_slice()))
}

/// The workgroups of the face culling pass for `chunks` chunks: four groups
/// of 256 columns for each of the six faces of each chunk.
pub fn face_culling_groups(chunks: usize) -> (groups: (u32, u32, u32))
    requires
        chunks <= MAX_BATCH_SIZE,
    ensures
        groups == (4u32, 6u32, chunks as u32),
{
    (4, 6, chunks as u32)
}

/// The workgroups of the merge pass for `chunks` chunks: one group for each
/// of the 32 layers of each of the six faces of each chunk.
pub fn greedy_merge_groups(chunks: usize) -> (groups: (u32, u32, u32))
    requires
        chunks <= MAX_BATCH_SIZE,
    ensures
        groups == (32u32, 6u32, chunks as u32),
{
    (32, 6, chunks as u32)
}

/// Where the face culling pass writes the mask of the column `(row, layer)`
/// of the face `face` of the chunk number `chunk`.
pub fn face_mask_index(chunk: usize, face: usize, row: usize, layer: usize) -> (i: usize)
    requires
        chunk < MAX_BATCH_SIZE,
        face < 6,
        row < 32,
        layer < 32,
    ensures
        i == chunk * 6144 + face * 1024 + row * 32 + layer,
        i < (chunk + 1) * 6144,
{
    chunk * FACE_MASK_STRIDE + face * 1024 + row * 32 + layer
}

/// The number of quads to read for a chunk whose counter holds `counter`: no
/// more than [`MAX_QUADS`].
pub fn quad_count(counter: u32) -> (n: usize)
    ensures
        n == if counter <= 65536 {
            counter as int
        } else {
            65536
        },
{
    if counter as usize <= MAX_QUADS {
        counter as usize
    } else {
        MAX_QUADS
    }
}

/// The little-endian word in the four bytes from `at` on.
pub open spec fn le_word(bytes: Seq<u8>, at: int) -> u32 {
    (bytes[at] + 256 * bytes[at + 1] + 65536 * bytes[at + 2] + 16777216 * bytes[at + 3]) as u32
}

/// The packed quad in the eight bytes from `at` on.
pub open spec fn le_quad(bytes: Seq<u8>, at: int) -> PackedQuad {
    PackedQuad { word0: le_word(bytes, at), block_type: le_word(bytes, at + 4) }
}

/// The little-endian word in the four bytes from `at` on.
pub fn read_word(bytes: &[u8], at: usize) -> (word: u32)
    requires
        at + 4 <= bytes@.len(),
    ensures
        word == le_word(bytes@, at as int),
{
    (bytes[at] as u32) + 256 * (bytes[at + 1] as u32) + 65536 * (bytes[at + 2] as u32) + 16777216
        * (bytes[at + 3] as u32)
}

/// The `count` packed quads that `bytes` holds from the quad number `first` on.
pub fn quads_from_bytes(bytes: &[u8], first: usize, count: usize) -> (quads: Vec<PackedQuad>)
    requires
        (first + count) * 8 <= bytes@.len(),
    ensures
        quads@.len() == count,
        forall|i: int|
            0 <= i < count ==> #[trigger] quads@[i] == le_quad(bytes@, (first + i) * 8),
{
    let mut quads = Vec::new();
    let total = bytes.len();
    for i in 0..count
        invariant
            total == bytes@.len(),
            (first + count) * 8 <= bytes@.len(),
            quads@.len() == i,
            forall|j: int| 0 <= j < i ==> #[trigger] quads@[j] == le_quad(bytes@, (first + j) * 8),
    {
        assert((first + i) * 8 + 8 <= (first + count) * 8);
        let at = (first + i) * 8;
        let word0 = read_word(bytes, at);
        let block_type = read_word(bytes, at + 4);
        quads.push(PackedQuad { word0, block_type });
    }
    quads
}

/// The quads of each of the `chunks` chunks of a dispatch, read from what the
/// staging buffers hold: the counters in `counter_bytes`, one word for each
/// chunk, and the quads in `quad_bytes`, where the quads of the chunk number
/// `i` start at the quad number `i * MAX_QUADS`. Of each chunk, as many
/// quads are read as its counter says, at most [`MAX_QUADS`].
pub fn batch_from_bytes(quad_bytes: &[u8], counter_bytes: &[u8], chunks: usize) -> (results: Vec<
    Vec<PackedQuad>,
>)
    requires
        chunks <= MAX_BATCH_SIZE,
        chunks * 4 <= counter_bytes@.len(),
        chunks * 65536 * 8 <= quad_bytes@.len(),
    ensures
        results@.len() == chunks,
        forall|c: int|
            0 <= c < chunks ==> {
                let count = if le_word(counter_bytes@, c * 4) <= 65536 {
                    le_word(counter_bytes@, c * 4) as int
                } else {
                    65536
                };
                &&& (#[trigger] results@[c])@.len() == count
                &&& forall|i: int|
                    0 <= i < count ==> #[trigger] results@[c]@[i] == le_quad(
                        quad_bytes@,
                        (c * 65536 + i) * 8,
                    )
            },
{
    let mut results: Vec<Vec<PackedQuad>> = Vec::new();
    for c in 0..chunks
        invariant
            chunks <= MAX_BATCH_SIZE,
            chunks * 4 <= counter_bytes@.len(),
            chunks * 65536 * 8 <= quad_bytes@.len(),
            results@.len() == c,
            forall|d: int|
                0 <= d < c ==> {
                    let count = if le_word(counter_bytes@, d * 4) <= 65536 {
                        le_word(counter_bytes@, d * 4) as int
                    } else {
                        65536
                    };
                    &&& (#[trigger] results@[d])@.len() == count
                    &&& forall|i: int|
                        0 <= i < count ==> #[trigger] results@[d]@[i] == le_quad(
                            quad_bytes@,
                            (d * 65536 + i) * 8,
                        )
                },
    {
        let count = quad_count(read_word(counter_bytes, c * 4));
        let chunk_offset = c * MAX_QUADS;
        let ghost before = results@;
        if count == 0 {
            results.push(Vec::new());
        } else {
            results.push(quads_from_bytes(quad_bytes, chunk_offset, count));
        }
        proof {
            assert forall|d: int| 0 <= d < c + 1 implies {
                let count = if le_word(counter_bytes@, d * 4) <= 65536 {
                    le_word(counter_bytes@, d * 4) as int
                } else {
                    65536
                };
                &&& (#[trigger] results@[d])@.len() == count
                &&& forall|i: int|
                    0 <= i < count ==> #[trigger] results@[d]@[i] == le_quad(
                        quad_bytes@,
                        (d * 65536 + i) * 8,
                    )
            } by {
                if d < c {
                    assert(results@[d] == before[d]);
                }
            }
        }
    }
    results
}

} // verus!
