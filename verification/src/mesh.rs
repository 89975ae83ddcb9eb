//! The faces of a block, and the search for the rectangles of like faces
//! that a chunk's surface is drawn with.

use vstd::prelude::*;
use crate::terrain::{block_index, in_volume, Block, BlockType, Terrain, CHUNK_SIZE, VOLUME_BLOCKS};

verus! {

/// The number of directions a face of a block can look in.
pub const NUM_FACES: usize = 6;

/// A position of a block within a chunk, or a step from one block to another.
#[derive(Clone, Copy, Debug, PartialEq, Eq, Hash, Structural)]
pub struct BlockCoord {
    pub x: i64,
    pub y: i64,
    pub z: i64,
}

/// One of the six directions a face of a block can look in, with the axes
/// along which faces of that direction are scanned and merged.
#[derive(Clone, Copy, Debug)]
pub struct Face {
    /// The face's number, below `NUM_FACES`.
    pub index: usize,
    /// The unit step out of the block through this face.
    pub normal: BlockCoord,
    /// The axis of the outermost scan.
    pub di: BlockCoord,
    /// The axis of the middle scan, along which a rectangle is widened last.
    pub dj: BlockCoord,
    /// The axis of the innermost scan, along which a rectangle is grown first.
    pub dk: BlockCoord,
    /// The four corners of the face on a unit block, as a triangle strip.
    pub vertices: [BlockCoord; 4],
}

/// The number of blocks in a chunk.
pub const CHUNK_BLOCKS: usize = 32768;

/// Whether `p` names a block of the chunk itself, not of its margin.
pub open spec fn in_chunk(p: BlockCoord) -> bool {
    &&& 0 <= p.x < CHUNK_SIZE
    &&& 0 <= p.y < CHUNK_SIZE
    &&& 0 <= p.z < CHUNK_SIZE
}

/// Whether `d` is a step of one block along one of the three axes, in the
/// direction in which the coordinate grows.
pub open spec fn is_axis(d: BlockCoord) -> bool {
    ||| d == (BlockCoord { x: 1, y: 0, z: 0 })
    ||| d == (BlockCoord { x: 0, y: 1, z: 0 })
    ||| d == (BlockCoord { x: 0, y: 0, z: 1 })
}

/// The block `n` steps of `d` from `p`, for a step `d` along an axis.
pub open spec fn stepped(p: BlockCoord, d: BlockCoord, n: int) -> BlockCoord {
    BlockCoord {
        x: (p.x + if d.x == 1 { n } else { 0 }) as i64,
        y: (p.y + if d.y == 1 { n } else { 0 }) as i64,
        z: (p.z + if d.z == 1 { n } else { 0 }) as i64,
    }
}

/// How many blocks of the chunk lie from `p` onwards along the axis `d`, `p`
/// included.
pub open spec fn room(p: BlockCoord, d: BlockCoord) -> int {
    if d.x == 1 {
        CHUNK_SIZE - p.x
    } else if d.y == 1 {
        CHUNK_SIZE - p.y
    } else {
        CHUNK_SIZE - p.z
    }
}

impl BlockCoord {
    pub fn new(x: i64, y: i64, z: i64) -> (p: BlockCoord)
        ensures
            p == (BlockCoord { x, y, z }),
    {
        BlockCoord { x, y, z }
    }

    /// The block `n` steps of `d` from `self`.
    pub fn step(&self, d: &BlockCoord, n: i64) -> (q: BlockCoord)
        requires
            is_axis(*d),
            0 <= self.x <= CHUNK_SIZE,
            0 <= self.y <= CHUNK_SIZE,
            0 <= self.z <= CHUNK_SIZE,
            0 <= n <= CHUNK_SIZE,
        ensures
            q == stepped(*self, *d, n as int),
    {
        BlockCoord {
            x: self.x + if d.x == 1 { n } else { 0 },
            y: self.y + if d.y == 1 { n } else { 0 },
            z: self.z + if d.z == 1 { n } else { 0 },
        }
    }
}

/// Where the block at `p` stands in a bitmap, which is laid out with `z`
/// running fastest.
pub open spec fn bitmap_index(p: BlockCoord) -> int {
    p.x * CHUNK_SIZE * CHUNK_SIZE + p.y * CHUNK_SIZE + p.z
}

/// A set of blocks of one chunk.
pub struct BlockBitmap {
    set: Vec<bool>,
}

impl View for BlockBitmap {
    type V = Set<BlockCoord>;

    closed spec fn view(&self) -> Set<BlockCoord> {
        Set::new(|p: BlockCoord| in_chunk(p) && self.set@[bitmap_index(p)])
    }
}

impl BlockBitmap {
    #[verifier::type_invariant]
    spec fn well_formed(self) -> bool {
        self.set@.len() == CHUNK_BLOCKS
    }

    /// The empty set.
    pub fn new() -> (bitmap: BlockBitmap)
        ensures
            bitmap@ == Set::<BlockCoord>::empty(),
    {
        let mut set: Vec<bool> = Vec::new();
        let mut i: usize = 0;
        while i < CHUNK_BLOCKS
            invariant
                i <= CHUNK_BLOCKS,
                set@.len() == i,
                forall|j: int| 0 <= j < i ==> !set@[j],
            decreases CHUNK_BLOCKS - i,
        {
            set.push(false);
            i += 1;
        }
        let bitmap = BlockBitmap { set };
        assert(bitmap@ =~= Set::empty());
        bitmap
    }

    fn index(x: i64, y: i64, z: i64) -> (i: usize)
        requires
            in_chunk(BlockCoord { x, y, z }),
        ensures
            i == bitmap_index(BlockCoord { x, y, z }),
            i < CHUNK_BLOCKS,
    {
        (x * CHUNK_SIZE * CHUNK_SIZE + y * CHUNK_SIZE + z) as usize
    }

    /// Whether the block at `(x, y, z)` is in the set.
    pub fn contains(&self, x: i64, y: i64, z: i64) -> (r: bool)
        requires
            in_chunk(BlockCoord { x, y, z }),
        ensures
            r == self@.contains(BlockCoord { x, y, z }),
    {
        proof {
            use_type_invariant(self);
        }
        self.set[BlockBitmap::index(x, y, z)]
    }

    /// Puts the block at `(x, y, z)` into the set.
    pub fn insert(&mut self, x: i64, y: i64, z: i64)
        requires
            in_chunk(BlockCoord { x, y, z }),
        ensures
            final(self)@ == old(self)@.insert(BlockCoord { x, y, z }),
    {
        proof {
            use_type_invariant(&*self);
        }
        let i = BlockBitmap::index(x, y, z);
        self.set[i] = true;
        proof {
            lemma_bitmap_index_injective();
            assert(self@ =~= old(self)@.insert(BlockCoord { x, y, z }));
        }
    }

    /// Takes the block at `(x, y, z)` out of the set.
    pub fn remove(&mut self, x: i64, y: i64, z: i64)
        requires
            in_chunk(BlockCoord { x, y, z }),
        ensures
            final(self)@ == old(self)@.remove(BlockCoord { x, y, z }),
    {
        proof {
            use_type_invariant(&*self);
        }
        let i = BlockBitmap::index(x, y, z);
        self.set[i] = false;
        proof {
            lemma_bitmap_index_injective();
            assert(self@ =~= old(self)@.remove(BlockCoord { x, y, z }));
        }
    }
}

/// Distinct blocks of the chunk stand at distinct places in a bitmap.
proof fn lemma_bitmap_index_injective()
    ensures
        forall|p: BlockCoord, q: BlockCoord|
            in_chunk(p) && in_chunk(q) && #[trigger] bitmap_index(p) == #[trigger] bitmap_index(q)
                ==> p == q,
        forall|p: BlockCoord| in_chunk(p) ==> 0 <= #[trigger] bitmap_index(p) < CHUNK_BLOCKS,
{
}

/// The type of the block at `p`.
pub open spec fn type_at(t: Seq<Block>, p: BlockCoord) -> BlockType {
    t[block_index(p.x as int, p.y as int, p.z as int)].blocktype
}

/// Whether the face of the block at `q` can join a rectangle begun at `p`:
/// it is still to be meshed, and the two blocks are of one type.
pub open spec fn mergeable(
    t: Seq<Block>,
    unmeshed: Set<BlockCoord>,
    p: BlockCoord,
    q: BlockCoord,
) -> bool {
    unmeshed.contains(q) && type_at(t, q) == type_at(t, p)
}

/// `len` is the length of the run that starts at `p` and goes along `d`: the
/// faces of the `len - 1` blocks after `p` can all join `p`, and the run
/// stops at the edge of the chunk or before a face that cannot.
pub open spec fn is_run_length(
    t: Seq<Block>,
    unmeshed: Set<BlockCoord>,
    p: BlockCoord,
    d: BlockCoord,
    len: int,
) -> bool {
    &&& 1 <= len <= room(p, d)
    &&& forall|i: int| 1 <= i < len ==> mergeable(t, unmeshed, p, #[trigger] stepped(p, d, i))
    &&& len < room(p, d) ==> !mergeable(t, unmeshed, p, stepped(p, d, len))
}

/// The length of the run that starts at `p` and goes along `d`.
pub open spec fn run_length_spec(
    t: Seq<Block>,
    unmeshed: Set<BlockCoord>,
    p: BlockCoord,
    d: BlockCoord,
) -> int {
    choose|len: int| is_run_length(t, unmeshed, p, d, len)
}

/// A run has one length.
pub proof fn lemma_run_length_unique(
    t: Seq<Block>,
    unmeshed: Set<BlockCoord>,
    p: BlockCoord,
    d: BlockCoord,
    len: int,
)
    requires
        is_run_length(t, unmeshed, p, d, len),
    ensures
        run_length_spec(t, unmeshed, p, d) == len,
{
    let other = run_length_spec(t, unmeshed, p, d);
    assert(is_run_length(t, unmeshed, p, d, other));
    if other < len {
        assert(mergeable(t, unmeshed, p, stepped(p, d, other)));
    } else if len < other {
        assert(mergeable(t, unmeshed, p, stepped(p, d, len)));
    }
}

/// The shortest of the runs along `across` that start at the first `n`
/// blocks of the run from `p` along `along`.
pub open spec fn narrowest_run(
    t: Seq<Block>,
    unmeshed: Set<BlockCoord>,
    p: BlockCoord,
    along: BlockCoord,
    across: BlockCoord,
    n: int,
) -> int
    decreases n,
{
    if n <= 1 {
        run_length_spec(t, unmeshed, p, across)
    } else {
        let rest = narrowest_run(t, unmeshed, p, along, across, n - 1);
        let last = run_length_spec(t, unmeshed, stepped(p, along, n - 1), across);
        if last < rest {
            last
        } else {
            rest
        }
    }
}

/// The size of the rectangle of faces that is meshed from `p`: as long along
/// `dk` as the run from `p` goes, and as wide along `dj` as the narrowest
/// run across it allows; one block thick.
pub open spec fn expand_spec(
    t: Seq<Block>,
    unmeshed: Set<BlockCoord>,
    dj: BlockCoord,
    dk: BlockCoord,
    p: BlockCoord,
) -> BlockCoord {
    let len_k = run_length_spec(t, unmeshed, p, dk);
    let len_j = narrowest_run(t, unmeshed, p, dk, dj, len_k);
    stepped(stepped(BlockCoord { x: 1, y: 1, z: 1 }, dk, len_k - 1), dj, len_j - 1)
}

/// The length of the run of faces that starts at `p` and goes along `dp`.
pub fn run_length(t: &Terrain, unmeshed_faces: &BlockBitmap, p: BlockCoord, dp: BlockCoord) -> (len:
    i64)
    requires
        in_chunk(p),
        is_axis(dp),
    ensures
        is_run_length(t@, unmeshed_faces@, p, dp, len as int),
        len == run_length_spec(t@, unmeshed_faces@, p, dp),
{
    let block = t.get(p.x, p.y, p.z);
    let max_len = if dp.x == 1 {
        CHUNK_SIZE - p.x
    } else if dp.y == 1 {
        CHUNK_SIZE - p.y
    } else {
        CHUNK_SIZE - p.z
    };
    let mut len: i64 = 1;
    let mut going = true;
    while going && len < max_len
        invariant
            in_chunk(p),
            is_axis(dp),
            t@.len() == VOLUME_BLOCKS,
            block.blocktype == type_at(t@, p),
            max_len == room(p, dp),
            1 <= len <= max_len,
            forall|i: int|
                1 <= i < len ==> mergeable(t@, unmeshed_faces@, p, #[trigger] stepped(p, dp, i)),
            !going ==> len < max_len && !mergeable(
                t@,
                unmeshed_faces@,
                p,
                stepped(p, dp, len as int),
            ),
        decreases max_len - len + if going { 1int } else { 0int },
    {
        let q = p.step(&dp, len);
        if unmeshed_faces.contains(q.x, q.y, q.z) {
            let b = t.get(q.x, q.y, q.z);
            if b.blocktype == block.blocktype {
                len += 1;
            } else {
                going = false;
            }
        } else {
            going = false;
        }
    }
    proof {
        lemma_run_length_unique(t@, unmeshed_faces@, p, dp, len as int);
    }
    len
}

/// The size of the rectangle of faces that is meshed from `p`.
pub fn expand_face(t: &Terrain, unmeshed_faces: &BlockBitmap, face: &Face, p: BlockCoord) -> (dim:
    BlockCoord)
    requires
        in_chunk(p),
        is_axis(face.dj),
        is_axis(face.dk),
        face.dj != face.dk,
    ensures
        dim == expand_spec(t@, unmeshed_faces@, face.dj, face.dk, p),
        1 <= dim.x <= CHUNK_SIZE - p.x,
        1 <= dim.y <= CHUNK_SIZE - p.y,
        1 <= dim.z <= CHUNK_SIZE - p.z,
{
    let len_k = run_length(t, unmeshed_faces, p, face.dk);
    let mut len_j = run_length(t, unmeshed_faces, p, face.dj);
    let mut k: i64 = 1;
    while k < len_k
        invariant
            in_chunk(p),
            is_axis(face.dj),
            is_axis(face.dk),
            1 <= k <= len_k <= room(p, face.dk),
            1 <= len_j <= room(p, face.dj),
            len_j == narrowest_run(t@, unmeshed_faces@, p, face.dk, face.dj, k as int),
        decreases len_k - k,
    {
        let q = p.step(&face.dk, k);
        let run = run_length(t, unmeshed_faces, q, face.dj);
        if run < len_j {
            len_j = run;
        }
        k += 1;
    }
    let one = BlockCoord { x: 1, y: 1, z: 1 };
    one.step(&face.dk, len_k - 1).step(&face.dj, len_j - 1)
}

/// Whether `n` is a step of one block along an axis, in either direction.
pub open spec fn is_normal(n: BlockCoord) -> bool {
    ||| is_axis(n)
    ||| n == (BlockCoord { x: -1i64, y: 0, z: 0 })
    ||| n == (BlockCoord { x: 0, y: -1i64, z: 0 })
    ||| n == (BlockCoord { x: 0, y: 0, z: -1i64 })
}

/// What the mesher asks of a face: a number below `NUM_FACES`, a normal
/// along an axis, the three axes as scan directions, and corners on the unit
/// block.
pub open spec fn face_valid(face: Face) -> bool {
    &&& face.index < NUM_FACES
    &&& is_normal(face.normal)
    &&& is_axis(face.di)
    &&& is_axis(face.dj)
    &&& is_axis(face.dk)
    &&& face.di != face.dj
    &&& face.di != face.dk
    &&& face.dj != face.dk
    &&& forall|v: int|
        0 <= v < 4 ==> {
            let c = #[trigger] face.vertices[v];
            0 <= c.x <= 1 && 0 <= c.y <= 1 && 0 <= c.z <= 1
        }
}

/// The six faces: front, back, right, left, top, bottom.
pub open spec fn face_spec(index: usize) -> Face {
    let b = |x: i64, y: i64, z: i64| BlockCoord { x, y, z };
    if index == 0 {
        Face {
            index: 0,
            normal: b(0, 0, 1),
            di: b(0, 0, 1),
            dj: b(1, 0, 0),
            dk: b(0, 1, 0),
            vertices: [b(0, 0, 1), b(1, 0, 1), b(0, 1, 1), b(1, 1, 1)],
        }
    } else if index == 1 {
        Face {
            index: 1,
            normal: b(0, 0, -1i64),
            di: b(0, 0, 1),
            dj: b(1, 0, 0),
            dk: b(0, 1, 0),
            vertices: [b(1, 0, 0), b(0, 0, 0), b(1, 1, 0), b(0, 1, 0)],
        }
    } else if index == 2 {
        Face {
            index: 2,
            normal: b(1, 0, 0),
            di: b(1, 0, 0),
            dj: b(0, 1, 0),
            dk: b(0, 0, 1),
            vertices: [b(1, 0, 1), b(1, 0, 0), b(1, 1, 1), b(1, 1, 0)],
        }
    } else if index == 3 {
        Face {
            index: 3,
            normal: b(-1i64, 0, 0),
            di: b(1, 0, 0),
            dj: b(0, 1, 0),
            dk: b(0, 0, 1),
            vertices: [b(0, 0, 0), b(0, 0, 1), b(0, 1, 0), b(0, 1, 1)],
        }
    } else if index == 4 {
        Face {
            index: 4,
            normal: b(0, 1, 0),
            di: b(0, 1, 0),
            dj: b(1, 0, 0),
            dk: b(0, 0, 1),
            vertices: [b(0, 1, 1), b(1, 1, 1), b(0, 1, 0), b(1, 1, 0)],
        }
    } else {
        Face {
            index: 5,
            normal: b(0, -1i64, 0),
            di: b(0, 1, 0),
            dj: b(1, 0, 0),
            dk: b(0, 0, 1),
            vertices: [b(0, 0, 0), b(1, 0, 0), b(0, 0, 1), b(1, 0, 1)],
        }
    }
}

/// The face of number `index`.
pub fn face(index: usize) -> (face: Face)
    requires
        index < NUM_FACES,
    ensures
        face == face_spec(index),
        face.index == index,
        face_valid(face),
{
    let face = if index == 0 {
        Face {
            index: 0,
            normal: BlockCoord { x: 0, y: 0, z: 1 },
            di: BlockCoord { x: 0, y: 0, z: 1 },
            dj: BlockCoord { x: 1, y: 0, z: 0 },
            dk: BlockCoord { x: 0, y: 1, z: 0 },
            vertices: [
                BlockCoord { x: 0, y: 0, z: 1 },
                BlockCoord { x: 1, y: 0, z: 1 },
                BlockCoord { x: 0, y: 1, z: 1 },
                BlockCoord { x: 1, y: 1, z: 1 },
            ],
        }
    } else if index == 1 {
        Face {
            index: 1,
            normal: BlockCoord { x: 0, y: 0, z: -1 },
            di: BlockCoord { x: 0, y: 0, z: 1 },
            dj: BlockCoord { x: 1, y: 0, z: 0 },
            dk: BlockCoord { x: 0, y: 1, z: 0 },
            vertices: [
                BlockCoord { x: 1, y: 0, z: 0 },
                BlockCoord { x: 0, y: 0, z: 0 },
                BlockCoord { x: 1, y: 1, z: 0 },
                BlockCoord { x: 0, y: 1, z: 0 },
            ],
        }
    } else if index == 2 {
        Face {
            index: 2,
            normal: BlockCoord { x: 1, y: 0, z: 0 },
            di: BlockCoord { x: 1, y: 0, z: 0 },
            dj: BlockCoord { x: 0, y: 1, z: 0 },
            dk: BlockCoord { x: 0, y: 0, z: 1 },
            vertices: [
                BlockCoord { x: 1, y: 0, z: 1 },
                BlockCoord { x: 1, y: 0, z: 0 },
                BlockCoord { x: 1, y: 1, z: 1 },
                BlockCoord { x: 1, y: 1, z: 0 },
            ],
        }
    } else if index == 3 {
        Face {
            index: 3,
            normal: BlockCoord { x: -1, y: 0, z: 0 },
            di: BlockCoord { x: 1, y: 0, z: 0 },
            dj: BlockCoord { x: 0, y: 1, z: 0 },
            dk: BlockCoord { x: 0, y: 0, z: 1 },
            vertices: [
                BlockCoord { x: 0, y: 0, z: 0 },
                BlockCoord { x: 0, y: 0, z: 1 },
                BlockCoord { x: 0, y: 1, z: 0 },
                BlockCoord { x: 0, y: 1, z: 1 },
            ],
        }
    } else if index == 4 {
        Face {
            index: 4,
            normal: BlockCoord { x: 0, y: 1, z: 0 },
            di: BlockCoord { x: 0, y: 1, z: 0 },
            dj: BlockCoord { x: 1, y: 0, z: 0 },
            dk: BlockCoord { x: 0, y: 0, z: 1 },
            vertices: [
                BlockCoord { x: 0, y: 1, z: 1 },
                BlockCoord { x: 1, y: 1, z: 1 },
                BlockCoord { x: 0, y: 1, z: 0 },
                BlockCoord { x: 1, y: 1, z: 0 },
            ],
        }
    } else {
        Face {
            index: 5,
            normal: BlockCoord { x: 0, y: -1, z: 0 },
            di: BlockCoord { x: 0, y: 1, z: 0 },
            dj: BlockCoord { x: 1, y: 0, z: 0 },
            dk: BlockCoord { x: 0, y: 0, z: 1 },
            vertices: [
                BlockCoord { x: 0, y: 0, z: 0 },
                BlockCoord { x: 1, y: 0, z: 0 },
                BlockCoord { x: 0, y: 0, z: 1 },
                BlockCoord { x: 1, y: 0, z: 1 },
            ],
        }
    };
    face
}

/// One rectangle of the mesh: the faces, in direction `face`, of the blocks
/// from `origin` up to `origin + dim`, all of type `blocktype`.
#[derive(Clone, Copy, Debug, PartialEq, Eq, Structural)]
pub struct Quad {
    pub face: usize,
    pub origin: BlockCoord,
    pub dim: BlockCoord,
    pub blocktype: BlockType,
}

/// One corner of a rectangle, as it goes to the vertex buffer.
#[derive(Clone, Copy, Debug, PartialEq, Eq, Structural)]
pub struct VertexData {
    /// The corner's position in the chunk, in blocks.
    pub position: BlockCoord,
    /// The type of the blocks the rectangle covers.
    pub blocktype: BlockType,
}

/// The render geometry of one chunk: four vertices and two triangles for
/// each rectangle, grouped by the direction of the faces.
#[derive(Debug)]
pub struct Mesh {
    pub vertices: Vec<VertexData>,
    pub elements: Vec<u32>,
    /// For each face direction, where its elements start and how many there
    /// are.
    pub face_ranges: [(usize, usize); 6],
}

/// The faces in direction `normal` that can be seen: those of blocks that
/// are not air and whose neighbour in that direction is.
pub open spec fn visible_faces(t: Seq<Block>, normal: BlockCoord) -> Set<BlockCoord> {
    Set::new(
        |p: BlockCoord|
            in_chunk(p) && type_at(t, p) != BlockType::BlockAir && !t[block_index(
                p.x + normal.x,
                p.y + normal.y,
                p.z + normal.z,
            )].is_opaque(),
    )
}

/// The block that the scan of `face` looks at in step `n`: the scan runs
/// along `di` slowest and along `dk` fastest.
pub open spec fn scan_pos(face: Face, n: int) -> BlockCoord {
    stepped(
        stepped(
            stepped(BlockCoord { x: 0, y: 0, z: 0 }, face.di, n / (CHUNK_SIZE * CHUNK_SIZE)),
            face.dj,
            (n / (CHUNK_SIZE as int)) % (CHUNK_SIZE as int),
        ),
        face.dk,
        n % (CHUNK_SIZE as int),
    )
}

/// Whether the block `q` lies in the box of size `dim` at `p`.
pub open spec fn in_box(q: BlockCoord, p: BlockCoord, dim: BlockCoord) -> bool {
    &&& p.x <= q.x < p.x + dim.x
    &&& p.y <= q.y < p.y + dim.y
    &&& p.z <= q.z < p.z + dim.z
}

/// Where the scan of one face direction stands: the faces still to be
/// meshed, and the rectangles found.
pub struct ScanState {
    pub unmeshed: Set<BlockCoord>,
    pub quads: Seq<Quad>,
}

/// One step of the scan: a face that is still to be meshed starts a
/// rectangle, which is grown as far as `expand_spec` says and whose faces
/// are then meshed; any other block is passed over.
pub open spec fn scan_step(t: Seq<Block>, face: Face, st: ScanState, n: int) -> ScanState {
    let p = scan_pos(face, n);
    if st.unmeshed.contains(p) {
        let dim = expand_spec(t, st.unmeshed, face.dj, face.dk, p);
        ScanState {
            unmeshed: Set::new(|q: BlockCoord| st.unmeshed.contains(q) && !in_box(q, p, dim)),
            quads: st.quads.push(
                Quad { face: face.index, origin: p, dim, blocktype: type_at(t, p) },
            ),
        }
    } else {
        st
    }
}

/// The scan of `face` after `n` steps, begun with every visible face
/// unmeshed.
pub open spec fn scan_upto(t: Seq<Block>, face: Face, n: int) -> ScanState
    decreases n,
{
    if n <= 0 {
        ScanState { unmeshed: visible_faces(t, face.normal), quads: Seq::empty() }
    } else {
        scan_step(t, face, scan_upto(t, face, n - 1), n - 1)
    }
}

/// The rectangles that the visible faces in direction `face` are meshed
/// into.
pub open spec fn face_quads(t: Seq<Block>, face: Face) -> Seq<Quad> {
    scan_upto(t, face, CHUNK_BLOCKS as int).quads
}

/// The rectangles of the first `count` face directions, one direction after
/// the other.
pub open spec fn mesh_quads(t: Seq<Block>, count: int) -> Seq<Quad>
    decreases count,
{
    if count <= 0 {
        Seq::empty()
    } else {
        mesh_quads(t, count - 1) + face_quads(t, face_spec((count - 1) as usize))
    }
}

/// Corner `v` of the rectangle `quad`: the corner of the unit face,
/// stretched to the rectangle's size and moved to its origin.
pub open spec fn quad_vertex(quad: Quad, v: int) -> VertexData {
    let c = face_spec(quad.face).vertices[v];
    VertexData {
        position: BlockCoord {
            x: (quad.origin.x + if c.x == 1 { quad.dim.x } else { 0 }) as i64,
            y: (quad.origin.y + if c.y == 1 { quad.dim.y } else { 0 }) as i64,
            z: (quad.origin.z + if c.z == 1 { quad.dim.z } else { 0 }) as i64,
        },
        blocktype: quad.blocktype,
    }
}

/// The vertices of `quads`: four for each, in order.
pub open spec fn vertices_of(quads: Seq<Quad>) -> Seq<VertexData> {
    Seq::new(4 * quads.len(), |i: int| quad_vertex(quads[i / 4], i % 4))
}

/// The corner that element `e` of a rectangle's two triangles refers to.
pub open spec fn face_element(e: int) -> int {
    if e == 0 {
        0
    } else if e == 1 || e == 5 {
        1
    } else if e == 2 || e == 4 {
        2
    } else {
        3
    }
}

/// The elements of `quads`: six for each, referring to its four vertices.
pub open spec fn elements_of(quads: Seq<Quad>) -> Seq<u32> {
    Seq::new(6 * quads.len(), |i: int| (4 * (i / 6) + face_element(i % 6)) as u32)
}

/// Whether `mesh` is the mesh of the blocks `t`: its vertices and elements
/// are those of the rectangles that the six face directions are meshed into,
/// one direction after the other, and its ranges say where the elements of
/// each direction lie.
pub open spec fn is_mesh_of(mesh: Mesh, t: Seq<Block>) -> bool {
    &&& mesh.vertices@ == vertices_of(mesh_quads(t, NUM_FACES as int))
    &&& mesh.elements@ == elements_of(mesh_quads(t, NUM_FACES as int))
    &&& forall|f: int|
        0 <= f < NUM_FACES ==> (#[trigger] mesh.face_ranges[f]) == (
            (6 * mesh_quads(t, f).len()) as usize,
            (6 * face_quads(t, face_spec(f as usize)).len()) as usize,
        )
}

/// Whether the block `p` comes before the block `(x, y, z)` when the chunk is
/// gone through with `x` running slowest and `z` fastest.
spec fn walked(p: BlockCoord, x: int, y: int, z: int) -> bool {
    p.x < x || (p.x == x && (p.y < y || (p.y == y && p.z < z)))
}

/// The visible faces, in direction `face.normal`, of the whole chunk.
fn mark_visible(t: &Terrain, face: &Face) -> (unmeshed: BlockBitmap)
    requires
        is_normal(face.normal),
    ensures
        unmeshed@ == visible_faces(t@, face.normal),
{
    let mut unmeshed = BlockBitmap::new();
    let n = face.normal;
    let ghost all = visible_faces(t@, n);
    let mut x: i64 = 0;
    while x < CHUNK_SIZE
        invariant
            is_normal(n),
            all == visible_faces(t@, n),
            0 <= x <= CHUNK_SIZE,
            unmeshed@ == Set::new(|p: BlockCoord| all.contains(p) && walked(p, x as int, 0, 0)),
        decreases CHUNK_SIZE - x,
    {
        let mut y: i64 = 0;
        while y < CHUNK_SIZE
            invariant
                is_normal(n),
                all == visible_faces(t@, n),
                0 <= x < CHUNK_SIZE,
                0 <= y <= CHUNK_SIZE,
                unmeshed@ == Set::new(
                    |p: BlockCoord| all.contains(p) && walked(p, x as int, y as int, 0),
                ),
            decreases CHUNK_SIZE - y,
        {
            let mut z: i64 = 0;
            while z < CHUNK_SIZE
                invariant
                    is_normal(n),
                    all == visible_faces(t@, n),
                    0 <= x < CHUNK_SIZE,
                    0 <= y < CHUNK_SIZE,
                    0 <= z <= CHUNK_SIZE,
                    unmeshed@ == Set::new(
                        |p: BlockCoord| all.contains(p) && walked(p, x as int, y as int, z as int),
                    ),
                decreases CHUNK_SIZE - z,
            {
                let ghost before = unmeshed@;
                let block = t.get(x, y, z);
                let mut seen = false;
                if block.blocktype != BlockType::BlockAir {
                    let neighbor = t.get(x + n.x, y + n.y, z + n.z);
                    if !neighbor.is_opaque() {
                        unmeshed.insert(x, y, z);
                        seen = true;
                    }
                }
                proof {
                    let here = BlockCoord { x, y, z };
                    assert(seen == all.contains(here));
                    assert(unmeshed@ =~= Set::new(
                        |p: BlockCoord|
                            all.contains(p) && walked(p, x as int, y as int, z as int + 1),
                    ));
                }
                z += 1;
            }
            proof {
                assert(unmeshed@ =~= Set::new(
                    |p: BlockCoord| all.contains(p) && walked(p, x as int, y as int + 1, 0),
                ));
            }
            y += 1;
        }
        proof {
            assert(unmeshed@ =~= Set::new(
                |p: BlockCoord| all.contains(p) && walked(p, x as int + 1, 0, 0),
            ));
        }
        x += 1;
    }
    proof {
        assert(unmeshed@ =~= all);
    }
    unmeshed
}

/// Takes the blocks of the box of size `dim` at `p` out of the set.
fn clear_box(unmeshed_faces: &mut BlockBitmap, p: BlockCoord, dim: BlockCoord)
    requires
        in_chunk(p),
        1 <= dim.x <= CHUNK_SIZE - p.x,
        1 <= dim.y <= CHUNK_SIZE - p.y,
        1 <= dim.z <= CHUNK_SIZE - p.z,
    ensures
        final(unmeshed_faces)@ == Set::new(
            |q: BlockCoord| old(unmeshed_faces)@.contains(q) && !in_box(q, p, dim),
        ),
{
    let ghost before = unmeshed_faces@;
    let mut dx: i64 = 0;
    while dx < dim.x
        invariant
            in_chunk(p),
            1 <= dim.x <= CHUNK_SIZE - p.x,
            1 <= dim.y <= CHUNK_SIZE - p.y,
            1 <= dim.z <= CHUNK_SIZE - p.z,
            0 <= dx <= dim.x,
            unmeshed_faces@ == Set::new(
                |q: BlockCoord|
                    before.contains(q) && !(in_box(q, p, dim) && walked(q, p.x + dx, p.y as int, p.z as int)),
            ),
        decreases dim.x - dx,
    {
        let mut dy: i64 = 0;
        while dy < dim.y
            invariant
                in_chunk(p),
                1 <= dim.x <= CHUNK_SIZE - p.x,
                1 <= dim.y <= CHUNK_SIZE - p.y,
                1 <= dim.z <= CHUNK_SIZE - p.z,
                0 <= dx < dim.x,
                0 <= dy <= dim.y,
                unmeshed_faces@ == Set::new(
                    |q: BlockCoord|
                        before.contains(q) && !(in_box(q, p, dim) && walked(
                            q,
                            p.x + dx,
                            p.y + dy,
                            p.z as int,
                        )),
                ),
            decreases dim.y - dy,
        {
            let mut dz: i64 = 0;
            while dz < dim.z
                invariant
                    in_chunk(p),
                    1 <= dim.x <= CHUNK_SIZE - p.x,
                    1 <= dim.y <= CHUNK_SIZE - p.y,
                    1 <= dim.z <= CHUNK_SIZE - p.z,
                    0 <= dx < dim.x,
                    0 <= dy < dim.y,
                    0 <= dz <= dim.z,
                    unmeshed_faces@ == Set::new(
                        |q: BlockCoord|
                            before.contains(q) && !(in_box(q, p, dim) && walked(
                                q,
                                p.x + dx,
                                p.y + dy,
                                p.z + dz,
                            )),
                    ),
                decreases dim.z - dz,
            {
                unmeshed_faces.remove(p.x + dx, p.y + dy, p.z + dz);
                proof {
                    assert(unmeshed_faces@ =~= Set::new(
                        |q: BlockCoord|
                            before.contains(q) && !(in_box(q, p, dim) && walked(
                                q,
                                p.x + dx,
                                p.y + dy,
                                p.z + dz + 1,
                            )),
                    ));
                }
                dz += 1;
            }
            proof {
                assert(unmeshed_faces@ =~= Set::new(
                    |q: BlockCoord|
                        before.contains(q) && !(in_box(q, p, dim) && walked(
                            q,
                            p.x + dx,
                            p.y + dy + 1,
                            p.z as int,
                        )),
                ));
            }
            dy += 1;
        }
        proof {
            assert(unmeshed_faces@ =~= Set::new(
                |q: BlockCoord|
                    before.contains(q) && !(in_box(q, p, dim) && walked(
                        q,
                        p.x + dx + 1,
                        p.y as int,
                        p.z as int,
                    )),
            ));
        }
        dx += 1;
    }
    proof {
        assert(unmeshed_faces@ =~= Set::new(
            |q: BlockCoord| before.contains(q) && !in_box(q, p, dim),
        ));
    }
}

/// Corner `v` of the rectangle of size `dim` at `p`.
fn corner_vertex(face: &Face, v: usize, p: BlockCoord, dim: BlockCoord, blocktype: BlockType) -> (vertex:
    VertexData)
    requires
        v < 4,
        *face == face_spec(face.index),
        in_chunk(p),
        1 <= dim.x <= CHUNK_SIZE - p.x,
        1 <= dim.y <= CHUNK_SIZE - p.y,
        1 <= dim.z <= CHUNK_SIZE - p.z,
    ensures
        vertex == quad_vertex(Quad { face: face.index, origin: p, dim, blocktype }, v as int),
{
    let c = face.vertices[v];
    VertexData {
        position: BlockCoord {
            x: p.x + if c.x == 1 { dim.x } else { 0 },
            y: p.y + if c.y == 1 { dim.y } else { 0 },
            z: p.z + if c.z == 1 { dim.z } else { 0 },
        },
        blocktype,
    }
}

/// Appends the four vertices and six elements of one more rectangle.
fn push_quad(
    vertices: &mut Vec<VertexData>,
    elements: &mut Vec<u32>,
    face: &Face,
    p: BlockCoord,
    dim: BlockCoord,
    blocktype: BlockType,
    Ghost(quads): Ghost<Seq<Quad>>,
)
    requires
        *face == face_spec(face.index),
        in_chunk(p),
        1 <= dim.x <= CHUNK_SIZE - p.x,
        1 <= dim.y <= CHUNK_SIZE - p.y,
        1 <= dim.z <= CHUNK_SIZE - p.z,
        quads.len() < 0x1000_0000,
        old(vertices)@ == vertices_of(quads),
        old(elements)@ == elements_of(quads),
    ensures
        final(vertices)@ == vertices_of(
            quads.push(Quad { face: face.index, origin: p, dim, blocktype }),
        ),
        final(elements)@ == elements_of(
            quads.push(Quad { face: face.index, origin: p, dim, blocktype }),
        ),
{
    let ghost quad = Quad { face: face.index, origin: p, dim, blocktype };
    let vertex_offset = vertices.len() as u32;
    vertices.push(corner_vertex(face, 0, p, dim, blocktype));
    vertices.push(corner_vertex(face, 1, p, dim, blocktype));
    vertices.push(corner_vertex(face, 2, p, dim, blocktype));
    vertices.push(corner_vertex(face, 3, p, dim, blocktype));
    elements.push(vertex_offset);
    elements.push(vertex_offset + 1);
    elements.push(vertex_offset + 2);
    elements.push(vertex_offset + 3);
    elements.push(vertex_offset + 2);
    elements.push(vertex_offset + 1);
    proof {
        let more = quads.push(quad);
        assert(vertices@ =~= vertices_of(more)) by {
            assert forall|i: int| 0 <= i < 4 * more.len() implies vertices@[i] == quad_vertex(
                more[i / 4],
                i % 4,
            ) by {
                if i < 4 * quads.len() {
                    assert(vertices@[i] == old(vertices)@[i]);
                    assert(more[i / 4] == quads[i / 4]);
                }
            }
        }
        assert(elements@ =~= elements_of(more)) by {
            assert forall|i: int| 0 <= i < 6 * more.len() implies elements@[i] == (4 * (i / 6)
                + face_element(i % 6)) as u32 by {
                if i < 6 * quads.len() {
                    assert(elements@[i] == old(elements)@[i]);
                }
            }
        }
    }
}

/// The scan looks at the block `(i, j, k)`, counted along its three axes, in
/// step `i * CHUNK_SIZE * CHUNK_SIZE + j * CHUNK_SIZE + k`, and that block
/// lies in the chunk.
proof fn lemma_scan_pos(face: Face, i: int, j: int, k: int)
    requires
        face_valid(face),
        0 <= i < CHUNK_SIZE,
        0 <= j < CHUNK_SIZE,
        0 <= k < CHUNK_SIZE,
    ensures
        scan_pos(face, i * CHUNK_SIZE * CHUNK_SIZE + j * CHUNK_SIZE + k) == stepped(
            stepped(stepped(BlockCoord { x: 0, y: 0, z: 0 }, face.di, i), face.dj, j),
            face.dk,
            k,
        ),
        in_chunk(scan_pos(face, i * CHUNK_SIZE * CHUNK_SIZE + j * CHUNK_SIZE + k)),
{
    let n = i * 1024 + j * 32 + k;
    assert(n / 1024 == i);
    assert((n / 32) % 32 == j);
    assert(n % 32 == k);
}

/// One step of the scan, at the block `p`.
fn scan_block(
    t: &Terrain,
    face: &Face,
    unmeshed_faces: &mut BlockBitmap,
    vertices: &mut Vec<VertexData>,
    elements: &mut Vec<u32>,
    p: BlockCoord,
    Ghost(prior): Ghost<Seq<Quad>>,
    Ghost(quads): Ghost<Seq<Quad>>,
    Ghost(n): Ghost<int>,
) -> (meshed: Ghost<Seq<Quad>>)
    requires
        face_valid(*face),
        *face == face_spec(face.index),
        in_chunk(p),
        p == scan_pos(*face, n),
        prior.len() + quads.len() < 0x1000_0000,
        old(vertices)@ == vertices_of(prior + quads),
        old(elements)@ == elements_of(prior + quads),
    ensures
        scan_step(t@, *face, ScanState { unmeshed: old(unmeshed_faces)@, quads }, n) == (ScanState {
            unmeshed: final(unmeshed_faces)@,
            quads: meshed@,
        }),
        quads.len() <= meshed@.len() <= quads.len() + 1,
        final(vertices)@ == vertices_of(prior + meshed@),
        final(elements)@ == elements_of(prior + meshed@),
{
    if unmeshed_faces.contains(p.x, p.y, p.z) {
        let block = t.get(p.x, p.y, p.z);
        let dim = expand_face(t, unmeshed_faces, face, p);
        clear_box(unmeshed_faces, p, dim);
        push_quad(vertices, elements, face, p, dim, block.blocktype, Ghost(prior + quads));
        let ghost quad = Quad { face: face.index, origin: p, dim, blocktype: block.blocktype };
        proof {
            assert((prior + quads).push(quad) =~= prior + quads.push(quad));
        }
        Ghost(quads.push(quad))
    } else {
        Ghost(quads)
    }
}

/// Meshes the visible faces of one direction and appends their rectangles
/// to what was meshed before.
fn mesh_face(
    t: &Terrain,
    face: &Face,
    vertices: &mut Vec<VertexData>,
    elements: &mut Vec<u32>,
    Ghost(prior): Ghost<Seq<Quad>>,
)
    requires
        face_valid(*face),
        *face == face_spec(face.index),
        prior.len() <= NUM_FACES * CHUNK_BLOCKS,
        old(vertices)@ == vertices_of(prior),
        old(elements)@ == elements_of(prior),
    ensures
        final(vertices)@ == vertices_of(prior + face_quads(t@, *face)),
        final(elements)@ == elements_of(prior + face_quads(t@, *face)),
        face_quads(t@, *face).len() <= CHUNK_BLOCKS,
{
    let mut unmeshed_faces = mark_visible(t, face);
    let ghost mut quads: Seq<Quad> = Seq::empty();
    let origin = BlockCoord { x: 0, y: 0, z: 0 };
    proof {
        assert(prior + quads =~= prior);
    }
    let mut i: i64 = 0;
    while i < CHUNK_SIZE
        invariant
            face_valid(*face),
            *face == face_spec(face.index),
            origin == (BlockCoord { x: 0, y: 0, z: 0 }),
            prior.len() <= NUM_FACES * CHUNK_BLOCKS,
            0 <= i <= CHUNK_SIZE,
            quads.len() <= i * CHUNK_SIZE * CHUNK_SIZE,
            scan_upto(t@, *face, i * CHUNK_SIZE * CHUNK_SIZE) == (ScanState {
                unmeshed: unmeshed_faces@,
                quads,
            }),
            vertices@ == vertices_of(prior + quads),
            elements@ == elements_of(prior + quads),
        decreases CHUNK_SIZE - i,
    {
        let mut j: i64 = 0;
        while j < CHUNK_SIZE
            invariant
                face_valid(*face),
                *face == face_spec(face.index),
                origin == (BlockCoord { x: 0, y: 0, z: 0 }),
                prior.len() <= NUM_FACES * CHUNK_BLOCKS,
                0 <= i < CHUNK_SIZE,
                0 <= j <= CHUNK_SIZE,
                quads.len() <= i * CHUNK_SIZE * CHUNK_SIZE + j * CHUNK_SIZE,
                scan_upto(t@, *face, i * CHUNK_SIZE * CHUNK_SIZE + j * CHUNK_SIZE) == (ScanState {
                    unmeshed: unmeshed_faces@,
                    quads,
                }),
                vertices@ == vertices_of(prior + quads),
                elements@ == elements_of(prior + quads),
            decreases CHUNK_SIZE - j,
        {
            let mut k: i64 = 0;
            while k < CHUNK_SIZE
                invariant
                    face_valid(*face),
                    *face == face_spec(face.index),
                    origin == (BlockCoord { x: 0, y: 0, z: 0 }),
                    prior.len() <= NUM_FACES * CHUNK_BLOCKS,
                    0 <= i < CHUNK_SIZE,
                    0 <= j < CHUNK_SIZE,
                    0 <= k <= CHUNK_SIZE,
                    quads.len() <= i * CHUNK_SIZE * CHUNK_SIZE + j * CHUNK_SIZE + k,
                    scan_upto(t@, *face, i * CHUNK_SIZE * CHUNK_SIZE + j * CHUNK_SIZE + k) == (
                    ScanState { unmeshed: unmeshed_faces@, quads }),
                    vertices@ == vertices_of(prior + quads),
                    elements@ == elements_of(prior + quads),
                decreases CHUNK_SIZE - k,
            {
                let ghost n = i * CHUNK_SIZE * CHUNK_SIZE + j * CHUNK_SIZE + k;
                let p = origin.step(&face.di, i).step(&face.dj, j).step(&face.dk, k);
                proof {
                    lemma_scan_pos(*face, i as int, j as int, k as int);
                }
                let meshed = scan_block(
                    t,
                    face,
                    &mut unmeshed_faces,
                    vertices,
                    elements,
                    p,
                    Ghost(prior),
                    Ghost(quads),
                    Ghost(n),
                );
                proof {
                    quads = meshed@;
                }
                k += 1;
            }
            j += 1;
        }
        i += 1;
    }
}

impl Mesh {
    /// The mesh of the chunk whose blocks are `t`: for each of the six face
    /// directions in turn, the visible faces merged into rectangles.
    pub fn gen(t: &Terrain) -> (mesh: Mesh)
        ensures
            is_mesh_of(mesh, t@),
    {
        let mut vertices: Vec<VertexData> = Vec::new();
        let mut elements: Vec<u32> = Vec::new();
        let mut face_ranges: [(usize, usize); 6] = [(0, 0), (0, 0), (0, 0), (0, 0), (0, 0), (0, 0)];
        proof {
            assert(vertices@ =~= vertices_of(mesh_quads(t@, 0)));
            assert(elements@ =~= elements_of(mesh_quads(t@, 0)));
        }
        let mut f: usize = 0;
        while f < NUM_FACES
            invariant
                0 <= f <= NUM_FACES,
                mesh_quads(t@, f as int).len() <= f * CHUNK_BLOCKS,
                vertices@ == vertices_of(mesh_quads(t@, f as int)),
                elements@ == elements_of(mesh_quads(t@, f as int)),
                forall|g: int|
                    0 <= g < f ==> (#[trigger] face_ranges[g]) == (
                        (6 * mesh_quads(t@, g).len()) as usize,
                        (6 * face_quads(t@, face_spec(g as usize)).len()) as usize,
                    ),
            decreases NUM_FACES - f,
        {
            let face = face(f);
            let num_elements_start = elements.len();
            mesh_face(t, &face, &mut vertices, &mut elements, Ghost(mesh_quads(t@, f as int)));
            face_ranges[face.index] = (num_elements_start, elements.len() - num_elements_start);
            f += 1;
        }
        Mesh { vertices, elements, face_ranges }
    }
}

/// Every run has a length: from a stretch of `len` faces that can join `p`,
/// the run goes on to the edge of the chunk or to the first face that cannot.
proof fn lemma_run_exists(
    t: Seq<Block>,
    unmeshed: Set<BlockCoord>,
    p: BlockCoord,
    d: BlockCoord,
    len: int,
)
    requires
        in_chunk(p),
        is_axis(d),
        1 <= len <= room(p, d),
        forall|i: int| 1 <= i < len ==> mergeable(t, unmeshed, p, #[trigger] stepped(p, d, i)),
    ensures
        is_run_length(t, unmeshed, p, d, run_length_spec(t, unmeshed, p, d)),
    decreases room(p, d) - len,
{
    if len < room(p, d) && mergeable(t, unmeshed, p, stepped(p, d, len)) {
        assert forall|i: int| 1 <= i < len + 1 implies mergeable(
            t,
            unmeshed,
            p,
            #[trigger] stepped(p, d, i),
        ) by {
            if i == len {
            }
        }
        lemma_run_exists(t, unmeshed, p, d, len + 1);
    } else {
        assert(is_run_length(t, unmeshed, p, d, len));
    }
}

/// The narrowest of the first `n` runs across is a run length of the first
/// and no longer than any of them.
proof fn lemma_narrowest_run(
    t: Seq<Block>,
    unmeshed: Set<BlockCoord>,
    p: BlockCoord,
    along: BlockCoord,
    across: BlockCoord,
    n: int,
)
    requires
        in_chunk(p),
        is_axis(along),
        is_axis(across),
        along != across,
        1 <= n <= room(p, along),
    ensures
        1 <= narrowest_run(t, unmeshed, p, along, across, n) <= room(p, across),
        forall|a: int|
            0 <= a < n ==> narrowest_run(t, unmeshed, p, along, across, n) <= run_length_spec(
                t,
                unmeshed,
                #[trigger] stepped(p, along, a),
                across,
            ),
    decreases n,
{
    lemma_run_exists(t, unmeshed, p, across, 1);
    if n > 1 {
        lemma_narrowest_run(t, unmeshed, p, along, across, n - 1);
        let r = stepped(p, along, n - 1);
        lemma_run_exists(t, unmeshed, r, across, 1);
    } else {
        assert(stepped(p, along, 0) == p);
    }
}

/// The rectangle meshed from a face that is still to be meshed lies in the
/// chunk, and all its faces are still to be meshed and of the block type of
/// the first.
proof fn lemma_expand_box(
    t: Seq<Block>,
    unmeshed: Set<BlockCoord>,
    dj: BlockCoord,
    dk: BlockCoord,
    p: BlockCoord,
)
    requires
        in_chunk(p),
        unmeshed.contains(p),
        is_axis(dj),
        is_axis(dk),
        dj != dk,
    ensures
        ({
            let dim = expand_spec(t, unmeshed, dj, dk, p);
            &&& 1 <= dim.x <= CHUNK_SIZE - p.x
            &&& 1 <= dim.y <= CHUNK_SIZE - p.y
            &&& 1 <= dim.z <= CHUNK_SIZE - p.z
            &&& forall|q: BlockCoord| #[trigger]
                in_box(q, p, dim) ==> unmeshed.contains(q) && type_at(t, q) == type_at(t, p)
        }),
{
    let dim = expand_spec(t, unmeshed, dj, dk, p);
    lemma_run_exists(t, unmeshed, p, dk, 1);
    let len_k = run_length_spec(t, unmeshed, p, dk);
    lemma_narrowest_run(t, unmeshed, p, dk, dj, len_k);
    let len_j = narrowest_run(t, unmeshed, p, dk, dj, len_k);
    assert forall|q: BlockCoord| #[trigger] in_box(q, p, dim) implies unmeshed.contains(q)
        && type_at(t, q) == type_at(t, p) by {
        // `q` lies `a` steps along `dk` and `b` steps along `dj` from `p`
        let a = if dk.x == 1 {
            q.x - p.x
        } else if dk.y == 1 {
            q.y - p.y
        } else {
            q.z - p.z
        };
        let b = if dj.x == 1 {
            q.x - p.x
        } else if dj.y == 1 {
            q.y - p.y
        } else {
            q.z - p.z
        };
        let r = stepped(p, dk, a);
        assert(q == stepped(r, dj, b));
        assert(0 <= a < len_k && 0 <= b < len_j);
        if a > 0 {
            assert(mergeable(t, unmeshed, p, stepped(p, dk, a)));
        } else {
            assert(r == p);
        }
        lemma_run_exists(t, unmeshed, r, dj, 1);
        assert(len_j <= run_length_spec(t, unmeshed, stepped(p, dk, a), dj));
        if b > 0 {
            assert(mergeable(t, unmeshed, r, stepped(r, dj, b)));
        } else {
            assert(q == r);
        }
    }
}

/// Whether some rectangle of `quads` covers the face of the block `q`.
pub open spec fn covered(quads: Seq<Quad>, q: BlockCoord) -> bool {
    exists|i: int| 0 <= i < quads.len() && in_box(q, (#[trigger] quads[i]).origin, quads[i].dim)
}

/// Whether the rectangle `quad` is sound for the faces `visible` of
/// direction `index`: it lies in the chunk, covers visible faces only, and
/// all the blocks it covers are of its type.
pub open spec fn quad_sound(t: Seq<Block>, visible: Set<BlockCoord>, index: usize, quad: Quad) -> bool {
    &&& quad.face == index
    &&& in_chunk(quad.origin)
    &&& 1 <= quad.dim.x <= CHUNK_SIZE - quad.origin.x
    &&& 1 <= quad.dim.y <= CHUNK_SIZE - quad.origin.y
    &&& 1 <= quad.dim.z <= CHUNK_SIZE - quad.origin.z
    &&& forall|q: BlockCoord| #[trigger]
        in_box(q, quad.origin, quad.dim) ==> visible.contains(q) && type_at(t, q)
            == quad.blocktype
}

/// Whether no block lies in both rectangles.
pub open spec fn quads_disjoint(a: Quad, b: Quad) -> bool {
    forall|q: BlockCoord| !(#[trigger] in_box(q, a.origin, a.dim) && in_box(q, b.origin, b.dim))
}

/// Every face still to be meshed is a visible face.
spec fn unmeshed_visible(t: Seq<Block>, face: Face, st: ScanState) -> bool {
    forall|q: BlockCoord| #[trigger]
        st.unmeshed.contains(q) ==> visible_faces(t, face.normal).contains(q)
}

/// Every rectangle found is sound.
spec fn quads_sound(t: Seq<Block>, face: Face, st: ScanState) -> bool {
    forall|i: int|
        0 <= i < st.quads.len() ==> quad_sound(
            t,
            visible_faces(t, face.normal),
            face.index,
            #[trigger] st.quads[i],
        )
}

/// No face that a rectangle covers is still to be meshed.
spec fn quads_meshed(st: ScanState) -> bool {
    forall|i: int, q: BlockCoord|
        0 <= i < st.quads.len() && in_box(q, (#[trigger] st.quads[i]).origin, st.quads[i].dim)
            ==> !#[trigger] st.unmeshed.contains(q)
}

/// No two rectangles overlap.
spec fn quads_apart(st: ScanState) -> bool {
    forall|i: int, j: int|
        0 <= i < j < st.quads.len() ==> quads_disjoint(
            #[trigger] st.quads[i],
            #[trigger] st.quads[j],
        )
}

/// Every visible face is covered by a rectangle or still to be meshed.
spec fn visible_accounted(t: Seq<Block>, face: Face, st: ScanState) -> bool {
    forall|q: BlockCoord| #[trigger]
        visible_faces(t, face.normal).contains(q) ==> st.unmeshed.contains(q) || covered(
            st.quads,
            q,
        )
}

/// None of the blocks that the first `n` steps looked at is still to be
/// meshed.
spec fn passed_meshed(face: Face, st: ScanState, n: int) -> bool {
    forall|m: int| 0 <= m < n ==> !st.unmeshed.contains(#[trigger] scan_pos(face, m))
}

/// What holds of the scan after `n` steps.
spec fn scan_sound(t: Seq<Block>, face: Face, st: ScanState, n: int) -> bool {
    &&& unmeshed_visible(t, face, st)
    &&& quads_sound(t, face, st)
    &&& quads_meshed(st)
    &&& quads_apart(st)
    &&& visible_accounted(t, face, st)
    &&& passed_meshed(face, st, n)
}

/// What a step that meshes a rectangle from `p` makes of the state `st`.
spec fn meshed_from(t: Seq<Block>, face: Face, st: ScanState, p: BlockCoord) -> ScanState {
    let dim = expand_spec(t, st.unmeshed, face.dj, face.dk, p);
    ScanState {
        unmeshed: Set::new(|q: BlockCoord| st.unmeshed.contains(q) && !in_box(q, p, dim)),
        quads: st.quads.push(Quad { face: face.index, origin: p, dim, blocktype: type_at(t, p) }),
    }
}

proof fn lemma_step_quads_sound(t: Seq<Block>, face: Face, st: ScanState, p: BlockCoord)
    requires
        face_valid(face),
        in_chunk(p),
        st.unmeshed.contains(p),
        unmeshed_visible(t, face, st),
        quads_sound(t, face, st),
    ensures
        unmeshed_visible(t, face, meshed_from(t, face, st, p)),
        quads_sound(t, face, meshed_from(t, face, st, p)),
{
    let next = meshed_from(t, face, st, p);
    lemma_expand_box(t, st.unmeshed, face.dj, face.dk, p);
    assert forall|a: int| 0 <= a < next.quads.len() implies quad_sound(
        t,
        visible_faces(t, face.normal),
        face.index,
        #[trigger] next.quads[a],
    ) by {
        if a < st.quads.len() {
            assert(next.quads[a] == st.quads[a]);
        }
    }
}

proof fn lemma_step_quads_meshed(t: Seq<Block>, face: Face, st: ScanState, p: BlockCoord)
    requires
        quads_meshed(st),
    ensures
        quads_meshed(meshed_from(t, face, st, p)),
{
    let next = meshed_from(t, face, st, p);
    assert forall|a: int, q: BlockCoord|
        0 <= a < next.quads.len() && in_box(
            q,
            (#[trigger] next.quads[a]).origin,
            next.quads[a].dim,
        ) implies !#[trigger] next.unmeshed.contains(q) by {
        if a < st.quads.len() {
            assert(next.quads[a] == st.quads[a]);
        }
    }
}

proof fn lemma_step_quads_apart(t: Seq<Block>, face: Face, st: ScanState, p: BlockCoord)
    requires
        face_valid(face),
        in_chunk(p),
        st.unmeshed.contains(p),
        quads_meshed(st),
        quads_apart(st),
    ensures
        quads_apart(meshed_from(t, face, st, p)),
{
    let next = meshed_from(t, face, st, p);
    let quad = next.quads[st.quads.len() as int];
    lemma_expand_box(t, st.unmeshed, face.dj, face.dk, p);
    assert forall|a: int, b: int| 0 <= a < b < next.quads.len() implies quads_disjoint(
        #[trigger] next.quads[a],
        #[trigger] next.quads[b],
    ) by {
        assert(next.quads[a] == st.quads[a]);
        if b < st.quads.len() {
            assert(next.quads[b] == st.quads[b]);
        } else {
            assert forall|q: BlockCoord|
                !(#[trigger] in_box(q, st.quads[a].origin, st.quads[a].dim) && in_box(
                    q,
                    quad.origin,
                    quad.dim,
                )) by {
                if in_box(q, st.quads[a].origin, st.quads[a].dim) {
                    assert(!st.unmeshed.contains(q));
                }
            }
        }
    }
}

proof fn lemma_step_visible_accounted(t: Seq<Block>, face: Face, st: ScanState, p: BlockCoord)
    requires
        visible_accounted(t, face, st),
    ensures
        visible_accounted(t, face, meshed_from(t, face, st, p)),
{
    let next = meshed_from(t, face, st, p);
    let quad = next.quads[st.quads.len() as int];
    assert forall|q: BlockCoord| #[trigger]
        visible_faces(t, face.normal).contains(q) implies next.unmeshed.contains(q) || covered(
        next.quads,
        q,
    ) by {
        if st.unmeshed.contains(q) {
            if in_box(q, quad.origin, quad.dim) {
                assert(in_box(q, next.quads[st.quads.len() as int].origin, quad.dim));
            }
        } else {
            let a = choose|a: int|
                0 <= a < st.quads.len() && in_box(
                    q,
                    (#[trigger] st.quads[a]).origin,
                    st.quads[a].dim,
                );
            assert(next.quads[a] == st.quads[a]);
        }
    }
}

proof fn lemma_step_passed_meshed(
    t: Seq<Block>,
    face: Face,
    st: ScanState,
    p: BlockCoord,
    n: int,
)
    requires
        face_valid(face),
        in_chunk(p),
        st.unmeshed.contains(p),
        p == scan_pos(face, n),
        passed_meshed(face, st, n),
    ensures
        passed_meshed(face, meshed_from(t, face, st, p), n + 1),
{
    lemma_expand_box(t, st.unmeshed, face.dj, face.dk, p);
    let dim = expand_spec(t, st.unmeshed, face.dj, face.dk, p);
    assert(in_box(p, p, dim));
}

proof fn lemma_scan_sound(t: Seq<Block>, face: Face, n: int)
    requires
        face_valid(face),
        0 <= n <= CHUNK_BLOCKS,
    ensures
        scan_sound(t, face, scan_upto(t, face, n), n),
    decreases n,
{
    if n > 0 {
        lemma_scan_sound(t, face, n - 1);
        let st = scan_upto(t, face, n - 1);
        let p = scan_pos(face, n - 1);
        let i = (n - 1) / 1024;
        let j = ((n - 1) / 32) % 32;
        let k = (n - 1) % 32;
        assert(n - 1 == i * CHUNK_SIZE * CHUNK_SIZE + j * CHUNK_SIZE + k);
        lemma_scan_pos(face, i, j, k);
        if st.unmeshed.contains(p) {
            assert(scan_upto(t, face, n) == meshed_from(t, face, st, p));
            lemma_step_quads_sound(t, face, st, p);
            lemma_step_quads_meshed(t, face, st, p);
            lemma_step_quads_apart(t, face, st, p);
            lemma_step_visible_accounted(t, face, st, p);
            lemma_step_passed_meshed(t, face, st, p, n - 1);
        }
    } else {
        let st = scan_upto(t, face, 0);
        assert(st.quads.len() == 0);
    }
}

/// Every block of the chunk is looked at in some step of the scan.
proof fn lemma_scan_reaches(face: Face, q: BlockCoord)
    requires
        face_valid(face),
        in_chunk(q),
    ensures
        exists|m: int| 0 <= m < CHUNK_BLOCKS && #[trigger] scan_pos(face, m) == q,
{
    let along = |d: BlockCoord|
        if d.x == 1 {
            q.x as int
        } else if d.y == 1 {
            q.y as int
        } else {
            q.z as int
        };
    let i = along(face.di);
    let j = along(face.dj);
    let k = along(face.dk);
    lemma_scan_pos(face, i, j, k);
    let m = i * CHUNK_SIZE * CHUNK_SIZE + j * CHUNK_SIZE + k;
    assert(scan_pos(face, m) == q);
}

/// The mesh of one face direction tiles its visible faces: every rectangle
/// lies in the chunk and covers visible faces of blocks of one type, its
/// own; no two rectangles overlap; and every visible face is covered.
pub proof fn law_mesh_tiles_visible_faces(t: Seq<Block>, face: Face)
    requires
        face_valid(face),
    ensures
        forall|i: int|
            0 <= i < face_quads(t, face).len() ==> quad_sound(
                t,
                visible_faces(t, face.normal),
                face.index,
                #[trigger] face_quads(t, face)[i],
            ),
        forall|i: int, j: int|
            0 <= i < j < face_quads(t, face).len() ==> quads_disjoint(
                #[trigger] face_quads(t, face)[i],
                #[trigger] face_quads(t, face)[j],
            ),
        forall|q: BlockCoord| #[trigger]
            visible_faces(t, face.normal).contains(q) ==> covered(face_quads(t, face), q),
{
    lemma_scan_sound(t, face, CHUNK_BLOCKS as int);
    let st = scan_upto(t, face, CHUNK_BLOCKS as int);
    assert forall|q: BlockCoord| #[trigger]
        visible_faces(t, face.normal).contains(q) implies covered(face_quads(t, face), q) by {
        lemma_scan_reaches(face, q);
        let m = choose|m: int| 0 <= m < CHUNK_BLOCKS && #[trigger] scan_pos(face, m) == q;
        assert(!st.unmeshed.contains(scan_pos(face, m)));
    }
}

} // verus!
