//! Integer coordinates on the chunk grid.

use std::collections::hash_map::DefaultHasher;
use std::hash::Hasher;
use vstd::bytes::{spec_u64_to_le_bytes, u64_to_le_bytes};
use vstd::prelude::*;
use vstd::std_specs::hash::DefaultHasherAdditionalSpecFns;

verus! {

/// The position of a chunk, in chunk-grid units (world units divided by the
/// chunk edge length). Two coordinates are the same chunk exactly when their
/// three components agree.
#[derive(Clone, Copy, Debug, PartialEq, Eq, Hash, Structural)]
pub struct ChunkCoord {
    pub x: i64,
    pub y: i64,
    pub z: i64,
}

/// A position on the horizontal plane of the chunk grid: a column of chunks.
#[derive(Clone, Copy, Debug, PartialEq, Eq, Hash, Structural)]
pub struct ColumnCoord {
    pub x: i64,
    pub y: i64,
}

/// The strict lexicographic order on coordinates: by `x`, then `y`, then `z`.
/// It is the tie-break wherever two chunks are otherwise equally ranked.
pub open spec fn coord_before(a: ChunkCoord, b: ChunkCoord) -> bool {
    a.x < b.x || (a.x == b.x && (a.y < b.y || (a.y == b.y && a.z < b.z)))
}

/// The hash of a coordinate: that of the standard library's default hasher,
/// fed the three components as little-endian words. It is a function of the
/// coordinate alone.
pub open spec fn coord_hash(c: ChunkCoord) -> u64 {
    DefaultHasher::spec_finish(
        seq![
            spec_u64_to_le_bytes(c.x as u64),
            spec_u64_to_le_bytes(c.y as u64),
            spec_u64_to_le_bytes(c.z as u64),
        ],
    )
}

/// The one of `n` places that the coordinate `c` is assigned to by its hash.
pub open spec fn spread_spec(c: ChunkCoord, n: usize) -> usize {
    (coord_hash(c) % (n as u64)) as usize
}

impl ChunkCoord {
    pub fn new(x: i64, y: i64, z: i64) -> (c: ChunkCoord)
        ensures
            c == (ChunkCoord { x, y, z }),
    {
        ChunkCoord { x, y, z }
    }

    /// The hash of the coordinate.
    pub fn hash64(&self) -> (h: u64)
        ensures
            h == coord_hash(*self),
    {
        let mut hasher = DefaultHasher::new();
        let xs = u64_to_le_bytes(self.x as u64);
        hasher.write(xs.as_slice());
        let ys = u64_to_le_bytes(self.y as u64);
        hasher.write(ys.as_slice());
        let zs = u64_to_le_bytes(self.z as u64);
        hasher.write(zs.as_slice());
        proof {
            assert(hasher@ =~= seq![
                spec_u64_to_le_bytes(self.x as u64),
                spec_u64_to_le_bytes(self.y as u64),
                spec_u64_to_le_bytes(self.z as u64),
            ]);
        }
        hasher.finish()
    }

    /// The one of `n` places that the coordinate is assigned to by its hash.
    pub fn spread(&self, n: usize) -> (place: usize)
        requires
            n > 0,
        ensures
            place == spread_spec(*self, n),
            place < n,
    {
        (self.hash64() % (n as u64)) as usize
    }

    /// Whether `self` comes strictly before `other` in the lexicographic order.
    pub fn before(&self, other: &ChunkCoord) -> (r: bool)
        ensures
            r == coord_before(*self, *other),
    {
        self.x < other.x || (self.x == other.x && (self.y < other.y || (self.y == other.y
            && self.z < other.z)))
    }
}

impl ColumnCoord {
    pub fn new(x: i64, y: i64) -> (c: ColumnCoord)
        ensures
            c == (ColumnCoord { x, y }),
    {
        ColumnCoord { x, y }
    }
}

/// The lexicographic order is total on distinct coordinates and never holds
/// both ways.
pub proof fn lemma_coord_order_total(a: ChunkCoord, b: ChunkCoord)
    ensures
        a != b ==> (coord_before(a, b) || coord_before(b, a)),
        !(coord_before(a, b) && coord_before(b, a)),
        !coord_before(a, a),
{
}

} // verus!
