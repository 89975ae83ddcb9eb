//! A chunk: the unit of streaming and caching.

use vstd::prelude::*;
use crate::clock::now_ns;
use crate::coord::ChunkCoord;
use crate::mesh::{is_mesh_of, Mesh};
use crate::terrain::Terrain;

verus! {

/// A generated piece of the world, tagged with the time it was last used.
///
/// The payload is whatever the generator produced for the coordinate (terrain
/// and render geometry); the cache never looks inside it.
#[derive(Debug)]
pub struct Chunk<P> {
    pub coord: ChunkCoord,
    pub payload: P,
    pub used_time: u64,
}

/// `ch` with its timestamp refreshed to `now`, and nothing else changed.
pub open spec fn touched<P>(ch: Chunk<P>, now: u64) -> Chunk<P> {
    Chunk { coord: ch.coord, payload: ch.payload, used_time: now }
}

impl<P> Chunk<P> {
    /// A chunk for `coord`, last used at `now`.
    pub fn new(coord: ChunkCoord, payload: P, now: u64) -> (ch: Chunk<P>)
        ensures
            ch == (Chunk { coord, payload, used_time: now }),
    {
        Chunk { coord, payload, used_time: now }
    }

    /// Refreshes the timestamp to `now`.
    pub fn touch_at(&mut self, now: u64)
        ensures
            *final(self) == touched(*old(self), now),
    {
        self.used_time = now;
    }

    /// Refreshes the timestamp to the current time. Whatever the clock
    /// reads, coordinate and payload stay as they were.
    pub fn touch(&mut self)
        ensures
            final(self).coord == old(self).coord,
            final(self).payload == old(self).payload,
            *final(self) == touched(*old(self), final(self).used_time),
    {
        let now = now_ns();
        self.touch_at(now);
    }
}

/// What a generation worker produces for a coordinate: the blocks, and the
/// geometry they are drawn with.
#[derive(Debug)]
pub struct ChunkData {
    pub terrain: Terrain,
    pub mesh: Mesh,
}

/// Makes the chunk at `coord` out of its generated blocks: meshes them, and
/// stamps the chunk with the time the clock reads.
pub fn chunk_gen(terrain: Terrain, coord: ChunkCoord) -> (chunk: Chunk<ChunkData>)
    ensures
        chunk.coord == coord,
        chunk.payload.terrain == terrain,
        is_mesh_of(chunk.payload.mesh, terrain@),
{
    let mesh = Mesh::gen(&terrain);
    let now = now_ns();
    Chunk::new(coord, ChunkData { terrain, mesh }, now)
}

} // verus!
