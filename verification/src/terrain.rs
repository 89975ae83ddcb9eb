//! The voxel volume of one chunk.

use vstd::prelude::*;

verus! {

/// The edge length of a chunk, in blocks.
pub const CHUNK_SIZE: i64 = 32;

/// The edge length of the stored volume: the chunk and a margin of one block
/// on every side, so that the neighbours of a chunk's outermost blocks can be
/// read from the chunk itself.
pub const VOLUME_EDGE: usize = 34;

/// The number of blocks in the stored volume.
pub const VOLUME_BLOCKS: usize = 39304;

/// The seed the world is generated from unless the caller chooses another.
pub const WORLD_SEED: u32 = 42;

/// What a block is made of.
#[derive(Clone, Copy, Debug, PartialEq, Eq, Structural)]
pub enum BlockType {
    BlockAir,
    BlockGrass,
    BlockStone,
    BlockDirt,
    BlockWater,
}

/// One voxel.
#[derive(Clone, Copy, Debug, PartialEq, Eq, Structural)]
pub struct Block {
    pub blocktype: BlockType,
}

impl BlockType {
    /// The number under which the block type is handed to the shaders.
    pub open spec fn spec_code(self) -> u8 {
        match self {
            BlockType::BlockAir => 0,
            BlockType::BlockGrass => 1,
            BlockType::BlockStone => 2,
            BlockType::BlockDirt => 3,
            BlockType::BlockWater => 4,
        }
    }

    #[verifier::when_used_as_spec(spec_code)]
    pub fn code(self) -> (code: u8)
        ensures
            code == self.spec_code(),
    {
        match self {
            BlockType::BlockAir => 0,
            BlockType::BlockGrass => 1,
            BlockType::BlockStone => 2,
            BlockType::BlockDirt => 3,
            BlockType::BlockWater => 4,
        }
    }
}

impl Block {
    pub open spec fn spec_is_opaque(&self) -> bool {
        self.blocktype != BlockType::BlockAir
    }

    /// Whether the block hides what lies behind it: everything but air does.
    #[verifier::when_used_as_spec(spec_is_opaque)]
    pub fn is_opaque(&self) -> (opaque: bool)
        ensures
            opaque == self.spec_is_opaque(),
    {
        self.blocktype != BlockType::BlockAir
    }
}

/// Whether `(x, y, z)` names a block of the stored volume: each component
/// from `-1`, the margin below the chunk, to `CHUNK_SIZE`, the margin above.
pub open spec fn in_volume(x: int, y: int, z: int) -> bool {
    &&& -1 <= x <= CHUNK_SIZE
    &&& -1 <= y <= CHUNK_SIZE
    &&& -1 <= z <= CHUNK_SIZE
}

/// Where the block at `(x, y, z)` stands in the volume, which is laid out
/// with `z` running fastest.
pub open spec fn block_index(x: int, y: int, z: int) -> int {
    ((x + 1) * VOLUME_EDGE + (y + 1)) * VOLUME_EDGE + (z + 1)
}

/// Distinct blocks of the volume stand at distinct places within it, so
/// that changing one block changes no other.
pub proof fn law_blocks_stand_apart(x: int, y: int, z: int)
    requires
        in_volume(x, y, z),
    ensures
        0 <= block_index(x, y, z) < VOLUME_BLOCKS,
        forall|a: int, b: int, c: int|
            in_volume(a, b, c) && #[trigger] block_index(a, b, c) == block_index(x, y, z) ==> a
                == x && b == y && c == z,
{
}

/// The blocks of one chunk and of the margin around it.
#[derive(Debug)]
pub struct Terrain {
    blocks: Vec<Block>,
}

impl View for Terrain {
    type V = Seq<Block>;

    closed spec fn view(&self) -> Seq<Block> {
        self.blocks@
    }
}

impl Terrain {
    #[verifier::type_invariant]
    spec fn well_formed(self) -> bool {
        self.blocks@.len() == VOLUME_BLOCKS
    }

    /// The block at `(x, y, z)`.
    pub open spec fn block_at(&self, x: int, y: int, z: int) -> Block {
        self@[block_index(x, y, z)]
    }

    /// A volume of air.
    pub fn new() -> (terrain: Terrain)
        ensures
            terrain@.len() == VOLUME_BLOCKS,
            forall|i: int|
                0 <= i < VOLUME_BLOCKS ==> #[trigger] terrain@[i] == (Block {
                    blocktype: BlockType::BlockAir,
                }),
    {
        let mut blocks: Vec<Block> = Vec::new();
        let mut i: usize = 0;
        while i < VOLUME_BLOCKS
            invariant
                i <= VOLUME_BLOCKS,
                blocks@.len() == i,
                forall|j: int|
                    0 <= j < i ==> #[trigger] blocks@[j] == (Block {
                        blocktype: BlockType::BlockAir,
                    }),
            decreases VOLUME_BLOCKS - i,
        {
            blocks.push(Block { blocktype: BlockType::BlockAir });
            i += 1;
        }
        Terrain { blocks }
    }

    fn index(x: i64, y: i64, z: i64) -> (i: usize)
        requires
            in_volume(x as int, y as int, z as int),
        ensures
            i == block_index(x as int, y as int, z as int),
            i < VOLUME_BLOCKS,
    {
        let edge = VOLUME_EDGE as i64;
        (((x + 1) * edge + (y + 1)) * edge + (z + 1)) as usize
    }

    /// The block at `(x, y, z)`.
    pub fn get(&self, x: i64, y: i64, z: i64) -> (block: &Block)
        requires
            in_volume(x as int, y as int, z as int),
        ensures
            self@.len() == VOLUME_BLOCKS,
            *block == self.block_at(x as int, y as int, z as int),
    {
        proof {
            use_type_invariant(self);
        }
        &self.blocks[Terrain::index(x, y, z)]
    }

    /// The block at `(x, y, z)`, to be changed in place; every other block
    /// stays.
    pub fn get_mut(&mut self, x: i64, y: i64, z: i64) -> (block: &mut Block)
        requires
            in_volume(x as int, y as int, z as int),
        ensures
            *block == old(self).block_at(x as int, y as int, z as int),
            final(self)@ == old(self)@.update(
                block_index(x as int, y as int, z as int),
                *final(block),
            ),
            final(self)@.len() == VOLUME_BLOCKS,
    {
        proof {
            use_type_invariant(&*self);
        }
        let i = Terrain::index(x, y, z);
        &mut self.blocks[i]
    }

    /// Makes `block` the block at `(x, y, z)`; every other block stays.
    pub fn set(&mut self, x: i64, y: i64, z: i64, block: Block)
        requires
            in_volume(x as int, y as int, z as int),
        ensures
            final(self)@ == old(self)@.update(block_index(x as int, y as int, z as int), block),
            final(self)@.len() == VOLUME_BLOCKS,
    {
        proof {
            use_type_invariant(&*self);
        }
        let i = Terrain::index(x, y, z);
        self.blocks[i] = block;
    }
}

/// The seeds and octave counts of the two noise fields that terrain is
/// generated from: a fine one for the density of the ground, a smooth one
/// for its height.
#[derive(Clone, Copy, Debug)]
pub struct TerrainGenerator {
    pub density_seed: i64,
    pub density_octaves: usize,
    pub height_seed: i64,
    pub height_octaves: usize,
}

impl TerrainGenerator {
    /// The generator for the world of `seed`. The two fields get different
    /// seeds, so that height and density do not follow each other.
    pub fn new(seed: u32) -> (generator: TerrainGenerator)
        ensures
            generator == (TerrainGenerator {
                density_seed: seed as i64,
                density_octaves: 4,
                height_seed: (seed as i64 * 71) as i64,
                height_octaves: 8,
            }),
    {
        TerrainGenerator {
            density_seed: seed as i64,
            density_octaves: 4,
            height_seed: seed as i64 * 71,
            height_octaves: 8,
        }
    }
}

} // verus!
