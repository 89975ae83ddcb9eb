use cubeland::terrain::{Block, BlockType, Terrain, TerrainGenerator, CHUNK_SIZE, WORLD_SEED};

#[test]
fn only_air_is_not_opaque() {
    assert!(!Block { blocktype: BlockType::BlockAir }.is_opaque());
    assert!(Block { blocktype: BlockType::BlockGrass }.is_opaque());
    assert!(Block { blocktype: BlockType::BlockStone }.is_opaque());
    assert!(Block { blocktype: BlockType::BlockDirt }.is_opaque());
    assert!(Block { blocktype: BlockType::BlockWater }.is_opaque());
}

#[test]
fn block_type_codes() {
    assert_eq!(BlockType::BlockAir.code(), 0);
    assert_eq!(BlockType::BlockGrass.code(), 1);
    assert_eq!(BlockType::BlockStone.code(), 2);
    assert_eq!(BlockType::BlockDirt.code(), 3);
    assert_eq!(BlockType::BlockWater.code(), 4);
}

#[test]
fn new_terrain_is_air_up_to_the_margin() {
    let t = Terrain::new();
    for &x in &[-1, 0, 15, CHUNK_SIZE - 1, CHUNK_SIZE] {
        for &y in &[-1, 0, 15, CHUNK_SIZE - 1, CHUNK_SIZE] {
            for &z in &[-1, 0, 15, CHUNK_SIZE - 1, CHUNK_SIZE] {
                assert_eq!(t.get(x, y, z).blocktype, BlockType::BlockAir);
            }
        }
    }
}

#[test]
fn set_changes_one_block() {
    let mut t = Terrain::new();
    t.set(-1, -1, -1, Block { blocktype: BlockType::BlockStone });
    t.set(32, 32, 32, Block { blocktype: BlockType::BlockWater });
    t.set(3, 4, 5, Block { blocktype: BlockType::BlockDirt });
    assert_eq!(t.get(-1, -1, -1).blocktype, BlockType::BlockStone);
    assert_eq!(t.get(32, 32, 32).blocktype, BlockType::BlockWater);
    assert_eq!(t.get(3, 4, 5).blocktype, BlockType::BlockDirt);
    assert_eq!(t.get(5, 4, 3).blocktype, BlockType::BlockAir);
    assert_eq!(t.get(3, 4, 6).blocktype, BlockType::BlockAir);
    assert_eq!(t.get(3, 5, 5).blocktype, BlockType::BlockAir);
    assert_eq!(t.get(4, 4, 5).blocktype, BlockType::BlockAir);
    assert_eq!(t.get(-1, -1, 0).blocktype, BlockType::BlockAir);
    let mut stones = 0;
    for x in -1..=CHUNK_SIZE {
        for y in -1..=CHUNK_SIZE {
            for z in -1..=CHUNK_SIZE {
                if t.get(x, y, z).is_opaque() {
                    stones += 1;
                }
            }
        }
    }
    assert_eq!(stones, 3);
}

#[test]
fn get_mut_changes_in_place() {
    let mut t = Terrain::new();
    t.get_mut(0, 31, 7).blocktype = BlockType::BlockGrass;
    assert_eq!(t.get(0, 31, 7).blocktype, BlockType::BlockGrass);
    let block = t.get_mut(0, 31, 7);
    assert_eq!(block.blocktype, BlockType::BlockGrass);
    block.blocktype = BlockType::BlockAir;
    assert_eq!(t.get(0, 31, 7).blocktype, BlockType::BlockAir);
}

#[test]
fn generator_seeds() {
    let g = TerrainGenerator::new(WORLD_SEED);
    assert_eq!(g.density_seed, 42);
    assert_eq!(g.height_seed, 2982);
    assert_eq!(g.density_octaves, 4);
    assert_eq!(g.height_octaves, 8);
    let g = TerrainGenerator::new(u32::MAX);
    assert_eq!(g.density_seed, 4294967295);
    assert_eq!(g.height_seed, 304942677945);
}
