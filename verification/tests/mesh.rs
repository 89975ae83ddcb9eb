use cubeland::chunk::chunk_gen;
use cubeland::coord::ChunkCoord;
use cubeland::mesh::{expand_face, face, run_length, BlockBitmap, BlockCoord, Mesh, VertexData};
use cubeland::terrain::BlockType::{BlockDirt, BlockStone};
use cubeland::terrain::{Block, BlockType, Terrain};

fn b(x: i64, y: i64, z: i64) -> BlockCoord {
    BlockCoord::new(x, y, z)
}

fn terrain_with(blocks: &[(i64, i64, i64, BlockType)]) -> Terrain {
    let mut t = Terrain::new();
    for &(x, y, z, blocktype) in blocks {
        t.set(x, y, z, Block { blocktype });
    }
    t
}

fn bitmap_with(blocks: &[(i64, i64, i64)]) -> BlockBitmap {
    let mut bitmap = BlockBitmap::new();
    for &(x, y, z) in blocks {
        bitmap.insert(x, y, z);
    }
    bitmap
}

#[test]
fn bitmap_holds_what_was_inserted() {
    let mut bitmap = BlockBitmap::new();
    assert!(!bitmap.contains(0, 0, 0));
    bitmap.insert(0, 0, 0);
    bitmap.insert(31, 31, 31);
    bitmap.insert(1, 2, 3);
    bitmap.insert(1, 2, 3);
    assert!(bitmap.contains(0, 0, 0));
    assert!(bitmap.contains(31, 31, 31));
    assert!(bitmap.contains(1, 2, 3));
    assert!(!bitmap.contains(3, 2, 1));
    assert!(!bitmap.contains(0, 1, 0));
    assert!(!bitmap.contains(1, 0, 0));
    bitmap.remove(1, 2, 3);
    bitmap.remove(9, 9, 9);
    assert!(!bitmap.contains(1, 2, 3));
    assert!(bitmap.contains(0, 0, 0));
    let mut count = 0;
    for x in 0..32 {
        for y in 0..32 {
            for z in 0..32 {
                if bitmap.contains(x, y, z) {
                    count += 1;
                }
            }
        }
    }
    assert_eq!(count, 2);
}

#[test]
fn run_length_stops_at_a_gap_a_change_of_type_or_the_edge() {
    let t = terrain_with(&[
        (0, 0, 0, BlockStone), (1, 0, 0, BlockStone), (2, 0, 0, BlockStone), (3, 0, 0, BlockDirt),
        (0, 5, 0, BlockStone), (1, 5, 0, BlockStone), (2, 5, 0, BlockStone),
        (30, 9, 9, BlockStone), (31, 9, 9, BlockStone),
    ]);
    let unmeshed = bitmap_with(&[
        (0, 0, 0), (1, 0, 0), (2, 0, 0), (3, 0, 0),
        (0, 5, 0), (2, 5, 0),
        (30, 9, 9), (31, 9, 9),
    ]);
    let x = b(1, 0, 0);
    assert_eq!(run_length(&t, &unmeshed, b(0, 0, 0), x), 3);
    assert_eq!(run_length(&t, &unmeshed, b(1, 0, 0), x), 2);
    assert_eq!(run_length(&t, &unmeshed, b(3, 0, 0), x), 1);
    assert_eq!(run_length(&t, &unmeshed, b(0, 5, 0), x), 1);
    assert_eq!(run_length(&t, &unmeshed, b(30, 9, 9), x), 2);
    assert_eq!(run_length(&t, &unmeshed, b(31, 9, 9), x), 1);
    assert_eq!(run_length(&t, &unmeshed, b(0, 0, 0), b(0, 1, 0)), 1);
    assert_eq!(run_length(&t, &unmeshed, b(0, 0, 0), b(0, 0, 1)), 1);
}

#[test]
fn run_length_of_a_full_row_is_the_chunk_edge() {
    let mut t = Terrain::new();
    let mut unmeshed = BlockBitmap::new();
    for z in 0..32 {
        t.set(4, 4, z, Block { blocktype: BlockType::BlockWater });
        unmeshed.insert(4, 4, z);
    }
    assert_eq!(run_length(&t, &unmeshed, b(4, 4, 0), b(0, 0, 1)), 32);
    assert_eq!(run_length(&t, &unmeshed, b(4, 4, 20), b(0, 0, 1)), 12);
}

#[test]
fn expand_face_is_as_wide_as_the_narrowest_run() {
    // a 3 x 3 plate in the plane z = 0 with one corner missing
    let mut blocks = Vec::new();
    let mut faces = Vec::new();
    for x in 0..3 {
        for y in 0..3 {
            if (x, y) != (2, 2) {
                blocks.push((x, y, 0, BlockStone));
                faces.push((x, y, 0));
            }
        }
    }
    let t = terrain_with(&blocks);
    let unmeshed = bitmap_with(&faces);
    // the front face grows along y first (3), then along x as far as every row allows (2)
    assert_eq!(expand_face(&t, &unmeshed, &face(0), b(0, 0, 0)), b(2, 3, 1));
    assert_eq!(expand_face(&t, &unmeshed, &face(0), b(2, 0, 0)), b(1, 2, 1));
    // from the middle, the run along y is 2 long, and its second row stops at the gap
    assert_eq!(expand_face(&t, &unmeshed, &face(0), b(1, 1, 0)), b(1, 2, 1));
    assert_eq!(expand_face(&t, &unmeshed, &face(0), b(1, 0, 0)), b(1, 3, 1));
    // the top face grows along z first (1), then along x (3)
    assert_eq!(expand_face(&t, &unmeshed, &face(4), b(0, 0, 0)), b(3, 1, 1));
    // the right face grows along z first (1), then along y (3)
    assert_eq!(expand_face(&t, &unmeshed, &face(2), b(0, 0, 0)), b(1, 3, 1));
}

#[test]
fn mesh_of_air_is_empty() {
    let mesh = Mesh::gen(&Terrain::new());
    assert!(mesh.vertices.is_empty());
    assert!(mesh.elements.is_empty());
    assert_eq!(mesh.face_ranges, [(0, 0); 6]);
}

#[test]
fn mesh_of_one_block() {
    let t = terrain_with(&[(5, 6, 7, BlockType::BlockGrass)]);
    let mesh = Mesh::gen(&t);
    assert_eq!(mesh.vertices.len(), 24);
    assert_eq!(mesh.elements.len(), 36);
    for f in 0..6 {
        assert_eq!(mesh.face_ranges[f], (6 * f, 6));
        let base = 4 * f as u32;
        assert_eq!(
            mesh.elements[6 * f..6 * f + 6],
            [base, base + 1, base + 2, base + 3, base + 2, base + 1]
        );
    }
    let v = |x, y, z| VertexData { position: b(x, y, z), blocktype: BlockType::BlockGrass };
    // front: the corners of the face that looks along +z
    assert_eq!(mesh.vertices[0..4], [v(5, 6, 8), v(6, 6, 8), v(5, 7, 8), v(6, 7, 8)]);
    // back
    assert_eq!(mesh.vertices[4..8], [v(6, 6, 7), v(5, 6, 7), v(6, 7, 7), v(5, 7, 7)]);
    // right
    assert_eq!(mesh.vertices[8..12], [v(6, 6, 8), v(6, 6, 7), v(6, 7, 8), v(6, 7, 7)]);
    // left
    assert_eq!(mesh.vertices[12..16], [v(5, 6, 7), v(5, 6, 8), v(5, 7, 7), v(5, 7, 8)]);
    // top
    assert_eq!(mesh.vertices[16..20], [v(5, 7, 8), v(6, 7, 8), v(5, 7, 7), v(6, 7, 7)]);
    // bottom
    assert_eq!(mesh.vertices[20..24], [v(5, 6, 7), v(6, 6, 7), v(5, 6, 8), v(6, 6, 8)]);
}

#[test]
fn like_faces_are_merged_and_hidden_faces_left_out() {
    // two blocks, one on top of the other
    let t = terrain_with(&[(0, 0, 0, BlockStone), (0, 1, 0, BlockStone)]);
    let mesh = Mesh::gen(&t);
    // one rectangle per direction: the two faces between the blocks are hidden
    assert_eq!(mesh.vertices.len(), 24);
    assert_eq!(mesh.elements.len(), 36);
    let v = |x, y, z| VertexData { position: b(x, y, z), blocktype: BlockStone };
    assert_eq!(mesh.vertices[0..4], [v(0, 0, 1), v(1, 0, 1), v(0, 2, 1), v(1, 2, 1)]);
    assert_eq!(mesh.vertices[16..20], [v(0, 2, 1), v(1, 2, 1), v(0, 2, 0), v(1, 2, 0)]);
    assert_eq!(mesh.vertices[20..24], [v(0, 0, 0), v(1, 0, 0), v(0, 0, 1), v(1, 0, 1)]);
}

#[test]
fn faces_of_different_types_are_not_merged() {
    let t = terrain_with(&[(0, 0, 0, BlockType::BlockStone), (0, 1, 0, BlockType::BlockDirt)]);
    let mesh = Mesh::gen(&t);
    // front, back, right and left take two rectangles each, top and bottom one
    assert_eq!(mesh.vertices.len(), 4 * 10);
    assert_eq!(mesh.elements.len(), 6 * 10);
    assert_eq!(mesh.face_ranges, [(0, 12), (12, 12), (24, 12), (36, 12), (48, 6), (54, 6)]);
    assert_eq!(mesh.vertices[0].blocktype, BlockType::BlockStone);
    assert_eq!(mesh.vertices[4].blocktype, BlockType::BlockDirt);
}

#[test]
fn the_margin_hides_faces_at_the_edge_of_the_chunk() {
    // a block at the edge of the chunk with a solid block beyond the edge
    let t = terrain_with(&[(31, 0, 0, BlockStone), (32, 0, 0, BlockStone)]);
    let mesh = Mesh::gen(&t);
    assert_eq!(mesh.face_ranges, [(0, 6), (6, 6), (12, 0), (12, 6), (18, 6), (24, 6)]);
    assert_eq!(mesh.vertices.len(), 20);
}

#[test]
fn a_full_layer_is_one_rectangle_on_top() {
    let mut t = Terrain::new();
    for x in 0..32 {
        for z in 0..32 {
            t.set(x, 0, z, Block { blocktype: BlockType::BlockGrass });
        }
    }
    let mesh = Mesh::gen(&t);
    let (start, count) = mesh.face_ranges[4];
    assert_eq!(count, 6);
    let first = mesh.elements[start] as usize;
    let v = |x, y, z| VertexData { position: b(x, y, z), blocktype: BlockType::BlockGrass };
    assert_eq!(
        mesh.vertices[first..first + 4],
        [v(0, 1, 32), v(32, 1, 32), v(0, 1, 0), v(32, 1, 0)]
    );
    // the sides are one strip each, top and bottom one rectangle each
    assert_eq!(mesh.vertices.len(), 24);
}

#[test]
fn chunk_gen_meshes_the_terrain() {
    let t = terrain_with(&[(5, 6, 7, BlockType::BlockGrass)]);
    let chunk = chunk_gen(t, ChunkCoord::new(1, 2, 3));
    assert_eq!(chunk.coord, ChunkCoord::new(1, 2, 3));
    assert_eq!(chunk.payload.terrain.get(5, 6, 7).blocktype, BlockType::BlockGrass);
    assert_eq!(chunk.payload.mesh.vertices.len(), 24);
    assert_eq!(chunk.payload.mesh.elements.len(), 36);
}
