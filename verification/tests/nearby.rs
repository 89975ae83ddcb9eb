use cubeland::chunk::Chunk;
use cubeland::coord::ChunkCoord;
use cubeland::loader::{ChunkLoader, LoaderConfig, RequestPolicy};
use cubeland::nearby::{chunk_of, coords_within, find_nearby_chunks, nearby_chunk_coords, request_nearby_chunks};

fn c(x: i64, y: i64, z: i64) -> ChunkCoord {
    ChunkCoord::new(x, y, z)
}

#[test]
fn chunk_of_rounds_towards_zero() {
    assert_eq!(chunk_of(0, 31, 32), c(0, 0, 1));
    assert_eq!(chunk_of(63, 64, 65), c(1, 2, 2));
    assert_eq!(chunk_of(-1, -31, -32), c(0, 0, -1));
    assert_eq!(chunk_of(-33, -64, -65), c(-1, -2, -2));
    assert_eq!(chunk_of(i64::MIN, i64::MAX, 0), c(-288230376151711744, 288230376151711743, 0));
}

#[test]
fn nothing_within_radius_zero_and_one_chunk_within_radius_one() {
    assert_eq!(coords_within(c(3, 4, 5), 0), vec![]);
    assert_eq!(coords_within(c(3, 4, 5), 1), vec![c(3, 4, 5)]);
}

#[test]
fn within_radius_two_nearest_first() {
    let expected = vec![
        c(0, 0, 0),
        c(-1, 0, 0), c(0, -1, 0), c(0, 0, -1), c(0, 0, 1), c(0, 1, 0), c(1, 0, 0),
        c(-1, -1, 0), c(-1, 0, -1), c(-1, 0, 1), c(-1, 1, 0),
        c(0, -1, -1), c(0, -1, 1), c(0, 1, -1), c(0, 1, 1),
        c(1, -1, 0), c(1, 0, -1), c(1, 0, 1), c(1, 1, 0),
        c(-1, -1, -1), c(-1, -1, 1), c(-1, 1, -1), c(-1, 1, 1),
        c(1, -1, -1), c(1, -1, 1), c(1, 1, -1), c(1, 1, 1),
    ];
    assert_eq!(coords_within(c(0, 0, 0), 2), expected);
    let moved: Vec<ChunkCoord> =
        expected.iter().map(|o| c(o.x + 10, o.y - 20, o.z + 30)).collect();
    assert_eq!(coords_within(c(10, -20, 30), 2), moved);
}

#[test]
fn nearby_chunks_are_those_of_the_visible_sphere() {
    let list = nearby_chunk_coords(40, -40, 100);
    // the position lies in chunk (1, -1, 3)
    assert_eq!(list.len(), 2103);
    assert_eq!(list[0], c(1, -1, 3));
    let mut last = 0;
    for p in &list {
        let (dx, dy, dz) = (p.x - 1, p.y + 1, p.z - 3);
        let d = dx * dx + dy * dy + dz * dz;
        assert!(d < 64);
        assert!(last <= d);
        last = d;
    }
    let mut sorted = list.clone();
    sorted.sort_by_key(|p| (p.x, p.y, p.z));
    sorted.dedup();
    assert_eq!(sorted.len(), 2103);
    assert_eq!(list, coords_within(c(1, -1, 3), 8));
}

#[test]
fn nearby_chunks_of_a_loader() {
    let config = LoaderConfig {
        worker_count: 1,
        max_chunks: 10000,
        max_inflight: 3,
        policy: RequestPolicy::FrameRefresh,
        report_interval: 1,
    };
    let mut loader: ChunkLoader<u8> = ChunkLoader::with_config(config, 0);
    request_nearby_chunks(&mut loader, 0, 0, 0);
    let out = loader.work_at(vec![], 1);
    let coords: Vec<ChunkCoord> = out.dispatches.iter().map(|d| d.coord).collect();
    assert_eq!(coords, vec![c(0, 0, 0), c(-1, 0, 0), c(0, -1, 0)]);
    let done = vec![
        Chunk::new(c(0, -1, 0), 3, 0),
        Chunk::new(c(0, 0, 0), 1, 0),
        Chunk::new(c(100, 0, 0), 9, 0),
    ];
    loader.work_at(done, 2);
    let found = find_nearby_chunks(&loader, 5, 5, 5);
    let payloads: Vec<u8> = found.iter().map(|ch| ch.payload).collect();
    assert_eq!(payloads, vec![1, 3]);
}
