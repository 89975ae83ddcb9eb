use cubeland::cache::ChunkCache;
use cubeland::chunk::Chunk;
use cubeland::coord::ChunkCoord;

fn c(x: i64, y: i64, z: i64) -> ChunkCoord {
    ChunkCoord::new(x, y, z)
}

fn put(cache: &mut ChunkCache<&'static str>, coord: ChunkCoord, name: &'static str, time: u64) {
    cache.insert(coord, Chunk::new(coord, name, time));
}

#[test]
fn empty_cache() {
    let cache: ChunkCache<&'static str> = ChunkCache::new(4);
    assert_eq!(cache.len(), 0);
    assert_eq!(cache.capacity(), 4);
    assert!(cache.get(c(0, 0, 0)).is_none());
    assert!(!cache.contains(c(0, 0, 0)));
}

#[test]
fn insert_then_get() {
    let mut cache = ChunkCache::new(4);
    put(&mut cache, c(1, 2, 3), "a", 10);
    put(&mut cache, c(-1, 2, 3), "b", 11);
    assert_eq!(cache.len(), 2);
    let a = cache.get(c(1, 2, 3)).unwrap();
    assert_eq!((a.coord, a.payload, a.used_time), (c(1, 2, 3), "a", 10));
    let b = cache.get(c(-1, 2, 3)).unwrap();
    assert_eq!((b.coord, b.payload, b.used_time), (c(-1, 2, 3), "b", 11));
    assert!(cache.get(c(3, 2, 1)).is_none());
}

#[test]
fn insert_overwrites() {
    let mut cache = ChunkCache::new(4);
    put(&mut cache, c(1, 2, 3), "old", 10);
    put(&mut cache, c(1, 2, 3), "new", 5);
    assert_eq!(cache.len(), 1);
    let ch = cache.get(c(1, 2, 3)).unwrap();
    assert_eq!((ch.payload, ch.used_time), ("new", 5));
}

#[test]
fn get_does_not_touch() {
    let mut cache = ChunkCache::new(1);
    put(&mut cache, c(0, 0, 0), "a", 1);
    put(&mut cache, c(1, 0, 0), "b", 2);
    assert!(cache.get(c(0, 0, 0)).is_some());
    cache.evict_if_over_capacity();
    assert!(!cache.contains(c(0, 0, 0)));
    assert!(cache.contains(c(1, 0, 0)));
}

#[test]
fn capacity_holds_after_eviction() {
    for capacity in 0..6usize {
        let mut cache = ChunkCache::new(capacity);
        for i in 0..10i64 {
            put(&mut cache, c(i, -i, 2 * i), "x", (i as u64 * 7) % 10);
            assert_eq!(cache.len(), (i as usize) + 1);
        }
        cache.evict_if_over_capacity();
        assert_eq!(cache.len(), capacity);
        cache.evict_if_over_capacity();
        assert_eq!(cache.len(), capacity);
    }
}

#[test]
fn eviction_leaves_a_cache_within_capacity_alone() {
    let mut cache = ChunkCache::new(3);
    put(&mut cache, c(0, 0, 0), "a", 1);
    put(&mut cache, c(1, 0, 0), "b", 2);
    put(&mut cache, c(2, 0, 0), "c", 3);
    cache.evict_if_over_capacity();
    assert_eq!(cache.len(), 3);
    assert!(cache.contains(c(0, 0, 0)) && cache.contains(c(1, 0, 0)) && cache.contains(c(2, 0, 0)));
}

#[test]
fn least_recently_used_goes_first() {
    // N chunks with rising timestamps and room for N - 1
    let n = 5i64;
    let mut cache = ChunkCache::new((n - 1) as usize);
    for i in 0..n {
        put(&mut cache, c(n - i, 0, 0), "x", 100 + i as u64);
    }
    cache.evict_if_over_capacity();
    assert_eq!(cache.len(), 4);
    assert!(!cache.contains(c(5, 0, 0)));
    for i in 1..n {
        assert!(cache.contains(c(n - i, 0, 0)));
    }
}

#[test]
fn eviction_removes_the_oldest_in_turn() {
    let mut cache = ChunkCache::new(2);
    put(&mut cache, c(0, 0, 0), "a", 3);
    put(&mut cache, c(1, 0, 0), "b", 1);
    put(&mut cache, c(2, 0, 0), "c", 4);
    put(&mut cache, c(3, 0, 0), "d", 2);
    cache.evict_if_over_capacity();
    assert_eq!(cache.len(), 2);
    assert!(cache.contains(c(0, 0, 0)));
    assert!(cache.contains(c(2, 0, 0)));
}

#[test]
fn touch_extends_residency() {
    let mut cache = ChunkCache::new(2);
    put(&mut cache, c(0, 0, 0), "a", 1);
    put(&mut cache, c(1, 0, 0), "b", 2);
    put(&mut cache, c(2, 0, 0), "c", 3);
    // (0,0,0) would go next; touching it sends (1,0,0) instead
    assert!(cache.touch(c(0, 0, 0), 3));
    cache.evict_if_over_capacity();
    assert!(cache.contains(c(0, 0, 0)));
    assert!(!cache.contains(c(1, 0, 0)));
    assert!(cache.contains(c(2, 0, 0)));
    assert_eq!(cache.get(c(0, 0, 0)).map(|ch| (ch.payload, ch.used_time)), Some(("a", 3)));
}

#[test]
fn touch_of_an_absent_coordinate_changes_nothing() {
    let mut cache = ChunkCache::new(2);
    put(&mut cache, c(0, 0, 0), "a", 1);
    assert!(!cache.touch(c(9, 9, 9), 50));
    assert_eq!(cache.len(), 1);
    assert_eq!(cache.get(c(0, 0, 0)).map(|ch| ch.used_time), Some(1));
}

#[test]
fn ties_go_to_the_lowest_coordinate() {
    let mut cache = ChunkCache::new(1);
    put(&mut cache, c(1, 0, 0), "b", 5);
    put(&mut cache, c(0, 0, 0), "a", 5);
    cache.evict_if_over_capacity();
    assert!(!cache.contains(c(0, 0, 0)));
    assert!(cache.contains(c(1, 0, 0)));

    // x decides before y, y before z
    let mut cache = ChunkCache::new(2);
    put(&mut cache, c(0, 5, 0), "a", 5);
    put(&mut cache, c(0, 0, 9), "b", 5);
    put(&mut cache, c(-1, 7, 7), "c", 5);
    cache.evict_if_over_capacity();
    assert!(!cache.contains(c(-1, 7, 7)));
    cache.insert(c(0, 0, 8), Chunk::new(c(0, 0, 8), "d", 5));
    cache.evict_if_over_capacity();
    assert!(!cache.contains(c(0, 0, 8)));
    assert!(cache.contains(c(0, 0, 9)));
    assert!(cache.contains(c(0, 5, 0)));
}

#[test]
fn a_touch_to_a_tied_time_does_not_save_the_lowest_coordinate() {
    let mut cache = ChunkCache::new(1);
    put(&mut cache, c(0, 0, 0), "a", 1);
    put(&mut cache, c(1, 0, 0), "b", 5);
    assert!(cache.touch(c(0, 0, 0), 5));
    cache.evict_if_over_capacity();
    assert!(!cache.contains(c(0, 0, 0)));
    assert!(cache.contains(c(1, 0, 0)));
}

#[test]
fn chunk_touch() {
    let mut chunk = Chunk::new(c(1, 1, 1), 17u8, 5);
    chunk.touch_at(9);
    assert_eq!((chunk.coord, chunk.payload, chunk.used_time), (c(1, 1, 1), 17, 9));
    chunk.touch();
    assert_eq!((chunk.coord, chunk.payload), (c(1, 1, 1), 17));
}

#[test]
fn a_full_cache_finds_every_chunk() {
    // many more chunks than buckets, so that buckets are shared
    let mut cache = ChunkCache::new(50);
    for x in 0..20 {
        for y in 0..20 {
            let coord = c(x, y, x - y);
            cache.insert(coord, Chunk::new(coord, (x * 20 + y) as u64, (x * 20 + y) as u64));
        }
    }
    assert_eq!(cache.len(), 400);
    for x in 0..20 {
        for y in 0..20 {
            let ch = cache.get(c(x, y, x - y)).unwrap();
            assert_eq!(ch.payload, (x * 20 + y) as u64);
        }
    }
    assert!(cache.get(c(20, 0, 20)).is_none());
    cache.evict_if_over_capacity();
    assert_eq!(cache.len(), 50);
    // the fifty used last are left, and all of them are still found
    for x in 0..20 {
        for y in 0..20 {
            let kept = x * 20 + y >= 350;
            assert_eq!(cache.contains(c(x, y, x - y)), kept);
            assert_eq!(cache.get(c(x, y, x - y)).map(|ch| ch.payload), if kept { Some((x * 20 + y) as u64) } else { None });
        }
    }
    // touched and overwritten chunks stay where they are found
    assert!(cache.touch(c(17, 10, 7), 1000));
    cache.insert(c(19, 19, 0), Chunk::new(c(19, 19, 0), 7, 1));
    assert_eq!(cache.get(c(17, 10, 7)).map(|ch| (ch.payload, ch.used_time)), Some((350, 1000)));
    assert_eq!(cache.get(c(19, 19, 0)).map(|ch| (ch.payload, ch.used_time)), Some((7, 1)));
    assert_eq!(cache.len(), 50);
}
