use cubeland::coord::{ChunkCoord, ColumnCoord};
use cubeland::coord_set::CoordSet;

fn c(x: i64, y: i64, z: i64) -> ChunkCoord {
    ChunkCoord::new(x, y, z)
}

#[test]
fn coordinates_are_equal_by_components() {
    assert_eq!(c(1, 2, 3), ChunkCoord { x: 1, y: 2, z: 3 });
    assert_ne!(c(1, 2, 3), c(3, 2, 1));
    assert_eq!(ColumnCoord::new(4, -5), ColumnCoord { x: 4, y: -5 });
}

#[test]
fn lexicographic_order() {
    assert!(c(0, 9, 9).before(&c(1, 0, 0)));
    assert!(c(1, 0, 9).before(&c(1, 1, 0)));
    assert!(c(1, 1, 0).before(&c(1, 1, 1)));
    assert!(!c(1, 1, 1).before(&c(1, 1, 1)));
    assert!(!c(1, 1, 1).before(&c(1, 1, 0)));
    assert!(!c(1, 0, 0).before(&c(0, 9, 9)));
    assert!(c(i64::MIN, 0, 0).before(&c(i64::MAX, 0, 0)));
    assert!(c(-1, 0, 0).before(&c(0, i64::MIN, i64::MIN)));
}

#[test]
fn hash_is_a_function_of_the_coordinate() {
    assert_eq!(c(1, 2, 3).hash64(), c(1, 2, 3).hash64());
    assert_ne!(c(1, 2, 3).hash64(), c(3, 2, 1).hash64());
    assert_ne!(c(0, 0, 0).hash64(), c(0, 0, 1).hash64());
    assert_ne!(c(-1, 0, 0).hash64(), c(1, 0, 0).hash64());
    for n in 1..20usize {
        let place = c(7, -8, 9).spread(n);
        assert!(place < n);
        assert_eq!(place, (c(7, -8, 9).hash64() % n as u64) as usize);
    }
}

#[test]
fn coordinate_set() {
    let mut set = CoordSet::new();
    assert_eq!(set.len(), 0);
    assert!(!set.contains(c(0, 0, 0)));
    assert!(set.insert(c(0, 0, 0)));
    assert!(set.insert(c(1, 0, 0)));
    assert!(!set.insert(c(0, 0, 0)));
    assert!(set.insert(c(0, 0, 1)));
    assert_eq!(set.len(), 3);
    assert!(set.contains(c(0, 0, 0)) && set.contains(c(1, 0, 0)) && set.contains(c(0, 0, 1)));
    assert!(!set.contains(c(0, 1, 0)));
    assert!(set.remove(c(0, 0, 0)));
    assert!(!set.remove(c(0, 0, 0)));
    assert!(!set.remove(c(5, 5, 5)));
    assert_eq!(set.len(), 2);
    assert!(!set.contains(c(0, 0, 0)));
    assert!(set.contains(c(1, 0, 0)) && set.contains(c(0, 0, 1)));
}
