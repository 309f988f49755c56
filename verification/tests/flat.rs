use tagma::coord::Coord;
use tagma::coord_path::CoordPath;
use tagma::flat::FlatMap;

fn c(i: u16) -> Coord {
    Coord::new(i).unwrap()
}

#[test]
fn flat_new_map_is_empty() {
    let map: FlatMap<u32> = FlatMap::new();
    assert!(map.is_empty());
    assert_eq!(map.len(), 0);
    assert_eq!(map.capacity(), 11172);
}

#[test]
fn flat_insert_and_get() {
    let mut map = FlatMap::new();
    let x = c(0);
    assert_eq!(map.insert(x, 42), None);
    assert_eq!(map.get(x), Some(&42));
    assert_eq!(map.len(), 1);
}

#[test]
fn flat_insert_overwrite() {
    let mut map = FlatMap::new();
    let x = c(0);
    map.insert(x, 1);
    assert_eq!(map.insert(x, 2), Some(1));
    assert_eq!(map.get(x), Some(&2));
    assert_eq!(map.len(), 1);
}

#[test]
fn flat_remove() {
    let mut map = FlatMap::new();
    let x = c(0);
    map.insert(x, 42);
    assert_eq!(map.remove(x), Some(42));
    assert!(map.is_empty());
}

#[test]
fn flat_contains_key() {
    let mut map = FlatMap::new();
    let x = c(0);
    assert!(!map.contains_key(x));
    map.insert(x, ());
    assert!(map.contains_key(x));
}

#[test]
fn flat_clear() {
    let mut map = FlatMap::new();
    map.insert(c(0), 1);
    map.insert(c(100), 2);
    map.clear();
    assert!(map.is_empty());
    assert_eq!(map.len(), 0);
}

#[test]
fn flat_iter_non_empty() {
    let mut map = FlatMap::new();
    let c1 = c(0);
    let c2 = c(9999);
    map.insert(c1, 10);
    map.insert(c2, 20);
    let entries: Vec<_> = map.iter().collect();
    assert_eq!(entries.len(), 2);
    assert!(entries.contains(&(c1, &10)));
    assert!(entries.contains(&(c2, &20)));
}

#[test]
fn flat_into_iter() {
    let mut map = FlatMap::new();
    let x = c(42);
    map.insert(x, "hello");
    let collected: Vec<_> = map.into_iter().collect();
    assert_eq!(collected.len(), 1);
    assert_eq!(collected[0].0, x);
    assert_eq!(collected[0].1, "hello");
}

#[test]
fn flat_from_iterator() {
    let pairs: Vec<_> = (0..5u16).map(|i| (c(i), i)).collect();
    let map: FlatMap<u16> = FlatMap::from_pairs(pairs);
    assert_eq!(map.len(), 5);
}

#[test]
fn flat_entry_or_insert() {
    let mut map = FlatMap::new();
    let x = c(0);
    map.entry(x).or_insert(42);
    assert_eq!(map.get(x), Some(&42));
    map.entry(x).or_insert(99);
    assert_eq!(map.get(x), Some(&42));
}

#[test]
fn flat_index_trait() {
    let mut map = FlatMap::new();
    let x = c(5);
    map.insert(x, 42);
    assert_eq!(map[x], 42);
    *map.get_mut(x).unwrap() = 99;
    assert_eq!(map[x], 99);
}

#[test]
fn retain() {
    let mut map = FlatMap::new();
    map.insert(c(0), 1);
    map.insert(c(1), 2);
    map.retain(|_, v| *v > 1);
    assert_eq!(map.len(), 1);
}

#[test]
fn drain() {
    let mut map = FlatMap::new();
    map.insert(c(0), 1);
    map.insert(c(1), 2);
    let drained: Vec<_> = map.drain().collect();
    assert_eq!(drained.len(), 2);
    assert!(map.is_empty());
}

#[test]
fn path_api() {
    let mut map = FlatMap::new();
    let x = c(42);
    map.insert_path(&CoordPath::new([x]), 100);
    assert_eq!(map.get_path(&CoordPath::new([x])), Some(&100));
    assert_eq!(map.remove_path(&CoordPath::new([x])), Some(100));
    assert!(map.is_empty());
}

#[test]
fn insert_11172_values() {
    let mut map = FlatMap::new();
    for i in 0u16..11172 {
        assert_eq!(map.insert(c(i), i), None);
    }
    assert_eq!(map.len(), 11172);
    for i in 0u16..11172 {
        assert_eq!(map.get(c(i)), Some(&i));
    }
}

#[test]
fn default() {
    let map: FlatMap<u32> = Default::default();
    assert!(map.is_empty());
}

#[test]
fn flat_entry_variants() {
    let mut map: FlatMap<u32> = FlatMap::new();
    let x = c(8);
    assert_eq!(map.entry(x).key(), x);
    *map.entry(x).or_insert_with(|| 5) += 1;
    assert_eq!(map.get(x), Some(&6));
    *map.entry(c(9)).or_insert_with_key(|k| k.index() as u32) += 0;
    assert_eq!(map.get(c(9)), Some(&9));
}

#[test]
fn eq() {
    let mut a = FlatMap::new();
    let mut b = FlatMap::new();
    a.insert(Coord::new(0).unwrap(), 1);
    b.insert(Coord::new(0).unwrap(), 1);
    assert!(a.eq(&b));
    b.insert(Coord::new(1).unwrap(), 2);
    assert!(!a.eq(&b));
}
