use tagma::coord::Coord;
use tagma::coord_path::CoordPath;
use tagma::map::{CoordMap12, CoordMap19, CoordMap6, CoordTreeMap, CoordTreeMap1, CoordTreeMap2};

fn c(i: u16) -> Coord {
    Coord::new(i).unwrap()
}

#[test]
fn map_new_map_is_empty() {
    let map: CoordTreeMap<1, u32> = CoordTreeMap::new();
    assert!(map.is_empty());
    assert_eq!(map.len(), 0);
    assert_eq!(map.capacity(), Some(11172));
}

#[test]
fn map_insert_and_get() {
    let mut map = CoordTreeMap::<1, u32>::new();
    let x = c(0);
    assert_eq!(map.insert(x, 42), None);
    assert_eq!(map.get(&x), Some(&42));
    assert_eq!(map.len(), 1);
}

#[test]
fn map_insert_overwrite() {
    let mut map = CoordTreeMap::<1, u32>::new();
    let x = c(0);
    map.insert(x, 1);
    assert_eq!(map.insert(x, 2), Some(1));
    assert_eq!(map.get(&x), Some(&2));
    assert_eq!(map.len(), 1);
}

#[test]
fn map_remove() {
    let mut map = CoordTreeMap::<1, u32>::new();
    let x = c(0);
    map.insert(x, 42);
    assert_eq!(map.remove(&x), Some(42));
    assert_eq!(map.get(&x), None);
    assert!(map.is_empty());
}

#[test]
fn map_contains_key() {
    let mut map = CoordTreeMap::<1, ()>::new();
    let x = c(0);
    assert!(!map.contains_key(&x));
    map.insert(x, ());
    assert!(map.contains_key(&x));
}

#[test]
fn map_clear() {
    let mut map = CoordTreeMap::<1, u32>::new();
    map.insert(c(0), 1);
    map.insert(c(100), 2);
    map.clear();
    assert!(map.is_empty());
    assert_eq!(map.len(), 0);
}

#[test]
fn map_iter_empty() {
    let map: CoordTreeMap<1, u32> = CoordTreeMap::new();
    assert_eq!(map.iter_flat().count(), 0);
}

#[test]
fn map_iter_non_empty() {
    let mut map = CoordTreeMap::<1, u32>::new();
    let c1 = c(0);
    let c2 = c(9999);
    map.insert(c1, 10);
    map.insert(c2, 20);
    let entries: Vec<_> = map.iter_flat().collect();
    assert_eq!(entries.len(), 2);
    assert!(entries.contains(&(c1, &10)));
    assert!(entries.contains(&(c2, &20)));
}

#[test]
fn map_into_iter_consuming() {
    let mut map = CoordTreeMap::<1, &str>::new();
    let x = c(42);
    map.insert(x, "hello");
    let collected: Vec<_> = map.into_iter().collect();
    assert_eq!(collected.len(), 1);
    assert_eq!(collected[0].0, x);
    assert_eq!(collected[0].1, "hello");
}

#[test]
fn map_from_iterator() {
    let pairs: Vec<_> = (0..5u16).map(|i| (c(i), i as u64)).collect();
    let map: CoordTreeMap<1, u64> = CoordTreeMap::from_pairs(pairs);
    assert_eq!(map.len(), 5);
}

#[test]
fn map_entry_or_insert() {
    let mut map = CoordTreeMap::<1, u32>::new();
    let x = c(0);
    map.entry(x).or_insert(42);
    assert_eq!(map.get(&x), Some(&42));
    map.entry(x).or_insert(99);
    assert_eq!(map.get(&x), Some(&42));
}

#[test]
fn map_entry_and_modify() {
    let mut map = CoordTreeMap::<1, u32>::new();
    let x = c(0);
    map.entry(x).and_modify(|v| *v += 1).or_insert(1);
    assert_eq!(map.get(&x), Some(&1));
    map.entry(x).and_modify(|v| *v += 1).or_insert(1);
    assert_eq!(map.get(&x), Some(&2));
}

#[test]
fn map_index_trait() {
    let mut map = CoordTreeMap::<1, u32>::new();
    let x = c(5);
    map.insert(x, 42);
    assert_eq!(map[x], 42);
    *map.get_mut(&x).unwrap() = 99;
    assert_eq!(map[x], 99);
}

#[test]
fn map_default_is_empty() {
    let map: CoordTreeMap<1, u32> = Default::default();
    assert!(map.is_empty());
}

#[test]
fn map_flat_get_path() {
    let mut map = CoordTreeMap::<1, u32>::new();
    let x = c(42);
    map.insert(x, 100);
    assert_eq!(map.get_path(&CoordPath::new([x])), Some(&100));
}

#[test]
fn map_flat_insert_path() {
    let mut map = CoordTreeMap::<1, u32>::new();
    let x = c(42);
    map.insert_path(&CoordPath::new([x]), 100);
    assert_eq!(map.get(&x), Some(&100));
}

#[test]
fn map_flat_remove_path() {
    let mut map = CoordTreeMap::<1, u32>::new();
    let x = c(42);
    map.insert(x, 100);
    assert_eq!(map.remove_path(&CoordPath::new([x])), Some(100));
    assert!(map.is_empty());
}

#[test]
fn map_tree2_insert_and_get() {
    let mut map = CoordTreeMap::<2, u32>::new();
    let path = CoordPath::new([c(0), c(1)]);
    assert_eq!(map.insert_path(&path, 42), None);
    assert_eq!(map.get_path(&path), Some(&42));
    assert_eq!(map.len(), 1);
}

#[test]
fn map_tree2_insert_overwrite() {
    let mut map = CoordTreeMap::<2, u32>::new();
    let path = CoordPath::new([c(0), c(1)]);
    map.insert_path(&path, 1);
    assert_eq!(map.insert_path(&path, 2), Some(1));
    assert_eq!(map.get_path(&path), Some(&2));
    assert_eq!(map.len(), 1);
}

#[test]
fn map_tree2_remove() {
    let mut map = CoordTreeMap::<2, u32>::new();
    let path = CoordPath::new([c(0), c(1)]);
    map.insert_path(&path, 42);
    assert_eq!(map.remove_path(&path), Some(42));
    assert_eq!(map.get_path(&path), None);
    assert!(map.is_empty());
}

#[test]
fn map_tree2_independent_paths() {
    let mut map = CoordTreeMap::<2, u32>::new();
    let path_a = CoordPath::new([c(0), c(0)]);
    let path_b = CoordPath::new([c(0), c(1)]);
    map.insert_path(&path_a, 10);
    map.insert_path(&path_b, 20);
    assert_eq!(map.len(), 2);
    assert_eq!(map.get_path(&path_a), Some(&10));
    assert_eq!(map.get_path(&path_b), Some(&20));
}

#[test]
fn map_tree2_remaining_paths_after_remove() {
    let mut map = CoordTreeMap::<2, u32>::new();
    let path_a = CoordPath::new([c(0), c(0)]);
    let path_b = CoordPath::new([c(0), c(1)]);
    map.insert_path(&path_a, 10);
    map.insert_path(&path_b, 20);
    map.remove_path(&path_a);
    assert_eq!(map.len(), 1);
    assert_eq!(map.get_path(&path_a), None);
    assert_eq!(map.get_path(&path_b), Some(&20));
}

#[test]
fn map_tree6_basic() {
    let mut map = CoordTreeMap::<6, String>::new();
    let path = CoordPath::new([c(0), c(1), c(2), c(3), c(4), c(5)]);
    map.insert_path(&path, "hello".to_string());
    assert_eq!(map.get_path(&path).map(|s| s.as_str()), Some("hello"));
}

#[test]
fn map_tree6_missing_path() {
    let map = CoordTreeMap::<6, u32>::new();
    let path = CoordPath::new([c(0), c(0), c(0), c(0), c(0), c(0)]);
    assert_eq!(map.get_path(&path), None);
}

#[test]
fn map_type_aliases_exist() {
    let _m1: CoordTreeMap1<u32> = CoordTreeMap::new();
    let _m2: CoordTreeMap2<u32> = CoordTreeMap::new();
    let _m6: CoordMap6<u32> = CoordTreeMap::new();
    let _m12: CoordMap12<u32> = CoordTreeMap::new();
    let _m19: CoordMap19<u32> = CoordTreeMap::new();
}

#[test]
fn coord_map12_basic() {
    let mut map: CoordMap12<String> = CoordTreeMap::new();
    let path = CoordPath::new(core::array::from_fn(|i| c(i as u16)));
    map.insert_path(&path, "hello".to_string());
    assert_eq!(map.get_path(&path).map(|s| s.as_str()), Some("hello"));
    assert_eq!(map.len(), 1);
    assert_eq!(map.remove_path(&path), Some("hello".to_string()));
    assert!(map.is_empty());
}

#[test]
fn map_tree2_clear() {
    let mut map = CoordTreeMap::<2, u32>::new();
    map.insert_path(&CoordPath::new([c(0), c(0)]), 1);
    map.insert_path(&CoordPath::new([c(1), c(1)]), 2);
    assert_eq!(map.len(), 2);
    map.clear();
    assert!(map.is_empty());
    assert_eq!(map.len(), 0);
    map.insert_path(&CoordPath::new([c(2), c(2)]), 3);
    assert_eq!(map.get_path(&CoordPath::new([c(2), c(2)])), Some(&3));
}

#[test]
fn map_tree6_clear() {
    let mut map = CoordTreeMap::<6, u32>::new();
    let path = CoordPath::new(core::array::from_fn(|i| c(i as u16)));
    map.insert_path(&path, 42);
    assert_eq!(map.len(), 1);
    map.clear();
    assert!(map.is_empty());
}

#[test]
fn coord_map1_is_coord_map_1() {
    let mut m1: CoordTreeMap1<u32> = CoordTreeMap::new();
    let x = c(0);
    m1.insert(x, 42);
    assert_eq!(m1.get(&x), Some(&42));
}

#[test]
fn coord_map6_uuid_scale() {
    let mut map: CoordMap6<u32> = CoordTreeMap::new();
    let path = CoordPath::new([c(0), c(0), c(0), c(0), c(0), c(0)]);
    map.insert_path(&path, 42);
    assert_eq!(map.get_path(&path), Some(&42));
}

#[test]
fn map_max_depth_insert() {
    let mut map = CoordTreeMap::<19, u32>::new();
    let path = CoordPath::new(core::array::from_fn(|i| c(i as u16)));
    map.insert_path(&path, 42);
    assert_eq!(map.get_path(&path), Some(&42));
    assert_eq!(map.len(), 1);
}

#[test]
fn map_drain_and_retain_in_coordinate_order() {
    let mut map = CoordTreeMap::<1, u32>::new();
    map.insert(c(500), 5);
    map.insert(c(2), 2);
    map.insert(c(77), 7);
    map.retain(|_, v| {
        *v *= 10;
        *v != 20
    });
    assert_eq!(map.len(), 2);
    let keys: Vec<u16> = map.keys().map(|k| k.index()).collect();
    assert_eq!(keys, vec![77, 500]);
    let values: Vec<u32> = map.values().copied().collect();
    assert_eq!(values, vec![70, 50]);
    let drained: Vec<(u16, u32)> = map.drain().map(|(k, v)| (k.index(), v)).collect();
    assert_eq!(drained, vec![(77, 70), (500, 50)]);
    assert!(map.is_empty());
}

#[test]
fn map_from_pairs_later_pair_wins() {
    let map = CoordTreeMap::<1, u32>::from_pairs(vec![(c(1), 1), (c(1), 2), (c(3), 3)]);
    assert_eq!(map.len(), 2);
    assert_eq!(map.get(&c(1)), Some(&2));
}

#[test]
fn map_tree2_partial_eq() {
    let mut a = CoordTreeMap::<2, u32>::new();
    let mut b = CoordTreeMap::<2, u32>::new();
    let p = CoordPath::new([Coord::new(0).unwrap(), Coord::new(0).unwrap()]);
    a.insert_path(&p, 42);
    b.insert_path(&p, 42);
    assert!(a.eq(&b));
    b.insert_path(
        &CoordPath::new([Coord::new(1).unwrap(), Coord::new(1).unwrap()]),
        99,
    );
    assert!(!a.eq(&b));
}

#[test]
fn map_tree2_debug_format() {
    let mut map = CoordTreeMap::<2, u32>::new();
    map.insert_path(
        &CoordPath::new([Coord::new(0).unwrap(), Coord::new(0).unwrap()]),
        1,
    );
    let s = map.debug_string();
    assert!(s.contains("CoordTreeMap"));
    assert!(s.contains("N: 2"));
    assert!(s.contains("len: 1"));
}

#[test]
fn map_debug_string_exact() {
    let mut map = CoordTreeMap::<2, u32>::new();
    map.insert_path(
        &CoordPath::new([Coord::new(0).unwrap(), Coord::new(0).unwrap()]),
        1,
    );
    assert_eq!(map.debug_string(), "CoordTreeMap { N: 2, len: 1, root: Branch { children: 1 } }");
}

#[test]
fn map_tree2_clone_independent() {
    let mut a = CoordTreeMap::<2, u32>::new();
    a.insert_path(&CoordPath::new([c(0), c(0)]), 1);
    let mut b = a.clone();
    b.insert_path(&CoordPath::new([c(1), c(1)]), 2);
    assert_eq!(a.len(), 1);
    assert_eq!(b.len(), 2);
    assert_eq!(a.get_path(&CoordPath::new([c(0), c(0)])), Some(&1));
    assert_eq!(b.get_path(&CoordPath::new([c(0), c(0)])), Some(&1));
    assert_eq!(b.get_path(&CoordPath::new([c(1), c(1)])), Some(&2));
}

#[test]
fn map_values_mut_changes_every_value() {
    let mut map = CoordTreeMap::<1, u32>::new();
    map.insert(c(3), 1);
    map.insert(c(9), 2);
    for v in map.values_mut() {
        *v = *v * 10;
    }
    assert_eq!(map.get(&c(3)), Some(&10));
    assert_eq!(map.get(&c(9)), Some(&20));
    assert_eq!(map.len(), 2);
}

#[test]
fn map_default_depth_two_is_empty() {
    let m: CoordTreeMap<2, u32> = CoordTreeMap::default();
    assert!(m.is_empty());
}
