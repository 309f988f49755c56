use tagma::coord::Coord;
use tagma::coord_gen::CoordKey;
use tagma::coord_kv2::CoordKV2;
use tagma::coord_kv_n::CoordKVN;
use tagma::coord_path::CoordPath;
use tagma::cube_kv::CoordCubeKV;

#[test]
fn kv2_proximity_finds_nearby() {
    let mut kv = CoordKV2::new();
    let center_key = CoordKey::new([5, 5]);
    let nearby_key = CoordKey::new([5, 6]);
    let far_key = CoordKey::new([5, 20]);

    kv.insert_by_coordkey(&center_key, b"center".to_vec());
    kv.insert_by_coordkey(&nearby_key, b"nearby".to_vec());
    kv.insert_by_coordkey(&far_key, b"far".to_vec());

    let center_path = center_key.to_coord_path();
    let results = kv.proximity::<2, 1>(&center_path, 1);

    assert_eq!(results.len(), 2);
    let found_paths: Vec<_> = results.iter().map(|(p, _)| *p).collect();
    assert!(found_paths.contains(&center_path));
    assert!(found_paths.contains(&nearby_key.to_coord_path()));
}

#[test]
fn kv2_bounding_box_range() {
    let mut kv = CoordKV2::new();
    kv.insert_by_coordkey(&CoordKey::new([5, 5]), b"v1".to_vec());
    kv.insert_by_coordkey(&CoordKey::new([5, 6]), b"v2".to_vec());
    kv.insert_by_coordkey(&CoordKey::new([10, 10]), b"v3".to_vec());

    let ranges = [(4, 6), (5, 7)];
    let results = kv.bounding_box_range(&ranges);
    assert_eq!(results.len(), 2);
}

#[test]
fn kvn_proximity_finds_nearby() {
    let mut kv = CoordKVN::<3>::new();
    let center_path = CoordPath::<3>::new([
        Coord::new(5).unwrap(),
        Coord::new(5).unwrap(),
        Coord::new(5).unwrap(),
    ]);
    let nearby_path = CoordPath::<3>::new([
        Coord::new(5).unwrap(),
        Coord::new(5).unwrap(),
        Coord::new(6).unwrap(),
    ]);
    let far_path = CoordPath::<3>::new([
        Coord::new(5).unwrap(),
        Coord::new(5).unwrap(),
        Coord::new(20).unwrap(),
    ]);

    kv.insert_by_coordkey(&CoordKey::from_coord_path(&center_path), b"center".to_vec());
    kv.insert_by_coordkey(&CoordKey::from_coord_path(&nearby_path), b"nearby".to_vec());
    kv.insert_by_coordkey(&CoordKey::from_coord_path(&far_path), b"far".to_vec());

    let results = kv.proximity::<3, 1>(&center_path, 1);
    assert_eq!(results.len(), 2);
}

#[test]
fn kvn_proximity_empty_when_none_nearby() {
    let kv: CoordKVN<2> = CoordKVN::new();
    let center_path = CoordPath::<2>::new([Coord::new(5).unwrap(), Coord::new(5).unwrap()]);
    let results = kv.proximity::<2, 1>(&center_path, 1);
    assert!(results.is_empty());
}

#[test]
fn kvn_bounding_box_range() {
    let mut kv = CoordKVN::<2>::new();
    kv.insert_by_coordkey(&CoordKey::new([5, 5]), b"v1".to_vec());
    kv.insert_by_coordkey(&CoordKey::new([5, 6]), b"v2".to_vec());
    kv.insert_by_coordkey(&CoordKey::new([10, 10]), b"v3".to_vec());

    let ranges = [(4u16, 6u16), (5u16, 7u16)];
    let results = kv.bounding_box_range(&ranges);
    assert_eq!(results.len(), 2);
}

#[test]
fn spatial_kv_empty_store_returns_empty() {
    let kv: CoordKVN<2> = CoordKVN::new();
    let ranges = [(0u16, 100u16), (0u16, 100u16)];
    let results = kv.bounding_box_range(&ranges);
    assert!(results.is_empty());

    let center_path = CoordPath::<2>::new([Coord::new(50).unwrap(), Coord::new(50).unwrap()]);
    let results = kv.proximity::<2, 1>(&center_path, 1);
    assert!(results.is_empty());
}

#[test]
fn bounding_box_results_in_lexicographic_order_with_values() {
    let mut kv = CoordKVN::<2>::new();
    kv.insert_by_coordkey(&CoordKey::new([6, 5]), b"b".to_vec());
    kv.insert_by_coordkey(&CoordKey::new([5, 7]), b"a".to_vec());
    let results = kv.bounding_box_range(&[(5u16, 6u16), (5u16, 7u16)]);
    assert_eq!(results.len(), 2);
    assert_eq!(results[0].0.coords()[0].index(), 5);
    assert_eq!(results[0].1, b"a".to_vec());
    assert_eq!(results[1].0.coords()[0].index(), 6);
    assert_eq!(results[1].1, b"b".to_vec());
}

#[test]
fn from_coord_path_keeps_low_byte() {
    let p = CoordPath::<2>::new([Coord::new(261).unwrap(), Coord::new(7).unwrap()]);
    let k = CoordKey::from_coord_path(&p);
    assert_eq!(k.as_bytes(), &[5u8, 7u8]);
}
