use tagma::coord::Coord;
use tagma::coord_path::CoordPath;
use tagma::coord_space_dense::{linear_index, CoordSpace2};

fn c(i: u16) -> Coord {
    Coord::new(i).unwrap()
}

#[test]
fn coord_space_dense_new_is_empty() {
    let s = CoordSpace2::<u32>::new();
    assert!(s.is_empty());
    assert_eq!(s.len(), 0);
}

#[test]
fn coord_space_dense_insert_and_get() {
    let mut s = CoordSpace2::<u32>::new();
    let p = CoordPath::new([c(0), c(1)]);
    assert_eq!(s.place_path(&p, 42), None);
    assert_eq!(s.at_path(&p), Some(&42));
    assert_eq!(s.len(), 1);
}

#[test]
fn coord_space_dense_insert_overwrite() {
    let mut s = CoordSpace2::<u32>::new();
    let p = CoordPath::new([c(0), c(0)]);
    s.place_path(&p, 1);
    assert_eq!(s.place_path(&p, 2), Some(1));
    assert_eq!(s.at_path(&p), Some(&2));
    assert_eq!(s.len(), 1);
}

#[test]
fn coord_space_dense_vacate() {
    let mut s = CoordSpace2::<u32>::new();
    let p = CoordPath::new([c(5), c(5)]);
    s.place_path(&p, 99);
    assert_eq!(s.vacate_path(&p), Some(99));
    assert!(s.is_empty());
}

#[test]
fn coord_space_dense_clear() {
    let mut s = CoordSpace2::<u32>::new();
    s.place_path(&CoordPath::new([c(0), c(0)]), 1);
    s.place_path(&CoordPath::new([c(1), c(2)]), 2);
    assert_eq!(s.len(), 2);
    s.clear();
    assert!(s.is_empty());
    assert_eq!(s.at_path(&CoordPath::new([c(0), c(0)])), None);
}

#[test]
fn coord_space_dense_from_iterator() {
    let paths: Vec<_> = (0u16..10)
        .map(|i| (CoordPath::new([c(i), c(i + 1)]), i as u32))
        .collect();
    let s: CoordSpace2<u32> = CoordSpace2::from_pairs(paths);
    assert_eq!(s.len(), 10);
}

#[test]
fn coord_space_dense_third_slot_nonzero_stays_none() {
    let s = CoordSpace2::<u32>::new();
    let p = CoordPath::new([c(9999), c(8888)]);
    assert_eq!(s.at_path(&p), None);
}

#[test]
fn linear_index_correct() {
    let p = CoordPath::new([c(42), c(77)]);
    let idx = linear_index::<2>(&p);
    assert_eq!(idx, 42usize * 11172 + 77);
}

#[test]
fn linear_index_zero() {
    let p = CoordPath::new([c(0), c(0)]);
    assert_eq!(linear_index::<2>(&p), 0);
}

#[test]
fn linear_index_last() {
    let p = CoordPath::new([c(11171), c(11171)]);
    assert_eq!(linear_index::<2>(&p), 11171 * 11172 + 11171);
}

#[test]
fn linear_index_one_and_three_levels() {
    assert_eq!(linear_index::<1>(&CoordPath::new([c(17)])), 17);
    assert_eq!(linear_index::<3>(&CoordPath::new([c(1), c(2), c(3)])), (11172 + 2) * 11172 + 3);
    assert_eq!(CoordSpace2::<u8>::new().capacity(), 11172 * 11172);
}

#[test]
fn coord_space_dense_clone_eq() {
    let mut a = CoordSpace2::<u32>::new();
    let p = CoordPath::new([c(0), c(0)]);
    a.place_path(&p, 42);
    let b = a.clone();
    assert!(a.eq(&b));
    assert_eq!(b.at_path(&p), Some(&42));
}
