use tagma::coord::Coord;
use tagma::coord_cube::CoordCube;
use tagma::coord_path::CoordPath;
use tagma::spatial::{dimension_max_value, dimension_value, BoundingBoxIter, DistanceMetrics, HammingFilter, SpatialOps};

fn collect<const N: usize>(mut it: BoundingBoxIter<N>) -> Vec<CoordPath<N>> {
    let mut out = Vec::new();
    while let Some(p) = it.next() {
        out.push(p);
    }
    out
}

fn collect_hamming<const N: usize>(mut it: HammingFilter<N>) -> Vec<CoordPath<N>> {
    let mut out = Vec::new();
    while let Some(p) = it.next() {
        out.push(p);
    }
    out
}

#[test]
fn bb_iter_single_syllable() {
    let iter = BoundingBoxIter::<1>::new([(5, 7)]);
    let paths: Vec<_> = collect(iter);
    assert_eq!(paths.len(), 3);
    assert_eq!(paths[0].coords()[0].index(), 5);
    assert_eq!(paths[2].coords()[0].index(), 7);
}

#[test]
fn bb_iter_two_syllables() {
    let iter = BoundingBoxIter::<2>::new([(1, 2), (3, 4)]);
    let paths: Vec<_> = collect(iter);
    assert_eq!(paths.len(), 4);
    assert_eq!(paths[0].coords()[0].index(), 1);
    assert_eq!(paths[0].coords()[1].index(), 3);
    assert_eq!(paths[3].coords()[0].index(), 2);
    assert_eq!(paths[3].coords()[1].index(), 4);
}

#[test]
fn bb_iter_empty_n0() {
    let iter = BoundingBoxIter::<0>::new([]);
    assert!(collect(iter).is_empty());
}

#[test]
fn cube_bounding_box_basic() {
    let path = CoordPath::<2>::new([Coord::new(5).unwrap(), Coord::new(5).unwrap()]);
    let cube = CoordCube::<2, 2, 1>::from_path(path);
    let ranges = [(3u16, 6u16), (4u16, 5u16)];
    let paths: Vec<_> = collect(cube.bounding_box(&ranges));
    assert_eq!(paths.len(), 8);
}

#[test]
fn cube_proximity_radius_zero() {
    let path = CoordPath::<2>::new([Coord::new(5).unwrap(), Coord::new(5).unwrap()]);
    let cube = CoordCube::<2, 2, 1>::from_path(path);
    let paths: Vec<_> = collect(cube.proximity(0));
    assert_eq!(paths.len(), 1);
}

#[test]
fn cube_proximity_radius_one() {
    let path = CoordPath::<2>::new([Coord::new(5).unwrap(), Coord::new(5).unwrap()]);
    let cube = CoordCube::<2, 2, 1>::from_path(path);
    let paths: Vec<_> = collect(cube.proximity(1));
    assert_eq!(paths.len(), 9);
}

#[test]
fn cube_proximity_clamp_to_bounds() {
    let path = CoordPath::<1>::new([Coord::new(1).unwrap()]);
    let cube = CoordCube::<1, 1, 1>::from_path(path);
    let paths: Vec<_> = collect(cube.proximity(3));
    assert_eq!(paths.len(), 5);
    assert_eq!(paths[0].coords()[0].index(), 0);
    assert_eq!(paths[4].coords()[0].index(), 4);
}

#[test]
fn hamming_identical() {
    let path = CoordPath::<3>::new([
        Coord::new(100).unwrap(),
        Coord::new(200).unwrap(),
        Coord::new(300).unwrap(),
    ]);
    let a = CoordCube::<3, 3, 1>::from_path(path);
    let b = CoordCube::<3, 3, 1>::from_path(path);
    assert_eq!(a.hamming_distance(&b), 0);
}

#[test]
fn hamming_all_differ() {
    let a = CoordCube::<3, 3, 1>::from_path(CoordPath::new([
        Coord::new(0).unwrap(),
        Coord::new(0).unwrap(),
        Coord::new(0).unwrap(),
    ]));
    let b = CoordCube::<3, 3, 1>::from_path(CoordPath::new([
        Coord::new(1).unwrap(),
        Coord::new(2).unwrap(),
        Coord::new(3).unwrap(),
    ]));
    assert_eq!(a.hamming_distance(&b), 3);
}

#[test]
fn hamming_axes_works() {
    let a = CoordCube::<4, 2, 2>::from_path(CoordPath::new([
        Coord::new(0).unwrap(),
        Coord::new(0).unwrap(),
        Coord::new(0).unwrap(),
        Coord::new(0).unwrap(),
    ]));
    let b = CoordCube::<4, 2, 2>::from_path(CoordPath::new([
        Coord::new(0).unwrap(),
        Coord::new(1).unwrap(),
        Coord::new(2).unwrap(),
        Coord::new(0).unwrap(),
    ]));
    let mut out = [0usize; 2];
    a.hamming_distance_axes(&b, &mut out);
    assert_eq!(out, [1, 1]);
}

#[test]
fn manhattan_identical() {
    let path = CoordPath::<2>::new([Coord::new(100).unwrap(), Coord::new(200).unwrap()]);
    let a = CoordCube::<2, 2, 1>::from_path(path);
    let b = CoordCube::<2, 2, 1>::from_path(path);
    assert_eq!(a.manhattan_distance(&b), 0);
}

#[test]
fn manhattan_different() {
    let a = CoordCube::<2, 2, 1>::from_path(CoordPath::new([
        Coord::new(5).unwrap(),
        Coord::new(10).unwrap(),
    ]));
    let b = CoordCube::<2, 2, 1>::from_path(CoordPath::new([
        Coord::new(5).unwrap(),
        Coord::new(20).unwrap(),
    ]));
    assert_eq!(a.manhattan_distance(&b), 10);
}

#[test]
fn manhattan_multi_syllable_dimension() {
    // dimension value = c0 + c1 * 11172
    let a = CoordCube::<2, 1, 2>::from_path(CoordPath::new([
        Coord::new(3).unwrap(),
        Coord::new(1).unwrap(),
    ]));
    let b = CoordCube::<2, 1, 2>::from_path(CoordPath::new([
        Coord::new(0).unwrap(),
        Coord::new(0).unwrap(),
    ]));
    assert_eq!(a.manhattan_distance(&b), 11175);
}

#[test]
fn proximity_hamming_radius_zero() {
    let path = CoordPath::<2>::new([Coord::new(5).unwrap(), Coord::new(5).unwrap()]);
    let cube = CoordCube::<2, 2, 1>::from_path(path);
    let paths: Vec<_> = collect_hamming(cube.proximity_hamming(0));
    assert_eq!(paths.len(), 1);
}

#[test]
fn proximity_hamming_radius_one() {
    let path = CoordPath::<2>::new([Coord::new(5).unwrap(), Coord::new(5).unwrap()]);
    let cube = CoordCube::<2, 2, 1>::from_path(path);
    let paths: Vec<_> = collect_hamming(cube.proximity_hamming(1));
    assert_eq!(paths.len(), 5);
}

#[test]
fn bb_count_paths() {
    let iter = BoundingBoxIter::<3>::new([(0, 1), (0, 2), (0, 3)]);
    assert_eq!(iter.count_paths(), 2 * 3 * 4);
}

#[test]
fn bb_count_paths_large() {
    let iter = BoundingBoxIter::<2>::new([(0, 11171), (0, 11171)]);
    assert_eq!(iter.count_paths(), 124_813_584);
}

#[test]
fn bb_count_matches_yield_count() {
    let iter = BoundingBoxIter::<3>::new([(2, 4), (7, 7), (0, 3)]);
    let n = iter.count_paths();
    assert_eq!(collect(iter).len(), n);
}

#[test]
fn bb_yields_in_lexicographic_order() {
    let paths = collect(BoundingBoxIter::<2>::new([(0, 2), (5, 6)]));
    let flat: Vec<(u16, u16)> = paths
        .iter()
        .map(|p| (p.coords()[0].index(), p.coords()[1].index()))
        .collect();
    assert_eq!(flat, vec![(0, 5), (0, 6), (1, 5), (1, 6), (2, 5), (2, 6)]);
}

#[test]
fn bb_is_empty_after_exhaustion() {
    let mut it = BoundingBoxIter::<1>::new([(9, 9)]);
    assert!(!it.is_empty());
    assert!(it.next().is_some());
    assert!(it.is_empty());
    assert!(it.next().is_none());
}

#[test]
fn dimension_values_and_maximum() {

    let cube = CoordCube::<2, 1, 2>::from_path(CoordPath::new([
        Coord::new(3).unwrap(),
        Coord::new(1).unwrap(),
    ]));
    assert_eq!(dimension_value(&cube, 0), 11175);
    assert_eq!(dimension_max_value(1), 11171);
    assert_eq!(dimension_max_value(2), 11172 * 11172 - 1);
    assert_eq!(dimension_max_value(0), 0);
}

#[test]
fn bb_size_hint_bounds() {
    let mut it = BoundingBoxIter::<2>::new([(0, 1), (0, 2)]);
    assert_eq!(it.size_hint(), (0, Some(6)));
    while it.next().is_some() {}
    assert_eq!(it.size_hint(), (0, Some(0)));
}
