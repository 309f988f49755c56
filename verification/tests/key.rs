use tagma::coord::Coord;
use tagma::coord_path::CoordPath;
use tagma::key::CoordKey;

#[test]
fn coord_direct_roundtrip() {
    let c = Coord::new(42).unwrap();
    let path = c.to_path();
    assert_eq!(path.coords()[0], c);
}

#[test]
fn u128_to_path_length() {
    let path: CoordPath<6> = 0x0123456789ABCDEF0123456789ABCDEFu128.to_path();
    assert_eq!(path.len(), 6);
}

#[test]
fn uuid_bytes_to_path() {
    let uuid = [0u8; 16];
    let path: CoordPath<6> = uuid.to_path();
    assert_eq!(path.len(), 6);
}

#[test]
fn str_derived_is_deterministic() {
    let a: CoordPath<1> = "hello".to_path();
    let b: CoordPath<1> = "hello".to_path();
    assert_eq!(a, b);
}

#[test]
fn str_differs_from_str() {
    let a: CoordPath<1> = "alpha".to_path();
    let b: CoordPath<1> = "beta".to_path();
    assert_ne!(a, b);
}

#[test]
fn string_wrapper_matches_str() {
    let s: String = String::from("test");
    let a: CoordPath<1> = s.to_path();
    let b: CoordPath<1> = s.as_str().to_path();
    assert_eq!(a, b);
}

#[test]
fn bytes_slice_matches_str() {
    let a: CoordPath<1> = b"hello".as_slice().to_path();
    let b: CoordPath<1> = "hello".to_path();
    assert_eq!(a, b);
}

#[test]
fn coord_key_6_different_from_1() {
    let a = "key";
    let path_1: CoordPath<1> = a.to_path();
    let path_6: CoordPath<6> = a.to_path();
    assert_eq!(path_6.len(), 6);
    assert_eq!(path_1.len(), 1);
}

#[test]
fn u128_path_is_base_11172_digits() {
    let x: u128 = 3 * 11172u128.pow(5) + 7 * 11172u128.pow(2) + 11171;
    let path: CoordPath<6> = x.to_path();
    let idx: Vec<u16> = path.iter().map(|c| c.index()).collect();
    assert_eq!(idx, vec![3, 0, 0, 7, 0, 11171]);
}

#[test]
fn uuid_bytes_match_u128_big_endian() {
    let bytes: [u8; 16] = core::array::from_fn(|i| (i as u8) * 17 + 3);
    let a: CoordPath<6> = bytes.to_path();
    let b: CoordPath<6> = u128::from_be_bytes(bytes).to_path();
    assert_eq!(a, b);
}

#[test]
fn digest_path_words_and_padding() {
    let mut d = [0u8; 32];
    d[0] = 0x12;
    d[1] = 0x34;
    d[31] = 0xFF;
    let p: CoordPath<19> = d.to_path();
    assert_eq!(p.get(0).unwrap().index(), (0x1234u32 % 11172) as u16);
    assert_eq!(p.get(15).unwrap().index(), 0xFF);
    assert_eq!(p.get(16).unwrap().index(), 0);
    assert_eq!(p.get(18).unwrap().index(), 0);
}
