use tagma::coord::Coord;
use tagma::coord_gen::{ByteWise, CharWise, CoordGen};
use tagma::coord_path::CoordPath;
use tagma::coord_space_dense::linear_index;
use tagma::key::CoordKey;

fn p3(a: u16, b: u16, c: u16) -> CoordPath<3> {
    CoordPath::new([
        Coord::new(a).unwrap(),
        Coord::new(b).unwrap(),
        Coord::new(c).unwrap(),
    ])
}

#[test]
fn law_compose_decompose_all_axes() {
    for i in 0u8..19 {
        for m in 0u8..21 {
            for f in 0u8..28 {
                let c = Coord::from_axes(i, m, f).unwrap();
                assert_eq!(c.to_axes(), (i, m, f));
            }
        }
    }
}

#[test]
fn law_linear_index_distinct_paths() {
    assert_eq!(linear_index(&p3(0, 0, 1)), 1);
    assert_eq!(linear_index(&p3(0, 1, 0)), 11172);
    assert_eq!(linear_index(&p3(1, 0, 0)), 11172 * 11172);
    assert_eq!(linear_index(&p3(11171, 11171, 11171)), 11172 * 11172 * 11172 - 1);
    assert_ne!(linear_index(&p3(0, 1, 0)), linear_index(&p3(0, 0, 11171)));
}

#[test]
fn law_byte_path_distinct_keys() {
    let a = ByteWise.generate("ab").unwrap();
    let b = ByteWise.generate("ba").unwrap();
    let c = ByteWise.generate("abc").unwrap();
    assert_ne!(a, b);
    assert_ne!(a, c);
}

#[test]
fn law_char_path_distinct_keys() {
    let a = CharWise.generate("\u{ac00}").unwrap();
    let b = CharWise.generate("\u{ac01}").unwrap();
    assert_ne!(a, b);
}

#[test]
fn law_u128_distinct_keys_distinct_paths() {
    let a: CoordPath<6> = 0x0001_0002_0003_0004_0005_0006u128.to_path();
    let b: CoordPath<6> = 0x0001_0002_0003_0004_0005_0007u128.to_path();
    assert_ne!(a, b);
}

#[test]
fn u128_path_tells_apart_keys_that_differ_by_11172() {
    let a: CoordPath<6> = 0u128.to_path();
    let b: CoordPath<6> = 11172u128.to_path();
    assert_ne!(a, b);
    let idx: Vec<u16> = b.iter().map(|c| c.index()).collect();
    assert_eq!(idx, vec![0, 0, 0, 0, 1, 0]);
}

#[test]
fn u128_path_wraps_at_11172_to_the_sixth() {
    let space: u128 = 1944399775118767554760704;
    let a: CoordPath<6> = 5u128.to_path();
    let b: CoordPath<6> = (space + 5).to_path();
    assert_eq!(a, b);
    let top: CoordPath<6> = (space - 1).to_path();
    let idx: Vec<u16> = top.iter().map(|c| c.index()).collect();
    assert_eq!(idx, vec![11171; 6]);
}

#[test]
fn law_digest_small_words_distinct_paths() {
    let a = [0u8; 32];
    let mut b = [0u8; 32];
    b[31] = 1;
    let pa: CoordPath<19> = a.to_path();
    let pb: CoordPath<19> = b.to_path();
    assert_ne!(pa, pb);
}

#[test]
fn law_self_validation_rejects_foreign_characters() {
    assert_eq!(tagma::base11172::decode_bytes("A\u{ac00}"), None);
    assert_eq!(tagma::base11172_raw::decode_bytes("\u{ac00}\u{d7a4}"), None);
    assert_eq!(tagma::base11172_raw::decode_bytes("\u{1ac00}\u{ac00}"), None);
}

#[test]
fn decoder_rejects_supplementary_characters_with_syllable_low_bits() {
    assert_eq!(tagma::base11172::decode_bytes("\u{1ac00}\u{ac00}"), None);
    assert_eq!(tagma::coord::Coord::from_char('\u{1ac00}'), None);
}

#[test]
fn law_dyn_deeper_insert_keeps_shallow_value() {
    let mut m = tagma::dyn_coord::DynCoordMap::new();
    let a = [Coord::new(1).unwrap()];
    let b = [Coord::new(1).unwrap(), Coord::new(2).unwrap()];
    m.insert(&a, 10);
    m.insert(&b, 20);
    assert_eq!(m.get(&a), Some(&10));
    assert_eq!(m.get(&b), Some(&20));
}

#[test]
fn linear_index_wraps_beyond_four_syllables() {
    let digits = [1184u16, 1349, 7976, 7330, 4216];
    let wide = CoordPath::<5>::new(digits.map(|d| Coord::new(d).unwrap()));
    let zero = CoordPath::<5>::new([Coord::new(0).unwrap(); 5]);
    if usize::BITS == 64 {
        assert_eq!(linear_index(&wide), linear_index(&zero));
    }
}

#[test]
fn digest_path_reduces_words_modulo_11172() {
    let a = [0u8; 32];
    let mut b = [0u8; 32];
    b[0] = 0x2B;
    b[1] = 0xA4;
    let pa: CoordPath<19> = a.to_path();
    let pb: CoordPath<19> = b.to_path();
    assert_eq!(pa, pb);
}
