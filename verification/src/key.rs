//! `CoordKey<N>`: conversion of application keys into direct-address paths.
//!
//! Direct keys are written as coordinates: a `u128` (or UUID bytes) by its
//! base-11,172 digits, SHA-256 bytes by 16-bit words, each reduced modulo
//! 11,172; derived keys (strings, byte slices) go through a fast
//! non-cryptographic hash first.
use vstd::prelude::*;
use crate::coord::{Coord, coord_at, lemma_coord_at};
use crate::coord_path::CoordPath;
use vstd::wrapping::u64_specs::{wrapping_add, wrapping_mul};
use vstd::string::StringSliceAdditionalSpecFns;

verus! {

/// Conversion from an application key to a `CoordPath<N>`.
pub trait CoordKey<const N: usize> {
    /// The path of this key.
    spec fn key_path(&self) -> Seq<Coord>;

    /// The path of this key.
    fn to_path(&self) -> (r: CoordPath<N>)
        ensures
            r@ == self.key_path();
}

/// The path of one coordinate.
fn path1(c: Coord) -> (r: CoordPath<1>)
    ensures
        r@ == seq![c],
{
    let r = CoordPath::new([c]);
    assert(r@ =~= seq![c]);
    r
}

impl CoordKey<1> for Coord {
    open spec fn key_path(&self) -> Seq<Coord> {
        seq![*self]
    }

    fn to_path(&self) -> (r: CoordPath<1>) {
        path1(*self)
    }
}

impl CoordKey<1> for &Coord {
    open spec fn key_path(&self) -> Seq<Coord> {
        seq![**self]
    }

    fn to_path(&self) -> (r: CoordPath<1>) {
        path1(**self)
    }
}

/// The coordinate of a 16-bit word: the word modulo 11,172.
pub open spec fn word_coord(w: int) -> Coord {
    coord_at(w % 11172)
}

/// The coordinate of a 16-bit word.
fn coord_of_word(w: u16) -> (r: Coord)
    ensures
        r == word_coord(w as int),
{
    let r = Coord::new(w % 11172).unwrap();
    proof {
        lemma_coord_at(w as int % 11172);
        crate::coord::lemma_coord_eq(r, word_coord(w as int));
    }
    r
}

/// `x` divided `k` times by 11,172.
pub open spec fn quot11172(x: int, k: nat) -> int
    decreases k,
{
    if k == 0 {
        x
    } else {
        quot11172(x, (k - 1) as nat) / 11172
    }
}

/// The path of a 128-bit key: its six lowest base-11,172 digits, the most
/// significant first. Keys below `11172^6` (more than 2^80) have distinct
/// paths.
pub open spec fn u128_path(x: int) -> Seq<Coord> {
    Seq::new(6, |i: int| coord_at(quot11172(x, (5 - i) as nat) % 11172))
}

impl CoordKey<6> for u128 {
    open spec fn key_path(&self) -> Seq<Coord> {
        u128_path(*self as int)
    }

    fn to_path(&self) -> (r: CoordPath<6>) {
        u128_to_path(*self)
    }
}

/// The coordinate of a base-11,172 digit.
fn coord_of_digit(d: u128) -> (r: Coord)
    requires
        d < 11172,
    ensures
        r == coord_at(d as int),
{
    let r = Coord::new(d as u16).unwrap();
    proof {
        lemma_coord_at(d as int);
        crate::coord::lemma_coord_eq(r, coord_at(d as int));
    }
    r
}

/// The path of a 128-bit key.
fn u128_to_path(x: u128) -> (r: CoordPath<6>)
    ensures
        r@ == u128_path(x as int),
{
    let q1 = x / 11172;
    let q2 = q1 / 11172;
    let q3 = q2 / 11172;
    let q4 = q3 / 11172;
    let q5 = q4 / 11172;
    let r = CoordPath::new([
        coord_of_digit(q5 % 11172),
        coord_of_digit(q4 % 11172),
        coord_of_digit(q3 % 11172),
        coord_of_digit(q2 % 11172),
        coord_of_digit(q1 % 11172),
        coord_of_digit(x % 11172),
    ]);
    proof {
        reveal_with_fuel(quot11172, 6);
        assert(r@ =~= u128_path(x as int));
    }
    r
}

/// The big-endian value of a byte sequence.
pub open spec fn be_value(b: Seq<u8>) -> int
    decreases b.len(),
{
    if b.len() == 0 {
        0
    } else {
        be_value(b.drop_last()) * 256 + b.last()
    }
}

/// `be_value` of a prefix is below `256^len`.
proof fn lemma_be_bound(b: Seq<u8>, k: int)
    requires
        0 <= k <= b.len(),
    ensures
        0 <= be_value(b.take(k)),
        be_value(b.take(k)) < pow256(k),
    decreases k,
{
    if k > 0 {
        lemma_be_bound(b, k - 1);
        assert(b.take(k).drop_last() =~= b.take(k - 1));
    }
}

/// `256^k`.
pub open spec fn pow256(k: int) -> int
    decreases k,
{
    if k <= 0 {
        1
    } else {
        256 * pow256(k - 1)
    }
}

/// `256^k` grows with `k`.
proof fn lemma_pow256_mono(i: int, j: int)
    requires
        0 <= i <= j,
    ensures
        pow256(i) <= pow256(j),
        pow256(i) >= 1,
    decreases j,
{
    if j > i {
        lemma_pow256_mono(i, j - 1);
    } else if i > 0 {
        lemma_pow256_mono(0, i - 1);
    }
}

impl CoordKey<6> for [u8; 16] {
    open spec fn key_path(&self) -> Seq<Coord> {
        u128_path(be_value(self@))
    }

    fn to_path(&self) -> (r: CoordPath<6>) {
        let mut v: u128 = 0;
        let mut i: usize = 0;
        while i < 16
            invariant
                i <= 16,
                self@.len() == 16,
                v == be_value(self@.take(i as int)),
            decreases 16 - i,
        {
            proof {
                lemma_be_bound(self@, i as int);
                lemma_pow256_mono(i as int, 15);
                assert(pow256(15) == 0x1_00_0000_0000_0000_0000_0000_0000_0000) by {
                    reveal_with_fuel(pow256, 16);
                }
                assert(self@.take(i + 1).drop_last() =~= self@.take(i as int));
                assert(v * 256 + 255 < 0x1_0000_0000_0000_0000_0000_0000_0000_0000) by (nonlinear_arith)
                    requires
                        v < pow256(i as int),
                        i < 16,
                        pow256(i as int) <= pow256(15),
                        pow256(15) == 0x1_00_0000_0000_0000_0000_0000_0000_0000,
                ;
            }
            v = v * 256 + (self[i] as u128);
            i = i + 1;
        }
        proof {
            assert(self@.take(16) =~= self@);
        }
        u128_to_path(v)
    }
}


/// The path of 32 bytes (a SHA-256 digest): its sixteen big-endian 16-bit
/// words, each modulo 11,172, then three zero coordinates.
pub open spec fn digest_path(b: Seq<u8>) -> Seq<Coord> {
    Seq::new(
        19,
        |i: int|
            if i < 16 {
                word_coord(b[2 * i] * 256 + b[2 * i + 1])
            } else {
                coord_at(0)
            },
    )
}

impl CoordKey<19> for [u8; 32] {
    open spec fn key_path(&self) -> Seq<Coord> {
        digest_path(self@)
    }

    fn to_path(&self) -> (r: CoordPath<19>) {
        let zero = Coord::new(0).unwrap();
        proof {
            lemma_coord_at(0);
            crate::coord::lemma_coord_eq(zero, coord_at(0));
        }
        let mut path = [zero; 19];
        let mut i: usize = 0;
        while i < 16
            invariant
                i <= 16,
                self@.len() == 32,
                path@.len() == 19,
                forall|j: int| 0 <= j < i ==> #[trigger] path@[j] == digest_path(self@)[j],
                forall|j: int| 16 <= j < 19 ==> #[trigger] path@[j] == coord_at(0),
            decreases 16 - i,
        {
            let word: u16 = (self[i * 2] as u16) * 256 + (self[i * 2 + 1] as u16);
            path[i] = coord_of_word(word);
            i = i + 1;
        }
        let r = CoordPath::new(path);
        assert(r@ =~= digest_path(self@));
        r
    }
}

/// Starting state of the key hash.
pub const HASH_SEED: u64 = 0x2f7b_8a6e_3c5d_1f49;

/// Multiplier applied after each 8-byte word.
pub const HASH_MUL: u64 = 0x9e37_79b9_7f4a_7c15;

/// Multiplier of the final mixing step.
pub const HASH_FINAL_MUL: u64 = 0xff51_afd7_ed55_8ccd;

/// The little-endian word of the first `n` bytes of `c` (byte `i` shifted
/// left by `8 i` bits and or-ed in).
pub open spec fn le_word(c: Seq<u8>, n: int) -> u64
    decreases n,
{
    if n <= 0 {
        0
    } else {
        le_word(c, n - 1) | ((c[n - 1] as u64) << ((8 * (n - 1)) as u64))
    }
}

/// One step of the hash: add the word, multiply, fold the high bits down.
pub open spec fn mix(h: u64, word: u64) -> u64 {
    let a = wrapping_add(h, word);
    let b = wrapping_mul(a, HASH_MUL);
    b ^ (b >> 31u64)
}

/// The hash state after the 8-byte chunks of `bytes` from position `k` on
/// (the last chunk may be shorter).
pub open spec fn hash_from(bytes: Seq<u8>, k: int, h: u64) -> u64
    decreases bytes.len() - k,
{
    if k < 0 || k >= bytes.len() {
        h
    } else {
        let n = if bytes.len() - k < 8 { bytes.len() - k } else { 8 };
        hash_from(bytes, k + n, mix(h, le_word(bytes.subrange(k, k + n), n)))
    }
}

/// The fast non-cryptographic hash of `bytes`.
pub open spec fn fast_hash_spec(bytes: Seq<u8>) -> u64 {
    let h = hash_from(bytes, 0, HASH_SEED);
    let g = h ^ (h >> 33u64);
    wrapping_mul(g, HASH_FINAL_MUL)
}

/// A fast, deterministic, non-cryptographic hash (wyhash style) of bytes.
pub fn fast_hash(bytes: &[u8]) -> (r: u64)
    ensures
        r == fast_hash_spec(bytes@),
{
    let mut h: u64 = HASH_SEED;
    let mut k: usize = 0;
    while k < bytes.len()
        invariant
            k <= bytes@.len(),
            hash_from(bytes@, 0, HASH_SEED) == hash_from(bytes@, k as int, h),
        decreases bytes@.len() - k,
    {
        let n: usize = if bytes.len() - k < 8 { bytes.len() - k } else { 8 };
        let end: usize = k + n;
        let ghost chunk = bytes@.subrange(k as int, k + n);
        let mut word: u64 = 0;
        let mut i: usize = 0;
        while i < n
            invariant
                i <= n <= 8,
                end == k + n,
                end <= bytes@.len(),
                chunk == bytes@.subrange(k as int, k + n),
                word == le_word(chunk, i as int),
            decreases n - i,
        {
            let b: u8 = bytes[k + i];
            proof {
                assert(chunk[i as int] == b);
            }
            word = word | ((b as u64) << ((i * 8) as u64));
            i = i + 1;
        }
        h = h.wrapping_add(word);
        h = h.wrapping_mul(HASH_MUL);
        h = h ^ (h >> 31u64);
        k = end;
    }
    h = h ^ (h >> 33u64);
    h.wrapping_mul(HASH_FINAL_MUL)
}

/// The single-coordinate path of a hash: the hash modulo 11,172.
pub open spec fn hash_path1(h: u64) -> Seq<Coord> {
    seq![coord_at((h % 11172) as int)]
}

/// The six-coordinate path of a hash: its four 16-bit quarters (high first)
/// reduced modulo 11,172, then two zero coordinates.
pub open spec fn hash_path6(h: u64) -> Seq<Coord> {
    seq![
        coord_at(((h >> 48u64) % 11172) as int),
        coord_at(((h >> 32u64) % 11172) as int),
        coord_at(((h >> 16u64) % 11172) as int),
        coord_at((h % 11172) as int),
        coord_at(0),
        coord_at(0),
    ]
}

/// The coordinate of a value reduced modulo 11,172.
fn coord_mod(x: u64) -> (r: Coord)
    ensures
        r == coord_at((x % 11172) as int),
{
    let r = Coord::new((x % 11172) as u16).unwrap();
    proof {
        lemma_coord_at((x % 11172) as int);
        crate::coord::lemma_coord_eq(r, coord_at((x % 11172) as int));
    }
    r
}

/// The single-coordinate path of hashed bytes.
fn hashed_path1(bytes: &[u8]) -> (r: CoordPath<1>)
    ensures
        r@ == hash_path1(fast_hash_spec(bytes@)),
{
    let h = fast_hash(bytes);
    path1(coord_mod(h))
}

/// The six-coordinate path of hashed bytes.
fn hashed_path6(bytes: &[u8]) -> (r: CoordPath<6>)
    ensures
        r@ == hash_path6(fast_hash_spec(bytes@)),
{
    let h = fast_hash(bytes);
    let r = CoordPath::new([
        coord_mod(h >> 48u64),
        coord_mod(h >> 32u64),
        coord_mod(h >> 16u64),
        coord_mod(h),
        coord_mod(0),
        coord_mod(0),
    ]);
    assert(r@ =~= hash_path6(fast_hash_spec(bytes@)));
    r
}

impl CoordKey<1> for &str {
    open spec fn key_path(&self) -> Seq<Coord> {
        hash_path1(fast_hash_spec((**self).spec_bytes()))
    }

    fn to_path(&self) -> (r: CoordPath<1>) {
        hashed_path1(self.as_bytes())
    }
}

impl CoordKey<6> for &str {
    open spec fn key_path(&self) -> Seq<Coord> {
        hash_path6(fast_hash_spec((**self).spec_bytes()))
    }

    fn to_path(&self) -> (r: CoordPath<6>) {
        hashed_path6(self.as_bytes())
    }
}

impl CoordKey<1> for String {
    open spec fn key_path(&self) -> Seq<Coord> {
        hash_path1(fast_hash_spec(vstd::utf8::encode_utf8(self@)))
    }

    fn to_path(&self) -> (r: CoordPath<1>) {
        hashed_path1(self.as_str().as_bytes())
    }
}

impl CoordKey<6> for String {
    open spec fn key_path(&self) -> Seq<Coord> {
        hash_path6(fast_hash_spec(vstd::utf8::encode_utf8(self@)))
    }

    fn to_path(&self) -> (r: CoordPath<6>) {
        hashed_path6(self.as_str().as_bytes())
    }
}

impl CoordKey<1> for &[u8] {
    open spec fn key_path(&self) -> Seq<Coord> {
        hash_path1(fast_hash_spec(self@))
    }

    fn to_path(&self) -> (r: CoordPath<1>) {
        hashed_path1(*self)
    }
}

impl<const L: usize> CoordKey<1> for [u8; L] {
    open spec fn key_path(&self) -> Seq<Coord> {
        hash_path1(fast_hash_spec(self@))
    }

    fn to_path(&self) -> (r: CoordPath<1>) {
        hashed_path1(self.as_slice())
    }
}

} // verus!
