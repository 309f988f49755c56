//! Strategies that turn string keys into coordinate sequences, and
//! `CoordKey<N>`, a fixed-length byte key with an injective path.
use vstd::prelude::*;
use crate::coord::{Coord, coord_at, lemma_coord_at};
use crate::coord_path::CoordPath;
use vstd::string::StringSliceAdditionalSpecFns;

verus! {

/// Why a coordinate sequence could not be produced.
#[derive(Debug, Clone, PartialEq, Eq, Structural)]
pub enum GenError {
    /// The key is empty.
    EmptyKey,
    /// The key's length differs from the one the strategy needs.
    KeyTooLong { max_len: usize, actual_len: usize },
}

/// A strategy for converting a string key into coordinates.
pub trait CoordGen {
    /// The keys (as UTF-8 bytes) on which `generate` is defined.
    spec fn accepts(&self, key: Seq<u8>) -> bool;

    /// A human-readable name of the strategy.
    fn name(&self) -> &str;

    /// Converts `key` into coordinates; `GenError::EmptyKey` for "".
    fn generate(&self, key: &str) -> Result<Vec<Coord>, GenError>
        requires
            self.accepts(key.spec_bytes());

    /// Whether distinct keys always give distinct coordinate sequences.
    fn is_injective(&self) -> bool;

    /// The number of coordinates every key gives, for fixed-depth
    /// strategies.
    fn fixed_depth(&self) -> Option<usize>;
}

/// The coordinate of each byte (offset = byte value).
pub open spec fn byte_coords(b: Seq<u8>) -> Seq<Coord> {
    b.map_values(|x: u8| coord_at(x as int))
}

/// The coordinate with offset `x` (below 11,172).
pub(crate) fn coord_of(x: u16) -> (r: Coord)
    requires
        x < 11172,
    ensures
        r == coord_at(x as int),
{
    let r = Coord::new(x).unwrap();
    proof {
        lemma_coord_at(x as int);
        crate::coord::lemma_coord_eq(r, coord_at(x as int));
    }
    r
}

/// The coordinates of the bytes of `b`.
pub(crate) fn bytes_to_coords(b: &[u8]) -> (r: Vec<Coord>)
    ensures
        r@ == byte_coords(b@),
{
    let mut out: Vec<Coord> = Vec::new();
    let mut i: usize = 0;
    while i < b.len()
        invariant
            i <= b@.len(),
            out@ == byte_coords(b@.take(i as int)),
        decreases b@.len() - i,
    {
        out.push(coord_of(b[i] as u16));
        proof {
            assert(byte_coords(b@.take(i + 1)) =~= byte_coords(b@.take(i as int)).push(coord_at(b@[i as int] as int)));
        }
        i = i + 1;
    }
    proof {
        assert(b@.take(b@.len() as int) =~= b@);
    }
    out
}

/// Byte-wise strategy: each UTF-8 byte is one coordinate (injective).
#[derive(Debug, Clone, Copy, PartialEq, Eq)]
pub struct ByteWise;

impl CoordGen for ByteWise {
    open spec fn accepts(&self, key: Seq<u8>) -> bool {
        true
    }

    fn name(&self) -> (r: &str)
        ensures
            r@ == "byte-wise"@,
    {
        "byte-wise"
    }

    fn generate(&self, key: &str) -> (r: Result<Vec<Coord>, GenError>)
        ensures
            key.spec_bytes().len() == 0 ==> r == Err::<Vec<Coord>, GenError>(GenError::EmptyKey),
            key.spec_bytes().len() > 0 ==> (r matches Ok(v) && v@ == byte_coords(key.spec_bytes())),
    {
        let bytes = key.as_bytes();
        if bytes.len() == 0 {
            return Err(GenError::EmptyKey);
        }
        Ok(bytes_to_coords(bytes))
    }

    fn is_injective(&self) -> (r: bool)
        ensures
            r,
    {
        true
    }

    fn fixed_depth(&self) -> (r: Option<usize>)
        ensures
            r is None,
    {
        None
    }
}

/// The two coordinates of a character: its code point's base-11172 digits.
pub open spec fn char_coords(c: char) -> Seq<Coord> {
    seq![coord_at((c as u32 / 11172) as int), coord_at((c as u32 % 11172) as int)]
}

/// The coordinates of a character sequence, two per character.
pub open spec fn chars_coords(s: Seq<char>) -> Seq<Coord>
    decreases s.len(),
{
    if s.len() == 0 {
        Seq::empty()
    } else {
        chars_coords(s.drop_last()) + char_coords(s.last())
    }
}

/// Char-wise strategy: each Unicode scalar value is two coordinates, the
/// base-11172 digits of its code point (injective).
#[derive(Debug, Clone, Copy, PartialEq, Eq)]
pub struct CharWise;

impl CoordGen for CharWise {
    open spec fn accepts(&self, key: Seq<u8>) -> bool {
        true
    }

    fn name(&self) -> (r: &str)
        ensures
            r@ == "char-wise"@,
    {
        "char-wise"
    }

    fn generate(&self, key: &str) -> (r: Result<Vec<Coord>, GenError>)
        ensures
            key@.len() == 0 ==> r == Err::<Vec<Coord>, GenError>(GenError::EmptyKey),
            key@.len() > 0 ==> (r matches Ok(v) && v@ == chars_coords(key@)),
    {
        let chars = crate::base11172::chars_of(key);
        if chars.len() == 0 {
            return Err(GenError::EmptyKey);
        }
        let mut coords: Vec<Coord> = Vec::new();
        let mut i: usize = 0;
        while i < chars.len()
            invariant
                i <= chars@.len(),
                coords@ == chars_coords(chars@.take(i as int)),
            decreases chars@.len() - i,
        {
            let ch: char = chars[i];
            let code: u32 = ch as u32;
            proof {
                vstd::utf8::char_is_scalar(ch);
            }
            assert(code <= 0x10FFFF);
            let c0: u16 = (code / 11172) as u16;
            let c1: u16 = (code % 11172) as u16;
            coords.push(coord_of(c0));
            coords.push(coord_of(c1));
            proof {
                assert(chars@.take(i + 1).drop_last() =~= chars@.take(i as int));
                assert(coords@ =~= chars_coords(chars@.take(i + 1)));
            }
            i = i + 1;
        }
        proof {
            assert(chars@.take(chars@.len() as int) =~= chars@);
        }
        Ok(coords)
    }

    fn is_injective(&self) -> (r: bool)
        ensures
            r,
    {
        true
    }

    fn fixed_depth(&self) -> (r: Option<usize>)
        ensures
            r is None,
    {
        None
    }
}

/// The first `n` bytes of `b` as coordinates, zero-padded when `b` is
/// shorter.
pub open spec fn prefix_coords(b: Seq<u8>, n: int) -> Seq<Coord> {
    Seq::new(n as nat, |i: int| coord_at(if i < b.len() { b[i] as int } else { 0 }))
}

/// Static prefix strategy: the first `N` bytes, one coordinate each,
/// zero-padded (lossy: keys with the same first `N` bytes collide).
#[derive(Debug, Clone, Copy, PartialEq, Eq)]
pub struct Prefix<const N: usize>;

impl<const N: usize> CoordGen for Prefix<N> {
    open spec fn accepts(&self, key: Seq<u8>) -> bool {
        true
    }

    fn name(&self) -> (r: &str)
        ensures
            r@ == "prefix"@,
    {
        "prefix"
    }

    fn generate(&self, key: &str) -> (r: Result<Vec<Coord>, GenError>)
        ensures
            key.spec_bytes().len() == 0 ==> r == Err::<Vec<Coord>, GenError>(GenError::EmptyKey),
            key.spec_bytes().len() > 0 ==> (r matches Ok(v) && v@ == prefix_coords(key.spec_bytes(), N as int)),
    {
        let bytes = key.as_bytes();
        if bytes.len() == 0 {
            return Err(GenError::EmptyKey);
        }
        let mut out: Vec<Coord> = Vec::new();
        let mut i: usize = 0;
        while i < N
            invariant
                i <= N,
                out@ == prefix_coords(bytes@, i as int),
            decreases N - i,
        {
            let b: u8 = if i < bytes.len() { bytes[i] } else { 0 };
            out.push(coord_of(b as u16));
            proof {
                assert(out@ =~= prefix_coords(bytes@, i + 1));
            }
            i = i + 1;
        }
        Ok(out)
    }

    fn is_injective(&self) -> (r: bool)
        ensures
            !r,
    {
        false
    }

    fn fixed_depth(&self) -> (r: Option<usize>)
        ensures
            r == Some(N),
    {
        Some(N)
    }
}

/// The `N` accumulators after folding the first `k` bytes of `b`: byte `i`
/// is xor-ed into accumulator `i % n`.
pub open spec fn fold_acc(b: Seq<u8>, k: int, n: int) -> Seq<u16>
    decreases k,
{
    if k <= 0 {
        Seq::new(n as nat, |j: int| 0u16)
    } else {
        let prev = fold_acc(b, k - 1, n);
        prev.update((k - 1) % n, prev[(k - 1) % n] ^ (b[k - 1] as u16))
    }
}

/// The coordinates of the byte fold of `b` into `n` accumulators, each
/// accumulator modulo 11,172.
pub open spec fn fold_coords(b: Seq<u8>, n: int) -> Seq<Coord> {
    fold_acc(b, b.len() as int, n).map_values(|v: u16| coord_at((v % 11172) as int))
}

/// `fold_acc` keeps `n` accumulators.
proof fn lemma_fold_len(b: Seq<u8>, k: int, n: int)
    requires
        n > 0,
    ensures
        fold_acc(b, k, n).len() == n,
    decreases k,
{
    if k > 0 {
        lemma_fold_len(b, k - 1, n);
    }
}

/// Static byte-fold strategy: the bytes are xor-folded into `N`
/// accumulators (byte `i` into accumulator `i % N`), each taken modulo
/// 11,172 (lossy).
#[derive(Debug, Clone, Copy, PartialEq, Eq)]
pub struct ByteFold<const N: usize>;

impl<const N: usize> CoordGen for ByteFold<N> {
    open spec fn accepts(&self, key: Seq<u8>) -> bool {
        N > 0 || key.len() == 0
    }

    fn name(&self) -> (r: &str)
        ensures
            r@ == "byte-fold"@,
    {
        "byte-fold"
    }

    fn generate(&self, key: &str) -> (r: Result<Vec<Coord>, GenError>)
        ensures
            key.spec_bytes().len() == 0 ==> r == Err::<Vec<Coord>, GenError>(GenError::EmptyKey),
            key.spec_bytes().len() > 0 ==> (r matches Ok(v) && v@ == fold_coords(key.spec_bytes(), N as int)),
    {
        let bytes = key.as_bytes();
        if bytes.len() == 0 {
            return Err(GenError::EmptyKey);
        }
        let mut acc: Vec<u16> = Vec::new();
        let mut j: usize = 0;
        while j < N
            invariant
                j <= N,
                acc@ == Seq::new(j as nat, |x: int| 0u16),
            decreases N - j,
        {
            acc.push(0);
            proof {
                assert(acc@ =~= Seq::new((j + 1) as nat, |x: int| 0u16));
            }
            j = j + 1;
        }
        proof {
            assert(acc@ =~= fold_acc(bytes@, 0, N as int));
        }
        let mut i: usize = 0;
        while i < bytes.len()
            invariant
                N > 0,
                i <= bytes@.len(),
                acc@ == fold_acc(bytes@, i as int, N as int),
            decreases bytes@.len() - i,
        {
            proof {
                lemma_fold_len(bytes@, i as int, N as int);
            }
            let j = i % N;
            let x: u16 = acc[j] ^ (bytes[i] as u16);
            acc.set(j, x);
            i = i + 1;
        }
        let mut out: Vec<Coord> = Vec::new();
        let mut k: usize = 0;
        proof {
            lemma_fold_len(bytes@, bytes@.len() as int, N as int);
        }
        while k < acc.len()
            invariant
                k <= acc@.len(),
                acc@ == fold_acc(bytes@, bytes@.len() as int, N as int),
                out@ == acc@.take(k as int).map_values(|v: u16| coord_at((v % 11172) as int)),
            decreases acc@.len() - k,
        {
            out.push(coord_of(acc[k] % 11172));
            proof {
                assert(acc@.take(k + 1).map_values(|v: u16| coord_at((v % 11172) as int)) =~= out@);
            }
            k = k + 1;
        }
        proof {
            assert(acc@.take(acc@.len() as int) =~= acc@);
        }
        Ok(out)
    }

    fn is_injective(&self) -> (r: bool)
        ensures
            !r,
    {
        false
    }

    fn fixed_depth(&self) -> (r: Option<usize>)
        ensures
            r == Some(N),
    {
        Some(N)
    }
}

/// The default dynamic strategy.
pub type DefaultDynamic = ByteWise;

} // verus!

verus! {

/// A key of exactly `N` bytes; its path has one coordinate per byte, so
/// distinct keys have distinct paths.
#[derive(Debug, Clone, Copy, PartialEq, Eq, Hash)]
pub struct CoordKey<const N: usize>(pub [u8; N]);

impl<const N: usize> View for CoordKey<N> {
    type V = Seq<u8>;

    open spec fn view(&self) -> Seq<u8> {
        self.0@
    }
}

impl<const N: usize> CoordKey<N> {
    /// The key with these bytes.
    pub fn new(bytes: [u8; N]) -> (r: Self)
        ensures
            r@ == bytes@,
    {
        CoordKey(bytes)
    }

    /// The key's bytes.
    pub fn as_bytes(&self) -> (r: &[u8; N])
        ensures
            r@ == self@,
    {
        &self.0
    }

    /// The path of the key: one coordinate per byte (offset = byte value).
    pub fn to_coord_path(&self) -> (r: CoordPath<N>)
        ensures
            r@ == byte_coords(self@),
    {
        let zero = coord_of(0);
        let mut coords: [Coord; N] = [zero; N];
        let mut i: usize = 0;
        while i < N
            invariant
                i <= N,
                coords@.len() == N,
                self@.len() == N,
                forall|j: int| 0 <= j < i ==> #[trigger] coords@[j] == coord_at(self@[j] as int),
            decreases N - i,
        {
            coords[i] = coord_of(self.0[i] as u16);
            i = i + 1;
        }
        let r = CoordPath::new(coords);
        assert(r@ =~= byte_coords(self@));
        r
    }

    /// The number of bytes (always `N`).
    pub fn len(&self) -> (r: usize)
        ensures
            r == N,
    {
        N
    }

    /// `true` only when `N == 0`.
    pub fn is_empty(&self) -> (r: bool)
        ensures
            r == (N == 0),
    {
        N == 0
    }

    /// The key whose bytes are those of `s`, which must have exactly `N`
    /// bytes.
    pub fn from_str_const(s: &str) -> (r: Self)
        requires
            s.spec_bytes().len() == N,
        ensures
            r@ == s.spec_bytes(),
    {
        let bytes = s.as_bytes();
        let mut out: [u8; N] = [0u8; N];
        let mut i: usize = 0;
        while i < N
            invariant
                i <= N,
                out@.len() == N,
                bytes@.len() == N,
                forall|j: int| 0 <= j < i ==> #[trigger] out@[j] == bytes@[j],
            decreases N - i,
        {
            out[i] = bytes[i];
            i = i + 1;
        }
        assert(out@ =~= bytes@);
        CoordKey(out)
    }

    /// The key with the bytes of `s`; `KeyTooLong` when `s` does not have
    /// exactly `N` bytes.
    pub fn parse_key(s: &str) -> (r: Result<Self, GenError>)
        ensures
            s.spec_bytes().len() == N ==> (r matches Ok(k) && k@ == s.spec_bytes()),
            s.spec_bytes().len() != N ==> r == Err::<Self, GenError>(
                GenError::KeyTooLong { max_len: N, actual_len: s.spec_bytes().len() as usize },
            ),
    {
        let len = s.as_bytes().len();
        if len != N {
            return Err(GenError::KeyTooLong { max_len: N, actual_len: len });
        }
        Ok(CoordKey::from_str_const(s))
    }
}

impl<const N: usize> core::str::FromStr for CoordKey<N> {
    type Err = GenError;

    fn from_str(s: &str) -> Result<Self, GenError> {
        CoordKey::parse_key(s)
    }
}

impl<const N: usize> From<[u8; N]> for CoordKey<N> {
    fn from(bytes: [u8; N]) -> (r: Self) {
        CoordKey(bytes)
    }
}

impl<const N: usize> vstd::std_specs::convert::FromSpecImpl<[u8; N]> for CoordKey<N> {
    open spec fn obeys_from_spec() -> bool {
        true
    }

    open spec fn from_spec(bytes: [u8; N]) -> CoordKey<N> {
        CoordKey(bytes)
    }
}

impl<const N: usize> From<CoordKey<N>> for [u8; N] {
    fn from(key: CoordKey<N>) -> (r: [u8; N]) {
        key.0
    }
}

impl<const N: usize> vstd::std_specs::convert::FromSpecImpl<CoordKey<N>> for [u8; N] {
    open spec fn obeys_from_spec() -> bool {
        true
    }

    open spec fn from_spec(key: CoordKey<N>) -> [u8; N] {
        key.0
    }
}

/// The byte-wise coordinates of a string; `None` for the empty string.
pub fn string_to_coord_path(s: &str) -> (r: Option<Vec<Coord>>)
    ensures
        s.spec_bytes().len() == 0 ==> r is None,
        s.spec_bytes().len() > 0 ==> (r matches Some(v) && v@ == byte_coords(s.spec_bytes())),
{
    match ByteWise.generate(s) {
        Ok(v) => Some(v),
        Err(_) => None,
    }
}

} // verus!

verus! {

/// Every coordinate of `p` is a byte value.
pub open spec fn is_byte_path(p: Seq<Coord>) -> bool {
    forall|i: int| 0 <= i < p.len() ==> (#[trigger] p[i]).idx() < 256
}

/// The bytes whose coordinates are `p`.
pub open spec fn path_bytes(p: Seq<Coord>) -> Seq<u8> {
    p.map_values(|c: Coord| c.idx() as u8)
}

/// Byte coordinates determine the bytes.
pub proof fn lemma_byte_coords_inj(a: Seq<u8>, b: Seq<u8>)
    ensures
        (byte_coords(a) == byte_coords(b)) <==> (a == b),
{
    if byte_coords(a) == byte_coords(b) {
        assert(a.len() == byte_coords(a).len());
        assert(b.len() == byte_coords(b).len());
        assert forall|i: int| 0 <= i < a.len() implies a[i] == b[i] by {
            assert(byte_coords(a)[i] == coord_at(a[i] as int));
            assert(byte_coords(b)[i] == coord_at(b[i] as int));
            lemma_coord_at(a[i] as int);
            lemma_coord_at(b[i] as int);
            assert(byte_coords(a)[i] == byte_coords(b)[i]);
        }
        assert(a =~= b);
    }
}

/// A path of byte coordinates is the byte coordinates of its bytes.
pub proof fn lemma_byte_path(p: Seq<Coord>)
    requires
        is_byte_path(p),
    ensures
        byte_coords(path_bytes(p)) == p,
        path_bytes(p).len() == p.len(),
{
    assert forall|i: int| 0 <= i < p.len() implies #[trigger] byte_coords(path_bytes(p))[i] == p[i] by {
        lemma_coord_at(p[i].idx());
        crate::coord::lemma_coord_eq(coord_at(p[i].idx()), p[i]);
    }
    assert(byte_coords(path_bytes(p)) =~= p);
}

/// The byte coordinates of any bytes form a byte path.
pub proof fn lemma_byte_coords_is_byte_path(b: Seq<u8>)
    ensures
        is_byte_path(byte_coords(b)),
        byte_coords(b).len() == b.len(),
{
    assert forall|i: int| 0 <= i < byte_coords(b).len() implies (#[trigger] byte_coords(b)[i]).idx() < 256 by {
        lemma_coord_at(b[i] as int);
    }
}

} // verus!
