//! Base-11172: bytes written as Hangul syllables, two syllables for every
//! two bytes (a little-endian `u16`); an odd final byte is written as the
//! value of that byte alone.
use vstd::prelude::*;
use crate::coord::{Coord, char_from_u32, push_char};

verus! {

/// The number of syllables used by the encoding.
pub const N_SYLLABLES: u32 = 11172;

/// The code points of a character sequence.
pub open spec fn codes(s: Seq<char>) -> Seq<u32> {
    s.map_values(|c: char| c as u32)
}

/// The two code points that encode the 16-bit value `v`: its base-11172
/// digits (high, low) offset from U+AC00.
pub open spec fn encode_pair_spec(v: int) -> Seq<u32> {
    seq![(0xAC00 + (v / 11172) % 11172) as u32, (0xAC00 + v % 11172) as u32]
}

/// The code points encoding `b`: two per two bytes (little-endian), and two
/// for a final odd byte.
pub open spec fn encode_spec(b: Seq<u8>) -> Seq<u32>
    decreases b.len(),
{
    if b.len() == 0 {
        Seq::empty()
    } else if b.len() == 1 {
        encode_pair_spec(b[0] as int)
    } else {
        encode_pair_spec(b[0] + 256 * b[1]) + encode_spec(b.skip(2))
    }
}

/// The 16-bit value whose base-11172 digits are the offsets of `x0` and `x1`
/// from U+AC00, truncated to 16 bits; `None` when either is outside
/// U+AC00..U+AC00+11172.
pub open spec fn decode_pair_spec(x0: int, x1: int) -> Option<u16> {
    if 0xAC00 <= x0 < 0xAC00 + 11172 && 0xAC00 <= x1 < 0xAC00 + 11172 {
        Some(((x0 - 0xAC00) * 11172 + (x1 - 0xAC00)) as u16)
    } else {
        None
    }
}

/// The little-endian bytes of a 16-bit value.
pub open spec fn le_bytes(v: u16) -> Seq<u8> {
    seq![(v % 256) as u8, (v / 256) as u8]
}

/// The pair decoding of either decoder (`raw`: the one that reads code
/// points directly; otherwise the one that reads syllable coordinates): both
/// decode the full code points.
pub open spec fn pair_of(raw: bool, x0: int, x1: int) -> Option<u16> {
    decode_pair_spec(x0, x1)
}

/// The bytes decoded from the code points `s` from position `i` on, pairing
/// each two code points with `pair_of(raw, ..)`; `None` for an odd count or
/// an invalid pair.
pub open spec fn decode_from(s: Seq<u32>, i: int, raw: bool) -> Option<Seq<u8>>
    decreases s.len() - i,
{
    if i >= s.len() {
        Some(Seq::empty())
    } else if i + 1 >= s.len() {
        None
    } else {
        match pair_of(raw, s[i] as int, s[i + 1] as int) {
            None => None,
            Some(v) => match decode_from(s, i + 2, raw) {
                None => None,
                Some(rest) => Some(le_bytes(v) + rest),
            },
        }
    }
}

/// The bytes a decoder gives back for the encoding of `b`: `b` itself,
/// with a zero byte added when its length is odd.
pub open spec fn padded(b: Seq<u8>) -> Seq<u8> {
    if b.len() % 2 == 1 {
        b.push(0u8)
    } else {
        b
    }
}

/// The code point of the syllable with offset `x`.
fn syllable(x: u32) -> (r: char)
    requires
        x < 11172,
    ensures
        r as u32 == 0xAC00 + x,
{
    match char_from_u32(0xAC00 + x) {
        Some(c) => c,
        None => vstd::pervasive::unreached(),
    }
}

/// Encodes a `u16` as two Hangul syllables: its base-11172 digits, high
/// first.
pub fn encode_u16(v: u16) -> (r: [char; 2])
    ensures
        codes(r@) == encode_pair_spec(v as int),
{
    let hi: u32 = (v as u32) / N_SYLLABLES;
    let lo: u32 = (v as u32) % N_SYLLABLES;
    let c0 = match Coord::new(hi as u16) {
        Some(c) => c,
        None => Coord::new(0).unwrap(),
    };
    let c1 = match Coord::new(lo as u16) {
        Some(c) => c,
        None => Coord::new(0).unwrap(),
    };
    let r = [c0.to_char(), c1.to_char()];
    assert(codes(r@) =~= encode_pair_spec(v as int));
    r
}

/// The value of the chunk of at most two bytes at `k`.
fn chunk_value(bytes: &[u8], k: usize) -> (v: u16)
    requires
        k < bytes@.len(),
    ensures
        v == if k + 1 < bytes@.len() { bytes@[k as int] + 256 * bytes@[k + 1] } else { bytes@[k as int] as int },
{
    if bytes.len() - k > 1 {
        (bytes[k] as u16) + 256 * (bytes[k + 1] as u16)
    } else {
        bytes[k] as u16
    }
}

/// `encode_spec` of the bytes from `k` on, split off the front.
proof fn lemma_encode_step(b: Seq<u8>, k: int)
    requires
        0 <= k < b.len(),
    ensures
        encode_spec(b.skip(k)) == encode_pair_spec(
            if k + 1 < b.len() { b[k] + 256 * b[k + 1] } else { b[k] as int },
        ) + encode_spec(b.skip(if k + 1 < b.len() { k + 2 } else { k + 1 })),
{
    let t = b.skip(k);
    if k + 1 < b.len() {
        assert(t.skip(2) =~= b.skip(k + 2));
    } else {
        assert(b.skip(k + 1) =~= Seq::<u8>::empty());
        assert(encode_spec(b.skip(k + 1)) =~= Seq::<u32>::empty());
        assert(encode_pair_spec(b[k] as int) + Seq::<u32>::empty() =~= encode_pair_spec(b[k] as int));
    }
}

/// Encodes bytes as a Hangul string, two syllables per two bytes.
pub fn encode_bytes(bytes: &[u8]) -> (r: String)
    ensures
        codes(r@) == encode_spec(bytes@),
{
    let mut out = String::new();
    let mut k: usize = 0;
    proof {
        assert(bytes@.skip(0) =~= bytes@);
        assert(codes(out@) + encode_spec(bytes@) =~= encode_spec(bytes@));
    }
    while k < bytes.len()
        invariant
            k <= bytes@.len(),
            codes(out@) + encode_spec(bytes@.skip(k as int)) == encode_spec(bytes@),
        decreases bytes@.len() - k,
    {
        let v = chunk_value(bytes, k);
        let pair = encode_u16(v);
        let ghost before = out@;
        push_char(&mut out, pair[0]);
        push_char(&mut out, pair[1]);
        proof {
            lemma_encode_step(bytes@, k as int);
            assert(codes(out@) =~= codes(before) + encode_pair_spec(v as int));
        }
        if bytes.len() - k > 1 {
            proof {
                assert(codes(out@) + encode_spec(bytes@.skip(k + 2)) =~= codes(before) + encode_spec(bytes@.skip(k as int)));
            }
            k = k + 2;
        } else {
            proof {
                assert(codes(out@) + encode_spec(bytes@.skip(k + 1)) =~= codes(before) + encode_spec(bytes@.skip(k as int)));
            }
            k = k + 1;
        }
    }
    proof {
        assert(bytes@.skip(k as int) =~= Seq::<u8>::empty());
        assert(codes(out@) + Seq::<u32>::empty() =~= codes(out@));
    }
    out
}

/// The characters of a string, in order.
pub(crate) fn chars_of(s: &str) -> (r: Vec<char>)
    ensures
        r@ == s@,
{
    let mut out: Vec<char> = Vec::new();
    for c in it: s.chars()
        invariant
            it.seq() == s@,
            out@ == it.seq().take(it.index()),
    {
        out.push(c);
        proof {
            assert(it.seq().take(it.index() + 1) =~= it.seq().take(it.index()).push(c));
        }
    }
    proof {
        assert(s@.take(s@.len() as int) =~= s@);
    }
    out
}

} // verus!

verus! {

/// The bytes decoded from the code points `s` by this module's decoder.
pub open spec fn decode_spec(s: Seq<u32>) -> Option<Seq<u8>> {
    decode_from(s, 0, false)
}

/// Decodes two Hangul syllables back to a `u16`; `None` when either is not
/// a syllable.
pub fn decode_pair(c0: char, c1: char) -> (r: Option<u16>)
    ensures
        r == pair_of(false, c0 as u32 as int, c1 as u32 as int),
{
    let coord0 = match Coord::from_char(c0) {
        Some(c) => c,
        None => return None,
    };
    let coord1 = match Coord::from_char(c1) {
        Some(c) => c,
        None => return None,
    };
    Some(((coord0.index() as u32) * N_SYLLABLES + (coord1.index() as u32)) as u16)
}

/// `decode_from` advances over one valid pair.
proof fn lemma_decode_step(s: Seq<u32>, i: int, raw: bool, v: u16)
    requires
        0 <= i,
        i + 1 < s.len(),
        pair_of(raw, s[i] as int, s[i + 1] as int) == Some(v),
    ensures
        decode_from(s, i, raw) == match decode_from(s, i + 2, raw) {
            Some(rest) => Some(le_bytes(v) + rest),
            None => None::<Seq<u8>>,
        },
{
}

/// The pair decoding of `raw`'s decoder on two characters.
pub(crate) fn pair_decode(raw: bool, c0: char, c1: char) -> (r: Option<u16>)
    ensures
        r == pair_of(raw, c0 as u32 as int, c1 as u32 as int),
{
    if raw {
        crate::base11172_raw::decode_pair(c0, c1)
    } else {
        decode_pair(c0, c1)
    }
}

/// Decodes the code points of `chars` with `raw`'s pair decoding.
pub(crate) fn decode_chars(chars: &Vec<char>, raw: bool) -> (r: Option<Vec<u8>>)
    ensures
        r matches Some(v) ==> decode_from(codes(chars@), 0, raw) == Some(v@),
        r is None ==> decode_from(codes(chars@), 0, raw) is None,
{
    let ghost s = codes(chars@);
    let mut out: Vec<u8> = Vec::new();
    let mut i: usize = 0;
    while i < chars.len()
        invariant
            i <= chars@.len(),
            s == codes(chars@),
            decode_from(s, 0, raw) == match decode_from(s, i as int, raw) {
                Some(rest) => Some(out@ + rest),
                None => None::<Seq<u8>>,
            },
        decreases chars@.len() - i,
    {
        if chars.len() - i < 2 {
            return None;
        }
        match pair_decode(raw, chars[i], chars[i + 1]) {
            None => {
                return None;
            },
            Some(v) => {
                let ghost before = out@;
                out.push((v % 256) as u8);
                out.push((v / 256) as u8);
                proof {
                    lemma_decode_step(s, i as int, raw, v);
                    assert(out@ =~= before + le_bytes(v));
                    if let Some(rest) = decode_from(s, i + 2, raw) {
                        assert(before + (le_bytes(v) + rest) =~= out@ + rest);
                    }
                }
            },
        }
        i = i + 2;
    }
    proof {
        assert(out@ + Seq::<u8>::empty() =~= out@);
    }
    Some(out)
}

/// Decodes a Hangul string back to bytes, two syllables per `u16`; `None`
/// for an odd number of characters or a character that is not a syllable.
pub fn decode_bytes(s: &str) -> (r: Option<Vec<u8>>)
    ensures
        r matches Some(v) ==> decode_spec(codes(s@)) == Some(v@),
        r is None ==> decode_spec(codes(s@)) is None,
{
    let chars = chars_of(s);
    decode_chars(&chars, false)
}

} // verus!

verus! {

/// Decoding from a position past a prefix is decoding the rest.
proof fn lemma_decode_shift(p: Seq<u32>, t: Seq<u32>, i: int, raw: bool)
    requires
        0 <= i,
    ensures
        decode_from(p + t, i + p.len(), raw) == decode_from(t, i, raw),
    decreases t.len() - i,
{
    let s = p + t;
    let j = i + p.len();
    if i < t.len() && i + 1 < t.len() {
        assert(s[j] == t[i]);
        assert(s[j + 1] == t[i + 1]);
        lemma_decode_shift(p, t, i + 2, raw);
    }
}

/// Law: the two syllables of `encode_u16(v)` decode back to `v`, with
/// either decoder.
pub proof fn law_u16_roundtrip(v: u16, raw: bool)
    ensures
        pair_of(raw, encode_pair_spec(v as int)[0] as int, encode_pair_spec(v as int)[1] as int) == Some(v),
{
    let hi = (v as int) / 11172;
    let lo = (v as int) % 11172;
    assert(hi * 11172 + lo == v as int);
    assert(hi < 6);
    assert(hi % 11172 == hi);
}

/// Decoding a valid leading pair of `v` puts the bytes of `v` in front of
/// the decoding of the rest.
proof fn lemma_decode_front(v: u16, t: Seq<u32>, raw: bool)
    ensures
        decode_from(encode_pair_spec(v as int) + t, 0, raw) == match decode_from(t, 0, raw) {
            Some(rest) => Some(le_bytes(v) + rest),
            None => None::<Seq<u8>>,
        },
{
    let p = encode_pair_spec(v as int);
    let e = p + t;
    law_u16_roundtrip(v, raw);
    assert(e[0] == p[0] && e[1] == p[1]);
    lemma_decode_step(e, 0, raw, v);
    lemma_decode_shift(p, t, 0, raw);
}

/// The bytes of a little-endian pair value.
proof fn lemma_le_bytes(b0: u8, b1: u8)
    ensures
        le_bytes((b0 + 256 * b1) as u16) == seq![b0, b1],
        le_bytes(b0 as u16) == seq![b0, 0u8],
{
    let v = (b0 + 256 * b1) as u16;
    assert(v as int == b0 + 256 * b1);
    assert(v % 256 == b0);
    assert(v / 256 == b1);
    assert(le_bytes(v) =~= seq![b0, b1]);
    assert(le_bytes(b0 as u16) =~= seq![b0, 0u8]);
}

/// The encoding of at least two bytes starts with the pair of the first two.
proof fn lemma_encode_front(b: Seq<u8>)
    requires
        b.len() >= 2,
    ensures
        encode_spec(b) == encode_pair_spec(((b[0] + 256 * b[1]) as u16) as int) + encode_spec(b.skip(2)),
{
    let x = b[0] + 256 * b[1];
    assert(0 <= x < 65536);
    assert(((x as u16) as int) == x);
}

/// Padding two leading bytes onto a padded rest pads the whole.
proof fn lemma_padded_front(b: Seq<u8>)
    requires
        b.len() >= 2,
    ensures
        seq![b[0], b[1]] + padded(b.skip(2)) == padded(b),
{
    assert(seq![b[0], b[1]] + padded(b.skip(2)) =~= padded(b));
}

/// Law: decoding the encoding of `b` gives back `b`, with a zero byte added
/// when `b` has odd length; with either decoder.
pub proof fn law_bytes_roundtrip(b: Seq<u8>, raw: bool)
    ensures
        decode_from(encode_spec(b), 0, raw) == Some(padded(b)),
    decreases b.len(),
{
    if b.len() == 0 {
        assert(padded(b) =~= Seq::<u8>::empty());
    } else if b.len() == 1 {
        let v = b[0] as u16;
        lemma_decode_front(v, Seq::<u32>::empty(), raw);
        lemma_le_bytes(b[0], 0u8);
        assert(encode_spec(b) =~= encode_pair_spec(v as int) + Seq::<u32>::empty());
        assert(le_bytes(v) + Seq::<u8>::empty() =~= padded(b));
    } else {
        let v = (b[0] + 256 * b[1]) as u16;
        let rest = b.skip(2);
        law_bytes_roundtrip(rest, raw);
        lemma_encode_front(b);
        lemma_decode_front(v, encode_spec(rest), raw);
        lemma_le_bytes(b[0], b[1]);
        lemma_padded_front(b);
    }
}

/// The length of the Base64 text of `input_len` bytes (with padding):
/// four characters per started group of three bytes.
pub fn base64_encoded_len(input_len: usize) -> (r: usize)
    requires
        (input_len / 3 + if input_len % 3 == 0 { 0int } else { 1int }) * 4 <= usize::MAX,
    ensures
        r == (input_len / 3 + if input_len % 3 == 0 { 0int } else { 1int }) * 4,
{
    let groups = input_len / 3 + if input_len % 3 == 0 { 0 } else { 1 };
    groups * 4
}

} // verus!
