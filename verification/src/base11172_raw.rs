//! Base-11172 over raw code points: the same encoding as `base11172`, with
//! a decoder that accepts a character only when its full code point is a
//! syllable.
use vstd::prelude::*;
use crate::coord::{char_from_u32, push_char};
use crate::base11172::{codes, encode_pair_spec, encode_spec, decode_from, pair_of, chars_of, decode_chars};

verus! {

/// The first syllable, U+AC00.
pub const BASE: u32 = 0xAC00;

/// The number of syllables used by the encoding.
pub const N_SYLLABLES: u32 = 11172;

/// The bytes decoded from the code points `s` by this module's decoder.
pub open spec fn decode_spec(s: Seq<u32>) -> Option<Seq<u8>> {
    decode_from(s, 0, true)
}

/// Encodes a `u16` as two Hangul syllables: its base-11172 digits, high
/// first.
pub fn encode_u16(v: u16) -> (r: [char; 2])
    ensures
        codes(r@) == encode_pair_spec(v as int),
{
    let hi: u32 = ((v as u32) / N_SYLLABLES) % N_SYLLABLES;
    let lo: u32 = (v as u32) % N_SYLLABLES;
    let c0 = match char_from_u32(BASE + hi) {
        Some(c) => c,
        None => vstd::pervasive::unreached(),
    };
    let c1 = match char_from_u32(BASE + lo) {
        Some(c) => c,
        None => vstd::pervasive::unreached(),
    };
    let r = [c0, c1];
    assert(codes(r@) =~= encode_pair_spec(v as int));
    r
}

/// Encodes bytes as a Hangul string, two syllables per two bytes.
pub fn encode_bytes(bytes: &[u8]) -> (r: String)
    ensures
        codes(r@) == encode_spec(bytes@),
{
    crate::base11172::encode_bytes(bytes)
}

/// Decodes two Hangul syllables back to a `u16`; `None` when either code
/// point is outside the syllable block.
pub fn decode_pair(c0: char, c1: char) -> (r: Option<u16>)
    ensures
        r == pair_of(true, c0 as u32 as int, c1 as u32 as int),
{
    let u0: u32 = c0 as u32;
    let u1: u32 = c1 as u32;
    if !(BASE <= u0 && u0 < BASE + N_SYLLABLES) || !(BASE <= u1 && u1 < BASE + N_SYLLABLES) {
        return None;
    }
    let hi: u32 = u0 - BASE;
    let lo: u32 = u1 - BASE;
    Some((hi * N_SYLLABLES + lo) as u16)
}

/// Decodes a Hangul string back to bytes, two syllables per `u16`; `None`
/// for an odd number of characters or a character outside the block.
pub fn decode_bytes(s: &str) -> (r: Option<Vec<u8>>)
    ensures
        r matches Some(v) ==> decode_spec(codes(s@)) == Some(v@),
        r is None ==> decode_spec(codes(s@)) is None,
{
    let chars = chars_of(s);
    decode_chars(&chars, true)
}

} // verus!
