//! `TagmaCoord`: a Hangul syllable coordinate held as its Unicode code
//! point, `0xAC00 + initial * 588 + medial * 28 + final`.
use vstd::prelude::*;
use crate::coord::{axes_of, compose, abs_diff, lemma_axes_compose, lemma_compose_axes, char_from_u32, push_char, u8_abs_diff};
use crate::text::{push_str_seq, push_decimal, push_hex4, spec_decimal, spec_hex4};

verus! {

/// A Hangul syllable coordinate, stored as its code point
/// (U+AC00..=U+D7A3).
#[derive(Debug, Clone, Copy, PartialEq, Eq, Structural, Hash)]
pub struct TagmaCoord(u16);

impl TagmaCoord {
    /// The code point lies in the 11,172 composable syllables.
    #[verifier::type_invariant]
    spec fn inv(self) -> bool {
        0xAC00 <= self.0 && self.0 < 0xAC00 + 11172
    }

    /// The code point of this coordinate.
    pub closed spec fn cp(self) -> int {
        self.0 as int
    }

    /// `cp` is the code point of a composable syllable.
    pub open spec fn spec_valid(cp: u16) -> bool {
        0xAC00 <= cp && cp < 0xAC00 + 11172
    }

    /// The offset of this coordinate from U+AC00.
    pub open spec fn offset(self) -> int {
        self.cp() - 0xAC00
    }

    /// Two coordinates are equal exactly when their code points are.
    pub proof fn lemma_eq(self, other: Self)
        ensures
            (self == other) <==> (self.cp() == other.cp()),
    {
    }

    /// The coordinate with axes `(initial, medial, final)`; `None` when an
    /// axis is out of range (initial < 19, medial < 21, final < 28).
    pub fn new(initial: u8, medial: u8, final_: u8) -> (r: Option<Self>)
        ensures
            r is Some <==> (initial < 19 && medial < 21 && final_ < 28),
            r matches Some(c) ==> c.cp() == 0xAC00 + compose(initial as int, medial as int, final_ as int),
    {
        if initial >= 19 || medial >= 21 || final_ >= 28 {
            return None;
        }
        proof {
            lemma_axes_compose(initial as int, medial as int, final_ as int);
        }
        let cp: u16 = 0xAC00 + (initial as u16) * 588 + (medial as u16) * 28 + final_ as u16;
        Some(TagmaCoord(cp))
    }

    /// The coordinate with code point `cp`; `None` outside the block or in
    /// its filler positions U+D7A4..=U+D7AF.
    pub fn from_code_point(cp: u16) -> (r: Option<Self>)
        ensures
            r is Some <==> (0xAC00 <= cp && cp < 0xAC00 + 11172),
            r matches Some(c) ==> c.cp() == cp,
    {
        if !(0xAC00 <= cp && cp <= 0xD7AF) {
            return None;
        }
        let offset: u16 = cp - 0xAC00;
        let initial: u8 = (offset / 588) as u8;
        let rem: u16 = offset % 588;
        let medial: u8 = (rem / 28) as u8;
        let final_: u8 = (rem % 28) as u8;
        if initial >= 19 || medial >= 21 || final_ >= 28 {
            return None;
        }
        Some(TagmaCoord(cp))
    }

    /// The code point.
    pub fn code_point(&self) -> (r: u16)
        ensures
            r == self.cp(),
    {
        self.0
    }

    /// The `(initial, medial, final)` axes.
    pub fn decompose(&self) -> (r: (u8, u8, u8))
        ensures
            (r.0 as int, r.1 as int, r.2 as int) == axes_of(self.offset()),
            r.0 < 19,
            r.1 < 21,
            r.2 < 28,
    {
        proof {
            use_type_invariant(self);
            lemma_compose_axes(self.offset());
        }
        let offset: u16 = self.0 - 0xAC00;
        let initial: u8 = (offset / 588) as u8;
        let rem: u16 = offset % 588;
        let medial: u8 = (rem / 28) as u8;
        let final_: u8 = (rem % 28) as u8;
        (initial, medial, final_)
    }

    /// `true` when `cp` is the code point of a coordinate.
    pub fn validate(cp: u16) -> (r: bool)
        ensures
            r == (0xAC00 <= cp && cp < 0xAC00 + 11172),
    {
        Self::from_code_point(cp).is_some()
    }

    /// The dense index `initial * 588 + medial * 28 + final` in 0..11172.
    pub fn to_dense_index(self) -> (r: usize)
        ensures
            r == self.offset(),
            r < 11172,
    {
        proof {
            use_type_invariant(self);
            lemma_compose_axes(self.offset());
        }
        let (i, m, f) = self.decompose();
        (i as usize) * 588 + (m as usize) * 28 + (f as usize)
    }

    /// Field-wise Hamming distance: the absolute difference of each axis.
    pub fn hamming_distance(&self, other: &Self) -> (r: (u8, u8, u8))
        ensures
            r.0 == abs_diff(axes_of(self.offset()).0, axes_of(other.offset()).0),
            r.1 == abs_diff(axes_of(self.offset()).1, axes_of(other.offset()).1),
            r.2 == abs_diff(axes_of(self.offset()).2, axes_of(other.offset()).2),
    {
        let (ai, am, af) = self.decompose();
        let (bi, bm, bf) = other.decompose();
        (u8_abs_diff(ai, bi), u8_abs_diff(am, bm), u8_abs_diff(af, bf))
    }

    /// The syllable character.
    pub fn to_char(self) -> (r: char)
        ensures
            r as u32 == self.cp(),
    {
        proof {
            use_type_invariant(self);
        }
        match char_from_u32(self.0 as u32) {
            Some(c) => c,
            None => vstd::pervasive::unreached(),
        }
    }

    /// The display text `"<syllable> (U+XXXX, i=<i>, m=<m>, f=<f>)"`.
    pub fn to_string(&self) -> (r: String)
        ensures
            r@ == seq![self.cp() as char] + " (U+"@ + spec_hex4(self.cp() as nat) + ", i="@
                + spec_decimal(axes_of(self.offset()).0 as nat) + ", m="@ + spec_decimal(
                axes_of(self.offset()).1 as nat,
            ) + ", f="@ + spec_decimal(axes_of(self.offset()).2 as nat) + ")"@,
    {
        let (i, m, f) = self.decompose();
        let mut out = String::new();
        push_char(&mut out, self.to_char());
        push_str_seq(&mut out, " (U+");
        push_hex4(&mut out, self.0);
        push_str_seq(&mut out, ", i=");
        push_decimal(&mut out, i as usize);
        push_str_seq(&mut out, ", m=");
        push_decimal(&mut out, m as usize);
        push_str_seq(&mut out, ", f=");
        push_decimal(&mut out, f as usize);
        push_str_seq(&mut out, ")");
        proof {
            assert(self.to_char_spec() == self.cp() as char);
        }
        out
    }

    /// The syllable character, in specifications.
    spec fn to_char_spec(self) -> char {
        self.cp() as char
    }
}

impl From<TagmaCoord> for u16 {
    fn from(c: TagmaCoord) -> (r: u16) {
        c.0
    }
}

impl vstd::std_specs::convert::FromSpecImpl<TagmaCoord> for u16 {
    open spec fn obeys_from_spec() -> bool {
        true
    }

    open spec fn from_spec(c: TagmaCoord) -> u16 {
        c.cp() as u16
    }
}

} // verus!
