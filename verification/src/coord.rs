//! `Coord`: a 16-bit value that is always a valid Hangul syllable offset.
use vstd::prelude::*;

verus! {

/// Number of valid syllable blocks (19 x 21 x 28).
pub const N_VALID: usize = 11172;

/// Number of initial (choseong) values.
pub const N_INIT: u16 = 19;

/// Number of medial (jungseong) values.
pub const N_MED: u16 = 21;

/// Number of final (jongseong) values.
pub const N_FIN: u16 = 28;

/// Stride of the initial axis (21 x 28).
pub const STRIDE_INIT: u16 = 588;

/// First code point of the Hangul syllable block (U+AC00).
pub const HANGUL_BASE: u16 = 0xAC00;

/// Last code point of the Unicode Hangul syllables block (U+D7AF).
pub const HANGUL_LAST: u16 = 0xD7AF;

/// The three axes of a syllable offset: `(initial, medial, final)`.
pub open spec fn axes_of(v: int) -> (int, int, int) {
    (v / 588, (v % 588) / 28, v % 28)
}

/// The composition formula `588 i + 28 m + f`.
pub open spec fn compose(i: int, m: int, f: int) -> int {
    588 * i + 28 * m + f
}

/// Absolute difference of two integers.
pub open spec fn abs_diff(a: int, b: int) -> int {
    if a >= b { a - b } else { b - a }
}

/// A 16-bit value guaranteed to be a valid Hangul syllable coordinate
/// (an offset in `0..11172` from U+AC00).
#[derive(Clone, Copy, PartialEq, Eq, Structural, Debug, Hash, PartialOrd, Ord)]
pub struct Coord(pub(crate) u16);

impl Coord {
    /// Every `Coord` holds an offset below 11172.
    #[verifier::type_invariant]
    pub(crate) open spec fn inv(self) -> bool {
        self.0 < 11172
    }

    /// The offset of this coordinate (0..11172).
    pub open(crate) spec fn idx(self) -> int {
        self.0 as int
    }

    /// Number of valid syllable blocks (19 x 21 x 28).
    pub const N_VALID: usize = 11172;

    /// Number of representable 16-bit states.
    pub const N_TOTAL: usize = 65536;

    /// Number of structurally invalid states (N_TOTAL - N_VALID).
    pub const N_INVALID: usize = 54364;

    /// Base code point (U+AC00).
    pub const BASE: u16 = 0xAC00;

    /// Last code point of the Unicode Hangul Syllables block (U+D7AF).
    pub const LAST: u16 = 0xD7AF;

    /// Creates a `Coord` from a raw offset; `None` when it is 11172 or more.
    pub fn new(value: u16) -> (r: Option<Coord>)
        ensures
            r is Some <==> value < 11172,
            r matches Some(c) ==> c.idx() == value,
    {
        if value < 11172 {
            Some(Coord(value))
        } else {
            None
        }
    }

    /// Creates a `Coord` from its three structural axes; `None` if any axis
    /// is out of bounds (initial 0..19, medial 0..21, final 0..28).
    pub fn from_axes(initial: u8, medial: u8, final_: u8) -> (r: Option<Coord>)
        ensures
            r is Some <==> (initial < 19 && medial < 21 && final_ < 28),
            r matches Some(c) ==> c.idx() == compose(initial as int, medial as int, final_ as int),
    {
        if initial < 19 && medial < 21 && final_ < 28 {
            let v: u16 = (initial as u16) * 588 + (medial as u16) * 28 + (final_ as u16);
            Some(Coord(v))
        } else {
            None
        }
    }

    /// Creates a `Coord` from a Unicode code point; `None` outside
    /// U+AC00..U+D7A3 (the block's filler positions U+D7A4..U+D7AF included).
    pub fn from_code_point(cp: u16) -> (r: Option<Coord>)
        ensures
            r is Some <==> (0xAC00 <= cp && cp < 0xAC00 + 11172),
            r matches Some(c) ==> c.idx() == cp - 0xAC00,
    {
        if cp >= 0xAC00 && cp <= 0xD7AF {
            let offset: u16 = cp - 0xAC00;
            if offset < 11172 {
                Some(Coord(offset))
            } else {
                None
            }
        } else {
            None
        }
    }

    /// Creates a `Coord` from a `char`; `None` unless it is a Hangul syllable
    /// (U+AC00..U+D7A3).
    pub fn from_char(ch: char) -> (r: Option<Coord>)
        ensures
            r is Some <==> (0xAC00 <= (ch as u32) && (ch as u32) < 0xAC00 + 11172),
            r matches Some(c) ==> c.idx() == (ch as u32) - 0xAC00,
    {
        let code: u32 = ch as u32;
        if code >= 0xAC00 && code < 0xAC00 + 11172 {
            Some(Coord((code - 0xAC00) as u16))
        } else {
            None
        }
    }

    /// Returns the raw 0-based index (0..11171).
    pub fn index(self) -> (r: u16)
        ensures
            r == self.idx(),
            r < 11172,
    {
        proof {
            use_type_invariant(self);
        }
        self.0
    }

    /// Returns the Unicode code point (U+AC00..U+D7A3).
    pub fn to_code_point(self) -> (r: u16)
        ensures
            r == 0xAC00 + self.idx(),
    {
        proof {
            use_type_invariant(self);
        }
        0xAC00 + self.0
    }

    /// Returns the Hangul syllable `char` of this coordinate.
    pub fn to_char(self) -> (r: char)
        ensures
            r as u32 == 0xAC00 + self.idx(),
    {
        proof {
            use_type_invariant(self);
        }
        let cp: u32 = 0xAC00u32 + (self.0 as u32);
        match char_from_u32(cp) {
            Some(c) => c,
            None => vstd::pervasive::unreached(),
        }
    }

    /// Decomposes this coordinate into `(initial, medial, final)`.
    pub fn to_axes(self) -> (r: (u8, u8, u8))
        ensures
            (r.0 as int, r.1 as int, r.2 as int) == axes_of(self.idx()),
            r.0 < 19,
            r.1 < 21,
            r.2 < 28,
            compose(r.0 as int, r.1 as int, r.2 as int) == self.idx(),
    {
        proof {
            use_type_invariant(self);
        }
        let v: u16 = self.0;
        let initial: u16 = v / 588;
        let rem: u16 = v % 588;
        let medial: u16 = rem / 28;
        let fin: u16 = rem % 28;
        (initial as u8, medial as u8, fin as u8)
    }

    /// Returns the Hangul syllable as a one-character string.
    pub fn to_hangul_string(self) -> (r: String)
        ensures
            r@.len() == 1,
            r@[0] as u32 == 0xAC00 + self.idx(),
    {
        let mut s = String::new();
        push_char(&mut s, self.to_char());
        s
    }

    /// Field-wise Hamming distance `(d_initial, d_medial, d_final)`: the
    /// absolute difference of each axis.
    pub fn hamming_distance(self, other: Self) -> (r: (u8, u8, u8))
        ensures
            r.0 == abs_diff(axes_of(self.idx()).0, axes_of(other.idx()).0),
            r.1 == abs_diff(axes_of(self.idx()).1, axes_of(other.idx()).1),
            r.2 == abs_diff(axes_of(self.idx()).2, axes_of(other.idx()).2),
    {
        let (ai, am, af) = self.to_axes();
        let (bi, bm, bf) = other.to_axes();
        (u8_abs_diff(ai, bi), u8_abs_diff(am, bm), u8_abs_diff(af, bf))
    }

    /// Little-endian bytes of the raw index.
    pub fn to_le_bytes(self) -> (r: [u8; 2])
        ensures
            r@[0] == self.idx() % 256,
            r@[1] == self.idx() / 256,
    {
        proof {
            use_type_invariant(self);
        }
        [(self.0 % 256) as u8, (self.0 / 256) as u8]
    }

    /// Big-endian bytes of the raw index.
    pub fn to_be_bytes(self) -> (r: [u8; 2])
        ensures
            r@[0] == self.idx() / 256,
            r@[1] == self.idx() % 256,
    {
        proof {
            use_type_invariant(self);
        }
        [(self.0 / 256) as u8, (self.0 % 256) as u8]
    }

    /// Creates a `Coord` from little-endian bytes; `None` if the value is
    /// 11172 or more.
    pub fn from_le_bytes(bytes: [u8; 2]) -> (r: Option<Coord>)
        ensures
            r is Some <==> bytes@[0] + 256 * bytes@[1] < 11172,
            r matches Some(c) ==> c.idx() == bytes@[0] + 256 * bytes@[1],
    {
        let v: u16 = (bytes[0] as u16) + (bytes[1] as u16) * 256;
        Self::new(v)
    }

    /// Creates a `Coord` from big-endian bytes; `None` if the value is
    /// 11172 or more.
    pub fn from_be_bytes(bytes: [u8; 2]) -> (r: Option<Coord>)
        ensures
            r is Some <==> 256 * bytes@[0] + bytes@[1] < 11172,
            r matches Some(c) ==> c.idx() == 256 * bytes@[0] + bytes@[1],
    {
        let v: u16 = (bytes[0] as u16) * 256 + (bytes[1] as u16);
        Self::new(v)
    }
}

/// Absolute difference of two bytes.
pub fn u8_abs_diff(a: u8, b: u8) -> (r: u8)
    ensures
        r == abs_diff(a as int, b as int),
{
    if a >= b {
        a - b
    } else {
        b - a
    }
}

/// The coordinate with offset `i` (meaningful for `0 <= i < 11172`).
pub open(crate) spec fn coord_at(i: int) -> Coord {
    Coord(i as u16)
}

/// `coord_at(i)` has offset `i`.
pub proof fn lemma_coord_at(i: int)
    requires
        0 <= i < 11172,
    ensures
        coord_at(i).idx() == i,
{
}

/// Two coordinates are equal exactly when their offsets are.
pub proof fn lemma_coord_eq(a: Coord, b: Coord)
    ensures
        (a == b) <==> (a.idx() == b.idx()),
{
}

/// Decomposition is the inverse of composition on the valid axis ranges.
pub proof fn lemma_axes_compose(i: int, m: int, f: int)
    requires
        0 <= i < 19,
        0 <= m < 21,
        0 <= f < 28,
    ensures
        axes_of(compose(i, m, f)) == (i, m, f),
        0 <= compose(i, m, f) < 11172,
{
    assert(axes_of(compose(i, m, f)) == (i, m, f)) by (nonlinear_arith)
        requires
            0 <= i < 19,
            0 <= m < 21,
            0 <= f < 28,
    ;
}

/// Composition is the inverse of decomposition on the valid offsets.
pub proof fn lemma_compose_axes(v: int)
    requires
        0 <= v < 11172,
    ensures
        compose(axes_of(v).0, axes_of(v).1, axes_of(v).2) == v,
        0 <= axes_of(v).0 < 19,
        0 <= axes_of(v).1 < 21,
        0 <= axes_of(v).2 < 28,
{
}

/// `char::from_u32`: the `char` whose scalar value is `x`, or `None` when
/// `x` is a surrogate (U+D800..=U+DFFF) or above U+10FFFF, as its
/// documentation states.
#[verifier::external_body]
pub(crate) fn char_from_u32(x: u32) -> (r: Option<char>)
    ensures
        r is Some <==> (x <= 0xD7FF || (0xE000 <= x && x <= 0x10FFFF)),
        r matches Some(c) ==> c as u32 == x,
{
    char::from_u32(x)
}

/// `String::push`: appends one `char` to the string.
#[verifier::external_body]
pub(crate) fn push_char(s: &mut String, c: char)
    ensures
        final(s)@ == old(s)@.push(c),
{
    s.push(c)
}

} // verus!
