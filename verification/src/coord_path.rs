//! `CoordPath<N>`: an index path of `N` coordinates through a coordinate space.
use vstd::prelude::*;
use crate::coord::Coord;
use crate::text::{push_str_seq, push_decimal, spec_decimal, push_char_seq};

verus! {

/// An index path through a coordinate space, not a key: each element selects
/// one of 11,172 slots at the corresponding depth.
#[derive(Clone, Copy, Debug)]
pub struct CoordPath<const N: usize> {
    pub(crate) coords: [Coord; N],
}

impl<const N: usize> View for CoordPath<N> {
    type V = Seq<Coord>;

    open(crate) spec fn view(&self) -> Seq<Coord> {
        self.coords@
    }
}

/// The text `CoordPath<N>(c0, c1, ...)` with each coordinate shown as its
/// syllable.
pub open spec fn path_text(n: nat, chars: Seq<char>) -> Seq<char> {
    "CoordPath<"@ + spec_decimal(n) + ">("@ + joined(chars) + ")"@
}

/// The characters of `chars` separated by `", "`.
pub open spec fn joined(chars: Seq<char>) -> Seq<char>
    decreases chars.len(),
{
    if chars.len() == 0 {
        Seq::empty()
    } else if chars.len() == 1 {
        seq![chars[0]]
    } else {
        joined(chars.drop_last()) + ", "@ + seq![chars.last()]
    }
}

/// The syllable characters of a sequence of coordinates.
pub open spec fn syllables(s: Seq<Coord>) -> Seq<char> {
    Seq::new(s.len(), |i: int| (0xAC00 + s[i].idx()) as char)
}

impl<const N: usize> CoordPath<N> {
    /// Creates a new `CoordPath` from an array of coordinates.
    pub fn new(coords: [Coord; N]) -> (r: Self)
        ensures
            r@ == coords@,
    {
        CoordPath { coords }
    }

    /// Returns a reference to the internal coordinate array.
    pub fn coords(&self) -> (r: &[Coord; N])
        ensures
            r@ == self@,
    {
        &self.coords
    }

    /// Returns the coordinate at position `index`, or `None` past the end.
    pub fn get(&self, index: usize) -> (r: Option<&Coord>)
        ensures
            r is Some <==> index < N,
            r matches Some(c) ==> *c == self@[index as int],
    {
        if index < N {
            Some(&self.coords[index])
        } else {
            None
        }
    }

    /// Returns the number of coordinates in the path (always `N`).
    pub fn len(&self) -> (r: usize)
        ensures
            r == N,
            r == self@.len(),
    {
        N
    }

    /// Returns `true` when the path is empty (`N == 0`).
    pub fn is_empty(&self) -> (r: bool)
        ensures
            r == (N == 0),
    {
        N == 0
    }

    /// Iterates over the coordinates in the path, in order.
    pub fn iter(&self) -> (r: core::slice::Iter<'_, Coord>)
        ensures
            vstd::std_specs::iter::IteratorSpec::remaining(&r) == self@.map_values(|c: Coord| &c),
    {
        let s: &[Coord] = self.coords.as_slice();
        let r = s.iter();
        proof {
            vstd::std_specs::slice::axiom_spec_slice_iter(s);
        }
        r
    }

    /// The display text `CoordPath<N>(c0, c1, ...)`.
    pub fn to_string(&self) -> (r: String)
        ensures
            r@ == path_text(N as nat, syllables(self@)),
    {
        let mut out = String::new();
        push_str_seq(&mut out, "CoordPath<");
        push_decimal(&mut out, N);
        push_str_seq(&mut out, ">(");
        let mut chars: Vec<char> = Vec::new();
        let mut i: usize = 0;
        while i < N
            invariant
                i <= N,
                chars@ == syllables(self@.take(i as int)),
                self@.len() == N,
            decreases N - i,
        {
            chars.push(self.coords[i].to_char());
            proof {
                assert(self@.take(i + 1) == self@.take(i as int).push(self@[i as int]));
                assert(syllables(self@.take(i + 1)) == syllables(self@.take(i as int)).push(
                    (0xAC00 + self@[i as int].idx()) as char));
            }
            i = i + 1;
        }
        proof {
            assert(self@.take(N as int) == self@);
        }
        push_joined(&mut out, &chars);
        push_str_seq(&mut out, ")");
        proof {
            reveal_strlit("CoordPath<");
            reveal_strlit(">(");
            reveal_strlit(")");
        }
        out
    }
}

/// Appends `chars` separated by `", "`.
pub(crate) fn push_joined(out: &mut String, chars: &Vec<char>)
    ensures
        final(out)@ == old(out)@ + joined(chars@),
{
    let ghost start = out@;
    let mut i: usize = 0;
    while i < chars.len()
        invariant
            i <= chars.len(),
            out@ == start + joined(chars@.take(i as int)),
        decreases chars.len() - i,
    {
        if i > 0 {
            push_str_seq(out, ", ");
        }
        crate::coord::push_char(out, chars[i]);
        proof {
            reveal_strlit(", ");
            let t = chars@.take(i + 1);
            assert(t.drop_last() == chars@.take(i as int));
            assert(t.last() == chars@[i as int]);
            if i == 0 {
                assert(joined(chars@.take(0)) == Seq::<char>::empty());
            }
        }
        i = i + 1;
    }
    proof {
        assert(chars@.take(chars@.len() as int) == chars@);
    }
}

impl<const N: usize> PartialEq for CoordPath<N> {
    fn eq(&self, other: &Self) -> (r: bool) {
        let mut i: usize = 0;
        while i < N
            invariant
                i <= N,
                self@.len() == N,
                other@.len() == N,
                self@.take(i as int) == other@.take(i as int),
            decreases N - i,
        {
            if self.coords[i] != other.coords[i] {
                return false;
            }
            proof {
                assert(self@.take(i + 1) == self@.take(i as int).push(self@[i as int]));
                assert(other@.take(i + 1) == other@.take(i as int).push(other@[i as int]));
            }
            i = i + 1;
        }
        proof {
            assert(self@.take(N as int) == self@);
            assert(other@.take(N as int) == other@);
        }
        true
    }
}

impl<const N: usize> vstd::std_specs::cmp::PartialEqSpecImpl for CoordPath<N> {
    open spec fn obeys_eq_spec() -> bool {
        true
    }

    open(crate) spec fn eq_spec(&self, other: &Self) -> bool {
        self.coords@ == other.coords@
    }
}

impl<const N: usize> Eq for CoordPath<N> {
}

impl From<Coord> for CoordPath<1> {
    fn from(coord: Coord) -> (r: Self) {
        CoordPath { coords: [coord] }
    }
}

impl vstd::std_specs::convert::FromSpecImpl<Coord> for CoordPath<1> {
    open spec fn obeys_from_spec() -> bool {
        true
    }

    open(crate) spec fn from_spec(coord: Coord) -> Self {
        CoordPath { coords: [coord] }
    }
}

impl<const N: usize> From<[Coord; N]> for CoordPath<N> {
    fn from(coords: [Coord; N]) -> (r: Self) {
        CoordPath { coords }
    }
}

impl<const N: usize> vstd::std_specs::convert::FromSpecImpl<[Coord; N]> for CoordPath<N> {
    open spec fn obeys_from_spec() -> bool {
        true
    }

    open(crate) spec fn from_spec(coords: [Coord; N]) -> Self {
        CoordPath { coords }
    }
}

} // verus!

verus! {

/// The syllable characters of a list of coordinates.
pub(crate) fn coord_chars(v: &Vec<Coord>) -> (r: Vec<char>)
    ensures
        r@ == syllables(v@),
{
    let mut chars: Vec<char> = Vec::new();
    let mut i: usize = 0;
    while i < v.len()
        invariant
            i <= v@.len(),
            chars@ == syllables(v@.take(i as int)),
        decreases v@.len() - i,
    {
        chars.push(v[i].to_char());
        proof {
            assert(v@.take(i + 1) == v@.take(i as int).push(v@[i as int]));
            assert(syllables(v@.take(i + 1)) == syllables(v@.take(i as int)).push(
                (0xAC00 + v@[i as int].idx()) as char));
        }
        i = i + 1;
    }
    proof {
        assert(v@.take(v@.len() as int) == v@);
    }
    chars
}

} // verus!
