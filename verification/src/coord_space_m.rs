//! `CoordSpaceM<N, V>`: the dense depth-`N` space, every path a direct
//! address, with storage materialised only where it is written.
use vstd::prelude::*;
use crate::coord::Coord;
use crate::coord_path::CoordPath;
use crate::coord_space_n::CoordSpaceN;
use crate::text::{push_str_seq, push_decimal, spec_decimal};

verus! {

/// A dense, hash-less space addressed directly by paths of `N` syllables.
/// Only the depth 3 is supported.
#[derive(Debug)]
pub struct CoordSpaceM<const N: usize, V> {
    space: CoordSpaceN<N, V>,
}

impl<const N: usize, V> View for CoordSpaceM<N, V> {
    type V = Map<Seq<Coord>, V>;

    closed spec fn view(&self) -> Map<Seq<Coord>, V> {
        self.space@
    }
}

impl<const N: usize, V> CoordSpaceM<N, V> {
    /// The space is well formed.
    pub closed spec fn wf(&self) -> bool {
        self.space.wf()
    }

    /// Creates an empty space; the depth must be 3.
    pub fn new() -> (r: Self)
        requires
            N == 3,
        ensures
            r.wf(),
            r@ == Map::<Seq<Coord>, V>::empty(),
    {
        CoordSpaceM { space: CoordSpaceN::new() }
    }

    /// The number of occupied slots.
    pub fn len(&self) -> (r: usize)
        requires
            self.wf(),
        ensures
            r == self@.len(),
    {
        self.space.len()
    }

    /// `true` when no slot is occupied.
    pub fn is_empty(&self) -> (r: bool)
        requires
            self.wf(),
        ensures
            r == (self@.len() == 0),
    {
        self.space.is_empty()
    }

    /// The value in the slot of `path`.
    pub fn at_path(&self, path: &CoordPath<N>) -> (r: Option<&V>)
        requires
            self.wf(),
        ensures
            r is Some <==> self@.contains_key(path@),
            r matches Some(v) ==> *v == self@[path@],
    {
        self.space.at_path(path)
    }

    /// Stores `value` in the slot of `path`, returning what it held.
    pub fn place_path(&mut self, path: &CoordPath<N>, value: V) -> (r: Option<V>)
        requires
            old(self).wf(),
            old(self)@.len() < usize::MAX,
        ensures
            final(self).wf(),
            final(self)@ == old(self)@.insert(path@, value),
            r == old(self)@.get(path@),
    {
        self.space.place_path(path, value)
    }

    /// Empties the slot of `path`, returning what it held.
    pub fn vacate_path(&mut self, path: &CoordPath<N>) -> (r: Option<V>)
        requires
            old(self).wf(),
        ensures
            final(self).wf(),
            final(self)@ == old(self)@.remove(path@),
            r == old(self)@.get(path@),
    {
        self.space.vacate_path(path)
    }

    /// Empties every slot.
    pub fn clear(&mut self)
        requires
            old(self).wf(),
        ensures
            final(self).wf(),
            final(self)@ == Map::<Seq<Coord>, V>::empty(),
    {
        self.space.clear();
    }

    /// The debug text `"CoordSpaceM { N: <N>, len: <occupied slots> }"`.
    pub fn debug_string(&self) -> (r: String)
        requires
            self.wf(),
        ensures
            r@ == "CoordSpaceM { N: "@ + spec_decimal(N as nat) + ", len: "@ + spec_decimal(self@.len()) + " }"@,
    {
        let mut out = String::new();
        push_str_seq(&mut out, "CoordSpaceM { N: ");
        push_decimal(&mut out, N);
        push_str_seq(&mut out, ", len: ");
        push_decimal(&mut out, self.space.len());
        push_str_seq(&mut out, " }");
        out
    }

    /// `true` when the two spaces occupy the same number of slots.
    pub fn eq(&self, other: &Self) -> (r: bool)
        requires
            self.wf(),
            other.wf(),
        ensures
            r == (self@.len() == other@.len()),
    {
        self.space.len() == other.space.len()
    }
}

impl<const N: usize, V: Clone> CoordSpaceM<N, V> {
    /// An independent copy of the space, with every value cloned.
    pub fn clone(&self) -> (r: Self)
        requires
            self.wf(),
        ensures
            r.wf(),
            r@.dom() == self@.dom(),
            forall|p: Seq<Coord>| #[trigger] self@.contains_key(p) ==> cloned::<V>(self@[p], r@[p]),
    {
        CoordSpaceM { space: self.space.clone() }
    }
}

impl<V> Default for CoordSpaceM<3, V> {
    fn default() -> (r: Self)
        ensures
            r.wf(),
            r@ == Map::<Seq<Coord>, V>::empty(),
    {
        CoordSpaceM::new()
    }
}

/// The dense three-syllable space.
pub type CoordSpaceM3<V> = CoordSpaceM<3, V>;

/// The six-syllable variant (its space cannot be created).
pub type CoordSpaceM6<V> = CoordSpaceM<6, V>;

/// The twelve-syllable variant (its space cannot be created).
pub type CoordSpaceM12<V> = CoordSpaceM<12, V>;

/// The nineteen-syllable variant (its space cannot be created).
pub type CoordSpaceM19<V> = CoordSpaceM<19, V>;

} // verus!
