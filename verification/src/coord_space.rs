//! `CoordSpace<V>`: a hash-less, collision-free single-syllable address
//! table; every `Coord` is a direct index into 11,172 slots.
use vstd::prelude::*;
use crate::coord::Coord;
use crate::coord_path::CoordPath;
use crate::coord_space_n::{CoordSpaceN, flat_of, deref_mut_pairs, lemma_flat_insert, lemma_flat_remove, lemma_insert_twice};
use crate::listing::{lists, deref_pairs, keys_of, values_of, map_of_pairs};
use vstd::std_specs::iter::IteratorSpec;
use vstd::std_specs::cmp::PartialEqSpec;

verus! {

/// A single-syllable address table: at most one value per coordinate.
#[derive(Debug)]
pub struct CoordSpace<V> {
    slots: CoordSpaceN<1, V>,
}

impl<V> View for CoordSpace<V> {
    type V = Map<Coord, V>;

    closed spec fn view(&self) -> Map<Coord, V> {
        flat_of(self.slots@)
    }
}

/// An iterator over `(coordinate, value)` pairs in coordinate order.
pub type FlatIter<'a, V> = std::vec::IntoIter<(Coord, &'a V)>;

/// An iterator over `(coordinate, mutable value)` pairs in coordinate order.
pub type FlatIterMut<'a, V> = std::vec::IntoIter<(Coord, &'a mut V)>;

/// An iterator over removed `(coordinate, value)` pairs in coordinate order.
pub type FlatDrain<V> = std::vec::IntoIter<(Coord, V)>;

/// An iterator over the pairs of a consumed space in coordinate order.
pub type FlatIntoIter<V> = std::vec::IntoIter<(Coord, V)>;

impl<V> CoordSpace<V> {
    /// The space is well formed.
    pub closed spec fn wf(&self) -> bool {
        self.slots.wf()
    }

    /// Facts every well-formed space satisfies: finitely many entries, at
    /// valid coordinates.
    pub proof fn lemma_wf(&self)
        requires
            self.wf(),
        ensures
            self@.dom().finite(),
            self@.len() <= 11172,
            forall|c: Coord| #[trigger] self@.contains_key(c) ==> c.idx() < 11172,
    {
        self.slots.lemma_flat_len();
        crate::coord_space_n::lemma_flat_len_bound_of(&self.slots);
    }

    /// Creates an empty space with all 11,172 slots empty.
    pub fn new() -> (r: Self)
        ensures
            r.wf(),
            r@ == Map::<Coord, V>::empty(),
    {
        let r = CoordSpace { slots: CoordSpaceN::new() };
        assert(r@ =~= Map::<Coord, V>::empty());
        r
    }

    /// The number of entries.
    pub fn len(&self) -> (r: usize)
        requires
            self.wf(),
        ensures
            r == self@.len(),
    {
        proof {
            self.slots.lemma_flat_len();
        }
        self.slots.len()
    }

    /// `true` when the space holds no entry.
    pub fn is_empty(&self) -> (r: bool)
        requires
            self.wf(),
        ensures
            r == (self@.len() == 0),
    {
        proof {
            self.slots.lemma_flat_len();
        }
        self.slots.is_empty()
    }

    /// The number of slots (always 11,172).
    pub fn capacity(&self) -> (r: usize)
        ensures
            r == 11172,
    {
        11172
    }

    /// The value at `coord`.
    pub fn at(&self, coord: &Coord) -> (r: Option<&V>)
        requires
            self.wf(),
        ensures
            r is Some <==> self@.contains_key(*coord),
            r matches Some(v) ==> *v == self@[*coord],
    {
        self.slots.at(coord)
    }

    /// A mutable reference to the value at `coord`.
    pub fn at_mut(&mut self, coord: &Coord) -> (r: Option<&mut V>)
        requires
            old(self).wf(),
        ensures
            r is Some <==> old(self)@.contains_key(*coord),
            r matches Some(v) ==> *v == old(self)@[*coord],
            r matches Some(v) ==> final(self).wf() && final(self)@ == old(self)@.insert(*coord, *final(v)),
            r is None ==> final(self).wf() && final(self)@ == old(self)@,
    {
        proof {
            lemma_flat_insert(self.slots@, *coord);
        }
        self.slots.at_mut(coord)
    }

    /// The coordinate and value at `coord`.
    pub fn get_entry(&self, coord: &Coord) -> (r: Option<(Coord, &V)>)
        requires
            self.wf(),
        ensures
            r is Some <==> self@.contains_key(*coord),
            r matches Some(e) ==> e.0 == *coord && *e.1 == self@[*coord],
    {
        match self.at(coord) {
            Some(v) => Some((*coord, v)),
            None => None,
        }
    }

    /// `true` when `coord` holds a value.
    pub fn occupied(&self, coord: &Coord) -> (r: bool)
        requires
            self.wf(),
        ensures
            r == self@.contains_key(*coord),
    {
        self.slots.occupied(coord)
    }

    /// The value at the single coordinate of `path`.
    pub fn at_path(&self, path: &CoordPath<1>) -> (r: Option<&V>)
        requires
            self.wf(),
        ensures
            r is Some <==> self@.contains_key(path@[0]),
            r matches Some(v) ==> *v == self@[path@[0]],
    {
        self.at(&path.coords()[0])
    }

    /// Stores `value` at `coord`, returning the value it replaced.
    pub fn place(&mut self, coord: Coord, value: V) -> (r: Option<V>)
        requires
            old(self).wf(),
        ensures
            final(self).wf(),
            final(self)@ == old(self)@.insert(coord, value),
            r == old(self)@.get(coord),
    {
        proof {
            lemma_flat_insert(self.slots@, coord);
        }
        self.slots.place(coord, value)
    }

    /// Stores `value` at the single coordinate of `path`.
    pub fn place_path(&mut self, path: &CoordPath<1>, value: V) -> (r: Option<V>)
        requires
            old(self).wf(),
        ensures
            final(self).wf(),
            final(self)@ == old(self)@.insert(path@[0], value),
            r == old(self)@.get(path@[0]),
    {
        self.place(path.coords()[0], value)
    }

    /// Removes the value at `coord`, returning it if there was one.
    pub fn vacate(&mut self, coord: &Coord) -> (r: Option<V>)
        requires
            old(self).wf(),
        ensures
            final(self).wf(),
            final(self)@ == old(self)@.remove(*coord),
            r == old(self)@.get(*coord),
    {
        proof {
            lemma_flat_remove(self.slots@, *coord);
        }
        self.slots.vacate(coord)
    }

    /// Removes the value at the single coordinate of `path`.
    pub fn vacate_path(&mut self, path: &CoordPath<1>) -> (r: Option<V>)
        requires
            old(self).wf(),
        ensures
            final(self).wf(),
            final(self)@ == old(self)@.remove(path@[0]),
            r == old(self)@.get(path@[0]),
    {
        self.vacate(&path.coords()[0])
    }

    /// Removes every entry.
    pub fn clear(&mut self)
        requires
            old(self).wf(),
        ensures
            final(self).wf(),
            final(self)@ == Map::<Coord, V>::empty(),
    {
        self.slots.clear();
        assert(self@ =~= Map::<Coord, V>::empty());
    }

    /// Iterates over the `(coordinate, value)` pairs in coordinate order.
    pub fn iter(&self) -> (r: FlatIter<'_, V>)
        requires
            self.wf(),
        ensures
            lists(self@, deref_pairs(r.remaining())),
    {
        self.slots.iter_flat()
    }

    /// Iterates over the occupied coordinates in order.
    pub fn coords(&self) -> (r: std::vec::IntoIter<Coord>)
        requires
            self.wf(),
        ensures
            exists|l: Seq<(Coord, V)>| lists(self@, l) && r.remaining() == keys_of(l),
    {
        self.slots.coords()
    }

    /// Iterates over the stored values in coordinate order.
    pub fn values(&self) -> (r: std::vec::IntoIter<&V>)
        requires
            self.wf(),
        ensures
            exists|l: Seq<(Coord, V)>|
                lists(self@, l) && r.remaining().map_values(|v: &V| *v) == values_of(l),
    {
        self.slots.values()
    }

    /// Iterates over the `(coordinate, value)` pairs in coordinate order,
    /// each value reachable for change; the space keeps its coordinates and
    /// takes whatever values the references hold when they are released.
    pub fn iter_mut(&mut self) -> (r: FlatIterMut<'_, V>)
        requires
            old(self).wf(),
        ensures
            lists(old(self)@, deref_mut_pairs(r.remaining())),
            final(self).wf(),
            final(self)@.dom() == old(self)@.dom(),
            forall|k: int| 0 <= k < r.remaining().len()
                ==> final(self)@[(#[trigger] r.remaining()[k]).0] == *final(r.remaining()[k].1),
    {
        let ghost self0 = self;
        let r = self.slots.iter_mut();
        proof {
            assert(final(self0)@.dom() =~= old(self)@.dom());
            assert forall|k: int| 0 <= k < r.remaining().len()
                implies final(self0)@[(#[trigger] r.remaining()[k]).0] == *final(r.remaining()[k].1) by {
                assert(deref_mut_pairs(r.remaining())[k].0 == r.remaining()[k].0);
            }
        }
        r
    }

    /// Iterates over the stored values in coordinate order, each reachable
    /// for change, as `iter_mut` does.
    pub fn values_mut(&mut self) -> (r: std::vec::IntoIter<&mut V>)
        requires
            old(self).wf(),
        ensures
            final(self).wf(),
            final(self)@.dom() == old(self)@.dom(),
            exists|l: Seq<(Coord, V)>|
                #![trigger lists(old(self)@, l)]
                lists(old(self)@, l) && r.remaining().len() == l.len()
                && forall|k: int| 0 <= k < l.len() ==> *r.remaining()[k] == (#[trigger] l[k]).1
                    && final(self)@[l[k].0] == *final(r.remaining()[k]),
    {
        let ghost self0 = self;
        let r = self.slots.values_mut();
        proof {
            assert(final(self0)@.dom() =~= old(self)@.dom());
        }
        r
    }

    /// Keeps the entries for which `f` returns `true`, visiting them in
    /// coordinate order; `f` may change a value it keeps.
    pub fn retain<F: FnMut(Coord, &mut V) -> bool>(&mut self, mut f: F)
        requires
            old(self).wf(),
            forall|c: Coord, v: &mut V| f.requires((c, v)),
        ensures
            final(self).wf(),
            forall|c: Coord| #[trigger] final(self)@.contains_key(c) ==> old(self)@.contains_key(c),
            forall|c: Coord| #[trigger] old(self)@.contains_key(c) ==> exists|v: &mut V, keep: bool|
                *v == old(self)@[c] && f.ensures((c, v), keep) && (keep <==> final(self)@.contains_key(c))
                    && (keep ==> final(self)@[c] == *final(v)),
    {
        self.slots.retain(f)
    }

    /// Removes every entry, yielding the removed pairs in coordinate order.
    pub fn drain(&mut self) -> (r: FlatDrain<V>)
        requires
            old(self).wf(),
        ensures
            final(self).wf(),
            final(self)@ == Map::<Coord, V>::empty(),
            lists(old(self)@, r.remaining()),
    {
        let r = self.slots.drain();
        assert(self@ =~= Map::<Coord, V>::empty());
        r
    }

    /// Consumes the space, yielding its pairs in coordinate order.
    pub fn into_iter(self) -> (r: FlatIntoIter<V>)
        requires
            self.wf(),
        ensures
            lists(self@, r.remaining()),
    {
        self.slots.into_pairs()
    }

    /// Builds a space from pairs; a later pair for the same coordinate
    /// replaces an earlier one.
    pub fn from_pairs(pairs: Vec<(Coord, V)>) -> (r: Self)
        ensures
            r.wf(),
            r@ == map_of_pairs(pairs@),
    {
        CoordSpace { slots: CoordSpaceN::from_pairs(pairs) }
    }
}

impl<V> Default for CoordSpace<V> {
    fn default() -> (r: Self)
        ensures
            r.wf(),
            r@ == Map::<Coord, V>::empty(),
    {
        CoordSpace::new()
    }
}

} // verus!

verus! {

/// A view into one coordinate of a space, occupied or vacant.
pub enum FlatEntry<'a, V> {
    Occupied(FlatOccupiedEntry<'a, V>),
    Vacant(FlatVacantEntry<'a, V>),
}

/// An entry whose coordinate holds a value.
pub struct FlatOccupiedEntry<'a, V> {
    /// The space the entry belongs to.
    pub map: &'a mut CoordSpace<V>,
    /// The entry's coordinate.
    pub coord: Coord,
}

/// An entry whose coordinate holds no value.
pub struct FlatVacantEntry<'a, V> {
    /// The space the entry belongs to.
    pub map: &'a mut CoordSpace<V>,
    /// The entry's coordinate.
    pub coord: Coord,
}

impl<V> CoordSpace<V> {
    /// The entry for `coord`, for in-place manipulation.
    pub fn entry(&mut self, coord: Coord) -> (r: FlatEntry<'_, V>)
        requires
            old(self).wf(),
        ensures
            r.valid(),
            r.coord_spec() == coord,
            r is Occupied <==> old(self)@.contains_key(coord),
            r matches FlatEntry::Occupied(e) ==> *e.map == *old(self) && *final(self) == *final(e.map),
            r matches FlatEntry::Vacant(e) ==> *e.map == *old(self) && *final(self) == *final(e.map),
    {
        if self.occupied(&coord) {
            FlatEntry::Occupied(FlatOccupiedEntry { map: self, coord })
        } else {
            FlatEntry::Vacant(FlatVacantEntry { map: self, coord })
        }
    }
}

impl<'a, V> FlatOccupiedEntry<'a, V> {
    /// The entry's coordinate.
    pub fn coord(&self) -> (r: Coord)
        ensures
            r == self.coord,
    {
        self.coord
    }

    /// The value at the entry's coordinate.
    pub fn at(&self) -> (r: &V)
        requires
            self.map.wf(),
            self.map@.contains_key(self.coord),
        ensures
            *r == old(self.map)@[self.coord],
    {
        match self.map.at(&self.coord) {
            Some(v) => v,
            None => vstd::pervasive::unreached(),
        }
    }

    /// A mutable reference to the entry's value; the map then holds
    /// whatever the reference holds when released.
    pub fn at_mut(&mut self) -> (r: &mut V)
        requires
            old(self).map.wf(),
            old(self).map@.contains_key(old(self).coord),
        ensures
            *r == old(self).map@[old(self).coord],
            final(self).coord == old(self).coord,
            final(self).map.wf(),
            final(self).map@ == old(self).map@.insert(old(self).coord, *final(r)),
    {
        match self.map.at_mut(&self.coord) {
            Some(v) => v,
            None => vstd::pervasive::unreached(),
        }
    }

    /// Replaces the entry's value, returning the old one.
    pub fn place(&mut self, value: V) -> (r: V)
        requires
            old(self).map.wf(),
            old(self).map@.contains_key(old(self).coord),
        ensures
            r == old(self).map@[old(self).coord],
            final(self).coord == old(self).coord,
            final(self).map.wf(),
            final(self).map@ == old(self).map@.insert(old(self).coord, value),
    {
        match self.map.place(self.coord, value) {
            Some(v) => v,
            None => vstd::pervasive::unreached(),
        }
    }

    /// Removes the entry, returning its value.
    pub fn remove_entry(self) -> (r: V)
        requires
            self.map.wf(),
            self.map@.contains_key(self.coord),
        ensures
            r == old(self.map)@[self.coord],
            final(self.map).wf(),
            final(self.map)@ == old(self.map)@.remove(self.coord),
    {
        match self.map.vacate(&self.coord) {
            Some(v) => v,
            None => vstd::pervasive::unreached(),
        }
    }
}

impl<'a, V> FlatVacantEntry<'a, V> {
    /// The entry's coordinate.
    pub fn key(&self) -> (r: Coord)
        ensures
            r == self.coord,
    {
        self.coord
    }

    /// Gives back the coordinate, leaving the space unchanged.
    pub fn into_key(self) -> (r: Coord)
        ensures
            r == self.coord,
            *final(self.map) == *old(self.map),
    {
        self.coord
    }

    /// Stores `value` at the entry's coordinate and returns a mutable
    /// reference to it.
    pub fn place(self, value: V) -> (r: &'a mut V)
        requires
            self.map.wf(),
        ensures
            *r == value,
            final(self.map).wf(),
            final(self.map)@ == old(self.map)@.insert(self.coord, *final(r)),
    {
        let ghost m0 = self.map@;
        proof {
            lemma_insert_twice(m0, self.coord, value);
        }
        self.map.place(self.coord, value);
        match self.map.at_mut(&self.coord) {
            Some(v) => v,
            None => vstd::pervasive::unreached(),
        }
    }
}

impl<'a, V> FlatEntry<'a, V> {
    /// The entry is consistent with its space: the space is well formed and
    /// the variant matches whether the coordinate holds a value.
    pub open spec fn valid(&self) -> bool {
        match self {
            FlatEntry::Occupied(e) => e.map.wf() && e.map@.contains_key(e.coord),
            FlatEntry::Vacant(e) => e.map.wf() && !e.map@.contains_key(e.coord),
        }
    }

    /// The entry's coordinate.
    pub open spec fn coord_spec(&self) -> Coord {
        match self {
            FlatEntry::Occupied(e) => e.coord,
            FlatEntry::Vacant(e) => e.coord,
        }
    }

    /// The entry's coordinate.
    pub fn key(&self) -> (r: Coord)
        ensures
            r == self.coord_spec(),
    {
        match self {
            FlatEntry::Occupied(e) => e.coord(),
            FlatEntry::Vacant(e) => e.key(),
        }
    }

    /// The value at the entry, storing `default` first when it is vacant.
    pub fn or_insert(self, default: V) -> (r: &'a mut V)
        requires
            self.valid(),
        ensures
            self matches FlatEntry::Occupied(e) ==> *r == e.map@[e.coord] && final(e.map).wf()
                && final(e.map)@ == e.map@.insert(e.coord, *final(r)),
            self matches FlatEntry::Vacant(e) ==> *r == default && final(e.map).wf()
                && final(e.map)@ == e.map@.insert(e.coord, *final(r)),
    {
        match self {
            FlatEntry::Occupied(e) => {
                let ghost m0 = e.map@;
                proof {
                    assert(m0.insert(e.coord, m0[e.coord]) =~= m0);
                }
                match e.map.at_mut(&e.coord) {
                    Some(v) => v,
                    None => vstd::pervasive::unreached(),
                }
            },
            FlatEntry::Vacant(e) => e.place(default),
        }
    }

    /// The value at the entry, storing the result of `f()` first when it is
    /// vacant.
    pub fn or_insert_with<F: FnOnce() -> V>(self, f: F) -> (r: &'a mut V)
        requires
            self.valid(),
            self is Vacant ==> f.requires(()),
        ensures
            self matches FlatEntry::Occupied(e) ==> *r == e.map@[e.coord] && final(e.map).wf()
                && final(e.map)@ == e.map@.insert(e.coord, *final(r)),
            self matches FlatEntry::Vacant(e) ==> f.ensures((), *r) && final(e.map).wf()
                && final(e.map)@ == e.map@.insert(e.coord, *final(r)),
    {
        match self {
            FlatEntry::Occupied(e) => {
                match e.map.at_mut(&e.coord) {
                    Some(v) => v,
                    None => vstd::pervasive::unreached(),
                }
            },
            FlatEntry::Vacant(e) => {
                let v = f();
                e.place(v)
            },
        }
    }

    /// The value at the entry, storing the result of `f(coord)` first when it
    /// is vacant.
    pub fn or_insert_with_key<F: FnOnce(Coord) -> V>(self, f: F) -> (r: &'a mut V)
        requires
            self.valid(),
            self is Vacant ==> f.requires((self.coord_spec(),)),
        ensures
            self matches FlatEntry::Occupied(e) ==> *r == e.map@[e.coord] && final(e.map).wf()
                && final(e.map)@ == e.map@.insert(e.coord, *final(r)),
            self matches FlatEntry::Vacant(e) ==> f.ensures((e.coord,), *r) && final(e.map).wf()
                && final(e.map)@ == e.map@.insert(e.coord, *final(r)),
    {
        match self {
            FlatEntry::Occupied(e) => {
                match e.map.at_mut(&e.coord) {
                    Some(v) => v,
                    None => vstd::pervasive::unreached(),
                }
            },
            FlatEntry::Vacant(e) => {
                let v = f(e.coord);
                e.place(v)
            },
        }
    }

    /// Applies `f` to the value of an occupied entry; a vacant entry is
    /// returned as it is.
    pub fn and_modify<F: FnOnce(&mut V)>(self, f: F) -> (r: Self)
        requires
            self.valid(),
            self is Occupied ==> forall|v: &mut V| f.requires((v,)),
        ensures
            r.valid(),
            r.coord_spec() == self.coord_spec(),
            self matches FlatEntry::Vacant(e) ==> r matches FlatEntry::Vacant(e2) && *e2.map == *e.map
                && *final(e2.map) == *final(e.map),
            self matches FlatEntry::Occupied(e) ==> r matches FlatEntry::Occupied(e2) && *final(e2.map)
                == *final(e.map) && exists|v: &mut V|
                *v == e.map@[e.coord] && f.ensures((v,), ()) && e2.map@ == e.map@.insert(
                    e.coord,
                    *final(v),
                ),
    {
        match self {
            FlatEntry::Occupied(e) => {
                let ghost m0 = e.map@;
                proof {
                    lemma_insert_twice(m0, e.coord, m0[e.coord]);
                }
                match e.map.at_mut(&e.coord) {
                    Some(v) => f(v),
                    None => vstd::pervasive::unreached(),
                }
                FlatEntry::Occupied(e)
            },
            FlatEntry::Vacant(e) => FlatEntry::Vacant(e),
        }
    }
}

} // verus!

verus! {

/// `a` and `b` have the same coordinates, and equal values (by `V`'s
/// equality) at each.
pub open spec fn same_flat_entries<V: PartialEq>(a: Map<Coord, V>, b: Map<Coord, V>) -> bool {
    &&& a.dom() == b.dom()
    &&& forall|c: Coord| #[trigger] a.contains_key(c) ==> a[c].eq_spec(&b[c])
}

impl<V: PartialEq> CoordSpace<V> {
    /// `true` when both spaces hold the same coordinates with equal values.
    pub fn eq(&self, other: &Self) -> (r: bool)
        requires
            self.wf(),
            other.wf(),
        ensures
            V::obeys_eq_spec() ==> r == same_flat_entries(self@, other@),
    {
        let r = self.slots.eq(&other.slots);
        proof {
            self.slots.lemma_keys();
            other.slots.lemma_keys();
            crate::coord_space_n::lemma_flat_keys(self.slots@);
            crate::coord_space_n::lemma_flat_keys(other.slots@);
            let a = self.slots@;
            let b = other.slots@;
            if V::obeys_eq_spec() {
                if crate::coord_space_n::same_entries(a, b) {
                    assert(self@.dom() =~= other@.dom());
                }
                if same_flat_entries(self@, other@) {
                    assert(a.dom() =~= b.dom()) by {
                        assert forall|p: Seq<Coord>| a.contains_key(p) <==> b.contains_key(p) by {
                            if a.contains_key(p) {
                                assert(self@.contains_key(p[0]));
                            }
                            if b.contains_key(p) {
                                assert(other@.contains_key(p[0]));
                            }
                        }
                    }
                    assert forall|p: Seq<Coord>| #[trigger] a.contains_key(p) implies a[p].eq_spec(&b[p]) by {
                        assert(self@.contains_key(p[0]));
                    }
                }
            }
        }
        r
    }
}

} // verus!

verus! {

impl<V: Clone> CoordSpace<V> {
    /// An independent copy of the space, with every value cloned.
    pub fn clone(&self) -> (r: Self)
        requires
            self.wf(),
        ensures
            r.wf(),
            r@.dom() == self@.dom(),
            forall|c: Coord| #[trigger] self@.contains_key(c) ==> cloned::<V>(self@[c], r@[c]),
    {
        let r = CoordSpace { slots: self.slots.clone() };
        assert(r@.dom() =~= self@.dom());
        r
    }
}

} // verus!

verus! {

impl<V> core::ops::Index<Coord> for CoordSpace<V> {
    type Output = V;

    /// The value stored at `coord`, which must be occupied.
    fn index(&self, coord: Coord) -> (r: &V)
        ensures
            *r == self@[coord],
    {
        self.at(&coord).unwrap()
    }
}

impl<V> vstd::std_specs::core::IndexSpecImpl<Coord> for CoordSpace<V> {
    open spec fn index_req(&self, index: &Coord) -> bool {
        self.wf() && self@.contains_key(*index)
    }
}

} // verus!
