//! `FlatMap<V>`: the map-flavoured interface (`get`, `insert`, `remove`,
//! ...) of a single-syllable coordinate space.
use vstd::prelude::*;
use crate::coord::Coord;
use crate::coord_path::CoordPath;
use crate::coord_space::{CoordSpace, FlatIter, FlatDrain, FlatIntoIter};
use crate::coord_space_n::lemma_insert_twice;
use crate::listing::{lists, deref_pairs, keys_of, values_of, map_of_pairs};
use vstd::std_specs::iter::IteratorSpec;
use vstd::std_specs::cmp::PartialEqSpec;

verus! {

/// A hash-less, collision-free map from `Coord` to `V` over 11,172 slots.
#[derive(Debug)]
pub struct FlatMap<V> {
    space: CoordSpace<V>,
}

impl<V> View for FlatMap<V> {
    type V = Map<Coord, V>;

    closed spec fn view(&self) -> Map<Coord, V> {
        self.space@
    }
}

impl<V> FlatMap<V> {
    /// The map is well formed.
    pub closed spec fn wf(&self) -> bool {
        self.space.wf()
    }

    /// Facts every well-formed map satisfies: finitely many entries, at
    /// valid coordinates.
    pub proof fn lemma_wf(&self)
        requires
            self.wf(),
        ensures
            self@.dom().finite(),
            self@.len() <= 11172,
            forall|c: Coord| #[trigger] self@.contains_key(c) ==> c.idx() < 11172,
    {
        self.space.lemma_wf();
    }

    /// Creates an empty map.
    pub fn new() -> (r: Self)
        ensures
            r.wf(),
            r@ == Map::<Coord, V>::empty(),
    {
        FlatMap { space: CoordSpace::new() }
    }

    /// The number of entries.
    pub fn len(&self) -> (r: usize)
        requires
            self.wf(),
        ensures
            r == self@.len(),
    {
        self.space.len()
    }

    /// `true` when the map holds no entry.
    pub fn is_empty(&self) -> (r: bool)
        requires
            self.wf(),
        ensures
            r == (self@.len() == 0),
    {
        self.space.is_empty()
    }

    /// The number of slots (always 11,172).
    pub fn capacity(&self) -> (r: usize)
        ensures
            r == 11172,
    {
        self.space.capacity()
    }

    /// The value at `coord`.
    pub fn get(&self, coord: Coord) -> (r: Option<&V>)
        requires
            self.wf(),
        ensures
            r is Some <==> self@.contains_key(coord),
            r matches Some(v) ==> *v == self@[coord],
    {
        self.space.at(&coord)
    }

    /// A mutable reference to the value at `coord`.
    pub fn get_mut(&mut self, coord: Coord) -> (r: Option<&mut V>)
        requires
            old(self).wf(),
        ensures
            r is Some <==> old(self)@.contains_key(coord),
            r matches Some(v) ==> *v == old(self)@[coord],
            r matches Some(v) ==> final(self).wf() && final(self)@ == old(self)@.insert(coord, *final(v)),
            r is None ==> final(self).wf() && final(self)@ == old(self)@,
    {
        self.space.at_mut(&coord)
    }

    /// `true` when `coord` holds a value.
    pub fn contains_key(&self, coord: Coord) -> (r: bool)
        requires
            self.wf(),
        ensures
            r == self@.contains_key(coord),
    {
        self.space.occupied(&coord)
    }

    /// The value at the single coordinate of `path`.
    pub fn get_path(&self, path: &CoordPath<1>) -> (r: Option<&V>)
        requires
            self.wf(),
        ensures
            r is Some <==> self@.contains_key(path@[0]),
            r matches Some(v) ==> *v == self@[path@[0]],
    {
        self.space.at_path(path)
    }

    /// Stores `value` at `coord`, returning the value it replaced.
    pub fn insert(&mut self, coord: Coord, value: V) -> (r: Option<V>)
        requires
            old(self).wf(),
        ensures
            final(self).wf(),
            final(self)@ == old(self)@.insert(coord, value),
            r == old(self)@.get(coord),
    {
        self.space.place(coord, value)
    }

    /// Stores `value` at the single coordinate of `path`.
    pub fn insert_path(&mut self, path: &CoordPath<1>, value: V) -> (r: Option<V>)
        requires
            old(self).wf(),
        ensures
            final(self).wf(),
            final(self)@ == old(self)@.insert(path@[0], value),
            r == old(self)@.get(path@[0]),
    {
        self.space.place_path(path, value)
    }

    /// Removes the value at `coord`, returning it if there was one.
    pub fn remove(&mut self, coord: Coord) -> (r: Option<V>)
        requires
            old(self).wf(),
        ensures
            final(self).wf(),
            final(self)@ == old(self)@.remove(coord),
            r == old(self)@.get(coord),
    {
        self.space.vacate(&coord)
    }

    /// Removes the value at the single coordinate of `path`.
    pub fn remove_path(&mut self, path: &CoordPath<1>) -> (r: Option<V>)
        requires
            old(self).wf(),
        ensures
            final(self).wf(),
            final(self)@ == old(self)@.remove(path@[0]),
            r == old(self)@.get(path@[0]),
    {
        self.space.vacate_path(path)
    }

    /// Removes every entry.
    pub fn clear(&mut self)
        requires
            old(self).wf(),
        ensures
            final(self).wf(),
            final(self)@ == Map::<Coord, V>::empty(),
    {
        self.space.clear()
    }

    /// Iterates over the `(coordinate, value)` pairs in coordinate order.
    pub fn iter(&self) -> (r: FlatIter<'_, V>)
        requires
            self.wf(),
        ensures
            lists(self@, deref_pairs(r.remaining())),
    {
        self.space.iter()
    }

    /// Iterates over the occupied coordinates in order.
    pub fn keys(&self) -> (r: std::vec::IntoIter<Coord>)
        requires
            self.wf(),
        ensures
            exists|l: Seq<(Coord, V)>| lists(self@, l) && r.remaining() == keys_of(l),
    {
        self.space.coords()
    }

    /// Iterates over the stored values in coordinate order.
    pub fn values(&self) -> (r: std::vec::IntoIter<&V>)
        requires
            self.wf(),
        ensures
            exists|l: Seq<(Coord, V)>|
                lists(self@, l) && r.remaining().map_values(|v: &V| *v) == values_of(l),
    {
        self.space.values()
    }

    /// Keeps the entries for which `f` returns `true`, visiting them in
    /// coordinate order; `f` may change a value it keeps.
    pub fn retain<F: FnMut(Coord, &mut V) -> bool>(&mut self, mut f: F)
        requires
            old(self).wf(),
            forall|c: Coord, v: &mut V| f.requires((c, v)),
        ensures
            final(self).wf(),
            forall|c: Coord| #[trigger] final(self)@.contains_key(c) ==> old(self)@.contains_key(c),
            forall|c: Coord| #[trigger] old(self)@.contains_key(c) ==> exists|v: &mut V, keep: bool|
                *v == old(self)@[c] && f.ensures((c, v), keep) && (keep <==> final(self)@.contains_key(c))
                    && (keep ==> final(self)@[c] == *final(v)),
    {
        self.space.retain(f)
    }

    /// Removes every entry, yielding the removed pairs in coordinate order.
    pub fn drain(&mut self) -> (r: FlatDrain<V>)
        requires
            old(self).wf(),
        ensures
            final(self).wf(),
            final(self)@ == Map::<Coord, V>::empty(),
            lists(old(self)@, r.remaining()),
    {
        self.space.drain()
    }

    /// Consumes the map, yielding its pairs in coordinate order.
    pub fn into_iter(self) -> (r: FlatIntoIter<V>)
        requires
            self.wf(),
        ensures
            lists(self@, r.remaining()),
    {
        self.space.into_iter()
    }

    /// Builds a map from pairs; a later pair for the same coordinate
    /// replaces an earlier one.
    pub fn from_pairs(pairs: Vec<(Coord, V)>) -> (r: Self)
        ensures
            r.wf(),
            r@ == map_of_pairs(pairs@),
    {
        FlatMap { space: CoordSpace::from_pairs(pairs) }
    }
}

impl<V> Default for FlatMap<V> {
    fn default() -> (r: Self)
        ensures
            r.wf(),
            r@ == Map::<Coord, V>::empty(),
    {
        FlatMap::new()
    }
}

} // verus!

verus! {

/// A view into one coordinate of a map, occupied or vacant.
pub enum FlatEntry<'a, V> {
    Occupied(FlatOccupiedEntry<'a, V>),
    Vacant(FlatVacantEntry<'a, V>),
}

/// An entry whose coordinate holds a value.
pub struct FlatOccupiedEntry<'a, V> {
    /// The map the entry belongs to.
    pub map: &'a mut FlatMap<V>,
    /// The entry's key.
    pub key: Coord,
}

/// An entry whose coordinate holds no value.
pub struct FlatVacantEntry<'a, V> {
    /// The map the entry belongs to.
    pub map: &'a mut FlatMap<V>,
    /// The entry's key.
    pub key: Coord,
}

impl<V> FlatMap<V> {
    /// The entry for `coord`, for in-place manipulation.
    pub fn entry(&mut self, coord: Coord) -> (r: FlatEntry<'_, V>)
        requires
            old(self).wf(),
        ensures
            r.valid(),
            r.key_spec() == coord,
            r is Occupied <==> old(self)@.contains_key(coord),
            r matches FlatEntry::Occupied(e) ==> *e.map == *old(self) && *final(self) == *final(e.map),
            r matches FlatEntry::Vacant(e) ==> *e.map == *old(self) && *final(self) == *final(e.map),
    {
        if self.contains_key(coord) {
            FlatEntry::Occupied(FlatOccupiedEntry { map: self, key: coord })
        } else {
            FlatEntry::Vacant(FlatVacantEntry { map: self, key: coord })
        }
    }
}

impl<'a, V> FlatOccupiedEntry<'a, V> {
    /// The entry's key.
    pub fn key(&self) -> (r: Coord)
        ensures
            r == self.key,
    {
        self.key
    }

    /// The value at the entry's key.
    pub fn get(&self) -> (r: &V)
        requires
            self.map.wf(),
            self.map@.contains_key(self.key),
        ensures
            *r == old(self.map)@[self.key],
    {
        match self.map.get(self.key) {
            Some(v) => v,
            None => vstd::pervasive::unreached(),
        }
    }

    /// A mutable reference to the entry's value; the map then holds
    /// whatever the reference holds when released.
    pub fn get_mut(&mut self) -> (r: &mut V)
        requires
            old(self).map.wf(),
            old(self).map@.contains_key(old(self).key),
        ensures
            *r == old(self).map@[old(self).key],
            final(self).key == old(self).key,
            final(self).map.wf(),
            final(self).map@ == old(self).map@.insert(old(self).key, *final(r)),
    {
        match self.map.get_mut(self.key) {
            Some(v) => v,
            None => vstd::pervasive::unreached(),
        }
    }

    /// Replaces the entry's value, returning the old one.
    pub fn insert(&mut self, value: V) -> (r: V)
        requires
            old(self).map.wf(),
            old(self).map@.contains_key(old(self).key),
        ensures
            r == old(self).map@[old(self).key],
            final(self).key == old(self).key,
            final(self).map.wf(),
            final(self).map@ == old(self).map@.insert(old(self).key, value),
    {
        match self.map.insert(self.key, value) {
            Some(v) => v,
            None => vstd::pervasive::unreached(),
        }
    }

    /// Removes the entry, returning its value.
    pub fn remove_entry(self) -> (r: V)
        requires
            self.map.wf(),
            self.map@.contains_key(self.key),
        ensures
            r == old(self.map)@[self.key],
            final(self.map).wf(),
            final(self.map)@ == old(self.map)@.remove(self.key),
    {
        match self.map.remove(self.key) {
            Some(v) => v,
            None => vstd::pervasive::unreached(),
        }
    }
}

impl<'a, V> FlatVacantEntry<'a, V> {
    /// The entry's key.
    pub fn key(&self) -> (r: Coord)
        ensures
            r == self.key,
    {
        self.key
    }

    /// Gives back the coordinate, leaving the map unchanged.
    pub fn into_key(self) -> (r: Coord)
        ensures
            r == self.key,
            *final(self.map) == *old(self.map),
    {
        self.key
    }

    /// Stores `value` at the entry's key and returns a mutable
    /// reference to it.
    pub fn insert(self, value: V) -> (r: &'a mut V)
        requires
            self.map.wf(),
        ensures
            *r == value,
            final(self.map).wf(),
            final(self.map)@ == old(self.map)@.insert(self.key, *final(r)),
    {
        let ghost m0 = self.map@;
        proof {
            lemma_insert_twice(m0, self.key, value);
        }
        self.map.insert(self.key, value);
        match self.map.get_mut(self.key) {
            Some(v) => v,
            None => vstd::pervasive::unreached(),
        }
    }
}

impl<'a, V> FlatEntry<'a, V> {
    /// The entry is consistent with its space: the map is well formed and
    /// the variant matches whether the coordinate holds a value.
    pub open spec fn valid(&self) -> bool {
        match self {
            FlatEntry::Occupied(e) => e.map.wf() && e.map@.contains_key(e.key),
            FlatEntry::Vacant(e) => e.map.wf() && !e.map@.contains_key(e.key),
        }
    }

    /// The entry's key.
    pub open spec fn key_spec(&self) -> Coord {
        match self {
            FlatEntry::Occupied(e) => e.key,
            FlatEntry::Vacant(e) => e.key,
        }
    }

    /// The entry's key.
    pub fn key(&self) -> (r: Coord)
        ensures
            r == self.key_spec(),
    {
        match self {
            FlatEntry::Occupied(e) => e.key(),
            FlatEntry::Vacant(e) => e.key(),
        }
    }

    /// The value at the entry, storing `default` first when it is vacant.
    pub fn or_insert(self, default: V) -> (r: &'a mut V)
        requires
            self.valid(),
        ensures
            self matches FlatEntry::Occupied(e) ==> *r == e.map@[e.key] && final(e.map).wf()
                && final(e.map)@ == e.map@.insert(e.key, *final(r)),
            self matches FlatEntry::Vacant(e) ==> *r == default && final(e.map).wf()
                && final(e.map)@ == e.map@.insert(e.key, *final(r)),
    {
        match self {
            FlatEntry::Occupied(e) => {
                let ghost m0 = e.map@;
                proof {
                    assert(m0.insert(e.key, m0[e.key]) =~= m0);
                }
                match e.map.get_mut(e.key) {
                    Some(v) => v,
                    None => vstd::pervasive::unreached(),
                }
            },
            FlatEntry::Vacant(e) => e.insert(default),
        }
    }

    /// The value at the entry, storing the result of `f()` first when it is
    /// vacant.
    pub fn or_insert_with<F: FnOnce() -> V>(self, f: F) -> (r: &'a mut V)
        requires
            self.valid(),
            self is Vacant ==> f.requires(()),
        ensures
            self matches FlatEntry::Occupied(e) ==> *r == e.map@[e.key] && final(e.map).wf()
                && final(e.map)@ == e.map@.insert(e.key, *final(r)),
            self matches FlatEntry::Vacant(e) ==> f.ensures((), *r) && final(e.map).wf()
                && final(e.map)@ == e.map@.insert(e.key, *final(r)),
    {
        match self {
            FlatEntry::Occupied(e) => {
                match e.map.get_mut(e.key) {
                    Some(v) => v,
                    None => vstd::pervasive::unreached(),
                }
            },
            FlatEntry::Vacant(e) => {
                let v = f();
                e.insert(v)
            },
        }
    }

    /// The value at the entry, storing the result of `f(coord)` first when it
    /// is vacant.
    pub fn or_insert_with_key<F: FnOnce(Coord) -> V>(self, f: F) -> (r: &'a mut V)
        requires
            self.valid(),
            self is Vacant ==> f.requires((self.key_spec(),)),
        ensures
            self matches FlatEntry::Occupied(e) ==> *r == e.map@[e.key] && final(e.map).wf()
                && final(e.map)@ == e.map@.insert(e.key, *final(r)),
            self matches FlatEntry::Vacant(e) ==> f.ensures((e.key,), *r) && final(e.map).wf()
                && final(e.map)@ == e.map@.insert(e.key, *final(r)),
    {
        match self {
            FlatEntry::Occupied(e) => {
                match e.map.get_mut(e.key) {
                    Some(v) => v,
                    None => vstd::pervasive::unreached(),
                }
            },
            FlatEntry::Vacant(e) => {
                let v = f(e.key);
                e.insert(v)
            },
        }
    }

    /// Applies `f` to the value of an occupied entry; a vacant entry is
    /// returned as it is.
    pub fn and_modify<F: FnOnce(&mut V)>(self, f: F) -> (r: Self)
        requires
            self.valid(),
            self is Occupied ==> forall|v: &mut V| f.requires((v,)),
        ensures
            r.valid(),
            r.key_spec() == self.key_spec(),
            self matches FlatEntry::Vacant(e) ==> r matches FlatEntry::Vacant(e2) && *e2.map == *e.map
                && *final(e2.map) == *final(e.map),
            self matches FlatEntry::Occupied(e) ==> r matches FlatEntry::Occupied(e2) && *final(e2.map)
                == *final(e.map) && exists|v: &mut V|
                *v == e.map@[e.key] && f.ensures((v,), ()) && e2.map@ == e.map@.insert(
                    e.key,
                    *final(v),
                ),
    {
        match self {
            FlatEntry::Occupied(e) => {
                let ghost m0 = e.map@;
                proof {
                    lemma_insert_twice(m0, e.key, m0[e.key]);
                }
                match e.map.get_mut(e.key) {
                    Some(v) => f(v),
                    None => vstd::pervasive::unreached(),
                }
                FlatEntry::Occupied(e)
            },
            FlatEntry::Vacant(e) => FlatEntry::Vacant(e),
        }
    }
}

} // verus!

verus! {

impl<V: PartialEq> FlatMap<V> {
    /// `true` when both maps hold the same coordinates with equal values.
    pub fn eq(&self, other: &Self) -> (r: bool)
        requires
            self.wf(),
            other.wf(),
        ensures
            V::obeys_eq_spec() ==> r == crate::coord_space::same_flat_entries(self@, other@),
    {
        self.space.eq(&other.space)
    }
}

} // verus!

verus! {

impl<V: Clone> FlatMap<V> {
    /// An independent copy of the map, with every value cloned.
    pub fn clone(&self) -> (r: Self)
        requires
            self.wf(),
        ensures
            r.wf(),
            r@.dom() == self@.dom(),
            forall|c: Coord| #[trigger] self@.contains_key(c) ==> cloned::<V>(self@[c], r@[c]),
    {
        FlatMap { space: self.space.clone() }
    }
}

} // verus!

verus! {

impl<V> core::ops::Index<Coord> for FlatMap<V> {
    type Output = V;

    /// The value stored at `coord`, which must be occupied.
    fn index(&self, coord: Coord) -> (r: &V)
        ensures
            *r == self@[coord],
    {
        self.get(coord).unwrap()
    }
}

impl<V> vstd::std_specs::core::IndexSpecImpl<Coord> for FlatMap<V> {
    open spec fn index_req(&self, index: &Coord) -> bool {
        self.wf() && self@.contains_key(*index)
    }
}

} // verus!
