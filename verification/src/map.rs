//! `CoordTreeMap<N, V>`: the map-flavoured interface (`get`, `insert`,
//! `remove`, ...) of an `N`-level coordinate space.
use vstd::prelude::*;
use crate::coord::Coord;
use crate::coord_path::CoordPath;
use crate::coord_space_n::{CoordSpaceN, flat_of, deref_mut_pairs, lemma_insert_twice, tree_items};
use crate::listing::{lists, lists_paths, in_path_order, deref_pairs, keys_of, values_of, map_of_pairs};
use crate::text::spec_decimal;
use vstd::std_specs::iter::IteratorSpec;
use vstd::std_specs::cmp::PartialEqSpec;

verus! {

/// An iterator over `(coordinate, value)` pairs in coordinate order.
pub type Iter<'a, V> = crate::coord_space_n::Iter<'a, V>;

/// An iterator over removed `(coordinate, value)` pairs in coordinate order.
pub type Drain<V> = crate::coord_space_n::Drain<V>;

/// An iterator over `(coordinate, mutable value)` pairs of a one-level map.
pub type IterMut<'a, V> = crate::coord_space_n::IterMut<'a, V>;

/// An iterator over `(path, value)` pairs.
pub type TreeIter<'a, const N: usize, V> = crate::coord_space_n::TreeIter<'a, N, V>;

/// A hash-less, collision-free, `N`-level map keyed by `CoordPath<N>`
/// (and, for `N == 1`, by a single `Coord`).
#[derive(Debug)]
pub struct CoordTreeMap<const N: usize, V> {
    space: CoordSpaceN<N, V>,
}

impl<const N: usize, V> View for CoordTreeMap<N, V> {
    type V = Map<Seq<Coord>, V>;

    closed spec fn view(&self) -> Map<Seq<Coord>, V> {
        self.space@
    }
}

impl<const N: usize, V> CoordTreeMap<N, V> {
    /// The map is well formed.
    pub closed spec fn wf(&self) -> bool {
        self.space.wf()
    }

    /// Creates an empty map; the depth `N` must be at least 1.
    pub fn new() -> (r: Self)
        requires
            N > 0,
        ensures
            r.wf(),
            r@ == Map::<Seq<Coord>, V>::empty(),
    {
        CoordTreeMap { space: CoordSpaceN::new() }
    }

    /// The number of entries.
    pub fn len(&self) -> (r: usize)
        requires
            self.wf(),
        ensures
            r == self@.len(),
    {
        self.space.len()
    }

    /// `true` when the map holds no entry.
    pub fn is_empty(&self) -> (r: bool)
        requires
            self.wf(),
        ensures
            r == (self@.len() == 0),
    {
        self.space.is_empty()
    }

    /// 11,172 for `N == 1`; `None` for deeper maps, which grow on demand.
    pub fn capacity(&self) -> (r: Option<usize>)
        ensures
            r == (if N == 1 { Some(11172usize) } else { None::<usize> }),
    {
        self.space.capacity()
    }

    /// The value stored under `path`.
    pub fn get_path(&self, path: &CoordPath<N>) -> (r: Option<&V>)
        requires
            self.wf(),
        ensures
            r is Some <==> self@.contains_key(path@),
            r matches Some(v) ==> *v == self@[path@],
    {
        self.space.at_path(path)
    }

    /// Stores `value` under `path`, returning the value it replaced.
    pub fn insert_path(&mut self, path: &CoordPath<N>, value: V) -> (r: Option<V>)
        requires
            old(self).wf(),
            old(self)@.len() < usize::MAX,
        ensures
            final(self).wf(),
            final(self)@ == old(self)@.insert(path@, value),
            r == old(self)@.get(path@),
    {
        self.space.place_path(path, value)
    }

    /// Removes the value under `path`, returning it if there was one.
    pub fn remove_path(&mut self, path: &CoordPath<N>) -> (r: Option<V>)
        requires
            old(self).wf(),
        ensures
            final(self).wf(),
            final(self)@ == old(self)@.remove(path@),
            r == old(self)@.get(path@),
    {
        self.space.vacate_path(path)
    }

    /// A mutable reference to the value stored under `path`.
    pub fn get_path_mut(&mut self, path: &CoordPath<N>) -> (r: Option<&mut V>)
        requires
            old(self).wf(),
        ensures
            r is Some <==> old(self)@.contains_key(path@),
            r matches Some(v) ==> *v == old(self)@[path@],
            r matches Some(v) ==> final(self).wf() && final(self)@ == old(self)@.insert(path@, *final(v)),
            r is None ==> final(self).wf() && final(self)@ == old(self)@,
    {
        self.space.at_path_mut(path)
    }

    /// A well-formed map has finitely many entries.
    pub proof fn lemma_finite(&self)
        requires
            self.wf(),
        ensures
            self@.dom().finite(),
    {
        self.space.lemma_finite();
    }

    /// Every `(path, value)` pair, each exactly once, in depth-first,
    /// coordinate-ascending order.
    pub fn tree_entries(&self) -> (out: Vec<(CoordPath<N>, &V)>)
        requires
            self.wf(),
        ensures
            lists_paths(self@, tree_items(out@)),
            in_path_order(tree_items(out@)),
    {
        self.space.tree_entries()
    }

    /// Iterates over every `(path, value)` pair, each exactly once, in
    /// depth-first, coordinate-ascending order.
    pub fn iter_tree(&self) -> (r: TreeIter<'_, N, V>)
        requires
            self.wf(),
        ensures
            lists_paths(self@, tree_items(r.remaining())),
            in_path_order(tree_items(r.remaining())),
    {
        self.space.iter_tree()
    }

    /// Removes every entry, keeping the allocated tree.
    pub fn clear(&mut self)
        requires
            old(self).wf(),
        ensures
            final(self).wf(),
            final(self)@ == Map::<Seq<Coord>, V>::empty(),
    {
        self.space.clear()
    }
}

impl<V> CoordTreeMap<1, V> {
    /// The value stored under `coord`.
    pub fn get(&self, coord: &Coord) -> (r: Option<&V>)
        requires
            self.wf(),
        ensures
            r is Some <==> self@.contains_key(seq![*coord]),
            r matches Some(v) ==> *v == self@[seq![*coord]],
    {
        self.space.at(coord)
    }

    /// A mutable reference to the value stored under `coord`.
    pub fn get_mut(&mut self, coord: &Coord) -> (r: Option<&mut V>)
        requires
            old(self).wf(),
        ensures
            r is Some <==> old(self)@.contains_key(seq![*coord]),
            r matches Some(v) ==> *v == old(self)@[seq![*coord]],
            r matches Some(v) ==> final(self).wf() && final(self)@ == old(self)@.insert(
                seq![*coord],
                *final(v),
            ),
            r is None ==> final(self).wf() && final(self)@ == old(self)@,
    {
        self.space.at_mut(coord)
    }

    /// `true` when `coord` holds a value.
    pub fn contains_key(&self, coord: &Coord) -> (r: bool)
        requires
            self.wf(),
        ensures
            r == self@.contains_key(seq![*coord]),
    {
        self.space.occupied(coord)
    }

    /// Stores `value` under `coord`, returning the value it replaced.
    pub fn insert(&mut self, coord: Coord, value: V) -> (r: Option<V>)
        requires
            old(self).wf(),
        ensures
            final(self).wf(),
            final(self)@ == old(self)@.insert(seq![coord], value),
            r == old(self)@.get(seq![coord]),
    {
        self.space.place(coord, value)
    }

    /// Removes the value under `coord`, returning it if there was one.
    pub fn remove(&mut self, coord: &Coord) -> (r: Option<V>)
        requires
            old(self).wf(),
        ensures
            final(self).wf(),
            final(self)@ == old(self)@.remove(seq![*coord]),
            r == old(self)@.get(seq![*coord]),
    {
        self.space.vacate(coord)
    }

    /// Iterates over the `(coordinate, value)` pairs in coordinate order.
    pub fn iter_flat(&self) -> (r: Iter<'_, V>)
        requires
            self.wf(),
        ensures
            lists(flat_of(self@), deref_pairs(r.remaining())),
    {
        self.space.iter_flat()
    }

    /// Iterates over the occupied coordinates in order.
    pub fn keys(&self) -> (r: std::vec::IntoIter<Coord>)
        requires
            self.wf(),
        ensures
            exists|l: Seq<(Coord, V)>| lists(flat_of(self@), l) && r.remaining() == keys_of(l),
    {
        self.space.coords()
    }

    /// Iterates over the stored values in coordinate order.
    pub fn values(&self) -> (r: std::vec::IntoIter<&V>)
        requires
            self.wf(),
        ensures
            exists|l: Seq<(Coord, V)>|
                lists(flat_of(self@), l) && r.remaining().map_values(|v: &V| *v) == values_of(l),
    {
        self.space.values()
    }

    /// Iterates over the `(coordinate, value)` pairs in coordinate order,
    /// each value reachable for change; the map keeps its coordinates and
    /// takes whatever values the references hold when they are released.
    pub fn iter_mut(&mut self) -> (r: IterMut<'_, V>)
        requires
            old(self).wf(),
        ensures
            lists(flat_of(old(self)@), deref_mut_pairs(r.remaining())),
            final(self).wf(),
            final(self)@.dom() == old(self)@.dom(),
            forall|k: int| 0 <= k < r.remaining().len()
                ==> final(self)@[seq![(#[trigger] r.remaining()[k]).0]] == *final(r.remaining()[k].1),
    {
        self.space.iter_mut()
    }

    /// Iterates over the stored values in coordinate order, each reachable
    /// for change, as `iter_mut` does.
    pub fn values_mut(&mut self) -> (r: std::vec::IntoIter<&mut V>)
        requires
            old(self).wf(),
        ensures
            final(self).wf(),
            final(self)@.dom() == old(self)@.dom(),
            exists|l: Seq<(Coord, V)>|
                #![trigger lists(flat_of(old(self)@), l)]
                lists(flat_of(old(self)@), l) && r.remaining().len() == l.len()
                && forall|k: int| 0 <= k < l.len() ==> *r.remaining()[k] == (#[trigger] l[k]).1
                    && final(self)@[seq![l[k].0]] == *final(r.remaining()[k]),
    {
        self.space.values_mut()
    }

    /// Keeps the entries for which `f` returns `true`, visiting them in
    /// coordinate order; `f` may change a value it keeps.
    pub fn retain<F: FnMut(Coord, &mut V) -> bool>(&mut self, mut f: F)
        requires
            old(self).wf(),
            forall|c: Coord, v: &mut V| f.requires((c, v)),
        ensures
            final(self).wf(),
            forall|c: Coord| #[trigger] flat_of(final(self)@).contains_key(c) ==> flat_of(old(self)@).contains_key(c),
            forall|c: Coord| #[trigger] flat_of(old(self)@).contains_key(c) ==> exists|v: &mut V, keep: bool|
                *v == flat_of(old(self)@)[c] && f.ensures((c, v), keep) && (keep <==> flat_of(final(self)@).contains_key(c))
                    && (keep ==> flat_of(final(self)@)[c] == *final(v)),
    {
        self.space.retain(f)
    }

    /// Removes every entry, yielding the removed pairs in coordinate order.
    pub fn drain(&mut self) -> (r: Drain<V>)
        requires
            old(self).wf(),
        ensures
            final(self).wf(),
            final(self)@ == Map::<Seq<Coord>, V>::empty(),
            lists(flat_of(old(self)@), r.remaining()),
    {
        self.space.drain()
    }

    /// Consumes the map, yielding its pairs in coordinate order.
    pub fn into_iter(self) -> (r: Drain<V>)
        requires
            self.wf(),
        ensures
            lists(flat_of(self@), r.remaining()),
    {
        self.space.into_pairs()
    }

    /// Builds a one-level map from pairs; a later pair for the same
    /// coordinate replaces an earlier one.
    pub fn from_pairs(pairs: Vec<(Coord, V)>) -> (r: Self)
        ensures
            r.wf(),
            flat_of(r@) == map_of_pairs(pairs@),
    {
        CoordTreeMap { space: CoordSpaceN::from_pairs(pairs) }
    }
}

impl<const N: usize, V> Default for CoordTreeMap<N, V> {
    /// An empty map. A depth of 0 gives a map that is not well formed,
    /// which no operation accepts.
    fn default() -> (r: Self)
        ensures
            N > 0 ==> r.wf() && r@ == Map::<Seq<Coord>, V>::empty(),
    {
        CoordTreeMap { space: CoordSpaceN::default() }
    }
}

} // verus!

verus! {

/// A view into one coordinate of a one-level map, occupied or vacant.
pub enum Entry<'a, V> {
    Occupied(OccupiedEntry<'a, V>),
    Vacant(VacantEntry<'a, V>),
}

/// An entry whose coordinate holds a value.
pub struct OccupiedEntry<'a, V> {
    /// The map the entry belongs to.
    pub map: &'a mut CoordTreeMap<1, V>,
    /// The entry's key.
    pub key: Coord,
}

/// An entry whose coordinate holds no value.
pub struct VacantEntry<'a, V> {
    /// The map the entry belongs to.
    pub map: &'a mut CoordTreeMap<1, V>,
    /// The entry's key.
    pub key: Coord,
}

impl<V> CoordTreeMap<1, V> {
    /// The entry for `coord`, for in-place manipulation.
    pub fn entry(&mut self, coord: Coord) -> (r: Entry<'_, V>)
        requires
            old(self).wf(),
        ensures
            r.valid(),
            r.key_spec() == coord,
            r is Occupied <==> old(self)@.contains_key(seq![coord]),
            r matches Entry::Occupied(e) ==> *e.map == *old(self) && *final(self) == *final(e.map),
            r matches Entry::Vacant(e) ==> *e.map == *old(self) && *final(self) == *final(e.map),
    {
        if self.contains_key(&coord) {
            Entry::Occupied(OccupiedEntry { map: self, key: coord })
        } else {
            Entry::Vacant(VacantEntry { map: self, key: coord })
        }
    }
}

impl<'a, V> OccupiedEntry<'a, V> {
    /// The entry's key.
    pub fn key(&self) -> (r: Coord)
        ensures
            r == self.key,
    {
        self.key
    }

    /// The value at the entry's key.
    pub fn get(&self) -> (r: &V)
        requires
            self.map.wf(),
            self.map@.contains_key(seq![self.key]),
        ensures
            *r == old(self.map)@[seq![self.key]],
    {
        match self.map.get(&self.key) {
            Some(v) => v,
            None => vstd::pervasive::unreached(),
        }
    }

    /// A mutable reference to the entry's value; the map then holds
    /// whatever the reference holds when released.
    pub fn get_mut(&mut self) -> (r: &mut V)
        requires
            old(self).map.wf(),
            old(self).map@.contains_key(seq![old(self).key]),
        ensures
            *r == old(self).map@[seq![old(self).key]],
            final(self).key == old(self).key,
            final(self).map.wf(),
            final(self).map@ == old(self).map@.insert(seq![old(self).key], *final(r)),
    {
        match self.map.get_mut(&self.key) {
            Some(v) => v,
            None => vstd::pervasive::unreached(),
        }
    }

    /// Replaces the entry's value, returning the old one.
    pub fn insert(&mut self, value: V) -> (r: V)
        requires
            old(self).map.wf(),
            old(self).map@.contains_key(seq![old(self).key]),
        ensures
            r == old(self).map@[seq![old(self).key]],
            final(self).key == old(self).key,
            final(self).map.wf(),
            final(self).map@ == old(self).map@.insert(seq![old(self).key], value),
    {
        match self.map.insert(self.key, value) {
            Some(v) => v,
            None => vstd::pervasive::unreached(),
        }
    }

    /// Removes the entry, returning its value.
    pub fn remove_entry(self) -> (r: V)
        requires
            self.map.wf(),
            self.map@.contains_key(seq![self.key]),
        ensures
            r == old(self.map)@[seq![self.key]],
            final(self.map).wf(),
            final(self.map)@ == old(self.map)@.remove(seq![self.key]),
    {
        match self.map.remove(&self.key) {
            Some(v) => v,
            None => vstd::pervasive::unreached(),
        }
    }
}

impl<'a, V> VacantEntry<'a, V> {
    /// The entry's key.
    pub fn key(&self) -> (r: Coord)
        ensures
            r == self.key,
    {
        self.key
    }

    /// Gives back the coordinate, leaving the map unchanged.
    pub fn into_key(self) -> (r: Coord)
        ensures
            r == self.key,
            *final(self.map) == *old(self.map),
    {
        self.key
    }

    /// Stores `value` at the entry's key and returns a mutable
    /// reference to it.
    pub fn insert(self, value: V) -> (r: &'a mut V)
        requires
            self.map.wf(),
        ensures
            *r == value,
            final(self.map).wf(),
            final(self.map)@ == old(self.map)@.insert(seq![self.key], *final(r)),
    {
        let ghost m0 = self.map@;
        proof {
            lemma_insert_twice(m0, seq![self.key], value);
        }
        self.map.insert(self.key, value);
        match self.map.get_mut(&self.key) {
            Some(v) => v,
            None => vstd::pervasive::unreached(),
        }
    }
}

impl<'a, V> Entry<'a, V> {
    /// The entry is consistent with its space: the map is well formed and
    /// the variant matches whether the coordinate holds a value.
    pub open spec fn valid(&self) -> bool {
        match self {
            Entry::Occupied(e) => e.map.wf() && e.map@.contains_key(seq![e.key]),
            Entry::Vacant(e) => e.map.wf() && !e.map@.contains_key(seq![e.key]),
        }
    }

    /// The entry's key.
    pub open spec fn key_spec(&self) -> Coord {
        match self {
            Entry::Occupied(e) => e.key,
            Entry::Vacant(e) => e.key,
        }
    }

    /// The entry's key.
    pub fn key(&self) -> (r: Coord)
        ensures
            r == self.key_spec(),
    {
        match self {
            Entry::Occupied(e) => e.key(),
            Entry::Vacant(e) => e.key(),
        }
    }

    /// The value at the entry, storing `default` first when it is vacant.
    pub fn or_insert(self, default: V) -> (r: &'a mut V)
        requires
            self.valid(),
        ensures
            self matches Entry::Occupied(e) ==> *r == e.map@[seq![e.key]] && final(e.map).wf()
                && final(e.map)@ == e.map@.insert(seq![e.key], *final(r)),
            self matches Entry::Vacant(e) ==> *r == default && final(e.map).wf()
                && final(e.map)@ == e.map@.insert(seq![e.key], *final(r)),
    {
        match self {
            Entry::Occupied(e) => {
                let ghost m0 = e.map@;
                proof {
                    assert(m0.insert(seq![e.key], m0[seq![e.key]]) =~= m0);
                }
                match e.map.get_mut(&e.key) {
                    Some(v) => v,
                    None => vstd::pervasive::unreached(),
                }
            },
            Entry::Vacant(e) => e.insert(default),
        }
    }

    /// The value at the entry, storing the result of `f()` first when it is
    /// vacant.
    pub fn or_insert_with<F: FnOnce() -> V>(self, f: F) -> (r: &'a mut V)
        requires
            self.valid(),
            self is Vacant ==> f.requires(()),
        ensures
            self matches Entry::Occupied(e) ==> *r == e.map@[seq![e.key]] && final(e.map).wf()
                && final(e.map)@ == e.map@.insert(seq![e.key], *final(r)),
            self matches Entry::Vacant(e) ==> f.ensures((), *r) && final(e.map).wf()
                && final(e.map)@ == e.map@.insert(seq![e.key], *final(r)),
    {
        match self {
            Entry::Occupied(e) => {
                match e.map.get_mut(&e.key) {
                    Some(v) => v,
                    None => vstd::pervasive::unreached(),
                }
            },
            Entry::Vacant(e) => {
                let v = f();
                e.insert(v)
            },
        }
    }

    /// The value at the entry, storing the result of `f(coord)` first when it
    /// is vacant.
    pub fn or_insert_with_key<F: FnOnce(Coord) -> V>(self, f: F) -> (r: &'a mut V)
        requires
            self.valid(),
            self is Vacant ==> f.requires((self.key_spec(),)),
        ensures
            self matches Entry::Occupied(e) ==> *r == e.map@[seq![e.key]] && final(e.map).wf()
                && final(e.map)@ == e.map@.insert(seq![e.key], *final(r)),
            self matches Entry::Vacant(e) ==> f.ensures((e.key,), *r) && final(e.map).wf()
                && final(e.map)@ == e.map@.insert(seq![e.key], *final(r)),
    {
        match self {
            Entry::Occupied(e) => {
                match e.map.get_mut(&e.key) {
                    Some(v) => v,
                    None => vstd::pervasive::unreached(),
                }
            },
            Entry::Vacant(e) => {
                let v = f(e.key);
                e.insert(v)
            },
        }
    }

    /// Applies `f` to the value of an occupied entry; a vacant entry is
    /// returned as it is.
    pub fn and_modify<F: FnOnce(&mut V)>(self, f: F) -> (r: Self)
        requires
            self.valid(),
            self is Occupied ==> forall|v: &mut V| f.requires((v,)),
        ensures
            r.valid(),
            r.key_spec() == self.key_spec(),
            self matches Entry::Vacant(e) ==> r matches Entry::Vacant(e2) && *e2.map == *e.map
                && *final(e2.map) == *final(e.map),
            self matches Entry::Occupied(e) ==> r matches Entry::Occupied(e2) && *final(e2.map)
                == *final(e.map) && exists|v: &mut V|
                *v == e.map@[seq![e.key]] && f.ensures((v,), ()) && e2.map@ == e.map@.insert(
                    seq![e.key],
                    *final(v),
                ),
    {
        match self {
            Entry::Occupied(e) => {
                let ghost m0 = e.map@;
                proof {
                    lemma_insert_twice(m0, seq![e.key], m0[seq![e.key]]);
                }
                match e.map.get_mut(&e.key) {
                    Some(v) => f(v),
                    None => vstd::pervasive::unreached(),
                }
                Entry::Occupied(e)
            },
            Entry::Vacant(e) => Entry::Vacant(e),
        }
    }
}

} // verus!

verus! {

/// One level: 11,172 identifiers.
pub type CoordTreeMap1<V> = CoordTreeMap<1, V>;

/// Two levels: about 1.25 x 10^8 identifiers.
pub type CoordTreeMap2<V> = CoordTreeMap<2, V>;

/// Two levels: about 1.25 x 10^8 identifiers.
pub type CoordMap2<V> = CoordTreeMap<2, V>;

/// Three levels: about 1.39 x 10^12 identifiers.
pub type CoordMap3<V> = CoordTreeMap<3, V>;

/// Six levels: about 1.94 x 10^24 identifiers (UUID scale).
pub type CoordMap6<V> = CoordTreeMap<6, V>;

/// Twelve levels: about 2.41 x 10^67 identifiers.
pub type CoordMap12<V> = CoordTreeMap<12, V>;

/// Nineteen levels: about 1.94 x 10^77 identifiers (SHA-256 scale).
pub type CoordMap19<V> = CoordTreeMap<19, V>;

} // verus!

verus! {

impl<const N: usize, V: PartialEq> CoordTreeMap<N, V> {
    /// `true` when both maps hold the same paths with equal values.
    pub fn eq(&self, other: &Self) -> (r: bool)
        requires
            self.wf(),
            other.wf(),
        ensures
            V::obeys_eq_spec() ==> r == crate::coord_space_n::same_entries(self@, other@),
    {
        self.space.eq(&other.space)
    }
}

impl<const N: usize, V> CoordTreeMap<N, V> {
    /// The debug summary of the root node.
    pub closed spec fn root_summary(&self) -> Seq<char> {
        self.space.root_summary()
    }

    /// The debug text `"CoordTreeMap { N: <N>, len: <len>, root: <root> }"`,
    /// where the root shows its kind and occupied slot count.
    pub fn debug_string(&self) -> (r: String)
        requires
            self.wf(),
        ensures
            r@ == "CoordTreeMap { N: "@ + spec_decimal(N as nat) + ", len: "@ + spec_decimal(self@.len()) + ", root: "@
                + self.root_summary() + " }"@,
    {
        let mut out = String::new();
        self.space.push_debug(&mut out, "CoordTreeMap");
        proof {
            reveal_strlit("CoordTreeMap");
            reveal_strlit(" { N: ");
            reveal_strlit("CoordTreeMap { N: ");
            assert(out@ =~= "CoordTreeMap { N: "@ + spec_decimal(N as nat) + ", len: "@ + spec_decimal(self@.len())
                + ", root: "@ + self.root_summary() + " }"@);
        }
        out
    }
}

} // verus!

verus! {

impl<const N: usize, V: Clone> CoordTreeMap<N, V> {
    /// An independent copy of the map, with every value cloned.
    pub fn clone(&self) -> (r: Self)
        requires
            self.wf(),
        ensures
            r.wf(),
            r@.dom() == self@.dom(),
            forall|p: Seq<Coord>| #[trigger] self@.contains_key(p) ==> cloned::<V>(self@[p], r@[p]),
    {
        CoordTreeMap { space: self.space.clone() }
    }
}

} // verus!

verus! {

impl<V> core::ops::Index<Coord> for CoordTreeMap<1, V> {
    type Output = V;

    /// The value stored at `coord`, which must be occupied.
    fn index(&self, coord: Coord) -> (r: &V)
        ensures
            *r == self@[seq![coord]],
    {
        self.get(&coord).unwrap()
    }
}

impl<V> vstd::std_specs::core::IndexSpecImpl<Coord> for CoordTreeMap<1, V> {
    open spec fn index_req(&self, index: &Coord) -> bool {
        self.wf() && self@.contains_key(seq![*index])
    }
}

} // verus!
