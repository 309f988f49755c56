//! `CoordKeyMap<N, K, V>`: a map with a `HashMap`-like interface whose keys
//! are turned into direct-address paths by `CoordKey<N>`.
use vstd::prelude::*;
use crate::coord::Coord;
use crate::coord_path::CoordPath;
use crate::key::{CoordKey, hash_path1, fast_hash_spec};
use crate::map::CoordTreeMap;
use crate::coord_space_n::{lemma_insert_twice, tree_items};
use crate::listing::lists_paths;
use vstd::std_specs::iter::IteratorSpec;
use vstd::string::StringSliceAdditionalSpecFns;
use core::marker::PhantomData;
use crate::text::{push_str_seq, push_decimal, spec_decimal};

verus! {

/// A map from keys of type `K` to values, stored by the key's path: no
/// hashing at the storage level, no buckets, no rehashing. Two keys with
/// the same path share one entry.
pub struct CoordKeyMap<const N: usize, K: CoordKey<N>, V> {
    inner: CoordTreeMap<N, V>,
    _key: PhantomData<K>,
}

impl<const N: usize, K: CoordKey<N>, V> View for CoordKeyMap<N, K, V> {
    type V = Map<Seq<Coord>, V>;

    closed spec fn view(&self) -> Map<Seq<Coord>, V> {
        self.inner@
    }
}

impl<const N: usize, K: CoordKey<N>, V> CoordKeyMap<N, K, V> {
    /// The map is well formed.
    pub closed spec fn wf(&self) -> bool {
        self.inner.wf()
    }

    /// Creates an empty map; the depth `N` must be at least 1.
    pub fn new() -> (r: Self)
        requires
            N > 0,
        ensures
            r.wf(),
            r@ == Map::<Seq<Coord>, V>::empty(),
    {
        CoordKeyMap { inner: CoordTreeMap::new(), _key: PhantomData }
    }

    /// The number of entries.
    pub fn len(&self) -> (r: usize)
        requires
            self.wf(),
        ensures
            r == self@.len(),
    {
        self.inner.len()
    }

    /// `true` when the map holds no entry.
    pub fn is_empty(&self) -> (r: bool)
        requires
            self.wf(),
        ensures
            r == (self@.len() == 0),
    {
        self.inner.is_empty()
    }

    /// 11,172 for `N == 1`; `None` for deeper maps.
    pub fn capacity(&self) -> (r: Option<usize>)
        ensures
            r == (if N == 1 { Some(11172usize) } else { None::<usize> }),
    {
        self.inner.capacity()
    }

    /// The value stored under the path of `key`.
    pub fn get(&self, key: &K) -> (r: Option<&V>)
        requires
            self.wf(),
        ensures
            r is Some <==> self@.contains_key(key.key_path()),
            r matches Some(v) ==> *v == self@[key.key_path()],
    {
        self.inner.get_path(&key.to_path())
    }

    /// A mutable reference to the value stored under the path of `key`.
    pub fn get_mut(&mut self, key: &K) -> (r: Option<&mut V>)
        requires
            old(self).wf(),
        ensures
            r is Some <==> old(self)@.contains_key(key.key_path()),
            r matches Some(v) ==> *v == old(self)@[key.key_path()],
            r matches Some(v) ==> final(self).wf() && final(self)@ == old(self)@.insert(key.key_path(), *final(v)),
            r is None ==> final(self).wf() && final(self)@ == old(self)@,
    {
        self.inner.get_path_mut(&key.to_path())
    }

    /// `true` when the path of `key` holds a value.
    pub fn contains_key(&self, key: &K) -> (r: bool)
        requires
            self.wf(),
        ensures
            r == self@.contains_key(key.key_path()),
    {
        self.get(key).is_some()
    }

    /// Stores `value` under the path of `key`, returning the value it
    /// replaced.
    pub fn insert(&mut self, key: K, value: V) -> (r: Option<V>)
        requires
            old(self).wf(),
            old(self)@.len() < usize::MAX,
        ensures
            final(self).wf(),
            final(self)@ == old(self)@.insert(key.key_path(), value),
            r == old(self)@.get(key.key_path()),
    {
        self.inner.insert_path(&key.to_path(), value)
    }

    /// Removes the value under the path of `key`, returning it if there was
    /// one.
    pub fn remove(&mut self, key: &K) -> (r: Option<V>)
        requires
            old(self).wf(),
        ensures
            final(self).wf(),
            final(self)@ == old(self)@.remove(key.key_path()),
            r == old(self)@.get(key.key_path()),
    {
        self.inner.remove_path(&key.to_path())
    }

    /// Removes every entry.
    pub fn clear(&mut self)
        requires
            old(self).wf(),
        ensures
            final(self).wf(),
            final(self)@ == Map::<Seq<Coord>, V>::empty(),
    {
        self.inner.clear()
    }

    /// Clones of the stored values, one per entry.
    pub fn values(&self) -> (r: Vec<V>)
        where
            V: Clone,
        requires
            self.wf(),
        ensures
            exists|l: Seq<(Seq<Coord>, V)>|
                lists_paths(self@, l) && r@.len() == l.len() && forall|k: int|
                    0 <= k < l.len() ==> cloned::<V>(l[k].1, #[trigger] r@[k]),
    {
        let entries = self.inner.tree_entries();
        let ghost items = tree_items(entries@);
        let mut out: Vec<V> = Vec::new();
        let mut k: usize = 0;
        while k < entries.len()
            invariant
                k <= entries@.len(),
                items == tree_items(entries@),
                lists_paths(self@, items),
                out@.len() == k,
                forall|j: int| 0 <= j < k ==> cloned::<V>(items[j].1, #[trigger] out@[j]),
            decreases entries@.len() - k,
        {
            out.push(entries[k].1.clone());
            k = k + 1;
        }
        out
    }

    /// Stores every pair, in order; a later pair for the same path replaces
    /// an earlier one.
    pub fn extend(&mut self, pairs: Vec<(K, V)>)
        requires
            old(self).wf(),
            old(self)@.len() + pairs@.len() < usize::MAX,
        ensures
            final(self).wf(),
            final(self)@ == pairs_into(old(self)@, pairs@),
    {
        let ghost start = self@;
        let ghost all = pairs@;
        for e in it: pairs.into_iter()
            invariant
                self.wf(),
                it.seq() == all,
                self@ == pairs_into(start, all.take(it.index())),
                self@.len() <= start.len() + it.index(),
                start.len() + all.len() < usize::MAX,
        {
            let (key, value) = e;
            proof {
                assert(all.take(it.index() + 1).drop_last() =~= all.take(it.index()));
                self.inner.lemma_finite();
            }
            self.insert(key, value);
        }
        proof {
            assert(all.take(all.len() as int) =~= all);
        }
    }
}

impl<const N: usize, K: CoordKey<N>, V> CoordKeyMap<N, K, V> {
    /// Builds a map from pairs; a later pair for the same path replaces an
    /// earlier one.
    pub fn from_pairs(pairs: Vec<(K, V)>) -> (r: Self)
        requires
            N > 0,
            pairs@.len() < usize::MAX,
        ensures
            r.wf(),
            r@ == pairs_into(Map::<Seq<Coord>, V>::empty(), pairs@),
    {
        let mut map = CoordKeyMap::new();
        map.extend(pairs);
        map
    }
}

/// `m` after storing the pairs of `s` in order under their keys' paths.
pub open spec fn pairs_into<const N: usize, K: CoordKey<N>, V>(m: Map<Seq<Coord>, V>, s: Seq<(K, V)>) -> Map<Seq<Coord>, V>
    decreases s.len(),
{
    if s.len() == 0 {
        m
    } else {
        pairs_into(m, s.drop_last()).insert(s.last().0.key_path(), s.last().1)
    }
}

impl<V> CoordKeyMap<1, String, V> {
    /// The value stored under the path of the string `key`, without
    /// building a `String`.
    pub fn get_str(&self, key: &str) -> (r: Option<&V>)
        requires
            self.wf(),
        ensures
            r is Some <==> self@.contains_key(hash_path1(fast_hash_spec(key.spec_bytes()))),
            r matches Some(v) ==> *v == self@[hash_path1(fast_hash_spec(key.spec_bytes()))],
    {
        let k: &str = key;
        self.inner.get_path(&k.to_path())
    }

    /// Removes the value under the path of the string `key`.
    pub fn remove_str(&mut self, key: &str) -> (r: Option<V>)
        requires
            old(self).wf(),
        ensures
            final(self).wf(),
            final(self)@ == old(self)@.remove(hash_path1(fast_hash_spec(key.spec_bytes()))),
            r == old(self)@.get(hash_path1(fast_hash_spec(key.spec_bytes()))),
    {
        let k: &str = key;
        self.inner.remove_path(&k.to_path())
    }
}

impl<const N: usize, K: CoordKey<N>, V> Default for CoordKeyMap<N, K, V> {
    /// An empty map. A depth of 0 gives a map that is not well formed,
    /// which no operation accepts.
    fn default() -> (r: Self)
        ensures
            N > 0 ==> r.wf() && r@ == Map::<Seq<Coord>, V>::empty(),
    {
        CoordKeyMap { inner: CoordTreeMap::default(), _key: PhantomData }
    }
}

} // verus!

verus! {

/// A view into the entry of one key's path, occupied or vacant.
pub enum Entry<'a, const N: usize, K: CoordKey<N>, V> {
    Occupied(OccupiedEntry<'a, N, K, V>),
    Vacant(VacantEntry<'a, N, K, V>),
}

/// An entry whose path holds a value.
pub struct OccupiedEntry<'a, const N: usize, K: CoordKey<N>, V> {
    /// The map the entry belongs to.
    pub map: &'a mut CoordKeyMap<N, K, V>,
    /// The path of the entry's key.
    pub path: CoordPath<N>,
    /// The key type.
    pub key_type: PhantomData<K>,
}

/// An entry whose path holds no value.
pub struct VacantEntry<'a, const N: usize, K: CoordKey<N>, V> {
    /// The map the entry belongs to.
    pub map: &'a mut CoordKeyMap<N, K, V>,
    /// The path of the entry's key.
    pub path: CoordPath<N>,
    /// The key type.
    pub key_type: PhantomData<K>,
}

impl<const N: usize, K: CoordKey<N>, V> CoordKeyMap<N, K, V> {
    /// The entry for `key`, for in-place manipulation.
    pub fn entry(&mut self, key: K) -> (r: Entry<'_, N, K, V>)
        requires
            old(self).wf(),
        ensures
            r.valid(),
            r.path_spec() == key.key_path(),
            r is Occupied <==> old(self)@.contains_key(key.key_path()),
            r matches Entry::Occupied(e) ==> *e.map == *old(self) && *final(self) == *final(e.map),
            r matches Entry::Vacant(e) ==> *e.map == *old(self) && *final(self) == *final(e.map),
    {
        let path = key.to_path();
        if self.inner.get_path(&path).is_some() {
            Entry::Occupied(OccupiedEntry { map: self, path, key_type: PhantomData })
        } else {
            Entry::Vacant(VacantEntry { map: self, path, key_type: PhantomData })
        }
    }
}

impl<'a, const N: usize, K: CoordKey<N>, V> OccupiedEntry<'a, N, K, V> {
    /// The value of the entry.
    pub fn get(&self) -> (r: &V)
        requires
            self.map.wf(),
            self.map@.contains_key(self.path@),
        ensures
            *r == old(self.map)@[self.path@],
    {
        match self.map.inner.get_path(&self.path) {
            Some(v) => v,
            None => vstd::pervasive::unreached(),
        }
    }

    /// A mutable reference to the entry's value; the map then holds
    /// whatever the reference holds when released.
    pub fn get_mut(&mut self) -> (r: &mut V)
        requires
            old(self).map.wf(),
            old(self).map@.contains_key(old(self).path@),
        ensures
            *r == old(self).map@[old(self).path@],
            final(self).path == old(self).path,
            final(self).map.wf(),
            final(self).map@ == old(self).map@.insert(old(self).path@, *final(r)),
    {
        match self.map.inner.get_path_mut(&self.path) {
            Some(v) => v,
            None => vstd::pervasive::unreached(),
        }
    }

    /// Replaces the entry's value, returning the old one.
    pub fn insert(&mut self, value: V) -> (r: V)
        requires
            old(self).map.wf(),
            old(self).map@.contains_key(old(self).path@),
        ensures
            r == old(self).map@[old(self).path@],
            final(self).path == old(self).path,
            final(self).map.wf(),
            final(self).map@ == old(self).map@.insert(old(self).path@, value),
    {
        match self.map.inner.get_path_mut(&self.path) {
            Some(v) => {
                let mut out = value;
                std::mem::swap(v, &mut out);
                out
            },
            None => vstd::pervasive::unreached(),
        }
    }

    /// Removes the entry, returning its value.
    pub fn remove_entry(self) -> (r: V)
        requires
            self.map.wf(),
            self.map@.contains_key(self.path@),
        ensures
            r == old(self.map)@[self.path@],
            final(self.map).wf(),
            final(self.map)@ == old(self.map)@.remove(self.path@),
    {
        match self.map.inner.remove_path(&self.path) {
            Some(v) => v,
            None => vstd::pervasive::unreached(),
        }
    }
}

impl<'a, const N: usize, K: CoordKey<N>, V> VacantEntry<'a, N, K, V> {
    /// Stores `value` at the entry's path and returns a mutable reference to
    /// it.
    pub fn insert(self, value: V) -> (r: &'a mut V)
        requires
            self.map.wf(),
            self.map@.len() < usize::MAX,
        ensures
            *r == value,
            final(self.map).wf(),
            final(self.map)@ == old(self.map)@.insert(self.path@, *final(r)),
    {
        let ghost m0 = self.map@;
        proof {
            lemma_insert_twice(m0, self.path@, value);
        }
        self.map.inner.insert_path(&self.path, value);
        match self.map.inner.get_path_mut(&self.path) {
            Some(v) => v,
            None => vstd::pervasive::unreached(),
        }
    }
}

impl<'a, const N: usize, K: CoordKey<N>, V> Entry<'a, N, K, V> {
    /// The entry is consistent with its map.
    pub open spec fn valid(&self) -> bool {
        match self {
            Entry::Occupied(e) => e.map.wf() && e.map@.contains_key(e.path@),
            Entry::Vacant(e) => e.map.wf() && !e.map@.contains_key(e.path@),
        }
    }

    /// The path of the entry's key.
    pub open spec fn path_spec(&self) -> Seq<Coord> {
        match self {
            Entry::Occupied(e) => e.path@,
            Entry::Vacant(e) => e.path@,
        }
    }

    /// The value at the entry, storing `default` first when it is vacant.
    pub fn or_insert(self, default: V) -> (r: &'a mut V)
        requires
            self.valid(),
            self matches Entry::Vacant(e) ==> e.map@.len() < usize::MAX,
        ensures
            self matches Entry::Occupied(e) ==> *r == e.map@[e.path@] && final(e.map).wf()
                && final(e.map)@ == e.map@.insert(e.path@, *final(r)),
            self matches Entry::Vacant(e) ==> *r == default && final(e.map).wf()
                && final(e.map)@ == e.map@.insert(e.path@, *final(r)),
    {
        match self {
            Entry::Occupied(e) => {
                match e.map.inner.get_path_mut(&e.path) {
                    Some(v) => v,
                    None => vstd::pervasive::unreached(),
                }
            },
            Entry::Vacant(e) => e.insert(default),
        }
    }

    /// The value at the entry, storing the result of `f()` first when it is
    /// vacant.
    pub fn or_insert_with<F: FnOnce() -> V>(self, f: F) -> (r: &'a mut V)
        requires
            self.valid(),
            self matches Entry::Vacant(e) ==> e.map@.len() < usize::MAX && f.requires(()),
        ensures
            self matches Entry::Occupied(e) ==> *r == e.map@[e.path@] && final(e.map).wf()
                && final(e.map)@ == e.map@.insert(e.path@, *final(r)),
            self matches Entry::Vacant(e) ==> f.ensures((), *r) && final(e.map).wf()
                && final(e.map)@ == e.map@.insert(e.path@, *final(r)),
    {
        match self {
            Entry::Occupied(e) => {
                match e.map.inner.get_path_mut(&e.path) {
                    Some(v) => v,
                    None => vstd::pervasive::unreached(),
                }
            },
            Entry::Vacant(e) => {
                let v = f();
                e.insert(v)
            },
        }
    }

    /// Applies `f` to the value of an occupied entry; a vacant entry is
    /// returned as it is.
    pub fn and_modify<F: FnOnce(&mut V)>(self, f: F) -> (r: Self)
        requires
            self.valid(),
            self is Occupied ==> forall|v: &mut V| f.requires((v,)),
        ensures
            r.valid(),
            r.path_spec() == self.path_spec(),
            self matches Entry::Vacant(e) ==> r matches Entry::Vacant(e2) && *e2.map == *e.map
                && *final(e2.map) == *final(e.map),
            self matches Entry::Occupied(e) ==> r matches Entry::Occupied(e2) && *final(e2.map)
                == *final(e.map) && exists|v: &mut V|
                *v == e.map@[e.path@] && f.ensures((v,), ()) && e2.map@ == e.map@.insert(
                    e.path@,
                    *final(v),
                ),
    {
        match self {
            Entry::Occupied(e) => {
                let ghost m0 = e.map@;
                proof {
                    lemma_insert_twice(m0, e.path@, m0[e.path@]);
                }
                match e.map.inner.get_path_mut(&e.path) {
                    Some(v) => f(v),
                    None => vstd::pervasive::unreached(),
                }
                Entry::Occupied(e)
            },
            Entry::Vacant(e) => Entry::Vacant(e),
        }
    }
}

} // verus!

verus! {

impl<const N: usize, K: CoordKey<N>, V> CoordKeyMap<N, K, V> {
    /// The debug text `"CoordKeyMap { N: <N>, len: <len> }"`.
    pub fn debug_string(&self) -> (r: String)
        requires
            self.wf(),
        ensures
            r@ == "CoordKeyMap { N: "@ + spec_decimal(N as nat) + ", len: "@ + spec_decimal(self@.len()) + " }"@,
    {
        let mut out = String::new();
        push_str_seq(&mut out, "CoordKeyMap { N: ");
        push_decimal(&mut out, N);
        push_str_seq(&mut out, ", len: ");
        push_decimal(&mut out, self.len());
        push_str_seq(&mut out, " }");
        proof {
            reveal_strlit("CoordKeyMap { N: ");
            reveal_strlit(", len: ");
            reveal_strlit(" }");
        }
        out
    }
}

} // verus!
