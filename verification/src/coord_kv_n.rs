//! `CoordKVN<N>`: a key-value store for `N`-byte keys over an `N`-level
//! coordinate space, one coordinate per key byte.
use vstd::prelude::*;
use crate::coord::Coord;
use crate::coord_gen::{CoordKey, byte_coords, is_byte_path, path_bytes, lemma_byte_coords_inj, lemma_byte_path, lemma_byte_coords_is_byte_path};
use crate::coord_kv::{CoordKV, CoordKVKey, copy_bytes};
use crate::coord_space_n::CoordSpaceN;
use vstd::string::StringSliceAdditionalSpecFns;

verus! {

/// A store for keys of exactly `N` bytes; each key byte is one level of
/// the address tree.
pub struct CoordKVN<const N: usize> {
    space: CoordSpaceN<N, Vec<u8>>,
}

/// The byte-keyed view of a coordinate-keyed map of byte vectors.
pub open spec fn bytes_view(m: Map<Seq<Coord>, Vec<u8>>) -> Map<Seq<u8>, Seq<u8>> {
    Map::new(|k: Seq<u8>| m.contains_key(byte_coords(k)), |k: Seq<u8>| m[byte_coords(k)]@)
}

/// Storing under a key's byte coordinates stores under the key.
pub proof fn lemma_bytes_view_insert(m: Map<Seq<Coord>, Vec<u8>>, k: Seq<u8>, v: Vec<u8>)
    ensures
        bytes_view(m.insert(byte_coords(k), v)) == bytes_view(m).insert(k, v@),
{
    assert forall|j: Seq<u8>| #[trigger] bytes_view(m.insert(byte_coords(k), v)).contains_key(j) == bytes_view(m).insert(k, v@).contains_key(j) by {
        lemma_byte_coords_inj(j, k);
    }
    assert forall|j: Seq<u8>| #[trigger] bytes_view(m.insert(byte_coords(k), v)).contains_key(j) implies
        bytes_view(m.insert(byte_coords(k), v))[j] == bytes_view(m).insert(k, v@)[j] by {
        lemma_byte_coords_inj(j, k);
    }
    assert(bytes_view(m.insert(byte_coords(k), v)) =~= bytes_view(m).insert(k, v@));
}

/// Removing a key's byte coordinates removes the key.
pub proof fn lemma_bytes_view_remove(m: Map<Seq<Coord>, Vec<u8>>, k: Seq<u8>)
    ensures
        bytes_view(m.remove(byte_coords(k))) == bytes_view(m).remove(k),
{
    assert forall|j: Seq<u8>| #[trigger] bytes_view(m.remove(byte_coords(k))).contains_key(j) == bytes_view(m).remove(k).contains_key(j) by {
        lemma_byte_coords_inj(j, k);
    }
    assert(bytes_view(m.remove(byte_coords(k))) =~= bytes_view(m).remove(k));
}

/// When every key of `m` is a byte path, the byte-keyed view has as many
/// entries as `m`.
pub proof fn lemma_bytes_view_len(m: Map<Seq<Coord>, Vec<u8>>)
    requires
        m.dom().finite(),
        forall|p: Seq<Coord>| #[trigger] m.contains_key(p) ==> is_byte_path(p),
    ensures
        bytes_view(m).dom().finite(),
        bytes_view(m).len() == m.len(),
{
    let x = m.dom();
    let f = |p: Seq<Coord>| path_bytes(p);
    assert(vstd::relations::injective_on(f, x)) by {
        assert forall|a: Seq<Coord>, b: Seq<Coord>| x.contains(a) && x.contains(b) && #[trigger] f(a) == #[trigger] f(b) implies a == b by {
            lemma_byte_path(a);
            lemma_byte_path(b);
        }
    }
    assert(x.map(f) =~= bytes_view(m).dom()) by {
        assert forall|k: Seq<u8>| #[trigger] bytes_view(m).dom().contains(k) implies x.map(f).contains(k) by {
            let p = byte_coords(k);
            lemma_byte_coords_is_byte_path(k);
            lemma_byte_path(p);
            lemma_byte_coords_inj(path_bytes(p), k);
            assert(f(p) == k);
        }
        assert forall|k: Seq<u8>| #[trigger] x.map(f).contains(k) implies bytes_view(m).dom().contains(k) by {
            let p = choose|p: Seq<Coord>| x.contains(p) && f(p) == k;
            lemma_byte_path(p);
        }
    }
    vstd::set_lib::lemma_map_size(x, bytes_view(m).dom(), f);
}

impl<const N: usize> View for CoordKVN<N> {
    type V = Map<Seq<u8>, Seq<u8>>;

    closed spec fn view(&self) -> Map<Seq<u8>, Seq<u8>> {
        bytes_view(self.space@)
    }
}

impl<const N: usize> CoordKVN<N> {
    /// The store is well formed: its space is, and holds only byte paths.
    pub closed spec fn wf(&self) -> bool {
        &&& self.space.wf()
        &&& forall|p: Seq<Coord>| #[trigger] self.space@.contains_key(p) ==> is_byte_path(p)
    }

    /// Every key of the store has `N` bytes.
    pub proof fn lemma_keys(&self)
        requires
            self.wf(),
        ensures
            forall|k: Seq<u8>| #[trigger] self@.contains_key(k) ==> k.len() == N,
            self@.dom().finite(),
    {
        self.space.lemma_keys();
        self.space.lemma_finite();
        lemma_bytes_view_len(self.space@);
        assert forall|k: Seq<u8>| #[trigger] self@.contains_key(k) implies k.len() == N by {
            lemma_byte_coords_is_byte_path(k);
        }
    }

    /// Creates an empty store; `N` must be at least 1.
    pub fn new() -> (r: Self)
        requires
            N > 0,
        ensures
            r.wf(),
            r@ == Map::<Seq<u8>, Seq<u8>>::empty(),
    {
        let r = CoordKVN { space: CoordSpaceN::new() };
        assert(r@ =~= Map::<Seq<u8>, Seq<u8>>::empty());
        r
    }

    /// The number of entries.
    pub fn len(&self) -> (r: usize)
        requires
            self.wf(),
        ensures
            r == self@.len(),
    {
        proof {
            self.space.lemma_finite();
            lemma_bytes_view_len(self.space@);
        }
        self.space.len()
    }

    /// `true` when the store is empty.
    pub fn is_empty(&self) -> (r: bool)
        requires
            self.wf(),
        ensures
            r == (self@.len() == 0),
    {
        self.len() == 0
    }

    /// Removes every entry.
    pub fn clear(&mut self)
        requires
            old(self).wf(),
        ensures
            final(self).wf(),
            final(self)@ == Map::<Seq<u8>, Seq<u8>>::empty(),
    {
        self.space.clear();
        assert(self@ =~= Map::<Seq<u8>, Seq<u8>>::empty());
    }

    /// Stores `value` under `key`, returning the value it replaced.
    pub fn insert_by_coordkey(&mut self, key: &CoordKey<N>, value: Vec<u8>) -> (r: Option<Vec<u8>>)
        requires
            old(self).wf(),
            old(self)@.len() < usize::MAX,
        ensures
            final(self).wf(),
            final(self)@ == old(self)@.insert(key@, value@),
            r is Some <==> old(self)@.contains_key(key@),
            r matches Some(v) ==> v@ == old(self)@[key@],
    {
        proof {
            self.space.lemma_finite();
            lemma_bytes_view_len(self.space@);
            lemma_bytes_view_insert(self.space@, key@, value);
            lemma_byte_coords_is_byte_path(key@);
        }
        let path = key.to_coord_path();
        self.space.place_path(&path, value)
    }

    /// The value stored under `key`.
    pub fn get_by_coordkey(&self, key: &CoordKey<N>) -> (r: Option<Vec<u8>>)
        requires
            self.wf(),
        ensures
            r is Some <==> self@.contains_key(key@),
            r matches Some(v) ==> v@ == self@[key@],
    {
        let path = key.to_coord_path();
        match self.space.at_path(&path) {
            Some(v) => Some(copy_bytes(v)),
            None => None,
        }
    }

    /// Removes the value stored under `key`, returning it.
    pub fn remove_by_coordkey(&mut self, key: &CoordKey<N>) -> (r: Option<Vec<u8>>)
        requires
            old(self).wf(),
        ensures
            final(self).wf(),
            final(self)@ == old(self)@.remove(key@),
            r is Some <==> old(self)@.contains_key(key@),
            r matches Some(v) ==> v@ == old(self)@[key@],
    {
        proof {
            lemma_bytes_view_remove(self.space@, key@);
        }
        let path = key.to_coord_path();
        self.space.vacate_path(&path)
    }

    /// `true` when `key` holds a value.
    pub fn contains_key_by_coordkey(&self, key: &CoordKey<N>) -> (r: bool)
        requires
            self.wf(),
        ensures
            r == self@.contains_key(key@),
    {
        self.get_by_coordkey(key).is_some()
    }

    /// Stores `value` under the bytes of `key`, which must have `N` bytes.
    pub fn insert(&mut self, key: &str, value: Vec<u8>) -> (r: Option<Vec<u8>>)
        requires
            old(self).wf(),
            key.spec_bytes().len() == N,
            old(self)@.len() < usize::MAX,
        ensures
            final(self).wf(),
            final(self)@ == old(self)@.insert(key.spec_bytes(), value@),
            r is Some <==> old(self)@.contains_key(key.spec_bytes()),
            r matches Some(v) ==> v@ == old(self)@[key.spec_bytes()],
    {
        let ck: CoordKey<N> = CoordKey::from_str_const(key);
        self.insert_by_coordkey(&ck, value)
    }

    /// The value stored under the bytes of `key`; `None` when `key` does not
    /// have `N` bytes.
    pub fn get(&self, key: &str) -> (r: Option<Vec<u8>>)
        requires
            self.wf(),
        ensures
            r is Some <==> self@.contains_key(key.spec_bytes()),
            r matches Some(v) ==> v@ == self@[key.spec_bytes()],
    {
        proof {
            self.lemma_keys();
        }
        if key.as_bytes().len() != N {
            return None;
        }
        let ck: CoordKey<N> = CoordKey::from_str_const(key);
        self.get_by_coordkey(&ck)
    }

    /// Removes the value stored under the bytes of `key`.
    pub fn remove(&mut self, key: &str) -> (r: Option<Vec<u8>>)
        requires
            old(self).wf(),
        ensures
            final(self).wf(),
            final(self)@ == old(self)@.remove(key.spec_bytes()),
            r is Some <==> old(self)@.contains_key(key.spec_bytes()),
            r matches Some(v) ==> v@ == old(self)@[key.spec_bytes()],
    {
        proof {
            self.lemma_keys();
        }
        if key.as_bytes().len() != N {
            assert(self@.remove(key.spec_bytes()) =~= self@);
            return None;
        }
        let ck: CoordKey<N> = CoordKey::from_str_const(key);
        self.remove_by_coordkey(&ck)
    }

    /// `true` when the bytes of `key` hold a value.
    pub fn contains_key(&self, key: &str) -> (r: bool)
        requires
            self.wf(),
        ensures
            r == self@.contains_key(key.spec_bytes()),
    {
        self.get(key).is_some()
    }
}

impl<const N: usize> CoordKV for CoordKVN<N> {
    open spec fn kv_wf(&self) -> bool {
        self.wf()
    }

    open spec fn insert_ok(&self, key: Seq<u8>) -> bool {
        key.len() == N && self@.len() < usize::MAX
    }

    open spec fn kv_view(&self) -> Map<Seq<u8>, Seq<u8>> {
        self@
    }

    open spec fn after_insert(&self, key: Seq<u8>, value: Seq<u8>) -> Map<Seq<u8>, Seq<u8>> {
        self@.insert(key, value)
    }

    open spec fn after_remove(&self, key: Seq<u8>) -> Map<Seq<u8>, Seq<u8>> {
        self@.remove(key)
    }

    fn len(&self) -> usize {
        CoordKVN::len(self)
    }

    fn is_empty(&self) -> bool {
        CoordKVN::is_empty(self)
    }

    fn clear(&mut self) {
        CoordKVN::clear(self)
    }

    fn insert(&mut self, key: &str, value: Vec<u8>) -> Option<Vec<u8>> {
        CoordKVN::insert(self, key, value)
    }

    fn get(&self, key: &str) -> Option<Vec<u8>> {
        CoordKVN::get(self, key)
    }

    fn remove(&mut self, key: &str) -> Option<Vec<u8>> {
        CoordKVN::remove(self, key)
    }

    fn contains_key(&self, key: &str) -> bool {
        CoordKVN::contains_key(self, key)
    }
}

impl<const N: usize> CoordKVKey<N> for CoordKVN<N> {
    fn insert_by_coordkey(&mut self, key: &CoordKey<N>, value: Vec<u8>) -> Option<Vec<u8>> {
        CoordKVN::insert_by_coordkey(self, key, value)
    }

    fn get_by_coordkey(&self, key: &CoordKey<N>) -> Option<Vec<u8>> {
        CoordKVN::get_by_coordkey(self, key)
    }

    fn remove_by_coordkey(&mut self, key: &CoordKey<N>) -> Option<Vec<u8>> {
        CoordKVN::remove_by_coordkey(self, key)
    }

    fn contains_key_by_coordkey(&self, key: &CoordKey<N>) -> bool {
        CoordKVN::contains_key_by_coordkey(self, key)
    }
}

} // verus!

verus! {

impl<const N: usize> Default for CoordKVN<N> {
    /// An empty store. A key length of 0 gives a store that is not well
    /// formed, which no operation accepts.
    fn default() -> (r: Self)
        ensures
            N > 0 ==> r.wf() && r@ == Map::<Seq<u8>, Seq<u8>>::empty(),
    {
        let r = CoordKVN { space: CoordSpaceN::default() };
        assert(N > 0 ==> r@ =~= Map::<Seq<u8>, Seq<u8>>::empty());
        r
    }
}

} // verus!
