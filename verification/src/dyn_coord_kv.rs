//! `DynCoordKV`: a key-value store for string keys of any length over the
//! dynamic-depth coordinate map, one coordinate per key byte.
use vstd::prelude::*;
use crate::coord::{Coord, coord_at, lemma_coord_at};
use crate::coord_gen::{byte_coords, is_byte_path, path_bytes, string_to_coord_path, coord_of, lemma_byte_coords_inj, lemma_byte_coords_is_byte_path, lemma_byte_path};
use crate::coord_kv::{CoordKV, copy_bytes};
use crate::dyn_coord::DynCoordMap;
use vstd::string::StringSliceAdditionalSpecFns;

verus! {

/// A store for non-empty string keys of any length. A key is stored under
/// its byte coordinates followed by an end mark (the coordinate of offset
/// 256, beyond every byte), so no stored path is a prefix of another and
/// keys never disturb one another.
pub struct DynCoordKV {
    map: DynCoordMap<Vec<u8>>,
}

/// The end mark of a stored path: the coordinate of offset 256.
pub open spec fn end_mark() -> Coord {
    coord_at(256)
}

/// The path under which the key `k` is stored.
pub open spec fn stored_path(k: Seq<u8>) -> Seq<Coord> {
    byte_coords(k).push(end_mark())
}

/// `p` is the stored path of a non-empty key: byte coordinates, then the
/// end mark.
pub open spec fn is_stored_path(p: Seq<Coord>) -> bool {
    &&& p.len() >= 2
    &&& p.last() == end_mark()
    &&& is_byte_path(p.drop_last())
}

/// The byte-keyed view of a map whose keys are stored paths.
pub open spec fn stored_view(m: Map<Seq<Coord>, Vec<u8>>) -> Map<Seq<u8>, Seq<u8>> {
    Map::new(|k: Seq<u8>| m.contains_key(stored_path(k)), |k: Seq<u8>| m[stored_path(k)]@)
}

/// Stored paths determine their keys.
proof fn lemma_stored_path_inj(a: Seq<u8>, b: Seq<u8>)
    ensures
        (stored_path(a) == stored_path(b)) <==> (a == b),
{
    if stored_path(a) == stored_path(b) {
        assert(stored_path(a).drop_last() =~= byte_coords(a));
        assert(stored_path(b).drop_last() =~= byte_coords(b));
        lemma_byte_coords_inj(a, b);
    }
}

/// The stored path of a non-empty key is a stored path, one longer than
/// the key.
proof fn lemma_stored_path_shape(k: Seq<u8>)
    requires
        k.len() > 0,
    ensures
        is_stored_path(stored_path(k)),
        stored_path(k).len() == k.len() + 1,
{
    lemma_byte_coords_is_byte_path(k);
    assert(stored_path(k).drop_last() =~= byte_coords(k));
}

/// Every stored path is the stored path of the bytes it starts with.
proof fn lemma_stored_path_of(p: Seq<Coord>)
    requires
        is_stored_path(p),
    ensures
        stored_path(path_bytes(p.drop_last())) == p,
        path_bytes(p.drop_last()).len() > 0,
{
    lemma_byte_path(p.drop_last());
    assert(stored_path(path_bytes(p.drop_last())) =~= p);
}

/// Storing under a key's stored path stores under the key.
proof fn lemma_stored_view_insert(m: Map<Seq<Coord>, Vec<u8>>, k: Seq<u8>, v: Vec<u8>)
    ensures
        stored_view(m.insert(stored_path(k), v)) == stored_view(m).insert(k, v@),
{
    assert forall|j: Seq<u8>| #[trigger] stored_view(m.insert(stored_path(k), v)).contains_key(j)
        == stored_view(m).insert(k, v@).contains_key(j) by {
        lemma_stored_path_inj(j, k);
    }
    assert forall|j: Seq<u8>| #[trigger] stored_view(m.insert(stored_path(k), v)).contains_key(j) implies
        stored_view(m.insert(stored_path(k), v))[j] == stored_view(m).insert(k, v@)[j] by {
        lemma_stored_path_inj(j, k);
    }
    assert(stored_view(m.insert(stored_path(k), v)) =~= stored_view(m).insert(k, v@));
}

/// Removing a key's stored path removes the key.
proof fn lemma_stored_view_remove(m: Map<Seq<Coord>, Vec<u8>>, k: Seq<u8>)
    ensures
        stored_view(m.remove(stored_path(k))) == stored_view(m).remove(k),
{
    assert forall|j: Seq<u8>| #[trigger] stored_view(m.remove(stored_path(k))).contains_key(j)
        == stored_view(m).remove(k).contains_key(j) by {
        lemma_stored_path_inj(j, k);
    }
    assert(stored_view(m.remove(stored_path(k))) =~= stored_view(m).remove(k));
}

/// The byte-keyed view has as many entries as a finite map of stored paths.
proof fn lemma_stored_view_len(m: Map<Seq<Coord>, Vec<u8>>)
    requires
        m.dom().finite(),
        forall|q: Seq<Coord>| #[trigger] m.contains_key(q) ==> is_stored_path(q),
    ensures
        stored_view(m).dom().finite(),
        stored_view(m).len() == m.len(),
{
    let x = m.dom();
    let f = |p: Seq<Coord>| path_bytes(p.drop_last());
    assert(vstd::relations::injective_on(f, x)) by {
        assert forall|a: Seq<Coord>, b: Seq<Coord>| x.contains(a) && x.contains(b) && #[trigger] f(a) == #[trigger] f(b) implies a == b by {
            lemma_stored_path_of(a);
            lemma_stored_path_of(b);
        }
    }
    assert(x.map(f) =~= stored_view(m).dom()) by {
        assert forall|k: Seq<u8>| #[trigger] stored_view(m).dom().contains(k) implies x.map(f).contains(k) by {
            let p = stored_path(k);
            assert(p.drop_last() =~= byte_coords(k));
            lemma_byte_coords_is_byte_path(k);
            lemma_byte_path(byte_coords(k));
            lemma_byte_coords_inj(path_bytes(byte_coords(k)), k);
            assert(f(p) == k);
        }
        assert forall|k: Seq<u8>| #[trigger] x.map(f).contains(k) implies stored_view(m).dom().contains(k) by {
            let p = choose|p: Seq<Coord>| x.contains(p) && f(p) == k;
            lemma_stored_path_of(p);
        }
    }
    vstd::set_lib::lemma_map_size(x, stored_view(m).dom(), f);
}

impl View for DynCoordKV {
    type V = Map<Seq<u8>, Seq<u8>>;

    closed spec fn view(&self) -> Map<Seq<u8>, Seq<u8>> {
        stored_view(self.map@)
    }
}

impl DynCoordKV {
    /// The store is well formed: its map is, and holds only stored paths of
    /// non-empty keys.
    pub closed spec fn wf(&self) -> bool {
        &&& self.map.wf()
        &&& forall|p: Seq<Coord>| #[trigger] self.map@.contains_key(p) ==> is_stored_path(p)
    }

    /// The empty key never holds a value.
    pub proof fn lemma_no_empty_key(&self)
        requires
            self.wf(),
        ensures
            !self@.contains_key(Seq::<u8>::empty()),
    {
        assert(stored_path(Seq::<u8>::empty()).len() == 1);
    }

    /// Creates an empty store.
    pub fn new() -> (r: Self)
        ensures
            r.wf(),
            r@ == Map::<Seq<u8>, Seq<u8>>::empty(),
    {
        let r = DynCoordKV { map: DynCoordMap::new() };
        assert(r@ =~= Map::<Seq<u8>, Seq<u8>>::empty());
        r
    }

    /// The number of entries.
    pub fn len(&self) -> (r: usize)
        requires
            self.wf(),
        ensures
            r == self@.len(),
    {
        let n = self.map.entry_count();
        proof {
            lemma_stored_view_len(self.map@);
        }
        n
    }

    /// `true` when the store is empty.
    pub fn is_empty(&self) -> (r: bool)
        requires
            self.wf(),
        ensures
            r == (self@.len() == 0),
    {
        self.len() == 0
    }

    /// Removes every entry.
    pub fn clear(&mut self)
        requires
            old(self).wf(),
        ensures
            final(self).wf(),
            final(self)@ == Map::<Seq<u8>, Seq<u8>>::empty(),
    {
        self.map.clear();
        assert(self@ =~= Map::<Seq<u8>, Seq<u8>>::empty());
    }

    /// The stored path of a non-empty key; `None` for the empty key.
    fn path_of(key: &str) -> (r: Option<Vec<Coord>>)
        ensures
            key.spec_bytes().len() == 0 ==> r is None,
            key.spec_bytes().len() > 0 ==> (r matches Some(p) && p@ == stored_path(key.spec_bytes())),
    {
        match string_to_coord_path(key) {
            None => None,
            Some(mut path) => {
                let mark = coord_of(256);
                path.push(mark);
                Some(path)
            },
        }
    }

    /// Stores `value` under the bytes of `key`, returning the value it
    /// replaced; other keys are untouched. The empty key stores nothing.
    pub fn insert(&mut self, key: &str, value: Vec<u8>) -> (r: Option<Vec<u8>>)
        requires
            old(self).wf(),
        ensures
            final(self).wf(),
            r is Some <==> old(self)@.contains_key(key.spec_bytes()),
            r matches Some(v) ==> v@ == old(self)@[key.spec_bytes()],
            key.spec_bytes().len() == 0 ==> final(self)@ == old(self)@,
            key.spec_bytes().len() > 0 ==> final(self)@ == old(self)@.insert(key.spec_bytes(), value@),
    {
        let ghost kb = key.spec_bytes();
        proof {
            self.lemma_no_empty_key();
        }
        match Self::path_of(key) {
            None => None,
            Some(path) => {
                proof {
                    lemma_stored_path_shape(kb);
                    lemma_stored_view_insert(self.map@, kb, value);
                }
                self.map.insert(path.as_slice(), value)
            },
        }
    }

    /// The value stored under the bytes of `key`.
    pub fn get(&self, key: &str) -> (r: Option<Vec<u8>>)
        requires
            self.wf(),
        ensures
            r is Some <==> self@.contains_key(key.spec_bytes()),
            r matches Some(v) ==> v@ == self@[key.spec_bytes()],
    {
        proof {
            self.lemma_no_empty_key();
        }
        match Self::path_of(key) {
            None => None,
            Some(path) => match self.map.get(path.as_slice()) {
                Some(v) => Some(copy_bytes(v)),
                None => None,
            },
        }
    }

    /// Removes the value stored under the bytes of `key`, returning it;
    /// other keys are untouched.
    pub fn remove(&mut self, key: &str) -> (r: Option<Vec<u8>>)
        requires
            old(self).wf(),
        ensures
            final(self).wf(),
            final(self)@ == old(self)@.remove(key.spec_bytes()),
            r is Some <==> old(self)@.contains_key(key.spec_bytes()),
            r matches Some(v) ==> v@ == old(self)@[key.spec_bytes()],
    {
        let ghost kb = key.spec_bytes();
        proof {
            self.lemma_no_empty_key();
        }
        match Self::path_of(key) {
            None => {
                proof {
                    assert(self@.remove(kb) =~= self@);
                }
                None
            },
            Some(path) => {
                proof {
                    lemma_stored_path_shape(kb);
                    lemma_stored_view_remove(self.map@, kb);
                }
                self.map.remove(path.as_slice())
            },
        }
    }

    /// `true` when the bytes of `key` hold a value.
    pub fn contains_key(&self, key: &str) -> (r: bool)
        requires
            self.wf(),
        ensures
            r == self@.contains_key(key.spec_bytes()),
    {
        self.get(key).is_some()
    }
}

impl Default for DynCoordKV {
    fn default() -> (r: Self)
        ensures
            r.wf(),
            r@ == Map::<Seq<u8>, Seq<u8>>::empty(),
    {
        DynCoordKV::new()
    }
}

impl CoordKV for DynCoordKV {
    open spec fn kv_wf(&self) -> bool {
        self.wf()
    }

    open spec fn kv_view(&self) -> Map<Seq<u8>, Seq<u8>> {
        self@
    }

    open spec fn insert_ok(&self, key: Seq<u8>) -> bool {
        true
    }

    open spec fn after_insert(&self, key: Seq<u8>, value: Seq<u8>) -> Map<Seq<u8>, Seq<u8>> {
        if key.len() == 0 {
            self@
        } else {
            self@.insert(key, value)
        }
    }

    open spec fn after_remove(&self, key: Seq<u8>) -> Map<Seq<u8>, Seq<u8>> {
        self@.remove(key)
    }

    fn len(&self) -> usize {
        DynCoordKV::len(self)
    }

    fn is_empty(&self) -> bool {
        DynCoordKV::is_empty(self)
    }

    fn clear(&mut self) {
        DynCoordKV::clear(self)
    }

    fn insert(&mut self, key: &str, value: Vec<u8>) -> Option<Vec<u8>> {
        DynCoordKV::insert(self, key, value)
    }

    fn get(&self, key: &str) -> Option<Vec<u8>> {
        DynCoordKV::get(self, key)
    }

    fn remove(&mut self, key: &str) -> Option<Vec<u8>> {
        DynCoordKV::remove(self, key)
    }

    fn contains_key(&self, key: &str) -> bool {
        DynCoordKV::contains_key(self, key)
    }
}

} // verus!
