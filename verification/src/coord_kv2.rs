//! `CoordKV2`: a key-value store for two-byte keys over the dense
//! two-syllable space.
use vstd::prelude::*;
use crate::coord::Coord;
use crate::coord_gen::{CoordKey, byte_coords, is_byte_path, lemma_byte_coords_is_byte_path};
use crate::coord_kv::{CoordKV, CoordKVKey, copy_bytes};
use crate::coord_kv_n::{bytes_view, lemma_bytes_view_insert, lemma_bytes_view_remove, lemma_bytes_view_len};
use crate::coord_space_dense::CoordSpace2;
use vstd::string::StringSliceAdditionalSpecFns;

verus! {

/// A store for keys of exactly two bytes, one coordinate per byte in the
/// dense two-syllable space.
pub struct CoordKV2 {
    space: CoordSpace2<Vec<u8>>,
}

impl View for CoordKV2 {
    type V = Map<Seq<u8>, Seq<u8>>;

    closed spec fn view(&self) -> Map<Seq<u8>, Seq<u8>> {
        bytes_view(self.space@)
    }
}

impl CoordKV2 {
    /// The store is well formed: its space is, and holds only byte paths.
    pub closed spec fn wf(&self) -> bool {
        &&& self.space.wf()
        &&& forall|p: Seq<Coord>| #[trigger] self.space@.contains_key(p) ==> is_byte_path(p)
    }

    /// Every key of the store has 2 bytes.
    pub proof fn lemma_keys(&self)
        requires
            self.wf(),
        ensures
            forall|k: Seq<u8>| #[trigger] self@.contains_key(k) ==> k.len() == 2,
            self@.dom().finite(),
    {
        self.space.lemma_keys();
        lemma_bytes_view_len(self.space@);
        assert forall|k: Seq<u8>| #[trigger] self@.contains_key(k) implies k.len() == 2 by {
            lemma_byte_coords_is_byte_path(k);
        }
    }

    /// Creates an empty store.
    pub fn new() -> (r: Self)
        ensures
            r.wf(),
            r@ == Map::<Seq<u8>, Seq<u8>>::empty(),
    {
        let r = CoordKV2 { space: CoordSpace2::new() };
        assert(r@ =~= Map::<Seq<u8>, Seq<u8>>::empty());
        r
    }

    /// The number of entries.
    pub fn len(&self) -> (r: usize)
        requires
            self.wf(),
        ensures
            r == self@.len(),
    {
        proof {
            self.space.lemma_keys();
            lemma_bytes_view_len(self.space@);
        }
        self.space.len()
    }

    /// `true` when the store is empty.
    pub fn is_empty(&self) -> (r: bool)
        requires
            self.wf(),
        ensures
            r == (self@.len() == 0),
    {
        self.len() == 0
    }

    /// Removes every entry.
    pub fn clear(&mut self)
        requires
            old(self).wf(),
        ensures
            final(self).wf(),
            final(self)@ == Map::<Seq<u8>, Seq<u8>>::empty(),
    {
        self.space.clear();
        assert(self@ =~= Map::<Seq<u8>, Seq<u8>>::empty());
    }

    /// Stores `value` under `key`, returning the value it replaced.
    pub fn insert_by_coordkey(&mut self, key: &CoordKey<2>, value: Vec<u8>) -> (r: Option<Vec<u8>>)
        requires
            old(self).wf(),
            old(self)@.len() < usize::MAX,
        ensures
            final(self).wf(),
            final(self)@ == old(self)@.insert(key@, value@),
            r is Some <==> old(self)@.contains_key(key@),
            r matches Some(v) ==> v@ == old(self)@[key@],
    {
        proof {
            self.space.lemma_keys();
            lemma_bytes_view_len(self.space@);
            lemma_bytes_view_insert(self.space@, key@, value);
            lemma_byte_coords_is_byte_path(key@);
        }
        let path = key.to_coord_path();
        self.space.place_path(&path, value)
    }

    /// The value stored under `key`.
    pub fn get_by_coordkey(&self, key: &CoordKey<2>) -> (r: Option<Vec<u8>>)
        requires
            self.wf(),
        ensures
            r is Some <==> self@.contains_key(key@),
            r matches Some(v) ==> v@ == self@[key@],
    {
        let path = key.to_coord_path();
        match self.space.at_path(&path) {
            Some(v) => Some(copy_bytes(v)),
            None => None,
        }
    }

    /// Removes the value stored under `key`, returning it.
    pub fn remove_by_coordkey(&mut self, key: &CoordKey<2>) -> (r: Option<Vec<u8>>)
        requires
            old(self).wf(),
        ensures
            final(self).wf(),
            final(self)@ == old(self)@.remove(key@),
            r is Some <==> old(self)@.contains_key(key@),
            r matches Some(v) ==> v@ == old(self)@[key@],
    {
        proof {
            lemma_bytes_view_remove(self.space@, key@);
        }
        let path = key.to_coord_path();
        self.space.vacate_path(&path)
    }

    /// `true` when `key` holds a value.
    pub fn contains_key_by_coordkey(&self, key: &CoordKey<2>) -> (r: bool)
        requires
            self.wf(),
        ensures
            r == self@.contains_key(key@),
    {
        self.get_by_coordkey(key).is_some()
    }

    /// Stores `value` under the bytes of `key`, which must have 2 bytes.
    pub fn insert(&mut self, key: &str, value: Vec<u8>) -> (r: Option<Vec<u8>>)
        requires
            old(self).wf(),
            key.spec_bytes().len() == 2,
            old(self)@.len() < usize::MAX,
        ensures
            final(self).wf(),
            final(self)@ == old(self)@.insert(key.spec_bytes(), value@),
            r is Some <==> old(self)@.contains_key(key.spec_bytes()),
            r matches Some(v) ==> v@ == old(self)@[key.spec_bytes()],
    {
        let ck: CoordKey<2> = CoordKey::from_str_const(key);
        self.insert_by_coordkey(&ck, value)
    }

    /// The value stored under the bytes of `key`; `None` when `key` does not
    /// have 2 bytes.
    pub fn get(&self, key: &str) -> (r: Option<Vec<u8>>)
        requires
            self.wf(),
        ensures
            r is Some <==> self@.contains_key(key.spec_bytes()),
            r matches Some(v) ==> v@ == self@[key.spec_bytes()],
    {
        proof {
            self.lemma_keys();
        }
        if key.as_bytes().len() != 2 {
            return None;
        }
        let ck: CoordKey<2> = CoordKey::from_str_const(key);
        self.get_by_coordkey(&ck)
    }

    /// Removes the value stored under the bytes of `key`.
    pub fn remove(&mut self, key: &str) -> (r: Option<Vec<u8>>)
        requires
            old(self).wf(),
        ensures
            final(self).wf(),
            final(self)@ == old(self)@.remove(key.spec_bytes()),
            r is Some <==> old(self)@.contains_key(key.spec_bytes()),
            r matches Some(v) ==> v@ == old(self)@[key.spec_bytes()],
    {
        proof {
            self.lemma_keys();
        }
        if key.as_bytes().len() != 2 {
            assert(self@.remove(key.spec_bytes()) =~= self@);
            return None;
        }
        let ck: CoordKey<2> = CoordKey::from_str_const(key);
        self.remove_by_coordkey(&ck)
    }

    /// `true` when the bytes of `key` hold a value.
    pub fn contains_key(&self, key: &str) -> (r: bool)
        requires
            self.wf(),
        ensures
            r == self@.contains_key(key.spec_bytes()),
    {
        self.get(key).is_some()
    }
}

impl CoordKV for CoordKV2 {
    open spec fn kv_wf(&self) -> bool {
        self.wf()
    }

    open spec fn insert_ok(&self, key: Seq<u8>) -> bool {
        key.len() == 2 && self@.len() < usize::MAX
    }

    open spec fn kv_view(&self) -> Map<Seq<u8>, Seq<u8>> {
        self@
    }

    open spec fn after_insert(&self, key: Seq<u8>, value: Seq<u8>) -> Map<Seq<u8>, Seq<u8>> {
        self@.insert(key, value)
    }

    open spec fn after_remove(&self, key: Seq<u8>) -> Map<Seq<u8>, Seq<u8>> {
        self@.remove(key)
    }

    fn len(&self) -> usize {
        CoordKV2::len(self)
    }

    fn is_empty(&self) -> bool {
        CoordKV2::is_empty(self)
    }

    fn clear(&mut self) {
        CoordKV2::clear(self)
    }

    fn insert(&mut self, key: &str, value: Vec<u8>) -> Option<Vec<u8>> {
        CoordKV2::insert(self, key, value)
    }

    fn get(&self, key: &str) -> Option<Vec<u8>> {
        CoordKV2::get(self, key)
    }

    fn remove(&mut self, key: &str) -> Option<Vec<u8>> {
        CoordKV2::remove(self, key)
    }

    fn contains_key(&self, key: &str) -> bool {
        CoordKV2::contains_key(self, key)
    }
}

impl CoordKVKey<2> for CoordKV2 {
    fn insert_by_coordkey(&mut self, key: &CoordKey<2>, value: Vec<u8>) -> Option<Vec<u8>> {
        CoordKV2::insert_by_coordkey(self, key, value)
    }

    fn get_by_coordkey(&self, key: &CoordKey<2>) -> Option<Vec<u8>> {
        CoordKV2::get_by_coordkey(self, key)
    }

    fn remove_by_coordkey(&mut self, key: &CoordKey<2>) -> Option<Vec<u8>> {
        CoordKV2::remove_by_coordkey(self, key)
    }

    fn contains_key_by_coordkey(&self, key: &CoordKey<2>) -> bool {
        CoordKV2::contains_key_by_coordkey(self, key)
    }
}

} // verus!

verus! {

impl Default for CoordKV2 {
    fn default() -> (r: Self)
        ensures
            r.wf(),
            r@ == Map::<Seq<u8>, Seq<u8>>::empty(),
    {
        CoordKV2::new()
    }
}

} // verus!
