//! The key-value store interface shared by the coordinate-addressed stores.
use vstd::prelude::*;
use crate::coord_gen::CoordKey;
use vstd::string::StringSliceAdditionalSpecFns;

verus! {

/// Core operations of a coordinate-addressed key-value store with string
/// keys (taken as their UTF-8 bytes) and byte-vector values.
pub trait CoordKV {
    /// The store is well formed.
    spec fn kv_wf(&self) -> bool;

    /// The stored entries, by key bytes.
    spec fn kv_view(&self) -> Map<Seq<u8>, Seq<u8>>;

    /// `insert` is defined for `key` in this state.
    spec fn insert_ok(&self, key: Seq<u8>) -> bool;

    /// The entries after storing `value` under `key`.
    spec fn after_insert(&self, key: Seq<u8>, value: Seq<u8>) -> Map<Seq<u8>, Seq<u8>>;

    /// The entries after removing `key`.
    spec fn after_remove(&self, key: Seq<u8>) -> Map<Seq<u8>, Seq<u8>>;

    /// The number of stored entries.
    fn len(&self) -> (r: usize)
        requires
            self.kv_wf(),
        ensures
            r == self.kv_view().len();

    /// `true` when the store is empty.
    fn is_empty(&self) -> (r: bool)
        requires
            self.kv_wf(),
        ensures
            r == (self.kv_view().len() == 0);

    /// Removes every entry.
    fn clear(&mut self)
        requires
            old(self).kv_wf(),
        ensures
            final(self).kv_wf(),
            final(self).kv_view() == Map::<Seq<u8>, Seq<u8>>::empty();

    /// Stores `value` under `key`, returning the value it replaced.
    fn insert(&mut self, key: &str, value: Vec<u8>) -> (r: Option<Vec<u8>>)
        requires
            old(self).kv_wf(),
            old(self).insert_ok(key.spec_bytes()),
        ensures
            final(self).kv_wf(),
            final(self).kv_view() == old(self).after_insert(key.spec_bytes(), value@),
            r is Some <==> old(self).kv_view().contains_key(key.spec_bytes()),
            r matches Some(v) ==> v@ == old(self).kv_view()[key.spec_bytes()];

    /// The value stored under `key`.
    fn get(&self, key: &str) -> (r: Option<Vec<u8>>)
        requires
            self.kv_wf(),
        ensures
            r is Some <==> self.kv_view().contains_key(key.spec_bytes()),
            r matches Some(v) ==> v@ == self.kv_view()[key.spec_bytes()];

    /// Removes the value stored under `key`, returning it.
    fn remove(&mut self, key: &str) -> (r: Option<Vec<u8>>)
        requires
            old(self).kv_wf(),
        ensures
            final(self).kv_wf(),
            final(self).kv_view() == old(self).after_remove(key.spec_bytes()),
            r is Some <==> old(self).kv_view().contains_key(key.spec_bytes()),
            r matches Some(v) ==> v@ == old(self).kv_view()[key.spec_bytes()];

    /// `true` when `key` holds a value.
    fn contains_key(&self, key: &str) -> (r: bool)
        requires
            self.kv_wf(),
        ensures
            r == self.kv_view().contains_key(key.spec_bytes());
}

/// Access by fixed-length `CoordKey<N>` for stores whose keys have `N`
/// bytes.
pub trait CoordKVKey<const N: usize>: CoordKV {
    /// Stores `value` under `key`, returning the value it replaced.
    fn insert_by_coordkey(&mut self, key: &CoordKey<N>, value: Vec<u8>) -> (r: Option<Vec<u8>>)
        requires
            old(self).kv_wf(),
            old(self).insert_ok(key@),
        ensures
            final(self).kv_wf(),
            final(self).kv_view() == old(self).after_insert(key@, value@),
            r is Some <==> old(self).kv_view().contains_key(key@),
            r matches Some(v) ==> v@ == old(self).kv_view()[key@];

    /// The value stored under `key`.
    fn get_by_coordkey(&self, key: &CoordKey<N>) -> (r: Option<Vec<u8>>)
        requires
            self.kv_wf(),
        ensures
            r is Some <==> self.kv_view().contains_key(key@),
            r matches Some(v) ==> v@ == self.kv_view()[key@];

    /// Removes the value stored under `key`, returning it.
    fn remove_by_coordkey(&mut self, key: &CoordKey<N>) -> (r: Option<Vec<u8>>)
        requires
            old(self).kv_wf(),
        ensures
            final(self).kv_wf(),
            final(self).kv_view() == old(self).after_remove(key@),
            r is Some <==> old(self).kv_view().contains_key(key@),
            r matches Some(v) ==> v@ == old(self).kv_view()[key@];

    /// `true` when `key` holds a value.
    fn contains_key_by_coordkey(&self, key: &CoordKey<N>) -> (r: bool)
        requires
            self.kv_wf(),
        ensures
            r == self.kv_view().contains_key(key@);
}

/// A copy of a byte vector.
pub fn copy_bytes(v: &Vec<u8>) -> (r: Vec<u8>)
    ensures
        r@ == v@,
{
    let r = v.clone();
    assert(r@ =~= v@);
    r
}

} // verus!
