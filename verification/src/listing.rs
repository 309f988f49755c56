//! Specifications shared by the enumerations of one-level coordinate maps.
use vstd::prelude::*;
use crate::coord::Coord;

verus! {

/// `out` lists the entries of `m` in increasing coordinate order, each
/// exactly once.
pub open spec fn lists<V>(m: Map<Coord, V>, out: Seq<(Coord, V)>) -> bool {
    &&& forall|k: int|
        0 <= k < out.len() ==> m.contains_key((#[trigger] out[k]).0) && m[out[k].0] == out[k].1
    &&& forall|k: int, l: int|
        0 <= k < l < out.len() ==> (#[trigger] out[k]).0.idx() < (#[trigger] out[l]).0.idx()
    &&& forall|c: Coord|
        #[trigger] m.contains_key(c) ==> exists|k: int| 0 <= k < out.len() && (#[trigger] out[k]).0 == c
}

/// The pairs of `s` with their references followed.
pub open spec fn deref_pairs<V>(s: Seq<(Coord, &V)>) -> Seq<(Coord, V)> {
    s.map_values(|e: (Coord, &V)| (e.0, *e.1))
}

/// The coordinates of a listing.
pub open spec fn keys_of<V>(s: Seq<(Coord, V)>) -> Seq<Coord> {
    s.map_values(|e: (Coord, V)| e.0)
}

/// The values of a listing.
pub open spec fn values_of<V>(s: Seq<(Coord, V)>) -> Seq<V> {
    s.map_values(|e: (Coord, V)| e.1)
}

} // verus!

verus! {

/// The map built by storing the pairs of `s` in order; a later pair for the
/// same coordinate replaces an earlier one.
pub open spec fn map_of_pairs<V>(s: Seq<(Coord, V)>) -> Map<Coord, V>
    decreases s.len(),
{
    if s.len() == 0 {
        Map::empty()
    } else {
        map_of_pairs(s.drop_last()).insert(s.last().0, s.last().1)
    }
}

/// The prefix of length `k + 1` adds the pair at `k` to the prefix of
/// length `k`.
pub proof fn lemma_map_of_pairs_step<V>(s: Seq<(Coord, V)>, k: int)
    requires
        0 <= k < s.len(),
    ensures
        map_of_pairs(s.take(k + 1)) == map_of_pairs(s.take(k)).insert(s[k].0, s[k].1),
{
    assert(s.take(k + 1).drop_last() =~= s.take(k));
}

} // verus!

verus! {

/// `out` lists the members of `s` in increasing coordinate order, each
/// exactly once.
pub open spec fn lists_set(s: Set<Coord>, out: Seq<Coord>) -> bool {
    &&& forall|k: int| 0 <= k < out.len() ==> s.contains(#[trigger] out[k])
    &&& forall|k: int, l: int| 0 <= k < l < out.len() ==> (#[trigger] out[k]).idx() < (#[trigger] out[l]).idx()
    &&& forall|c: Coord| #[trigger] s.contains(c) ==> exists|k: int| 0 <= k < out.len() && out[k] == c
}

/// The members of `s` whose offset is below `i`.
pub open spec fn below(s: Set<Coord>, i: int) -> Set<Coord> {
    s.filter(|c: Coord| c.idx() < i)
}

} // verus!

verus! {

/// `out` lists the entries of the path-keyed map `m`, each exactly once.
pub open spec fn lists_paths<V>(m: Map<Seq<Coord>, V>, out: Seq<(Seq<Coord>, V)>) -> bool {
    &&& forall|k: int|
        0 <= k < out.len() ==> m.contains_key((#[trigger] out[k]).0) && m[out[k].0] == out[k].1
    &&& forall|k: int, l: int| 0 <= k < l < out.len() ==> (#[trigger] out[k]).0 != (#[trigger] out[l]).0
    &&& forall|p: Seq<Coord>|
        #[trigger] m.contains_key(p) ==> exists|k: int| 0 <= k < out.len() && (#[trigger] out[k]).0 == p
}

} // verus!

verus! {

/// A listing of a map's entries, each once, has as many elements as the map
/// has entries, and the map is finite.
pub proof fn lemma_lists_paths_len<V>(m: Map<Seq<Coord>, V>, out: Seq<(Seq<Coord>, V)>)
    requires
        lists_paths(m, out),
    ensures
        m.dom().finite(),
        m.dom().len() == out.len(),
{
    let keys = out.map_values(|e: (Seq<Coord>, V)| e.0);
    assert(keys.no_duplicates()) by {
        assert forall|i: int, j: int| 0 <= i < keys.len() && 0 <= j < keys.len() && i != j implies keys[i] != keys[j] by {
            if i < j {
                assert(out[i].0 != out[j].0);
            } else {
                assert(out[j].0 != out[i].0);
            }
        }
    }
    assert(keys.to_set() =~= m.dom()) by {
        assert forall|p: Seq<Coord>| keys.to_set().contains(p) <==> m.dom().contains(p) by {
            if m.dom().contains(p) {
                let k = choose|k: int| 0 <= k < out.len() && (#[trigger] out[k]).0 == p;
                assert(keys[k] == p);
            }
            if keys.to_set().contains(p) {
                let k = choose|k: int| 0 <= k < keys.len() && keys[k] == p;
                assert(out[k].0 == p);
            }
        }
    }
    keys.unique_seq_to_set();
    vstd::seq_lib::seq_to_set_is_finite(keys);
}

} // verus!

verus! {

/// `a` comes before `b` in depth-first, coordinate-ascending order: at the
/// first position where they differ `a` has the smaller coordinate, or `a`
/// is a proper prefix of `b`.
pub open spec fn path_before(a: Seq<Coord>, b: Seq<Coord>) -> bool {
    ||| exists|j: int|
        #![trigger a.take(j), b.take(j)]
        0 <= j < a.len() && j < b.len() && a.take(j) == b.take(j) && a[j].idx() < b[j].idx()
    ||| (a.len() < b.len() && b.take(a.len() as int) == a)
}

/// The paths of `out` come in depth-first, coordinate-ascending order.
pub open spec fn in_path_order<V>(out: Seq<(Seq<Coord>, V)>) -> bool {
    forall|k: int, l: int| 0 <= k < l < out.len() ==> path_before(#[trigger] out[k].0, #[trigger] out[l].0)
}

} // verus!
