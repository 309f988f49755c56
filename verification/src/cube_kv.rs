//! Spatial queries over the fixed-key stores: the stored entries whose key
//! paths fall in a bounding box or in a Chebyshev neighbourhood.
use vstd::prelude::*;
use crate::coord::Coord;
use crate::coord_path::CoordPath;
use crate::coord_cube::CoordCube;
use crate::coord_gen::CoordKey;
use crate::coord_kv2::CoordKV2;
use crate::coord_kv_n::CoordKVN;
use crate::spatial::{
    BoundingBoxIter, SpatialOps, valid_ranges, start_pending, lex_lt, box_path, offsets,
    proximity_ranges, lemma_lex_asym,
};

verus! {

/// The key bytes of a path: each coordinate's offset kept to its low 8
/// bits.
pub open spec fn low_bytes(p: Seq<Coord>) -> Seq<u8> {
    p.map_values(|c: Coord| (c.idx() % 256) as u8)
}

impl<const N: usize> CoordKey<N> {
    /// The key whose bytes are the low 8 bits of the path's offsets.
    pub fn from_coord_path(path: &CoordPath<N>) -> (r: Self)
        ensures
            r@ == low_bytes(path@),
    {
        let coords = path.coords();
        let mut bytes: [u8; N] = [0u8; N];
        let mut i: usize = 0;
        while i < N
            invariant
                i <= N,
                bytes@.len() == N,
                coords@ == path@,
                coords@.len() == N,
                forall|j: int| 0 <= j < i ==> #[trigger] bytes@[j] == (path@[j].idx() % 256) as u8,
            decreases N - i,
        {
            let idx = coords[i].index();
            bytes[i] = (idx % 256) as u8;
            i = i + 1;
        }
        let r = CoordKey::new(bytes);
        assert(r@ =~= low_bytes(path@));
        r
    }
}

/// Lookup of a stored value by the key of a path.
pub trait CoordPathLookup<const N: usize> {
    /// The store is well formed.
    spec fn lookup_wf(&self) -> bool;

    /// The stored entries, by key bytes.
    spec fn lookup_entries(&self) -> Map<Seq<u8>, Seq<u8>>;

    /// The value stored under the key of `path`.
    fn get_by_coordpath(&self, path: &CoordPath<N>) -> (r: Option<Vec<u8>>)
        requires
            self.lookup_wf(),
        ensures
            r is Some <==> self.lookup_entries().contains_key(low_bytes(path@)),
            r matches Some(v) ==> v@ == self.lookup_entries()[low_bytes(path@)];
}

impl CoordPathLookup<2> for CoordKV2 {
    open spec fn lookup_wf(&self) -> bool {
        self.wf()
    }

    open spec fn lookup_entries(&self) -> Map<Seq<u8>, Seq<u8>> {
        self@
    }

    fn get_by_coordpath(&self, path: &CoordPath<2>) -> (r: Option<Vec<u8>>) {
        let key = CoordKey::from_coord_path(path);
        self.get_by_coordkey(&key)
    }
}

impl<const N: usize> CoordPathLookup<N> for CoordKVN<N> {
    open spec fn lookup_wf(&self) -> bool {
        self.wf()
    }

    open spec fn lookup_entries(&self) -> Map<Seq<u8>, Seq<u8>> {
        self@
    }

    fn get_by_coordpath(&self, path: &CoordPath<N>) -> (r: Option<Vec<u8>>) {
        let key = CoordKey::from_coord_path(path);
        self.get_by_coordkey(&key)
    }
}

/// The box point `q` has a stored entry.
pub open spec fn is_hit(store: Map<Seq<u8>, Seq<u8>>, q: Seq<u16>) -> bool {
    store.contains_key(low_bytes(box_path(q)))
}

/// `out` lists, in lexicographic order and each once, the paths of the
/// enumeration of the box `rs` that have a stored entry, with their values.
pub open spec fn lists_hits<const N: usize>(
    store: Map<Seq<u8>, Seq<u8>>,
    rs: Seq<(u16, u16)>,
    out: Seq<(CoordPath<N>, Vec<u8>)>,
) -> bool {
    &&& forall|k: int| 0 <= k < out.len() ==> {
        let q = offsets((#[trigger] out[k]).0@);
        &&& out[k].0@ == box_path(q)
        &&& start_pending(rs).contains(q)
        &&& is_hit(store, q)
        &&& out[k].1@ == store[low_bytes(out[k].0@)]
    }
    &&& forall|k: int, l: int| 0 <= k < l < out.len() ==> lex_lt(offsets((#[trigger] out[k]).0@), offsets((#[trigger] out[l]).0@))
    &&& forall|q: Seq<u16>| #[trigger] start_pending(rs).contains(q) && is_hit(store, q) ==>
        exists|k: int| 0 <= k < out.len() && offsets((#[trigger] out[k]).0@) == q
}

/// Collects the entries of `store` found along the enumeration `it`.
fn collect_hits<const N: usize, S: CoordPathLookup<N>>(store: &S, enumeration: BoundingBoxIter<N>) -> (out: Vec<(CoordPath<N>, Vec<u8>)>)
    requires
        store.lookup_wf(),
        enumeration.wf(),
        enumeration.fresh(),
    ensures
        lists_hits(store.lookup_entries(), enumeration.bounds(), out@),
{
    let ghost rs = enumeration.bounds();
    let ghost m = store.lookup_entries();
    let mut it = enumeration;
    let mut out: Vec<(CoordPath<N>, Vec<u8>)> = Vec::new();
    proof {
        if !it.done() {
            crate::spatial::lemma_rank_bound(it.position(), it.bounds());
        }
    }
    loop
        invariant
            store.lookup_wf(),
            m == store.lookup_entries(),
            it.wf(),
            it.bounds() == rs,
            rs == enumeration.bounds(),
            it.remaining() >= 0,
            it.pending().subset_of(start_pending(rs)),
            forall|k: int| 0 <= k < out@.len() ==> {
                let q = offsets((#[trigger] out@[k]).0@);
                &&& out@[k].0@ == box_path(q)
                &&& start_pending(rs).contains(q)
                &&& is_hit(m, q)
                &&& out@[k].1@ == m[low_bytes(out@[k].0@)]
            },
            forall|k: int, l: int| 0 <= k < l < out@.len() ==> lex_lt(offsets((#[trigger] out@[k]).0@), offsets((#[trigger] out@[l]).0@)),
            forall|k: int, d: Seq<u16>| 0 <= k < out@.len() && #[trigger] it.pending().contains(d) ==> lex_lt(offsets((#[trigger] out@[k]).0@), d),
            forall|q: Seq<u16>| #[trigger] start_pending(rs).contains(q) && !it.pending().contains(q) && is_hit(m, q) ==>
                exists|k: int| 0 <= k < out@.len() && offsets((#[trigger] out@[k]).0@) == q,
        decreases it.remaining(),
    {
        let ghost before = it;
        match it.next() {
            None => {
                proof {
                    assert(before.pending() =~= Set::<Seq<u16>>::empty());
                }
                return out;
            },
            Some(path) => {
                let ghost q = offsets(path@);
                let found = store.get_by_coordpath(&path);
                match found {
                    Some(v) => {
                        let ghost n0 = out@.len();
                        let ghost prev = out@;
                        out.push((path, v));
                        proof {
                            assert(out@[n0 as int].0@ == path@);
                            assert forall|k: int, l: int| 0 <= k < l < out@.len() implies lex_lt(offsets((#[trigger] out@[k]).0@), offsets((#[trigger] out@[l]).0@)) by {
                                if l == n0 {
                                    assert(before.pending().contains(q));
                                }
                            }
                            assert forall|k: int, d: Seq<u16>| 0 <= k < out@.len() && #[trigger] it.pending().contains(d) implies lex_lt(offsets((#[trigger] out@[k]).0@), d) by {
                                assert(before.pending().contains(d));
                                if k == n0 {
                                    assert(d != q);
                                }
                            }
                            assert forall|p: Seq<u16>| #[trigger] start_pending(rs).contains(p) && !it.pending().contains(p) && is_hit(m, p) implies
                                exists|k: int| 0 <= k < out@.len() && offsets((#[trigger] out@[k]).0@) == p by {
                                if p == q {
                                    assert(offsets(out@[n0 as int].0@) == p);
                                } else {
                                    assert(!before.pending().contains(p));
                                    let k = choose|k: int| 0 <= k < prev.len() && offsets((#[trigger] prev[k]).0@) == p;
                                    assert(out@[k] == prev[k]);
                                }
                            }
                        }
                    },
                    None => {
                        proof {
                            assert forall|p: Seq<u16>| #[trigger] start_pending(rs).contains(p) && !it.pending().contains(p) && is_hit(m, p) implies
                                exists|k: int| 0 <= k < out@.len() && offsets((#[trigger] out@[k]).0@) == p by {
                                if p != q {
                                    assert(!before.pending().contains(p));
                                }
                            }
                        }
                    },
                }
            },
        }
    }
}

/// Spatial queries on a store whose keys are paths of depth `N`.
pub trait CoordCubeKV<const N: usize> {
    /// The store is well formed.
    spec fn cube_kv_wf(&self) -> bool;

    /// The stored entries, by key bytes.
    spec fn cube_entries(&self) -> Map<Seq<u8>, Seq<u8>>;

    /// The entries whose key paths lie within Chebyshev distance `radius`
    /// of `center`, read as a `CoordCube<N, D, R>` (`D * R` must be `N`),
    /// in lexicographic order of the paths.
    fn proximity<const D: usize, const R: usize>(&self, center: &CoordPath<N>, radius: usize) -> (r: Vec<(CoordPath<N>, Vec<u8>)>)
        requires
            self.cube_kv_wf(),
            D * R == N,
            forall|i: int| 0 <= i < center@.len() ==> #[trigger] center@[i].idx() + radius <= usize::MAX,
        ensures
            lists_hits(self.cube_entries(), proximity_ranges(center@, radius as int), r@);

    /// The entries whose key paths lie in the box with the given
    /// per-syllable `(min, max)` ranges, in lexicographic order of the paths.
    fn bounding_box_range(&self, ranges: &[(u16, u16); N]) -> (r: Vec<(CoordPath<N>, Vec<u8>)>)
        requires
            self.cube_kv_wf(),
            valid_ranges(ranges@),
        ensures
            lists_hits(self.cube_entries(), ranges@, r@);
}

impl CoordCubeKV<2> for CoordKV2 {
    open spec fn cube_kv_wf(&self) -> bool {
        self.wf()
    }

    open spec fn cube_entries(&self) -> Map<Seq<u8>, Seq<u8>> {
        self@
    }

    fn proximity<const D: usize, const R: usize>(&self, center: &CoordPath<2>, radius: usize) -> (r: Vec<(CoordPath<2>, Vec<u8>)>) {
        let cube = CoordCube::<2, D, R>::from_path(*center);
        let it = cube.proximity(radius);
        collect_hits(self, it)
    }

    fn bounding_box_range(&self, ranges: &[(u16, u16); 2]) -> (r: Vec<(CoordPath<2>, Vec<u8>)>) {
        collect_hits(self, BoundingBoxIter::<2>::new(*ranges))
    }
}

impl<const N: usize> CoordCubeKV<N> for CoordKVN<N> {
    open spec fn cube_kv_wf(&self) -> bool {
        self.wf()
    }

    open spec fn cube_entries(&self) -> Map<Seq<u8>, Seq<u8>> {
        self@
    }

    fn proximity<const D: usize, const R: usize>(&self, center: &CoordPath<N>, radius: usize) -> (r: Vec<(CoordPath<N>, Vec<u8>)>) {
        let cube = CoordCube::<N, D, R>::from_path(*center);
        let it = cube.proximity(radius);
        collect_hits(self, it)
    }

    fn bounding_box_range(&self, ranges: &[(u16, u16); N]) -> (r: Vec<(CoordPath<N>, Vec<u8>)>) {
        collect_hits(self, BoundingBoxIter::<N>::new(*ranges))
    }
}

} // verus!
