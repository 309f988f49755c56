//! `CoordSpace2<V>`: the dense two-syllable space, addressed by the linear
//! index `c0 * 11172 + c1` of its paths.
use vstd::prelude::*;
use crate::coord::Coord;
use crate::coord_path::CoordPath;
use crate::coord_space_n::CoordSpaceN;
use vstd::std_specs::cmp::PartialEqSpec;
use vstd::wrapping::usize_specs::{wrapping_add, wrapping_mul};

verus! {

/// The linear index of the coordinate offsets `s`, read as base-11172 digits
/// (most significant first), in wrapping `usize` arithmetic.
pub open spec fn linear_spec(s: Seq<Coord>) -> usize
    decreases s.len(),
{
    if s.len() == 0 {
        0
    } else {
        wrapping_add(wrapping_mul(linear_spec(s.drop_last()), 11172), s.last().idx() as usize)
    }
}

/// The linear index of a path in a dense array: `c0` for one coordinate,
/// `c0 * 11172 + c1` for two, and so on (wrapping on overflow).
pub fn linear_index<const N: usize>(path: &CoordPath<N>) -> (r: usize)
    ensures
        r == linear_spec(path@),
{
    let mut idx: usize = 0;
    let mut i: usize = 0;
    while i < N
        invariant
            i <= N,
            path@.len() == N,
            idx == linear_spec(path@.take(i as int)),
        decreases N - i,
    {
        let c = path.coords()[i];
        proof {
            assert(path@.take(i + 1).drop_last() =~= path@.take(i as int));
            assert(path@.take(i + 1).last() == path@[i as int]);
        }
        idx = idx.wrapping_mul(11172).wrapping_add(c.index() as usize);
        i = i + 1;
    }
    proof {
        assert(path@.take(N as int) =~= path@);
    }
    idx
}

/// For two coordinates the linear index is `c0 * 11172 + c1`, below
/// `11172 * 11172`.
pub proof fn lemma_linear2(s: Seq<Coord>)
    requires
        s.len() == 2,
        s[0].idx() < 11172,
        s[1].idx() < 11172,
    ensures
        linear_spec(s) == s[0].idx() * 11172 + s[1].idx(),
        linear_spec(s) < 11172 * 11172,
{
    let s1 = s.drop_last();
    assert(s1.drop_last() =~= Seq::<Coord>::empty());
    assert(s1.last() == s[0]);
    assert(s1.len() == 1);
    let c0 = s[0].idx();
    let c1 = s[1].idx();
    assert(usize::MAX >= 0xffff_ffff);
    assert(linear_spec(s1.drop_last()) == 0);
    assert(wrapping_mul(0usize, 11172) == 0usize);
    assert(linear_spec(s1) == c0);
    assert((c0 * 11172) % (usize::MAX - usize::MIN + 1) == c0 * 11172);
    assert(wrapping_mul(c0 as usize, 11172) == c0 * 11172);
    assert(linear_spec(s) == c0 * 11172 + c1);
    assert(s[0].idx() * 11172 + s[1].idx() < 11172 * 11172) by (nonlinear_arith)
        requires
            0 <= s[0].idx() < 11172,
            0 <= s[1].idx() < 11172,
    ;
}

/// A dense space over all two-syllable paths: every path is one slot of a
/// `11172 * 11172` array, stored in lazily created pages of 11,172 slots.
#[derive(Debug)]
pub struct CoordSpace2<V> {
    pages: CoordSpaceN<2, V>,
}

impl<V> View for CoordSpace2<V> {
    type V = Map<Seq<Coord>, V>;

    closed spec fn view(&self) -> Map<Seq<Coord>, V> {
        self.pages@
    }
}

impl<V> CoordSpace2<V> {
    /// The space is well formed.
    pub closed spec fn wf(&self) -> bool {
        self.pages.wf()
    }

    /// A well-formed space has finitely many entries, under paths of two
    /// valid coordinates.
    pub proof fn lemma_keys(&self)
        requires
            self.wf(),
        ensures
            self@.dom().finite(),
            forall|p: Seq<Coord>|
                #[trigger] self@.contains_key(p) ==> p.len() == 2 && forall|j: int|
                    0 <= j < p.len() ==> (#[trigger] p[j]).idx() < 11172,
    {
        self.pages.lemma_keys();
        self.pages.lemma_finite();
    }

    /// Creates an empty dense space.
    pub fn new() -> (r: Self)
        ensures
            r.wf(),
            r@ == Map::<Seq<Coord>, V>::empty(),
    {
        CoordSpace2 { pages: CoordSpaceN::new() }
    }

    /// The number of occupied slots.
    pub fn len(&self) -> (r: usize)
        requires
            self.wf(),
        ensures
            r == self@.len(),
    {
        self.pages.len()
    }

    /// `true` when no slot is occupied.
    pub fn is_empty(&self) -> (r: bool)
        requires
            self.wf(),
        ensures
            r == (self@.len() == 0),
    {
        self.pages.is_empty()
    }

    /// The number of slots, `11172 * 11172`.
    pub fn capacity(&self) -> (r: usize)
        ensures
            r == 11172 * 11172,
    {
        124_813_584
    }

    /// The value at `path`.
    pub fn at_path(&self, path: &CoordPath<2>) -> (r: Option<&V>)
        requires
            self.wf(),
        ensures
            r is Some <==> self@.contains_key(path@),
            r matches Some(v) ==> *v == self@[path@],
    {
        self.pages.at_path(path)
    }

    /// Places `value` at `path`, returning the value it replaced.
    pub fn place_path(&mut self, path: &CoordPath<2>, value: V) -> (r: Option<V>)
        requires
            old(self).wf(),
        ensures
            final(self).wf(),
            final(self)@ == old(self)@.insert(path@, value),
            r == old(self)@.get(path@),
    {
        proof {
            self.lemma_len_bound();
        }
        self.pages.place_path(path, value)
    }

    /// Removes the value at `path`, returning it if there was one.
    pub fn vacate_path(&mut self, path: &CoordPath<2>) -> (r: Option<V>)
        requires
            old(self).wf(),
        ensures
            final(self).wf(),
            final(self)@ == old(self)@.remove(path@),
            r == old(self)@.get(path@),
    {
        self.pages.vacate_path(path)
    }

    /// Removes every value.
    pub fn clear(&mut self)
        requires
            old(self).wf(),
        ensures
            final(self).wf(),
            final(self)@ == Map::<Seq<Coord>, V>::empty(),
    {
        self.pages.clear()
    }

    /// Builds a space from pairs; a later pair for the same path replaces an
    /// earlier one.
    pub fn from_pairs(pairs: Vec<(CoordPath<2>, V)>) -> (r: Self)
        ensures
            r.wf(),
            r@ == dense_pairs(Map::<Seq<Coord>, V>::empty(), pairs@),
    {
        let mut space = CoordSpace2::new();
        let ghost all = pairs@;
        for e in it: pairs.into_iter()
            invariant
                space.wf(),
                it.seq() == all,
                space@ == dense_pairs(Map::<Seq<Coord>, V>::empty(), all.take(it.index())),
        {
            let (path, value) = e;
            proof {
                assert(all.take(it.index() + 1).drop_last() =~= all.take(it.index()));
            }
            space.place_path(&path, value);
        }
        proof {
            assert(all.take(all.len() as int) =~= all);
        }
        space
    }

    /// The number of entries is below `usize::MAX`: there are only
    /// `11172 * 11172` slots.
    proof fn lemma_len_bound(&self)
        requires
            self.wf(),
        ensures
            self@.len() < usize::MAX,
    {
        self.pages.lemma_keys();
        self.pages.lemma_finite();
        let dom = self@.dom();
        let x = vstd::set_lib::set_int_range(0, 124_813_584int);
        let f = |k: Seq<Coord>| linear_spec(k) as int;
        assert(vstd::relations::injective_on(f, dom)) by {
            assert forall|a: Seq<Coord>, b: Seq<Coord>| dom.contains(a) && dom.contains(b) && #[trigger] f(a) == #[trigger] f(b) implies a == b by {
                lemma_linear2(a);
                lemma_linear2(b);
                assert(a[0].idx() == b[0].idx() && a[1].idx() == b[1].idx()) by (nonlinear_arith)
                    requires
                        a[0].idx() * 11172 + a[1].idx() == b[0].idx() * 11172 + b[1].idx(),
                        0 <= a[1].idx() < 11172,
                        0 <= b[1].idx() < 11172,
                ;
                crate::coord::lemma_coord_eq(a[0], b[0]);
                crate::coord::lemma_coord_eq(a[1], b[1]);
                assert(a =~= b);
            }
        }
        assert(dom.map(f).subset_of(x)) by {
            assert forall|i: int| dom.map(f).contains(i) implies x.contains(i) by {
                let k = choose|k: Seq<Coord>| dom.contains(k) && f(k) == i;
                lemma_linear2(k);
            }
        }
        vstd::set_lib::lemma_map_size(dom, dom.map(f), f);
        vstd::set_lib::lemma_int_range(0, 124_813_584int);
        vstd::set_lib::lemma_len_subset(dom.map(f), x);
    }
}

/// `m` after placing the pairs of `s` in order.
pub open spec fn dense_pairs<V>(m: Map<Seq<Coord>, V>, s: Seq<(CoordPath<2>, V)>) -> Map<Seq<Coord>, V>
    decreases s.len(),
{
    if s.len() == 0 {
        m
    } else {
        dense_pairs(m, s.drop_last()).insert(s.last().0@, s.last().1)
    }
}

impl<V> Default for CoordSpace2<V> {
    fn default() -> (r: Self)
        ensures
            r.wf(),
            r@ == Map::<Seq<Coord>, V>::empty(),
    {
        CoordSpace2::new()
    }
}

} // verus!

verus! {

impl<V: Clone> CoordSpace2<V> {
    /// An independent copy of the space, with every value cloned.
    pub fn clone(&self) -> (r: Self)
        requires
            self.wf(),
        ensures
            r.wf(),
            r@.dom() == self@.dom(),
            forall|p: Seq<Coord>| #[trigger] self@.contains_key(p) ==> cloned::<V>(self@[p], r@[p]),
    {
        CoordSpace2 { pages: self.pages.clone() }
    }
}

impl<V: PartialEq> CoordSpace2<V> {
    /// `true` when both spaces hold the same paths with equal values.
    pub fn eq(&self, other: &Self) -> (r: bool)
        requires
            self.wf(),
            other.wf(),
        ensures
            V::obeys_eq_spec() ==> r == crate::coord_space_n::same_entries(self@, other@),
    {
        self.pages.eq(&other.pages)
    }
}

} // verus!
