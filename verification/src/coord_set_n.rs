//! `CoordSetN<N>`: a sparse set of depth-`N` coordinate paths.
use vstd::prelude::*;
use crate::coord::Coord;
use crate::coord_path::CoordPath;
use crate::coord_space_n::{CoordSpaceN, TreeIter, tree_items};
use crate::listing::{lists_paths, in_path_order};
use vstd::std_specs::iter::IteratorSpec;

verus! {

/// A sparse set of paths of depth `N`, backed by a `CoordSpaceN` tree
/// whose nodes are allocated on first use.
pub struct CoordSetN<const N: usize>(CoordSpaceN<N, ()>);

/// The map with the members of `s` as keys, each holding `()`.
pub open spec fn unit_map(s: Set<Seq<Coord>>) -> Map<Seq<Coord>, ()> {
    Map::new(|p: Seq<Coord>| s.contains(p), |p: Seq<Coord>| ())
}

/// The paths of a listing of tree entries.
pub open spec fn listed_paths<const N: usize>(e: Seq<(CoordPath<N>, &())>) -> Set<Seq<Coord>> {
    e.map_values(|x: (CoordPath<N>, &())| x.0@).to_set()
}

/// Which paths a merge step keeps: all, those in `other`, or those not in
/// `other`.
pub open spec fn keeps(mode: u8, other: Set<Seq<Coord>>, p: Seq<Coord>) -> bool {
    if mode == 0 {
        true
    } else if mode == 1 {
        other.contains(p)
    } else {
        !other.contains(p)
    }
}

impl<const N: usize> View for CoordSetN<N> {
    type V = Set<Seq<Coord>>;

    closed spec fn view(&self) -> Set<Seq<Coord>> {
        self.0@.dom()
    }
}

impl<const N: usize> CoordSetN<N> {
    /// The set is well formed.
    pub closed spec fn wf(&self) -> bool {
        self.0.wf()
    }

    /// Every member has `N` coordinates (`N` is positive), and the set is
    /// finite.
    pub proof fn lemma_members(&self)
        requires
            self.wf(),
        ensures
            N > 0,
            self@.finite(),
            self@.len() <= usize::MAX,
            forall|p: Seq<Coord>| #[trigger] self@.contains(p) ==> p.len() == N,
    {
        self.0.lemma_keys();
        self.0.lemma_finite();
    }

    /// Creates an empty set; `N` must be at least 1.
    pub fn new() -> (r: Self)
        requires
            N > 0,
        ensures
            r.wf(),
            r@ == Set::<Seq<Coord>>::empty(),
    {
        let r = CoordSetN(CoordSpaceN::new());
        assert(r@ =~= Set::<Seq<Coord>>::empty());
        r
    }

    /// The number of members.
    pub fn len(&self) -> (r: usize)
        requires
            self.wf(),
        ensures
            r == self@.len(),
    {
        self.0.len()
    }

    /// `true` when the set has no member.
    pub fn is_empty(&self) -> (r: bool)
        requires
            self.wf(),
        ensures
            r == (self@.len() == 0),
    {
        self.0.is_empty()
    }

    /// `true` when `path` is a member.
    pub fn contains(&self, path: CoordPath<N>) -> (r: bool)
        requires
            self.wf(),
        ensures
            r == self@.contains(path@),
    {
        self.0.at_path(&path).is_some()
    }

    /// Adds `path`; `true` when it was not a member before.
    pub fn insert(&mut self, path: CoordPath<N>) -> (r: bool)
        requires
            old(self).wf(),
            old(self)@.len() < usize::MAX,
        ensures
            final(self).wf(),
            final(self)@ == old(self)@.insert(path@),
            r == !old(self)@.contains(path@),
    {
        let r = self.0.place_path(&path, ()).is_none();
        assert(self@ =~= old(self)@.insert(path@));
        r
    }

    /// Removes every member.
    pub fn clear(&mut self)
        requires
            old(self).wf(),
        ensures
            final(self).wf(),
            final(self)@ == Set::<Seq<Coord>>::empty(),
    {
        self.0.clear();
        assert(self@ =~= Set::<Seq<Coord>>::empty());
    }

    /// Removes `path`; `true` when it was a member.
    pub fn remove(&mut self, path: CoordPath<N>) -> (r: bool)
        requires
            old(self).wf(),
        ensures
            final(self).wf(),
            final(self)@ == old(self)@.remove(path@),
            r == old(self)@.contains(path@),
    {
        let r = self.0.vacate_path(&path).is_some();
        assert(self@ =~= old(self)@.remove(path@));
        r
    }

    /// Every member, each exactly once, in depth-first coordinate order.
    pub fn iter(&self) -> (r: TreeIter<'_, N, ()>)
        requires
            self.wf(),
        ensures
            lists_paths(unit_map(self@), tree_items(r.remaining())),
            in_path_order(tree_items(r.remaining())),
    {
        assert(self.0@ =~= unit_map(self@));
        self.0.iter_tree()
    }

    /// The members listed in `entries`, each exactly once.
    proof fn lemma_listed(&self, entries: Seq<(CoordPath<N>, &())>)
        requires
            lists_paths(self.0@, tree_items(entries)),
        ensures
            listed_paths(entries) == self@,
    {
        let ps = entries.map_values(|x: (CoordPath<N>, &())| x.0@);
        assert forall|p: Seq<Coord>| #[trigger] listed_paths(entries).contains(p) == self@.contains(p) by {
            if self@.contains(p) {
                let k = choose|k: int| 0 <= k < tree_items(entries).len() && (#[trigger] tree_items(entries)[k]).0 == p;
                assert(ps[k] == p);
            }
            if listed_paths(entries).contains(p) {
                let k = choose|k: int| 0 <= k < ps.len() && ps[k] == p;
                assert(tree_items(entries)[k].0 == p);
            }
        }
        assert(listed_paths(entries) =~= self@);
    }

    /// Adds the listed paths that `mode` keeps (with respect to `other`).
    fn add_listed(&mut self, entries: &Vec<(CoordPath<N>, &())>, other: &CoordSetN<N>, mode: u8)
        requires
            old(self).wf(),
            other.wf(),
            old(self)@.len() + entries@.len() <= usize::MAX,
        ensures
            final(self).wf(),
            final(self)@ == old(self)@.union(listed_paths(entries@).filter(|p: Seq<Coord>| keeps(mode, other@, p))),
            final(self)@.len() <= old(self)@.len() + entries@.len(),
    {
        let ghost start = self@;
        let ghost ps = entries@.map_values(|x: (CoordPath<N>, &())| x.0@);
        proof {
            self.0.lemma_finite();
        }
        let mut i: usize = 0;
        while i < entries.len()
            invariant
                i <= entries@.len(),
                self.wf(),
                other.wf(),
                start.finite(),
                start.len() + entries@.len() <= usize::MAX,
                ps == entries@.map_values(|x: (CoordPath<N>, &())| x.0@),
                self@ == start.union(ps.take(i as int).to_set().filter(|p: Seq<Coord>| keeps(mode, other@, p))),
            decreases entries@.len() - i,
        {
            let path = entries[i].0;
            let keep = if mode == 0 {
                true
            } else if mode == 1 {
                other.contains(path)
            } else {
                !other.contains(path)
            };
            proof {
                self.0.lemma_finite();
                let seen = ps.take(i as int).to_set();
                ps.take(i as int).lemma_cardinality_of_set();
                seen.lemma_len_filter(|p: Seq<Coord>| keeps(mode, other@, p));
                vstd::set_lib::lemma_len_union(start, seen.filter(|p: Seq<Coord>| keeps(mode, other@, p)));
                assert(ps.take(i + 1) =~= ps.take(i as int).push(path@));
                ps.take(i as int).lemma_push_to_set_commute(path@);
            }
            if keep {
                self.insert(path);
            }
            proof {
                let f = |p: Seq<Coord>| keeps(mode, other@, p);
                assert(self@ =~= start.union(ps.take(i + 1).to_set().filter(f)));
            }
            i = i + 1;
        }
        proof {
            assert(ps.take(entries@.len() as int) =~= ps);
            let f = |p: Seq<Coord>| keeps(mode, other@, p);
            let seen = ps.to_set();
            ps.lemma_cardinality_of_set();
            seen.lemma_len_filter(f);
            vstd::set_lib::lemma_len_union(start, seen.filter(f));
        }
    }

    /// The members of either set. The two sizes together must fit in a
    /// `usize`.
    pub fn union(&self, other: &Self) -> (r: Self)
        requires
            self.wf(),
            other.wf(),
            self@.len() + other@.len() <= usize::MAX,
        ensures
            r.wf(),
            r@ == self@.union(other@),
    {
        proof {
            self.lemma_members();
            other.lemma_members();
        }
        let mut result = CoordSetN(CoordSpaceN::new());
        assert(result@ =~= Set::<Seq<Coord>>::empty());
        let a = self.0.tree_entries();
        proof {
            self.lemma_listed(a@);
            crate::listing::lemma_lists_paths_len(self.0@, tree_items(a@));
        }
        result.add_listed(&a, other, 0);
        proof {
            assert(result@ =~= self@);
        }
        let b = other.0.tree_entries();
        proof {
            other.lemma_listed(b@);
            crate::listing::lemma_lists_paths_len(other.0@, tree_items(b@));
        }
        result.add_listed(&b, other, 0);
        assert(result@ =~= self@.union(other@));
        result
    }

    /// The members of both sets (the smaller set is walked).
    pub fn intersection(&self, other: &Self) -> (r: Self)
        requires
            self.wf(),
            other.wf(),
        ensures
            r.wf(),
            r@ == self@.intersect(other@),
    {
        proof {
            self.lemma_members();
            other.lemma_members();
        }
        let (walk, check) = if self.len() <= other.len() {
            (self, other)
        } else {
            (other, self)
        };
        let mut result = CoordSetN(CoordSpaceN::new());
        assert(result@ =~= Set::<Seq<Coord>>::empty());
        let a = walk.0.tree_entries();
        proof {
            walk.lemma_listed(a@);
            crate::listing::lemma_lists_paths_len(walk.0@, tree_items(a@));
        }
        result.add_listed(&a, check, 1);
        assert(result@ =~= self@.intersect(other@));
        result
    }

    /// The members of `self` that are not in `other`.
    pub fn difference(&self, other: &Self) -> (r: Self)
        requires
            self.wf(),
            other.wf(),
        ensures
            r.wf(),
            r@ == self@.difference(other@),
    {
        proof {
            self.lemma_members();
        }
        let mut result = CoordSetN(CoordSpaceN::new());
        assert(result@ =~= Set::<Seq<Coord>>::empty());
        let a = self.0.tree_entries();
        proof {
            self.lemma_listed(a@);
            crate::listing::lemma_lists_paths_len(self.0@, tree_items(a@));
        }
        result.add_listed(&a, other, 2);
        assert(result@ =~= self@.difference(other@));
        result
    }

    /// `true` when every member of `self` is in `other`.
    pub fn is_subset(&self, other: &Self) -> (r: bool)
        requires
            self.wf(),
            other.wf(),
        ensures
            r == self@.subset_of(other@),
    {
        let a = self.0.tree_entries();
        proof {
            self.lemma_listed(a@);
        }
        let ghost ps = a@.map_values(|x: (CoordPath<N>, &())| x.0@);
        let mut i: usize = 0;
        while i < a.len()
            invariant
                i <= a@.len(),
                other.wf(),
                ps == a@.map_values(|x: (CoordPath<N>, &())| x.0@),
                listed_paths(a@) == self@,
                forall|k: int| 0 <= k < i ==> other@.contains(#[trigger] ps[k]),
            decreases a@.len() - i,
        {
            if !other.contains(a[i].0) {
                proof {
                    assert(ps.to_set().contains(ps[i as int]));
                }
                return false;
            }
            i = i + 1;
        }
        proof {
            assert forall|p: Seq<Coord>| #[trigger] self@.contains(p) implies other@.contains(p) by {
                assert(ps.to_set().contains(p));
                let k = choose|k: int| 0 <= k < ps.len() && ps[k] == p;
            }
        }
        true
    }

    /// `true` when every member of `other` is in `self`.
    pub fn is_superset(&self, other: &Self) -> (r: bool)
        requires
            self.wf(),
            other.wf(),
        ensures
            r == other@.subset_of(self@),
    {
        other.is_subset(self)
    }

    /// `true` when the sets share no member (the smaller set is walked).
    pub fn is_disjoint(&self, other: &Self) -> (r: bool)
        requires
            self.wf(),
            other.wf(),
        ensures
            r == self@.disjoint(other@),
    {
        let (walk, check) = if self.len() <= other.len() {
            (self, other)
        } else {
            (other, self)
        };
        let a = walk.0.tree_entries();
        proof {
            walk.lemma_listed(a@);
        }
        let ghost ps = a@.map_values(|x: (CoordPath<N>, &())| x.0@);
        let mut i: usize = 0;
        while i < a.len()
            invariant
                i <= a@.len(),
                check.wf(),
                (walk@ == self@ && check@ == other@) || (walk@ == other@ && check@ == self@),
                ps == a@.map_values(|x: (CoordPath<N>, &())| x.0@),
                listed_paths(a@) == walk@,
                forall|k: int| 0 <= k < i ==> !check@.contains(#[trigger] ps[k]),
            decreases a@.len() - i,
        {
            if check.contains(a[i].0) {
                proof {
                    assert(ps.to_set().contains(ps[i as int]));
                    assert(walk@.contains(ps[i as int]));
                    assert(self@.contains(ps[i as int]) && other@.contains(ps[i as int]));
                }
                return false;
            }
            i = i + 1;
        }
        proof {
            assert forall|p: Seq<Coord>| #[trigger] walk@.contains(p) implies !check@.contains(p) by {
                assert(ps.to_set().contains(p));
                let k = choose|k: int| 0 <= k < ps.len() && ps[k] == p;
            }
            assert(self@.disjoint(other@));
        }
        true
    }

    /// The members of exactly one of the sets. The two sizes together must
    /// fit in a `usize`.
    pub fn symmetric_difference(&self, other: &Self) -> (r: Self)
        requires
            self.wf(),
            other.wf(),
            self@.len() + other@.len() <= usize::MAX,
        ensures
            r.wf(),
            r@ == self@.difference(other@).union(other@.difference(self@)),
    {
        proof {
            self.lemma_members();
            other.lemma_members();
        }
        let mut result = CoordSetN(CoordSpaceN::new());
        assert(result@ =~= Set::<Seq<Coord>>::empty());
        let a = self.0.tree_entries();
        proof {
            self.lemma_listed(a@);
            crate::listing::lemma_lists_paths_len(self.0@, tree_items(a@));
        }
        result.add_listed(&a, other, 2);
        let b = other.0.tree_entries();
        proof {
            other.lemma_listed(b@);
            crate::listing::lemma_lists_paths_len(other.0@, tree_items(b@));
        }
        result.add_listed(&b, self, 2);
        assert(result@ =~= self@.difference(other@).union(other@.difference(self@)));
        result
    }

    /// The set of the given paths (repeated paths count once); `N` must be
    /// at least 1.
    pub fn from_paths(paths: Vec<CoordPath<N>>) -> (r: Self)
        requires
            N > 0,
        ensures
            r.wf(),
            r@ == paths@.map_values(|p: CoordPath<N>| p@).to_set(),
    {
        let ghost ps = paths@.map_values(|p: CoordPath<N>| p@);
        let mut set = CoordSetN::new();
        let mut i: usize = 0;
        while i < paths.len()
            invariant
                i <= paths@.len(),
                set.wf(),
                ps == paths@.map_values(|p: CoordPath<N>| p@),
                set@ == ps.take(i as int).to_set(),
            decreases paths@.len() - i,
        {
            proof {
                ps.take(i as int).lemma_cardinality_of_set();
                assert(ps.take(i + 1) =~= ps.take(i as int).push(paths@[i as int]@));
                ps.take(i as int).lemma_push_to_set_commute(paths@[i as int]@);
            }
            set.insert(paths[i]);
            i = i + 1;
        }
        proof {
            assert(ps.take(paths@.len() as int) =~= ps);
        }
        set
    }
}

impl<const N: usize> CoordSetN<N> {
    /// `true` when both sets have the same members.
    pub fn eq(&self, other: &Self) -> (r: bool)
        requires
            self.wf(),
            other.wf(),
        ensures
            r == (self@ == other@),
    {
        proof {
            self.lemma_members();
            other.lemma_members();
        }
        if self.len() != other.len() {
            return false;
        }
        let sub = self.is_subset(other);
        proof {
            if sub && self@ != other@ {
                assert(!(self@ =~= other@));
                let x = choose|x: Seq<Coord>| other@.contains(x) && !self@.contains(x);
                assert(self@.subset_of(other@.remove(x)));
                vstd::set_lib::lemma_len_subset(self@, other@.remove(x));
            }
        }
        sub
    }
}

} // verus!

verus! {

impl<const N: usize> CoordSetN<N> {
    /// An independent copy of the set.
    pub fn clone(&self) -> (r: Self)
        requires
            self.wf(),
        ensures
            r.wf(),
            r@ == self@,
    {
        CoordSetN(self.0.clone())
    }
}

} // verus!

verus! {

impl<const N: usize> Default for CoordSetN<N> {
    /// An empty set. A depth of 0 gives a set that is not well formed, which
    /// no operation accepts.
    fn default() -> (r: Self)
        ensures
            N > 0 ==> r.wf() && r@ == Set::<Seq<Coord>>::empty(),
    {
        let r = CoordSetN(CoordSpaceN::default());
        assert(N > 0 ==> r@ =~= Set::<Seq<Coord>>::empty());
        r
    }
}

} // verus!
