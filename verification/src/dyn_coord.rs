//! `DynCoordMap<V>`: a collision-free map keyed by coordinate slices of any
//! length; every level is an 11,172-slot array indexed by a `Coord`.
use vstd::prelude::*;
use crate::coord::{Coord, coord_at, lemma_coord_at};
use crate::listing::{lists_paths, in_path_order, path_before};
use vstd::std_specs::iter::IteratorSpec;

verus! {

/// A level of a dynamic-depth map.
#[derive(Debug)]
pub struct DynCoordMap<V> {
    slots: Vec<Option<Slot<V>>>,
}

/// What one slot of a level holds: a value, a deeper level, or both.
#[derive(Debug)]
pub enum Slot<V> {
    Leaf(V),
    Node(Box<DynCoordMap<V>>),
    Both(V, Box<DynCoordMap<V>>),
}

impl<V> Slot<V> {
    /// The value held by the slot.
    pub open spec fn value(self) -> Option<V> {
        match self {
            Slot::Leaf(v) => Some(v),
            Slot::Both(v, _) => Some(v),
            Slot::Node(_) => None,
        }
    }
}

impl<V> DynCoordMap<V> {
    /// Every level has 11,172 slots.
    pub closed spec fn wf(self) -> bool
        decreases self,
    {
        &&& self.slots@.len() == 11172
        &&& forall|i: int|
            0 <= i < 11172 ==> match #[trigger] self.slots@[i] {
                Some(Slot::Node(b)) => b.wf(),
                Some(Slot::Both(_, b)) => b.wf(),
                _ => true,
            }
    }

    /// The value stored under the path `p`, if any.
    pub closed spec fn lookup(self, p: Seq<Coord>) -> Option<V>
        decreases p.len(),
    {
        if p.len() == 0 || p[0].idx() >= self.slots@.len() {
            None
        } else {
            match self.slots@[p[0].idx()] {
                None => None,
                Some(s) => if p.len() == 1 {
                    s.value()
                } else {
                    match s {
                        Slot::Node(b) => b.lookup(p.drop_first()),
                        Slot::Both(_, b) => b.lookup(p.drop_first()),
                        Slot::Leaf(_) => None,
                    }
                },
            }
        }
    }
}

impl<V> View for DynCoordMap<V> {
    type V = Map<Seq<Coord>, V>;

    closed spec fn view(&self) -> Map<Seq<Coord>, V> {
        Map::new(|p: Seq<Coord>| self.lookup(p) is Some, |p: Seq<Coord>| self.lookup(p)->0)
    }
}

/// An iterator over the `(path, value)` pairs of a dynamic-depth map.
pub type DynIter<'a, V> = std::vec::IntoIter<(Vec<Coord>, &'a V)>;

impl<V> DynCoordMap<V> {
    /// Creates an empty map.
    pub fn new() -> (r: Self)
        ensures
            r.wf(),
            r@ == Map::<Seq<Coord>, V>::empty(),
            forall|q: Seq<Coord>| #[trigger] r.lookup(q) is None,
    {
        let mut slots: Vec<Option<Slot<V>>> = Vec::new();
        let mut i: usize = 0;
        while i < 11172
            invariant
                i <= 11172,
                slots@.len() == i,
                forall|j: int| 0 <= j < i ==> #[trigger] slots@[j] is None,
            decreases 11172 - i,
        {
            slots.push(None);
            i = i + 1;
        }
        let r = DynCoordMap { slots };
        assert forall|q: Seq<Coord>| #[trigger] r.lookup(q) is None by {
            if q.len() > 0 && q[0].idx() < 11172 {
                assert(r.slots@[q[0].idx()] is None);
            }
        }
        assert(r@ =~= Map::<Seq<Coord>, V>::empty()) by {
            assert forall|p: Seq<Coord>| !r@.contains_key(p) by {
                if p.len() > 0 && p[0].idx() < 11172 {
                    assert(r.slots@[p[0].idx()] is None);
                }
            }
        }
        r
    }

    /// The value stored under `path`; `None` for the empty path.
    pub fn get(&self, path: &[Coord]) -> (r: Option<&V>)
        requires
            self.wf(),
        ensures
            r is Some <==> self@.contains_key(path@),
            r matches Some(v) ==> *v == self@[path@],
    {
        if path.len() == 0 {
            return None;
        }
        proof {
            assert(path@.skip(0) =~= path@);
        }
        self.get_rec(path, 0)
    }

    /// The value stored under `path.skip(d)`.
    fn get_rec(&self, path: &[Coord], d: usize) -> (r: Option<&V>)
        requires
            self.wf(),
            d < path@.len(),
        ensures
            r is Some <==> self.lookup(path@.skip(d as int)) is Some,
            r matches Some(v) ==> self.lookup(path@.skip(d as int)) == Some(*v),
        decreases path@.len() - d,
    {
        let ghost sub = path@.skip(d as int);
        proof {
            assert(sub[0] == path@[d as int]);
            assert(sub.drop_first() =~= path@.skip(d + 1));
        }
        let idx = path[d].index() as usize;
        match &self.slots[idx] {
            None => None,
            Some(Slot::Leaf(v)) => {
                if d + 1 == path.len() {
                    Some(v)
                } else {
                    None
                }
            },
            Some(Slot::Both(v, b)) => {
                if d + 1 == path.len() {
                    Some(v)
                } else {
                    b.get_rec(path, d + 1)
                }
            },
            Some(Slot::Node(b)) => {
                if d + 1 == path.len() {
                    None
                } else {
                    b.get_rec(path, d + 1)
                }
            },
        }
    }
}

} // verus!

verus! {

/// Paths with the same first coordinate are equal exactly when their tails
/// are.
proof fn lemma_tails(q: Seq<Coord>, p: Seq<Coord>)
    requires
        q.len() >= 1,
        p.len() >= 1,
        q[0] == p[0],
    ensures
        (q == p) <==> (q.drop_first() == p.drop_first()),
{
    if q.drop_first() == p.drop_first() {
        assert(q =~= seq![q[0]] + q.drop_first());
        assert(p =~= seq![p[0]] + p.drop_first());
    }
}

/// The lookup of `q` in the level below a slot (none for an empty slot or a
/// bare value).
pub closed spec fn child_lookup<V>(s: Option<Slot<V>>, q: Seq<Coord>) -> Option<V> {
    match s {
        Some(Slot::Node(b)) => b.lookup(q),
        Some(Slot::Both(_, b)) => b.lookup(q),
        _ => None,
    }
}

/// The value held by a slot, if any.
pub closed spec fn slot_value<V>(s: Option<Slot<V>>) -> Option<V> {
    match s {
        Some(x) => x.value(),
        None => None,
    }
}

/// Lifts an insertion into the level below slot `sub[0]` to the whole map.
proof fn lemma_insert_lift<V>(old_m: DynCoordMap<V>, new_m: DynCoordMap<V>, sub: Seq<Coord>, value: V, ob: DynCoordMap<V>)
    requires
        sub.len() >= 2,
        sub[0].idx() < 11172,
        old_m.slots@.len() == 11172,
        new_m.slots@.len() == 11172,
        forall|i: int| 0 <= i < 11172 && i != sub[0].idx() ==> #[trigger] new_m.slots@[i] == old_m.slots@[i],
        slot_value(new_m.slots@[sub[0].idx()]) == slot_value(old_m.slots@[sub[0].idx()]),
        forall|q: Seq<Coord>| #[trigger] child_lookup(old_m.slots@[sub[0].idx()], q) == ob.lookup(q),
        forall|q: Seq<Coord>|
            #[trigger] child_lookup(new_m.slots@[sub[0].idx()], q) == if q == sub.drop_first() {
                Some(value)
            } else {
                ob.lookup(q)
            },
        new_m.slots@[sub[0].idx()] is Some,
    ensures
        forall|q: Seq<Coord>|
            #[trigger] new_m.lookup(q) == if q == sub {
                Some(value)
            } else {
                old_m.lookup(q)
            },
{
    let idx = sub[0].idx();
    assert(old_m.lookup(sub) == child_lookup(old_m.slots@[idx], sub.drop_first()));
    assert forall|q: Seq<Coord>|
        #[trigger] new_m.lookup(q) == if q == sub {
            Some(value)
        } else {
            old_m.lookup(q)
        } by {
        if q.len() > 0 && q[0].idx() == idx {
            crate::coord::lemma_coord_eq(q[0], sub[0]);
            lemma_tails(q, sub);
            if q.len() == 1 {
                assert(q != sub);
            } else {
                assert(new_m.lookup(q) == child_lookup(new_m.slots@[idx], q.drop_first()));
                assert(old_m.lookup(q) == child_lookup(old_m.slots@[idx], q.drop_first()));
            }
        }
    }
}

impl<V> DynCoordMap<V> {
    /// Stores `value` under `path.skip(d)`, creating levels as needed; every
    /// other path keeps its value.
    fn insert_rec(&mut self, path: &[Coord], d: usize, value: V) -> (r: Option<V>)
        requires
            old(self).wf(),
            d < path@.len(),
        ensures
            final(self).wf(),
            r == old(self).lookup(path@.skip(d as int)),
            forall|q: Seq<Coord>|
                #[trigger] final(self).lookup(q) == if q == path@.skip(d as int) {
                    Some(value)
                } else {
                    old(self).lookup(q)
                },
        decreases path@.len() - d,
    {
        let ghost sub = path@.skip(d as int);
        let ghost old_self = *self;
        proof {
            assert(sub[0] == path@[d as int]);
            assert(sub.drop_first() =~= path@.skip(d + 1));
        }
        let idx = path[d].index() as usize;
        let mut tmp: Option<Slot<V>> = None;
        self.slots.set_and_swap(idx, &mut tmp);
        if d + 1 == path.len() {
            let (new_slot, r): (Slot<V>, Option<V>) = match tmp {
                None => (Slot::Leaf(value), None),
                Some(Slot::Node(b)) => (Slot::Both(value, b), None),
                Some(Slot::Leaf(old)) => (Slot::Leaf(value), Some(old)),
                Some(Slot::Both(old, b)) => (Slot::Both(value, b), Some(old)),
            };
            self.slots.set(idx, Some(new_slot));
            proof {
                assert forall|q: Seq<Coord>|
                    #[trigger] self.lookup(q) == if q == sub {
                        Some(value)
                    } else {
                        old_self.lookup(q)
                    } by {
                    if q.len() > 0 && q[0] == sub[0] {
                        if q.len() == 1 {
                            assert(q =~= sub);
                        } else {
                            assert(q.take(1) =~= sub);
                        }
                    } else if q.len() > 0 && q[0].idx() == sub[0].idx() {
                        crate::coord::lemma_coord_eq(q[0], sub[0]);
                    }
                }
            }
            r
        } else {
            let ghost value_copy = value;
            let ghost sub1 = sub.drop_first();
            let ghost old_slot = tmp;
            let r: Option<V> = match tmp {
                None => {
                    let mut b = Box::new(DynCoordMap::new());
                    proof {
                        assert forall|q: Seq<Coord>| #[trigger] child_lookup(old_slot, q) == b.lookup(q) by {}
                    }
                    let ghost bb = *b;
                    let r = b.insert_rec(path, d + 1, value);
                    self.slots.set(idx, Some(Slot::Node(b)));
                    proof {
                        lemma_insert_lift(old_self, *self, sub, value_copy, bb);
                    }
                    r
                },
                Some(Slot::Leaf(v)) => {
                    let mut b = Box::new(DynCoordMap::new());
                    proof {
                        assert forall|q: Seq<Coord>| #[trigger] child_lookup(old_slot, q) == b.lookup(q) by {}
                    }
                    let ghost bb = *b;
                    let r = b.insert_rec(path, d + 1, value);
                    self.slots.set(idx, Some(Slot::Both(v, b)));
                    proof {
                        lemma_insert_lift(old_self, *self, sub, value_copy, bb);
                    }
                    r
                },
                Some(Slot::Node(mut b)) => {
                    let ghost bb = *b;
                    let r = b.insert_rec(path, d + 1, value);
                    self.slots.set(idx, Some(Slot::Node(b)));
                    proof {
                        lemma_insert_lift(old_self, *self, sub, value_copy, bb);
                    }
                    r
                },
                Some(Slot::Both(v, mut b)) => {
                    let ghost bb = *b;
                    let r = b.insert_rec(path, d + 1, value);
                    self.slots.set(idx, Some(Slot::Both(v, b)));
                    proof {
                        lemma_insert_lift(old_self, *self, sub, value_copy, bb);
                    }
                    r
                },
            };
            r
        }
    }
}

} // verus!

verus! {

/// Lifts a removal in the level below slot `sub[0]` to the whole map.
proof fn lemma_remove_lift<V>(old_m: DynCoordMap<V>, new_m: DynCoordMap<V>, sub: Seq<Coord>, ob: DynCoordMap<V>)
    requires
        sub.len() >= 2,
        sub[0].idx() < 11172,
        old_m.slots@.len() == 11172,
        new_m.slots@.len() == 11172,
        forall|i: int| 0 <= i < 11172 && i != sub[0].idx() ==> #[trigger] new_m.slots@[i] == old_m.slots@[i],
        slot_value(new_m.slots@[sub[0].idx()]) == slot_value(old_m.slots@[sub[0].idx()]),
        forall|q: Seq<Coord>| #[trigger] child_lookup(old_m.slots@[sub[0].idx()], q) == ob.lookup(q),
        forall|q: Seq<Coord>|
            #[trigger] child_lookup(new_m.slots@[sub[0].idx()], q) == if q == sub.drop_first() {
                None
            } else {
                ob.lookup(q)
            },
    ensures
        forall|q: Seq<Coord>|
            #[trigger] new_m.lookup(q) == if q == sub {
                None
            } else {
                old_m.lookup(q)
            },
{
    let idx = sub[0].idx();
    assert forall|q: Seq<Coord>|
        #[trigger] new_m.lookup(q) == if q == sub {
            None
        } else {
            old_m.lookup(q)
        } by {
        if q.len() > 0 && q[0].idx() == idx {
            crate::coord::lemma_coord_eq(q[0], sub[0]);
            lemma_tails(q, sub);
            if q.len() == 1 {
                assert(q != sub);
            } else {
                assert(new_m.lookup(q) == child_lookup(new_m.slots@[idx], q.drop_first()));
                assert(old_m.lookup(q) == child_lookup(old_m.slots@[idx], q.drop_first()));
            }
        }
    }
}

impl<V> DynCoordMap<V> {
    /// Removes the value under `path.skip(d)`; every other path keeps its
    /// value.
    fn remove_rec(&mut self, path: &[Coord], d: usize) -> (r: Option<V>)
        requires
            old(self).wf(),
            d < path@.len(),
        ensures
            final(self).wf(),
            r == old(self).lookup(path@.skip(d as int)),
            forall|q: Seq<Coord>|
                #[trigger] final(self).lookup(q) == if q == path@.skip(d as int) {
                    None
                } else {
                    old(self).lookup(q)
                },
        decreases path@.len() - d,
    {
        let ghost sub = path@.skip(d as int);
        let ghost old_self = *self;
        proof {
            assert(sub[0] == path@[d as int]);
            assert(sub.drop_first() =~= path@.skip(d + 1));
        }
        let idx = path[d].index() as usize;
        if d + 1 == path.len() {
            let mut tmp: Option<Slot<V>> = None;
            self.slots.set_and_swap(idx, &mut tmp);
            let (rest, r): (Option<Slot<V>>, Option<V>) = match tmp {
                None => (None, None),
                Some(Slot::Leaf(v)) => (None, Some(v)),
                Some(Slot::Node(b)) => (Some(Slot::Node(b)), None),
                Some(Slot::Both(v, b)) => (Some(Slot::Node(b)), Some(v)),
            };
            self.slots.set(idx, rest);
            proof {
                assert forall|q: Seq<Coord>|
                    #[trigger] self.lookup(q) == if q == sub {
                        None
                    } else {
                        old_self.lookup(q)
                    } by {
                    if q.len() > 0 && q[0].idx() == sub[0].idx() {
                        crate::coord::lemma_coord_eq(q[0], sub[0]);
                        if q.len() == 1 {
                            assert(q =~= sub);
                        } else {
                            assert(q.take(1) =~= sub);
                        }
                    }
                }
            }
            r
        } else {
            let mut tmp: Option<Slot<V>> = None;
            self.slots.set_and_swap(idx, &mut tmp);
            let ghost old_slot = tmp;
            match tmp {
                Some(Slot::Node(mut b)) => {
                    let ghost bb = *b;
                    let r = b.remove_rec(path, d + 1);
                    self.slots.set(idx, Some(Slot::Node(b)));
                    proof {
                        lemma_remove_lift(old_self, *self, sub, bb);
                    }
                    r
                },
                Some(Slot::Both(v, mut b)) => {
                    let ghost bb = *b;
                    let r = b.remove_rec(path, d + 1);
                    self.slots.set(idx, Some(Slot::Both(v, b)));
                    proof {
                        lemma_remove_lift(old_self, *self, sub, bb);
                    }
                    r
                },
                other => {
                    self.slots.set(idx, other);
                    proof {
                        assert(self.slots@ =~= old_self.slots@);
                        assert forall|q: Seq<Coord>|
                            #[trigger] self.lookup(q) == if q == sub {
                                None
                            } else {
                                old_self.lookup(q)
                            } by {
                            if q.len() > 0 && q[0].idx() == sub[0].idx() {
                                crate::coord::lemma_coord_eq(q[0], sub[0]);
                                lemma_tails(q, sub);
                            }
                        }
                    }
                    None
                },
            }
        }
    }

    /// Stores `value` under `path`, creating levels as needed; returns the
    /// value it replaced. Values at other depths, shorter or longer paths
    /// included, are kept. `path` must not be empty.
    pub fn insert(&mut self, path: &[Coord], value: V) -> (r: Option<V>)
        requires
            old(self).wf(),
            path@.len() > 0,
        ensures
            final(self).wf(),
            r == old(self)@.get(path@),
            final(self)@ == old(self)@.insert(path@, value),
    {
        proof {
            assert(path@.skip(0) =~= path@);
        }
        let ghost v0 = value;
        let r = self.insert_rec(path, 0, value);
        proof {
            assert(self@ =~= old(self)@.insert(path@, v0));
        }
        r
    }

    /// Removes the value under `path`, returning it; values under longer
    /// paths that extend `path` are kept. The empty path removes nothing.
    pub fn remove(&mut self, path: &[Coord]) -> (r: Option<V>)
        requires
            old(self).wf(),
        ensures
            final(self).wf(),
            r == old(self)@.get(path@),
            path@.len() == 0 ==> final(self)@ == old(self)@,
            path@.len() > 0 ==> final(self)@ == old(self)@.remove(path@),
    {
        if path.len() == 0 {
            proof {
                assert(!old(self)@.contains_key(path@));
            }
            return None;
        }
        proof {
            assert(path@.skip(0) =~= path@);
        }
        let r = self.remove_rec(path, 0);
        proof {
            assert(self@ =~= old(self)@.remove(path@));
        }
        r
    }

    /// Removes every entry.
    pub fn clear(&mut self)
        requires
            old(self).wf(),
        ensures
            final(self).wf(),
            final(self)@ == Map::<Seq<Coord>, V>::empty(),
    {
        *self = DynCoordMap::new();
    }
}

impl<V> Default for DynCoordMap<V> {
    fn default() -> (r: Self)
        ensures
            r.wf(),
            r@ == Map::<Seq<Coord>, V>::empty(),
    {
        DynCoordMap::new()
    }
}

} // verus!

verus! {

/// The entries below the level `m` placed under the prefix `p`.
pub open spec fn dyn_prefixed<V>(m: DynCoordMap<V>, p: Seq<Coord>) -> Map<Seq<Coord>, V> {
    Map::new(
        |k: Seq<Coord>| k.len() > p.len() && k.take(p.len() as int) == p && m.lookup(k.skip(p.len() as int)) is Some,
        |k: Seq<Coord>| m.lookup(k.skip(p.len() as int))->0,
    )
}

/// The pairs of a listing with their paths and references followed.
pub open spec fn dyn_items<V>(s: Seq<(Vec<Coord>, &V)>) -> Seq<(Seq<Coord>, V)> {
    s.map_values(|e: (Vec<Coord>, &V)| (e.0@, *e.1))
}

/// A path extended by one coordinate keeps its prefix.
proof fn lemma_push_take(k: Seq<Coord>, p: Seq<Coord>, c: Coord)
    requires
        k.len() > p.len(),
    ensures
        (k.take(p.len() + 1 as int) == p.push(c)) <==> (k.take(p.len() as int) == p && k[p.len() as int] == c),
{
    let d = p.len() as int;
    if k.take(d + 1) == p.push(c) {
        assert(k.take(d) =~= k.take(d + 1).take(d));
        assert(p.push(c).take(d) =~= p);
        assert(k[d] == k.take(d + 1)[d]);
        assert(p.push(c)[d] == c);
    }
    if k.take(d) == p && k[d] == c {
        assert(k.take(d + 1) =~= p.push(c));
    }
}

/// An entry under `p` with coordinate `c` at position `p.len()` is either
/// the value of slot `c` (a path of length `p.len() + 1`) or an entry of
/// the level below that slot under `p + [c]`.
proof fn lemma_dyn_child<V>(m: DynCoordMap<V>, p: Seq<Coord>, c: Coord, k: Seq<Coord>)
    requires
        m.wf(),
        c.idx() < 11172,
        k.len() > p.len(),
        k[p.len() as int] == c,
        k.take(p.len() as int) == p,
    ensures
        k.len() == p.len() + 1 ==> k == p.push(c) && dyn_prefixed(m, p).get(k) == slot_value(m.slots@[c.idx()]),
        k.len() > p.len() + 1 ==> dyn_prefixed(m, p).get(k) == match m.slots@[c.idx()] {
            Some(Slot::Node(b)) => dyn_prefixed(*b, p.push(c)).get(k),
            Some(Slot::Both(_, b)) => dyn_prefixed(*b, p.push(c)).get(k),
            _ => None::<V>,
        },
{
    let d = p.len() as int;
    lemma_push_take(k, p, c);
    assert(k.skip(d)[0] == c);
    assert(k.skip(d).drop_first() =~= k.skip(d + 1));
    if k.len() == d + 1 {
        assert(k =~= p.push(c));
    }
}

impl<V> DynCoordMap<V> {
    /// Appends every entry below this level, under the prefix `prefix`, to
    /// `out`.
    fn collect_iter<'a>(&'a self, prefix: &mut Vec<Coord>, out: &mut Vec<(Vec<Coord>, &'a V)>)
        requires
            self.wf(),
        ensures
            final(prefix)@ == old(prefix)@,
            final(out)@.len() >= old(out)@.len(),
            final(out)@.take(old(out)@.len() as int) == old(out)@,
            lists_paths(dyn_prefixed(*self, old(prefix)@), dyn_items(final(out)@.skip(old(out)@.len() as int))),
            in_path_order(dyn_items(final(out)@.skip(old(out)@.len() as int))),
        decreases *self,
    {
        let ghost p = prefix@;
        let ghost d = p.len() as int;
        let ghost m = dyn_prefixed(*self, p);
        let ghost start = out@;
        let ghost l0 = out@.len() as int;
        let mut i: u16 = 0;
        while i < 11172
            invariant
                self.wf(),
                prefix@ == p,
                d == p.len(),
                m == dyn_prefixed(*self, p),
                l0 == start.len(),
                out@.len() >= l0,
                out@.take(l0) == start,
                i <= 11172,
                forall|k: int|
                    0 <= k < out@.len() - l0 ==> m.contains_key((#[trigger] dyn_items(out@.skip(l0))[k]).0)
                        && m[dyn_items(out@.skip(l0))[k].0] == dyn_items(out@.skip(l0))[k].1
                        && dyn_items(out@.skip(l0))[k].0[d].idx() < i,
                forall|k: int, l: int|
                    0 <= k < l < out@.len() - l0 ==> (#[trigger] dyn_items(out@.skip(l0))[k]).0 != (
                    #[trigger] dyn_items(out@.skip(l0))[l]).0,
                in_path_order(dyn_items(out@.skip(l0))),
                forall|q: Seq<Coord>|
                    #[trigger] m.contains_key(q) && q[d].idx() < i ==> exists|k: int|
                        0 <= k < out@.len() - l0 && (#[trigger] dyn_items(out@.skip(l0))[k]).0 == q,
            decreases 11172 - i,
        {
            let c = Coord(i);
            let ghost before = out@;
            proof {
                assert forall|q: Seq<Coord>| #[trigger] m.contains_key(q) && q[d] == c implies q.take(d) == p && q.len() > d by {}
            }
            match &self.slots[i as usize] {
                None => {
                    proof {
                        assert forall|q: Seq<Coord>| #[trigger] m.contains_key(q) && q[d].idx() < i + 1 implies exists|k: int|
                            0 <= k < out@.len() - l0 && (#[trigger] dyn_items(out@.skip(l0))[k]).0 == q by {
                            if q[d].idx() == i {
                                crate::coord::lemma_coord_eq(q[d], c);
                                lemma_dyn_child(*self, p, c, q);
                                assert(false);
                            }
                        }
                    }
                },
                Some(slot) => {
                    let has_value: bool = match slot {
                        Slot::Leaf(_) => true,
                        Slot::Both(_, _) => true,
                        Slot::Node(_) => false,
                    };
                    let ghost key = p.push(c);
                    if has_value {
                        let v: &V = match slot {
                            Slot::Leaf(v) => v,
                            Slot::Both(v, _) => v,
                            Slot::Node(_) => vstd::pervasive::unreached(),
                        };
                        let mut path = prefix.clone();
                        path.push(c);
                        proof {
                            assert(path@ =~= key);
                            assert(key.take(d) =~= p);
                            assert(key[d] == c);
                            lemma_dyn_child(*self, p, c, key);
                        }
                        out.push((path, v));
                        proof {
                            let t0 = dyn_items(before.skip(l0));
                            let t1 = dyn_items(out@.skip(l0));
                            assert(t1 =~= t0.push((key, *v)));
                            assert(out@.take(l0) =~= start);
                        }
                    }
                    let ghost mid = out@;
                    match slot {
                        Slot::Node(b) => {
                            prefix.push(c);
                            b.collect_iter(prefix, out);
                            prefix.pop();
                        },
                        Slot::Both(_, b) => {
                            prefix.push(c);
                            b.collect_iter(prefix, out);
                            prefix.pop();
                        },
                        Slot::Leaf(_) => {},
                    }
                    proof {
                        assert(prefix@ =~= p);
                        let t0 = dyn_items(before.skip(l0));
                        let tm = dyn_items(mid.skip(l0));
                        let t1 = dyn_items(out@.skip(l0));
                        let tc = dyn_items(out@.skip(mid.len() as int));
                        assert(out@.take(mid.len() as int) == mid) by {
                            if !(slot is Leaf) {
                            } else {
                                assert(out@ == mid);
                            }
                        }
                        assert forall|j: int| 0 <= j < mid.len() implies #[trigger] out@[j] == mid[j] by {
                            assert(out@[j] == out@.take(mid.len() as int)[j]);
                        }
                        assert(t1 =~= tm + tc) by {
                            assert(out@.skip(l0) =~= mid.skip(l0) + out@.skip(mid.len() as int));
                        }
                        assert(mid.take(l0) == start);
                        assert forall|j: int| 0 <= j < tc.len() implies (#[trigger] tc[j]).0.len() > d + 1 && tc[j].0.take(d + 1) == key && m.contains_key(tc[j].0) && m[tc[j].0] == tc[j].1 by {
                            match slot {
                                Slot::Node(b) => {
                                    assert(dyn_prefixed(**b, key).contains_key(tc[j].0));
                                    lemma_push_take(tc[j].0, p, c);
                                    lemma_dyn_child(*self, p, c, tc[j].0);
                                },
                                Slot::Both(_, b) => {
                                    assert(dyn_prefixed(**b, key).contains_key(tc[j].0));
                                    lemma_push_take(tc[j].0, p, c);
                                    lemma_dyn_child(*self, p, c, tc[j].0);
                                },
                                Slot::Leaf(_) => {
                                    assert(tc.len() == 0);
                                },
                            }
                        }
                        assert forall|k: int| 0 <= k < tm.len() - t0.len() implies (#[trigger] tm[t0.len() + k]).0 == key by {
                        }
                        assert forall|k: int|
                            0 <= k < out@.len() - l0 implies m.contains_key((#[trigger] t1[k]).0)
                                && m[t1[k].0] == t1[k].1 && t1[k].0[d].idx() < i + 1 by {
                            if k >= tm.len() {
                                assert(t1[k] == tc[k - tm.len()]);
                                lemma_push_take(tc[k - tm.len()].0, p, c);
                            } else {
                                assert(t1[k] == tm[k]);
                            }
                        }
                        assert forall|k: int, l: int|
                            0 <= k < l < out@.len() - l0 implies (#[trigger] t1[k]).0 != (#[trigger] t1[l]).0 by {
                            if l >= tm.len() && k < tm.len() {
                                assert(t1[l] == tc[l - tm.len()]);
                                assert(t1[k] == tm[k]);
                                lemma_push_take(tc[l - tm.len()].0, p, c);
                                if k >= t0.len() {
                                    assert(tm[k].0 == key);
                                }
                            } else if k >= tm.len() {
                                assert(t1[l] == tc[l - tm.len()]);
                                assert(t1[k] == tc[k - tm.len()]);
                            } else {
                                assert(t1[l] == tm[l]);
                                assert(t1[k] == tm[k]);
                                if l >= t0.len() {
                                    assert(tm[l].0 == key);
                                    assert(key[d] == c);
                                }
                            }
                        }
                        assert forall|k: int, l: int| 0 <= k < l < t1.len() implies path_before(#[trigger] t1[k].0, #[trigger] t1[l].0) by {
                            if l >= tm.len() {
                                assert(t1[l] == tc[l - tm.len()]);
                                if k >= tm.len() {
                                    assert(t1[k] == tc[k - tm.len()]);
                                } else {
                                    assert(t1[k] == tm[k]);
                                    let b = tc[l - tm.len()].0;
                                    assert(b.take(d + 1) == key);
                                    if k >= t0.len() {
                                        assert(tm[k].0 == key);
                                        assert(b.take(key.len() as int) == key);
                                    } else {
                                        assert(tm[k] == t0[k]);
                                        let a = t0[k].0;
                                        assert(m.contains_key(a));
                                        assert(b.take(d) =~= b.take(d + 1).take(d));
                                        assert(key.take(d) =~= p);
                                        assert(b[d] == b.take(d + 1)[d]);
                                        assert(key[d] == c);
                                        assert(a.take(d) == b.take(d));
                                    }
                                }
                            } else {
                                assert(t1[k] == tm[k]);
                                assert(t1[l] == tm[l]);
                                assert(tm[k] == t0[k]);
                                if l >= t0.len() {
                                    assert(tm[l].0 == key);
                                    let a = t0[k].0;
                                    assert(m.contains_key(a));
                                    assert(key.take(d) =~= p);
                                    assert(key[d] == c);
                                    assert(a.take(d) == key.take(d));
                                } else {
                                    assert(tm[l] == t0[l]);
                                }
                            }
                        }
                        assert forall|q: Seq<Coord>| #[trigger] m.contains_key(q) && q[d].idx() < i + 1 implies exists|k: int|
                            0 <= k < out@.len() - l0 && (#[trigger] t1[k]).0 == q by {
                            if q[d].idx() == i {
                                crate::coord::lemma_coord_eq(q[d], c);
                                lemma_dyn_child(*self, p, c, q);
                                if q.len() == d + 1 {
                                    assert(t1[t0.len() as int] == tm[t0.len() as int]);
                                    assert(tm[t0.len() as int].0 == key);
                                } else {
                                    match slot {
                                        Slot::Node(b) => {
                                            assert(dyn_prefixed(**b, key).contains_key(q));
                                            let j = choose|j: int| 0 <= j < tc.len() && (#[trigger] tc[j]).0 == q;
                                            assert(t1[tm.len() + j] == tc[j]);
                                        },
                                        Slot::Both(_, b) => {
                                            assert(dyn_prefixed(**b, key).contains_key(q));
                                            let j = choose|j: int| 0 <= j < tc.len() && (#[trigger] tc[j]).0 == q;
                                            assert(t1[tm.len() + j] == tc[j]);
                                        },
                                        Slot::Leaf(_) => {},
                                    }
                                }
                            } else {
                                let k = choose|k: int| 0 <= k < before.len() - l0 && (#[trigger] dyn_items(before.skip(l0))[k]).0 == q;
                                assert(t1[k] == tm[k]);
                                assert(tm[k] == t0[k]);
                            }
                        }
                        assert(out@.take(l0) =~= start) by {
                            assert(out@.take(l0) =~= out@.take(mid.len() as int).take(l0));
                        }
                    }
                },
            }
            i = i + 1;
        }
        proof {
            assert forall|q: Seq<Coord>| #[trigger] m.contains_key(q) implies q[d].idx() < 11172 by {
                assert(q.skip(d)[0] == q[d]);
            }
        }
    }
}

} // verus!

verus! {

impl<V> DynCoordMap<V> {
    /// Every entry, each exactly once, in depth-first coordinate order.
    fn entries(&self) -> (out: Vec<(Vec<Coord>, &V)>)
        requires
            self.wf(),
        ensures
            lists_paths(self@, dyn_items(out@)),
            in_path_order(dyn_items(out@)),
    {
        let mut prefix: Vec<Coord> = Vec::new();
        let mut out: Vec<(Vec<Coord>, &V)> = Vec::new();
        self.collect_iter(&mut prefix, &mut out);
        proof {
            assert(out@.skip(0) =~= out@);
            assert(dyn_prefixed(*self, Seq::<Coord>::empty()) =~= self@) by {
                assert forall|k: Seq<Coord>| #[trigger] self@.contains_key(k) || dyn_prefixed(*self, Seq::<Coord>::empty()).contains_key(k) implies
                    k.skip(0) == k && k.take(0) == Seq::<Coord>::empty() && k.len() > 0 by {
                    assert(k.skip(0) =~= k);
                    assert(k.take(0) =~= Seq::<Coord>::empty());
                }
            }
        }
        out
    }

    /// The number of entries, at all depths.
    pub fn entry_count(&self) -> (r: usize)
        requires
            self.wf(),
        ensures
            self@.dom().finite(),
            r == self@.len(),
    {
        let out = self.entries();
        proof {
            crate::listing::lemma_lists_paths_len(self@, dyn_items(out@));
        }
        out.len()
    }

    /// Iterates over every `(path, value)` pair, each exactly once, in
    /// depth-first, coordinate-ascending order (a path before the paths that
    /// extend it).
    pub fn iter(&self) -> (r: DynIter<'_, V>)
        requires
            self.wf(),
        ensures
            lists_paths(self@, dyn_items(r.remaining())),
            in_path_order(dyn_items(r.remaining())),
    {
        let out = self.entries();
        let ghost g = out;
        let r = out.into_iter();
        proof {
            vstd::std_specs::vec::axiom_spec_into_iter(g);
        }
        r
    }
}

} // verus!

verus! {

/// `b` is a well-formed copy of `a`: the same paths, each value cloned.
pub closed spec fn clone_rel<V: Clone>(a: DynCoordMap<V>, b: DynCoordMap<V>) -> bool {
    &&& b.wf()
    &&& forall|q: Seq<Coord>| (#[trigger] a.lookup(q) is Some) <==> b.lookup(q) is Some
    &&& forall|q: Seq<Coord>| #[trigger] a.lookup(q) is Some ==> cloned::<V>(a.lookup(q)->0, b.lookup(q)->0)
}

/// Slot `b` is a copy of slot `a`: the same value (cloned) and a copied level below.
closed spec fn slot_clone<V: Clone>(a: Option<Slot<V>>, b: Option<Slot<V>>) -> bool {
    &&& (slot_value(a) is Some <==> slot_value(b) is Some)
    &&& (slot_value(a) is Some ==> cloned::<V>(slot_value(a)->0, slot_value(b)->0))
    &&& forall|q: Seq<Coord>| (#[trigger] child_lookup(a, q) is Some) <==> child_lookup(b, q) is Some
    &&& forall|q: Seq<Coord>| #[trigger] child_lookup(a, q) is Some ==> cloned::<V>(child_lookup(a, q)->0, child_lookup(b, q)->0)
    &&& match b {
        Some(Slot::Node(x)) => x.wf(),
        Some(Slot::Both(_, x)) => x.wf(),
        _ => true,
    }
}

/// A lookup reads the slot of the first coordinate: its value for a path of
/// one coordinate, the level below it for a longer one.
proof fn lemma_lookup_unfold<V>(m: DynCoordMap<V>, p: Seq<Coord>)
    requires
        m.slots@.len() == 11172,
        p.len() >= 1,
    ensures
        m.lookup(p) == if p[0].idx() >= 11172 {
            None
        } else if p.len() == 1 {
            slot_value(m.slots@[p[0].idx()])
        } else {
            child_lookup(m.slots@[p[0].idx()], p.drop_first())
        },
{
}

impl<V: Clone> DynCoordMap<V> {
    fn clone_level(&self) -> (r: Self)
        requires
            self.wf(),
        ensures
            clone_rel(*self, r),
        decreases self,
    {
        let mut out: Vec<Option<Slot<V>>> = Vec::new();
        let mut i: usize = 0;
        while i < self.slots.len()
            invariant
                self.wf(),
                i <= self.slots@.len(),
                out@.len() == i,
                forall|j: int| 0 <= j < i ==> slot_clone(#[trigger] self.slots@[j], out@[j]),
            decreases self.slots@.len() - i,
        {
            let s = match &self.slots[i] {
                None => None,
                Some(Slot::Leaf(v)) => Some(Slot::Leaf(v.clone())),
                Some(Slot::Node(b)) => Some(Slot::Node(Box::new(b.clone_level()))),
                Some(Slot::Both(v, b)) => Some(Slot::Both(v.clone(), Box::new(b.clone_level()))),
            };
            proof {
                assert(slot_clone(self.slots@[i as int], s));
            }
            out.push(s);
            i = i + 1;
        }
        let r = DynCoordMap { slots: out };
        proof {
            assert forall|q: Seq<Coord>| (#[trigger] self.lookup(q) is Some) <==> r.lookup(q) is Some by {
                if q.len() >= 1 {
                    lemma_lookup_unfold(*self, q);
                    lemma_lookup_unfold(r, q);
                    if q[0].idx() < 11172 {
                        assert(slot_clone(self.slots@[q[0].idx()], r.slots@[q[0].idx()]));
                    }
                }
            }
            assert forall|q: Seq<Coord>| #[trigger] self.lookup(q) is Some implies cloned::<V>(self.lookup(q)->0, r.lookup(q)->0) by {
                lemma_lookup_unfold(*self, q);
                lemma_lookup_unfold(r, q);
                if q[0].idx() < 11172 {
                    assert(slot_clone(self.slots@[q[0].idx()], r.slots@[q[0].idx()]));
                }
            }
            assert forall|j: int| 0 <= j < 11172 implies match #[trigger] r.slots@[j] {
                Some(Slot::Node(b)) => b.wf(),
                Some(Slot::Both(_, b)) => b.wf(),
                _ => true,
            } by {
                assert(slot_clone(self.slots@[j], r.slots@[j]));
            }
        }
        r
    }

    /// An independent copy of the map, with every value cloned.
    pub fn clone(&self) -> (r: Self)
        requires
            self.wf(),
        ensures
            r.wf(),
            r@.dom() == self@.dom(),
            forall|p: Seq<Coord>| #[trigger] self@.contains_key(p) ==> cloned::<V>(self@[p], r@[p]),
    {
        let r = self.clone_level();
        proof {
            assert(r@.dom() =~= self@.dom());
        }
        r
    }
}

} // verus!
