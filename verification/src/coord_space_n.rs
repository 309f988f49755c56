//! `CoordSpaceN<N, V>`: a hash-less, collision-free N-level address table
//! indexed by `CoordPath<N>`, built as a lazily allocated tree of
//! 11,172-slot nodes.
use vstd::prelude::*;
use crate::coord::Coord;
use crate::coord_path::CoordPath;
use crate::listing::{lists, lists_paths, in_path_order, path_before, deref_pairs, keys_of, values_of, map_of_pairs, lemma_map_of_pairs_step};
use vstd::std_specs::iter::IteratorSpec;
use vstd::std_specs::cmp::PartialEqSpec;
use crate::text::{push_str_seq, push_decimal, spec_decimal};

verus! {

/// Number of slots in every node.
pub const SLOTS: usize = 11172;

/// A node of the tree: a leaf holds values, a branch holds child nodes.
/// Every node has exactly 11,172 slots.
#[derive(Debug)]
pub enum Node<V> {
    Leaf(Vec<Option<V>>),
    Branch(Vec<Option<Box<Node<V>>>>),
}

impl<V> Node<V> {
    /// A node of height `h` (the number of coordinates below it, itself
    /// included): a leaf when `h == 1`, else a branch whose children all have
    /// height `h - 1`.
    pub open spec fn wf(self, h: nat) -> bool
        decreases self,
    {
        match self {
            Node::Leaf(s) => h == 1 && s@.len() == 11172,
            Node::Branch(c) => h > 1 && c@.len() == 11172 && forall|i: int|
                0 <= i < 11172 ==> (#[trigger] c@[i] matches Some(b) ==> b.wf((h - 1) as nat)),
        }
    }

    /// The value stored under the relative path `p`, if any.
    pub open spec fn lookup(self, p: Seq<Coord>) -> Option<V>
        decreases self,
    {
        match self {
            Node::Leaf(s) => if p.len() == 1 && p[0].idx() < s@.len() {
                s@[p[0].idx()]
            } else {
                None
            },
            Node::Branch(c) => if p.len() > 1 && p[0].idx() < c@.len() {
                match c@[p[0].idx()] {
                    Some(b) => b.lookup(p.drop_first()),
                    None => None,
                }
            } else {
                None
            },
        }
    }

    /// The child at slot `i` of a branch.
    pub open spec fn child(self, i: int) -> Node<V> {
        match self {
            Node::Branch(c) => *(c@[i]->0),
            Node::Leaf(_) => self,
        }
    }

    /// The value slot `i` of a leaf.
    pub open spec fn slot(self, i: int) -> Option<V> {
        match self {
            Node::Leaf(s) => s@[i],
            Node::Branch(_) => None,
        }
    }

    /// A node that holds nothing.
    pub open spec fn is_vacant(self) -> bool {
        forall|q: Seq<Coord>| #[trigger] self.lookup(q) is None
    }
}

/// Creates a leaf with every slot empty.
pub(crate) fn new_leaf<V>() -> (r: Node<V>)
    ensures
        r.wf(1),
        r.is_vacant(),
        r matches Node::Leaf(s) && forall|i: int| 0 <= i < 11172 ==> #[trigger] s@[i] is None,
{
    let mut s: Vec<Option<V>> = Vec::with_capacity(SLOTS);
    let mut i: usize = 0;
    while i < SLOTS
        invariant
            i <= SLOTS,
            s@.len() == i,
            forall|j: int| 0 <= j < i ==> #[trigger] s@[j] is None,
        decreases SLOTS - i,
    {
        s.push(None);
        i = i + 1;
    }
    let r = Node::Leaf(s);
    proof {
        assert forall|q: Seq<Coord>| #[trigger] r.lookup(q) is None by {
            if q.len() == 1 && q[0].idx() < s@.len() {
                assert(s@[q[0].idx()] is None);
            }
        }
    }
    r
}

/// Creates a branch of height `h` with every child absent.
pub(crate) fn new_branch<V>(Ghost(h): Ghost<nat>) -> (r: Node<V>)
    requires
        h > 1,
    ensures
        r.wf(h),
        r.is_vacant(),
{
    let mut c: Vec<Option<Box<Node<V>>>> = Vec::with_capacity(SLOTS);
    let mut i: usize = 0;
    while i < SLOTS
        invariant
            i <= SLOTS,
            c@.len() == i,
            forall|j: int| 0 <= j < i ==> #[trigger] c@[j] is None,
        decreases SLOTS - i,
    {
        c.push(None);
        i = i + 1;
    }
    let r = Node::Branch(c);
    proof {
        assert forall|q: Seq<Coord>| #[trigger] r.lookup(q) is None by {
            if q.len() > 1 && q[0].idx() < c@.len() {
                assert(c@[q[0].idx()] is None);
            }
        }
    }
    r
}

/// Creates an empty node of height `h`.
pub(crate) fn new_node<V>(h: usize) -> (r: Node<V>)
    requires
        h >= 1,
    ensures
        r.wf(h as nat),
        r.is_vacant(),
{
    if h == 1 {
        new_leaf()
    } else {
        new_branch(Ghost(h as nat))
    }
}

/// Two relative paths of equal positive length are equal when their first
/// coordinates and their tails are.
pub proof fn lemma_path_split(p: Seq<Coord>, q: Seq<Coord>)
    requires
        p.len() >= 1,
        q.len() == p.len(),
    ensures
        (q == p) <==> (q[0] == p[0] && q.drop_first() == p.drop_first()),
{
    if q[0] == p[0] && q.drop_first() == p.drop_first() {
        assert(q =~= seq![q[0]] + q.drop_first());
        assert(p =~= seq![p[0]] + p.drop_first());
    }
}

/// The value at relative path `p.skip(d)` below `node`.
pub(crate) fn node_get<'a, V>(node: &'a Node<V>, p: &[Coord], d: usize) -> (r: Option<&'a V>)
    requires
        d < p@.len(),
        node.wf((p@.len() - d) as nat),
    ensures
        r is Some <==> node.lookup(p@.skip(d as int)) is Some,
        r matches Some(v) ==> node.lookup(p@.skip(d as int)) == Some(*v),
    decreases p@.len() - d,
{
    let idx = p[d].index() as usize;
    proof {
        assert(p@.skip(d as int)[0] == p@[d as int]);
        assert(p@.skip(d as int).drop_first() == p@.skip(d + 1));
    }
    match node {
        Node::Leaf(s) => {
            if d + 1 == p.len() {
                match &s[idx] {
                    Some(v) => Some(v),
                    None => None,
                }
            } else {
                None
            }
        },
        Node::Branch(c) => {
            if d + 1 < p.len() {
                match &c[idx] {
                    Some(b) => {
                        proof {
                            assert(c@[idx as int] matches Some(bb) && bb.wf((p@.len() - d - 1) as nat));
                        }
                        node_get(&**b, p, d + 1)
                    },
                    None => None,
                }
            } else {
                None
            }
        },
    }
}

/// A relative path of length at least one is equal to another exactly when
/// their first coordinates and their tails are.
pub proof fn lemma_path_split_all(p: Seq<Coord>)
    requires
        p.len() >= 1,
    ensures
        forall|q: Seq<Coord>|
            q.len() == p.len() ==> ((q == p) <==> (#[trigger] q[0] == p[0] && q.drop_first()
                == p.drop_first())),
{
    assert forall|q: Seq<Coord>|
        q.len() == p.len() implies ((q == p) <==> (#[trigger] q[0] == p[0] && q.drop_first()
            == p.drop_first())) by {
        lemma_path_split(p, q);
    }
}

/// `n2` is the branch `n1` with only the child at `idx` replaced (by a
/// present child).
pub open spec fn branch_frame<V>(n1: Node<V>, n2: Node<V>, idx: int) -> bool {
    &&& n1 matches Node::Branch(c1)
    &&& n2 matches Node::Branch(c2)
    &&& c1@.len() == c2@.len()
    &&& 0 <= idx < c1@.len()
    &&& c2@[idx] is Some
    &&& forall|i: int| 0 <= i < c1@.len() && i != idx ==> #[trigger] c2@[i] == c1@[i]
}

/// `n2` is the leaf `n1` with only the slot at `idx` replaced.
pub open spec fn leaf_frame<V>(n1: Node<V>, n2: Node<V>, idx: int) -> bool {
    &&& n1 matches Node::Leaf(s1)
    &&& n2 matches Node::Leaf(s2)
    &&& s1@.len() == s2@.len()
    &&& 0 <= idx < s1@.len()
    &&& forall|i: int| 0 <= i < s1@.len() && i != idx ==> #[trigger] s2@[i] == s1@[i]
}

/// Replacing one child of a branch changes only the lookups that go through
/// that child.
pub proof fn lemma_branch_frame<V>(n1: Node<V>, idx: int)
    ensures
        forall|n2: Node<V>, q: Seq<Coord>|
            #![trigger n2.lookup(q)]
            branch_frame(n1, n2, idx) ==> n2.lookup(q) == if q.len() > 1 && q[0].idx() == idx {
                n2.child(idx).lookup(q.drop_first())
            } else {
                n1.lookup(q)
            },
{
}

/// Replacing one slot of a leaf changes only the lookup of that slot.
pub proof fn lemma_leaf_frame<V>(n1: Node<V>, idx: int)
    ensures
        forall|n2: Node<V>, q: Seq<Coord>|
            #![trigger n2.lookup(q)]
            leaf_frame(n1, n2, idx) ==> n2.lookup(q) == if q.len() == 1 && q[0].idx() == idx {
                n2.slot(idx)
            } else {
                n1.lookup(q)
            },
{
}

/// Paths of length one are equal exactly when their coordinates are.
pub proof fn lemma_single_path_all(p: Seq<Coord>)
    requires
        p.len() == 1,
    ensures
        forall|q: Seq<Coord>| q.len() == 1 ==> ((q == p) <==> (#[trigger] q[0] == p[0])),
{
    assert forall|q: Seq<Coord>| q.len() == 1 implies ((q == p) <==> (#[trigger] q[0] == p[0])) by {
        if q[0] == p[0] {
            assert(q =~= p);
        }
    }
}

/// A mutable reference to the value at relative path `p.skip(d)` below
/// `node`; writing through it changes that value and nothing else.
pub(crate) fn node_get_mut<'a, V>(node: &'a mut Node<V>, p: &[Coord], d: usize) -> (r: Option<
    &'a mut V,
>)
    requires
        d < p@.len(),
        old(node).wf((p@.len() - d) as nat),
    ensures
        r is Some <==> old(node).lookup(p@.skip(d as int)) is Some,
        r matches Some(v) ==> old(node).lookup(p@.skip(d as int)) == Some(*v),
        r matches Some(v) ==> final(node).wf((p@.len() - d) as nat),
        r matches Some(v) ==> forall|q: Seq<Coord>|
            #[trigger] final(node).lookup(q) == if q == p@.skip(d as int) {
                Some(*final(v))
            } else {
                old(node).lookup(q)
            },
        r is None ==> final(node).wf((p@.len() - d) as nat),
        r is None ==> forall|q: Seq<Coord>| #[trigger] final(node).lookup(q) == old(node).lookup(q),
    decreases p@.len() - d,
{
    let idx = p[d].index() as usize;
    let ghost sub = p@.skip(d as int);
    proof {
        assert(sub[0] == p@[d as int]);
        assert(sub.drop_first() == p@.skip(d + 1));
        lemma_path_split_all(sub);
        lemma_branch_frame(*old(node), idx as int);
        lemma_leaf_frame(*old(node), idx as int);
    }
    match node {
        Node::Leaf(s) => {
            if d + 1 == p.len() && s[idx].is_some() {
                proof {
                    lemma_single_path_all(sub);
                }
                match &mut s[idx] {
                    Some(v) => Some(v),
                    None => vstd::pervasive::unreached(),
                }
            } else {
                None
            }
        },
        Node::Branch(c) => {
            if d + 1 < p.len() && c[idx].is_some() {
                match &mut c[idx] {
                    Some(b) => node_get_mut(&mut **b, p, d + 1),
                    None => vstd::pervasive::unreached(),
                }
            } else {
                None
            }
        },
    }
}

/// Stores `value` at relative path `p.skip(d)` below `node`, creating the
/// missing nodes on the way; returns the value it replaced.
pub(crate) fn node_place<V>(node: &mut Node<V>, p: &[Coord], d: usize, value: V) -> (r: Option<V>)
    requires
        d < p@.len(),
        old(node).wf((p@.len() - d) as nat),
    ensures
        final(node).wf((p@.len() - d) as nat),
        r == old(node).lookup(p@.skip(d as int)),
        forall|q: Seq<Coord>|
            #[trigger] final(node).lookup(q) == if q == p@.skip(d as int) {
                Some(value)
            } else {
                old(node).lookup(q)
            },
    decreases p@.len() - d,
{
    let idx = p[d].index() as usize;
    let ghost sub = p@.skip(d as int);
    proof {
        assert(sub[0] == p@[d as int]);
        assert(sub.drop_first() == p@.skip(d + 1));
        lemma_path_split_all(sub);
        lemma_branch_frame(*old(node), idx as int);
        lemma_leaf_frame(*old(node), idx as int);
        if sub.len() == 1 {
            lemma_single_path_all(sub);
        }
    }
    match node {
        Node::Leaf(s) => {
            let mut tmp: Option<V> = Some(value);
            s.set_and_swap(idx, &mut tmp);
            tmp
        },
        Node::Branch(c) => {
            if c[idx].is_none() {
                let child: Node<V> = new_node(p.len() - d - 1);
                c.set(idx, Some(Box::new(child)));
            }
            let ghost mid = *(c@[idx as int]->0);
            proof {
                assert(mid.wf((p@.len() - d - 1) as nat));
                assert forall|q: Seq<Coord>| q.len() > 1 && q[0].idx() == idx implies #[trigger] old(
                    node,
                ).lookup(q) == mid.lookup(q.drop_first()) by {
                }
            }
            match &mut c[idx] {
                Some(b) => node_place(&mut **b, p, d + 1, value),
                None => vstd::pervasive::unreached(),
            }
        },
    }
}

/// Removes the value at relative path `p.skip(d)` below `node`, if any,
/// returning it; the tree shape is kept.
pub(crate) fn node_vacate<V>(node: &mut Node<V>, p: &[Coord], d: usize) -> (r: Option<V>)
    requires
        d < p@.len(),
        old(node).wf((p@.len() - d) as nat),
    ensures
        final(node).wf((p@.len() - d) as nat),
        r == old(node).lookup(p@.skip(d as int)),
        forall|q: Seq<Coord>|
            #[trigger] final(node).lookup(q) == if q == p@.skip(d as int) {
                None
            } else {
                old(node).lookup(q)
            },
    decreases p@.len() - d,
{
    let idx = p[d].index() as usize;
    let ghost sub = p@.skip(d as int);
    proof {
        assert(sub[0] == p@[d as int]);
        assert(sub.drop_first() == p@.skip(d + 1));
        lemma_path_split_all(sub);
        lemma_branch_frame(*old(node), idx as int);
        lemma_leaf_frame(*old(node), idx as int);
        if sub.len() == 1 {
            lemma_single_path_all(sub);
        }
    }
    match node {
        Node::Leaf(s) => {
            let mut tmp: Option<V> = None;
            s.set_and_swap(idx, &mut tmp);
            tmp
        },
        Node::Branch(c) => {
            if c[idx].is_none() {
                proof {
                    assert forall|q: Seq<Coord>| #[trigger] old(node).lookup(q) == if q == sub {
                        None
                    } else {
                        old(node).lookup(q)
                    } by {
                        if q == sub {
                            assert(q[0].idx() == idx);
                        }
                    }
                }
                None
            } else {
                match &mut c[idx] {
                    Some(b) => node_vacate(&mut **b, p, d + 1),
                    None => vstd::pervasive::unreached(),
                }
            }
        },
    }
}

/// A leaf whose slots are all empty, or a branch whose present children are
/// all vacant, holds nothing.
pub proof fn lemma_vacant_node<V>(n: Node<V>)
    requires
        n matches Node::Leaf(s) ==> forall|i: int| 0 <= i < s@.len() ==> #[trigger] s@[i] is None,
        n matches Node::Branch(c) ==> forall|i: int|
            0 <= i < c@.len() ==> (#[trigger] c@[i] matches Some(b) ==> b.is_vacant()),
    ensures
        n.is_vacant(),
{
    assert forall|q: Seq<Coord>| #[trigger] n.lookup(q) is None by {
        match n {
            Node::Leaf(s) => {
                if q.len() == 1 && q[0].idx() < s@.len() {
                    assert(s@[q[0].idx()] is None);
                }
            },
            Node::Branch(c) => {
                if q.len() > 1 && q[0].idx() < c@.len() {
                    if let Some(b) = c@[q[0].idx()] {
                        assert(b.lookup(q.drop_first()) is None);
                    }
                }
            },
        }
    }
}

/// Empties every value slot below `node`, keeping the allocated nodes.
pub(crate) fn node_clear<V>(node: &mut Node<V>, Ghost(h): Ghost<nat>)
    requires
        old(node).wf(h),
    ensures
        final(node).wf(h),
        final(node).is_vacant(),
    decreases h,
{
    match node {
        Node::Leaf(s) => {
            let mut i: usize = 0;
            while i < s.len()
                invariant
                    i <= s@.len(),
                    s@.len() == 11172,
                    forall|j: int| 0 <= j < i ==> #[trigger] s@[j] is None,
                decreases s@.len() - i,
            {
                s.set(i, None);
                i = i + 1;
            }
        },
        Node::Branch(c) => {
            let mut i: usize = 0;
            while i < c.len()
                invariant
                    h > 1,
                    i <= c@.len(),
                    c@.len() == 11172,
                    forall|j: int|
                        0 <= j < c@.len() ==> (#[trigger] c@[j] matches Some(b) ==> b.wf(
                            (h - 1) as nat,
                        )),
                    forall|j: int| 0 <= j < i ==> (#[trigger] c@[j] matches Some(b) ==> b.is_vacant()),
                decreases c@.len() - i,
            {
                if c[i].is_some() {
                    let mut tmp: Option<Box<Node<V>>> = None;
                    c.set_and_swap(i, &mut tmp);
                    match tmp {
                        Some(mut b) => {
                            node_clear(&mut *b, Ghost((h - 1) as nat));
                            c.set(i, Some(b));
                        },
                        None => {},
                    }
                }
                i = i + 1;
            }
        },
    }
    proof {
        lemma_vacant_node(*node);
    }
}

} // verus!

verus! {

/// The map from full paths of length `n` to values held below `root`.
pub open spec fn tree_map<V>(root: Node<V>, n: nat) -> Map<Seq<Coord>, V> {
    Map::new(
        |p: Seq<Coord>| p.len() == n && root.lookup(p) is Some,
        |p: Seq<Coord>| root.lookup(p)->0,
    )
}

/// Changing one lookup of a tree to `Some` inserts that path into its map.
pub proof fn lemma_tree_map_update<V>(n1: Node<V>, n: nat, k: Seq<Coord>)
    requires
        k.len() == n,
    ensures
        forall|n2: Node<V>|
            (n2.lookup(k) is Some && forall|q: Seq<Coord>|
                q != k ==> #[trigger] n2.lookup(q) == n1.lookup(q)) ==> #[trigger] tree_map(n2, n)
                == tree_map(n1, n).insert(k, n2.lookup(k)->0),
{
    assert forall|n2: Node<V>|
        (n2.lookup(k) is Some && forall|q: Seq<Coord>|
            q != k ==> #[trigger] n2.lookup(q) == n1.lookup(q)) implies #[trigger] tree_map(n2, n)
        == tree_map(n1, n).insert(k, n2.lookup(k)->0) by {
        assert(tree_map(n2, n) =~= tree_map(n1, n).insert(k, n2.lookup(k)->0));
    }
}

/// Trees with the same lookups have the same map.
pub proof fn lemma_tree_map_same<V>(n1: Node<V>, n: nat)
    ensures
        forall|n2: Node<V>|
            (forall|q: Seq<Coord>| #[trigger] n2.lookup(q) == n1.lookup(q)) ==> #[trigger] tree_map(
                n2,
                n,
            ) == tree_map(n1, n),
{
    assert forall|n2: Node<V>|
        (forall|q: Seq<Coord>| #[trigger] n2.lookup(q) == n1.lookup(q)) implies #[trigger] tree_map(
            n2,
            n,
        ) == tree_map(n1, n) by {
        assert(tree_map(n2, n) =~= tree_map(n1, n));
    }
}

/// A hash-less, collision-free, `N`-level address table indexed by
/// `CoordPath<N>`: every level is a direct index into 11,172 slots.
#[derive(Debug)]
pub struct CoordSpaceN<const N: usize, V> {
    root: Node<V>,
    len: usize,
}

impl<const N: usize, V> View for CoordSpaceN<N, V> {
    type V = Map<Seq<Coord>, V>;

    closed spec fn view(&self) -> Map<Seq<Coord>, V> {
        tree_map(self.root, N as nat)
    }
}

/// The coordinates of a path as a slice.
fn path_slice<const N: usize>(path: &CoordPath<N>) -> (r: &[Coord])
    ensures
        r@ == path@,
{
    path.coords.as_slice()
}

impl<const N: usize, V> CoordSpaceN<N, V> {
    /// The space is well formed: its depth is positive, its tree has that
    /// height, and `len` counts its entries.
    pub closed spec fn wf(&self) -> bool {
        &&& N > 0
        &&& self.root.wf(N as nat)
        &&& self@.dom().finite()
        &&& self.len == self@.dom().len()
    }

    /// Creates an empty space; the depth `N` must be at least 1.
    pub fn new() -> (r: Self)
        requires
            N > 0,
        ensures
            r.wf(),
            r@ == Map::<Seq<Coord>, V>::empty(),
    {
        let root: Node<V> = new_node(N);
        let r = CoordSpaceN { root, len: 0 };
        assert(r@ =~= Map::<Seq<Coord>, V>::empty());
        r
    }

    /// The number of entries.
    pub fn len(&self) -> (r: usize)
        requires
            self.wf(),
        ensures
            r == self@.len(),
    {
        self.len
    }

    /// `true` when the space holds no entry.
    pub fn is_empty(&self) -> (r: bool)
        requires
            self.wf(),
        ensures
            r == (self@.len() == 0),
    {
        self.len == 0
    }

    /// The maximum number of entries: 11,172 for `N == 1`, unbounded
    /// (`None`) for deeper spaces, whose tree grows on demand.
    pub fn capacity(&self) -> (r: Option<usize>)
        ensures
            r == (if N == 1 { Some(11172usize) } else { None::<usize> }),
    {
        if N == 1 {
            Some(SLOTS)
        } else {
            None
        }
    }

    /// The value stored at `path`.
    pub fn at_path(&self, path: &CoordPath<N>) -> (r: Option<&V>)
        requires
            self.wf(),
        ensures
            r is Some <==> self@.contains_key(path@),
            r matches Some(v) ==> *v == self@[path@],
    {
        let p = path_slice(path);
        proof {
            assert(p@.skip(0) == p@);
        }
        node_get(&self.root, p, 0)
    }

    /// A mutable reference to the value stored at `path`.
    pub fn at_path_mut(&mut self, path: &CoordPath<N>) -> (r: Option<&mut V>)
        requires
            old(self).wf(),
        ensures
            r is Some <==> old(self)@.contains_key(path@),
            r matches Some(v) ==> *v == old(self)@[path@],
            r matches Some(v) ==> final(self).wf() && final(self)@ == old(self)@.insert(
                path@,
                *final(v),
            ),
            r is None ==> final(self).wf() && final(self)@ == old(self)@,
    {
        let p = path_slice(path);
        proof {
            assert(p@.skip(0) == p@);
            lemma_tree_map_update(self.root, N as nat, path@);
            lemma_tree_map_same(self.root, N as nat);
        }
        node_get_mut(&mut self.root, p, 0)
    }

    /// Stores `value` at `path`, returning the value it replaced.
    pub fn place_path(&mut self, path: &CoordPath<N>, value: V) -> (r: Option<V>)
        requires
            old(self).wf(),
            old(self)@.len() < usize::MAX,
        ensures
            final(self).wf(),
            final(self)@ == old(self)@.insert(path@, value),
            r == old(self)@.get(path@),
    {
        let p = path_slice(path);
        proof {
            assert(p@.skip(0) == p@);
        }
        let ghost v0 = value;
        let old_value = node_place(&mut self.root, p, 0, value);
        proof {
            assert(self@ =~= old(self)@.insert(path@, v0));
        }
        if old_value.is_none() {
            self.len = self.len + 1;
        }
        old_value
    }

    /// Removes the value at `path`, returning it if there was one.
    pub fn vacate_path(&mut self, path: &CoordPath<N>) -> (r: Option<V>)
        requires
            old(self).wf(),
        ensures
            final(self).wf(),
            final(self)@ == old(self)@.remove(path@),
            r == old(self)@.get(path@),
    {
        let p = path_slice(path);
        proof {
            assert(p@.skip(0) == p@);
        }
        let old_value = node_vacate(&mut self.root, p, 0);
        proof {
            assert(self@ =~= old(self)@.remove(path@));
        }
        if old_value.is_some() {
            self.len = self.len - 1;
        }
        old_value
    }

    /// Removes every entry, keeping the allocated tree.
    pub fn clear(&mut self)
        requires
            old(self).wf(),
        ensures
            final(self).wf(),
            final(self)@ == Map::<Seq<Coord>, V>::empty(),
    {
        node_clear(&mut self.root, Ghost(N as nat));
        self.len = 0;
        assert(self@ =~= Map::<Seq<Coord>, V>::empty());
    }
}

} // verus!

verus! {

/// A single-coordinate path.
pub(crate) fn single(c: Coord) -> (r: CoordPath<1>)
    ensures
        r@ == seq![c],
{
    let r = CoordPath { coords: [c] };
    assert(r@ =~= seq![c]);
    r
}

/// A one-level space holds at most 11,172 entries.
pub proof fn lemma_flat_len_bound<V>(root: Node<V>)
    requires
        root.wf(1),
    ensures
        tree_map(root, 1).dom().finite(),
        tree_map(root, 1).dom().len() <= 11172,
{
    let x = vstd::set_lib::set_int_range(0, 11172);
    let f = |i: int| seq![Coord(i as u16)];
    let y = x.map(f);
    vstd::set_lib::lemma_int_range(0, 11172);
    vstd::set_lib::lemma_map_size_bound(x, y, f);
    let dom = tree_map(root, 1).dom();
    assert forall|p: Seq<Coord>| dom.contains(p) implies y.contains(p) by {
        let i = p[0].idx();
        assert(x.contains(i));
        assert(p =~= f(i));
    }
    vstd::set_lib::lemma_len_subset(dom, y);
}

impl<V> CoordSpaceN<1, V> {
    /// The value stored at `coord`.
    pub fn at(&self, coord: &Coord) -> (r: Option<&V>)
        requires
            self.wf(),
        ensures
            r is Some <==> self@.contains_key(seq![*coord]),
            r matches Some(v) ==> *v == self@[seq![*coord]],
    {
        self.at_path(&single(*coord))
    }

    /// A mutable reference to the value stored at `coord`.
    pub fn at_mut(&mut self, coord: &Coord) -> (r: Option<&mut V>)
        requires
            old(self).wf(),
        ensures
            r is Some <==> old(self)@.contains_key(seq![*coord]),
            r matches Some(v) ==> *v == old(self)@[seq![*coord]],
            r matches Some(v) ==> final(self).wf() && final(self)@ == old(self)@.insert(
                seq![*coord],
                *final(v),
            ),
            r is None ==> final(self).wf() && final(self)@ == old(self)@,
    {
        self.at_path_mut(&single(*coord))
    }

    /// `true` when `coord` holds a value.
    pub fn occupied(&self, coord: &Coord) -> (r: bool)
        requires
            self.wf(),
        ensures
            r == self@.contains_key(seq![*coord]),
    {
        self.at(coord).is_some()
    }

    /// Stores `value` at `coord`, returning the value it replaced.
    pub fn place(&mut self, coord: Coord, value: V) -> (r: Option<V>)
        requires
            old(self).wf(),
        ensures
            final(self).wf(),
            final(self)@ == old(self)@.insert(seq![coord], value),
            r == old(self)@.get(seq![coord]),
    {
        proof {
            lemma_flat_len_bound(self.root);
        }
        self.place_path(&single(coord), value)
    }

    /// Removes the value at `coord`, returning it if there was one.
    pub fn vacate(&mut self, coord: &Coord) -> (r: Option<V>)
        requires
            old(self).wf(),
        ensures
            final(self).wf(),
            final(self)@ == old(self)@.remove(seq![*coord]),
            r == old(self)@.get(seq![*coord]),
    {
        self.vacate_path(&single(*coord))
    }
}

} // verus!

verus! {

/// The entries of a one-level map, keyed by their single coordinate.
pub open spec fn flat_of<V>(m: Map<Seq<Coord>, V>) -> Map<Coord, V> {
    Map::new(|c: Coord| m.contains_key(seq![c]), |c: Coord| m[seq![c]])
}

/// Every path found below a node of height `h` has length `h` and only
/// valid coordinates.
pub proof fn lemma_lookup_valid<V>(node: Node<V>, h: nat, p: Seq<Coord>)
    requires
        node.wf(h),
        node.lookup(p) is Some,
    ensures
        p.len() == h,
        forall|j: int| 0 <= j < p.len() ==> (#[trigger] p[j]).idx() < 11172,
    decreases h,
{
    match node {
        Node::Leaf(s) => {},
        Node::Branch(c) => {
            let b = c@[p[0].idx()]->0;
            lemma_lookup_valid(*b, (h - 1) as nat, p.drop_first());
            assert forall|j: int| 0 <= j < p.len() implies (#[trigger] p[j]).idx() < 11172 by {
                if j > 0 {
                    assert(p[j] == p.drop_first()[j - 1]);
                }
            }
        },
    }
}

impl<const N: usize, V> CoordSpaceN<N, V> {
    /// Every key of the space is a path of `N` valid coordinates.
    pub proof fn lemma_keys(&self)
        requires
            self.wf(),
        ensures
            forall|p: Seq<Coord>|
                #[trigger] self@.contains_key(p) ==> p.len() == N && forall|j: int|
                    0 <= j < p.len() ==> (#[trigger] p[j]).idx() < 11172,
    {
        assert forall|p: Seq<Coord>| #[trigger] self@.contains_key(p) implies p.len() == N
            && forall|j: int| 0 <= j < p.len() ==> (#[trigger] p[j]).idx() < 11172 by {
            lemma_lookup_valid(self.root, N as nat, p);
        }
    }
}

/// Single-coordinate paths are equal exactly when their coordinates are.
pub proof fn lemma_single_eq(c: Coord, d: Coord)
    ensures
        (seq![c] == seq![d]) <==> (c == d),
{
    if seq![c] == seq![d] {
        assert(seq![c][0] == seq![d][0]);
    }
}

/// Storing at a single-coordinate path stores at that coordinate.
pub proof fn lemma_flat_insert<V>(m: Map<Seq<Coord>, V>, c: Coord)
    ensures
        forall|v: V| #[trigger] flat_of(m.insert(seq![c], v)) == flat_of(m).insert(c, v),
{
    assert forall|v: V| #[trigger] flat_of(m.insert(seq![c], v)) == flat_of(m).insert(c, v) by {
        assert forall|d: Coord| #[trigger] flat_of(m.insert(seq![c], v)).contains_key(d) == flat_of(m).insert(c, v).contains_key(d) by {
            lemma_single_eq(c, d);
        }
        assert forall|d: Coord| #[trigger] flat_of(m.insert(seq![c], v)).contains_key(d) implies flat_of(m.insert(seq![c], v))[d] == flat_of(m).insert(c, v)[d] by {
            lemma_single_eq(c, d);
        }
        assert(flat_of(m.insert(seq![c], v)) =~= flat_of(m).insert(c, v));
    }
}

/// Removing a single-coordinate path removes that coordinate.
pub proof fn lemma_flat_remove<V>(m: Map<Seq<Coord>, V>, c: Coord)
    ensures
        flat_of(m.remove(seq![c])) == flat_of(m).remove(c),
{
    assert forall|d: Coord| #[trigger] flat_of(m.remove(seq![c])).contains_key(d) == flat_of(m).remove(c).contains_key(d) by {
        lemma_single_eq(c, d);
    }
    assert(flat_of(m.remove(seq![c])) =~= flat_of(m).remove(c));
}

/// A one-level map is determined by its entries keyed by single coordinates.
pub proof fn lemma_flat_keys<V>(m: Map<Seq<Coord>, V>)
    requires
        forall|p: Seq<Coord>| #[trigger] m.contains_key(p) ==> p.len() == 1,
    ensures
        forall|p: Seq<Coord>| #[trigger] m.contains_key(p) ==> p == seq![p[0]] && flat_of(m).contains_key(p[0]),
{
    assert forall|p: Seq<Coord>| #[trigger] m.contains_key(p) implies p == seq![p[0]] && flat_of(m).contains_key(p[0]) by {
        assert(p =~= seq![p[0]]);
    }
}

/// An iterator over the `(coordinate, value)` pairs of a one-level space,
/// in coordinate order.
pub type Iter<'a, V> = std::vec::IntoIter<(Coord, &'a V)>;

/// An iterator over the pairs removed from a one-level space, in
/// coordinate order.
pub type Drain<V> = std::vec::IntoIter<(Coord, V)>;

impl<V> CoordSpaceN<1, V> {
    /// The pairs of the space in coordinate order.
    fn flat_refs(&self) -> (out: Vec<(Coord, &V)>)
        requires
            self.wf(),
        ensures
            lists(flat_of(self@), deref_pairs(out@)),
    {
        let ghost fm = flat_of(self@);
        proof {
            self.lemma_keys();
        }
        let mut out: Vec<(Coord, &V)> = Vec::new();
        let mut i: u16 = 0;
        while i < 11172
            invariant
                self.wf(),
                fm == flat_of(self@),
                forall|c: Coord| #[trigger] fm.contains_key(c) ==> c.idx() < 11172,
                i <= 11172,
                forall|k: int|
                    0 <= k < out@.len() ==> fm.contains_key((#[trigger] out@[k]).0) && fm[out@[k].0]
                        == *out@[k].1 && out@[k].0.idx() < i,
                forall|k: int, l: int|
                    0 <= k < l < out@.len() ==> (#[trigger] out@[k]).0.idx() < (
                    #[trigger] out@[l]).0.idx(),
                forall|c: Coord|
                    #[trigger] fm.contains_key(c) && c.idx() < i ==> exists|k: int|
                        0 <= k < out@.len() && (#[trigger] out@[k]).0 == c,
            decreases 11172 - i,
        {
            let c = Coord(i);
            let ghost old_out = out@;
            match self.at(&c) {
                Some(v) => {
                    out.push((c, v));
                },
                None => {},
            }
            proof {
                assert forall|d: Coord| #[trigger] fm.contains_key(d) && d.idx() < i + 1 implies exists|k: int|
                    0 <= k < out@.len() && (#[trigger] out@[k]).0 == d by {
                    if d.idx() == i {
                        assert(d == c);
                        assert(out@[out@.len() - 1].0 == c);
                    } else {
                        let k = choose|k: int| 0 <= k < old_out.len() && (#[trigger] old_out[k]).0 == d;
                        assert(out@[k] == old_out[k]);
                    }
                }
            }
            i = i + 1;
        }
        proof {
            let d = deref_pairs(out@);
            assert forall|k: int| 0 <= k < d.len() implies fm.contains_key((#[trigger] d[k]).0) && fm[d[k].0] == d[k].1 by {
                assert(d[k] == (out@[k].0, *out@[k].1));
            }
            assert forall|k: int, l: int| 0 <= k < l < d.len() implies (#[trigger] d[k]).0.idx() < (#[trigger] d[l]).0.idx() by {
                assert(d[k].0 == out@[k].0);
                assert(d[l].0 == out@[l].0);
            }
            assert forall|c: Coord| #[trigger] fm.contains_key(c) implies exists|k: int| 0 <= k < d.len() && (#[trigger] d[k]).0 == c by {
                let k = choose|k: int| 0 <= k < out@.len() && (#[trigger] out@[k]).0 == c;
                assert(d[k].0 == c);
            }
        }
        out
    }

    /// Iterates over the `(coordinate, value)` pairs in coordinate order.
    pub fn iter_flat(&self) -> (r: Iter<'_, V>)
        requires
            self.wf(),
        ensures
            lists(flat_of(self@), deref_pairs(r.remaining())),
    {
        let out = self.flat_refs();
        let ghost g = out;
        let r = out.into_iter();
        proof {
            vstd::std_specs::vec::axiom_spec_into_iter(g);
        }
        r
    }
}

} // verus!

verus! {

/// The coordinates of a list of pairs.
pub(crate) fn pair_keys<V>(pairs: &Vec<(Coord, &V)>) -> (r: Vec<Coord>)
    ensures
        r@ == keys_of(deref_pairs(pairs@)),
{
    let mut r: Vec<Coord> = Vec::new();
    let mut k: usize = 0;
    while k < pairs.len()
        invariant
            k <= pairs@.len(),
            r@ == keys_of(deref_pairs(pairs@.take(k as int))),
        decreases pairs@.len() - k,
    {
        r.push(pairs[k].0);
        proof {
            assert(deref_pairs(pairs@.take(k + 1)) =~= deref_pairs(pairs@.take(k as int)).push(
                (pairs@[k as int].0, *pairs@[k as int].1),
            ));
        }
        k = k + 1;
        proof {
            assert(keys_of(deref_pairs(pairs@.take(k as int))) =~= r@);
        }
    }
    assert(pairs@.take(k as int) =~= pairs@);
    r
}

/// The value references of a list of pairs.
pub(crate) fn pair_values<'a, V>(pairs: &Vec<(Coord, &'a V)>) -> (r: Vec<&'a V>)
    ensures
        r@.map_values(|v: &V| *v) == values_of(deref_pairs(pairs@)),
{
    let mut r: Vec<&'a V> = Vec::new();
    let mut k: usize = 0;
    while k < pairs.len()
        invariant
            k <= pairs@.len(),
            r@.map_values(|v: &V| *v) == values_of(deref_pairs(pairs@.take(k as int))),
        decreases pairs@.len() - k,
    {
        let ghost before = r@;
        r.push(pairs[k].1);
        proof {
            assert(deref_pairs(pairs@.take(k + 1)) =~= deref_pairs(pairs@.take(k as int)).push(
                (pairs@[k as int].0, *pairs@[k as int].1),
            ));
            assert(r@.map_values(|v: &V| *v) =~= before.map_values(|v: &V| *v).push(*pairs@[k as int].1));
        }
        k = k + 1;
        proof {
            assert(values_of(deref_pairs(pairs@.take(k as int))) =~= r@.map_values(|v: &V| *v));
        }
    }
    assert(pairs@.take(k as int) =~= pairs@);
    r
}

impl<V> CoordSpaceN<1, V> {
    /// Iterates over the occupied coordinates in order.
    pub fn coords(&self) -> (r: std::vec::IntoIter<Coord>)
        requires
            self.wf(),
        ensures
            exists|l: Seq<(Coord, V)>| lists(flat_of(self@), l) && r.remaining() == keys_of(l),
    {
        let pairs = self.flat_refs();
        let keys = pair_keys(&pairs);
        let ghost g = keys;
        let r = keys.into_iter();
        proof {
            vstd::std_specs::vec::axiom_spec_into_iter(g);
        }
        r
    }

    /// Iterates over the stored values in coordinate order.
    pub fn values(&self) -> (r: std::vec::IntoIter<&V>)
        requires
            self.wf(),
        ensures
            exists|l: Seq<(Coord, V)>|
                lists(flat_of(self@), l) && r.remaining().map_values(|v: &V| *v) == values_of(l),
    {
        let pairs = self.flat_refs();
        let vals = pair_values(&pairs);
        let ghost g = vals;
        let r = vals.into_iter();
        proof {
            vstd::std_specs::vec::axiom_spec_into_iter(g);
        }
        r
    }

    /// Removes every entry, yielding the removed pairs in coordinate order.
    pub fn drain(&mut self) -> (r: Drain<V>)
        requires
            old(self).wf(),
        ensures
            final(self).wf(),
            final(self)@ == Map::<Seq<Coord>, V>::empty(),
            lists(flat_of(old(self)@), r.remaining()),
    {
        let ghost fm = flat_of(old(self)@);
        proof {
            self.lemma_keys();
        }
        let mut out: Vec<(Coord, V)> = Vec::new();
        let mut i: u16 = 0;
        while i < 11172
            invariant
                self.wf(),
                forall|c: Coord| #[trigger] fm.contains_key(c) ==> c.idx() < 11172,
                forall|p: Seq<Coord>| #[trigger] self@.contains_key(p) ==> p.len() == 1,
                forall|c: Coord|
                    #[trigger] flat_of(self@).contains_key(c) <==> (fm.contains_key(c) && c.idx() >= i),
                forall|c: Coord| #[trigger] flat_of(self@).contains_key(c) ==> flat_of(self@)[c] == fm[c],
                i <= 11172,
                forall|k: int|
                    0 <= k < out@.len() ==> fm.contains_key((#[trigger] out@[k]).0) && fm[out@[k].0]
                        == out@[k].1 && out@[k].0.idx() < i,
                forall|k: int, l: int|
                    0 <= k < l < out@.len() ==> (#[trigger] out@[k]).0.idx() < (
                    #[trigger] out@[l]).0.idx(),
                forall|c: Coord|
                    #[trigger] fm.contains_key(c) && c.idx() < i ==> exists|k: int|
                        0 <= k < out@.len() && (#[trigger] out@[k]).0 == c,
            decreases 11172 - i,
        {
            let c = Coord(i);
            let ghost old_out = out@;
            let ghost before = self@;
            match self.vacate(&c) {
                Some(v) => {
                    proof {
                        assert(flat_of(before).contains_key(c));
                        assert(flat_of(before)[c] == v);
                    }
                    out.push((c, v));
                },
                None => {},
            }
            proof {
                lemma_flat_remove(before, c);
                assert forall|d: Coord| #[trigger] fm.contains_key(d) && d.idx() < i + 1 implies exists|k: int|
                    0 <= k < out@.len() && (#[trigger] out@[k]).0 == d by {
                    if d.idx() == i {
                        assert(d == c);
                        assert(flat_of(before).contains_key(c));
                        assert(out@[out@.len() - 1].0 == c);
                    } else {
                        let k = choose|k: int| 0 <= k < old_out.len() && (#[trigger] old_out[k]).0 == d;
                        assert(out@[k] == old_out[k]);
                    }
                }
                assert forall|d: Coord| #[trigger] flat_of(self@).contains_key(d) <==> (fm.contains_key(d) && d.idx() >= i + 1) by {
                    if d.idx() == i {
                        assert(d == c);
                    }
                }
            }
            i = i + 1;
        }
        proof {
            self.lemma_keys();
            lemma_flat_keys(self@);
            assert(self@ =~= Map::<Seq<Coord>, V>::empty());
        }
        let ghost g = out;
        let r = out.into_iter();
        proof {
            vstd::std_specs::vec::axiom_spec_into_iter(g);
        }
        r
    }

    /// Keeps the entries for which `f` returns `true`, visiting them in
    /// coordinate order; `f` may change a value it keeps.
    pub fn retain<F: FnMut(Coord, &mut V) -> bool>(&mut self, mut f: F)
        requires
            old(self).wf(),
            forall|c: Coord, v: &mut V| f.requires((c, v)),
        ensures
            final(self).wf(),
            forall|c: Coord| #[trigger] flat_of(final(self)@).contains_key(c) ==> flat_of(old(self)@).contains_key(c),
            forall|c: Coord| #[trigger] flat_of(old(self)@).contains_key(c) ==> exists|v: &mut V, keep: bool|
                *v == flat_of(old(self)@)[c] && f.ensures((c, v), keep) && (keep <==> flat_of(final(self)@).contains_key(c))
                    && (keep ==> flat_of(final(self)@)[c] == *final(v)),
    {
        let ghost fm = flat_of(old(self)@);
        let ghost f0 = f;
        proof {
            self.lemma_keys();
        }
        let mut i: u16 = 0;
        while i < 11172
            invariant
                self.wf(),
                f == f0,
                forall|c: Coord, v: &mut V| f.requires((c, v)),
                forall|c: Coord| #[trigger] fm.contains_key(c) ==> c.idx() < 11172,
                forall|c: Coord| #[trigger] flat_of(self@).contains_key(c) && c.idx() >= i ==> fm.contains_key(c) && flat_of(self@)[c] == fm[c],
                forall|c: Coord| #[trigger] fm.contains_key(c) && c.idx() >= i ==> flat_of(self@).contains_key(c),
                forall|c: Coord| #[trigger] flat_of(self@).contains_key(c) ==> fm.contains_key(c),
                forall|c: Coord| #[trigger] fm.contains_key(c) && c.idx() < i ==> exists|v: &mut V, keep: bool|
                    *v == fm[c] && f.ensures((c, v), keep) && (keep <==> flat_of(self@).contains_key(c))
                        && (keep ==> flat_of(self@)[c] == *final(v)),
                i <= 11172,
            decreases 11172 - i,
        {
            let c = Coord(i);
            let ghost before = self@;
            proof {
                lemma_flat_insert(before, c);
            }
            let keep: bool = match self.at_mut(&c) {
                Some(v) => {
                    proof {
                        assert(flat_of(before).contains_key(c));
                    }
                    f(c, v)
                },
                None => true,
            };
            let ghost mid = self@;
            if !keep {
                self.vacate(&c);
                proof {
                    lemma_flat_remove(mid, c);
                }
            }
            i = i + 1;
        }
    }
}

} // verus!

verus! {

/// Storing twice under one key keeps the second value.
pub proof fn lemma_insert_twice<K, V>(m: Map<K, V>, k: K, a: V)
    ensures
        forall|b: V| #[trigger] m.insert(k, a).insert(k, b) == m.insert(k, b),
{
    assert forall|b: V| #[trigger] m.insert(k, a).insert(k, b) == m.insert(k, b) by {
        assert(m.insert(k, a).insert(k, b) =~= m.insert(k, b));
    }
}

/// A view into one coordinate of a one-level space, occupied or vacant.
pub enum Entry<'a, V> {
    Occupied(OccupiedEntry<'a, V>),
    Vacant(VacantEntry<'a, V>),
}

/// An entry whose coordinate holds a value.
pub struct OccupiedEntry<'a, V> {
    /// The space the entry belongs to.
    pub map: &'a mut CoordSpaceN<1, V>,
    /// The entry's coordinate.
    pub coord: Coord,
}

/// An entry whose coordinate holds no value.
pub struct VacantEntry<'a, V> {
    /// The space the entry belongs to.
    pub map: &'a mut CoordSpaceN<1, V>,
    /// The entry's coordinate.
    pub coord: Coord,
}

impl<V> CoordSpaceN<1, V> {
    /// The entry for `coord`, for in-place manipulation.
    pub fn entry(&mut self, coord: Coord) -> (r: Entry<'_, V>)
        requires
            old(self).wf(),
        ensures
            r.valid(),
            r.coord_spec() == coord,
            r is Occupied <==> old(self)@.contains_key(seq![coord]),
            r matches Entry::Occupied(e) ==> *e.map == *old(self) && *final(self) == *final(e.map),
            r matches Entry::Vacant(e) ==> *e.map == *old(self) && *final(self) == *final(e.map),
    {
        if self.occupied(&coord) {
            Entry::Occupied(OccupiedEntry { map: self, coord })
        } else {
            Entry::Vacant(VacantEntry { map: self, coord })
        }
    }
}

impl<'a, V> OccupiedEntry<'a, V> {
    /// The entry's coordinate.
    pub fn coord(&self) -> (r: Coord)
        ensures
            r == self.coord,
    {
        self.coord
    }

    /// The value at the entry's coordinate.
    pub fn at(&self) -> (r: &V)
        requires
            self.map.wf(),
            self.map@.contains_key(seq![self.coord]),
        ensures
            *r == old(self.map)@[seq![self.coord]],
    {
        match self.map.at(&self.coord) {
            Some(v) => v,
            None => vstd::pervasive::unreached(),
        }
    }

    /// A mutable reference to the value at the entry's coordinate; the
    /// space then holds whatever the reference holds when released.
    pub fn at_mut(&mut self) -> (r: &mut V)
        requires
            old(self).map.wf(),
            old(self).map@.contains_key(seq![old(self).coord]),
        ensures
            *r == old(self).map@[seq![old(self).coord]],
            final(self).coord == old(self).coord,
            final(self).map.wf(),
            final(self).map@ == old(self).map@.insert(seq![old(self).coord], *final(r)),
    {
        match self.map.at_mut(&self.coord) {
            Some(v) => v,
            None => vstd::pervasive::unreached(),
        }
    }

    /// Replaces the value at the entry's coordinate, returning the old one.
    pub fn place(&mut self, value: V) -> (r: V)
        requires
            old(self).map.wf(),
            old(self).map@.contains_key(seq![old(self).coord]),
        ensures
            r == old(self).map@[seq![old(self).coord]],
            final(self).coord == old(self).coord,
            final(self).map.wf(),
            final(self).map@ == old(self).map@.insert(seq![old(self).coord], value),
    {
        match self.map.place(self.coord, value) {
            Some(v) => v,
            None => vstd::pervasive::unreached(),
        }
    }

    /// Removes the entry, returning its value.
    pub fn remove_entry(self) -> (r: V)
        requires
            self.map.wf(),
            self.map@.contains_key(seq![self.coord]),
        ensures
            r == old(self.map)@[seq![self.coord]],
            final(self.map).wf(),
            final(self.map)@ == old(self.map)@.remove(seq![self.coord]),
    {
        match self.map.vacate(&self.coord) {
            Some(v) => v,
            None => vstd::pervasive::unreached(),
        }
    }
}

impl<'a, V> VacantEntry<'a, V> {
    /// The entry's coordinate.
    pub fn coord(&self) -> (r: Coord)
        ensures
            r == self.coord,
    {
        self.coord
    }

    /// Gives back the coordinate, leaving the space unchanged.
    pub fn into_key(self) -> (r: Coord)
        ensures
            r == self.coord,
            *final(self.map) == *old(self.map),
    {
        self.coord
    }

    /// Stores `value` at the entry's coordinate and returns a mutable
    /// reference to it.
    pub fn place(self, value: V) -> (r: &'a mut V)
        requires
            self.map.wf(),
        ensures
            *r == value,
            final(self.map).wf(),
            final(self.map)@ == old(self.map)@.insert(seq![self.coord], *final(r)),
    {
        let ghost m0 = self.map@;
        proof {
            lemma_insert_twice(m0, seq![self.coord], value);
        }
        self.map.place(self.coord, value);
        match self.map.at_mut(&self.coord) {
            Some(v) => v,
            None => vstd::pervasive::unreached(),
        }
    }
}

impl<'a, V> Entry<'a, V> {
    /// The entry is consistent with its space: the space is well formed and
    /// the variant matches whether the coordinate holds a value.
    pub open spec fn valid(&self) -> bool {
        match self {
            Entry::Occupied(e) => e.map.wf() && e.map@.contains_key(seq![e.coord]),
            Entry::Vacant(e) => e.map.wf() && !e.map@.contains_key(seq![e.coord]),
        }
    }

    /// The entry's coordinate.
    pub open spec fn coord_spec(&self) -> Coord {
        match self {
            Entry::Occupied(e) => e.coord,
            Entry::Vacant(e) => e.coord,
        }
    }

    /// The entry's coordinate.
    pub fn coord(&self) -> (r: Coord)
        ensures
            r == self.coord_spec(),
    {
        match self {
            Entry::Occupied(e) => e.coord(),
            Entry::Vacant(e) => e.coord(),
        }
    }

    /// The value at the entry, storing `default` first when it is vacant.
    pub fn or_insert(self, default: V) -> (r: &'a mut V)
        requires
            self.valid(),
        ensures
            self matches Entry::Occupied(e) ==> *r == e.map@[seq![e.coord]] && final(e.map).wf()
                && final(e.map)@ == e.map@.insert(seq![e.coord], *final(r)),
            self matches Entry::Vacant(e) ==> *r == default && final(e.map).wf()
                && final(e.map)@ == e.map@.insert(seq![e.coord], *final(r)),
    {
        match self {
            Entry::Occupied(e) => {
                let ghost m0 = e.map@;
                proof {
                    assert(m0.insert(seq![e.coord], m0[seq![e.coord]]) =~= m0);
                }
                match e.map.at_mut(&e.coord) {
                    Some(v) => v,
                    None => vstd::pervasive::unreached(),
                }
            },
            Entry::Vacant(e) => e.place(default),
        }
    }

    /// The value at the entry, storing the result of `f()` first when it is
    /// vacant.
    pub fn or_insert_with<F: FnOnce() -> V>(self, f: F) -> (r: &'a mut V)
        requires
            self.valid(),
            self is Vacant ==> f.requires(()),
        ensures
            self matches Entry::Occupied(e) ==> *r == e.map@[seq![e.coord]] && final(e.map).wf()
                && final(e.map)@ == e.map@.insert(seq![e.coord], *final(r)),
            self matches Entry::Vacant(e) ==> f.ensures((), *r) && final(e.map).wf()
                && final(e.map)@ == e.map@.insert(seq![e.coord], *final(r)),
    {
        match self {
            Entry::Occupied(e) => {
                match e.map.at_mut(&e.coord) {
                    Some(v) => v,
                    None => vstd::pervasive::unreached(),
                }
            },
            Entry::Vacant(e) => {
                let v = f();
                e.place(v)
            },
        }
    }

    /// The value at the entry, storing the result of `f(coord)` first when it
    /// is vacant.
    pub fn or_insert_with_key<F: FnOnce(Coord) -> V>(self, f: F) -> (r: &'a mut V)
        requires
            self.valid(),
            self is Vacant ==> f.requires((self.coord_spec(),)),
        ensures
            self matches Entry::Occupied(e) ==> *r == e.map@[seq![e.coord]] && final(e.map).wf()
                && final(e.map)@ == e.map@.insert(seq![e.coord], *final(r)),
            self matches Entry::Vacant(e) ==> f.ensures((e.coord,), *r) && final(e.map).wf()
                && final(e.map)@ == e.map@.insert(seq![e.coord], *final(r)),
    {
        match self {
            Entry::Occupied(e) => {
                match e.map.at_mut(&e.coord) {
                    Some(v) => v,
                    None => vstd::pervasive::unreached(),
                }
            },
            Entry::Vacant(e) => {
                let v = f(e.coord);
                e.place(v)
            },
        }
    }

    /// Applies `f` to the value of an occupied entry; a vacant entry is
    /// returned as it is.
    pub fn and_modify<F: FnOnce(&mut V)>(self, f: F) -> (r: Self)
        requires
            self.valid(),
            self is Occupied ==> forall|v: &mut V| f.requires((v,)),
        ensures
            r.valid(),
            r.coord_spec() == self.coord_spec(),
            self matches Entry::Vacant(e) ==> r matches Entry::Vacant(e2) && *e2.map == *e.map
                && *final(e2.map) == *final(e.map),
            self matches Entry::Occupied(e) ==> r matches Entry::Occupied(e2) && *final(e2.map)
                == *final(e.map) && exists|v: &mut V|
                *v == e.map@[seq![e.coord]] && f.ensures((v,), ()) && e2.map@ == e.map@.insert(
                    seq![e.coord],
                    *final(v),
                ),
    {
        match self {
            Entry::Occupied(e) => {
                let ghost m0 = e.map@;
                proof {
                    lemma_insert_twice(m0, seq![e.coord], m0[seq![e.coord]]);
                }
                match e.map.at_mut(&e.coord) {
                    Some(v) => f(v),
                    None => vstd::pervasive::unreached(),
                }
                Entry::Occupied(e)
            },
            Entry::Vacant(e) => Entry::Vacant(e),
        }
    }
}

} // verus!

verus! {

impl<V> CoordSpaceN<1, V> {
    /// Builds a one-level space from pairs; a later pair for the same
    /// coordinate replaces an earlier one.
    pub fn from_pairs(pairs: Vec<(Coord, V)>) -> (r: Self)
        ensures
            r.wf(),
            flat_of(r@) == map_of_pairs(pairs@),
    {
        let mut map: CoordSpaceN<1, V> = CoordSpaceN::new();
        let ghost all = pairs@;
        proof {
            assert(flat_of(map@) =~= map_of_pairs(all.take(0)));
        }
        for e in it: pairs.into_iter()
            invariant
                map.wf(),
                it.seq() == all,
                flat_of(map@) == map_of_pairs(all.take(it.index())),
        {
            let (c, v) = e;
            proof {
                lemma_map_of_pairs_step(all, it.index());
                lemma_flat_insert(map@, c);
            }
            map.place(c, v);
        }
        proof {
            assert(all.take(all.len() as int) =~= all);
        }
        map
    }

    /// Consumes the space, yielding its pairs in coordinate order.
    pub fn into_pairs(self) -> (r: Drain<V>)
        requires
            self.wf(),
        ensures
            lists(flat_of(self@), r.remaining()),
    {
        let mut s = self;
        s.drain()
    }
}

} // verus!

verus! {

impl<V> CoordSpaceN<1, V> {
    /// The coordinate-keyed view of a one-level space has as many entries as
    /// the space.
    pub proof fn lemma_flat_len(&self)
        requires
            self.wf(),
        ensures
            flat_of(self@).dom().finite(),
            flat_of(self@).len() == self@.len(),
            forall|c: Coord| #[trigger] flat_of(self@).contains_key(c) ==> c.idx() < 11172,
    {
        self.lemma_keys();
        lemma_flat_keys(self@);
        let x = self@.dom();
        let f = |p: Seq<Coord>| p[0];
        assert(x.map(f) =~= flat_of(self@).dom()) by {
            assert forall|c: Coord| #[trigger] flat_of(self@).dom().contains(c) implies x.map(f).contains(c) by {
                assert(x.contains(seq![c]));
                assert(f(seq![c]) == c);
            }
        }
        assert(vstd::relations::injective_on(f, x)) by {
            assert forall|p: Seq<Coord>, q: Seq<Coord>| x.contains(p) && x.contains(q) && #[trigger] f(p) == #[trigger] f(q) implies p == q by {
                assert(p == seq![p[0]]);
                assert(q == seq![q[0]]);
            }
        }
        vstd::set_lib::lemma_map_size(x, flat_of(self@).dom(), f);
    }
}

} // verus!

verus! {

/// A one-level space holds at most 11,172 entries.
pub proof fn lemma_flat_len_bound_of<V>(s: &CoordSpaceN<1, V>)
    requires
        s.wf(),
    ensures
        s@.len() <= 11172,
{
    lemma_flat_len_bound(s.root);
}

} // verus!

verus! {

/// One level: 11,172 identifiers.
pub type CoordSpaceN1<V> = CoordSpaceN<1, V>;

/// Two levels: about 1.25 x 10^8 identifiers.
pub type CoordSpaceN2<V> = CoordSpaceN<2, V>;

/// Three levels: about 1.39 x 10^12 identifiers.
pub type CoordSpaceN3<V> = CoordSpaceN<3, V>;

/// Six levels: about 1.94 x 10^24 identifiers (UUID scale).
pub type CoordSpaceN6<V> = CoordSpaceN<6, V>;

/// Twelve levels: about 2.41 x 10^67 identifiers.
pub type CoordSpaceN12<V> = CoordSpaceN<12, V>;

/// Nineteen levels: about 1.94 x 10^77 identifiers (SHA-256 scale).
pub type CoordSpaceN19<V> = CoordSpaceN<19, V>;

} // verus!

verus! {

/// The entries below `node` (of height `h`) placed under the prefix `p`:
/// full path `p + q` for every relative path `q` found below `node`.
pub open spec fn prefixed<V>(node: Node<V>, h: nat, p: Seq<Coord>) -> Map<Seq<Coord>, V> {
    Map::new(
        |k: Seq<Coord>|
            k.len() == p.len() + h && k.take(p.len() as int) == p && node.lookup(
                k.skip(p.len() as int),
            ) is Some,
        |k: Seq<Coord>| node.lookup(k.skip(p.len() as int))->0,
    )
}

/// The pairs of a tree listing with their paths and references followed.
pub open spec fn tree_items<const N: usize, V>(s: Seq<(CoordPath<N>, &V)>) -> Seq<(Seq<Coord>, V)> {
    s.map_values(|e: (CoordPath<N>, &V)| (e.0@, *e.1))
}

/// A path extended by one coordinate keeps its prefix.
proof fn lemma_push_take(k: Seq<Coord>, p: Seq<Coord>, c: Coord)
    requires
        k.len() > p.len(),
    ensures
        (k.take(p.len() + 1 as int) == p.push(c)) <==> (k.take(p.len() as int) == p && k[p.len() as int] == c),
{
    let d = p.len() as int;
    if k.take(d + 1) == p.push(c) {
        assert(k.take(d) =~= k.take(d + 1).take(d));
        assert(p.push(c).take(d) =~= p);
        assert(k[d] == k.take(d + 1)[d]);
        assert(p.push(c)[d] == c);
    }
    if k.take(d) == p && k[d] == c {
        assert(k.take(d + 1) =~= p.push(c));
    }
}

/// The entries of a branch under `p` with coordinate `c` at depth
/// `p.len()` are the entries of its child `c` under `p + [c]`.
proof fn lemma_prefixed_child<V>(node: Node<V>, h: nat, p: Seq<Coord>, c: Coord)
    requires
        node.wf(h),
        h > 1,
        node matches Node::Branch(ch) && c.idx() < 11172,
    ensures
        forall|k: Seq<Coord>|
            k.len() > p.len() && #[trigger] k[p.len() as int] == c ==> (prefixed(node, h, p).contains_key(k) <==> (
            match node {
                Node::Branch(ch) => ch@[c.idx()] matches Some(b) && prefixed(*b, (h - 1) as nat, p.push(c)).contains_key(k),
                Node::Leaf(_) => false,
            })),
        forall|k: Seq<Coord>|
            k.len() > p.len() && #[trigger] k[p.len() as int] == c && prefixed(node, h, p).contains_key(k) ==> (
            match node {
                Node::Branch(ch) => ch@[c.idx()] matches Some(b) && prefixed(node, h, p)[k] == prefixed(*b, (h - 1) as nat, p.push(c))[k],
                Node::Leaf(_) => false,
            }),
{
    let d = p.len() as int;
    assert forall|k: Seq<Coord>| k.len() > d && #[trigger] k[d] == c implies
        k.skip(d)[0] == c && k.skip(d).drop_first() == k.skip(d + 1) by {
        assert(k.skip(d).drop_first() =~= k.skip(d + 1));
    }
    assert forall|k: Seq<Coord>| k.len() > d && #[trigger] k[d] == c implies
        (k.take(d + 1) == p.push(c)) <==> (k.take(d) == p) by {
        lemma_push_take(k, p, c);
    }
}

} // verus!

verus! {

/// The path `prefix` with `c` at position `d`.
fn set_at<const N: usize>(prefix: &mut [Coord; N], d: usize, c: Coord)
    requires
        d < N,
        old(prefix)@.len() == N,
    ensures
        final(prefix)@ == old(prefix)@.update(d as int, c),
{
    prefix[d] = c;
}

/// Appends the entries of the leaf `slots` (at depth `d`, under the prefix
/// held in the first `d` positions of `prefix`) to `out`.
fn collect_leaf<'a, const N: usize, V>(
    slots: &'a Vec<Option<V>>,
    prefix: &mut [Coord; N],
    d: usize,
    out: &mut Vec<(CoordPath<N>, &'a V)>,
)
    requires
        d + 1 == N,
        slots@.len() == 11172,
        old(prefix)@.len() == N,
    ensures
        final(prefix)@.len() == N,
        final(prefix)@.take(d as int) == old(prefix)@.take(d as int),
        final(out)@.len() >= old(out)@.len(),
        final(out)@.take(old(out)@.len() as int) == old(out)@,
        lists_paths(
            prefixed(Node::Leaf(*slots), 1, old(prefix)@.take(d as int)),
            tree_items(final(out)@.skip(old(out)@.len() as int)),
        ),
        in_path_order(tree_items(final(out)@.skip(old(out)@.len() as int))),
{
    let ghost p = prefix@.take(d as int);
    let ghost node = Node::Leaf(*slots);
    let ghost m = prefixed(node, 1, p);
    let ghost start = out@;
    let ghost l0 = out@.len() as int;
    let mut i: u16 = 0;
    while i < 11172
        invariant
            d + 1 == N,
            slots@.len() == 11172,
            prefix@.len() == N,
            prefix@.take(d as int) == p,
            p.len() == d,
            node == Node::Leaf(*slots),
            m == prefixed(node, 1, p),
            l0 == start.len(),
            out@.len() >= l0,
            out@.take(l0) == start,
            i <= 11172,
            forall|k: int|
                0 <= k < out@.len() - l0 ==> m.contains_key((#[trigger] tree_items(out@.skip(l0))[k]).0)
                    && m[tree_items(out@.skip(l0))[k].0] == tree_items(out@.skip(l0))[k].1
                    && tree_items(out@.skip(l0))[k].0[d as int].idx() < i,
            forall|k: int, l: int|
                0 <= k < l < out@.len() - l0 ==> (#[trigger] tree_items(out@.skip(l0))[k]).0 != (
                #[trigger] tree_items(out@.skip(l0))[l]).0,
            in_path_order(tree_items(out@.skip(l0))),
            forall|q: Seq<Coord>|
                #[trigger] m.contains_key(q) && q[d as int].idx() < i ==> exists|k: int|
                    0 <= k < out@.len() - l0 && (#[trigger] tree_items(out@.skip(l0))[k]).0 == q,
        decreases 11172 - i,
    {
        let ghost before = out@;
        match &slots[i as usize] {
            Some(v) => {
                let c = Coord(i);
                set_at(prefix, d, c);
                let path = CoordPath::new(*prefix);
                out.push((path, v));
                proof {
                    let key = p.push(c);
                    assert(path@ =~= key);
                    assert(key.skip(d as int) =~= seq![c]);
                    assert(key.take(d as int) =~= p);
                    assert(prefix@.take(d as int) =~= p);
                    assert(m.contains_key(key));
                    let t0 = tree_items(before.skip(l0));
                    let t1 = tree_items(out@.skip(l0));
                    assert(t1 =~= t0.push((key, *v)));
                    assert forall|k: int, l: int| 0 <= k < l < t1.len() implies path_before(#[trigger] t1[k].0, #[trigger] t1[l].0) by {
                        if l == t0.len() {
                            assert(t1[k] == t0[k]);
                            assert(t1[l].0 == key);
                            assert(m.contains_key(t0[k].0));
                            assert(t0[k].0.take(d as int) == key.take(d as int));
                            assert(key[d as int] == c);
                        } else {
                            assert(t1[k] == t0[k]);
                            assert(t1[l] == t0[l]);
                        }
                    }
                    assert forall|q: Seq<Coord>| #[trigger] m.contains_key(q) && q[d as int].idx() < i + 1 implies exists|k: int|
                        0 <= k < out@.len() - l0 && (#[trigger] tree_items(out@.skip(l0))[k]).0 == q by {
                        if q[d as int].idx() == i {
                            assert(q =~= key) by {
                                assert(q.take(d as int) == p);
                                crate::coord::lemma_coord_eq(q[d as int], c);
                            }
                            assert(t1[t0.len() as int].0 == q);
                        } else {
                            let k = choose|k: int| 0 <= k < before.len() - l0 && (#[trigger] tree_items(before.skip(l0))[k]).0 == q;
                            assert(t1[k] == t0[k]);
                        }
                    }
                    assert(out@.take(l0) =~= start);
                }
            },
            None => {
                proof {
                    assert forall|q: Seq<Coord>| #[trigger] m.contains_key(q) && q[d as int].idx() < i + 1 implies exists|k: int|
                        0 <= k < out@.len() - l0 && (#[trigger] tree_items(out@.skip(l0))[k]).0 == q by {
                        if q[d as int].idx() == i {
                            assert(q.skip(d as int)[0] == q[d as int]);
                            assert(false);
                        }
                    }
                }
            },
        }
        i = i + 1;
    }
    proof {
        assert forall|q: Seq<Coord>| #[trigger] m.contains_key(q) implies q[d as int].idx() < 11172 by {
            assert(q.skip(d as int)[0] == q[d as int]);
        }
    }
}

} // verus!

verus! {

/// Appends the entries below `node` (of height `h`, at depth `d`, under
/// the prefix held in the first `d` positions of `prefix`) to `out`.
fn collect_tree<'a, const N: usize, V>(
    node: &'a Node<V>,
    Ghost(h): Ghost<nat>,
    prefix: &mut [Coord; N],
    d: usize,
    out: &mut Vec<(CoordPath<N>, &'a V)>,
)
    requires
        node.wf(h),
        d + h == N,
        old(prefix)@.len() == N,
    ensures
        final(prefix)@.len() == N,
        final(prefix)@.take(d as int) == old(prefix)@.take(d as int),
        final(out)@.len() >= old(out)@.len(),
        final(out)@.take(old(out)@.len() as int) == old(out)@,
        lists_paths(
            prefixed(*node, h, old(prefix)@.take(d as int)),
            tree_items(final(out)@.skip(old(out)@.len() as int)),
        ),
        in_path_order(tree_items(final(out)@.skip(old(out)@.len() as int))),
    decreases h,
{
    match node {
        Node::Leaf(slots) => {
            collect_leaf(slots, prefix, d, out);
        },
        Node::Branch(children) => {
            let ghost p = prefix@.take(d as int);
            let ghost m = prefixed(*node, h, p);
            let ghost start = out@;
            let ghost l0 = out@.len() as int;
            let mut i: u16 = 0;
            while i < 11172
                invariant
                    node.wf(h),
                    h > 1,
                    *node == Node::Branch(*children),
                    d + h == N,
                    prefix@.len() == N,
                    prefix@.take(d as int) == p,
                    p.len() == d,
                    m == prefixed(*node, h, p),
                    l0 == start.len(),
                    out@.len() >= l0,
                    out@.take(l0) == start,
                    i <= 11172,
                    forall|k: int|
                        0 <= k < out@.len() - l0 ==> m.contains_key((#[trigger] tree_items(out@.skip(l0))[k]).0)
                            && m[tree_items(out@.skip(l0))[k].0] == tree_items(out@.skip(l0))[k].1
                            && tree_items(out@.skip(l0))[k].0[d as int].idx() < i,
                    forall|k: int, l: int|
                        0 <= k < l < out@.len() - l0 ==> (#[trigger] tree_items(out@.skip(l0))[k]).0 != (
                        #[trigger] tree_items(out@.skip(l0))[l]).0,
                    in_path_order(tree_items(out@.skip(l0))),
                    forall|q: Seq<Coord>|
                        #[trigger] m.contains_key(q) && q[d as int].idx() < i ==> exists|k: int|
                            0 <= k < out@.len() - l0 && (#[trigger] tree_items(out@.skip(l0))[k]).0 == q,
                decreases 11172 - i,
            {
                let ghost before = out@;
                let c = Coord(i);
                proof {
                    lemma_prefixed_child(*node, h, p, c);
                    crate::coord::lemma_coord_at(i as int);
                }
                match &children[i as usize] {
                    Some(b) => {
                        set_at(prefix, d, c);
                        proof {
                            assert(prefix@.take(d + 1) =~= p.push(c));
                            assert(prefix@.take(d as int) =~= p);
                        }
                        collect_tree(&**b, Ghost((h - 1) as nat), prefix, d + 1, out);
                        proof {
                            let mc = prefixed(**b, (h - 1) as nat, p.push(c));
                            let t0 = tree_items(before.skip(l0));
                            let tc = tree_items(out@.skip(before.len() as int));
                            let t1 = tree_items(out@.skip(l0));
                            assert(out@.take(before.len() as int) == before);
                            assert forall|j: int| 0 <= j < before.len() implies #[trigger] out@[j] == before[j] by {
                                assert(out@[j] == out@.take(before.len() as int)[j]);
                            }
                            assert(t1 =~= t0 + tc) by {
                                assert(out@.skip(l0) =~= before.skip(l0) + out@.skip(before.len() as int));
                            }
                            assert(prefix@.take(d as int) =~= p) by {
                                assert(prefix@.take(d as int) =~= prefix@.take(d + 1).take(d as int));
                            }
                            assert forall|k: int| 0 <= k < tc.len() implies (#[trigger] tc[k]).0.len() > d && tc[k].0[d as int] == c by {
                                assert(mc.contains_key(tc[k].0));
                                lemma_push_take(tc[k].0, p, c);
                            }
                            assert forall|k: int|
                                0 <= k < out@.len() - l0 implies m.contains_key((#[trigger] t1[k]).0)
                                    && m[t1[k].0] == t1[k].1 && t1[k].0[d as int].idx() < i + 1 by {
                                if k >= t0.len() {
                                    assert(t1[k] == tc[k - t0.len()]);
                                } else {
                                    assert(t1[k] == t0[k]);
                                }
                            }
                            assert forall|k: int, l: int|
                                0 <= k < l < out@.len() - l0 implies (#[trigger] t1[k]).0 != (#[trigger] t1[l]).0 by {
                                if l >= t0.len() && k < t0.len() {
                                    assert(t1[l] == tc[l - t0.len()]);
                                    assert(t1[k] == t0[k]);
                                    assert(t1[l].0[d as int] == c);
                                } else if k >= t0.len() {
                                    assert(t1[l] == tc[l - t0.len()]);
                                    assert(t1[k] == tc[k - t0.len()]);
                                } else {
                                    assert(t1[l] == t0[l]);
                                    assert(t1[k] == t0[k]);
                                }
                            }
                            assert forall|k: int, l: int| 0 <= k < l < t1.len() implies path_before(#[trigger] t1[k].0, #[trigger] t1[l].0) by {
                                if l >= t0.len() && k < t0.len() {
                                    assert(t1[l] == tc[l - t0.len()]);
                                    assert(t1[k] == t0[k]);
                                    assert(mc.contains_key(t1[l].0));
                                    lemma_push_take(t1[l].0, p, c);
                                    assert(m.contains_key(t0[k].0));
                                    assert(t1[k].0.take(d as int) == t1[l].0.take(d as int));
                                    assert(t1[l].0[d as int] == c);
                                } else if k >= t0.len() {
                                    assert(t1[l] == tc[l - t0.len()]);
                                    assert(t1[k] == tc[k - t0.len()]);
                                } else {
                                    assert(t1[l] == t0[l]);
                                    assert(t1[k] == t0[k]);
                                }
                            }
                            assert forall|q: Seq<Coord>| #[trigger] m.contains_key(q) && q[d as int].idx() < i + 1 implies exists|k: int|
                                0 <= k < out@.len() - l0 && (#[trigger] t1[k]).0 == q by {
                                if q[d as int].idx() == i {
                                    crate::coord::lemma_coord_eq(q[d as int], c);
                                    assert(mc.contains_key(q));
                                    let j = choose|j: int| 0 <= j < tc.len() && (#[trigger] tc[j]).0 == q;
                                    assert(t1[t0.len() + j] == tc[j]);
                                } else {
                                    let k = choose|k: int| 0 <= k < before.len() - l0 && (#[trigger] tree_items(before.skip(l0))[k]).0 == q;
                                    assert(t1[k] == t0[k]);
                                }
                            }
                            assert(out@.take(l0) =~= start) by {
                                assert(out@.take(l0) =~= out@.take(before.len() as int).take(l0));
                            }
                        }
                    },
                    None => {
                        proof {
                            assert forall|q: Seq<Coord>| #[trigger] m.contains_key(q) && q[d as int].idx() < i + 1 implies exists|k: int|
                                0 <= k < out@.len() - l0 && (#[trigger] tree_items(out@.skip(l0))[k]).0 == q by {
                                if q[d as int].idx() == i {
                                    crate::coord::lemma_coord_eq(q[d as int], c);
                                    assert(false);
                                }
                            }
                        }
                    },
                }
                i = i + 1;
            }
            proof {
                assert forall|q: Seq<Coord>| #[trigger] m.contains_key(q) implies q[d as int].idx() < 11172 by {
                    assert(q.skip(d as int)[0] == q[d as int]);
                }
            }
        },
    }
}

} // verus!

verus! {

/// An iterator over the `(path, value)` pairs of a space.
pub type TreeIter<'a, const N: usize, V> = std::vec::IntoIter<(CoordPath<N>, &'a V)>;

/// The entries of `m` whose paths start with `p`.
pub open spec fn with_prefix<V>(m: Map<Seq<Coord>, V>, p: Seq<Coord>) -> Map<Seq<Coord>, V> {
    m.restrict(m.dom().filter(|k: Seq<Coord>| k.len() >= p.len() && k.take(p.len() as int) == p))
}

impl<const N: usize, V> CoordSpaceN<N, V> {
    /// Iterates over every `(path, value)` pair of the space, each exactly
    /// once, in depth-first, coordinate-ascending order.
    pub fn iter_tree(&self) -> (r: TreeIter<'_, N, V>)
        requires
            self.wf(),
        ensures
            lists_paths(self@, tree_items(r.remaining())),
            in_path_order(tree_items(r.remaining())),
    {
        let out = self.tree_entries();
        let ghost g = out;
        let r = out.into_iter();
        proof {
            vstd::std_specs::vec::axiom_spec_into_iter(g);
        }
        r
    }
}

} // verus!

verus! {

impl<const N: usize, V> CoordSpaceN<N, V> {
    /// Iterates over the entries whose paths start with `prefix`, each
    /// exactly once, in depth-first, coordinate-ascending order. `None` when
    /// `prefix` has more than `N` coordinates or no stored path starts with
    /// it.
    pub fn iter_prefix(&self, prefix: &[Coord]) -> (r: Option<TreeIter<'_, N, V>>)
        requires
            self.wf(),
        ensures
            r is Some <==> prefix@.len() <= N && with_prefix(self@, prefix@).dom() != Set::<Seq<Coord>>::empty(),
            r matches Some(it) ==> lists_paths(with_prefix(self@, prefix@), tree_items(it.remaining()))
                && in_path_order(tree_items(it.remaining())),
    {
        let k = prefix.len();
        if k > N {
            proof {
                self.lemma_keys();
                assert(with_prefix(self@, prefix@).dom() =~= Set::<Seq<Coord>>::empty());
            }
            return None;
        }
        if k == N {
            return self.iter_exact(prefix);
        }
        let zero = Coord::new(0).unwrap();
        let mut path: [Coord; N] = [zero; N];
        let mut node: &Node<V> = &self.root;
        let mut i: usize = 0;
        let ghost pre = prefix@;
        proof {
            assert forall|key: Seq<Coord>| key.len() == N && #[trigger] key.take(0) == pre.take(0) implies
                self.root.lookup(key) == node.lookup(key.skip(0)) by {
                assert(key.skip(0) =~= key);
            }
            assert(path@.take(0) =~= pre.take(0));
        }
        while i < k
            invariant
                self.wf(),
                k == pre.len(),
                pre == prefix@,
                k < N,
                i <= k,
                node.wf((N - i) as nat),
                path@.len() == N,
                path@.take(i as int) == pre.take(i as int),
                forall|key: Seq<Coord>|
                    key.len() == N && #[trigger] key.take(i as int) == pre.take(i as int) ==> self.root.lookup(key)
                        == node.lookup(key.skip(i as int)),
            decreases k - i,
        {
            let c = prefix[i];
            match node {
                Node::Branch(children) => {
                    match &children[c.index() as usize] {
                        Some(b) => {
                            proof {
                                assert forall|key: Seq<Coord>|
                                    key.len() == N && #[trigger] key.take(i + 1) == pre.take(i + 1) implies self.root.lookup(key)
                                        == b.lookup(key.skip(i + 1)) by {
                                    assert(key.take(i as int) =~= key.take(i + 1).take(i as int));
                                    assert(pre.take(i as int) =~= pre.take(i + 1).take(i as int));
                                    assert(key[i as int] == key.take(i + 1)[i as int]);
                                    assert(key.skip(i as int)[0] == key[i as int]);
                                    assert(key.skip(i as int).drop_first() =~= key.skip(i + 1));
                                }
                            }
                            set_at(&mut path, i, c);
                            proof {
                                assert(path@.take(i + 1) =~= pre.take(i + 1));
                            }
                            node = &**b;
                        },
                        None => {
                            proof {
                                assert(with_prefix(self@, pre).dom() =~= Set::<Seq<Coord>>::empty()) by {
                                    assert forall|key: Seq<Coord>| !with_prefix(self@, pre).dom().contains(key) by {
                                        if with_prefix(self@, pre).dom().contains(key) {
                                            assert(key.take(i as int) =~= key.take(k as int).take(i as int));
                                            assert(pre.take(i as int) =~= pre.take(k as int).take(i as int));
                                            assert(key[i as int] == key.take(k as int)[i as int]);
                                            assert(pre.take(k as int) =~= pre);
                                            assert(key.skip(i as int)[0] == key[i as int]);
                                        }
                                    }
                                }
                            }
                            return None;
                        },
                    }
                },
                Node::Leaf(_) => {
                    return None;
                },
            }
            i = i + 1;
        }
        let mut out: Vec<(CoordPath<N>, &V)> = Vec::new();
        proof {
            assert(pre.take(k as int) =~= pre);
        }
        collect_tree(node, Ghost((N - k) as nat), &mut path, k, &mut out);
        proof {
            assert(prefixed(*node, (N - k) as nat, pre) =~= with_prefix(self@, pre)) by {
                assert forall|key: Seq<Coord>| #[trigger] with_prefix(self@, pre).contains_key(key) implies
                    key.len() == N && key.take(k as int) == pre by {
                    self.lemma_keys();
                }
            }
            assert(out@.skip(0) =~= out@);
        }
        if out.len() == 0 {
            proof {
                assert(with_prefix(self@, pre).dom() =~= Set::<Seq<Coord>>::empty()) by {
                    assert forall|key: Seq<Coord>| !with_prefix(self@, pre).dom().contains(key) by {
                        if with_prefix(self@, pre).contains_key(key) {
                            let j = choose|j: int| 0 <= j < tree_items(out@).len() && (#[trigger] tree_items(out@)[j]).0 == key;
                        }
                    }
                }
            }
            return None;
        }
        proof {
            assert(tree_items(out@)[0].0 == out@[0].0@);
            assert(with_prefix(self@, pre).contains_key(tree_items(out@)[0].0));
        }
        let ghost g = out;
        let r = out.into_iter();
        proof {
            vstd::std_specs::vec::axiom_spec_into_iter(g);
        }
        Some(r)
    }

    /// The entry at the full path `prefix` (of `N` coordinates), if stored.
    fn iter_exact(&self, prefix: &[Coord]) -> (r: Option<TreeIter<'_, N, V>>)
        requires
            self.wf(),
            prefix@.len() == N,
        ensures
            r is Some <==> with_prefix(self@, prefix@).dom() != Set::<Seq<Coord>>::empty(),
            r matches Some(it) ==> lists_paths(with_prefix(self@, prefix@), tree_items(it.remaining()))
                && in_path_order(tree_items(it.remaining())),
    {
        let ghost pre = prefix@;
        let zero = Coord::new(0).unwrap();
        let mut arr: [Coord; N] = [zero; N];
        let mut i: usize = 0;
        while i < N
            invariant
                i <= N,
                pre == prefix@,
                pre.len() == N,
                arr@.len() == N,
                arr@.take(i as int) == pre.take(i as int),
            decreases N - i,
        {
            set_at(&mut arr, i, prefix[i]);
            proof {
                assert(arr@.take(i + 1) =~= pre.take(i + 1));
            }
            i = i + 1;
        }
        proof {
            assert(arr@ =~= pre) by {
                assert(arr@.take(N as int) =~= arr@);
                assert(pre.take(N as int) =~= pre);
            }
        }
        let path = CoordPath::new(arr);
        proof {
            self.lemma_keys();
            assert forall|key: Seq<Coord>| #[trigger] with_prefix(self@, pre).contains_key(key) implies key == pre by {
                assert(key.take(N as int) =~= key);
            }
            assert(pre.take(N as int) =~= pre);
        }
        match self.at_path(&path) {
            Some(v) => {
                let mut out: Vec<(CoordPath<N>, &V)> = Vec::new();
                out.push((path, v));
                proof {
                    let t = tree_items(out@);
                    assert(t[0] == (pre, *v));
                    assert(with_prefix(self@, pre).contains_key(pre));
                }
                let ghost g = out;
                let r = out.into_iter();
                proof {
                    vstd::std_specs::vec::axiom_spec_into_iter(g);
                }
                Some(r)
            },
            None => {
                proof {
                    assert(with_prefix(self@, pre).dom() =~= Set::<Seq<Coord>>::empty());
                }
                None
            },
        }
    }
}

} // verus!

verus! {

impl<const N: usize, V> CoordSpaceN<N, V> {
    /// A well-formed space has a positive depth and finitely many entries,
    /// at most `usize::MAX`.
    pub proof fn lemma_finite(&self)
        requires
            self.wf(),
        ensures
            N > 0,
            self@.dom().finite(),
            self@.len() <= usize::MAX,
    {
    }

    /// Every `(path, value)` pair of the space, each exactly once.
    pub fn tree_entries(&self) -> (out: Vec<(CoordPath<N>, &V)>)
        requires
            self.wf(),
        ensures
            lists_paths(self@, tree_items(out@)),
            in_path_order(tree_items(out@)),
    {
        let zero = Coord::new(0).unwrap();
        let mut prefix: [Coord; N] = [zero; N];
        let mut out: Vec<(CoordPath<N>, &V)> = Vec::new();
        proof {
            assert(prefix@.len() == N);
            assert(prefix@.take(0) =~= Seq::<Coord>::empty());
        }
        collect_tree(&self.root, Ghost(N as nat), &mut prefix, 0, &mut out);
        proof {
            assert(prefixed(self.root, N as nat, Seq::<Coord>::empty()) =~= self@) by {
                assert forall|k: Seq<Coord>| #[trigger] self@.contains_key(k) || prefixed(self.root, N as nat, Seq::<Coord>::empty()).contains_key(k) implies
                    k.skip(0) == k && k.take(0) == Seq::<Coord>::empty() by {
                    assert(k.skip(0) =~= k);
                    assert(k.take(0) =~= Seq::<Coord>::empty());
                }
            }
            assert(out@.skip(0) =~= out@);
        }
        out
    }
}

} // verus!

verus! {

/// `a` and `b` have the same keys, and equal values (by `V`'s equality)
/// under each key.
pub open spec fn same_entries<V: PartialEq>(a: Map<Seq<Coord>, V>, b: Map<Seq<Coord>, V>) -> bool {
    &&& a.dom() == b.dom()
    &&& forall|k: Seq<Coord>| #[trigger] a.contains_key(k) ==> a[k].eq_spec(&b[k])
}

/// The number of occupied slots of `s`.
pub open spec fn occupied<T>(s: Seq<Option<T>>) -> nat {
    s.filter(|x: Option<T>| x is Some).len()
}

/// Counts the occupied slots of `s`.
fn count_occupied<T>(s: &Vec<Option<T>>) -> (r: usize)
    ensures
        r == occupied(s@),
{
    let mut n: usize = 0;
    let mut i: usize = 0;
    while i < s.len()
        invariant
            i <= s@.len(),
            n == occupied(s@.take(i as int)),
            n <= i,
        decreases s@.len() - i,
    {
        proof {
            assert(s@.take(i + 1) =~= s@.take(i as int).push(s@[i as int]));
            s@.take(i as int).lemma_filter_len_push(|x: Option<T>| x is Some, s@[i as int]);
        }
        if s[i].is_some() {
            n = n + 1;
        }
        i = i + 1;
    }
    proof {
        assert(s@.take(s@.len() as int) =~= s@);
    }
    n
}

impl<V> Node<V> {
    /// The debug summary of a node: its kind and occupied slot count.
    pub closed spec fn summary(self) -> Seq<char> {
        match self {
            Node::Leaf(s) => "Leaf { occupied: "@ + spec_decimal(occupied(s@)) + " }"@,
            Node::Branch(c) => "Branch { children: "@ + spec_decimal(occupied(c@)) + " }"@,
        }
    }

    /// Appends the debug summary of the node.
    fn push_summary(&self, out: &mut String)
        ensures
            final(out)@ == old(out)@ + self.summary(),
    {
        match self {
            Node::Leaf(s) => {
                push_str_seq(out, "Leaf { occupied: ");
                push_decimal(out, count_occupied(s));
                push_str_seq(out, " }");
                proof {
                    reveal_strlit("Leaf { occupied: ");
                    reveal_strlit(" }");
                }
            },
            Node::Branch(c) => {
                push_str_seq(out, "Branch { children: ");
                push_decimal(out, count_occupied(c));
                push_str_seq(out, " }");
                proof {
                    reveal_strlit("Branch { children: ");
                    reveal_strlit(" }");
                }
            },
        }
    }
}

impl<const N: usize, V> CoordSpaceN<N, V> {
    /// The debug summary of the root node.
    pub closed spec fn root_summary(&self) -> Seq<char> {
        self.root.summary()
    }

    /// Appends `"<name> { N: <N>, len: <len>, root: <root summary> }"`.
    pub(crate) fn push_debug(&self, out: &mut String, name: &str)
        requires
            self.wf(),
        ensures
            final(out)@ == old(out)@ + name@ + " { N: "@ + spec_decimal(N as nat) + ", len: "@ + spec_decimal(
                self@.len(),
            ) + ", root: "@ + self.root_summary() + " }"@,
    {
        push_str_seq(out, name);
        push_str_seq(out, " { N: ");
        push_decimal(out, N);
        push_str_seq(out, ", len: ");
        push_decimal(out, self.len);
        push_str_seq(out, ", root: ");
        self.root.push_summary(out);
        push_str_seq(out, " }");
    }

    /// The debug text `"CoordSpace { N: <N>, len: <len>, root: <root> }"`,
    /// where the root shows its kind and occupied slot count.
    pub fn debug_string(&self) -> (r: String)
        requires
            self.wf(),
        ensures
            r@ == "CoordSpace { N: "@ + spec_decimal(N as nat) + ", len: "@ + spec_decimal(self@.len()) + ", root: "@
                + self.root_summary() + " }"@,
    {
        let mut out = String::new();
        self.push_debug(&mut out, "CoordSpace");
        proof {
            reveal_strlit("CoordSpace");
            reveal_strlit(" { N: ");
            reveal_strlit("CoordSpace { N: ");
            assert(out@ =~= "CoordSpace { N: "@ + spec_decimal(N as nat) + ", len: "@ + spec_decimal(self@.len())
                + ", root: "@ + self.root_summary() + " }"@);
        }
        out
    }
}

impl<const N: usize, V: PartialEq> CoordSpaceN<N, V> {
    /// `true` when both spaces hold the same paths with equal values.
    pub fn eq(&self, other: &Self) -> (r: bool)
        requires
            self.wf(),
            other.wf(),
        ensures
            V::obeys_eq_spec() ==> r == same_entries(self@, other@),
    {
        if self.len != other.len {
            proof {
                if same_entries(self@, other@) {
                    assert(self@.dom() == other@.dom());
                }
            }
            return false;
        }
        let entries = self.tree_entries();
        let ghost items = tree_items(entries@);
        let mut i: usize = 0;
        while i < entries.len()
            invariant
                i <= entries@.len(),
                items == tree_items(entries@),
                lists_paths(self@, items),
                other.wf(),
                forall|k: int| 0 <= k < i ==> other@.contains_key((#[trigger] items[k]).0) && (V::obeys_eq_spec() ==> items[k].1.eq_spec(&other@[items[k].0])),
            decreases entries@.len() - i,
        {
            let (path, v) = &entries[i];
            match other.at_path(path) {
                None => {
                    proof {
                        assert(self@.contains_key(items[i as int].0));
                        assert(!other@.contains_key(items[i as int].0));
                        assert(!(self@.dom() =~= other@.dom()));
                    }
                    return false;
                },
                Some(w) => {
                    let value: &V = *v;
                    if !value.eq(w) {
                        proof {
                            assert(self@.contains_key(items[i as int].0));
                        }
                        return false;
                    }
                },
            }
            i = i + 1;
        }
        proof {
            self.lemma_finite();
            other.lemma_finite();
            assert(self@.dom().subset_of(other@.dom())) by {
                assert forall|p: Seq<Coord>| #[trigger] self@.contains_key(p) implies other@.contains_key(p) by {
                    let k = choose|k: int| 0 <= k < items.len() && (#[trigger] items[k]).0 == p;
                }
            }
            if !(self@.dom() =~= other@.dom()) {
                let x = choose|x: Seq<Coord>| other@.contains_key(x) && !self@.contains_key(x);
                vstd::set_lib::lemma_len_subset(self@.dom(), other@.dom().remove(x));
            }
            if V::obeys_eq_spec() {
                assert forall|p: Seq<Coord>| #[trigger] self@.contains_key(p) implies self@[p].eq_spec(&other@[p]) by {
                    let k = choose|k: int| 0 <= k < items.len() && (#[trigger] items[k]).0 == p;
                }
            }
        }
        true
    }
}

} // verus!

verus! {

impl<const N: usize, V> Default for CoordSpaceN<N, V> {
    /// An empty space. A depth of 0 gives a space that is not well formed,
    /// which no operation accepts.
    fn default() -> (r: Self)
        ensures
            N > 0 ==> r.wf() && r@ == Map::<Seq<Coord>, V>::empty(),
    {
        if N > 0 {
            CoordSpaceN::new()
        } else {
            CoordSpaceN { root: Node::Leaf(Vec::new()), len: 0 }
        }
    }
}

} // verus!

verus! {

/// `b` is a copy of the height-`h` node `a`: the same slots are occupied,
/// and each value of `b` is a clone of the value of `a` in its place.
pub open spec fn clone_of<V: Clone>(a: Node<V>, b: Node<V>, h: nat) -> bool
    decreases h,
{
    match (a, b) {
        (Node::Leaf(x), Node::Leaf(y)) => {
            &&& x@.len() == y@.len()
            &&& forall|i: int| 0 <= i < x@.len() ==> (#[trigger] x@[i] is Some <==> y@[i] is Some)
            &&& forall|i: int| 0 <= i < x@.len() ==> (#[trigger] x@[i] is Some ==> cloned::<V>(x@[i]->0, y@[i]->0))
        },
        (Node::Branch(x), Node::Branch(y)) => {
            &&& x@.len() == y@.len()
            &&& forall|i: int| 0 <= i < x@.len() ==> (#[trigger] x@[i] is Some <==> y@[i] is Some)
            &&& h > 1 ==> forall|i: int| 0 <= i < x@.len() ==> (#[trigger] x@[i] is Some ==> clone_of(*x@[i]->0, *y@[i]->0, (h - 1) as nat))
        },
        _ => false,
    }
}

/// A copy of a well-formed node is well formed, and holds clones of the
/// same values at the same relative paths.
proof fn lemma_clone_of<V: Clone>(a: Node<V>, b: Node<V>, h: nat)
    requires
        a.wf(h),
        clone_of(a, b, h),
    ensures
        b.wf(h),
        forall|p: Seq<Coord>| #[trigger] b.lookup(p) is Some <==> a.lookup(p) is Some,
        forall|p: Seq<Coord>| #[trigger] a.lookup(p) is Some ==> cloned::<V>(a.lookup(p)->0, b.lookup(p)->0),
    decreases h,
{
    match (a, b) {
        (Node::Leaf(x), Node::Leaf(y)) => {},
        (Node::Branch(x), Node::Branch(y)) => {
            assert forall|i: int| 0 <= i < 11172 implies (#[trigger] y@[i] matches Some(cb) ==> cb.wf((h - 1) as nat)) by {
                if x@[i] is Some {
                    lemma_clone_of(*x@[i]->0, *y@[i]->0, (h - 1) as nat);
                }
            }
            assert forall|p: Seq<Coord>| #[trigger] b.lookup(p) is Some <==> a.lookup(p) is Some by {
                if p.len() > 1 && 0 <= p[0].idx() < 11172 && x@[p[0].idx()] is Some {
                    let i = p[0].idx();
                    lemma_clone_of(*x@[i]->0, *y@[i]->0, (h - 1) as nat);
                    assert(a.lookup(p) == (*x@[i]->0).lookup(p.drop_first()));
                    assert(b.lookup(p) == (*y@[i]->0).lookup(p.drop_first()));
                }
            }
            assert forall|p: Seq<Coord>| #[trigger] a.lookup(p) is Some implies cloned::<V>(a.lookup(p)->0, b.lookup(p)->0) by {
                let i = p[0].idx();
                lemma_clone_of(*x@[i]->0, *y@[i]->0, (h - 1) as nat);
                assert(a.lookup(p) == (*x@[i]->0).lookup(p.drop_first()));
                assert(b.lookup(p) == (*y@[i]->0).lookup(p.drop_first()));
            }
        },
        _ => {},
    }
}

/// A copy of a height-`h` node, cloning every value.
fn clone_node<V: Clone>(node: &Node<V>, Ghost(h): Ghost<nat>) -> (r: Node<V>)
    requires
        node.wf(h),
    ensures
        clone_of(*node, r, h),
    decreases h,
{
    match node {
        Node::Leaf(s) => {
            let mut out: Vec<Option<V>> = Vec::new();
            let mut i: usize = 0;
            while i < s.len()
                invariant
                    i <= s@.len(),
                    out@.len() == i,
                    forall|j: int| 0 <= j < i ==> (#[trigger] s@[j] is Some <==> out@[j] is Some),
                    forall|j: int| 0 <= j < i ==> (#[trigger] s@[j] is Some ==> cloned::<V>(s@[j]->0, out@[j]->0)),
                decreases s@.len() - i,
            {
                let slot = match &s[i] {
                    Some(v) => Some(v.clone()),
                    None => None,
                };
                out.push(slot);
                i = i + 1;
            }
            Node::Leaf(out)
        },
        Node::Branch(c) => {
            let mut out: Vec<Option<Box<Node<V>>>> = Vec::new();
            let mut i: usize = 0;
            while i < c.len()
                invariant
                    h > 1,
                    i <= c@.len(),
                    c@.len() == 11172,
                    forall|j: int|
                        0 <= j < c@.len() ==> (#[trigger] c@[j] matches Some(b) ==> b.wf((h - 1) as nat)),
                    out@.len() == i,
                    forall|j: int| 0 <= j < i ==> (#[trigger] c@[j] is Some <==> out@[j] is Some),
                    forall|j: int| 0 <= j < i ==> (#[trigger] c@[j] is Some ==> clone_of(*c@[j]->0, *out@[j]->0, (h - 1) as nat)),
                decreases c@.len() - i,
            {
                let slot = match &c[i] {
                    Some(b) => Some(Box::new(clone_node(&**b, Ghost((h - 1) as nat)))),
                    None => None,
                };
                out.push(slot);
                i = i + 1;
            }
            Node::Branch(out)
        },
    }
}

impl<const N: usize, V: Clone> CoordSpaceN<N, V> {
    /// An independent copy of the space, with every value cloned.
    pub fn clone(&self) -> (r: Self)
        requires
            self.wf(),
        ensures
            r.wf(),
            r@.dom() == self@.dom(),
            forall|p: Seq<Coord>| #[trigger] self@.contains_key(p) ==> cloned::<V>(self@[p], r@[p]),
    {
        let root = clone_node(&self.root, Ghost(N as nat));
        let r = CoordSpaceN { root, len: self.len };
        proof {
            lemma_clone_of(self.root, root, N as nat);
            assert(r@.dom() =~= self@.dom());
        }
        r
    }
}

} // verus!

verus! {

/// The pairs of `s` read at the values their references hold now.
pub open spec fn deref_mut_pairs<V>(s: Seq<(Coord, &mut V)>) -> Seq<(Coord, V)> {
    s.map_values(|e: (Coord, &mut V)| (e.0, *e.1))
}

/// An iterator over `(coordinate, mutable value)` pairs of a one-level
/// space, in coordinate order.
pub type IterMut<'a, V> = std::vec::IntoIter<(Coord, &'a mut V)>;

/// A mutable reference to the value of every occupied slot of `s`, tagged
/// with the slot's coordinate, in slot order.
fn slot_refs_mut<'a, V>(s: &'a mut [Option<V>]) -> (r: Vec<(Coord, &'a mut V)>)
    requires
        old(s)@.len() == 11172,
    ensures
        forall|k: int| 0 <= k < r@.len() ==> (#[trigger] r@[k]).0.idx() < 11172
            && old(s)@[r@[k].0.idx()] == Some(*r@[k].1),
        forall|k: int, l: int| 0 <= k < l < r@.len() ==> (#[trigger] r@[k]).0.idx() < (#[trigger] r@[l]).0.idx(),
        forall|j: int| 0 <= j < 11172 && (#[trigger] old(s)@[j]) is Some ==> exists|k: int|
            0 <= k < r@.len() && (#[trigger] r@[k]).0.idx() == j,
        final(s)@.len() == 11172,
        forall|j: int| 0 <= j < 11172 && (#[trigger] old(s)@[j]) is None ==> final(s)@[j] is None,
        forall|k: int| 0 <= k < r@.len() ==> final(s)@[(#[trigger] r@[k]).0.idx()] == Some(*final(r@[k].1)),
{
    let ghost olds = old(s)@;
    let ghost s0 = s;
    let mut rest: &'a mut [Option<V>] = s;
    let mut out: Vec<(Coord, &'a mut V)> = Vec::new();
    let mut i: usize = 0;
    while rest.len() > 0
        invariant
            i + rest@.len() == 11172,
            olds.len() == 11172,
            rest@ == olds.subrange(i as int, 11172),
            final(s0)@.len() == i + final(rest)@.len(),
            forall|j: int| i <= j < final(s0)@.len() ==> #[trigger] final(s0)@[j] == final(rest)@[j - i],
            forall|j: int| 0 <= j < i && (#[trigger] olds[j]) is None ==> final(s0)@[j] is None,
            forall|k: int| 0 <= k < out@.len() ==> (#[trigger] out@[k]).0.idx() < i
                && olds[out@[k].0.idx()] == Some(*out@[k].1),
            forall|k: int, l: int| 0 <= k < l < out@.len() ==> (#[trigger] out@[k]).0.idx() < (#[trigger] out@[l]).0.idx(),
            forall|j: int| 0 <= j < i && (#[trigger] olds[j]) is Some ==> exists|k: int|
                0 <= k < out@.len() && (#[trigger] out@[k]).0.idx() == j,
            forall|k: int| 0 <= k < out@.len() ==> final(s0)@[(#[trigger] out@[k]).0.idx()] == Some(*final(out@[k].1)),
        decreases rest@.len(),
    {
        let ghost old_out = out@;
        let tmp = rest;
        let (head, tail) = tmp.split_at_mut(1);
        match head.first_mut() {
            Some(slot) => {
                match slot {
                    Some(v) => {
                        out.push((Coord(i as u16), v));
                    },
                    None => {},
                }
            },
            None => {},
        }
        proof {
            assert forall|j: int| 0 <= j < i + 1 && (#[trigger] olds[j]) is Some implies exists|k: int|
                0 <= k < out@.len() && (#[trigger] out@[k]).0.idx() == j by {
                if j == i {
                    assert(out@[out@.len() - 1].0.idx() == i);
                } else {
                    let k = choose|k: int| 0 <= k < old_out.len() && (#[trigger] old_out[k]).0.idx() == j;
                    assert(out@[k] == old_out[k]);
                }
            }
        }
        rest = tail;
        i = i + 1;
    }
    let _ = rest.first_mut();
    out
}

impl<V> CoordSpaceN<1, V> {
    /// Iterates over the `(coordinate, value)` pairs in coordinate order,
    /// each value reachable for change; the space keeps its coordinates and
    /// takes whatever values the references hold when they are released.
    fn flat_refs_mut(&mut self) -> (out: Vec<(Coord, &mut V)>)
        requires
            old(self).wf(),
        ensures
            lists(flat_of(old(self)@), deref_mut_pairs(out@)),
            final(self).wf(),
            final(self)@.dom() == old(self)@.dom(),
            forall|k: int| 0 <= k < out@.len()
                ==> final(self)@[seq![(#[trigger] out@[k]).0]] == *final(out@[k].1),
    {
        let ghost self0 = self;
        let ghost old_root = self.root;
        let ghost old_view = self@;
        let out = match &mut self.root {
            Node::Leaf(s) => slot_refs_mut(s.as_mut_slice()),
            Node::Branch(_) => {
                assert(false);
                Vec::new()
            },
        };
        proof {
            let olds = old_root->Leaf_0@;
            let fins = final(self0).root->Leaf_0@;
            assert(fins.len() == 11172);
            assert forall|p: Seq<Coord>| #[trigger] final(self0)@.contains_key(p) == old_view.contains_key(p) by {
                if p.len() == 1 && p[0].idx() < 11172 && olds[p[0].idx()] is Some {
                    let k = choose|k: int| 0 <= k < out@.len() && (#[trigger] out@[k]).0.idx() == p[0].idx();
                    assert(fins[out@[k].0.idx()] == Some(*final(out@[k].1)));
                }
            }
            assert(final(self0)@.dom() =~= old_view.dom());
            let d = deref_mut_pairs(out@);
            let fm = flat_of(old_view);
            assert forall|k: int| 0 <= k < d.len() implies fm.contains_key((#[trigger] d[k]).0) && fm[d[k].0] == d[k].1 by {
                assert(d[k] == (out@[k].0, *out@[k].1));
                assert(seq![out@[k].0][0] == out@[k].0);
            }
            assert forall|k: int, l: int| 0 <= k < l < d.len() implies (#[trigger] d[k]).0.idx() < (#[trigger] d[l]).0.idx() by {
                assert(d[k].0 == out@[k].0);
                assert(d[l].0 == out@[l].0);
            }
            assert forall|c: Coord| #[trigger] fm.contains_key(c) implies exists|k: int| 0 <= k < d.len() && (#[trigger] d[k]).0 == c by {
                assert(seq![c][0] == c);
                let k = choose|k: int| 0 <= k < out@.len() && (#[trigger] out@[k]).0.idx() == c.idx();
                crate::coord::lemma_coord_eq(out@[k].0, c);
                assert(d[k].0 == c);
            }
            assert forall|k: int| 0 <= k < out@.len() implies final(self0)@[seq![(#[trigger] out@[k]).0]] == *final(out@[k].1) by {
                assert(seq![out@[k].0][0] == out@[k].0);
            }
        }
        out
    }

    /// Iterates over the `(coordinate, value)` pairs in coordinate order,
    /// each value reachable for change; the space keeps its coordinates and
    /// takes whatever values the references hold when they are released.
    pub fn iter_mut(&mut self) -> (r: IterMut<'_, V>)
        requires
            old(self).wf(),
        ensures
            lists(flat_of(old(self)@), deref_mut_pairs(r.remaining())),
            final(self).wf(),
            final(self)@.dom() == old(self)@.dom(),
            forall|k: int| 0 <= k < r.remaining().len()
                ==> final(self)@[seq![(#[trigger] r.remaining()[k]).0]] == *final(r.remaining()[k].1),
    {
        let out = self.flat_refs_mut();
        let ghost g = out;
        let r = out.into_iter();
        proof {
            vstd::std_specs::vec::axiom_spec_into_iter(g);
        }
        r
    }

    /// Iterates over the stored values in coordinate order, each reachable
    /// for change, as `iter_mut` does.
    pub fn values_mut(&mut self) -> (r: std::vec::IntoIter<&mut V>)
        requires
            old(self).wf(),
        ensures
            final(self).wf(),
            final(self)@.dom() == old(self)@.dom(),
            exists|l: Seq<(Coord, V)>|
                #![trigger lists(flat_of(old(self)@), l)]
                lists(flat_of(old(self)@), l) && r.remaining().len() == l.len()
                && forall|k: int| 0 <= k < l.len() ==> *r.remaining()[k] == (#[trigger] l[k]).1
                    && final(self)@[seq![l[k].0]] == *final(r.remaining()[k]),
    {
        let ghost self0 = self;
        let pairs = self.flat_refs_mut();
        let ghost pg = pairs@;
        let mut vals: Vec<&mut V> = Vec::new();
        for e in it: pairs.into_iter()
            invariant
                it.seq() == pg,
                vals@.len() == it.index(),
                forall|k: int| 0 <= k < vals@.len() ==> *(#[trigger] vals@[k]) == *pg[k].1
                    && *final(vals@[k]) == *final(pg[k].1),
        {
            let (_, v) = e;
            vals.push(v);
        }
        let ghost g = vals;
        let r = vals.into_iter();
        proof {
            vstd::std_specs::vec::axiom_spec_into_iter(g);
            let l = deref_mut_pairs(pg);
            assert forall|k: int| 0 <= k < l.len() implies *r.remaining()[k] == (#[trigger] l[k]).1
                && final(self0)@[seq![l[k].0]] == *final(r.remaining()[k]) by {
                assert(r.remaining()[k] == vals@[k]);
            }
        }
        r
    }
}

} // verus!

verus! {

impl<V> core::ops::Index<Coord> for CoordSpaceN<1, V> {
    type Output = V;

    /// The value stored at `coord`, which must be occupied.
    fn index(&self, coord: Coord) -> (r: &V)
        ensures
            *r == self@[seq![coord]],
    {
        self.at(&coord).unwrap()
    }
}

impl<V> vstd::std_specs::core::IndexSpecImpl<Coord> for CoordSpaceN<1, V> {
    open spec fn index_req(&self, index: &Coord) -> bool {
        self.wf() && self@.contains_key(seq![*index])
    }
}

} // verus!
