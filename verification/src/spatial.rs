//! Spatial queries over coordinate paths: enumeration of a bounding box in
//! lexicographic order, Hamming-radius filtering, regions around a
//! `CoordCube`, and distance metrics between cubes.
use vstd::prelude::*;
use crate::coord::{Coord, coord_at, lemma_coord_at, lemma_coord_eq};
use crate::coord_path::CoordPath;
use crate::coord_gen::coord_of;
use crate::coord_cube::{CoordCube, cube_axis};
use vstd::arithmetic::power::pow;

verus! {

// ---------------------------------------------------------------------------
// Boxes, lexicographic order, ranks
// ---------------------------------------------------------------------------

/// Every range is `(min, max)` with `min <= max < 11172`.
pub open spec fn valid_ranges(rs: Seq<(u16, u16)>) -> bool {
    forall|i: int| 0 <= i < rs.len() ==> (#[trigger] rs[i]).0 <= rs[i].1 && rs[i].1 < 11172
}

/// `c` lies in the box: one offset per range, each within its range.
pub open spec fn in_box(c: Seq<u16>, rs: Seq<(u16, u16)>) -> bool {
    &&& c.len() == rs.len()
    &&& forall|i: int| 0 <= i < c.len() ==> rs[i].0 <= #[trigger] c[i] <= rs[i].1
}

/// All offset vectors of the box.
pub open spec fn box_set(rs: Seq<(u16, u16)>) -> Set<Seq<u16>> {
    Set::new(|c: Seq<u16>| in_box(c, rs))
}

/// `a` and `b` agree before position `k`, and `a[k] < b[k]`.
pub open spec fn lex_at(a: Seq<u16>, b: Seq<u16>, k: int) -> bool {
    &&& 0 <= k < a.len()
    &&& k < b.len()
    &&& a[k] < b[k]
    &&& forall|j: int| 0 <= j < k ==> a[j] == b[j]
}

/// `a` comes strictly before `b` in lexicographic order.
pub open spec fn lex_lt(a: Seq<u16>, b: Seq<u16>) -> bool {
    exists|k: int| #[trigger] lex_at(a, b, k)
}

/// `q` is in `s` and comes before every other element of `s`.
pub open spec fn is_least(s: Set<Seq<u16>>, q: Seq<u16>) -> bool {
    &&& s.contains(q)
    &&& forall|d: Seq<u16>| #[trigger] s.contains(d) ==> d == q || lex_lt(q, d)
}

/// The coordinates with the given offsets.
pub open spec fn box_path(q: Seq<u16>) -> Seq<Coord> {
    q.map_values(|x: u16| coord_at(x as int))
}

/// The offsets of a sequence of coordinates.
pub open spec fn offsets(p: Seq<Coord>) -> Seq<u16> {
    p.map_values(|c: Coord| c.idx() as u16)
}

/// The number of values in one range.
pub open spec fn width(r: (u16, u16)) -> int {
    r.1 - r.0 + 1
}

/// The number of offset vectors in the box: the product of the widths.
pub open spec fn span(rs: Seq<(u16, u16)>) -> int
    decreases rs.len(),
{
    if rs.len() == 0 {
        1
    } else {
        width(rs[0]) * span(rs.drop_first())
    }
}

/// The position of `c` in the lexicographic enumeration of the box.
pub open spec fn rank(c: Seq<u16>, rs: Seq<(u16, u16)>) -> int
    decreases c.len(),
{
    if c.len() == 0 || rs.len() == 0 {
        0
    } else {
        (c[0] - rs[0].0) * span(rs.drop_first()) + rank(c.drop_first(), rs.drop_first())
    }
}

/// The count reported for a box: its size, or `usize::MAX` when it does
/// not fit.
pub open spec fn saturated_span(rs: Seq<(u16, u16)>) -> int {
    if span(rs) > usize::MAX {
        usize::MAX as int
    } else {
        span(rs)
    }
}

proof fn lemma_tails(c: Seq<u16>, rs: Seq<(u16, u16)>)
    requires
        c.len() > 0,
        rs.len() > 0,
        valid_ranges(rs),
        in_box(c, rs),
    ensures
        valid_ranges(rs.drop_first()),
        in_box(c.drop_first(), rs.drop_first()),
        rs[0].0 <= c[0] <= rs[0].1,
{
    assert(rs[0].0 <= c[0] <= rs[0].1);
    assert forall|i: int| 0 <= i < rs.drop_first().len() implies (#[trigger] rs.drop_first()[i]).0 <= rs.drop_first()[i].1
        && rs.drop_first()[i].1 < 11172 by {
        assert(rs.drop_first()[i] == rs[i + 1]);
    }
    assert forall|i: int| 0 <= i < c.drop_first().len() implies rs.drop_first()[i].0 <= #[trigger] c.drop_first()[i] <= rs.drop_first()[i].1 by {
        assert(c.drop_first()[i] == c[i + 1]);
        assert(rs.drop_first()[i] == rs[i + 1]);
    }
}

proof fn lemma_valid_tail(rs: Seq<(u16, u16)>)
    requires
        rs.len() > 0,
        valid_ranges(rs),
    ensures
        valid_ranges(rs.drop_first()),
        1 <= width(rs[0]) <= 11172,
{
    assert(rs[0].0 <= rs[0].1 && rs[0].1 < 11172);
    assert forall|i: int| 0 <= i < rs.drop_first().len() implies (#[trigger] rs.drop_first()[i]).0 <= rs.drop_first()[i].1
        && rs.drop_first()[i].1 < 11172 by {
        assert(rs.drop_first()[i] == rs[i + 1]);
    }
}

/// A box of valid ranges is never empty.
pub proof fn lemma_span_pos(rs: Seq<(u16, u16)>)
    requires
        valid_ranges(rs),
    ensures
        span(rs) >= 1,
    decreases rs.len(),
{
    if rs.len() > 0 {
        lemma_valid_tail(rs);
        lemma_span_pos(rs.drop_first());
        let w = width(rs[0]);
        let s = span(rs.drop_first());
        assert(w * s >= 1) by (nonlinear_arith)
            requires
                w >= 1,
                s >= 1,
        ;
    }
}

/// The rank of a point of the box is below the box's size.
pub proof fn lemma_rank_bound(c: Seq<u16>, rs: Seq<(u16, u16)>)
    requires
        valid_ranges(rs),
        in_box(c, rs),
    ensures
        0 <= rank(c, rs) < span(rs),
    decreases c.len(),
{
    if c.len() > 0 {
        lemma_tails(c, rs);
        lemma_valid_tail(rs);
        lemma_rank_bound(c.drop_first(), rs.drop_first());
        let a = c[0] - rs[0].0;
        let w = width(rs[0]);
        let s = span(rs.drop_first());
        let t = rank(c.drop_first(), rs.drop_first());
        assert(0 <= a * s + t < w * s) by (nonlinear_arith)
            requires
                0 <= a < w,
                0 <= t < s,
        ;
    }
}

/// The least point of the box has rank 0.
proof fn lemma_rank_min(c: Seq<u16>, rs: Seq<(u16, u16)>)
    requires
        c.len() == rs.len(),
        forall|i: int| 0 <= i < c.len() ==> #[trigger] c[i] == rs[i].0,
    ensures
        rank(c, rs) == 0,
    decreases c.len(),
{
    if c.len() > 0 {
        assert forall|i: int| 0 <= i < c.drop_first().len() implies #[trigger] c.drop_first()[i] == rs.drop_first()[i].0 by {
            assert(c.drop_first()[i] == c[i + 1]);
            assert(rs.drop_first()[i] == rs[i + 1]);
        }
        lemma_rank_min(c.drop_first(), rs.drop_first());
        assert(c[0] == rs[0].0);
        assert((c[0] - rs[0].0) * span(rs.drop_first()) == 0);
    }
}

/// The greatest point of the box has the last rank.
proof fn lemma_rank_max(c: Seq<u16>, rs: Seq<(u16, u16)>)
    requires
        c.len() == rs.len(),
        forall|i: int| 0 <= i < c.len() ==> #[trigger] c[i] == rs[i].1,
    ensures
        rank(c, rs) == span(rs) - 1,
    decreases c.len(),
{
    if c.len() > 0 {
        assert forall|i: int| 0 <= i < c.drop_first().len() implies #[trigger] c.drop_first()[i] == rs.drop_first()[i].1 by {
            assert(c.drop_first()[i] == c[i + 1]);
            assert(rs.drop_first()[i] == rs[i + 1]);
        }
        lemma_rank_max(c.drop_first(), rs.drop_first());
        assert(c[0] == rs[0].1);
        let a = c[0] - rs[0].0;
        let s = span(rs.drop_first());
        assert(a * s + (s - 1) == (a + 1) * s - 1) by (nonlinear_arith);
    }
}

/// Advancing the counter at position `pos` (all later positions wrap from
/// their maximum to their minimum) raises the rank by one.
proof fn lemma_rank_succ(c: Seq<u16>, c2: Seq<u16>, rs: Seq<(u16, u16)>, pos: int)
    requires
        c.len() == rs.len(),
        c2.len() == rs.len(),
        0 <= pos < c.len(),
        c2[pos] == c[pos] + 1,
        forall|j: int| 0 <= j < pos ==> #[trigger] c2[j] == c[j],
        forall|j: int| pos < j < c.len() ==> #[trigger] c[j] == rs[j].1,
        forall|j: int| pos < j < c.len() ==> #[trigger] c2[j] == rs[j].0,
    ensures
        rank(c2, rs) == rank(c, rs) + 1,
    decreases pos,
{
    let s = span(rs.drop_first());
    if pos == 0 {
        assert forall|i: int| 0 <= i < c.drop_first().len() implies #[trigger] c.drop_first()[i] == rs.drop_first()[i].1 by {
            assert(c.drop_first()[i] == c[i + 1]);
            assert(rs.drop_first()[i] == rs[i + 1]);
        }
        assert forall|i: int| 0 <= i < c2.drop_first().len() implies #[trigger] c2.drop_first()[i] == rs.drop_first()[i].0 by {
            assert(c2.drop_first()[i] == c2[i + 1]);
            assert(rs.drop_first()[i] == rs[i + 1]);
        }
        lemma_rank_max(c.drop_first(), rs.drop_first());
        lemma_rank_min(c2.drop_first(), rs.drop_first());
        let a = c[0] - rs[0].0;
        assert((a + 1) * s == a * s + s) by (nonlinear_arith);
    } else {
        assert(c2[0] == c[0]);
        assert forall|j: int| 0 <= j < pos - 1 implies #[trigger] c2.drop_first()[j] == c.drop_first()[j] by {
            assert(c2.drop_first()[j] == c2[j + 1]);
            assert(c.drop_first()[j] == c[j + 1]);
        }
        assert forall|j: int| pos - 1 < j < c.drop_first().len() implies #[trigger] c.drop_first()[j] == rs.drop_first()[j].1 by {
            assert(c.drop_first()[j] == c[j + 1]);
            assert(rs.drop_first()[j] == rs[j + 1]);
        }
        assert forall|j: int| pos - 1 < j < c.drop_first().len() implies #[trigger] c2.drop_first()[j] == rs.drop_first()[j].0 by {
            assert(c2.drop_first()[j] == c2[j + 1]);
            assert(rs.drop_first()[j] == rs[j + 1]);
        }
        assert(c2.drop_first()[pos - 1] == c2[pos]);
        assert(c.drop_first()[pos - 1] == c[pos]);
        lemma_rank_succ(c.drop_first(), c2.drop_first(), rs.drop_first(), pos - 1);
    }
}

/// Lexicographic order is irreflexive and asymmetric.
pub proof fn lemma_lex_asym(a: Seq<u16>, b: Seq<u16>)
    ensures
        !lex_lt(a, a),
        !(lex_lt(a, b) && lex_lt(b, a)),
{
    if lex_lt(a, b) && lex_lt(b, a) {
        let k1 = choose|k: int| lex_at(a, b, k);
        let k2 = choose|k: int| lex_at(b, a, k);
        if k1 < k2 {
            assert(b[k1] == a[k1]);
        } else if k2 < k1 {
            assert(a[k2] == b[k2]);
        }
    }
}

/// Lexicographic order is transitive.
pub proof fn lemma_lex_trans(a: Seq<u16>, b: Seq<u16>, c: Seq<u16>)
    requires
        lex_lt(a, b),
        lex_lt(b, c),
    ensures
        lex_lt(a, c),
{
    let k1 = choose|k: int| lex_at(a, b, k);
    let k2 = choose|k: int| lex_at(b, c, k);
    if k1 <= k2 {
        assert(lex_at(a, c, k1));
    } else {
        assert(lex_at(a, c, k2));
    }
}

/// Lexicographic order is total on sequences of one length.
pub proof fn lemma_lex_total(a: Seq<u16>, b: Seq<u16>)
    requires
        a.len() == b.len(),
    ensures
        lex_lt(a, b) || a == b || lex_lt(b, a),
    decreases a.len(),
{
    if a.len() > 0 {
        if a[0] < b[0] {
            assert(lex_at(a, b, 0));
        } else if b[0] < a[0] {
            assert(lex_at(b, a, 0));
        } else {
            lemma_lex_total(a.drop_first(), b.drop_first());
            if a.drop_first() == b.drop_first() {
                assert(a =~= b) by {
                    assert forall|i: int| 0 <= i < a.len() implies a[i] == b[i] by {
                        if i > 0 {
                            assert(a[i] == a.drop_first()[i - 1]);
                            assert(b[i] == b.drop_first()[i - 1]);
                        }
                    }
                }
            } else if lex_lt(a.drop_first(), b.drop_first()) {
                let k = choose|k: int| lex_at(a.drop_first(), b.drop_first(), k);
                assert forall|j: int| 0 <= j < k + 1 implies a[j] == b[j] by {
                    if j > 0 {
                        assert(a[j] == a.drop_first()[j - 1]);
                        assert(b[j] == b.drop_first()[j - 1]);
                    }
                }
                assert(lex_at(a, b, k + 1));
            } else {
                let k = choose|k: int| lex_at(b.drop_first(), a.drop_first(), k);
                assert forall|j: int| 0 <= j < k + 1 implies b[j] == a[j] by {
                    if j > 0 {
                        assert(a[j] == a.drop_first()[j - 1]);
                        assert(b[j] == b.drop_first()[j - 1]);
                    }
                }
                assert(lex_at(b, a, k + 1));
            }
        }
    } else {
        assert(a =~= b);
    }
}

/// Advancing the counter at `pos` gives the next point of the box: nothing
/// of the box lies strictly between the two.
proof fn lemma_succ_is_next(c: Seq<u16>, c2: Seq<u16>, rs: Seq<(u16, u16)>, pos: int)
    requires
        in_box(c, rs),
        in_box(c2, rs),
        0 <= pos < c.len(),
        c2[pos] == c[pos] + 1,
        forall|j: int| 0 <= j < pos ==> #[trigger] c2[j] == c[j],
        forall|j: int| pos < j < c.len() ==> #[trigger] c[j] == rs[j].1,
        forall|j: int| pos < j < c.len() ==> #[trigger] c2[j] == rs[j].0,
    ensures
        lex_lt(c, c2),
        forall|d: Seq<u16>| in_box(d, rs) && #[trigger] lex_lt(c, d) ==> !lex_lt(d, c2),
{
    assert(lex_at(c, c2, pos));
    assert forall|d: Seq<u16>| in_box(d, rs) && #[trigger] lex_lt(c, d) implies !lex_lt(d, c2) by {
        if lex_lt(d, c2) {
            let k1 = choose|k: int| lex_at(c, d, k);
            let k2 = choose|k: int| lex_at(d, c2, k);
            if k1 > pos {
                assert(c[k1] == rs[k1].1);
            } else if k1 < pos {
                if k2 < k1 {
                    assert(d[k2] == c[k2]);
                } else if k2 > k1 {
                    assert(d[k1] == c2[k1]);
                }
            } else {
                if k2 < pos {
                    assert(d[k2] == c[k2]);
                } else if k2 > pos {
                    assert(d[pos] == c2[pos]);
                    assert(c2[k2] == rs[k2].0);
                }
            }
        }
    }
}

/// When every position is at its maximum, nothing of the box comes after.
proof fn lemma_no_succ(c: Seq<u16>, rs: Seq<(u16, u16)>)
    requires
        c.len() == rs.len(),
        forall|j: int| 0 <= j < c.len() ==> #[trigger] c[j] == rs[j].1,
    ensures
        forall|d: Seq<u16>| in_box(d, rs) ==> !#[trigger] lex_lt(c, d),
{
    assert forall|d: Seq<u16>| in_box(d, rs) implies !#[trigger] lex_lt(c, d) by {
        if lex_lt(c, d) {
            let k = choose|k: int| lex_at(c, d, k);
            assert(c[k] == rs[k].1);
        }
    }
}

/// The box points after `c` are exactly those not before the next point `c2`.
proof fn lemma_after(c: Seq<u16>, c2: Seq<u16>, rs: Seq<(u16, u16)>)
    requires
        in_box(c, rs),
        in_box(c2, rs),
        lex_lt(c, c2),
        forall|d: Seq<u16>| in_box(d, rs) && #[trigger] lex_lt(c, d) ==> !lex_lt(d, c2),
    ensures
        forall|d: Seq<u16>| in_box(d, rs) ==> (lex_lt(c, d) <==> !#[trigger] lex_lt(d, c2)),
{
    assert forall|d: Seq<u16>| in_box(d, rs) implies (lex_lt(c, d) <==> !#[trigger] lex_lt(d, c2)) by {
        if !lex_lt(d, c2) && !lex_lt(c, d) {
            lemma_lex_total(c, d);
            if lex_lt(d, c) {
                lemma_lex_trans(d, c, c2);
            }
        }
    }
}

// ---------------------------------------------------------------------------
// Bounding box iterator
// ---------------------------------------------------------------------------

/// Enumerates every path of a box, one `(min, max)` range per syllable, in
/// lexicographic order (the last syllable varies fastest).
pub struct BoundingBoxIter<const N: usize> {
    ranges: [(u16, u16); N],
    current: [u16; N],
    finished: bool,
}

/// The paths of the box that a fresh enumeration yields: none for `N == 0`.
pub open spec fn start_pending(rs: Seq<(u16, u16)>) -> Set<Seq<u16>> {
    if rs.len() == 0 {
        Set::empty()
    } else {
        box_set(rs)
    }
}

/// The number of paths a fresh enumeration yields.
pub open spec fn start_count(rs: Seq<(u16, u16)>) -> int {
    if rs.len() == 0 {
        0
    } else {
        span(rs)
    }
}

impl<const N: usize> BoundingBoxIter<N> {
    /// The ranges of the box.
    pub closed spec fn bounds(&self) -> Seq<(u16, u16)> {
        self.ranges@
    }

    /// The offsets of the next path to yield.
    pub closed spec fn position(&self) -> Seq<u16> {
        self.current@
    }

    /// `true` once the enumeration is over.
    pub closed spec fn done(&self) -> bool {
        self.finished
    }

    /// The paths (as offset vectors) still to be yielded.
    pub open spec fn pending(&self) -> Set<Seq<u16>> {
        if self.done() {
            Set::empty()
        } else {
            box_set(self.bounds()).filter(|d: Seq<u16>| !lex_lt(d, self.position()))
        }
    }

    /// The number of paths still to be yielded.
    pub open spec fn remaining(&self) -> int {
        if self.done() {
            0
        } else {
            span(self.bounds()) - rank(self.position(), self.bounds())
        }
    }

    /// The enumeration has not started.
    pub open spec fn fresh(&self) -> bool {
        &&& self.pending() == start_pending(self.bounds())
        &&& self.remaining() == start_count(self.bounds())
    }

    /// The iterator is well formed: valid ranges, and a position inside the
    /// box until the end.
    pub open spec fn wf(&self) -> bool {
        &&& valid_ranges(self.bounds())
        &&& self.bounds().len() == N
        &&& self.position().len() == N
        &&& !self.done() ==> in_box(self.position(), self.bounds())
        &&& N == 0 ==> self.done()
    }

    /// Law: the paths still to come are counted by `remaining`, which is
    /// zero exactly when the enumeration is over; with `next` taking one
    /// away per path, a fresh enumeration yields `span(bounds)` paths
    /// (none when `N == 0`).
    pub proof fn lemma_remaining(&self)
        requires
            self.wf(),
        ensures
            self.remaining() >= 0,
            self.done() <==> self.remaining() == 0,
    {
        if !self.done() {
            lemma_rank_bound(self.position(), self.bounds());
        }
    }

    /// Enumerates the box with these ranges; each must have `min <= max`
    /// and `max < 11172`.
    pub fn new(ranges: [(u16, u16); N]) -> (r: Self)
        requires
            valid_ranges(ranges@),
        ensures
            r.wf(),
            r.bounds() == ranges@,
            r.fresh(),
            r.done() == (N == 0),
    {
        let mut current: [u16; N] = [0u16; N];
        let mut i: usize = 0;
        while i < N
            invariant
                i <= N,
                current@.len() == N,
                ranges@.len() == N,
                forall|j: int| 0 <= j < i ==> #[trigger] current@[j] == ranges@[j].0,
            decreases N - i,
        {
            current[i] = ranges[i].0;
            i = i + 1;
        }
        let r = BoundingBoxIter { ranges, current, finished: N == 0 };
        proof {
            if N > 0 {
                lemma_rank_min(current@, ranges@);
                assert(in_box(current@, ranges@));
                assert forall|d: Seq<u16>| in_box(d, ranges@) implies !#[trigger] lex_lt(d, current@) by {
                    if lex_lt(d, current@) {
                        let k = choose|k: int| lex_at(d, current@, k);
                        assert(current@[k] == ranges@[k].0);
                    }
                }
                assert(r.pending() =~= start_pending(ranges@));
            } else {
                assert(r.pending() =~= start_pending(ranges@));
            }
        }
        r
    }

    /// `true` when nothing is left to yield.
    pub fn is_empty(&self) -> (r: bool)
        requires
            self.wf(),
        ensures
            r == self.done(),
            r <==> self.pending() == Set::<Seq<u16>>::empty(),
            r <==> self.remaining() == 0,
    {
        proof {
            if !self.done() {
                lemma_lex_asym(self.position(), self.position());
                assert(self.pending().contains(self.position()));
                lemma_rank_bound(self.position(), self.bounds());
            }
        }
        self.finished
    }

    /// The number of paths of the box (the product of the range widths),
    /// or `usize::MAX` when that does not fit.
    pub fn count_paths(&self) -> (r: usize)
        requires
            self.wf(),
        ensures
            r == saturated_span(self.bounds()),
    {
        let ghost rs = self.bounds();
        let mut total: usize = 1;
        let mut i: usize = N;
        while i > 0
            invariant
                i <= N,
                rs == self.bounds(),
                rs.len() == N,
                valid_ranges(rs),
                total == saturated_span(rs.subrange(i as int, N as int)),
            decreases i,
        {
            i = i - 1;
            let (min, max) = self.ranges[i];
            let width: usize = (max - min + 1) as usize;
            proof {
                let tail = rs.subrange(i + 1, N as int);
                let cur = rs.subrange(i as int, N as int);
                assert(cur.drop_first() =~= tail);
                assert(cur[0] == rs[i as int]);
                assert(valid_ranges(tail)) by {
                    assert forall|k: int| 0 <= k < tail.len() implies (#[trigger] tail[k]).0 <= tail[k].1 && tail[k].1 < 11172 by {
                        assert(tail[k] == rs[i + 1 + k]);
                    }
                }
                lemma_span_pos(tail);
                let s = span(tail);
                let w = width as int;
                assert(w * s >= s) by (nonlinear_arith)
                    requires
                        w >= 1,
                        s >= 1,
                ;
                assert(w * s == s * w) by (nonlinear_arith);
                if s > usize::MAX {
                    assert(total == usize::MAX);
                    assert(total * w >= total) by (nonlinear_arith)
                        requires
                            w >= 1,
                            total >= 0,
                    ;
                }
            }
            total = match total.checked_mul(width) {
                Some(v) => v,
                None => usize::MAX,
            };
        }
        proof {
            assert(rs.subrange(0, N as int) =~= rs);
        }
        total
    }

    /// Bounds on the number of paths left: at least 0, at most the size of
    /// the box (nothing once the enumeration is over).
    pub fn size_hint(&self) -> (r: (usize, Option<usize>))
        requires
            self.wf(),
        ensures
            r.0 == 0,
            r.1 == Some(if self.done() { 0usize } else { saturated_span(self.bounds()) as usize }),
    {
        if self.finished {
            return (0, Some(0));
        }
        (0, Some(self.count_paths()))
    }

    /// Yields the next path of the box, if any.
    pub fn next(&mut self) -> (r: Option<CoordPath<N>>)
        requires
            old(self).wf(),
        ensures
            final(self).wf(),
            final(self).bounds() == old(self).bounds(),
            r is None <==> old(self).done(),
            r is None ==> final(self).done(),
            r matches Some(p) ==> {
                &&& p@ == box_path(old(self).position())
                &&& offsets(p@) == old(self).position()
                &&& is_least(old(self).pending(), old(self).position())
                &&& final(self).pending() == old(self).pending().remove(old(self).position())
                &&& final(self).remaining() == old(self).remaining() - 1
            },
            final(self).remaining() >= 0,
    {
        if self.finished {
            return None;
        }
        let ghost rs = self.ranges@;
        let ghost c0 = self.current@;
        let zero = coord_of(0);
        let mut coords: [Coord; N] = [zero; N];
        let mut i: usize = 0;
        while i < N
            invariant
                i <= N,
                coords@.len() == N,
                c0 == self.current@,
                rs == self.ranges@,
                c0.len() == N,
                valid_ranges(rs),
                in_box(c0, rs),
                forall|j: int| 0 <= j < i ==> #[trigger] coords@[j] == coord_at(c0[j] as int),
            decreases N - i,
        {
            assert(rs[i as int].1 < 11172);
            coords[i] = coord_of(self.current[i]);
            i = i + 1;
        }
        let result = CoordPath::new(coords);
        proof {
            assert(result@ =~= box_path(c0));
            assert(offsets(result@) =~= c0) by {
                assert forall|j: int| 0 <= j < c0.len() implies #[trigger] offsets(result@)[j] == c0[j] by {
                    assert(rs[j].1 < 11172);
                    lemma_coord_at(c0[j] as int);
                }
            }
            lemma_lex_asym(c0, c0);
            lemma_rank_bound(c0, rs);
            assert(is_least(old(self).pending(), c0)) by {
                assert forall|d: Seq<u16>| #[trigger] old(self).pending().contains(d) implies d == c0 || lex_lt(c0, d) by {
                    lemma_lex_total(d, c0);
                }
            }
        }
        let mut pos: usize = N;
        while pos > 0
            invariant
                pos <= N,
                rs == self.ranges@,
                rs.len() == N,
                valid_ranges(rs),
                self.current@.len() == N,
                c0.len() == N,
                in_box(c0, rs),
                !self.finished,
                !old(self).finished,
                rs == old(self).ranges@,
                c0 == old(self).current@,
                result@ == box_path(c0),
                offsets(result@) == c0,
                is_least(old(self).pending(), c0),
                forall|j: int| 0 <= j < pos ==> #[trigger] self.current@[j] == c0[j],
                forall|j: int| pos <= j < N ==> #[trigger] c0[j] == rs[j].1,
                forall|j: int| pos <= j < N ==> #[trigger] self.current@[j] == rs[j].0,
            decreases pos,
        {
            pos = pos - 1;
            if self.current[pos] < self.ranges[pos].1 {
                self.current[pos] = self.current[pos] + 1;
                proof {
                    let c2 = self.current@;
                    assert forall|j: int| 0 <= j < N implies rs[j].0 <= #[trigger] c2[j] <= rs[j].1 by {
                        if j < pos {
                            assert(c2[j] == c0[j]);
                        } else if j > pos {
                            assert(c2[j] == rs[j].0);
                            assert(rs[j].0 <= rs[j].1);
                        }
                    }
                    assert(in_box(c2, rs));
                    lemma_succ_is_next(c0, c2, rs, pos as int);
                    lemma_after(c0, c2, rs);
                    lemma_rank_succ(c0, c2, rs, pos as int);
                    lemma_rank_bound(c2, rs);
                    assert(self.pending() =~= old(self).pending().remove(c0)) by {
                        assert forall|d: Seq<u16>| #[trigger] self.pending().contains(d) == old(self).pending().remove(c0).contains(d) by {
                            if in_box(d, rs) {
                                lemma_lex_asym(c0, d);
                                lemma_lex_total(d, c0);
                            }
                        }
                    }
                }
                return Some(result);
            }
            self.current[pos] = self.ranges[pos].0;
        }
        self.finished = true;
        proof {
            lemma_rank_max(c0, rs);
            lemma_no_succ(c0, rs);
            assert(self.pending() =~= old(self).pending().remove(c0)) by {
                assert forall|d: Seq<u16>| !#[trigger] old(self).pending().remove(c0).contains(d) by {
                    if in_box(d, rs) && d != c0 {
                        lemma_lex_total(d, c0);
                    }
                }
            }
        }
        Some(result)
    }
}


// ---------------------------------------------------------------------------
// Hamming distance between paths
// ---------------------------------------------------------------------------

/// The number of positions below `n` where `a` and `b` differ.
pub open spec fn hamming_upto(a: Seq<Coord>, b: Seq<Coord>, n: int) -> nat
    decreases n,
{
    if n <= 0 {
        0
    } else {
        hamming_upto(a, b, n - 1) + if a[n - 1] != b[n - 1] { 1nat } else { 0nat }
    }
}

/// The number of positions where `a` and `b` differ.
pub open spec fn path_hamming(a: Seq<Coord>, b: Seq<Coord>) -> nat {
    hamming_upto(a, b, a.len() as int)
}

pub(crate) proof fn lemma_hamming_upto_bound(a: Seq<Coord>, b: Seq<Coord>, n: int)
    requires
        n >= 0,
    ensures
        hamming_upto(a, b, n) <= n,
    decreases n,
{
    if n > 0 {
        lemma_hamming_upto_bound(a, b, n - 1);
    }
}

/// The number of positions in `start..start + n` where `a` and `b` differ.
fn count_differences(a: &[Coord], b: &[Coord], start: usize, n: usize) -> (r: usize)
    requires
        start + n <= usize::MAX,
        start + n <= a@.len(),
        start + n <= b@.len(),
    ensures
        r == path_hamming(a@.subrange(start as int, start + n), b@.subrange(start as int, start + n)),
{
    let ghost sa = a@.subrange(start as int, start + n);
    let ghost sb = b@.subrange(start as int, start + n);
    let mut count: usize = 0;
    let mut i: usize = 0;
    while i < n
        invariant
            i <= n,
            start + n <= usize::MAX,
            start + n <= a@.len(),
            start + n <= b@.len(),
            sa == a@.subrange(start as int, start + n),
            sb == b@.subrange(start as int, start + n),
            count == hamming_upto(sa, sb, i as int),
        decreases n - i,
    {
        proof {
            lemma_hamming_upto_bound(sa, sb, i as int);
            assert(sa[i as int] == a@[start + i]);
            assert(sb[i as int] == b@[start + i]);
        }
        if a[start + i] != b[start + i] {
            count = count + 1;
        }
        i = i + 1;
    }
    count
}

// ---------------------------------------------------------------------------
// Hamming-filtered enumeration
// ---------------------------------------------------------------------------

/// Enumerates the paths of a box that lie within a Hamming distance of a
/// center path, in lexicographic order.
pub struct HammingFilter<const N: usize> {
    inner: BoundingBoxIter<N>,
    center: CoordPath<N>,
    max_distance: usize,
}

impl<const N: usize> HammingFilter<N> {
    /// The underlying box enumeration.
    pub closed spec fn source(&self) -> BoundingBoxIter<N> {
        self.inner
    }

    /// The center path.
    pub closed spec fn center_path(&self) -> Seq<Coord> {
        self.center@
    }

    /// The largest Hamming distance accepted.
    pub closed spec fn radius(&self) -> usize {
        self.max_distance
    }

    /// The paths (as offset vectors) still to be yielded: those left in the
    /// box that are close enough to the center.
    pub open spec fn hits(&self) -> Set<Seq<u16>> {
        self.source().pending().filter(|d: Seq<u16>| path_hamming(box_path(d), self.center_path()) <= self.radius())
    }

    /// The filter is well formed.
    pub open spec fn wf(&self) -> bool {
        &&& self.source().wf()
        &&& self.center_path().len() == N
    }

    /// Bounds on the number of paths left: at least 0, at most the number
    /// left in the box.
    pub fn size_hint(&self) -> (r: (usize, Option<usize>))
        requires
            self.wf(),
        ensures
            r.0 == 0,
            r.1 == Some(if self.source().done() { 0usize } else { saturated_span(self.source().bounds()) as usize }),
    {
        let (_, upper) = self.inner.size_hint();
        (0, upper)
    }

    /// Yields the next path of the box within the Hamming radius, if any.
    pub fn next(&mut self) -> (r: Option<CoordPath<N>>)
        requires
            old(self).wf(),
        ensures
            final(self).wf(),
            final(self).center_path() == old(self).center_path(),
            final(self).radius() == old(self).radius(),
            final(self).source().bounds() == old(self).source().bounds(),
            r is None ==> old(self).hits() == Set::<Seq<u16>>::empty() && final(self).hits() == Set::<Seq<u16>>::empty(),
            r matches Some(p) ==> {
                &&& p@ == box_path(offsets(p@))
                &&& is_least(old(self).hits(), offsets(p@))
                &&& final(self).hits() == old(self).hits().remove(offsets(p@))
            },
    {
        proof {
            if !self.inner.done() {
                lemma_rank_bound(self.inner.position(), self.inner.bounds());
            }
        }
        loop
            invariant
                self.wf(),
                self.center_path() == old(self).center_path(),
                self.radius() == old(self).radius(),
                self.source().bounds() == old(self).source().bounds(),
                self.hits() == old(self).hits(),
                self.inner.remaining() >= 0,
            decreases self.inner.remaining(),
        {
            let ghost before = self.inner;
            match self.inner.next() {
                None => {
                    proof {
                        assert(before.pending() =~= Set::<Seq<u16>>::empty());
                        assert(self.hits() =~= Set::<Seq<u16>>::empty());
                        assert(old(self).hits() =~= Set::<Seq<u16>>::empty());
                    }
                    return None;
                },
                Some(candidate) => {
                    let distance = count_differences(candidate.coords().as_slice(), self.center.coords().as_slice(), 0, N);
                    proof {
                        let q = offsets(candidate@);
                        assert(candidate@.subrange(0, N as int) =~= candidate@);
                        assert(self.center@.subrange(0, N as int) =~= self.center@);
                        assert(self.inner.pending() == before.pending().remove(q));
                    }
                    if distance <= self.max_distance {
                        proof {
                            let q = offsets(candidate@);
                            assert(old(self).hits().contains(q));
                            assert(self.hits() =~= old(self).hits().remove(q));
                        }
                        return Some(candidate);
                    }
                    proof {
                        let q = offsets(candidate@);
                        assert(self.hits() =~= old(self).hits());
                    }
                },
            }
        }
    }
}

// ---------------------------------------------------------------------------
// Regions around a cube
// ---------------------------------------------------------------------------

/// The per-syllable ranges within Chebyshev distance `radius` of `center`,
/// clipped to `0..=11171`.
pub open spec fn proximity_ranges(center: Seq<Coord>, radius: int) -> Seq<(u16, u16)> {
    Seq::new(center.len(), |i: int| (
        (if center[i].idx() >= radius { center[i].idx() - radius } else { 0 }) as u16,
        (if center[i].idx() + radius <= 11171 { center[i].idx() + radius } else { 11171 }) as u16,
    ))
}

/// Region generation around a point: bounding boxes and proximity
/// neighbourhoods, as enumerations of paths (no storage lookups).
pub trait SpatialOps<const N: usize> {
    /// The center point.
    spec fn spatial_center(&self) -> Seq<Coord>;

    /// `radius` added to every offset of the center fits in a `usize`.
    spec fn proximity_ok(&self, radius: usize) -> bool;

    /// Enumerates the box with the given per-syllable `(min, max)` ranges.
    fn bounding_box(&self, ranges: &[(u16, u16); N]) -> (r: BoundingBoxIter<N>)
        requires
            valid_ranges(ranges@),
        ensures
            r.wf(),
            r.bounds() == ranges@,
            r.fresh();

    /// Enumerates the paths within Chebyshev distance `radius` of the center.
    fn proximity(&self, radius: usize) -> (r: BoundingBoxIter<N>)
        requires
            self.proximity_ok(radius),
        ensures
            r.wf(),
            r.bounds() == proximity_ranges(self.spatial_center(), radius as int),
            r.fresh();

    /// Enumerates the paths within Hamming distance `radius` of the center,
    /// searched in the Chebyshev neighbourhood of radius `max(radius, 1)`.
    fn proximity_hamming(&self, radius: usize) -> (r: HammingFilter<N>)
        requires
            self.proximity_ok(if radius > 1 { radius } else { 1 }),
        ensures
            r.wf(),
            r.source().bounds() == proximity_ranges(self.spatial_center(), if radius > 1 { radius as int } else { 1 }),
            r.source().fresh(),
            r.center_path() == self.spatial_center(),
            r.radius() == radius;
}

impl<const N: usize, const D: usize, const R: usize> SpatialOps<N> for CoordCube<N, D, R> {
    open spec fn spatial_center(&self) -> Seq<Coord> {
        self@
    }

    open spec fn proximity_ok(&self, radius: usize) -> bool {
        forall|i: int| 0 <= i < self@.len() ==> #[trigger] self@[i].idx() + radius <= usize::MAX
    }

    fn bounding_box(&self, ranges: &[(u16, u16); N]) -> (r: BoundingBoxIter<N>) {
        BoundingBoxIter::new(*ranges)
    }

    fn proximity(&self, radius: usize) -> (r: BoundingBoxIter<N>) {
        let center = self.coords();
        let mut ranges: [(u16, u16); N] = [(0u16, 0u16); N];
        let mut i: usize = 0;
        while i < N
            invariant
                i <= N,
                ranges@.len() == N,
                center@ == self@,
                center@.len() == N,
                self.proximity_ok(radius),
                forall|j: int| 0 <= j < i ==> #[trigger] ranges@[j] == proximity_ranges(self@, radius as int)[j],
                forall|j: int| 0 <= j < i ==> #[trigger] self@[j].idx() < 11172,
            decreases N - i,
        {
            let idx: usize = center[i].index() as usize;
            proof {
                assert(self@[i as int].idx() + radius <= usize::MAX);
            }
            let min = idx.saturating_sub(radius);
            let sum = idx + radius;
            let max = if sum > 11171 { 11171 } else { sum };
            ranges[i] = (min as u16, max as u16);
            i = i + 1;
        }
        proof {
            assert(ranges@ =~= proximity_ranges(self@, radius as int));
            assert forall|k: int| 0 <= k < ranges@.len() implies (#[trigger] ranges@[k]).0 <= ranges@[k].1 && ranges@[k].1 < 11172 by {
                assert(ranges@[k] == proximity_ranges(self@, radius as int)[k]);
                assert(self@[k].idx() < 11172);
            }
        }
        BoundingBoxIter::new(ranges)
    }

    fn proximity_hamming(&self, radius: usize) -> (r: HammingFilter<N>) {
        let wide = if radius > 1 { radius } else { 1 };
        let inner = self.proximity(wide);
        let center = *self.as_path();
        HammingFilter { inner, center, max_distance: radius }
    }
}

// ---------------------------------------------------------------------------
// Distance metrics between cubes
// ---------------------------------------------------------------------------

/// The sum of the first `n` syllables of `s` from `start`, read as a
/// little-endian base-11172 number.
pub open spec fn digits_value(s: Seq<Coord>, start: int, n: nat) -> int
    decreases n,
{
    if n == 0 {
        0
    } else {
        digits_value(s, start, (n - 1) as nat) + s[start + n - 1].idx() * pow(11172, (n - 1) as nat)
    }
}

/// The value of dimension `dim` (its `r` syllables as a little-endian
/// base-11172 number), taken modulo 2^64.
pub open spec fn dimension_number(s: Seq<Coord>, r: nat, dim: int) -> int {
    digits_value(s, dim * r, r) % 0x1_0000_0000_0000_0000
}

/// The sum over the first `d` dimensions of the absolute differences of
/// the dimension values.
pub open spec fn manhattan_upto(a: Seq<Coord>, b: Seq<Coord>, r: nat, d: nat) -> int
    decreases d,
{
    if d == 0 {
        0
    } else {
        manhattan_upto(a, b, r, (d - 1) as nat) + {
            let x = dimension_number(a, r, d - 1);
            let y = dimension_number(b, r, d - 1);
            if x >= y { x - y } else { y - x }
        }
    }
}

proof fn lemma_manhattan_mono(a: Seq<Coord>, b: Seq<Coord>, r: nat, d1: nat, d2: nat)
    requires
        d1 <= d2,
    ensures
        manhattan_upto(a, b, r, d1) <= manhattan_upto(a, b, r, d2),
    decreases d2,
{
    if d1 < d2 {
        lemma_manhattan_mono(a, b, r, d1, (d2 - 1) as nat);
    }
}

/// The value of dimension `dim` of the syllables `s`.
fn dimension_value_of(s: &[Coord], dim: usize, r: usize) -> (v: u64)
    requires
        dim * r + r <= usize::MAX,
        dim * r + r <= s@.len(),
    ensures
        v == dimension_number(s@, r as nat, dim as int),
{
    let start = dim * r;
    let ghost m: int = 0x1_0000_0000_0000_0000;
    let mut val: u64 = 0;
    let mut mul: u64 = 1;
    let mut i: usize = 0;
    proof {
        vstd::arithmetic::div_mod::lemma_small_mod(1, m as nat);
        vstd::arithmetic::div_mod::lemma_small_mod(0, m as nat);
        assert(pow(11172, 0) == 1) by { vstd::arithmetic::power::lemma_pow0(11172); }
    }
    while i < r
        invariant
            i <= r,
            start == dim * r,
            start + r <= s@.len(),
            start + r <= usize::MAX,
            m == 0x1_0000_0000_0000_0000,
            val == digits_value(s@, start as int, i as nat) % m,
            mul == pow(11172, i as nat) % m,
        decreases r - i,
    {
        let idx: u64 = s[start + i].index() as u64;
        let ghost sum = digits_value(s@, start as int, i as nat);
        let ghost p = pow(11172, i as nat);
        let t = idx.wrapping_mul(mul);
        proof {
            vstd::arithmetic::div_mod::lemma_mul_mod_noop_right(idx as int, p, m);
            assert(t == (idx * p) % m);
            vstd::arithmetic::div_mod::lemma_add_mod_noop(sum, idx * p, m);
            vstd::arithmetic::div_mod::lemma_mod_bound(sum + idx * p, m);
            assert(digits_value(s@, start as int, (i + 1) as nat) == sum + s@[start + i].idx() * p);
            vstd::arithmetic::div_mod::lemma_mod_twice(sum + idx * p, m);
            vstd::arithmetic::div_mod::lemma_mod_bound(sum, m);
            vstd::arithmetic::div_mod::lemma_mod_bound(idx * p, m);
            if val + t > u64::MAX {
                assert((val + t) % m == val + t - m) by {
                    vstd::arithmetic::div_mod::lemma_fundamental_div_mod_converse(val + t, m, 1, val + t - m);
                }
            } else {
                vstd::arithmetic::div_mod::lemma_small_mod((val + t) as nat, m as nat);
            }
        }
        val = val.wrapping_add(t);
        proof {
            vstd::arithmetic::div_mod::lemma_mul_mod_noop_left(p, 11172, m);
            assert(((i + 1) as nat - 1) as nat == i as nat);
            assert(pow(11172, (i + 1) as nat) == 11172 * pow(11172, i as nat)) by {
                reveal(pow);
            }
            assert(p * 11172 == 11172 * p) by (nonlinear_arith);
        }
        mul = mul.wrapping_mul(11172);
        i = i + 1;
    }
    val
}

/// The largest value of a dimension of `r` syllables, `11172^r - 1`,
/// taken modulo 2^64.
pub open spec fn dimension_max(r: nat) -> int {
    (pow(11172, r) - 1) % 0x1_0000_0000_0000_0000
}

/// The value of dimension `dim` of `cube`: its `R` syllables read as a
/// little-endian base-11172 number, modulo 2^64.
pub fn dimension_value<const N: usize, const D: usize, const R: usize>(cube: &CoordCube<N, D, R>, dim: usize) -> (v: u64)
    requires
        cube.wf(),
        dim < D,
    ensures
        v == dimension_number(cube@, R as nat, dim as int),
{
    proof {
        assert(dim * R + R <= D * R) by (nonlinear_arith)
            requires
                dim < D,
        ;
    }
    dimension_value_of(cube.coords().as_slice(), dim, R)
}

/// The largest value of a dimension of `r` syllables, `11172^r - 1`,
/// modulo 2^64.
pub fn dimension_max_value(r: usize) -> (v: u64)
    ensures
        v == dimension_max(r as nat),
{
    let ghost m: int = 0x1_0000_0000_0000_0000;
    let mut max: u64 = 0;
    let mut mul: u64 = 1;
    let mut i: usize = 0;
    proof {
        vstd::arithmetic::power::lemma_pow0(11172);
        vstd::arithmetic::div_mod::lemma_small_mod(1, m as nat);
        vstd::arithmetic::div_mod::lemma_small_mod(0, m as nat);
    }
    while i < r
        invariant
            i <= r,
            m == 0x1_0000_0000_0000_0000,
            max == (pow(11172, i as nat) - 1) % m,
            mul == pow(11172, i as nat) % m,
        decreases r - i,
    {
        let ghost p = pow(11172, i as nat);
        let t = 11171u64.wrapping_mul(mul);
        proof {
            vstd::arithmetic::power::lemma_pow_positive(11172, i as nat);
            vstd::arithmetic::div_mod::lemma_mul_mod_noop_right(11171, p, m);
            vstd::arithmetic::div_mod::lemma_add_mod_noop(p - 1, 11171 * p, m);
            vstd::arithmetic::div_mod::lemma_mod_bound(p - 1, m);
            vstd::arithmetic::div_mod::lemma_mod_bound(11171 * p, m);
            assert(pow(11172, (i + 1) as nat) == 11172 * p) by {
                reveal(pow);
                assert(((i + 1) as nat - 1) as nat == i as nat);
            }
            assert((p - 1) + 11171 * p == 11172 * p - 1);
            if max + t > u64::MAX {
                vstd::arithmetic::div_mod::lemma_fundamental_div_mod_converse(max + t, m, 1, max + t - m);
            } else {
                vstd::arithmetic::div_mod::lemma_small_mod((max + t) as nat, m as nat);
            }
        }
        max = max.wrapping_add(t);
        proof {
            vstd::arithmetic::div_mod::lemma_mul_mod_noop_left(p, 11172, m);
            assert(p * 11172 == 11172 * p) by (nonlinear_arith);
        }
        mul = mul.wrapping_mul(11172);
        i = i + 1;
    }
    max
}

/// Distances between two cubes of the same shape.
pub trait DistanceMetrics<const N: usize, const D: usize, const R: usize> {
    /// The syllables of the point.
    spec fn point(&self) -> Seq<Coord>;

    /// The number of syllable positions where the cubes differ.
    fn hamming_distance(&self, other: &CoordCube<N, D, R>) -> (r: usize)
        ensures
            r == path_hamming(self.point(), other@);

    /// For each dimension, the number of its syllables where the cubes
    /// differ, written to `out[dim]`; `out` must hold at least `D` entries.
    fn hamming_distance_axes(&self, other: &CoordCube<N, D, R>, out: &mut [usize])
        requires
            D * R == N,
            old(out)@.len() >= D,
        ensures
            final(out)@.len() == old(out)@.len(),
            forall|dim: int| 0 <= dim < D ==> #[trigger] final(out)@[dim] == path_hamming(
                cube_axis(self.point(), R as int, dim),
                cube_axis(other@, R as int, dim),
            ),
            forall|j: int| D <= j < old(out)@.len() ==> #[trigger] final(out)@[j] == old(out)@[j];

    /// The sum over the dimensions of the absolute differences of the
    /// dimension values; the sum must fit in a `u64`.
    fn manhattan_distance(&self, other: &CoordCube<N, D, R>) -> (r: u64)
        requires
            D * R == N,
            manhattan_upto(self.point(), other@, R as nat, D as nat) <= u64::MAX,
        ensures
            r == manhattan_upto(self.point(), other@, R as nat, D as nat);
}

impl<const N: usize, const D: usize, const R: usize> DistanceMetrics<N, D, R> for CoordCube<N, D, R> {
    open spec fn point(&self) -> Seq<Coord> {
        self@
    }

    fn hamming_distance(&self, other: &CoordCube<N, D, R>) -> (r: usize) {
        let a = self.coords();
        let b = other.coords();
        let r = count_differences(a.as_slice(), b.as_slice(), 0, N);
        proof {
            assert(a@.subrange(0, N as int) =~= a@);
            assert(b@.subrange(0, N as int) =~= b@);
        }
        r
    }

    fn hamming_distance_axes(&self, other: &CoordCube<N, D, R>, out: &mut [usize]) {
        let a = self.coords();
        let b = other.coords();
        let mut dim: usize = 0;
        while dim < D
            invariant
                dim <= D,
                D * R == N,
                a@ == self@,
                b@ == other@,
                a@.len() == N,
                b@.len() == N,
                out@.len() == old(out)@.len(),
                old(out)@.len() >= D,
                forall|k: int| 0 <= k < dim ==> #[trigger] out@[k] == path_hamming(
                    cube_axis(self@, R as int, k),
                    cube_axis(other@, R as int, k),
                ),
                forall|j: int| D <= j < old(out)@.len() ==> #[trigger] out@[j] == old(out)@[j],
            decreases D - dim,
        {
            proof {
                assert(dim * R + R <= D * R) by (nonlinear_arith)
                    requires
                        dim < D,
                ;
                assert(0 <= dim * R) by (nonlinear_arith);
            }
            let start = dim * R;
            let d = count_differences(a.as_slice(), b.as_slice(), start, R);
            out[dim] = d;
            dim = dim + 1;
        }
    }

    fn manhattan_distance(&self, other: &CoordCube<N, D, R>) -> (r: u64) {
        let a = self.coords();
        let b = other.coords();
        let mut sum: u64 = 0;
        let mut dim: usize = 0;
        while dim < D
            invariant
                dim <= D,
                D * R == N,
                a@ == self@,
                b@ == other@,
                a@.len() == N,
                b@.len() == N,
                manhattan_upto(self@, other@, R as nat, D as nat) <= u64::MAX,
                sum == manhattan_upto(self@, other@, R as nat, dim as nat),
            decreases D - dim,
        {
            proof {
                assert(dim * R + R <= D * R) by (nonlinear_arith)
                    requires
                        dim < D,
                ;
                lemma_manhattan_mono(self@, other@, R as nat, (dim + 1) as nat, D as nat);
            }
            let v1 = dimension_value_of(a.as_slice(), dim, R);
            let v2 = dimension_value_of(b.as_slice(), dim, R);
            let diff = if v1 > v2 { v1 - v2 } else { v2 - v1 };
            sum = sum + diff;
            dim = dim + 1;
        }
        sum
    }
}

} // verus!
