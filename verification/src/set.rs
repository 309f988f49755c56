//! `TagmaSet`: a fixed-size bit set of coordinates, one bit per syllable.
use vstd::prelude::*;
use crate::coord::{Coord, coord_at};
use crate::coord_path::{joined, syllables, push_joined, coord_chars};
use crate::text::push_str_seq;
use crate::listing::{lists_set, below};
use vstd::std_specs::iter::IteratorSpec;

verus! {

/// Number of 64-bit words that hold the 11,172 bits.
pub const WORD_COUNT: usize = 175;

/// Bit `j` of the word `w`.
pub open spec fn bit(w: u64, j: u64) -> bool {
    (w >> j) & 1u64 == 1u64
}

/// No bit of `w` is set.
pub open spec fn all_clear(w: u64) -> bool {
    !bit(w, 0u64) && !bit(w, 1u64) && !bit(w, 2u64) && !bit(w, 3u64) && !bit(w, 4u64) && !bit(w, 5u64) && !bit(w, 6u64) && !bit(w, 7u64) && !bit(w, 8u64) && !bit(w, 9u64) && !bit(w, 10u64) && !bit(w, 11u64) && !bit(w, 12u64) && !bit(w, 13u64) && !bit(w, 14u64) && !bit(w, 15u64) && !bit(w, 16u64) && !bit(w, 17u64) && !bit(w, 18u64) && !bit(w, 19u64) && !bit(w, 20u64) && !bit(w, 21u64) && !bit(w, 22u64) && !bit(w, 23u64) && !bit(w, 24u64) && !bit(w, 25u64) && !bit(w, 26u64) && !bit(w, 27u64) && !bit(w, 28u64) && !bit(w, 29u64) && !bit(w, 30u64) && !bit(w, 31u64) && !bit(w, 32u64) && !bit(w, 33u64) && !bit(w, 34u64) && !bit(w, 35u64) && !bit(w, 36u64) && !bit(w, 37u64) && !bit(w, 38u64) && !bit(w, 39u64) && !bit(w, 40u64) && !bit(w, 41u64) && !bit(w, 42u64) && !bit(w, 43u64) && !bit(w, 44u64) && !bit(w, 45u64) && !bit(w, 46u64) && !bit(w, 47u64) && !bit(w, 48u64) && !bit(w, 49u64) && !bit(w, 50u64) && !bit(w, 51u64) && !bit(w, 52u64) && !bit(w, 53u64) && !bit(w, 54u64) && !bit(w, 55u64) && !bit(w, 56u64) && !bit(w, 57u64) && !bit(w, 58u64) && !bit(w, 59u64) && !bit(w, 60u64) && !bit(w, 61u64) && !bit(w, 62u64) && !bit(w, 63u64)
}

/// Bitwise operations act bit by bit.
pub proof fn lemma_bit_ops(a: u64, b: u64)
    by (bit_vector)
    ensures
        forall|j: u64| j < 64 ==> #[trigger] bit(a | b, j) == (bit(a, j) || bit(b, j)),
        forall|j: u64| j < 64 ==> #[trigger] bit(a & b, j) == (bit(a, j) && bit(b, j)),
        forall|j: u64| j < 64 ==> #[trigger] bit(a & !b, j) == (bit(a, j) && !bit(b, j)),
        forall|j: u64| j < 64 ==> #[trigger] bit(a ^ b, j) == (bit(a, j) != bit(b, j)),
{
}

/// Setting, clearing and testing a single bit.
pub proof fn lemma_bit_single(w: u64, b: u64)
    by (bit_vector)
    requires
        b < 64,
    ensures
        forall|j: u64| j < 64 ==> #[trigger] bit(w | (1u64 << b), j) == (bit(w, j) || j == b),
        forall|j: u64| j < 64 ==> #[trigger] bit(w & !(1u64 << b), j) == (bit(w, j) && j != b),
        ((w & (1u64 << b)) != 0) == bit(w, b),
{
}

/// A word is zero exactly when none of its 64 bits is set.
pub proof fn lemma_zero_word(w: u64)
    by (bit_vector)
    ensures
        (w == 0) == all_clear(w),
{
}

/// The padding above bit 36 of the last word stays clear under the set
/// operations.
pub proof fn lemma_padding(a: u64, b: u64, s: u64)
    by (bit_vector)
    requires
        a < 0x10_0000_0000u64,
        b < 0x10_0000_0000u64,
        s < 36,
    ensures
        a | b < 0x10_0000_0000u64,
        a & b < 0x10_0000_0000u64,
        a & !b < 0x10_0000_0000u64,
        a ^ b < 0x10_0000_0000u64,
        a | (1u64 << s) < 0x10_0000_0000u64,
        a & !(1u64 << s) < 0x10_0000_0000u64,
{
}

/// `w` is zero exactly when no bit below 64 is set.
pub proof fn lemma_zero_iff(w: u64)
    ensures
        (w == 0) <==> (forall|j: u64| j < 64 ==> !#[trigger] bit(w, j)),
{
    lemma_zero_word(w);
    if !all_clear(w) {
        assert(exists|j: u64| j < 64 && bit(w, j));
    }
}

} // verus!

verus! {

/// Bit `i` of the bit array `bits` (word `i / 64`, bit `i % 64`).
pub open spec fn has_bit(bits: Seq<u64>, i: int) -> bool {
    bit(bits[i / 64], (i % 64) as u64)
}

/// Bits at or above 36 of a word below `2^36` are clear.
pub proof fn lemma_high_bits_clear(w: u64)
    by (bit_vector)
    requires
        w < 0x10_0000_0000u64,
    ensures
        forall|j: u64| 36 <= j < 64 ==> !#[trigger] bit(w, j),
{
}

/// A fixed-size bit array recording which of the 11,172 coordinates are
/// present: no hashing, no collisions, no allocation.
#[derive(Clone, Copy, Debug)]
pub struct TagmaSet {
    bits: [u64; 175],
}

impl TagmaSet {
    /// The bits above coordinate 11,171 in the last word stay clear.
    #[verifier::type_invariant]
    spec fn inv(self) -> bool {
        self.bits@[174] < 0x10_0000_0000u64
    }
}

impl View for TagmaSet {
    type V = Set<Coord>;

    closed spec fn view(&self) -> Set<Coord> {
        Set::new(|c: Coord| c.idx() < 11172 && has_bit(self.bits@, c.idx()))
    }
}

impl TagmaSet {
    /// Creates an empty set.
    pub fn new() -> (r: Self)
        ensures
            r@ == Set::<Coord>::empty(),
    {
        let r = TagmaSet { bits: [0u64; 175] };
        proof {
            lemma_zero_iff(0u64);
            assert(r@ =~= Set::<Coord>::empty()) by {
                assert forall|c: Coord| !r@.contains(c) by {
                    if c.idx() < 11172 {
                        assert(r.bits@[c.idx() / 64] == 0u64);
                    }
                }
            }
        }
        r
    }

    /// Adds `coord`; returns `true` when it was not already present.
    pub fn insert(&mut self, coord: Coord) -> (r: bool)
        ensures
            r == !old(self)@.contains(coord),
            final(self)@ == old(self)@.insert(coord),
    {
        proof {
            use_type_invariant(&*self);
            use_type_invariant(coord);
        }
        let idx: usize = coord.index() as usize;
        let w: usize = idx / 64;
        let b: u64 = (idx % 64) as u64;
        let old_word: u64 = self.bits[w];
        let mask: u64 = 1u64 << b;
        let ghost old_bits = self.bits@;
        let mut bits = self.bits;
        bits[w] = old_word | mask;
        proof {
            lemma_bit_single(old_word, b);
            if w == 174 {
                lemma_padding(old_word, 0, b);
            }
        }
        self.bits = bits;
        proof {
            assert(coord.idx() == idx);
            assert forall|c: Coord| #[trigger] self@.contains(c) == old(self)@.insert(coord).contains(c) by {
                if c.idx() < 11172 {
                    if c.idx() / 64 == w as int {
                        crate::coord::lemma_coord_eq(c, coord);
                    }
                }
            }
            assert(self@ =~= old(self)@.insert(coord));
        }
        (old_word & mask) == 0
    }

    /// Removes `coord`; returns `true` when it was present.
    pub fn remove(&mut self, coord: Coord) -> (r: bool)
        ensures
            r == old(self)@.contains(coord),
            final(self)@ == old(self)@.remove(coord),
    {
        proof {
            use_type_invariant(&*self);
            use_type_invariant(coord);
        }
        let idx: usize = coord.index() as usize;
        let w: usize = idx / 64;
        let b: u64 = (idx % 64) as u64;
        let old_word: u64 = self.bits[w];
        let mask: u64 = 1u64 << b;
        let mut bits = self.bits;
        bits[w] = old_word & !mask;
        proof {
            lemma_bit_single(old_word, b);
            if w == 174 {
                lemma_padding(old_word, 0, b);
            }
        }
        self.bits = bits;
        proof {
            assert(coord.idx() == idx);
            assert forall|c: Coord| #[trigger] self@.contains(c) == old(self)@.remove(coord).contains(c) by {
                if c.idx() < 11172 {
                    if c.idx() / 64 == w as int {
                        crate::coord::lemma_coord_eq(c, coord);
                    }
                }
            }
            assert(self@ =~= old(self)@.remove(coord));
        }
        (old_word & mask) != 0
    }

    /// `true` when `coord` is a member.
    pub fn contains(&self, coord: Coord) -> (r: bool)
        ensures
            r == self@.contains(coord),
    {
        proof {
            use_type_invariant(coord);
        }
        let idx: usize = coord.index() as usize;
        let w: usize = idx / 64;
        let b: u64 = (idx % 64) as u64;
        let mask: u64 = 1u64 << b;
        proof {
            lemma_bit_single(self.bits@[w as int], b);
            assert(coord.idx() == idx);
        }
        (self.bits[w] & mask) != 0
    }

    /// Removes every member.
    pub fn clear(&mut self)
        ensures
            final(self)@ == Set::<Coord>::empty(),
    {
        *self = TagmaSet::new();
    }

    /// The largest possible number of members (always 11,172).
    pub fn capacity(&self) -> (r: usize)
        ensures
            r == 11172,
    {
        11172
    }

    /// The number of members.
    pub fn len(&self) -> (r: usize)
        ensures
            self@.finite(),
            r == self@.len(),
    {
        let ghost s = self@;
        let mut count: usize = 0;
        let mut i: u16 = 0;
        proof {
            assert(below(s, 0) =~= Set::<Coord>::empty());
        }
        while i < 11172
            invariant
                s == self@,
                i <= 11172,
                below(s, i as int).finite(),
                count == below(s, i as int).len(),
                count <= i,
            decreases 11172 - i,
        {
            let c = Coord(i);
            let present = self.contains(c);
            proof {
                if present {
                    assert(below(s, i + 1) =~= below(s, i as int).insert(c));
                } else {
                    assert(below(s, i + 1) =~= below(s, i as int));
                }
            }
            if present {
                count = count + 1;
            }
            i = i + 1;
        }
        proof {
            assert(below(s, 11172) =~= s);
        }
        count
    }

    /// `true` when the set has no member.
    pub fn is_empty(&self) -> (r: bool)
        ensures
            r == (self@ == Set::<Coord>::empty()),
    {
        proof {
            use_type_invariant(self);
        }
        let mut k: usize = 0;
        while k < WORD_COUNT
            invariant
                k <= WORD_COUNT,
                self.bits@[174] < 0x10_0000_0000u64,
                forall|i: int| 0 <= i < k ==> #[trigger] self.bits@[i] == 0u64,
            decreases WORD_COUNT - k,
        {
            if self.bits[k] != 0 {
                proof {
                    lemma_zero_iff(self.bits@[k as int]);
                    let j = choose|j: u64| j < 64 && bit(self.bits@[k as int], j);
                    if k == 174 {
                        lemma_high_bits_clear(self.bits@[174]);
                    }
                    let c = coord_at(64 * k + j);
                    assert(c.idx() == 64 * k + j);
                    assert(self@.contains(c));
                }
                return false;
            }
            k = k + 1;
        }
        proof {
            assert(self@ =~= Set::<Coord>::empty()) by {
                assert forall|c: Coord| !self@.contains(c) by {
                    if c.idx() < 11172 {
                        lemma_zero_iff(self.bits@[c.idx() / 64]);
                    }
                }
            }
        }
        true
    }

    /// `Some(coord)` when `coord` is a member.
    pub fn get<'a>(&self, coord: &'a Coord) -> (r: Option<&'a Coord>)
        ensures
            r is Some <==> self@.contains(*coord),
            r matches Some(c) ==> *c == *coord,
    {
        if self.contains(*coord) {
            Some(coord)
        } else {
            None
        }
    }

    /// Removes `coord` and returns it when it was a member.
    pub fn take(&mut self, coord: &Coord) -> (r: Option<Coord>)
        ensures
            r is Some <==> old(self)@.contains(*coord),
            r matches Some(c) ==> c == *coord,
            final(self)@ == old(self)@.remove(*coord),
    {
        if self.remove(*coord) {
            Some(*coord)
        } else {
            None
        }
    }
}

impl Default for TagmaSet {
    fn default() -> (r: Self)
        ensures
            r@ == Set::<Coord>::empty(),
    {
        TagmaSet::new()
    }
}


impl PartialEq for TagmaSet {
    fn eq(&self, other: &Self) -> (r: bool) {
        proof {
            use_type_invariant(self);
            use_type_invariant(other);
        }
        let mut k: usize = 0;
        while k < WORD_COUNT
            invariant
                k <= WORD_COUNT,
                self.bits@[174] < 0x10_0000_0000u64,
                other.bits@[174] < 0x10_0000_0000u64,
                forall|i: int| 0 <= i < k ==> #[trigger] self.bits@[i] == other.bits@[i],
            decreases WORD_COUNT - k,
        {
            if self.bits[k] != other.bits[k] {
                proof {
                    let x = self.bits@[k as int] ^ other.bits@[k as int];
                    lemma_zero_iff(x);
                    lemma_xor_zero(self.bits@[k as int], other.bits@[k as int]);
                    lemma_bit_ops(self.bits@[k as int], other.bits@[k as int]);
                    let j = choose|j: u64| j < 64 && bit(x, j);
                    if k == 174 {
                        lemma_high_bits_clear(self.bits@[174]);
                        lemma_high_bits_clear(other.bits@[174]);
                    }
                    let c = coord_at(64 * k + j);
                    assert(c.idx() == 64 * k + j);
                    assert(self@.contains(c) != other@.contains(c));
                }
                return false;
            }
            k = k + 1;
        }
        proof {
            assert(self@ =~= other@) by {
                assert forall|c: Coord| self@.contains(c) == other@.contains(c) by {
                    if c.idx() < 11172 {
                        assert(self.bits@[c.idx() / 64] == other.bits@[c.idx() / 64]);
                    }
                }
            }
        }
        true
    }
}

impl vstd::std_specs::cmp::PartialEqSpecImpl for TagmaSet {
    open spec fn obeys_eq_spec() -> bool {
        true
    }

    open spec fn eq_spec(&self, other: &TagmaSet) -> bool {
        self@ == other@
    }
}

impl Eq for TagmaSet {
}

/// Two words are equal exactly when their exclusive or is zero.
pub proof fn lemma_xor_zero(a: u64, b: u64)
    by (bit_vector)
    ensures
        (a == b) == (a ^ b == 0),
{
}


/// A word-wise operation used to combine two sets.
enum BitOp {
    Or,
    And,
    AndNot,
    Xor,
}

/// The result of `op` on two words.
spec fn apply_op(op: BitOp, x: u64, y: u64) -> u64 {
    match op {
        BitOp::Or => x | y,
        BitOp::And => x & y,
        BitOp::AndNot => x & !y,
        BitOp::Xor => x ^ y,
    }
}

/// `op`, bit by bit.
proof fn lemma_apply_op(op: BitOp, x: u64, y: u64)
    ensures
        forall|j: u64|
            j < 64 ==> #[trigger] bit(apply_op(op, x, y), j) == match op {
                BitOp::Or => bit(x, j) || bit(y, j),
                BitOp::And => bit(x, j) && bit(y, j),
                BitOp::AndNot => bit(x, j) && !bit(y, j),
                BitOp::Xor => bit(x, j) != bit(y, j),
            },
        x < 0x10_0000_0000u64 && y < 0x10_0000_0000u64 ==> apply_op(op, x, y) < 0x10_0000_0000u64,
{
    lemma_bit_ops(x, y);
    if x < 0x10_0000_0000u64 && y < 0x10_0000_0000u64 {
        lemma_padding(x, y, 0);
    }
}

impl TagmaSet {
    /// The set whose words are `op` applied to the words of `a` and `b`.
    fn combine(a: &TagmaSet, b: &TagmaSet, op: BitOp) -> (r: TagmaSet)
        ensures
            forall|c: Coord| #[trigger] r@.contains(c) == (c.idx() < 11172 && match op {
                BitOp::Or => a@.contains(c) || b@.contains(c),
                BitOp::And => a@.contains(c) && b@.contains(c),
                BitOp::AndNot => a@.contains(c) && !b@.contains(c),
                BitOp::Xor => a@.contains(c) != b@.contains(c),
            }),
    {
        proof {
            use_type_invariant(a);
            use_type_invariant(b);
        }
        let mut bits: [u64; 175] = [0u64; 175];
        let mut k: usize = 0;
        while k < WORD_COUNT
            invariant
                k <= WORD_COUNT,
                bits@.len() == 175,
                forall|i: int| 0 <= i < k ==> #[trigger] bits@[i] == apply_op(op, a.bits@[i], b.bits@[i]),
            decreases WORD_COUNT - k,
        {
            let x = a.bits[k];
            let y = b.bits[k];
            let z: u64 = match op {
                BitOp::Or => x | y,
                BitOp::And => x & y,
                BitOp::AndNot => x & !y,
                BitOp::Xor => x ^ y,
            };
            bits[k] = z;
            k = k + 1;
        }
        proof {
            lemma_apply_op(op, a.bits@[174], b.bits@[174]);
        }
        let r = TagmaSet { bits };
        proof {
            assert forall|c: Coord| #[trigger] r@.contains(c) == (c.idx() < 11172 && match op {
                BitOp::Or => a@.contains(c) || b@.contains(c),
                BitOp::And => a@.contains(c) && b@.contains(c),
                BitOp::AndNot => a@.contains(c) && !b@.contains(c),
                BitOp::Xor => a@.contains(c) != b@.contains(c),
            }) by {
                if c.idx() < 11172 {
                    lemma_apply_op(op, a.bits@[c.idx() / 64], b.bits@[c.idx() / 64]);
                }
            }
        }
        r
    }

    /// The members of either set.
    pub fn union(&self, other: &Self) -> (r: Self)
        ensures
            r@ == self@.union(other@),
    {
        let r = TagmaSet::combine(self, other, BitOp::Or);
        proof {
            self.lemma_valid();
            other.lemma_valid();
            assert(r@ =~= self@.union(other@));
        }
        r
    }

    /// The members of both sets.
    pub fn intersection(&self, other: &Self) -> (r: Self)
        ensures
            r@ == self@.intersect(other@),
    {
        let r = TagmaSet::combine(self, other, BitOp::And);
        proof {
            self.lemma_valid();
            assert(r@ =~= self@.intersect(other@));
        }
        r
    }

    /// The members of `self` that are not members of `other`.
    pub fn difference(&self, other: &Self) -> (r: Self)
        ensures
            r@ == self@.difference(other@),
    {
        let r = TagmaSet::combine(self, other, BitOp::AndNot);
        proof {
            self.lemma_valid();
            assert(r@ =~= self@.difference(other@));
        }
        r
    }

    /// The members of exactly one of the two sets.
    pub fn symmetric_difference(&self, other: &Self) -> (r: Self)
        ensures
            r@ == self@.difference(other@).union(other@.difference(self@)),
    {
        let r = TagmaSet::combine(self, other, BitOp::Xor);
        proof {
            self.lemma_valid();
            other.lemma_valid();
            assert(r@ =~= self@.difference(other@).union(other@.difference(self@)));
        }
        r
    }

    /// Every member is a valid coordinate.
    pub proof fn lemma_valid(&self)
        ensures
            forall|c: Coord| #[trigger] self@.contains(c) ==> c.idx() < 11172,
    {
    }

    /// `true` when every member of `self` is a member of `other`.
    pub fn is_subset(&self, other: &Self) -> (r: bool)
        ensures
            r == self@.subset_of(other@),
    {
        let d = self.difference(other);
        d.is_empty_and(self, other)
    }

    /// `true` when every member of `other` is a member of `self`.
    pub fn is_superset(&self, other: &Self) -> (r: bool)
        ensures
            r == other@.subset_of(self@),
    {
        other.is_subset(self)
    }

    /// `true` when the sets have no member in common.
    pub fn is_disjoint(&self, other: &Self) -> (r: bool)
        ensures
            r == self@.disjoint(other@),
    {
        let i = self.intersection(other);
        let e = i.is_empty();
        proof {
            if !e {
                assert(!(i@ =~= Set::<Coord>::empty()));
                let c = choose|c: Coord| i@.contains(c);
                assert(self@.contains(c) && other@.contains(c));
            } else {
                assert forall|c: Coord| self@.contains(c) implies !other@.contains(c) by {
                    assert(!i@.contains(c));
                }
            }
        }
        e
    }

    /// `true` when this set, the difference of `a` and `b`, is empty:
    /// then `a` is a subset of `b`.
    fn is_empty_and(&self, a: &Self, b: &Self) -> (r: bool)
        requires
            self@ == a@.difference(b@),
        ensures
            r == a@.subset_of(b@),
    {
        let e = self.is_empty();
        proof {
            if !e {
                assert(!(self@ =~= Set::<Coord>::empty()));
                let c = choose|c: Coord| self@.contains(c);
                assert(a@.contains(c) && !b@.contains(c));
            } else {
                assert forall|c: Coord| a@.contains(c) implies b@.contains(c) by {
                    assert(!self@.contains(c));
                }
            }
        }
        e
    }
}


/// An iterator over the members of a set, in coordinate order.
pub type Iter = std::vec::IntoIter<Coord>;

impl TagmaSet {
    /// The members in coordinate order.
    fn members(&self) -> (out: Vec<Coord>)
        ensures
            lists_set(self@, out@),
    {
        let ghost s = self@;
        let mut out: Vec<Coord> = Vec::new();
        let mut i: u16 = 0;
        while i < 11172
            invariant
                s == self@,
                i <= 11172,
                forall|k: int| 0 <= k < out@.len() ==> s.contains(#[trigger] out@[k]) && out@[k].idx() < i,
                forall|k: int, l: int| 0 <= k < l < out@.len() ==> (#[trigger] out@[k]).idx() < (#[trigger] out@[l]).idx(),
                forall|c: Coord| #[trigger] s.contains(c) && c.idx() < i ==> exists|k: int| 0 <= k < out@.len() && out@[k] == c,
            decreases 11172 - i,
        {
            let c = Coord(i);
            let ghost old_out = out@;
            if self.contains(c) {
                out.push(c);
            }
            proof {
                assert forall|d: Coord| #[trigger] s.contains(d) && d.idx() < i + 1 implies exists|k: int| 0 <= k < out@.len() && out@[k] == d by {
                    if d.idx() == i {
                        crate::coord::lemma_coord_eq(c, d);
                        assert(out@[out@.len() - 1] == c);
                    } else {
                        let k = choose|k: int| 0 <= k < old_out.len() && old_out[k] == d;
                        assert(out@[k] == old_out[k]);
                    }
                }
            }
            i = i + 1;
        }
        proof {
            self.lemma_valid();
        }
        out
    }

    /// Iterates over the members in coordinate order.
    pub fn iter(&self) -> (r: Iter)
        ensures
            lists_set(self@, r.remaining()),
    {
        let out = self.members();
        let ghost g = out;
        let r = out.into_iter();
        proof {
            vstd::std_specs::vec::axiom_spec_into_iter(g);
        }
        r
    }

    /// Keeps the members for which `f` returns `true`, visiting them in
    /// coordinate order.
    pub fn retain<F: FnMut(&Coord) -> bool>(&mut self, mut f: F)
        requires
            forall|c: &Coord| f.requires((c,)),
        ensures
            final(self)@.subset_of(old(self)@),
            forall|c: Coord| #[trigger] old(self)@.contains(c) ==> exists|keep: bool|
                f.ensures((&c,), keep) && (keep <==> final(self)@.contains(c)),
    {
        let ghost s0 = self@;
        let ghost f0 = f;
        let mut i: u16 = 0;
        while i < 11172
            invariant
                f == f0,
                forall|c: &Coord| f.requires((c,)),
                i <= 11172,
                self@.subset_of(s0),
                forall|c: Coord| #[trigger] s0.contains(c) && c.idx() >= i ==> self@.contains(c),
                forall|c: Coord| #[trigger] s0.contains(c) && c.idx() < i ==> exists|keep: bool|
                    f.ensures((&c,), keep) && (keep <==> self@.contains(c)),
            decreases 11172 - i,
        {
            let c = Coord(i);
            if self.contains(c) {
                let keep = f(&c);
                if !keep {
                    self.remove(c);
                }
            }
            proof {
                assert forall|d: Coord| #[trigger] s0.contains(d) && d.idx() < i + 1 implies exists|keep: bool|
                    f.ensures((&d,), keep) && (keep <==> self@.contains(d)) by {
                    if d.idx() == i {
                        crate::coord::lemma_coord_eq(c, d);
                    }
                }
            }
            i = i + 1;
        }
    }

    /// The display text: the members' syllables in coordinate order,
    /// separated by `", "` and enclosed in braces.
    pub fn to_string(&self) -> (r: String)
        ensures
            exists|l: Seq<Coord>| lists_set(self@, l) && r@ == "{"@ + joined(syllables(l)) + "}"@,
    {
        let members = self.members();
        let chars = coord_chars(&members);
        let mut out = String::new();
        push_str_seq(&mut out, "{");
        push_joined(&mut out, &chars);
        push_str_seq(&mut out, "}");
        out
    }

    /// The set of the given coordinates.
    pub fn from_coords(coords: Vec<Coord>) -> (r: Self)
        ensures
            r@ == coords@.to_set(),
    {
        let mut set = TagmaSet::new();
        let mut k: usize = 0;
        while k < coords.len()
            invariant
                k <= coords@.len(),
                set@ == coords@.take(k as int).to_set(),
            decreases coords@.len() - k,
        {
            set.insert(coords[k]);
            proof {
                assert(coords@.take(k + 1) == coords@.take(k as int).push(coords@[k as int]));
                coords@.take(k as int).lemma_push_to_set_commute(coords@[k as int]);
            }
            k = k + 1;
        }
        proof {
            assert(coords@.take(coords@.len() as int) == coords@);
        }
        set
    }
}

} // verus!

verus! {

impl core::ops::Index<Coord> for TagmaSet {
    type Output = bool;

    /// Whether `coord` is a member.
    fn index(&self, coord: Coord) -> (r: &bool)
        ensures
            *r == self@.contains(coord),
    {
        if self.contains(coord) {
            &true
        } else {
            &false
        }
    }
}

impl vstd::std_specs::core::IndexSpecImpl<Coord> for TagmaSet {
    open spec fn index_req(&self, index: &Coord) -> bool {
        true
    }
}

} // verus!
