//! Properties of the coordinate system as a whole: composition and
//! decomposition are inverse, linearisation and the key strategies are
//! injective where their ranges allow, and the stores read back what was
//! written.
use vstd::prelude::*;
use vstd::arithmetic::power::pow;
use crate::coord::{Coord, axes_of, compose, coord_at, lemma_coord_at, lemma_coord_eq, lemma_axes_compose, lemma_compose_axes};
use crate::coord_space_dense::linear_spec;
use crate::coord_gen::{byte_coords, char_coords, chars_coords, lemma_byte_coords_inj};
use crate::key::{u128_path, quot11172, word_coord, digest_path, hash_from, mix, le_word, fast_hash_spec, HASH_SEED, HASH_FINAL_MUL};
use crate::coord::abs_diff;
use crate::spatial::{manhattan_upto, dimension_number, proximity_ranges, in_box, offsets, box_set, box_path, path_hamming, HammingFilter, lemma_hamming_upto_bound};
use crate::base11172::{decode_from, pair_of};
use vstd::wrapping::usize_specs::{wrapping_add, wrapping_mul};

verus! {

// ---------------------------------------------------------------------------
// Composition
// ---------------------------------------------------------------------------

/// Law: composing valid axes gives an offset in `0..11172`, and
/// decomposing it gives the axes back.
pub proof fn law_decompose_compose(i: int, m: int, f: int)
    requires
        0 <= i < 19,
        0 <= m < 21,
        0 <= f < 28,
    ensures
        0 <= compose(i, m, f) < 11172,
        axes_of(compose(i, m, f)) == (i, m, f),
{
    lemma_axes_compose(i, m, f);
}

/// Law: every offset in `0..11172` decomposes into valid axes that compose
/// back to it.
pub proof fn law_compose_decompose(v: int)
    requires
        0 <= v < 11172,
    ensures
        0 <= axes_of(v).0 < 19,
        0 <= axes_of(v).1 < 21,
        0 <= axes_of(v).2 < 28,
        compose(axes_of(v).0, axes_of(v).1, axes_of(v).2) == v,
{
    lemma_compose_axes(v);
}

// ---------------------------------------------------------------------------
// Linearisation
// ---------------------------------------------------------------------------

/// The linear index of `s` in exact arithmetic (base-11172 digits, most
/// significant first).
pub open spec fn exact_linear(s: Seq<Coord>) -> int
    decreases s.len(),
{
    if s.len() == 0 {
        0
    } else {
        exact_linear(s.drop_last()) * 11172 + s.last().idx()
    }
}

/// Every coordinate of `s` has an offset below 11172.
pub open spec fn valid_coords(s: Seq<Coord>) -> bool {
    forall|i: int| 0 <= i < s.len() ==> 0 <= (#[trigger] s[i]).idx() < 11172
}

proof fn lemma_valid_prefix(s: Seq<Coord>)
    requires
        s.len() > 0,
        valid_coords(s),
    ensures
        valid_coords(s.drop_last()),
        0 <= s.last().idx() < 11172,
{
    assert forall|i: int| 0 <= i < s.drop_last().len() implies 0 <= (#[trigger] s.drop_last()[i]).idx() < 11172 by {
        assert(s.drop_last()[i] == s[i]);
    }
    assert(s.last() == s[s.len() - 1]);
}

proof fn lemma_pow_step(n: nat)
    ensures
        pow(11172, n + 1) == pow(11172, n) * 11172,
        pow(11172, n) >= 1,
{
    vstd::arithmetic::power::lemma_pow_positive(11172, n);
    assert(pow(11172, n + 1) == 11172 * pow(11172, n)) by {
        reveal(pow);
        assert((n + 1) as nat - 1 == n);
    }
}

/// The exact linear index lies below `11172^len`.
proof fn lemma_exact_bound(s: Seq<Coord>)
    requires
        valid_coords(s),
    ensures
        0 <= exact_linear(s) < pow(11172, s.len()),
    decreases s.len(),
{
    if s.len() == 0 {
        vstd::arithmetic::power::lemma_pow0(11172);
    } else {
        lemma_valid_prefix(s);
        lemma_exact_bound(s.drop_last());
        lemma_pow_step((s.len() - 1) as nat);
        let a = exact_linear(s.drop_last());
        let p = pow(11172, (s.len() - 1) as nat);
        let x = s.last().idx();
        assert(0 <= a * 11172 + x < p * 11172) by (nonlinear_arith)
            requires
                0 <= a < p,
                0 <= x < 11172,
        ;
        assert(((s.len() - 1) as nat + 1) as nat == s.len());
    }
}

/// Without overflow, the wrapping linear index equals the exact one.
proof fn lemma_linear_exact(s: Seq<Coord>)
    requires
        valid_coords(s),
        pow(11172, s.len()) <= usize::MAX + 1,
    ensures
        linear_spec(s) as int == exact_linear(s),
    decreases s.len(),
{
    if s.len() > 0 {
        lemma_valid_prefix(s);
        lemma_pow_step((s.len() - 1) as nat);
        assert(((s.len() - 1) as nat + 1) as nat == s.len());
        let p = pow(11172, (s.len() - 1) as nat);
        assert(p <= usize::MAX + 1) by (nonlinear_arith)
            requires
                p * 11172 <= usize::MAX + 1,
                p >= 1,
        ;
        lemma_linear_exact(s.drop_last());
        lemma_exact_bound(s.drop_last());
        lemma_exact_bound(s);
        let a = exact_linear(s.drop_last());
        let x = s.last().idx();
        assert(a * 11172 < p * 11172) by (nonlinear_arith)
            requires
                0 <= a < p,
        ;
        let m = linear_spec(s.drop_last());
        assert(m as int == a);
        assert(wrapping_mul(m, 11172) as int == a * 11172) by {
            vstd::arithmetic::div_mod::lemma_small_mod((a * 11172) as nat, (usize::MAX + 1) as nat);
        }
    }
}

/// Equal exact linear indices of valid sequences of one length come from
/// equal sequences.
proof fn lemma_exact_injective(a: Seq<Coord>, b: Seq<Coord>)
    requires
        a.len() == b.len(),
        valid_coords(a),
        valid_coords(b),
        exact_linear(a) == exact_linear(b),
    ensures
        a == b,
    decreases a.len(),
{
    if a.len() == 0 {
        assert(a =~= b);
    } else {
        lemma_valid_prefix(a);
        lemma_valid_prefix(b);
        lemma_exact_bound(a.drop_last());
        lemma_exact_bound(b.drop_last());
        let qa = exact_linear(a.drop_last());
        let qb = exact_linear(b.drop_last());
        let ra = a.last().idx();
        let rb = b.last().idx();
        vstd::arithmetic::div_mod::lemma_fundamental_div_mod_converse(qa * 11172 + ra, 11172, qa, ra);
        vstd::arithmetic::div_mod::lemma_fundamental_div_mod_converse(qb * 11172 + rb, 11172, qb, rb);
        lemma_exact_injective(a.drop_last(), b.drop_last());
        lemma_coord_eq(a.last(), b.last());
        assert(a =~= b) by {
            assert forall|i: int| 0 <= i < a.len() implies a[i] == b[i] by {
                if i < a.len() - 1 {
                    assert(a[i] == a.drop_last()[i]);
                    assert(b[i] == b.drop_last()[i]);
                }
            }
        }
    }
}

/// Law: linearisation is injective on paths of one length whose space
/// `11172^len` fits in a `usize` (for longer paths the index wraps).
pub proof fn law_linear_injective(a: Seq<Coord>, b: Seq<Coord>)
    requires
        a.len() == b.len(),
        valid_coords(a),
        valid_coords(b),
        pow(11172, a.len()) <= usize::MAX + 1,
    ensures
        linear_spec(a) == linear_spec(b) <==> a == b,
{
    lemma_linear_exact(a);
    lemma_linear_exact(b);
    if linear_spec(a) == linear_spec(b) {
        lemma_exact_injective(a, b);
    }
}

// ---------------------------------------------------------------------------
// Key strategies
// ---------------------------------------------------------------------------

/// Law: the byte-wise path (used by `CoordKey<N>`, `ByteWise` and the
/// stores) is injective: distinct byte strings have distinct paths.
pub proof fn law_byte_path_injective(a: Seq<u8>, b: Seq<u8>)
    ensures
        byte_coords(a) == byte_coords(b) <==> a == b,
{
    lemma_byte_coords_inj(a, b);
}

/// A character's scalar value is at most U+10FFFF, and determines it.
proof fn lemma_char_value(a: char, b: char)
    ensures
        a as u32 <= 0x10FFFF,
        b as u32 <= 0x10FFFF,
        a as u32 == b as u32 ==> a == b,
{
}

proof fn lemma_chars_coords_len(s: Seq<char>)
    ensures
        chars_coords(s).len() == 2 * s.len(),
    decreases s.len(),
{
    if s.len() > 0 {
        lemma_chars_coords_len(s.drop_last());
    }
}

/// Law: the char-wise path is injective: distinct strings have distinct
/// paths.
pub proof fn law_char_path_injective(a: Seq<char>, b: Seq<char>)
    ensures
        chars_coords(a) == chars_coords(b) <==> a == b,
    decreases a.len(),
{
    if chars_coords(a) == chars_coords(b) {
        lemma_chars_coords_len(a);
        lemma_chars_coords_len(b);
        if a.len() > 0 {
            let ca = chars_coords(a.drop_last());
            let cb = chars_coords(b.drop_last());
            lemma_chars_coords_len(a.drop_last());
            lemma_chars_coords_len(b.drop_last());
            let n = ca.len();
            assert(chars_coords(a).subrange(0, n as int) =~= ca);
            assert(chars_coords(b).subrange(0, n as int) =~= cb);
            assert(chars_coords(a)[n as int] == char_coords(a.last())[0]);
            assert(chars_coords(a)[n as int + 1] == char_coords(a.last())[1]);
            assert(chars_coords(b)[n as int] == char_coords(b.last())[0]);
            assert(chars_coords(b)[n as int + 1] == char_coords(b.last())[1]);
            let xa = a.last() as u32;
            let xb = b.last() as u32;
            lemma_char_value(a.last(), b.last());
            assert(xa / 11172 < 11172);
            assert(xb / 11172 < 11172);
            lemma_coord_at((xa / 11172) as int);
            lemma_coord_at((xb / 11172) as int);
            lemma_coord_at((xa % 11172) as int);
            lemma_coord_at((xb % 11172) as int);
            assert(xa / 11172 == xb / 11172);
            assert(xa % 11172 == xb % 11172);
            assert(xa == xb) by {
                vstd::arithmetic::div_mod::lemma_fundamental_div_mod(xa as int, 11172);
                vstd::arithmetic::div_mod::lemma_fundamental_div_mod(xb as int, 11172);
            }
            assert(a.last() == b.last());
            law_char_path_injective(a.drop_last(), b.drop_last());
            assert(a =~= b) by {
                assert forall|i: int| 0 <= i < a.len() implies a[i] == b[i] by {
                    if i < a.len() - 1 {
                        assert(a[i] == a.drop_last()[i]);
                        assert(b[i] == b.drop_last()[i]);
                    }
                }
            }
        } else {
            assert(a =~= b);
        }
    }
}

// ---------------------------------------------------------------------------
// Stores
// ---------------------------------------------------------------------------

/// Law (every store and space): after storing `v` under `k`, reading `k`
/// gives `v`, and every other key reads as before.
pub proof fn law_read_after_write<K, V>(m: Map<K, V>, k: K, v: V, other: K)
    ensures
        m.insert(k, v).contains_key(k),
        m.insert(k, v)[k] == v,
        other != k ==> m.insert(k, v).get(other) == m.get(other),
{
}

/// Law (every store and space): after removing `k`, reading `k` finds
/// nothing, and every other key reads as before.
pub proof fn law_read_after_remove<K, V>(m: Map<K, V>, k: K, other: K)
    ensures
        !m.remove(k).contains_key(k),
        other != k ==> m.remove(k).get(other) == m.get(other),
{
}

/// Law (every store and space): storing twice under one key keeps only
/// the second value and adds one entry at most.
pub proof fn law_overwrite<K, V>(m: Map<K, V>, k: K, v1: V, v2: V)
    requires
        m.dom().finite(),
    ensures
        m.insert(k, v1).insert(k, v2) == m.insert(k, v2),
        m.insert(k, v2).len() == if m.contains_key(k) { m.len() } else { m.len() + 1 },
{
    assert(m.insert(k, v1).insert(k, v2) =~= m.insert(k, v2));
    if m.contains_key(k) {
        assert(m.insert(k, v2).dom() =~= m.dom());
    } else {
        assert(m.insert(k, v2).dom() =~= m.dom().insert(k));
    }
}

// ---------------------------------------------------------------------------
// Direct keys of the key map
// ---------------------------------------------------------------------------

/// A word below 11172 is kept exactly by its coordinate.
proof fn lemma_word_coord_exact(w: int, v: int)
    requires
        0 <= w < 11172,
        0 <= v < 11172,
    ensures
        word_coord(w) == word_coord(v) <==> w == v,
{
    lemma_coord_at(w);
    lemma_coord_at(v);
    lemma_coord_eq(word_coord(w), word_coord(v));
}

/// `11172^6`, the number of keys that six coordinates tell apart.
pub open spec fn u128_key_space() -> int {
    1944399775118767554760704
}

/// A key below `11172^6` leaves nothing after six divisions by 11,172.
proof fn lemma_quot_six(x: int)
    requires
        0 <= x < u128_key_space(),
    ensures
        quot11172(x, 6) == 0,
{
    reveal_with_fuel(quot11172, 7);
    let q1 = x / 11172;
    let q2 = q1 / 11172;
    let q3 = q2 / 11172;
    let q4 = q3 / 11172;
    let q5 = q4 / 11172;
    assert(q1 < 174042228349334725632);
    assert(q2 < 15578430750925056);
    assert(q3 < 1394417360448);
    assert(q4 < 124813584);
    assert(q5 < 11172);
    assert(q5 / 11172 == 0);
}

/// Keys that agree after `k` divisions and in every digit below `k` are equal.
proof fn lemma_quot_down(x: int, y: int, k: nat)
    requires
        quot11172(x, k) == quot11172(y, k),
        forall|j: nat| j < k ==> #[trigger] (quot11172(x, j) % 11172) == quot11172(y, j) % 11172,
    ensures
        x == y,
    decreases k,
{
    if k > 0 {
        let j: nat = (k - 1) as nat;
        assert(quot11172(x, k) == quot11172(x, j) / 11172);
        assert(quot11172(y, k) == quot11172(y, j) / 11172);
        vstd::arithmetic::div_mod::lemma_fundamental_div_mod(quot11172(x, j), 11172);
        vstd::arithmetic::div_mod::lemma_fundamental_div_mod(quot11172(y, j), 11172);
        assert(quot11172(x, j) % 11172 == quot11172(y, j) % 11172);
        lemma_quot_down(x, y, j);
    }
}

/// Law: a 128-bit key below `11172^6` (more than 2^80) is the only such key
/// with its path. (Larger keys are read modulo `11172^6`, so the path does
/// not tell them from smaller ones.)
pub proof fn law_u128_key_injective(x: u128, y: u128)
    requires
        x < u128_key_space(),
        y < u128_key_space(),
    ensures
        u128_path(x as int) == u128_path(y as int) <==> x == y,
{
    if u128_path(x as int) == u128_path(y as int) {
        lemma_quot_six(x as int);
        lemma_quot_six(y as int);
        assert forall|k: nat| k < 6 implies #[trigger] (quot11172(x as int, k) % 11172) == quot11172(y as int, k) % 11172 by {
            assert(u128_path(x as int)[5 - k] == u128_path(y as int)[5 - k]);
            lemma_coord_at(quot11172(x as int, k) % 11172);
            lemma_coord_at(quot11172(y as int, k) % 11172);
            lemma_coord_eq(coord_at(quot11172(x as int, k) % 11172), coord_at(quot11172(y as int, k) % 11172));
        }
        lemma_quot_down(x as int, y as int, 6);
    }
}

/// Law: 32-byte digests whose sixteen big-endian 16-bit words are each
/// below 11172 have distinct paths when they differ. (Larger words are
/// reduced modulo 11172, so the path does not tell other digests apart.)
pub proof fn law_digest_key_injective(a: Seq<u8>, b: Seq<u8>)
    requires
        a.len() == 32,
        b.len() == 32,
        forall|i: int| 0 <= i < 16 ==> #[trigger] (a[2 * i] * 256 + a[2 * i + 1]) < 11172,
        forall|i: int| 0 <= i < 16 ==> #[trigger] (b[2 * i] * 256 + b[2 * i + 1]) < 11172,
    ensures
        digest_path(a) == digest_path(b) <==> a == b,
{
    if digest_path(a) == digest_path(b) {
        assert forall|k: int| 0 <= k < 32 implies a[k] == b[k] by {
            let i = k / 2;
            assert(digest_path(a)[i] == digest_path(b)[i]);
            let wa = a[2 * i] * 256 + a[2 * i + 1];
            let wb = b[2 * i] * 256 + b[2 * i + 1];
            assert(wa < 11172);
            assert(wb < 11172);
            lemma_word_coord_exact(wa, wb);
            vstd::arithmetic::div_mod::lemma_fundamental_div_mod_converse(wa, 256, a[2 * i] as int, a[2 * i + 1] as int);
            vstd::arithmetic::div_mod::lemma_fundamental_div_mod_converse(wb, 256, b[2 * i] as int, b[2 * i + 1] as int);
        }
        assert(a =~= b);
    }
}

// ---------------------------------------------------------------------------
// Base11172 and the dynamic map
// ---------------------------------------------------------------------------

/// `x` is read as a syllable by the decoder (either decoder reads the full
/// code point).
pub open spec fn reads_as_syllable(raw: bool, x: int) -> bool {
    0xAC00 <= x < 0xAC00 + 11172
}

proof fn lemma_rejects_from(s: Seq<u32>, i: int, k: int, raw: bool)
    requires
        0 <= i <= k < s.len(),
        !reads_as_syllable(raw, s[k] as int),
    ensures
        decode_from(s, i, raw) is None,
    decreases s.len() - i,
{
    if i + 1 < s.len() {
        if k >= i + 2 {
            lemma_rejects_from(s, i + 2, k, raw);
        } else {
            assert(pair_of(raw, s[i] as int, s[i + 1] as int) is None);
        }
    }
}

/// Law (self-validation): a text with a character that the decoder does not
/// read as a syllable never decodes.
pub proof fn law_decode_rejects_foreign(s: Seq<u32>, k: int, raw: bool)
    requires
        0 <= k < s.len(),
        !reads_as_syllable(raw, s[k] as int),
    ensures
        decode_from(s, 0, raw) is None,
{
    lemma_rejects_from(s, 0, k, raw);
}

} // verus!

verus! {

// ---------------------------------------------------------------------------
// Derived keys: the hash reads every byte
// ---------------------------------------------------------------------------

/// Hashing from position `k >= 8` of `b` is hashing from `k - 8` of `b`
/// with its first chunk removed.
proof fn lemma_hash_skip_chunk(b: Seq<u8>, k: int, h: u64)
    requires
        b.len() >= 8,
        k >= 8,
    ensures
        hash_from(b, k, h) == hash_from(b.skip(8), k - 8, h),
    decreases b.len() - k,
{
    if k < b.len() {
        let n = if b.len() - k < 8 { b.len() - k } else { 8 };
        assert(b.skip(8).subrange(k - 8, k - 8 + n) =~= b.subrange(k, k + n));
        lemma_hash_skip_chunk(b, k + n, mix(h, le_word(b.subrange(k, k + n), n)));
    }
}

/// Law (the key hash reads every byte): the hash state of a byte string is
/// the state after mixing in its first little-endian chunk of at most 8
/// bytes and then hashing the rest; the empty string leaves the state
/// unchanged. So bytes after the eighth change the hash as the first ones
/// do, chunk after chunk.
pub proof fn law_hash_every_chunk(b: Seq<u8>, h: u64)
    ensures
        b.len() == 0 ==> hash_from(b, 0, h) == h,
        0 < b.len() <= 8 ==> hash_from(b, 0, h) == mix(h, le_word(b, b.len() as int)),
        b.len() > 8 ==> hash_from(b, 0, h) == hash_from(b.skip(8), 0, mix(h, le_word(b.take(8), 8))),
        fast_hash_spec(b) == vstd::wrapping::u64_specs::wrapping_mul(hash_from(b, 0, HASH_SEED) ^ (hash_from(b, 0, HASH_SEED) >> 33u64), HASH_FINAL_MUL),
{
    if 0 < b.len() <= 8 {
        assert(b.subrange(0, b.len() as int) =~= b);
        assert(hash_from(b, b.len() as int, mix(h, le_word(b, b.len() as int))) == mix(h, le_word(b, b.len() as int)));
    }
    if b.len() > 8 {
        assert(b.subrange(0, 8) =~= b.take(8));
        lemma_hash_skip_chunk(b, 8, mix(h, le_word(b.take(8), 8)));
    }
}

// ---------------------------------------------------------------------------
// Distances and regions around a cube
// ---------------------------------------------------------------------------

/// Law (Manhattan distance is a sum): over no dimension it is 0, and over
/// `d + 1` dimensions it is the distance over the first `d` plus the
/// absolute difference of dimension `d`; so it is the sum over every
/// dimension, and never smaller than any one difference.
pub proof fn law_manhattan_is_sum(a: Seq<Coord>, b: Seq<Coord>, r: nat, d: nat)
    ensures
        manhattan_upto(a, b, r, 0) == 0,
        manhattan_upto(a, b, r, d + 1) == manhattan_upto(a, b, r, d) + abs_diff(
            dimension_number(a, r, d as int),
            dimension_number(b, r, d as int),
        ),
        forall|k: int| 0 <= k < d ==> abs_diff(#[trigger] dimension_number(a, r, k), dimension_number(b, r, k))
            <= manhattan_upto(a, b, r, d),
    decreases d,
{
    assert(manhattan_upto(a, b, r, d + 1) == manhattan_upto(a, b, r, d) + abs_diff(
        dimension_number(a, r, d as int),
        dimension_number(b, r, d as int),
    ));
    if d > 0 {
        let e = (d - 1) as nat;
        law_manhattan_is_sum(a, b, r, e);
        assert forall|k: int| 0 <= k < d implies abs_diff(#[trigger] dimension_number(a, r, k), dimension_number(b, r, k))
            <= manhattan_upto(a, b, r, d) by {
            assert(manhattan_upto(a, b, r, e) >= 0) by {
                lemma_manhattan_nonneg(a, b, r, e);
            }
            if k < e {
                assert(abs_diff(dimension_number(a, r, k), dimension_number(b, r, k)) <= manhattan_upto(a, b, r, e));
            }
        }
    }
}

proof fn lemma_manhattan_nonneg(a: Seq<Coord>, b: Seq<Coord>, r: nat, d: nat)
    ensures
        manhattan_upto(a, b, r, d) >= 0,
    decreases d,
{
    if d > 0 {
        lemma_manhattan_nonneg(a, b, r, (d - 1) as nat);
    }
}

/// Law (proximity ranges): around a center of valid coordinates, an offset
/// lies in the range of position `i` exactly when it is within `radius` of
/// the center's offset there; in particular the center itself always lies
/// in the box.
pub proof fn law_proximity_ranges(center: Seq<Coord>, radius: int, i: int, v: int)
    requires
        radius >= 0,
        0 <= i < center.len(),
        forall|j: int| 0 <= j < center.len() ==> (#[trigger] center[j]).idx() < 11172,
        0 <= v < 11172,
    ensures
        proximity_ranges(center, radius)[i].0 <= v <= proximity_ranges(center, radius)[i].1
            <==> abs_diff(v, center[i].idx()) <= radius,
        in_box(offsets(center), proximity_ranges(center, radius)),
{
    assert(center[i].idx() >= 0) by {
        lemma_coord_at(0);
    }
    assert forall|j: int| 0 <= j < offsets(center).len() implies proximity_ranges(center, radius)[j].0 <= #[trigger] offsets(center)[j]
        <= proximity_ranges(center, radius)[j].1 by {
        assert(center[j].idx() < 11172);
        assert(center[j].idx() >= 0);
    }
}

/// Law (Hamming filter): a path still left in the search box is yielded
/// exactly when its Hamming distance to the center is at most the radius,
/// with no other bound; so with a radius of at least `N` every path left in
/// the box is yielded.
pub proof fn law_hamming_filter_hits<const N: usize>(f: HammingFilter<N>, d: Seq<u16>)
    requires
        f.wf(),
    ensures
        f.hits().contains(d) <==> (f.source().pending().contains(d) && path_hamming(box_path(d), f.center_path())
            <= f.radius()),
        f.radius() >= N ==> f.hits() == f.source().pending(),
{
    if f.radius() >= N {
        assert forall|e: Seq<u16>| #[trigger] f.source().pending().contains(e) implies path_hamming(box_path(e), f.center_path())
            <= f.radius() by {
            assert(box_set(f.source().bounds()).contains(e));
            assert(e.len() == N);
            lemma_hamming_upto_bound(box_path(e), f.center_path(), N as int);
        }
        assert(f.hits() =~= f.source().pending());
    }
}

} // verus!
