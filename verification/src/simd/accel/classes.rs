//! What the tables of a byte search say, bit by bit.
//!
//! A byte has two digits in base 16, the low one `b % 16` and the high one
//! `b / 16`. The laws here say of the bits of a table which bytes it stands
//! for.

use vstd::prelude::*;

use crate::bits::{
    bit8, lemma_and, lemma_bit8, lemma_full, lemma_nibbles, lemma_same_bits, lemma_truffle,
};
use crate::simd::accel::generic::PairTables;
use crate::simd::accel::reference::{shufti_class, truffle_class, verm_class};

verus! {

/// A shufti class has a byte exactly where the row of its low digit and the
/// row of its high digit have a bucket in common.
pub proof fn shufti_has_bytes_with_a_common_bucket(lo: Seq<u8>, hi: Seq<u8>, b: u8)
    ensures
        shufti_class(lo, hi)(b) <==> exists|t: int|
            0 <= t < 8 && #[trigger] bit8(lo[b as int % 16], t) && bit8(hi[b as int / 16], t),
{
    lemma_nibbles(b, 0);
    let (x, y) = (lo[b as int % 16], hi[b as int / 16]);
    assert forall|t: int| 0 <= t < 8 implies #[trigger] bit8(x & y, t) == (bit8(x, t) && bit8(y, t))
        && !bit8(0, t) by {
        lemma_bit8(x, y, 0, t);
    }
    lemma_same_bits(x & y, 0);
    if x & y != 0 {
        let t = choose|t: int| 0 <= t < 8 && #[trigger] bit8(x & y, t) != bit8(0, t);
        assert(bit8(x, t) && bit8(y, t));
    }
    if exists|t: int| 0 <= t < 8 && #[trigger] bit8(x, t) && bit8(y, t) {
        let t = choose|t: int| 0 <= t < 8 && #[trigger] bit8(x, t) && bit8(y, t);
        assert(bit8(x & y, t) != bit8(0, t));
    }
}

/// A truffle class has a byte exactly where the row of its low digit has the
/// bit of its high digit. The lower half of the bytes has one table, the upper
/// half another.
pub proof fn truffle_has_a_bit_for_each_byte(clear: Seq<u8>, set: Seq<u8>, b: u8)
    ensures
        b < 128 ==> (truffle_class(clear, set)(b) <==> bit8(
            clear[b as int % 16],
            b as int / 16,
        )),
        b >= 128 ==> (truffle_class(clear, set)(b) <==> bit8(
            set[b as int % 16],
            b as int / 16 - 8,
        )),
{
    lemma_nibbles(b, 0);
    lemma_truffle(b, 0);
    let row = (if b < 0x80 {
        clear
    } else {
        set
    })[b as int % 16];
    let k = if b < 128 {
        b as int / 16
    } else {
        b as int / 16 - 8
    };
    lemma_bit8(row, 0, k, 0);
}

/// A vermicelli class has a byte exactly where all its bits are those of the
/// wanted byte, the bit by which the cases of a letter differ aside where case
/// does not count.
pub proof fn vermicelli_has_one_byte_or_two(c: u8, nocase: bool, b: u8)
    ensures
        verm_class(c, nocase)(b) <==> forall|j: int|
            0 <= j < 8 && !(nocase && j == 5) ==> #[trigger] bit8(b, j) == bit8(c, j),
{
    let m = if nocase {
        0xdfu8
    } else {
        0xff
    };
    lemma_same_bits(b & m, c & m);
    assert forall|j: int| 0 <= j < 8 implies #[trigger] bit8(b & m, j) == (bit8(b, j) && !(nocase
        && j == 5)) && bit8(c & m, j) == (bit8(c, j) && !(nocase && j == 5)) by {
        lemma_bit8(b, m, 0, j);
        lemma_bit8(c, m, 0, j);
        lemma_bit8(0xff, 0, 5, j);
        lemma_bit8(0, 0, 0, j);
        lemma_and(0, 0, 0, 0);
    }
    if b & m == c & m {
        assert forall|j: int| 0 <= j < 8 && !(nocase && j == 5) implies #[trigger] bit8(b, j)
            == bit8(c, j) by {
            assert(bit8(b & m, j) == bit8(c & m, j));
        }
    }
    if forall|j: int|
        0 <= j < 8 && !(nocase && j == 5) ==> #[trigger] bit8(b, j) == bit8(c, j) {
        assert forall|j: int| 0 <= j < 8 implies #[trigger] bit8(b & m, j) == bit8(c & m, j) by {
            if !(nocase && j == 5) {
                assert(bit8(b, j) == bit8(c, j));
            }
        }
    }
}

/// Bucket `t` is clear in the rows of both digits of a byte.
pub open spec fn both_clear(lo: Seq<u8>, hi: Seq<u8>, b: u8, t: int) -> bool {
    !bit8(lo[b as int % 16], t) && !bit8(hi[b as int / 16], t)
}

/// Two bytes are a pair exactly where some bucket is clear in the rows of both
/// digits of each.
pub proof fn pairs_share_a_clear_bucket(t: PairTables, a: u8, b: u8)
    ensures
        t.is_pair(a, b) <==> exists|k: int|
            0 <= k < 8 && #[trigger] both_clear(t.m1_lo, t.m1_hi, a, k) && both_clear(
                t.m2_lo,
                t.m2_hi,
                b,
                k,
            ),
        t.not_first(a) != 0xff <==> exists|k: int|
            0 <= k < 8 && #[trigger] both_clear(t.m1_lo, t.m1_hi, a, k),
{
    lemma_nibbles(a, 0);
    lemma_nibbles(b, 0);
    let (p, q) = (t.m1_lo[a as int % 16], t.m1_hi[a as int / 16]);
    let (r, s) = (t.m2_lo[b as int % 16], t.m2_hi[b as int / 16]);
    let all = (p | q) | (r | s);
    assert forall|k: int| 0 <= k < 8 implies #[trigger] bit8(all, k) == !(both_clear(
        t.m1_lo,
        t.m1_hi,
        a,
        k,
    ) && both_clear(t.m2_lo, t.m2_hi, b, k)) && bit8(p | q, k) == !both_clear(
        t.m1_lo,
        t.m1_hi,
        a,
        k,
    ) by {
        lemma_bit8(p, q, 0, k);
        lemma_bit8(r, s, 0, k);
        lemma_bit8(p | q, r | s, 0, k);
    }
    lemma_full(all);
    lemma_full(p | q);
    if all != 0xff {
        let k = choose|k: int| 0 <= k < 8 && !#[trigger] bit8(all, k);
        assert(both_clear(t.m1_lo, t.m1_hi, a, k));
    }
    if p | q != 0xff {
        let k = choose|k: int| 0 <= k < 8 && !#[trigger] bit8(p | q, k);
        assert(bit8(all, k) == !(both_clear(t.m1_lo, t.m1_hi, a, k) && both_clear(
            t.m2_lo,
            t.m2_hi,
            b,
            k,
        )));
        assert(both_clear(t.m1_lo, t.m1_hi, a, k));
    }
    if exists|k: int| 0 <= k < 8 && #[trigger] both_clear(t.m1_lo, t.m1_hi, a, k) {
        let k = choose|k: int| 0 <= k < 8 && #[trigger] both_clear(t.m1_lo, t.m1_hi, a, k);
        lemma_bit8(p, q, 0, k);
        assert(!bit8(p | q, k));
    }
    if exists|k: int|
        0 <= k < 8 && #[trigger] both_clear(t.m1_lo, t.m1_hi, a, k) && both_clear(
            t.m2_lo,
            t.m2_hi,
            b,
            k,
        ) {
        let k = choose|k: int|
            0 <= k < 8 && #[trigger] both_clear(t.m1_lo, t.m1_hi, a, k) && both_clear(
                t.m2_lo,
                t.m2_hi,
                b,
                k,
            );
        assert(!bit8(all, k));
    }
}

} // verus!
