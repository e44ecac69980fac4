//! What the tests of a program ask, byte by byte and bit by bit.
//!
//! The laws here speak of single bits of the operands and of the block.

use vstd::arithmetic::power2::pow2;
use vstd::prelude::*;

use crate::bits::{
    as_wanted, bit8, lemma_and, lemma_bit8, lemma_masked, lemma_nibbles, lemma_same_bits,
};
use crate::bytes::{le64, lemma_word_bytes};
use crate::literal::checks::{
    bit, byte_passes, in_reach, in_sight, literal_ends_at, look_holds, look_position,
    lookaround, mask_byte_ok, masked, same_letter, shufti_16x16, shufti_16x8,
    shufti_32x16, shufti_32x8, single_lookaround_passes, window_at, window_passes, word_masked,
    ByteTest,
};
use crate::literal::InterpError;

verus! {

/// Two bytes have the same bits where a mask selects.
pub open spec fn alike_under(c: u8, d: u8, mask: u8) -> bool {
    forall|j: int| 0 <= j < 8 && #[trigger] bit8(mask, j) ==> bit8(c, j) == bit8(d, j)
}

/// Bit `i` of a word, by arithmetic.
pub open spec fn odd_at(word: u32, i: int) -> bool {
    (word as nat / pow2(i as nat)) % 2 == 1
}

proof fn lemma_odd(word: u32, i: int)
    requires
        0 <= i < 32,
    ensures
        bit(word, i) == odd_at(word, i),
{
    let shifted = word >> (i as u32);
    vstd::bits::lemma_u32_shr_is_div(word, i as u32);
    vstd::bits::lemma_u32_low_bits_mask_is_mod(shifted, 1);
    vstd::bits::lemma_low_bits_mask_values();
    vstd::arithmetic::power2::lemma2_to64();
}

/// A test of one byte looks at the selected bits alone: where they agree, it
/// comes out the same.
pub proof fn byte_test_looks_at_selected_bits(
    buf: Seq<u8>,
    other: Seq<u8>,
    mask: u8,
    want: u8,
    negated: bool,
    p: int,
)
    requires
        0 <= p < buf.len(),
        p < other.len(),
        alike_under(buf[p], other[p], mask),
    ensures
        byte_passes(buf, mask, want, negated, p) == byte_passes(other, mask, want, negated, p),
{
    lemma_masked(buf[p], mask, want);
    lemma_masked(other[p], mask, want);
    if as_wanted(buf[p], mask, want) != as_wanted(other[p], mask, want) {
        assert forall|j: int| 0 <= j < 8 implies (bit8(mask, j) && bit8(buf[p], j)) == (bit8(mask, j)
            && #[trigger] bit8(other[p], j)) by {
            if bit8(mask, j) {
                assert(bit8(buf[p], j) == bit8(other[p], j));
            }
        }
        if as_wanted(buf[p], mask, want) {
            assert forall|j: int| 0 <= j < 8 implies #[trigger] bit8(want, j) == (bit8(mask, j)
                && bit8(other[p], j)) by {
                assert(bit8(want, j) == (bit8(mask, j) && bit8(buf[p], j)));
            }
        } else {
            assert forall|j: int| 0 <= j < 8 implies #[trigger] bit8(want, j) == (bit8(mask, j)
                && bit8(buf[p], j)) by {
                assert(bit8(want, j) == (bit8(mask, j) && bit8(other[p], j)));
            }
        }
    }
}

/// A test of one byte passes exactly where the selected bits are the wanted
/// ones, or exactly where they are not if it is negated. In front of the block
/// it fails, behind it it passes.
pub proof fn byte_test_wants_selected_bits(
    buf: Seq<u8>,
    mask: u8,
    want: u8,
    negated: bool,
    p: int,
)
    ensures
        p < 0 ==> !byte_passes(buf, mask, want, negated, p),
        p >= buf.len() ==> byte_passes(buf, mask, want, negated, p),
        0 <= p < buf.len() && !negated ==> (byte_passes(buf, mask, want, negated, p) <==> as_wanted(
            buf[p],
            mask,
            want,
        )),
        0 <= p < buf.len() && negated ==> (byte_passes(buf, mask, want, negated, p)
            <==> !as_wanted(buf[p], mask, want)),
{
    if 0 <= p < buf.len() {
        lemma_masked(buf[p], mask, want);
    }
}

/// A window passes exactly where it does not start in front of the block and
/// each of its bytes inside the block is `good`.
proof fn lemma_window_is(buf: Seq<u8>, p: int, width: int, test: ByteTest, good: ByteTest)
    requires
        forall|i: int, c: u8| 0 <= i < width ==> #[trigger] test(i, c) == good(i, c),
    ensures
        window_passes(buf, p, width, test) <==> p >= 0 && forall|i: int|
            0 <= i < width && p + i < buf.len() ==> good(i, #[trigger] buf[p + i]),
{
    if window_passes(buf, p, width, test) {
        assert forall|i: int| 0 <= i < width && p + i < buf.len() implies good(
            i,
            #[trigger] buf[p + i],
        ) by {
            assert(window_at(buf, p, test, i));
            assert(test(i, buf[p + i]) == good(i, buf[p + i]));
        }
    }
    if p >= 0 && forall|i: int|
        0 <= i < width && p + i < buf.len() ==> good(i, #[trigger] buf[p + i]) {
        assert forall|i: int| 0 <= i < width implies #[trigger] window_at(buf, p, test, i) by {
            if p + i < buf.len() {
                assert(good(i, buf[p + i]));
                assert(test(i, buf[p + i]) == good(i, buf[p + i]));
            }
        }
    }
}

/// A test of 32 bytes under masks passes exactly where each byte inside the
/// block has the wanted bits where its mask selects, or has not where that is
/// negated.
pub proof fn mask_test_wants_selected_bits(
    buf: Seq<u8>,
    p: int,
    mask: Seq<u8>,
    want: Seq<u8>,
    neg: u32,
)
    ensures
        window_passes(buf, p, 32, masked(mask, want, neg)) <==> p >= 0 && forall|i: int|
            0 <= i < 32 && p + i < buf.len() ==> as_wanted(
                #[trigger] buf[p + i],
                mask[i],
                want[i],
            ) != odd_at(neg, i),
{
    let test = masked(mask, want, neg);
    let good: ByteTest = |i: int, c: u8| as_wanted(c, mask[i], want[i]) != odd_at(neg, i);
    assert forall|i: int, c: u8| 0 <= i < 32 implies #[trigger] test(i, c) == good(i, c) by {
        lemma_masked(c, mask[i], want[i]);
        lemma_odd(neg, i);
    }
    lemma_window_is(buf, p, 32, test, good);
}

/// A byte differs from a wanted one under a mask at some bit.
pub open spec fn differs(c: u8, mask: u8, want: u8) -> bool {
    exists|j: int| 0 <= j < 8 && #[trigger] bit8(want, j) != (bit8(mask, j) && bit8(c, j))
}

/// A byte is as wanted at each bit that is not negated, and differs somewhere
/// if the highest bit is negated.
pub open spec fn wanted_or_negated(c: u8, mask: u8, want: u8, neg: u8) -> bool {
    &&& forall|j: int|
        0 <= j < 8 && !#[trigger] bit8(neg, j) ==> bit8(want, j) == (bit8(mask, j) && bit8(c, j))
    &&& bit8(neg, 7) ==> differs(c, mask, want)
}

proof fn lemma_mask_byte(c: u8, mask: u8, want: u8, neg: u8)
    ensures
        mask_byte_ok(c, mask, want, neg) == wanted_or_negated(c, mask, want, neg),
{
    let diff = (c & mask) ^ want;
    assert forall|j: int| 0 <= j < 8 implies #[trigger] bit8(diff, j) == (bit8(want, j) != (bit8(
        mask,
        j,
    ) && bit8(c, j))) && bit8(diff & !neg, j) == (bit8(diff, j) && !bit8(neg, j)) && !bit8(0, j) by {
        lemma_bit8(c, mask, 0, j);
        lemma_bit8(c & mask, want, 0, j);
        lemma_bit8(diff, !neg, 0, j);
        lemma_bit8(neg, 0, 0, j);
    }
    lemma_same_bits(diff & !neg, 0);
    lemma_same_bits(diff, 0);
    lemma_bit8(neg, 0, 7, 7);
    lemma_and(0, 0, 0, 0);
    if diff & !neg == 0 {
        assert forall|j: int| 0 <= j < 8 && !#[trigger] bit8(neg, j) implies bit8(want, j) == (bit8(
            mask,
            j,
        ) && bit8(c, j)) by {
            assert(bit8(diff & !neg, j) == bit8(0, j));
            assert(bit8(diff, j) == (bit8(want, j) != (bit8(mask, j) && bit8(c, j))));
        }
    } else {
        let j = choose|j: int| 0 <= j < 8 && #[trigger] bit8(diff & !neg, j) != bit8(0, j);
        assert(bit8(diff, j) && !bit8(neg, j));
    }
    if diff != 0 {
        let j = choose|j: int| 0 <= j < 8 && #[trigger] bit8(diff, j) != bit8(0, j);
        assert(bit8(want, j) != (bit8(mask, j) && bit8(c, j)));
    } else if differs(c, mask, want) {
        let j = choose|j: int|
            0 <= j < 8 && #[trigger] bit8(want, j) != (bit8(mask, j) && bit8(c, j));
        assert(bit8(diff, j) == bit8(0, j));
    }
}

/// A test of 8 bytes under words passes exactly where each byte inside the
/// block has the wanted bits where its mask selects, the negated bits aside,
/// and is another one than wanted where the highest bit of its negation is
/// set. The bytes of the words are those of the operands, in order.
pub proof fn word_test_wants_selected_bits(
    buf: Seq<u8>,
    p: int,
    mask: Seq<u8>,
    want: Seq<u8>,
    neg: Seq<u8>,
)
    ensures
        window_passes(buf, p, 8, word_masked(le64(mask, 0), le64(want, 0), le64(neg, 0))) <==> p >= 0
            && forall|i: int|
            0 <= i < 8 && p + i < buf.len() ==> wanted_or_negated(
                #[trigger] buf[p + i],
                mask[i],
                want[i],
                neg[i],
            ),
{
    let test = word_masked(le64(mask, 0), le64(want, 0), le64(neg, 0));
    let good: ByteTest = |i: int, c: u8| wanted_or_negated(c, mask[i], want[i], neg[i]);
    assert forall|i: int, c: u8| 0 <= i < 8 implies #[trigger] test(i, c) == good(i, c) by {
        lemma_word_bytes(mask, 0, i);
        lemma_word_bytes(want, 0, i);
        lemma_word_bytes(neg, 0, i);
        lemma_mask_byte(c, mask[i], want[i], neg[i]);
    }
    lemma_window_is(buf, p, 8, test, good);
}

/// A bucket is in three rows at once.
pub open spec fn share_bucket(x: u8, y: u8, z: u8) -> bool {
    exists|t: int| 0 <= t < 8 && #[trigger] bit8(x, t) && bit8(y, t) && bit8(z, t)
}

proof fn lemma_share_bucket(x: u8, y: u8, z: u8)
    ensures
        (x & y & z != 0) == share_bucket(x, y, z),
        (y & x & z != 0) == share_bucket(x, y, z),
{
    assert forall|t: int| 0 <= t < 8 implies #[trigger] bit8(x & y & z, t) == (bit8(x, t) && bit8(
        y,
        t,
    ) && bit8(z, t)) && bit8(y & x & z, t) == bit8(x & y & z, t) && !bit8(0, t) by {
        lemma_bit8(x, y, 0, t);
        lemma_bit8(y, x, 0, t);
        lemma_bit8(x & y, z, 0, t);
        lemma_bit8(y & x, z, 0, t);
    }
    lemma_same_bits(x & y & z, 0);
    lemma_same_bits(y & x & z, x & y & z);
    if x & y & z != 0 {
        let t = choose|t: int| 0 <= t < 8 && #[trigger] bit8(x & y & z, t) != bit8(0, t);
        assert(bit8(x, t) && bit8(y, t) && bit8(z, t));
    }
    if share_bucket(x, y, z) {
        let t = choose|t: int| 0 <= t < 8 && #[trigger] bit8(x, t) && bit8(y, t) && bit8(z, t);
        assert(bit8(x & y & z, t) != bit8(0, t));
    }
}

/// A test of 16 bytes against 8 buckets passes exactly where each byte inside
/// the block is in one of the buckets of its place, or is in none where that
/// is negated. A byte is in a bucket if the rows of its low and of its high
/// digit in base 16 both have the bucket.
pub proof fn shufti_16x8_asks_for_a_bucket(
    buf: Seq<u8>,
    p: int,
    nib: Seq<u8>,
    bucket: Seq<u8>,
    neg: u32,
)
    ensures
        window_passes(buf, p, 16, shufti_16x8(nib, bucket, neg)) <==> p >= 0 && forall|i: int|
            0 <= i < 16 && p + i < buf.len() ==> {
                let c = #[trigger] buf[p + i];
                share_bucket(nib[c as int % 16], nib[16 + c as int / 16], bucket[i]) != odd_at(
                    neg,
                    i,
                )
            },
{
    let test = shufti_16x8(nib, bucket, neg);
    let good: ByteTest = |i: int, c: u8|
        share_bucket(nib[c as int % 16], nib[16 + c as int / 16], bucket[i]) != odd_at(neg, i);
    assert forall|i: int, c: u8| 0 <= i < 16 implies #[trigger] test(i, c) == good(i, c) by {
        lemma_nibbles(c, 0);
        lemma_share_bucket(nib[c as int % 16], nib[16 + c as int / 16], bucket[i]);
        lemma_odd(neg, i);
    }
    lemma_window_is(buf, p, 16, test, good);
}

/// A test of 32 bytes against 8 buckets, in the same way.
pub proof fn shufti_32x8_asks_for_a_bucket(
    buf: Seq<u8>,
    p: int,
    hi: Seq<u8>,
    lo: Seq<u8>,
    bucket: Seq<u8>,
    neg: u32,
)
    ensures
        window_passes(buf, p, 32, shufti_32x8(hi, lo, bucket, neg)) <==> p >= 0 && forall|i: int|
            0 <= i < 32 && p + i < buf.len() ==> {
                let c = #[trigger] buf[p + i];
                share_bucket(lo[c as int % 16], hi[c as int / 16], bucket[i]) != odd_at(neg, i)
            },
{
    let test = shufti_32x8(hi, lo, bucket, neg);
    let good: ByteTest = |i: int, c: u8|
        share_bucket(lo[c as int % 16], hi[c as int / 16], bucket[i]) != odd_at(neg, i);
    assert forall|i: int, c: u8| 0 <= i < 32 implies #[trigger] test(i, c) == good(i, c) by {
        lemma_nibbles(c, 0);
        lemma_share_bucket(lo[c as int % 16], hi[c as int / 16], bucket[i]);
        lemma_odd(neg, i);
    }
    lemma_window_is(buf, p, 32, test, good);
}

/// A test of 16 bytes against 16 buckets: 8 of the first halves of the rows
/// and 8 of the second halves.
pub proof fn shufti_16x16_asks_for_a_bucket(
    buf: Seq<u8>,
    p: int,
    hi: Seq<u8>,
    lo: Seq<u8>,
    bucket: Seq<u8>,
    neg: u32,
)
    ensures
        window_passes(buf, p, 16, shufti_16x16(hi, lo, bucket, neg)) <==> p >= 0 && forall|i: int|
            0 <= i < 16 && p + i < buf.len() ==> {
                let c = #[trigger] buf[p + i];
                (share_bucket(lo[c as int % 16], hi[c as int / 16], bucket[i]) || share_bucket(
                    lo[16 + c as int % 16],
                    hi[16 + c as int / 16],
                    bucket[16 + i],
                )) != odd_at(neg, i)
            },
{
    let test = shufti_16x16(hi, lo, bucket, neg);
    let good: ByteTest = |i: int, c: u8|
        (share_bucket(lo[c as int % 16], hi[c as int / 16], bucket[i]) || share_bucket(
            lo[16 + c as int % 16],
            hi[16 + c as int / 16],
            bucket[16 + i],
        )) != odd_at(neg, i);
    assert forall|i: int, c: u8| 0 <= i < 16 implies #[trigger] test(i, c) == good(i, c) by {
        lemma_nibbles(c, 0);
        lemma_share_bucket(lo[c as int % 16], hi[c as int / 16], bucket[i]);
        lemma_share_bucket(lo[16 + c as int % 16], hi[16 + c as int / 16], bucket[16 + i]);
        lemma_odd(neg, i);
    }
    lemma_window_is(buf, p, 16, test, good);
}

/// A test of 32 bytes against 16 buckets: 8 of the first halves of the rows,
/// selected by `bsm_lo`, and 8 of the second halves, selected by `bsm_hi`.
pub proof fn shufti_32x16_asks_for_a_bucket(
    buf: Seq<u8>,
    p: int,
    hi: Seq<u8>,
    lo: Seq<u8>,
    bsm_hi: Seq<u8>,
    bsm_lo: Seq<u8>,
    neg: u32,
)
    ensures
        window_passes(buf, p, 32, shufti_32x16(hi, lo, bsm_hi, bsm_lo, neg)) <==> p >= 0 && forall
            |i: int|
            0 <= i < 32 && p + i < buf.len() ==> {
                let c = #[trigger] buf[p + i];
                (share_bucket(lo[c as int % 16], hi[c as int / 16], bsm_lo[i]) || share_bucket(
                    lo[16 + c as int % 16],
                    hi[16 + c as int / 16],
                    bsm_hi[i],
                )) != odd_at(neg, i)
            },
{
    let test = shufti_32x16(hi, lo, bsm_hi, bsm_lo, neg);
    let good: ByteTest = |i: int, c: u8|
        (share_bucket(lo[c as int % 16], hi[c as int / 16], bsm_lo[i]) || share_bucket(
            lo[16 + c as int % 16],
            hi[16 + c as int / 16],
            bsm_hi[i],
        )) != odd_at(neg, i);
    assert forall|i: int, c: u8| 0 <= i < 32 implies #[trigger] test(i, c) == good(i, c) by {
        lemma_nibbles(c, 0);
        lemma_share_bucket(lo[c as int % 16], hi[c as int / 16], bsm_lo[i]);
        lemma_share_bucket(lo[16 + c as int % 16], hi[16 + c as int / 16], bsm_hi[i]);
        lemma_odd(neg, i);
    }
    lemma_window_is(buf, p, 32, test, good);
}

/// A byte is in a class exactly where bit `c % 8` of byte `c / 8` of the class
/// is set.
pub proof fn class_has_a_bit_for_each_byte(reach: Seq<u8>, c: u8)
    ensures
        in_reach(reach, c) <==> c as int / 8 < reach.len() && bit8(
            reach[c as int / 8],
            c as int % 8,
        ),
{
    lemma_nibbles(c, 0);
    if c as int / 8 < reach.len() {
        lemma_bit8(reach[c as int / 8], 0, c as int % 8, 0);
    }
}

/// A lookaround at one position passes exactly where the byte there is in the
/// class, or where there is none.
pub proof fn single_lookaround_asks_for_its_class(buf: Seq<u8>, reach: Seq<u8>, p: int)
    requires
        reach.len() >= 32,
    ensures
        single_lookaround_passes(buf, reach, p) <==> !(0 <= p < buf.len()) || bit8(
            reach[buf[p] as int / 8],
            buf[p] as int % 8,
        ),
{
    if 0 <= p < buf.len() {
        class_has_a_bit_for_each_byte(reach, buf[p]);
    }
}

/// A list of lookarounds in ascending order passes exactly where its first
/// entry does not look in front of the block, and each entry that looks inside
/// the block finds a byte of its class there.
pub proof fn lookarounds_ask_for_their_classes(
    buf: Seq<u8>,
    look: Seq<u8>,
    reach: Seq<u8>,
    count: int,
    end: u64,
)
    requires
        0 < count <= look.len(),
        32 * count <= reach.len(),
        forall|i: int, j: int|
            #![trigger look[i], look[j]]
            0 <= i <= j < count ==> (look[i] as i8) <= (look[j] as i8),
    ensures
        lookaround(buf, look, reach, count, end) == Ok::<bool, InterpError>(
            end + (look[0] as i8) >= 0 && forall|k: int|
                0 <= k < count && 0 <= end + (#[trigger] look[k] as i8) < buf.len() ==> {
                    let c = buf[end + (look[k] as i8)];
                    bit8(reach[32 * k + c as int / 8], c as int % 8)
                },
        ),
{
    assert forall|k: int| 0 <= k < count implies (0 <= look_position(look, end, k) < buf.len() ==> (
    #[trigger] look_holds(buf, look, reach, end, k) == {
        let c = buf[end + (look[k] as i8)];
        bit8(reach[32 * k + c as int / 8], c as int % 8)
    })) && (in_sight(buf, look, end, k) <==> look_position(look, end, k) < buf.len()) by {
        let p = look_position(look, end, k);
        if 0 <= p < buf.len() {
            class_has_a_bit_for_each_byte(reach.subrange(32 * k, 32 * k + 32), buf[p]);
        }
        if p < buf.len() {
            assert forall|j: int| 0 <= j <= k implies #[trigger] look_position(look, end, j)
                < buf.len() by {
                assert((look[j] as i8) <= (look[k] as i8));
            }
        } else {
            assert(look_position(look, end, k) >= buf.len());
        }
    }
    let passes = forall|k: int|
        0 <= k < count && in_sight(buf, look, end, k) ==> #[trigger] look_holds(
            buf,
            look,
            reach,
            end,
            k,
        );
    let good = forall|k: int|
        0 <= k < count && 0 <= end + (#[trigger] look[k] as i8) < buf.len() ==> {
            let c = buf[end + (look[k] as i8)];
            bit8(reach[32 * k + c as int / 8], c as int % 8)
        };
    if passes {
        assert forall|k: int|
            0 <= k < count && 0 <= end + (#[trigger] look[k] as i8) < buf.len() implies {
            let c = buf[end + (look[k] as i8)];
            bit8(reach[32 * k + c as int / 8], c as int % 8)
        } by {
            assert(look_holds(buf, look, reach, end, k));
        }
    }
    if good {
        assert forall|k: int|
            0 <= k < count && in_sight(buf, look, end, k) implies #[trigger] look_holds(
            buf,
            look,
            reach,
            end,
            k,
        ) by {
            let p = look_position(look, end, k);
            if p >= 0 {
                assert(0 <= end + (look[k] as i8) < buf.len());
            }
        }
    }
}

/// The test for a literal of medium length passes exactly where the bytes in
/// front of the end are those of the literal.
pub proof fn literal_test_compares_bytes(buf: Seq<u8>, lit: Seq<u8>, length: int, end: int)
    requires
        0 <= length <= lit.len(),
    ensures
        literal_ends_at(buf, lit, length, end, false) <==> length <= end <= buf.len()
            && buf.subrange(end - length, end) == lit.take(length),
{
    if length <= end <= buf.len() {
        let there = buf.subrange(end - length, end);
        if literal_ends_at(buf, lit, length, end, false) {
            assert forall|i: int| 0 <= i < length implies there[i] == lit.take(length)[i] by {
                assert(same_letter(buf[end - length + i], lit[i], false));
            }
            assert(there =~= lit.take(length));
        }
        if there == lit.take(length) {
            assert forall|i: int| 0 <= i < length implies same_letter(
                buf[end - length + i],
                #[trigger] lit[i],
                false,
            ) by {
                assert(there[i] == lit.take(length)[i]);
            }
        }
    }
}

/// A letter of the alphabet from A to Z, in either case, and its other case.
pub open spec fn two_cases(a: u8, b: u8) -> bool {
    ||| (65 <= a <= 90 && b == a + 32)
    ||| (65 <= b <= 90 && a == b + 32)
}

/// Without regard to case the test passes exactly where each byte is that of
/// the literal or its other case, and nothing but letters has another case.
pub proof fn literal_test_can_ignore_case(buf: Seq<u8>, lit: Seq<u8>, length: int, end: int)
    requires
        0 <= length <= lit.len(),
    ensures
        literal_ends_at(buf, lit, length, end, true) <==> length <= end <= buf.len() && forall
            |i: int|
            0 <= i < length ==> buf[end - length + i] == #[trigger] lit[i] || two_cases(
                buf[end - length + i],
                lit[i],
            ),
{
    assert forall|a: u8, b: u8| #[trigger] same_letter(a, b, true) == (a == b || two_cases(a, b)) by {}
}

} // verus!
