//! Where the tests of a program find what they ask for, and where they go on.

use vstd::prelude::*;

use crate::bits::{as_wanted, bit8, lemma_signed};
use crate::bytes::{le32, le64, number, words_are_numbers};
use crate::literal::bitwise::{
    literal_test_can_ignore_case, literal_test_compares_bytes, lookarounds_ask_for_their_classes,
    mask_test_wants_selected_bits, odd_at, share_bucket, shufti_16x16_asks_for_a_bucket,
    shufti_16x8_asks_for_a_bucket, shufti_32x16_asks_for_a_bucket, shufti_32x8_asks_for_a_bucket,
    single_lookaround_asks_for_its_class, two_cases, wanted_or_negated,
    word_test_wants_selected_bits,
};
use crate::literal::branch::{signed32, verdict, Scene};
use crate::literal::instructions::{moves, signed, stands_at};
use crate::literal::op;
use crate::literal::program::{step, Machine};
use crate::literal::report::Replies;

verus! {

/// A test of `size` bytes whose jump is the number at `jump`: the program goes
/// on behind the test if it passes, and as far ahead as the jump says if not.
/// Nothing else changes.
pub open spec fn decides(
    sc: Scene,
    m: Machine,
    o: Replies,
    passes: bool,
    size: int,
    jump: int,
) -> bool {
    moves(
        sc,
        m,
        if passes {
            size
        } else {
            number(sc.bc, m.at + jump, 4) as int
        },
        step(sc, m, o),
    )
}

/// The numbers that a test reads.
proof fn lemma_operands(bc: Seq<u8>, offset: int, jump: int, neg: int)
    ensures
        signed32(bc, offset) == signed(bc, offset),
        le32(bc, jump) == number(bc, jump, 4),
        le32(bc, neg) == number(bc, neg, 4),
{
    words_are_numbers(bc, offset);
    words_are_numbers(bc, jump);
    words_are_numbers(bc, neg);
    lemma_signed(le32(bc, offset));
}

/// The test of 32 bytes against a mask.
pub proof fn bytes_are_tested(sc: Scene, m: Machine, o: Replies)
    requires
        stands_at(sc, m, op::CHECK_MASK_32, 80),
    ensures
        ({
            let p = sc.end + signed(sc.bc, m.at + 72);
            let neg = number(sc.bc, m.at + 68, 4) as u32;
            let passes = p >= 0 && forall|i: int|
                0 <= i < 32 && p + i < sc.buf.len() ==> as_wanted(
                    #[trigger] sc.buf[p + i],
                    sc.bc[m.at + 1 + i],
                    sc.bc[m.at + 33 + i],
                ) != odd_at(neg, i);
            decides(sc, m, o, passes, 80, 76)
        }),
{
    reveal(verdict);
    lemma_operands(sc.bc, m.at + 72, m.at + 76, m.at + 68);
    mask_test_wants_selected_bits(
        sc.buf,
        sc.end + signed(sc.bc, m.at + 72),
        sc.bc.subrange(m.at + 1, m.at + 33),
        sc.bc.subrange(m.at + 33, m.at + 65),
        le32(sc.bc, m.at + 68),
    );
}

/// The test of 8 bytes against a mask.
pub proof fn word_is_tested(sc: Scene, m: Machine, o: Replies)
    requires
        stands_at(sc, m, op::CHECK_MASK, 40),
    ensures
        ({
            let p = sc.end + signed(sc.bc, m.at + 32);
            let passes = p >= 0 && forall|i: int|
                0 <= i < 8 && p + i < sc.buf.len() ==> wanted_or_negated(
                    #[trigger] sc.buf[p + i],
                    sc.bc[m.at + 8 + i],
                    sc.bc[m.at + 16 + i],
                    sc.bc[m.at + 24 + i],
                );
            decides(sc, m, o, passes, 40, 36)
        }),
{
    reveal(verdict);
    lemma_operands(sc.bc, m.at + 32, m.at + 36, m.at + 36);
    let mask = sc.bc.subrange(m.at + 8, m.at + 16);
    let want = sc.bc.subrange(m.at + 16, m.at + 24);
    let neg = sc.bc.subrange(m.at + 24, m.at + 32);
    assert(le64(mask, 0) == le64(sc.bc, m.at + 8));
    assert(le64(want, 0) == le64(sc.bc, m.at + 16));
    assert(le64(neg, 0) == le64(sc.bc, m.at + 24));
    word_test_wants_selected_bits(
        sc.buf,
        sc.end + signed(sc.bc, m.at + 32),
        mask,
        want,
        neg,
    );
}

/// The test of 16 bytes against 8 buckets.
pub proof fn shufti_16x8_is_tested(sc: Scene, m: Machine, o: Replies)
    requires
        stands_at(sc, m, op::CHECK_SHUFTI_16X8, 64),
    ensures
        ({
            let p = sc.end + signed(sc.bc, m.at + 56);
            let neg = number(sc.bc, m.at + 52, 4) as u32;
            let passes = p >= 0 && forall|i: int|
                0 <= i < 16 && p + i < sc.buf.len() ==> {
                    let c = #[trigger] sc.buf[p + i];
                    share_bucket(
                        sc.bc[m.at + 1 + c as int % 16],
                        sc.bc[m.at + 17 + c as int / 16],
                        sc.bc[m.at + 33 + i],
                    ) != odd_at(neg, i)
                };
            decides(sc, m, o, passes, 64, 60)
        }),
{
    reveal(verdict);
    lemma_operands(sc.bc, m.at + 56, m.at + 60, m.at + 52);
    shufti_16x8_asks_for_a_bucket(
        sc.buf,
        sc.end + signed(sc.bc, m.at + 56),
        sc.bc.subrange(m.at + 1, m.at + 33),
        sc.bc.subrange(m.at + 33, m.at + 49),
        le32(sc.bc, m.at + 52),
    );
}

/// The test of 32 bytes against 8 buckets.
pub proof fn shufti_32x8_is_tested(sc: Scene, m: Machine, o: Replies)
    requires
        stands_at(sc, m, op::CHECK_SHUFTI_32X8, 80),
    ensures
        ({
            let p = sc.end + signed(sc.bc, m.at + 72);
            let neg = number(sc.bc, m.at + 68, 4) as u32;
            let passes = p >= 0 && forall|i: int|
                0 <= i < 32 && p + i < sc.buf.len() ==> {
                    let c = #[trigger] sc.buf[p + i];
                    share_bucket(
                        sc.bc[m.at + 17 + c as int % 16],
                        sc.bc[m.at + 1 + c as int / 16],
                        sc.bc[m.at + 33 + i],
                    ) != odd_at(neg, i)
                };
            decides(sc, m, o, passes, 80, 76)
        }),
{
    reveal(verdict);
    lemma_operands(sc.bc, m.at + 72, m.at + 76, m.at + 68);
    shufti_32x8_asks_for_a_bucket(
        sc.buf,
        sc.end + signed(sc.bc, m.at + 72),
        sc.bc.subrange(m.at + 1, m.at + 17),
        sc.bc.subrange(m.at + 17, m.at + 33),
        sc.bc.subrange(m.at + 33, m.at + 65),
        le32(sc.bc, m.at + 68),
    );
}

/// The test of 16 bytes against 16 buckets.
pub proof fn shufti_16x16_is_tested(sc: Scene, m: Machine, o: Replies)
    requires
        stands_at(sc, m, op::CHECK_SHUFTI_16X16, 112),
    ensures
        ({
            let p = sc.end + signed(sc.bc, m.at + 104);
            let neg = number(sc.bc, m.at + 100, 4) as u32;
            let passes = p >= 0 && forall|i: int|
                0 <= i < 16 && p + i < sc.buf.len() ==> {
                    let c = #[trigger] sc.buf[p + i];
                    (share_bucket(
                        sc.bc[m.at + 33 + c as int % 16],
                        sc.bc[m.at + 1 + c as int / 16],
                        sc.bc[m.at + 65 + i],
                    ) || share_bucket(
                        sc.bc[m.at + 49 + c as int % 16],
                        sc.bc[m.at + 17 + c as int / 16],
                        sc.bc[m.at + 81 + i],
                    )) != odd_at(neg, i)
                };
            decides(sc, m, o, passes, 112, 108)
        }),
{
    reveal(verdict);
    lemma_operands(sc.bc, m.at + 104, m.at + 108, m.at + 100);
    shufti_16x16_asks_for_a_bucket(
        sc.buf,
        sc.end + signed(sc.bc, m.at + 104),
        sc.bc.subrange(m.at + 1, m.at + 33),
        sc.bc.subrange(m.at + 33, m.at + 65),
        sc.bc.subrange(m.at + 65, m.at + 97),
        le32(sc.bc, m.at + 100),
    );
}

/// The test of 32 bytes against 16 buckets.
pub proof fn shufti_32x16_is_tested(sc: Scene, m: Machine, o: Replies)
    requires
        stands_at(sc, m, op::CHECK_SHUFTI_32X16, 144),
    ensures
        ({
            let p = sc.end + signed(sc.bc, m.at + 136);
            let neg = number(sc.bc, m.at + 132, 4) as u32;
            let passes = p >= 0 && forall|i: int|
                0 <= i < 32 && p + i < sc.buf.len() ==> {
                    let c = #[trigger] sc.buf[p + i];
                    (share_bucket(
                        sc.bc[m.at + 33 + c as int % 16],
                        sc.bc[m.at + 1 + c as int / 16],
                        sc.bc[m.at + 97 + i],
                    ) || share_bucket(
                        sc.bc[m.at + 49 + c as int % 16],
                        sc.bc[m.at + 17 + c as int / 16],
                        sc.bc[m.at + 65 + i],
                    )) != odd_at(neg, i)
                };
            decides(sc, m, o, passes, 144, 140)
        }),
{
    reveal(verdict);
    lemma_operands(sc.bc, m.at + 136, m.at + 140, m.at + 132);
    shufti_32x16_asks_for_a_bucket(
        sc.buf,
        sc.end + signed(sc.bc, m.at + 136),
        sc.bc.subrange(m.at + 1, m.at + 33),
        sc.bc.subrange(m.at + 33, m.at + 65),
        sc.bc.subrange(m.at + 65, m.at + 97),
        sc.bc.subrange(m.at + 97, m.at + 129),
        le32(sc.bc, m.at + 132),
    );
}

/// The signed number that one byte writes.
pub open spec fn signed_byte(b: u8) -> int {
    if b < 128 {
        b as int
    } else {
        b - 256
    }
}

/// The lookaround at one position: its class stands where the program says,
/// with a bit for each byte.
pub proof fn lookaround_is_tested(sc: Scene, m: Machine, o: Replies)
    requires
        stands_at(sc, m, op::CHECK_SINGLE_LOOKAROUND, 12),
        number(sc.bc, m.at + 4, 4) + 32 <= sc.bc.len(),
    ensures
        ({
            let p = sc.end + signed_byte(sc.bc[m.at + 1]);
            let class = number(sc.bc, m.at + 4, 4) as int;
            let c = sc.buf[p] as int;
            let passes = !(0 <= p < sc.buf.len()) || bit8(sc.bc[class + c / 8], c % 8);
            decides(sc, m, o, passes, 16, 8)
        }),
{
    reveal(verdict);
    words_are_numbers(sc.bc, m.at + 4);
    words_are_numbers(sc.bc, m.at + 8);
    lemma_signed(sc.bc[m.at + 1] as u32);
    single_lookaround_asks_for_its_class(
        sc.buf,
        sc.bc.skip(le32(sc.bc, m.at + 4) as int),
        sc.end + signed_byte(sc.bc[m.at + 1]),
    );
}

/// Where entry `k` of a list of lookarounds looks, from the end of the match
/// on.
pub open spec fn look_offset(sc: Scene, m: Machine, k: int) -> int {
    signed_byte(sc.bc[number(sc.bc, m.at + 4, 4) + k])
}

/// Entry `k` of a list of lookarounds finds a byte of class `k`.
pub open spec fn look_finds(sc: Scene, m: Machine, k: int) -> bool {
    let c = sc.buf[sc.end + look_offset(sc, m, k)] as int;
    bit8(sc.bc[number(sc.bc, m.at + 8, 4) + 32 * k + c / 8], c % 8)
}

/// The lookarounds of a list pass where the first does not look in front of
/// the block, and each that looks inside the block finds a byte of its class.
pub open spec fn looks_pass(sc: Scene, m: Machine) -> bool {
    &&& sc.end + look_offset(sc, m, 0) >= 0
    &&& forall|k: int|
        0 <= k < number(sc.bc, m.at + 12, 4) && 0 <= sc.end + look_offset(sc, m, k) < sc.buf.len()
            ==> #[trigger] look_finds(sc, m, k)
}

proof fn lemma_looks(sc: Scene, m: Machine, look: Seq<u8>, reach: Seq<u8>, count: int)
    requires
        look == sc.bc.skip(number(sc.bc, m.at + 4, 4) as int),
        reach == sc.bc.skip(number(sc.bc, m.at + 8, 4) as int),
        0 < count == number(sc.bc, m.at + 12, 4),
        number(sc.bc, m.at + 4, 4) + count <= sc.bc.len(),
        number(sc.bc, m.at + 8, 4) + 32 * count <= sc.bc.len(),
    ensures
        forall|k: int| 0 <= k < count ==> #[trigger] look[k] as i8 == look_offset(sc, m, k),
        looks_pass(sc, m) <==> sc.end + (look[0] as i8) >= 0 && forall|k: int|
            0 <= k < count && 0 <= sc.end + (#[trigger] look[k] as i8) < sc.buf.len() ==> {
                let c = sc.buf[sc.end + (look[k] as i8)];
                bit8(reach[32 * k + c as int / 8], c as int % 8)
            },
{
    assert forall|k: int| 0 <= k < count implies #[trigger] look[k] as i8 == look_offset(sc, m, k) by {
        lemma_signed(look[k] as u32);
    }
    assert forall|k: int| 0 <= k < count && 0 <= sc.end + (#[trigger] look[k] as i8) < sc.buf.len()
        implies look_finds(sc, m, k) == {
        let c = sc.buf[sc.end + (look[k] as i8)];
        bit8(reach[32 * k + c as int / 8], c as int % 8)
    } by {}
    if forall|k: int|
        0 <= k < count && 0 <= sc.end + (#[trigger] look[k] as i8) < sc.buf.len() ==> {
            let c = sc.buf[sc.end + (look[k] as i8)];
            bit8(reach[32 * k + c as int / 8], c as int % 8)
        } {
        assert forall|k: int|
            0 <= k < count && 0 <= sc.end + look_offset(sc, m, k) < sc.buf.len() implies #[trigger] look_finds(
            sc,
            m,
            k,
        ) by {
            assert(look[k] as i8 == look_offset(sc, m, k));
        }
    }
}

/// The lookarounds of a list in ascending order: the program goes on behind
/// them where they pass.
pub proof fn lookarounds_are_tested(sc: Scene, m: Machine, o: Replies)
    requires
        stands_at(sc, m, op::CHECK_LOOKAROUND, 20),
        number(sc.bc, m.at + 12, 4) > 0,
        number(sc.bc, m.at + 4, 4) + number(sc.bc, m.at + 12, 4) <= sc.bc.len(),
        number(sc.bc, m.at + 8, 4) + 32 * number(sc.bc, m.at + 12, 4) <= sc.bc.len(),
        forall|i: int, j: int|
            #![trigger look_offset(sc, m, i), look_offset(sc, m, j)]
            0 <= i <= j < number(sc.bc, m.at + 12, 4) ==> look_offset(sc, m, i) <= look_offset(
                sc,
                m,
                j,
            ),
    ensures
        decides(sc, m, o, looks_pass(sc, m), 24, 16),
{
    let look = sc.bc.skip(number(sc.bc, m.at + 4, 4) as int);
    let reach = sc.bc.skip(number(sc.bc, m.at + 8, 4) as int);
    let count = number(sc.bc, m.at + 12, 4) as int;
    words_are_numbers(sc.bc, m.at + 4);
    words_are_numbers(sc.bc, m.at + 8);
    words_are_numbers(sc.bc, m.at + 12);
    words_are_numbers(sc.bc, m.at + 16);
    lemma_looks(sc, m, look, reach, count);
    assert forall|i: int, j: int|
        #![trigger look[i], look[j]]
        0 <= i <= j < count implies (look[i] as i8) <= (look[j] as i8) by {
        assert(look[i] as i8 == look_offset(sc, m, i));
        assert(look[j] as i8 == look_offset(sc, m, j));
    }
    lookarounds_ask_for_their_classes(sc.buf, look, reach, count, sc.end);
    reveal(verdict);
}

/// The test for a literal of medium length: the bytes in front of the end are
/// those that stand where the program says.
pub proof fn literal_is_tested(sc: Scene, m: Machine, o: Replies)
    requires
        stands_at(sc, m, op::CHECK_MED_LIT, 16),
        number(sc.bc, m.at + 4, 4) + number(sc.bc, m.at + 8, 4) <= sc.bc.len(),
    ensures
        ({
            let lit = number(sc.bc, m.at + 4, 4) as int;
            let n = number(sc.bc, m.at + 8, 4) as int;
            let passes = n <= sc.end <= sc.buf.len() && sc.buf.subrange(sc.end - n, sc.end as int)
                == sc.bc.subrange(lit, lit + n);
            decides(sc, m, o, passes, 16, 12)
        }),
{
    reveal(verdict);
    words_are_numbers(sc.bc, m.at + 4);
    words_are_numbers(sc.bc, m.at + 8);
    words_are_numbers(sc.bc, m.at + 12);
    let lit = le32(sc.bc, m.at + 4) as int;
    let n = le32(sc.bc, m.at + 8) as int;
    assert(sc.bc.skip(lit).take(n) =~= sc.bc.subrange(lit, lit + n));
    literal_test_compares_bytes(sc.buf, sc.bc.skip(lit), n, sc.end as int);
}

/// The same test without regard to case.
pub proof fn literal_is_tested_in_either_case(sc: Scene, m: Machine, o: Replies)
    requires
        stands_at(sc, m, op::CHECK_MED_LIT_NOCASE, 16),
        number(sc.bc, m.at + 4, 4) + number(sc.bc, m.at + 8, 4) <= sc.bc.len(),
    ensures
        ({
            let lit = number(sc.bc, m.at + 4, 4) as int;
            let n = number(sc.bc, m.at + 8, 4) as int;
            let passes = n <= sc.end <= sc.buf.len() && forall|i: int|
                0 <= i < n ==> sc.buf[sc.end - n + i] == #[trigger] sc.bc[lit + i] || two_cases(
                    sc.buf[sc.end - n + i],
                    sc.bc[lit + i],
                );
            decides(sc, m, o, passes, 16, 12)
        }),
{
    reveal(verdict);
    words_are_numbers(sc.bc, m.at + 4);
    words_are_numbers(sc.bc, m.at + 8);
    words_are_numbers(sc.bc, m.at + 12);
    let lit = le32(sc.bc, m.at + 4) as int;
    let n = le32(sc.bc, m.at + 8) as int;
    let text = sc.bc.skip(lit);
    literal_test_can_ignore_case(sc.buf, text, n, sc.end as int);
    assert forall|i: int| 0 <= i < n implies #[trigger] text[i] == sc.bc[lit + i] by {}
    if forall|i: int|
        0 <= i < n ==> sc.buf[sc.end - n + i] == #[trigger] sc.bc[lit + i] || two_cases(
            sc.buf[sc.end - n + i],
            sc.bc[lit + i],
        ) {
        assert forall|i: int| 0 <= i < n implies sc.buf[sc.end - n + i] == #[trigger] text[i]
            || two_cases(sc.buf[sc.end - n + i], text[i]) by {
            assert(text[i] == sc.bc[lit + i]);
        }
    }
    if forall|i: int|
        0 <= i < n ==> sc.buf[sc.end - n + i] == #[trigger] text[i] || two_cases(
            sc.buf[sc.end - n + i],
            text[i],
        ) {
        assert forall|i: int| 0 <= i < n implies sc.buf[sc.end - n + i] == #[trigger] sc.bc[lit + i]
            || two_cases(sc.buf[sc.end - n + i], sc.bc[lit + i]) by {
            assert(text[i] == sc.bc[lit + i]);
        }
    }
}

} // verus!
