//! The tests that a literal program makes on the bytes around a match.
//!
//! A block is scanned as a whole: there is no history before it and nothing
//! is known of what follows it. Positions behind its end pass. A test that
//! reaches in front of the block fails, except that of a single byte against a
//! class: outside the block it has nothing to test, and passes.

use vstd::prelude::*;

use crate::bits::{lemma_nibbles, lemma_seven, low_bits};
use crate::bytes::{byte_of, byte_or_zero, load_u64_le_partial};
use crate::literal::InterpError;

verus! {

/// Bit `i` of a mask.
pub open spec fn bit(mask: u32, i: int) -> bool {
    (mask >> (i as u32)) & 1 == 1
}

/// The low nibble of a byte.
pub open spec fn low_nibble(c: u8) -> int {
    (c & 0x0f) as int
}

/// The high nibble of a byte.
pub open spec fn high_nibble(c: u8) -> int {
    (c >> 4) as int
}

/// Where `end` plus an offset lies with regard to a block.
enum Place {
    Before,
    At(usize),
    Beyond,
}

fn locate(end: u64, off: i32, len: usize) -> (r: Place)
    ensures
        match r {
            Place::Before => end + off < 0,
            Place::At(p) => p == end + off && p < len,
            Place::Beyond => end + off >= len,
        },
{
    let p: u64 = if off >= 0 {
        match end.checked_add(off as u64) {
            Some(p) => p,
            None => return Place::Beyond,
        }
    } else {
        let back: u64 = (-(off as i64)) as u64;
        if back > end {
            return Place::Before;
        }
        end - back
    };
    if p < len as u64 {
        Place::At(p as usize)
    } else {
        Place::Beyond
    }
}

/// One byte against a mask, a wanted value and a negation.
pub open spec fn byte_passes(
    buf: Seq<u8>,
    and_mask: u8,
    want: u8,
    negated: bool,
    p: int,
) -> bool {
    if p < 0 {
        false
    } else if p >= buf.len() {
        true
    } else {
        (and_mask & buf[p] == want) != negated
    }
}

/// Tests one byte at `end + off`.
pub fn check_byte(buf: &[u8], and_mask: u8, want: u8, negation: u8, off: i32, end: u64) -> (r: bool)
    ensures
        r == byte_passes(buf@, and_mask, want, negation != 0, end + off),
{
    match locate(end, off, buf.len()) {
        Place::Before => false,
        Place::Beyond => true,
        Place::At(p) => (and_mask & buf[p] == want) != (negation != 0),
    }
}

/// A test of the byte at a position of a window.
pub type ByteTest = spec_fn(int, u8) -> bool;

/// The byte at position `i` of a window at `p` passes, or is not there.
pub open spec fn window_at(buf: Seq<u8>, p: int, test: ByteTest, i: int) -> bool {
    p + i < buf.len() ==> test(i, buf[p + i])
}

/// Every byte of the window that is inside the block passes. No window that
/// starts in front of the block does.
pub open spec fn window_passes(buf: Seq<u8>, p: int, width: int, test: ByteTest) -> bool {
    p >= 0 && forall|i: int| 0 <= i < width ==> #[trigger] window_at(buf, p, test, i)
}

/// Position `i` passes, or is not valid.
pub open spec fn valid_at(data: Seq<u8>, valid: u32, test: ByteTest, i: int) -> bool {
    bit(valid, i) ==> test(i, data[i])
}

/// Every valid position passes.
pub open spec fn validated(data: Seq<u8>, valid: u32, test: ByteTest) -> bool {
    forall|i: int| 0 <= i < data.len() ==> #[trigger] valid_at(data, valid, test, i)
}

/// A window and its copy with a mask of valid positions pass alike.
proof fn lemma_window(buf: Seq<u8>, p: int, data: Seq<u8>, valid: u32, test: ByteTest)
    requires
        p >= 0,
        forall|i: int| 0 <= i < data.len() ==> #[trigger] data[i] == byte_or_zero(buf, p + i),
        forall|i: int| 0 <= i < data.len() ==> (#[trigger] bit(valid, i) <==> p + i < buf.len()),
    ensures
        validated(data, valid, test) == window_passes(buf, p, data.len() as int, test),
{
    assert forall|i: int| 0 <= i < data.len() implies valid_at(data, valid, test, i) == window_at(
        buf,
        p,
        test,
        i,
    ) by {
        assert(data[i] == byte_or_zero(buf, p + i));
        assert(bit(valid, i) <==> p + i < buf.len());
    }
    if validated(data, valid, test) {
        assert forall|i: int| 0 <= i < data.len() implies #[trigger] window_at(
            buf,
            p,
            test,
            i,
        ) by {
            assert(valid_at(data, valid, test, i));
        }
    }
    if window_passes(buf, p, data.len() as int, test) {
        assert forall|i: int| 0 <= i < data.len() implies #[trigger] valid_at(
            data,
            valid,
            test,
            i,
        ) by {
            assert(window_at(buf, p, test, i));
        }
    }
}

/// The 16 bytes from `off` on, zero behind the end, and which of them are
/// inside the block.
pub fn get_data128(buf: &[u8], off: usize) -> (r: ([u8; 16], u16))
    ensures
        forall|i: int| 0 <= i < 16 ==> #[trigger] r.0@[i] == byte_or_zero(buf@, off + i),
        forall|i: int| 0 <= i < 16 ==> (#[trigger] bit(r.1 as u32, i) <==> off + i < buf@.len()),
{
    let mut data: [u8; 16] = [0u8; 16];
    assert(data == vstd::array::spec_array_fill_for_copy_type::<u8, 16>(0));
    let inside: usize = if off >= buf.len() {
        0
    } else if buf.len() - off >= 16 {
        16
    } else {
        buf.len() - off
    };
    let mut k: usize = 0;
    while k < inside
        invariant
            inside <= 16,
            inside > 0 ==> off + inside <= buf@.len() <= usize::MAX,
            k <= inside,
            forall|i: int|
                0 <= i < 16 ==> #[trigger] data@[i] == if i < k {
                    buf@[off + i]
                } else {
                    0
                },
        decreases inside - k,
    {
        data[k] = buf[off + k];
        k = k + 1;
    }
    let valid: u32 = low_bits(inside as u32);
    assert forall|i: int| 0 <= i < 16 implies (#[trigger] bit(valid, i) <==> off + i
        < buf@.len()) by {
        assert((valid >> (i as u32)) & 1 == 1 <==> i < inside);
    }
    (data, valid as u16)
}

/// The 32 bytes from `off` on, zero behind the end, and which of them are
/// inside the block.
pub fn get_data256(buf: &[u8], off: usize) -> (r: ([u8; 32], u32))
    ensures
        forall|i: int| 0 <= i < 32 ==> #[trigger] r.0@[i] == byte_or_zero(buf@, off + i),
        forall|i: int| 0 <= i < 32 ==> (#[trigger] bit(r.1, i) <==> off + i < buf@.len()),
{
    let mut data: [u8; 32] = [0u8; 32];
    assert(data == vstd::array::spec_array_fill_for_copy_type::<u8, 32>(0));
    let inside: usize = if off >= buf.len() {
        0
    } else if buf.len() - off >= 32 {
        32
    } else {
        buf.len() - off
    };
    let mut k: usize = 0;
    while k < inside
        invariant
            inside <= 32,
            inside > 0 ==> off + inside <= buf@.len() <= usize::MAX,
            k <= inside,
            forall|i: int|
                0 <= i < 32 ==> #[trigger] data@[i] == if i < k {
                    buf@[off + i]
                } else {
                    0
                },
        decreases inside - k,
    {
        data[k] = buf[off + k];
        k = k + 1;
    }
    let valid: u32 = low_bits(inside as u32);
    assert forall|i: int| 0 <= i < 32 implies (#[trigger] bit(valid, i) <==> off + i
        < buf@.len()) by {
        assert((valid >> (i as u32)) & 1 == 1 <==> i < inside);
    }
    (data, valid)
}

/// Membership in 8 buckets. `nib` holds the rows of the low nibble, then those
/// of the high nibble; `bucket` selects the buckets of each position.
pub open spec fn shufti_16x8(nib: Seq<u8>, bucket: Seq<u8>, neg: u32) -> ByteTest {
    |i: int, c: u8| (nib[16 + high_nibble(c)] & nib[low_nibble(c)] & bucket[i] != 0) != bit(neg, i)
}

/// Tests the valid bytes of 16 against 8 buckets.
pub fn validate_shufti_16x8(
    data: &[u8; 16],
    nib_mask: &[u8],
    bucket_select: &[u8],
    neg: u32,
    valid: u16,
) -> (r: bool)
    requires
        nib_mask@.len() >= 32,
        bucket_select@.len() >= 16,
    ensures
        r == validated(data@, valid as u32, shufti_16x8(nib_mask@, bucket_select@, neg)),
{
    let mask: u32 = valid as u32;
    let mut k: usize = 0;
    while k < 16
        invariant
            k <= 16,
            mask == valid as u32,
            nib_mask@.len() >= 32,
            bucket_select@.len() >= 16,
            forall|i: int|
                0 <= i < k ==> #[trigger] valid_at(data@, mask, shufti_16x8(nib_mask@, bucket_select@, neg), i),
        decreases 16 - k,
    {
        let c: u8 = data[k];
        proof {
            lemma_nibbles(c, 0);
        }
        let lo_nib: usize = (c & 0x0f) as usize;
        let hi_nib: usize = (c >> 4) as usize;
        let found = nib_mask[16 + hi_nib] & nib_mask[lo_nib] & bucket_select[k] != 0;
        if (mask >> (k as u32)) & 1 == 1 && found == ((neg >> (k as u32)) & 1 == 1) {
            assert(!valid_at(data@, mask, shufti_16x8(nib_mask@, bucket_select@, neg), k as int));
            return false;
        }
        k = k + 1;
    }
    true
}

/// Tests the 16 bytes at `end + check_offset` against 8 buckets.
pub fn check_shufti_16x8(
    buf: &[u8],
    nib_mask: &[u8],
    bucket_select: &[u8],
    neg: u32,
    check_offset: i32,
    end: u64,
) -> (r: bool)
    requires
        nib_mask@.len() >= 32,
        bucket_select@.len() >= 16,
    ensures
        r == window_passes(
            buf@,
            end + check_offset,
            16,
            shufti_16x8(nib_mask@, bucket_select@, neg),
        ),
{
    match locate(end, check_offset, buf.len()) {
        Place::Before => false,
        Place::Beyond => true,
        Place::At(p) => {
            let (data, valid) = get_data128(buf, p);
            proof {
                lemma_window(buf@, p as int, data@, valid as u32, shufti_16x8(nib_mask@, bucket_select@, neg));
            }
            validate_shufti_16x8(&data, nib_mask, bucket_select, neg, valid)
        },
    }
}

/// Membership in 8 buckets, with the rows of the two nibbles apart.
pub open spec fn shufti_32x8(hi: Seq<u8>, lo: Seq<u8>, bucket: Seq<u8>, neg: u32) -> ByteTest {
    |i: int, c: u8| (hi[high_nibble(c)] & lo[low_nibble(c)] & bucket[i] != 0) != bit(neg, i)
}

/// Tests the valid bytes of 32 against 8 buckets.
pub fn validate_shufti_32x8(
    data: &[u8; 32],
    hi: &[u8],
    lo: &[u8],
    bucket: &[u8],
    neg: u32,
    valid: u32,
) -> (r: bool)
    requires
        hi@.len() >= 16,
        lo@.len() >= 16,
        bucket@.len() >= 32,
    ensures
        r == validated(data@, valid, shufti_32x8(hi@, lo@, bucket@, neg)),
{
    let mask: u32 = valid;
    let mut k: usize = 0;
    while k < 32
        invariant
            k <= 32,
            mask == valid,
            hi@.len() >= 16,
            lo@.len() >= 16,
            bucket@.len() >= 32,
            forall|i: int|
                0 <= i < k ==> #[trigger] valid_at(data@, mask, shufti_32x8(hi@, lo@, bucket@, neg), i),
        decreases 32 - k,
    {
        let c: u8 = data[k];
        proof {
            lemma_nibbles(c, 0);
        }
        let lo_nib: usize = (c & 0x0f) as usize;
        let hi_nib: usize = (c >> 4) as usize;
        let found = hi[hi_nib] & lo[lo_nib] & bucket[k] != 0;
        if (mask >> (k as u32)) & 1 == 1 && found == ((neg >> (k as u32)) & 1 == 1) {
            assert(!valid_at(data@, mask, shufti_32x8(hi@, lo@, bucket@, neg), k as int));
            return false;
        }
        k = k + 1;
    }
    true
}

/// Tests the 32 bytes at `end + check_offset` against 8 buckets.
pub fn check_shufti_32x8(
    buf: &[u8],
    hi: &[u8],
    lo: &[u8],
    bucket: &[u8],
    neg: u32,
    check_offset: i32,
    end: u64,
) -> (r: bool)
    requires
        hi@.len() >= 16,
        lo@.len() >= 16,
        bucket@.len() >= 32,
    ensures
        r == window_passes(
            buf@,
            end + check_offset,
            32,
            shufti_32x8(hi@, lo@, bucket@, neg),
        ),
{
    match locate(end, check_offset, buf.len()) {
        Place::Before => false,
        Place::Beyond => true,
        Place::At(p) => {
            let (data, valid) = get_data256(buf, p);
            proof {
                lemma_window(buf@, p as int, data@, valid, shufti_32x8(hi@, lo@, bucket@, neg));
            }
            validate_shufti_32x8(&data, hi, lo, bucket, neg, valid)
        },
    }
}

/// Membership in 16 buckets: 8 in the first halves of the rows, 8 in the
/// second, each half with its own selection.
pub open spec fn shufti_16x16(hi: Seq<u8>, lo: Seq<u8>, bucket: Seq<u8>, neg: u32) -> ByteTest {
    |i: int, c: u8| (hi[high_nibble(c)] & lo[low_nibble(c)] & bucket[i] != 0 || hi[16 + high_nibble(c)] & lo[16
        + low_nibble(c)] & bucket[16 + i] != 0) != bit(neg, i)
}

/// Tests the valid bytes of 16 against 16 buckets.
pub fn validate_shufti_16x16(
    data: &[u8; 16],
    hi: &[u8],
    lo: &[u8],
    bucket: &[u8],
    neg: u32,
    valid: u16,
) -> (r: bool)
    requires
        hi@.len() >= 32,
        lo@.len() >= 32,
        bucket@.len() >= 32,
    ensures
        r == validated(data@, valid as u32, shufti_16x16(hi@, lo@, bucket@, neg)),
{
    let mask: u32 = valid as u32;
    let mut k: usize = 0;
    while k < 16
        invariant
            k <= 16,
            mask == valid as u32,
            hi@.len() >= 32,
            lo@.len() >= 32,
            bucket@.len() >= 32,
            forall|i: int|
                0 <= i < k ==> #[trigger] valid_at(data@, mask, shufti_16x16(hi@, lo@, bucket@, neg), i),
        decreases 16 - k,
    {
        let c: u8 = data[k];
        proof {
            lemma_nibbles(c, 0);
        }
        let lo_nib: usize = (c & 0x0f) as usize;
        let hi_nib: usize = (c >> 4) as usize;
        let found = hi[hi_nib] & lo[lo_nib] & bucket[k] != 0 || hi[16 + hi_nib] & lo[16 + lo_nib] & bucket[16
            + k] != 0;
        if (mask >> (k as u32)) & 1 == 1 && found == ((neg >> (k as u32)) & 1 == 1) {
            assert(!valid_at(data@, mask, shufti_16x16(hi@, lo@, bucket@, neg), k as int));
            return false;
        }
        k = k + 1;
    }
    true
}

/// Tests the 16 bytes at `end + check_offset` against 16 buckets.
pub fn check_shufti_16x16(
    buf: &[u8],
    hi: &[u8],
    lo: &[u8],
    bucket: &[u8],
    neg: u32,
    check_offset: i32,
    end: u64,
) -> (r: bool)
    requires
        hi@.len() >= 32,
        lo@.len() >= 32,
        bucket@.len() >= 32,
    ensures
        r == window_passes(
            buf@,
            end + check_offset,
            16,
            shufti_16x16(hi@, lo@, bucket@, neg),
        ),
{
    match locate(end, check_offset, buf.len()) {
        Place::Before => false,
        Place::Beyond => true,
        Place::At(p) => {
            let (data, valid) = get_data128(buf, p);
            proof {
                lemma_window(buf@, p as int, data@, valid as u32, shufti_16x16(hi@, lo@, bucket@, neg));
            }
            validate_shufti_16x16(&data, hi, lo, bucket, neg, valid)
        },
    }
}

/// Membership in 16 buckets, with the selections of the two halves apart.
pub open spec fn shufti_32x16(
    hi: Seq<u8>,
    lo: Seq<u8>,
    bsm_hi: Seq<u8>,
    bsm_lo: Seq<u8>,
    neg: u32,
) -> ByteTest {
    |i: int, c: u8| (lo[low_nibble(c)] & hi[high_nibble(c)] & bsm_lo[i] != 0 || lo[16 + low_nibble(c)] & hi[16
        + high_nibble(c)] & bsm_hi[i] != 0) != bit(neg, i)
}

/// Tests the valid bytes of 32 against 16 buckets.
pub fn validate_shufti_32x16(
    data: &[u8; 32],
    hi: &[u8],
    lo: &[u8],
    bsm_hi: &[u8],
    bsm_lo: &[u8],
    neg: u32,
    valid: u32,
) -> (r: bool)
    requires
        hi@.len() >= 32,
        lo@.len() >= 32,
        bsm_hi@.len() >= 32,
        bsm_lo@.len() >= 32,
    ensures
        r == validated(data@, valid, shufti_32x16(hi@, lo@, bsm_hi@, bsm_lo@, neg)),
{
    let mask: u32 = valid;
    let mut k: usize = 0;
    while k < 32
        invariant
            k <= 32,
            mask == valid,
            hi@.len() >= 32,
            lo@.len() >= 32,
            bsm_hi@.len() >= 32,
            bsm_lo@.len() >= 32,
            forall|i: int|
                0 <= i < k ==> #[trigger] valid_at(data@, mask, shufti_32x16(hi@, lo@, bsm_hi@, bsm_lo@, neg), i),
        decreases 32 - k,
    {
        let c: u8 = data[k];
        proof {
            lemma_nibbles(c, 0);
        }
        let lo_nib: usize = (c & 0x0f) as usize;
        let hi_nib: usize = (c >> 4) as usize;
        let found = lo[lo_nib] & hi[hi_nib] & bsm_lo[k] != 0 || lo[16 + lo_nib] & hi[16 + hi_nib]
            & bsm_hi[k] != 0;
        if (mask >> (k as u32)) & 1 == 1 && found == ((neg >> (k as u32)) & 1 == 1) {
            assert(!valid_at(data@, mask, shufti_32x16(hi@, lo@, bsm_hi@, bsm_lo@, neg), k as int));
            return false;
        }
        k = k + 1;
    }
    true
}

/// Tests the 32 bytes at `end + check_offset` against 16 buckets.
pub fn check_shufti_32x16(
    buf: &[u8],
    hi: &[u8],
    lo: &[u8],
    bsm_hi: &[u8],
    bsm_lo: &[u8],
    neg: u32,
    check_offset: i32,
    end: u64,
) -> (r: bool)
    requires
        hi@.len() >= 32,
        lo@.len() >= 32,
        bsm_hi@.len() >= 32,
        bsm_lo@.len() >= 32,
    ensures
        r == window_passes(
            buf@,
            end + check_offset,
            32,
            shufti_32x16(hi@, lo@, bsm_hi@, bsm_lo@, neg),
        ),
{
    match locate(end, check_offset, buf.len()) {
        Place::Before => false,
        Place::Beyond => true,
        Place::At(p) => {
            let (data, valid) = get_data256(buf, p);
            proof {
                lemma_window(buf@, p as int, data@, valid, shufti_32x16(hi@, lo@, bsm_hi@, bsm_lo@, neg));
            }
            validate_shufti_32x16(&data, hi, lo, bsm_hi, bsm_lo, neg, valid)
        },
    }
}

/// A masked byte is the wanted one, or is not where that is negated.
pub open spec fn masked(and_mask: Seq<u8>, want: Seq<u8>, neg: u32) -> ByteTest {
    |i: int, c: u8| (c & and_mask[i] == want[i]) != bit(neg, i)
}

/// Tests the valid bytes of 32 against wanted ones.
pub fn validate_mask32(data: &[u8; 32], valid: u32, and_mask: &[u8], want: &[u8], neg: u32) -> (r:
    bool)
    requires
        and_mask@.len() >= 32,
        want@.len() >= 32,
    ensures
        r == validated(data@, valid, masked(and_mask@, want@, neg)),
{
    let mut k: usize = 0;
    while k < 32
        invariant
            k <= 32,
            and_mask@.len() >= 32,
            want@.len() >= 32,
            forall|i: int|
                0 <= i < k ==> #[trigger] valid_at(data@, valid, masked(and_mask@, want@, neg), i),
        decreases 32 - k,
    {
        let same = data[k] & and_mask[k] == want[k];
        if (valid >> (k as u32)) & 1 == 1 && same == ((neg >> (k as u32)) & 1 == 1) {
            assert(!valid_at(data@, valid, masked(and_mask@, want@, neg), k as int));
            return false;
        }
        k = k + 1;
    }
    true
}

/// Tests the 32 bytes at `end + check_offset` against wanted ones.
pub fn check_mask32(
    buf: &[u8],
    and_mask: &[u8],
    want: &[u8],
    neg: u32,
    check_offset: i32,
    end: u64,
) -> (r: bool)
    requires
        and_mask@.len() >= 32,
        want@.len() >= 32,
    ensures
        r == window_passes(buf@, end + check_offset, 32, masked(and_mask@, want@, neg)),
{
    match locate(end, check_offset, buf.len()) {
        Place::Before => false,
        Place::Beyond => true,
        Place::At(p) => {
            let (data, valid) = get_data256(buf, p);
            proof {
                lemma_window(buf@, p as int, data@, valid, masked(and_mask@, want@, neg));
            }
            validate_mask32(&data, valid, and_mask, want, neg)
        },
    }
}

/// A masked byte against a wanted one: the bits that are not negated must
/// agree, and where the highest bit is negated the bytes must differ.
pub open spec fn mask_byte_ok(c: u8, and_mask: u8, want: u8, neg: u8) -> bool {
    let diff = (c & and_mask) ^ want;
    diff & !neg == 0 && (neg & 0x80 != 0 ==> diff != 0)
}

/// The same for the bytes of three words.
pub open spec fn word_masked(and_mask: u64, want: u64, neg: u64) -> ByteTest {
    |i: int, c: u8| mask_byte_ok(c, byte_of(and_mask, i), byte_of(want, i), byte_of(neg, i))
}

/// One byte of a difference under its negation.
spec fn diff_ok(diff: u64, neg: u64, s: u64) -> bool {
    let d = (diff >> s) as u8;
    let n = (neg >> s) as u8;
    d & !n == 0 && (n & 0x80 != 0 ==> d != 0)
}

/// The two word-wide tests hold when all eight bytes pass.
proof fn lemma_word_tests(diff: u64, neg: u64, low: u64)
    requires
        low == (diff & 0x7f7f_7f7f_7f7f_7f7f).wrapping_add(0x7f7f_7f7f_7f7f_7f7f),
    ensures
        (diff & !neg == 0 && !(low | diff | 0x7f7f_7f7f_7f7f_7f7f) & neg == 0) == (diff_ok(
            diff,
            neg,
            0,
        ) && diff_ok(diff, neg, 8) && diff_ok(diff, neg, 16) && diff_ok(diff, neg, 24) && diff_ok(
            diff,
            neg,
            32,
        ) && diff_ok(diff, neg, 40) && diff_ok(diff, neg, 48) && diff_ok(diff, neg, 56)),
{
    assert((diff & 0x7f7f_7f7f_7f7f_7f7f) + 0x7f7f_7f7f_7f7f_7f7f <= u64::MAX && (low == (diff
        & 0x7f7f_7f7f_7f7f_7f7f) + 0x7f7f_7f7f_7f7f_7f7f ==> (diff & !neg == 0 && !(low | diff
        | 0x7f7f_7f7f_7f7f_7f7f) & neg == 0) == (diff_ok(diff, neg, 0) && diff_ok(diff, neg, 8)
        && diff_ok(diff, neg, 16) && diff_ok(diff, neg, 24) && diff_ok(diff, neg, 32) && diff_ok(
        diff,
        neg,
        40,
    ) && diff_ok(diff, neg, 48) && diff_ok(diff, neg, 56)))) by (bit_vector);
}

/// One byte of the word-wide difference is the difference of the bytes.
proof fn lemma_diff_byte(data: u64, valid: u64, and_mask: u64, want: u64, neg: u64, i: int)
    requires
        0 <= i < 8,
        byte_of(valid, i) == 0 || byte_of(valid, i) == 0xff,
    ensures
        diff_ok(
            (data & (and_mask & valid)) ^ (want & valid),
            neg & valid,
            (8 * i) as u64,
        ) == (byte_of(valid, i) != 0 ==> word_masked(and_mask, want, neg)(i, byte_of(data, i))),
{
    let s = (8 * i) as u64;
    assert(diff_ok((data & (and_mask & valid)) ^ (want & valid), neg & valid, s) == ((valid
        >> s) as u8 != 0 ==> mask_byte_ok(
        (data >> s) as u8,
        (and_mask >> s) as u8,
        (want >> s) as u8,
        (neg >> s) as u8,
    ))) by (bit_vector)
        requires
            (valid >> s) as u8 == 0 || (valid >> s) as u8 == 0xff,
    ;
}

/// Tests the valid bytes of a word, all at once.
fn validate_mask(data: u64, valid: u64, and_mask: u64, want: u64, neg: u64) -> (r: bool)
    requires
        forall|i: int|
            0 <= i < 8 ==> #[trigger] byte_of(valid, i) == 0 || byte_of(valid, i) == 0xff,
    ensures
        r == forall|i: int|
            0 <= i < 8 && byte_of(valid, i) != 0 ==> #[trigger] word_masked(and_mask, want, neg)(
                i,
                byte_of(data, i),
            ),
{
    let diff: u64 = (data & (and_mask & valid)) ^ (want & valid);
    let pos_ok = diff & !(neg & valid) == 0;
    // A byte of `zeros` has its highest bit set where the byte of `diff` is zero.
    let low: u64 = (diff & 0x7f7f_7f7f_7f7f_7f7f).wrapping_add(0x7f7f_7f7f_7f7f_7f7f);
    let zeros: u64 = !(low | diff | 0x7f7f_7f7f_7f7f_7f7f);
    let neg_ok = zeros & (neg & valid) == 0;
    proof {
        lemma_word_tests(diff, neg & valid, low);
        assert forall|i: int| 0 <= i < 8 implies diff_ok(diff, neg & valid, (8 * i) as u64) == (
        byte_of(valid, i) != 0 ==> #[trigger] word_masked(and_mask, want, neg)(
            i,
            byte_of(data, i),
        )) by {
            lemma_diff_byte(data, valid, and_mask, want, neg, i);
        }
        if pos_ok && neg_ok {
            assert forall|i: int| 0 <= i < 8 && byte_of(valid, i) != 0 implies #[trigger] word_masked(
                and_mask,
                want,
                neg,
            )(i, byte_of(data, i)) by {
                assert(i == 0 || i == 1 || i == 2 || i == 3 || i == 4 || i == 5 || i == 6 || i == 7);
            }
        } else {
            let bad = if !diff_ok(diff, neg & valid, 0) {
                0int
            } else if !diff_ok(diff, neg & valid, 8) {
                1
            } else if !diff_ok(diff, neg & valid, 16) {
                2
            } else if !diff_ok(diff, neg & valid, 24) {
                3
            } else if !diff_ok(diff, neg & valid, 32) {
                4
            } else if !diff_ok(diff, neg & valid, 40) {
                5
            } else if !diff_ok(diff, neg & valid, 48) {
                6
            } else {
                7
            };
            assert(!word_masked(and_mask, want, neg)(bad, byte_of(data, bad)));
        }
    }
    pos_ok && neg_ok
}

/// Tests the 8 bytes at `end + check_offset` against the bytes of a word.
pub fn check_mask(
    buf: &[u8],
    and_mask: u64,
    want: u64,
    neg: u64,
    check_offset: i32,
    end: u64,
) -> (r: bool)
    ensures
        r == window_passes(buf@, end + check_offset, 8, word_masked(and_mask, want, neg)),
{
    match locate(end, check_offset, buf.len()) {
        Place::Before => false,
        Place::Beyond => true,
        Place::At(p) => {
            let inside: usize = if buf.len() - p >= 8 {
                8
            } else {
                buf.len() - p
            };
            let data: u64 = load_u64_le_partial(buf, p, inside);
            let shift: u64 = (8 - inside as u64) * 8;
            let valid: u64 = (!0u64 << shift) >> shift;
            let ghost test = word_masked(and_mask, want, neg);
            proof {
                assert forall|i: int| 0 <= i < 8 implies #[trigger] byte_of(valid, i) == if p + i
                    < buf@.len() {
                    0xff
                } else {
                    0u8
                } by {
                    let s = (8 * i) as u64;
                    assert((((!0u64 << shift) >> shift) >> s) as u8 == if s + shift < 64 {
                        0xff
                    } else {
                        0u8
                    }) by (bit_vector)
                        requires
                            s < 64,
                            shift < 64,
                            s % 8 == 0,
                            shift % 8 == 0,
                    ;
                }
                assert forall|i: int| 0 <= i < 8 implies #[trigger] window_at(
                    buf@,
                    p as int,
                    test,
                    i,
                ) == (byte_of(valid, i) != 0 ==> test(i, byte_of(data, i))) by {}
            }
            let r = validate_mask(data, valid, and_mask, want, neg);
            proof {
                if !r {
                    let i = choose|i: int|
                        0 <= i < 8 && byte_of(valid, i) != 0 && !#[trigger] test(
                            i,
                            byte_of(data, i),
                        );
                    assert(!window_at(buf@, p as int, test, i));
                }
            }
            r
        },
    }
}

/// Byte `c` is in a class of 256 bits, of which some may be missing.
pub open spec fn in_reach(reach: Seq<u8>, c: u8) -> bool {
    (c >> 3) < reach.len() && reach[(c >> 3) as int] & (1u8 << (c & 7)) != 0
}

/// Whether byte `c` is in the class.
pub fn reach_has_bit(reach: &[u8], c: u8) -> (r: bool)
    ensures
        r == in_reach(reach@, c),
{
    let i: usize = (c >> 3) as usize;
    if i < reach.len() {
        proof {
            lemma_seven(c);
        }
        reach[i] & (1u8 << (c & 7)) != 0
    } else {
        false
    }
}

/// The byte at `p` is in the class, or outside the block.
pub open spec fn single_lookaround_passes(buf: Seq<u8>, reach: Seq<u8>, p: int) -> bool {
    0 <= p < buf.len() ==> in_reach(reach, buf[p])
}

/// Tests one byte at `end + check_offset` against a class. Outside the block,
/// in front of its start or behind its end, the test passes.
pub fn check_single_lookaround(buf: &[u8], reach: &[u8], check_offset: i8, end: u64) -> (r: bool)
    ensures
        r == single_lookaround_passes(buf@, reach@, end + check_offset),
{
    match locate(end, check_offset as i32, buf.len()) {
        Place::Before => true,
        Place::Beyond => true,
        Place::At(p) => reach_has_bit(reach, buf[p]),
    }
}

/// Where entry `k` of a lookaround looks.
pub open spec fn look_position(look: Seq<u8>, end: u64, k: int) -> int {
    end + (look[k] as i8)
}

/// No entry up to `k` looks behind the end.
pub open spec fn in_sight(buf: Seq<u8>, look: Seq<u8>, end: u64, k: int) -> bool {
    forall|j: int| 0 <= j <= k ==> #[trigger] look_position(look, end, j) < buf.len()
}

/// Entry `k` of a lookaround holds: it looks in front of the block, or finds a
/// byte of its class.
pub open spec fn look_holds(
    buf: Seq<u8>,
    look: Seq<u8>,
    reach: Seq<u8>,
    end: u64,
    k: int,
) -> bool {
    let p = look_position(look, end, k);
    p < 0 || in_reach(reach.subrange(32 * k, 32 * k + 32), buf[p])
}

/// A list of lookaround entries. The first one must not look in front of the
/// block. The list is taken as ordered: from the first entry that looks behind
/// the end on, entries are not tested.
pub open spec fn lookaround(
    buf: Seq<u8>,
    look: Seq<u8>,
    reach: Seq<u8>,
    count: int,
    end: u64,
) -> Result<bool, InterpError> {
    if count == 0 {
        Ok(true)
    } else if count > look.len() || 32 * count > reach.len() {
        Err(InterpError::ProgramOverrun)
    } else {
        Ok(
            look_position(look, end, 0) >= 0 && forall|k: int|
                0 <= k < count && in_sight(buf, look, end, k) ==> #[trigger] look_holds(
                    buf,
                    look,
                    reach,
                    end,
                    k,
                ),
        )
    }
}

/// Tests a list of bytes around `end` against a list of classes.
pub fn check_lookaround(buf: &[u8], look: &[u8], reach: &[u8], count: usize, end: u64) -> (r: Result<
    bool,
    InterpError,
>)
    ensures
        r == lookaround(buf@, look@, reach@, count as int, end),
{
    if count == 0 {
        return Ok(true);
    }
    if count > look.len() || count > reach.len() / 32 {
        return Err(InterpError::ProgramOverrun);
    }
    if let Place::Before = locate(end, look[0] as i8 as i32, buf.len()) {
        return Ok(false);
    }
    let mut k: usize = 0;
    while k < count
        invariant
            k <= count,
            0 < count <= look@.len(),
            32 * count <= reach@.len() <= usize::MAX,
            look_position(look@, end, 0) >= 0,
            forall|j: int| 0 <= j < k ==> #[trigger] look_position(look@, end, j) < buf@.len(),
            forall|j: int| 0 <= j < k ==> #[trigger] look_holds(buf@, look@, reach@, end, j),
        decreases count - k,
    {
        let ghost p = look_position(look@, end, k as int);
        match locate(end, look[k] as i8 as i32, buf.len()) {
            Place::Before => {},
            Place::Beyond => {
                assert forall|j: int| 0 <= j < count && in_sight(buf@, look@, end, j) implies #[trigger] look_holds(
                buf@, look@, reach@, end, j) by {
                    assert(look_position(look@, end, k as int) >= buf@.len());
                    assert(j < k);
                }
                return Ok(true);
            },
            Place::At(p) => {
                let class = vstd::slice::slice_subrange(reach, 32 * k, 32 * k + 32);
                if !reach_has_bit(class, buf[p]) {
                    assert(!look_holds(buf@, look@, reach@, end, k as int));
                    assert(in_sight(buf@, look@, end, k as int));
                    return Ok(false);
                }
            },
        }
        k = k + 1;
    }
    Ok(true)
}

/// A letter without its case, by ASCII.
pub open spec fn lower(c: u8) -> u8 {
    if 0x41 <= c <= 0x5a {
        (c + 0x20) as u8
    } else {
        c
    }
}

fn to_lower(c: u8) -> (r: u8)
    ensures
        r == lower(c),
{
    if 0x41 <= c && c <= 0x5a {
        c + 0x20
    } else {
        c
    }
}

/// Two bytes are equal, case aside where that is asked for.
pub open spec fn same_letter(a: u8, b: u8, nocase: bool) -> bool {
    if nocase {
        lower(a) == lower(b)
    } else {
        a == b
    }
}

/// The `length` bytes that end at `end` are the first ones of `lit`.
pub open spec fn literal_ends_at(
    buf: Seq<u8>,
    lit: Seq<u8>,
    length: int,
    end: int,
    nocase: bool,
) -> bool {
    &&& length <= end <= buf.len()
    &&& length <= lit.len()
    &&& forall|i: int|
        0 <= i < length ==> same_letter(buf[end - length + i], #[trigger] lit[i], nocase)
}

/// Tests the bytes that end at `end` against a literal.
pub fn check_med_lit(buf: &[u8], lit: &[u8], lit_length: usize, end: u64, nocase: bool) -> (r: bool)
    ensures
        r == literal_ends_at(buf@, lit@, lit_length as int, end as int, nocase),
{
    if end < lit_length as u64 || lit_length > lit.len() || end > buf.len() as u64 {
        return false;
    }
    let start: usize = end as usize - lit_length;
    let mut k: usize = 0;
    while k < lit_length
        invariant
            k <= lit_length <= lit@.len(),
            start + lit_length == end,
            end <= buf@.len() <= usize::MAX,
            forall|i: int|
                0 <= i < k ==> same_letter(buf@[start + i], #[trigger] lit@[i], nocase),
        decreases lit_length - k,
    {
        let a: u8 = buf[start + k];
        let b: u8 = lit[k];
        let same = if nocase {
            to_lower(a) == to_lower(b)
        } else {
            a == b
        };
        if !same {
            assert(!same_letter(buf@[end - lit_length + k], lit@[k as int], nocase));
            return false;
        }
        k = k + 1;
    }
    true
}

} // verus!
