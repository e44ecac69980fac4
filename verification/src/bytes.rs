//! Little-endian reads from untrusted byte strings.

use vstd::prelude::*;

use crate::bits::{lemma_or, lemma_zero_byte};

verus! {

/// The 16-bit word whose low byte is `s[off]`.
pub open spec fn le16(s: Seq<u8>, off: int) -> u16 {
    (s[off] as u16) | ((s[off + 1] as u16) << 8)
}

/// The 32-bit word whose low byte is `s[off]`.
pub open spec fn le32(s: Seq<u8>, off: int) -> u32 {
    (s[off] as u32) | ((s[off + 1] as u32) << 8) | ((s[off + 2] as u32) << 16) | ((s[off + 3] as u32)
        << 24)
}

/// The 64-bit word whose low byte is `s[off]`.
pub open spec fn le64(s: Seq<u8>, off: int) -> u64 {
    (s[off] as u64) | ((s[off + 1] as u64) << 8) | ((s[off + 2] as u64) << 16) | ((s[off + 3] as u64)
        << 24) | ((s[off + 4] as u64) << 32) | ((s[off + 5] as u64) << 40) | ((s[off + 6] as u64)
        << 48) | ((s[off + 7] as u64) << 56)
}

/// `n` bytes can be read at `off`.
pub open spec fn fits(s: Seq<u8>, off: int, n: int) -> bool {
    0 <= off && off + n <= s.len()
}

/// The 16-bit word at `off`, if it lies inside `s`.
pub open spec fn opt_le16(s: Seq<u8>, off: int) -> Option<u16> {
    if fits(s, off, 2) {
        Some(le16(s, off))
    } else {
        None
    }
}

/// The 32-bit word at `off`, if it lies inside `s`.
pub open spec fn opt_le32(s: Seq<u8>, off: int) -> Option<u32> {
    if fits(s, off, 4) {
        Some(le32(s, off))
    } else {
        None
    }
}

/// The 64-bit word at `off`, if it lies inside `s`.
pub open spec fn opt_le64(s: Seq<u8>, off: int) -> Option<u64> {
    if fits(s, off, 8) {
        Some(le64(s, off))
    } else {
        None
    }
}

/// Byte `i` of a word, the lowest first.
pub open spec fn byte_of(word: u64, i: int) -> u8 {
    (word >> ((8 * i) as u64)) as u8
}

/// The byte at `p`, or zero outside the buffer: a block scan has neither
/// history before the buffer nor a future after it.
pub open spec fn byte_or_zero(s: Seq<u8>, p: int) -> u8 {
    if 0 <= p < s.len() {
        s[p]
    } else {
        0
    }
}

/// Reads a 16-bit word that is known to lie inside `b`.
pub fn read_u16(b: &[u8], off: usize) -> (r: u16)
    requires
        fits(b@, off as int, 2),
    ensures
        r == le16(b@, off as int),
{
    (b[off] as u16) | ((b[off + 1] as u16) << 8)
}

/// Reads a 32-bit word that is known to lie inside `b`.
pub fn read_u32(b: &[u8], off: usize) -> (r: u32)
    requires
        fits(b@, off as int, 4),
    ensures
        r == le32(b@, off as int),
{
    (b[off] as u32) | ((b[off + 1] as u32) << 8) | ((b[off + 2] as u32) << 16) | ((b[off + 3] as u32)
        << 24)
}

/// Reads a 64-bit word that is known to lie inside `b`.
pub fn read_u64(b: &[u8], off: usize) -> (r: u64)
    requires
        fits(b@, off as int, 8),
    ensures
        r == le64(b@, off as int),
{
    (b[off] as u64) | ((b[off + 1] as u64) << 8) | ((b[off + 2] as u64) << 16) | ((b[off + 3] as u64)
        << 24) | ((b[off + 4] as u64) << 32) | ((b[off + 5] as u64) << 40) | ((b[off + 6] as u64)
        << 48) | ((b[off + 7] as u64) << 56)
}

/// Whether `n` bytes can be read at `off`, with no overflow on any platform.
pub fn in_range(b: &[u8], off: u64, n: u64) -> (r: bool)
    ensures
        r == fits(b@, off as int, n as int),
        r ==> off + n <= usize::MAX,
{
    let len: u64 = b.len() as u64;
    off <= len && len - off >= n
}

/// The 16-bit word at `off`, or `None` outside the table.
pub fn u16_le(b: &[u8], off: u64) -> (r: Option<u16>)
    ensures
        r == opt_le16(b@, off as int),
{
    if in_range(b, off, 2) {
        Some(read_u16(b, off as usize))
    } else {
        None
    }
}

/// The 32-bit word at `off`, or `None` outside the table.
pub fn u32_le(b: &[u8], off: u64) -> (r: Option<u32>)
    ensures
        r == opt_le32(b@, off as int),
{
    if in_range(b, off, 4) {
        Some(read_u32(b, off as usize))
    } else {
        None
    }
}

/// The 64-bit word at `off`, or `None` outside the table.
pub fn u64_le(b: &[u8], off: u64) -> (r: Option<u64>)
    ensures
        r == opt_le64(b@, off as int),
{
    if in_range(b, off, 8) {
        Some(read_u64(b, off as usize))
    } else {
        None
    }
}

/// Up to 16 bytes, with zeroes behind them.
pub fn padded(slice: &[u8]) -> (r: [u8; 16])
    requires
        slice@.len() <= 16,
    ensures
        forall|i: int|
            0 <= i < 16 ==> #[trigger] r@[i] == if i < slice@.len() {
                slice@[i]
            } else {
                0
            },
{
    let mut tmp: [u8; 16] = [0u8;16];
    assert(tmp == vstd::array::spec_array_fill_for_copy_type::<u8, 16>(0));
    let mut k: usize = 0;
    while k < slice.len()
        invariant
            k <= slice@.len() <= 16,
            forall|i: int| 0 <= i < k ==> #[trigger] tmp@[i] == slice@[i],
            forall|i: int| k <= i < 16 ==> #[trigger] tmp@[i] == 0,
        decreases slice@.len() - k,
    {
        tmp[k] = slice[k];
        k = k + 1;
    }
    tmp
}

/// The `k` bytes from `off` on as a word, the first one lowest.
pub fn load_u64_le_partial(buf: &[u8], off: usize, k: usize) -> (r: u64)
    requires
        k <= 8,
        off + k <= buf.len(),
    ensures
        forall|i: int|
            0 <= i < 8 ==> #[trigger] byte_of(r, i) == if i < k {
                buf@[off + i]
            } else {
                0
            },
{
    let mut v: u64 = 0;
    let mut n: usize = 0;
    assert forall|i: int| 0 <= i < 8 implies #[trigger] byte_of(v, i) == 0 by {
        lemma_zero_byte(i);
    }
    while n < k
        invariant
            n <= k <= 8,
            off + k <= buf@.len() <= usize::MAX,
            forall|i: int|
                0 <= i < 8 ==> #[trigger] byte_of(v, i) == if i < n {
                    buf@[off + i]
                } else {
                    0
                },
        decreases k - n,
    {
        let b: u64 = buf[off + n] as u64;
        let s: u64 = n as u64 * 8;
        let longer: u64 = v | (b << s);
        proof {
            assert forall|i: int| 0 <= i < 8 implies #[trigger] byte_of(longer, i) == if i < n + 1 {
                buf@[off + i]
            } else {
                0
            } by {
                let t: u64 = (8 * i) as u64;
                assert(byte_of(v, i) == if i < n {
                    buf@[off + i]
                } else {
                    0
                });
                assert(((v | (b << s)) >> t) as u8 == if s == t {
                    ((v >> t) as u8) | (b as u8)
                } else {
                    (v >> t) as u8
                }) by (bit_vector)
                    requires
                        s < 64,
                        t < 64,
                        s % 8 == 0,
                        t % 8 == 0,
                        b < 256,
                ;
                lemma_or(b as u8, 0, 0);
            }
        }
        v = longer;
        n = n + 1;
    }
    v
}

/// The bytes of a word are those that it was read from.
pub proof fn lemma_word_bytes(s: Seq<u8>, off: int, i: int)
    requires
        0 <= i < 8,
    ensures
        byte_of(le64(s, off), i) == s[off + i],
{
    let (a, b, c, d) = (s[off], s[off + 1], s[off + 2], s[off + 3]);
    let (e, f, g, h) = (s[off + 4], s[off + 5], s[off + 6], s[off + 7]);
    let w = le64(s, off);
    assert(w as u8 == a && (w >> 8) as u8 == b && (w >> 16) as u8 == c && (w >> 24) as u8 == d && (w
        >> 32) as u8 == e && (w >> 40) as u8 == f && (w >> 48) as u8 == g && (w >> 56) as u8 == h
        && w >> 0 == w) by (bit_vector)
        requires
            w == (a as u64) | ((b as u64) << 8) | ((c as u64) << 16) | ((d as u64) << 24) | ((
            e as u64) << 32) | ((f as u64) << 40) | ((g as u64) << 48) | ((h as u64) << 56),
    ;
    assert(i == 0 || i == 1 || i == 2 || i == 3 || i == 4 || i == 5 || i == 6 || i == 7);
}

/// The number that `n` bytes write, the first one lowest.
pub open spec fn number(s: Seq<u8>, off: int, n: nat) -> nat
    decreases n,
{
    if n == 0 {
        0
    } else {
        s[off] as nat + 256 * number(s, off + 1, (n - 1) as nat)
    }
}

/// Words are read as numbers.
pub proof fn words_are_numbers(s: Seq<u8>, off: int)
    ensures
        le16(s, off) == number(s, off, 2),
        le32(s, off) == number(s, off, 4),
        le64(s, off) == number(s, off, 8),
        (s[off] as u64) | ((s[off + 1] as u64) << 8) == number(s, off, 2),
{
    let (a, b, c, d) = (s[off], s[off + 1], s[off + 2], s[off + 3]);
    let (e, f, g, h) = (s[off + 4], s[off + 5], s[off + 6], s[off + 7]);
    reveal_with_fuel(number, 9);
    assert((a as u16) | ((b as u16) << 8) == a + 0x100 * b && (a as u64) | ((b as u64) << 8) == a
        + 0x100 * b && (a as u32) | ((b as u32) << 8) | ((
    c as u32) << 16) | ((d as u32) << 24) == a + 0x100 * b + 0x1_0000 * c + 0x100_0000 * d && (
    a as u64) | ((b as u64) << 8) | ((c as u64) << 16) | ((d as u64) << 24) | ((e as u64) << 32) | ((
    f as u64) << 40) | ((g as u64) << 48) | ((h as u64) << 56) == a + 0x100 * b + 0x1_0000 * c
        + 0x100_0000 * d + 0x1_0000_0000 * e + 0x100_0000_0000 * f + 0x1_0000_0000_0000 * g
        + 0x100_0000_0000_0000 * h) by (bit_vector);
}

} // verus!
