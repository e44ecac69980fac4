//! Facts about bits and bytes of words.

use vstd::prelude::*;

use crate::bytes::{byte_of, le64};
use crate::simd::lanes::bit64;

verus! {

/// Bytes under `|`.
pub proof fn lemma_or(a: u8, b: u8, c: u8)
    ensures
        (a | b) | c == a | (b | c),
        a | b == b | a,
        a | 0 == a,
        0 | a == a,
        0xff | a == 0xff,
        a | 0xff == 0xff,
        !0xffu8 == 0,
{
    assert((a | b) | c == a | (b | c) && a | b == b | a && a | 0 == a && 0 | a == a && 0xff | a
        == 0xff && a | 0xff == 0xff && !0xffu8 == 0) by (bit_vector);
}

/// Bytes and words under `&`.
pub proof fn lemma_and(x: u8, y: u8, a: u64, b: u64)
    ensures
        x & y == y & x,
        x & 0 == 0,
        x & 1 == x % 2,
        1u8 << 7 == 0x80u8,
        0xffu8 & !(1u8 << 5) == 0xdfu8,
        a & b == b & a,
{
    assert(x & y == y & x && x & 0 == 0 && x & 1 == x % 2 && 1u8 << 7 == 0x80u8 && 0xffu8 & !(1u8
        << 5) == 0xdfu8 && a & b == b & a) by (bit_vector);
}

/// Bits of words under `&` and `|`.
pub proof fn lemma_groups(a: u64, b: u64, g: int)
    requires
        0 <= g < 64,
    ensures
        bit64(a & b, g) <==> bit64(a, g) && bit64(b, g),
        bit64(a | b, g) <==> bit64(a, g) || bit64(b, g),
        !bit64(0, g),
{
    let k = g as u64;
    assert((((a & b) >> k) & 1 == 1 <==> (a >> k) & 1 == 1 && (b >> k) & 1 == 1) && (((a | b) >> k)
        & 1 == 1 <==> (a >> k) & 1 == 1 || (b >> k) & 1 == 1) && (0u64 >> k) & 1 != 1)
        by (bit_vector);
}

/// A word, or a byte, as a signed number.
pub proof fn lemma_signed(x: u32)
    ensures
        x as i32 == if x < 0x8000_0000 {
            x as int
        } else {
            x - 0x1_0000_0000
        },
        x as u8 as i8 == if (x as u8) < 128 {
            x as u8 as int
        } else {
            x as u8 - 256
        },
{
    let b = x as u8;
    assert((x < 0x8000_0000u32 ==> x as i32 == x) && (x >= 0x8000_0000u32 ==> x as i32 == x
        - 0x1_0000_0000) && (b < 128 ==> b as i8 == b) && (b >= 128 ==> b as i8 == b - 256))
        by (bit_vector);
}

/// A word is made of its bytes.
pub proof fn lemma_word_is(w: u64, s: Seq<u8>)
    requires
        forall|i: int| 0 <= i < 8 ==> #[trigger] byte_of(w, i) == s[i],
    ensures
        w == le64(s, 0),
{
    assert(byte_of(w, 0) == s[0] && byte_of(w, 1) == s[1] && byte_of(w, 2) == s[2] && byte_of(w, 3)
        == s[3] && byte_of(w, 4) == s[4] && byte_of(w, 5) == s[5] && byte_of(w, 6) == s[6]
        && byte_of(w, 7) == s[7]);
    assert(w == ((w >> 0) as u8 as u64) | (((w >> 8) as u8 as u64) << 8) | (((w >> 16) as u8 as u64)
        << 16) | (((w >> 24) as u8 as u64) << 24) | (((w >> 32) as u8 as u64) << 32) | (((w
        >> 40) as u8 as u64) << 40) | (((w >> 48) as u8 as u64) << 48) | (((w >> 56) as u8 as u64)
        << 56)) by (bit_vector);
}

/// A bit and the byte that it is in.
pub proof fn lemma_byte(w: u64, n: int)
    requires
        0 <= n < 64,
    ensures
        byte_of(!w, n / 8) == !byte_of(w, n / 8),
        byte_of(w, n / 8) == 0 ==> !bit64(w, n),
{
    let k = n as u64;
    let t = (8 * (n / 8)) as u64;
    assert(((!w) >> t) as u8 == !((w >> t) as u8) && ((w >> t) as u8 == 0 ==> (w >> k) & 1 != 1))
        by (bit_vector)
        requires
            t <= 56,
            t <= k,
            k < t + 8,
    ;
}

/// The nibbles of a byte: both index a table of 16, and neither is changed by
/// what a shift of a whole word brings in above it.
pub proof fn lemma_nibbles(c: u8, above: u8)
    ensures
        c & 0x0f < 16,
        c >> 4 < 16,
        c & 0x0f == c % 16,
        c >> 4 == c / 16,
        c & 7 == c % 8,
        c >> 3 == c / 8,
        ((c >> 4) | (above << 4)) & 0x0f == c >> 4,
        ((c >> 4) | 0) & 0x0f == c >> 4,
        (c & 0x0f) & 0x80 == 0,
        (c >> 4) & 0x80 == 0,
        (c & 0x0f) & 0x0f == c & 0x0f,
        (c >> 4) & 0x0f == c >> 4,
{
    assert(c & 0x0f < 16 && c >> 4 < 16 && c & 0x0f == c % 16 && c >> 4 == c / 16 && c & 7 == c % 8
        && c >> 3 == c / 8 && ((c >> 4) | (above << 4)) & 0x0f == c >> 4 && ((c >> 4)
        | 0) & 0x0f == c >> 4 && (c & 0x0f) & 0x80 == 0 && (c >> 4) & 0x80 == 0 && (c & 0x0f) & 0x0f
        == c & 0x0f && (c >> 4) & 0x0f == c >> 4) by (bit_vector);
}

/// The bytes of zero.
pub proof fn lemma_zero_byte(i: int)
    requires
        0 <= i < 8,
    ensures
        byte_of(0, i) == 0,
{
    let t = (8 * i) as u64;
    assert((0u64 >> t) as u8 == 0) by (bit_vector);
}

/// The bits of zero, and of its complement.
pub proof fn lemma_plain_bits(b: int)
    requires
        0 <= b < 64,
    ensures
        !bit64(0, b),
        bit64(!0u64, b),
{
    let c = b as u64;
    assert((0u64 >> c) & 1 != 1 && (!0u64 >> c) & 1 == 1) by (bit_vector)
        requires
            c < 64,
    ;
}

/// A mask with its `n` lowest bits set.
pub fn low_bits(n: u32) -> (r: u32)
    requires
        n <= 32,
    ensures
        forall|i: int| 0 <= i < 32 ==> ((#[trigger] (r >> (i as u32))) & 1 == 1 <==> i < n),
        n <= 16 ==> r <= 0xffff,
{
    let s: u32 = 32 - n;
    let r: u32 = if n == 0 {
        0
    } else {
        !0u32 >> s
    };
    assert forall|i: int| 0 <= i < 32 implies ((#[trigger] (r >> (i as u32))) & 1 == 1 <==> i < n) by {
        let k = i as u32;
        assert((s < 32 ==> (((!0u32 >> s) >> k) & 1 == 1 <==> k + s < 32)) && (0u32 >> k) & 1 != 1)
            by (bit_vector)
            requires
                k < 32,
        ;
    }
    assert(16 <= s < 32 ==> !0u32 >> s <= 0xffff) by (bit_vector);
    r
}

/// Three bits.
pub proof fn lemma_seven(c: u8)
    ensures
        c & 7 < 8,
{
    assert(c & 7 < 8) by (bit_vector);
}

/// How the nibbles of a byte choose from the tables of a truffle class.
pub proof fn lemma_truffle(b: u8, next: u8)
    ensures
        b & 0x0f < 16,
        b >> 4 < 16,
        b & 0x80 == 0 <==> b < 0x80,
        (b ^ 0x80) & 0x80 == 0 <==> b >= 0x80,
        (b ^ 0x80) & 0x0f == b & 0x0f,
        (((b >> 4) | (next << 4)) & !0x80u8) & 0x0f == b >> 4,
        (((b >> 4) | 0) & !0x80u8) & 0x0f == b >> 4,
        (((b >> 4) | (next << 4)) & !0x80u8) & 0x80 == 0,
        (((b >> 4) | 0) & !0x80u8) & 0x80 == 0,
        byte_of(0x8040_2010_0804_0201, ((b >> 4) & 7) as int) == 1u8 << ((b >> 4) & 7),
        (b >> 4) & 7 == (b >> 4) % 8,
{
    let k = (b >> 4) & 7;
    assert(b & 0x0f < 16 && b >> 4 < 16 && (b & 0x80 == 0 <==> b < 0x80) && ((b ^ 0x80) & 0x80 == 0
        <==> b >= 0x80) && (b ^ 0x80) & 0x0f == b & 0x0f && (((b >> 4) | (next << 4)) & !0x80u8)
        & 0x0f == b >> 4 && (((b >> 4) | 0) & !0x80u8) & 0x0f == b >> 4 && (((b >> 4) | (next << 4))
        & !0x80u8) & 0x80 == 0 && (((b >> 4) | 0) & !0x80u8) & 0x80 == 0 && (b >> 4) & 7 == (b >> 4)
        % 8 && (b >> 4) & 7 < 8) by (bit_vector);
    assert((0x8040_2010_0804_0201u64 >> (8 * (k as u64)) as u64) as u8 == 1u8 << k) by (bit_vector)
        requires
            k < 8,
    ;
}

/// Bit `j` of a byte.
pub open spec fn bit8(x: u8, j: int) -> bool {
    (x >> (j as u8)) & 1 == 1
}

/// Setting, clearing and testing bits of bytes.
pub proof fn lemma_bit8(x: u8, y: u8, r: int, j: int)
    requires
        0 <= r < 8,
        0 <= j < 8,
    ensures
        bit8(x | (1u8 << (r as u8)), j) <==> bit8(x, j) || j == r,
        bit8(x & !(1u8 << (r as u8)), j) <==> bit8(x, j) && j != r,
        x & (1u8 << (r as u8)) != 0 <==> bit8(x, r),
        bit8(x | y, j) <==> bit8(x, j) || bit8(y, j),
        bit8(x & y, j) <==> bit8(x, j) && bit8(y, j),
        bit8(x ^ y, j) <==> bit8(x, j) != bit8(y, j),
        bit8(!x, j) <==> !bit8(x, j),
        bit64(x as u64, j) == bit8(x, j),
        !bit8(0, j),
        bit8(0xff, j),
        x | x == x,
        x & 0 == 0,
{
    let a = r as u8;
    let b = j as u8;
    assert((((x | (1u8 << a)) >> b) & 1 == 1 <==> (x >> b) & 1 == 1 || b == a) && (((x & !(1u8 << a))
        >> b) & 1 == 1 <==> (x >> b) & 1 == 1 && b != a) && (x & (1u8 << a) != 0 <==> (x >> a) & 1
        == 1) && (((x | y) >> b) & 1 == 1 <==> (x >> b) & 1 == 1 || (y >> b) & 1 == 1) && (((x & y)
        >> b) & 1 == 1 <==> (x >> b) & 1 == 1 && (y >> b) & 1 == 1) && (((x ^ y) >> b) & 1 == 1
        <==> ((x >> b) & 1 == 1) != ((y >> b) & 1 == 1)) && (((!x) >> b) & 1 == 1 <==> (x >> b) & 1
        != 1) && (((x as u64) >> (b as u64)) & 1 == 1 <==> (x >> b) & 1 == 1) && (0u8 >> b)
        & 1 != 1 && (0xffu8 >> b) & 1 == 1 && x | x == x && x & 0 == 0) by (bit_vector)
        requires
            a < 8,
            b < 8,
    ;
}

/// A byte is known by its bits.
pub proof fn lemma_same_bits(x: u8, y: u8)
    ensures
        x == y <==> forall|j: int| 0 <= j < 8 ==> #[trigger] bit8(x, j) == bit8(y, j),
{
    assert(((x >> 0) & 1 == 1) == ((y >> 0) & 1 == 1) && ((x >> 1) & 1 == 1) == ((y >> 1) & 1 == 1)
        && ((x >> 2) & 1 == 1) == ((y >> 2) & 1 == 1) && ((x >> 3) & 1 == 1) == ((y >> 3) & 1 == 1)
        && ((x >> 4) & 1 == 1) == ((y >> 4) & 1 == 1) && ((x >> 5) & 1 == 1) == ((y >> 5) & 1 == 1)
        && ((x >> 6) & 1 == 1) == ((y >> 6) & 1 == 1) && ((x >> 7) & 1 == 1) == ((y >> 7) & 1 == 1)
        ==> x == y) by (bit_vector);
    if forall|j: int| 0 <= j < 8 ==> #[trigger] bit8(x, j) == bit8(y, j) {
        assert(bit8(x, 0) == bit8(y, 0) && bit8(x, 1) == bit8(y, 1) && bit8(x, 2) == bit8(y, 2)
            && bit8(x, 3) == bit8(y, 3) && bit8(x, 4) == bit8(y, 4) && bit8(x, 5) == bit8(y, 5)
            && bit8(x, 6) == bit8(y, 6) && bit8(x, 7) == bit8(y, 7));
    }
}

/// The bits of a byte that a mask selects are the wanted ones, and no other
/// bit is wanted.
pub open spec fn as_wanted(c: u8, mask: u8, want: u8) -> bool {
    forall|j: int| 0 <= j < 8 ==> #[trigger] bit8(want, j) == (bit8(mask, j) && bit8(c, j))
}

/// A byte under a mask is a wanted one.
pub proof fn lemma_masked(c: u8, mask: u8, want: u8)
    ensures
        (mask & c == want) == as_wanted(c, mask, want),
        (c & mask == want) == as_wanted(c, mask, want),
{
    lemma_same_bits(want, mask & c);
    lemma_same_bits(mask & c, c & mask);
    assert forall|j: int| 0 <= j < 8 implies #[trigger] bit8(mask & c, j) == (bit8(mask, j)
        && bit8(c, j)) && bit8(c & mask, j) == bit8(mask & c, j) by {
        lemma_bit8(mask, c, 0, j);
        lemma_bit8(c, mask, 0, j);
    }
    if mask & c == want {
        assert forall|j: int| 0 <= j < 8 implies #[trigger] bit8(want, j) == (bit8(mask, j)
            && bit8(c, j)) by {
            assert(bit8(mask & c, j) == (bit8(mask, j) && bit8(c, j)));
        }
    }
    if as_wanted(c, mask, want) {
        assert forall|j: int| 0 <= j < 8 implies #[trigger] bit8(want, j) == bit8(mask & c, j) by {
            assert(bit8(mask & c, j) == (bit8(mask, j) && bit8(c, j)));
        }
    }
}

/// A byte with all bits set.
pub proof fn lemma_full(x: u8)
    ensures
        x == 0xff <==> forall|j: int| 0 <= j < 8 ==> #[trigger] bit8(x, j),
{
    assert forall|j: int| 0 <= j < 8 implies #[trigger] bit8(0xff, j) by {
        lemma_bit8(0, 0, 0, j);
    }
    lemma_same_bits(x, 0xff);
}

/// A byte is known by its nibbles, and by its half, its low nibble and the
/// rest of its high nibble.
pub proof fn lemma_same_byte(a: u8, b: u8)
    ensures
        a & 0x0f == b & 0x0f && a >> 4 == b >> 4 ==> a == b,
        (a < 0x80) == (b < 0x80) && a & 0x0f == b & 0x0f && (a >> 4) & 7 == (b >> 4) & 7 ==> a == b,
{
    assert((a & 0x0f == b & 0x0f && a >> 4 == b >> 4 ==> a == b) && ((a < 0x80) == (b < 0x80) && a
        & 0x0f == b & 0x0f && (a >> 4) & 7 == (b >> 4) & 7 ==> a == b)) by (bit_vector);
}

} // verus!
