//! CRC-32C (Castagnoli), without the usual inversion before and after.

use vstd::prelude::*;

verus! {

/// The polynomial, lowest power highest.
pub const POLY_REFLECTED: u32 = 0x82f6_3b78;

/// One bit of the division.
pub open spec fn crc_bit(c: u32) -> u32 {
    if c & 1 != 0 {
        POLY_REFLECTED ^ (c >> 1)
    } else {
        c >> 1
    }
}

/// `n` bits of the division.
pub open spec fn crc_bits(c: u32, n: nat) -> u32
    decreases n,
{
    if n == 0 {
        c
    } else {
        crc_bit(crc_bits(c, (n - 1) as nat))
    }
}

/// The checksum after one more byte.
pub open spec fn crc_byte(crc: u32, b: u8) -> u32 {
    crc_bits(crc ^ b as u32, 8)
}

/// The checksum of bytes, from `init` on.
pub open spec fn crc(init: u32, data: Seq<u8>) -> u32
    decreases data.len(),
{
    if data.len() == 0 {
        init
    } else {
        crc_byte(crc(init, data.drop_last()), data.last())
    }
}

/// Eight bits at once.
spec fn crc_eight(c: u32) -> u32 {
    crc_bit(crc_bit(crc_bit(crc_bit(crc_bit(crc_bit(crc_bit(crc_bit(c))))))))
}

proof fn lemma_eight(c: u32)
    ensures
        crc_bits(c, 8) == crc_eight(c),
{
    reveal_with_fuel(crc_bits, 9);
}

/// The low byte decides what the eight bits bring in; the rest only moves.
proof fn lemma_table_step(crc: u32, b: u8)
    ensures
        (crc ^ b as u32) & 0xff < 256,
        crc_byte(crc, b) == crc_bits((crc ^ b as u32) & 0xff, 8) ^ (crc >> 8),
{
    let x = crc ^ b as u32;
    lemma_eight(x);
    lemma_eight(x & 0xff);
    assert(crc_eight(x) == crc_eight(x & 0xff) ^ (x >> 8)) by (bit_vector);
    assert((crc ^ b as u32) >> 8 == crc >> 8 && (crc ^ b as u32) & 0xff < 256) by (bit_vector);
}

/// The checksums of the 256 bytes.
pub fn make_table() -> (r: [u32; 256])
    ensures
        forall|i: int| 0 <= i < 256 ==> #[trigger] r@[i] == crc_bits(i as u32, 8),
{
    let mut table: [u32; 256] = [0u32; 256];
    let mut i: usize = 0;
    while i < 256
        invariant
            i <= 256,
            forall|j: int| 0 <= j < i ==> #[trigger] table@[j] == crc_bits(j as u32, 8),
        decreases 256 - i,
    {
        let mut c: u32 = i as u32;
        let mut k: u32 = 0;
        while k < 8
            invariant
                k <= 8,
                i < 256,
                c == crc_bits(i as u32, k as nat),
            decreases 8 - k,
        {
            c =
            if c & 1 != 0 {
                POLY_REFLECTED ^ (c >> 1)
            } else {
                c >> 1
            };
            k = k + 1;
        }
        table[i] = c;
        i = i + 1;
    }
    table
}

/// The checksum of `data`, from `init` on.
pub fn crc32c_raw(init: u32, data: &[u8]) -> (r: u32)
    ensures
        r == crc(init, data@),
{
    let table = make_table();
    let mut sum: u32 = init;
    let mut k: usize = 0;
    assert(data@.take(0) =~= Seq::empty());
    while k < data.len()
        invariant
            k <= data@.len(),
            forall|i: int| 0 <= i < 256 ==> #[trigger] table@[i] == crc_bits(i as u32, 8),
            sum == crc(init, data@.take(k as int)),
        decreases data@.len() - k,
    {
        let b: u8 = data[k];
        proof {
            lemma_table_step(sum, b);
            assert(data@.take(k + 1).drop_last() =~= data@.take(k as int));
        }
        let index: usize = ((sum ^ b as u32) & 0xff) as usize;
        sum = table[index] ^ (sum >> 8);
        k = k + 1;
    }
    assert(data@.take(k as int) =~= data@);
    sum
}

/// A checksum can be taken piece by piece: the checksum of what follows goes on
/// from the checksum of what came first.
pub proof fn crc_of_concatenation(init: u32, a: Seq<u8>, b: Seq<u8>)
    ensures
        crc(init, a + b) == crc(crc(init, a), b),
    decreases b.len(),
{
    if b.len() == 0 {
        assert(a + b =~= a);
    } else {
        crc_of_concatenation(init, a, b.drop_last());
        assert((a + b).drop_last() =~= a + b.drop_last());
    }
}

proof fn lemma_xor_cancels(a: u32, b: u32, c: u32)
    ensures
        a ^ c == b ^ c ==> a == b,
        c ^ a == c ^ b ==> a == b,
{
    assert((a ^ c == b ^ c ==> a == b) && (c ^ a == c ^ b ==> a == b)) by (bit_vector);
}

proof fn lemma_bit_injective(a: u32, b: u32)
    requires
        crc_bit(a) == crc_bit(b),
    ensures
        a == b,
{
    assert(crc_bit(a) == crc_bit(b) ==> a == b) by (bit_vector);
}

proof fn lemma_bits_injective(a: u32, b: u32, n: nat)
    requires
        crc_bits(a, n) == crc_bits(b, n),
    ensures
        a == b,
    decreases n,
{
    if n > 0 {
        lemma_bit_injective(crc_bits(a, (n - 1) as nat), crc_bits(b, (n - 1) as nat));
        lemma_bits_injective(a, b, (n - 1) as nat);
    }
}

/// Different states stay different, whatever bytes follow.
pub proof fn crc_keeps_difference(x: u32, y: u32, data: Seq<u8>)
    requires
        x != y,
    ensures
        crc(x, data) != crc(y, data),
    decreases data.len(),
{
    if data.len() > 0 {
        crc_keeps_difference(x, y, data.drop_last());
        let a = crc(x, data.drop_last());
        let c = crc(y, data.drop_last());
        let b = data.last() as u32;
        if crc(x, data) == crc(y, data) {
            lemma_bits_injective(a ^ b, c ^ b, 8);
            lemma_xor_cancels(a, c, b);
        }
    }
}

/// A change of a single byte, however large, changes the checksum.
pub proof fn crc_detects_changed_byte(init: u32, data: Seq<u8>, k: int, b: u8)
    requires
        0 <= k < data.len(),
        data[k] != b,
    ensures
        crc(init, data) != crc(init, data.update(k, b)),
{
    let head = data.take(k);
    let tail = data.skip(k + 1);
    let state = crc(init, head);
    let was = data[k];
    assert(data =~= head.push(was) + tail);
    assert(data.update(k, b) =~= head.push(b) + tail);
    crc_of_concatenation(init, head.push(was), tail);
    crc_of_concatenation(init, head.push(b), tail);
    assert(head.push(was).drop_last() =~= head);
    assert(head.push(b).drop_last() =~= head);
    if crc_byte(state, was) == crc_byte(state, b) {
        lemma_bits_injective(state ^ was as u32, state ^ b as u32, 8);
        lemma_xor_cancels(was as u32, b as u32, state);
    }
    crc_keeps_difference(crc_byte(state, was), crc_byte(state, b), tail);
}

} // verus!
