//! The backend that needs nothing of the machine. Each operation is the
//! definition of the instruction that it stands for.

use vstd::prelude::*;

use crate::bits::{lemma_nibbles, lemma_plain_bits};
use crate::bytes::{byte_of, lemma_word_bytes, read_u64};
use crate::simd::lanes::{bit64, holds, lane_in, mask_wf, LaneMask, MaskOps};
use crate::simd::{shuffled, V128};

verus! {

/// Sixteen bytes in an array.
#[derive(Copy, Clone, Debug)]
pub struct V128Scalar(pub [u8; 16]);

fn byte_at(x: u64, i: usize) -> (r: u8)
    requires
        i < 8,
    ensures
        r == byte_of(x, i as int),
{
    (x >> (8 * i as u64)) as u8
}

/// The mask with one bit a lane in which exactly the given lanes are set.
proof fn lemma_single_bits(bits: u64)
    requires
        forall|b: int| 16 <= b < 64 ==> !#[trigger] bit64(bits, b),
    ensures
        mask_wf(bits, 1),
        forall|i: int| 0 <= i < 16 ==> (#[trigger] lane_in(bits, 1, i) <==> bit64(bits, i)),
{
    assert forall|i: int| 0 <= i < 16 implies (#[trigger] lane_in(bits, 1, i) <==> bit64(
        bits,
        i,
    )) by {
        if bit64(bits, i) {
            assert(holds(bits, 1, i, i));
        }
    }
}

impl V128Scalar {
    /// The lanes at which two vectors are equal, or differ.
    fn lanes_where(self, o: Self, equal: bool) -> (r: LaneMask<1>)
        ensures
            r.wf(),
            forall|i: int|
                0 <= i < 16 ==> (#[trigger] r.lane(i) <==> (self.0@[i] == o.0@[i]) == equal),
    {
        let mut bits: u64 = 0;
        let mut k: usize = 0;
        assert forall|b: int| 0 <= b < 64 implies !#[trigger] bit64(0, b) by {
            lemma_plain_bits(b);
        }
        while k < 16
            invariant
                k <= 16,
                forall|b: int|
                    0 <= b < 64 ==> (#[trigger] bit64(bits, b) <==> b < k && (self.0@[b] == o.0@[b])
                        == equal),
            decreases 16 - k,
        {
            let here = (self.0[k] == o.0[k]) == equal;
            if here {
                let more: u64 = bits | (1u64 << k);
                proof {
                    let n = k as u64;
                    assert forall|b: int| 0 <= b < 64 implies (#[trigger] bit64(more, b) <==> bit64(
                        bits,
                        b,
                    ) || b == k) by {
                        let c = b as u64;
                        assert(((bits | (1u64 << n)) >> c) & 1 == 1 <==> (bits >> c) & 1 == 1 || c
                            == n) by (bit_vector)
                            requires
                                c < 64,
                                n < 64,
                        ;
                    }
                }
                bits = more;
            }
            k = k + 1;
        }
        proof {
            lemma_single_bits(bits);
        }
        let r: LaneMask<1> = LaneMask::from_bits(bits);
        assert forall|i: int| 0 <= i < 16 implies (#[trigger] r.lane(i) <==> (self.0@[i] == o.0@[i])
            == equal) by {
            assert(lane_in(bits, 1, i) <==> bit64(bits, i));
        }
        r
    }
}

impl V128 for V128Scalar {
    type Mask = LaneMask<1>;

    open spec fn lane(self, i: int) -> u8 {
        self.0@[i]
    }

    fn all() -> (r: LaneMask<1>) {
        LaneMask::<1>::all16()
    }

    fn loadu(b: &[u8], at: usize) -> (r: Self) {
        assert(b@.len() == b.len());
        let mut r: [u8; 16] = [0u8; 16];
        let mut k: usize = 0;
        while k < 16
            invariant
                k <= 16,
                at + 16 <= b@.len() <= usize::MAX,
                forall|i: int| 0 <= i < k ==> #[trigger] r@[i] == b@[at + i],
            decreases 16 - k,
        {
            r[k] = b[at + k];
            k = k + 1;
        }
        V128Scalar(r)
    }

    fn splat(b: u8) -> (r: Self) {
        V128Scalar([b;16])
    }

    fn splat_u64(x: u64) -> (r: Self) {
        let mut r: [u8; 16] = [0u8; 16];
        let mut k: usize = 0;
        while k < 16
            invariant
                k <= 16,
                forall|i: int| 0 <= i < k ==> #[trigger] r@[i] == byte_of(x, i % 8),
            decreases 16 - k,
        {
            r[k] = byte_at(x, k % 8);
            k = k + 1;
        }
        V128Scalar(r)
    }

    fn zeroes() -> (r: Self) {
        V128Scalar([0u8;16])
    }

    fn ones() -> (r: Self) {
        V128Scalar([0xffu8;16])
    }

    fn set_low_u64(x: u64) -> (r: Self) {
        let mut r: [u8; 16] = [0u8; 16];
        let mut k: usize = 0;
        while k < 8
            invariant
                k <= 8,
                forall|i: int|
                    0 <= i < 16 ==> #[trigger] r@[i] == if i < k {
                        byte_of(x, i)
                    } else {
                        0
                    },
            decreases 8 - k,
        {
            r[k] = byte_at(x, k);
            k = k + 1;
        }
        V128Scalar(r)
    }

    fn load_low64(b: &[u8], at: usize) -> (r: Self) {
        assert(b@.len() == b.len());
        let mut r: [u8; 16] = [0u8; 16];
        let mut k: usize = 0;
        while k < 8
            invariant
                k <= 8,
                at + 8 <= b@.len() <= usize::MAX,
                forall|i: int|
                    0 <= i < 16 ==> #[trigger] r@[i] == if i < k {
                        b@[at + i]
                    } else {
                        0
                    },
            decreases 8 - k,
        {
            r[k] = b[at + k];
            k = k + 1;
        }
        V128Scalar(r)
    }

    fn to_u64_low(self) -> (r: u64) {
        let r: u64 = read_u64(&self.0, 0);
        proof {
            assert forall|i: int| 0 <= i < 8 implies #[trigger] byte_of(r, i) == self.lane(i) by {
                lemma_word_bytes(self.0@, 0, i);
            }
        }
        r
    }

    fn and(self, o: Self) -> (r: Self) {
        let mut r: [u8; 16] = [0u8; 16];
        let mut k: usize = 0;
        while k < 16
            invariant
                k <= 16,
                forall|i: int| 0 <= i < k ==> #[trigger] r@[i] == self.0@[i] & o.0@[i],
            decreases 16 - k,
        {
            r[k] = self.0[k] & o.0[k];
            k = k + 1;
        }
        V128Scalar(r)
    }

    fn or(self, o: Self) -> (r: Self) {
        let mut r: [u8; 16] = [0u8; 16];
        let mut k: usize = 0;
        while k < 16
            invariant
                k <= 16,
                forall|i: int| 0 <= i < k ==> #[trigger] r@[i] == self.0@[i] | o.0@[i],
            decreases 16 - k,
        {
            r[k] = self.0[k] | o.0[k];
            k = k + 1;
        }
        V128Scalar(r)
    }

    fn xor(self, o: Self) -> (r: Self) {
        let mut r: [u8; 16] = [0u8; 16];
        let mut k: usize = 0;
        while k < 16
            invariant
                k <= 16,
                forall|i: int| 0 <= i < k ==> #[trigger] r@[i] == self.0@[i] ^ o.0@[i],
            decreases 16 - k,
        {
            r[k] = self.0[k] ^ o.0[k];
            k = k + 1;
        }
        V128Scalar(r)
    }

    fn and_not(self, o: Self) -> (r: Self) {
        let mut r: [u8; 16] = [0u8; 16];
        let mut k: usize = 0;
        while k < 16
            invariant
                k <= 16,
                forall|i: int| 0 <= i < k ==> #[trigger] r@[i] == self.0@[i] & !o.0@[i],
            decreases 16 - k,
        {
            r[k] = self.0[k] & !o.0[k];
            k = k + 1;
        }
        V128Scalar(r)
    }

    fn shr64_by4(self) -> (r: Self) {
        let mut r: [u8; 16] = [0u8; 16];
        let mut k: usize = 0;
        while k < 16
            invariant
                k <= 16,
                forall|i: int|
                    0 <= i < k ==> #[trigger] r@[i] == (self.0@[i] >> 4) | (if i % 8 == 7 {
                        0
                    } else {
                        self.0@[i + 1] << 4
                    }),
            decreases 16 - k,
        {
            let flow: u8 = if k % 8 == 7 {
                0
            } else {
                self.0[k + 1] << 4
            };
            r[k] = (self.0[k] >> 4) | flow;
            k = k + 1;
        }
        V128Scalar(r)
    }

    fn pshufb(self, idx: Self) -> (r: Self) {
        let mut r: [u8; 16] = [0u8; 16];
        let mut k: usize = 0;
        while k < 16
            invariant
                k <= 16,
                forall|i: int|
                    0 <= i < k ==> #[trigger] r@[i] == shuffled(
                        |n: int| self.lane(n),
                        idx.0@[i],
                    ),
            decreases 16 - k,
        {
            let ix: u8 = idx.0[k];
            proof {
                lemma_nibbles(ix, 0);
            }
            let from: usize = (ix & 0x0f) as usize;
            r[k] = if ix & 0x80 != 0 {
                0
            } else {
                self.0[from]
            };
            k = k + 1;
        }
        V128Scalar(r)
    }

    fn eq(self, o: Self) -> (r: Self) {
        let mut r: [u8; 16] = [0u8; 16];
        let mut k: usize = 0;
        while k < 16
            invariant
                k <= 16,
                forall|i: int|
                    0 <= i < k ==> #[trigger] r@[i] == if self.0@[i] == o.0@[i] {
                        0xffu8
                    } else {
                        0
                    },
            decreases 16 - k,
        {
            r[k] = if self.0[k] == o.0[k] {
                0xff
            } else {
                0
            };
            k = k + 1;
        }
        V128Scalar(r)
    }

    fn eq_mask(self, o: Self) -> (r: LaneMask<1>) {
        self.lanes_where(o, true)
    }

    fn nonzero_mask(self) -> (r: LaneMask<1>) {
        self.lanes_where(V128Scalar([0u8;16]), false)
    }

    fn alignr_15(self, low: Self) -> (r: Self) {
        let mut r: [u8; 16] = [0u8; 16];
        r[0] = low.0[15];
        let mut k: usize = 1;
        while k < 16
            invariant
                1 <= k <= 16,
                r@[0] == low.0@[15],
                forall|i: int| 1 <= i < k ==> #[trigger] r@[i] == self.0@[i - 1],
            decreases 16 - k,
        {
            r[k] = self.0[k - 1];
            k = k + 1;
        }
        V128Scalar(r)
    }

    fn shl_bytes(self, n: usize) -> (r: Self) {
        let mut r: [u8; 16] = [0u8; 16];
        let mut k: usize = n;
        while k < 16
            invariant
                n <= k <= 16,
                forall|i: int|
                    0 <= i < k ==> #[trigger] r@[i] == if i < n {
                        0
                    } else {
                        self.0@[i - n]
                    },
            decreases 16 - k,
        {
            r[k] = self.0[k - n];
            k = k + 1;
        }
        V128Scalar(r)
    }

    fn shr_bytes(self, n: usize) -> (r: Self) {
        let mut r: [u8; 16] = [0u8; 16];
        let mut k: usize = 0;
        while k < 16 - n
            invariant
                n <= 16,
                k <= 16 - n,
                forall|i: int|
                    0 <= i < 16 ==> #[trigger] r@[i] == if i < k {
                        self.0@[i + n]
                    } else {
                        0
                    },
            decreases 16 - n - k,
        {
            r[k] = self.0[k + n];
            k = k + 1;
        }
        V128Scalar(r)
    }

    fn to_array(self) -> (r: [u8; 16]) {
        self.0
    }
}

} // verus!
