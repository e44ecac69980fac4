//! Vectors of 16 bytes, and the masks that comparing them yields.
//!
//! Algorithms are written once, over [`V128`]. The scalar backend runs on any
//! machine; a backend with machine instructions implements the same trait.

pub mod accel;
pub mod lanes;
pub mod scalar;

use vstd::prelude::*;

use crate::bytes::{byte_of, padded};
use crate::simd::lanes::MaskOps;

verus! {

/// Lane `i` of a shuffle: an index with its highest bit set gives zero, else
/// its low four bits choose the lane.
pub open spec fn shuffled(table: spec_fn(int) -> u8, idx: u8) -> u8 {
    if idx & 0x80 != 0 {
        0
    } else {
        table((idx & 0x0f) as int)
    }
}

/// A vector of 16 bytes.
pub trait V128: Copy {
    /// What a comparison yields.
    type Mask: MaskOps;

    /// Byte `i`. A backend that is not verified leaves it open.
    closed spec fn lane(self, i: int) -> u8 {
        arbitrary()
    }

    /// The mask of all lanes.
    fn all() -> (r: Self::Mask)
        ensures
            r.wf(),
            forall|i: int| 0 <= i < 16 ==> #[trigger] r.lane(i),
    ;

    /// The 16 bytes at `at`.
    fn loadu(b: &[u8], at: usize) -> (r: Self)
        requires
            at + 16 <= b@.len(),
        ensures
            forall|i: int| 0 <= i < 16 ==> #[trigger] r.lane(i) == b@[at + i],
    ;

    fn splat(b: u8) -> (r: Self)
        ensures
            forall|i: int| 0 <= i < 16 ==> #[trigger] r.lane(i) == b,
    ;

    /// The bytes of `x`, twice.
    fn splat_u64(x: u64) -> (r: Self)
        ensures
            forall|i: int| 0 <= i < 16 ==> #[trigger] r.lane(i) == byte_of(x, i % 8),
    ;

    fn zeroes() -> (r: Self)
        ensures
            forall|i: int| 0 <= i < 16 ==> #[trigger] r.lane(i) == 0,
    ;

    fn ones() -> (r: Self)
        ensures
            forall|i: int| 0 <= i < 16 ==> #[trigger] r.lane(i) == 0xff,
    ;

    /// The bytes of `x` in the low half, zero in the high half.
    fn set_low_u64(x: u64) -> (r: Self)
        ensures
            forall|i: int|
                0 <= i < 16 ==> #[trigger] r.lane(i) == if i < 8 {
                    byte_of(x, i)
                } else {
                    0
                },
    ;

    /// The 8 bytes at `at` in the low half, zero in the high half.
    fn load_low64(b: &[u8], at: usize) -> (r: Self)
        requires
            at + 8 <= b@.len(),
        ensures
            forall|i: int|
                0 <= i < 16 ==> #[trigger] r.lane(i) == if i < 8 {
                    b@[at + i]
                } else {
                    0
                },
    ;

    /// The low half.
    fn to_u64_low(self) -> (r: u64)
        ensures
            forall|i: int| 0 <= i < 8 ==> #[trigger] byte_of(r, i) == self.lane(i),
    ;

    fn and(self, o: Self) -> (r: Self)
        ensures
            forall|i: int| 0 <= i < 16 ==> #[trigger] r.lane(i) == self.lane(i) & o.lane(i),
    ;

    fn or(self, o: Self) -> (r: Self)
        ensures
            forall|i: int| 0 <= i < 16 ==> #[trigger] r.lane(i) == self.lane(i) | o.lane(i),
    ;

    fn xor(self, o: Self) -> (r: Self)
        ensures
            forall|i: int| 0 <= i < 16 ==> #[trigger] r.lane(i) == self.lane(i) ^ o.lane(i),
    ;

    /// `self & !o`.
    fn and_not(self, o: Self) -> (r: Self)
        ensures
            forall|i: int| 0 <= i < 16 ==> #[trigger] r.lane(i) == self.lane(i) & !o.lane(i),
    ;

    /// Each half as a word, shifted right by 4 bits: the low nibble of a byte
    /// flows into the byte below it.
    fn shr64_by4(self) -> (r: Self)
        ensures
            forall|i: int|
                0 <= i < 16 ==> #[trigger] r.lane(i) == (self.lane(i) >> 4) | (if i % 8 == 7 {
                    0
                } else {
                    self.lane(i + 1) << 4
                }),
    ;

    /// The lanes that `idx` chooses.
    fn pshufb(self, idx: Self) -> (r: Self)
        ensures
            forall|i: int|
                0 <= i < 16 ==> #[trigger] r.lane(i) == shuffled(
                    |k: int| self.lane(k),
                    idx.lane(i),
                ),
    ;

    /// All ones where the lanes are equal.
    fn eq(self, o: Self) -> (r: Self)
        ensures
            forall|i: int|
                0 <= i < 16 ==> #[trigger] r.lane(i) == if self.lane(i) == o.lane(i) {
                    0xffu8
                } else {
                    0
                },
    ;

    /// The lanes that are equal.
    fn eq_mask(self, o: Self) -> (r: Self::Mask)
        ensures
            r.wf(),
            forall|i: int|
                0 <= i < 16 ==> (#[trigger] r.lane(i) <==> self.lane(i) == o.lane(i)),
    ;

    /// The lanes that are not zero.
    fn nonzero_mask(self) -> (r: Self::Mask)
        ensures
            r.wf(),
            forall|i: int| 0 <= i < 16 ==> (#[trigger] r.lane(i) <==> self.lane(i) != 0),
    ;

    /// Moved up by one lane, with the highest lane of `low` below.
    fn alignr_15(self, low: Self) -> (r: Self)
        ensures
            forall|i: int|
                0 <= i < 16 ==> #[trigger] r.lane(i) == if i == 0 {
                    low.lane(15)
                } else {
                    self.lane(i - 1)
                },
    ;

    /// Moved up by `n` lanes.
    fn shl_bytes(self, n: usize) -> (r: Self)
        requires
            n <= 16,
        ensures
            forall|i: int|
                0 <= i < 16 ==> #[trigger] r.lane(i) == if i < n {
                    0
                } else {
                    self.lane(i - n)
                },
    ;

    /// Moved down by `n` lanes.
    fn shr_bytes(self, n: usize) -> (r: Self)
        requires
            n <= 16,
        ensures
            forall|i: int|
                0 <= i < 16 ==> #[trigger] r.lane(i) == if i + n < 16 {
                    self.lane(i + n)
                } else {
                    0
                },
    ;

    fn to_array(self) -> (r: [u8; 16])
        ensures
            forall|i: int| 0 <= i < 16 ==> #[trigger] r@[i] == self.lane(i),
    ;

    /// The lanes that differ.
    fn neq_mask(self, o: Self) -> (r: Self::Mask)
        ensures
            r.wf(),
            forall|i: int|
                0 <= i < 16 ==> (#[trigger] r.lane(i) <==> self.lane(i) != o.lane(i)),
    {
        self.eq_mask(o).invert_within(Self::all())
    }

    /// Up to 16 bytes, with zeroes behind them.
    fn load_partial(slice: &[u8]) -> (r: Self)
        requires
            slice@.len() <= 16,
        ensures
            forall|i: int|
                0 <= i < 16 ==> #[trigger] r.lane(i) == if i < slice@.len() {
                    slice@[i]
                } else {
                    0
                },
    {
        Self::loadu(&padded(slice), 0)
    }
}

} // verus!
