//! Masks over the 16 lanes of a vector.

use vstd::prelude::*;

use crate::bits::lemma_plain_bits;

verus! {

/// Bit `b` of a word.
pub open spec fn bit64(word: u64, b: int) -> bool {
    (word >> (b as u64)) & 1 == 1
}

/// Bit `b` belongs to lane `i` of a mask with `stride` bits a lane.
pub open spec fn in_lane(stride: u32, i: int, b: int) -> bool {
    i * stride <= b < i * stride + stride
}

/// Bit `b` is set and belongs to lane `i`.
pub open spec fn holds(bits: u64, stride: u32, i: int, b: int) -> bool {
    in_lane(stride, i, b) && b < 64 && bit64(bits, b)
}

/// Any bit of lane `i` is set.
pub open spec fn lane_in(bits: u64, stride: u32, i: int) -> bool {
    exists|b: int| #[trigger] holds(bits, stride, i, b)
}

/// Sixteen lanes: the bits of a lane are equal, and there is nothing behind.
pub open spec fn mask_wf(bits: u64, stride: u32) -> bool {
    &&& 1 <= stride <= 4
    &&& forall|b: int| 16 * stride <= b < 64 ==> !#[trigger] bit64(bits, b)
    &&& forall|i: int, b: int|
        0 <= i < 16 && #[trigger] in_lane(stride, i, b) && lane_in(bits, stride, i) ==> bit64(
            bits,
            b,
        )
}

/// A mask over the 16 lanes of a vector, with `STRIDE` bits a lane.
#[derive(Copy, Clone, Debug, PartialEq, Eq)]
pub struct LaneMask<const STRIDE: u32> {
    pub bits: u64,
}

/// What the algorithms ask of a mask.
pub trait MaskOps: Copy {
    /// The mask is one that a comparison can yield.
    spec fn wf(self) -> bool;

    /// Every bit belongs to a lane.
    spec fn laned(self) -> bool;

    /// The bits of `n` lanes can be counted.
    spec fn counted(self, n: u32) -> bool;

    /// Bit `b` is set and belongs to lane `i`.
    spec fn has(self, i: int, b: int) -> bool;

    /// Lane `i` is set: any of its bits is.
    spec fn lane(self, i: int) -> bool;

    fn any(self) -> (r: bool)
        requires
            self.laned() || self.wf(),
        ensures
            r == exists|i: int| 0 <= i && #[trigger] self.lane(i),
            self.wf() ==> r == exists|i: int| 0 <= i < 16 && #[trigger] self.lane(i),
    ;

    /// The lowest lane that is set.
    fn first(self) -> (r: Option<u32>)
        requires
            self.laned() || self.wf(),
        ensures
            match r {
                None => forall|i: int| 0 <= i ==> !#[trigger] self.lane(i),
                Some(n) => {
                    &&& self.wf() ==> n < 16
                    &&& self.lane(n as int)
                    &&& forall|i: int| 0 <= i < n ==> !#[trigger] self.lane(i)
                },
            },
    ;

    /// The highest lane that is set.
    fn last(self) -> (r: Option<u32>)
        requires
            self.laned() || self.wf(),
        ensures
            match r {
                None => forall|i: int| 0 <= i ==> !#[trigger] self.lane(i),
                Some(n) => {
                    &&& self.wf() ==> n < 16
                    &&& self.lane(n as int)
                    &&& forall|i: int| n < i ==> !#[trigger] self.lane(i)
                },
            },
    ;

    /// Keeps the lanes below `n`.
    fn keep_lanes_below(self, n: u32) -> (r: Self)
        requires
            self.counted(n) || (self.wf() && n <= 16),
        ensures
            self.wf() ==> r.wf(),
            forall|i: int, b: int|
                0 <= i ==> (#[trigger] r.has(i, b) <==> self.has(i, b) && i < n),
            forall|i: int| 0 <= i ==> (#[trigger] r.lane(i) <==> self.lane(i) && i < n),
    ;

    /// Keeps the lanes from `n` on.
    fn keep_lanes_from(self, n: u32) -> (r: Self)
        requires
            self.counted(n) || (self.wf() && n <= 16),
        ensures
            self.wf() ==> r.wf(),
            forall|i: int, b: int|
                0 <= i ==> (#[trigger] r.has(i, b) <==> self.has(i, b) && i >= n),
            forall|i: int| 0 <= i ==> (#[trigger] r.lane(i) <==> self.lane(i) && i >= n),
    ;

    /// The bits of `all` that are not set here. Where the bits of each lane are
    /// equal, these are its lanes that are not set here.
    fn invert_within(self, all: Self) -> (r: Self)
        ensures
            forall|i: int, b: int|
                0 <= i ==> (#[trigger] r.has(i, b) <==> all.has(i, b) && !self.has(i, b)),
            self.wf() && all.wf() ==> {
                &&& r.wf()
                &&& forall|i: int|
                    0 <= i < 16 ==> (#[trigger] r.lane(i) <==> all.lane(i) && !self.lane(i))
            },
    ;
}

proof fn lemma_lane_order(i: int, j: int, stride: u32)
    requires
        i < j,
    ensures
        i * stride + stride <= j * stride,
{
    assert(i * stride + stride <= j * stride) by (nonlinear_arith)
        requires
            i < j,
            stride >= 0,
    ;
}

proof fn lemma_lane_of(b: int, stride: u32)
    requires
        0 <= b,
        1 <= stride,
    ensures
        (b / (stride as int)) * stride <= b < (b / (stride as int)) * stride + stride,
        b < 16 * stride ==> b / (stride as int) < 16,
        0 <= b / (stride as int),
{
    vstd::arithmetic::div_mod::lemma_fundamental_div_mod(b, stride as int);
    let q = b / (stride as int);
    vstd::arithmetic::mul::lemma_mul_is_commutative(q, stride as int);
    if b < 16 * stride && q >= 16 {
        assert(q * stride >= 16 * stride) by (nonlinear_arith)
            requires
                q >= 16,
                stride >= 1,
        ;
    }
    assert(q >= 0) by (nonlinear_arith)
        requires
            b >= 0,
            stride >= 1,
            q == b / (stride as int),
    ;
}

/// A mask that keeps some lanes of another, bit by bit.
proof fn lemma_keep(old_bits: u64, new_bits: u64, stride: u32, keep: Set<int>)
    requires
        forall|i: int, b: int|
            0 <= i && #[trigger] in_lane(stride, i, b) && b < 64 ==> (bit64(new_bits, b) <==> bit64(
                old_bits,
                b,
            ) && keep.contains(i)),
    ensures
        mask_wf(old_bits, stride) ==> mask_wf(new_bits, stride),
        forall|i: int, b: int|
            0 <= i ==> (#[trigger] holds(new_bits, stride, i, b) <==> holds(old_bits, stride, i, b)
                && keep.contains(i)),
        forall|i: int|
            0 <= i ==> (#[trigger] lane_in(new_bits, stride, i) <==> lane_in(old_bits, stride, i)
                && keep.contains(i)),
{
    assert forall|i: int| 0 <= i implies (#[trigger] lane_in(new_bits, stride, i) <==> lane_in(
        old_bits,
        stride,
        i,
    ) && keep.contains(i)) by {
        if lane_in(new_bits, stride, i) {
            let b = choose|b: int| #[trigger] holds(new_bits, stride, i, b);
            assert(holds(old_bits, stride, i, b));
        }
        if lane_in(old_bits, stride, i) && keep.contains(i) {
            let b = choose|b: int| #[trigger] holds(old_bits, stride, i, b);
            assert(holds(new_bits, stride, i, b));
        }
    }
    if mask_wf(old_bits, stride) {
        assert forall|b: int| 16 * stride <= b < 64 implies !#[trigger] bit64(new_bits, b) by {
            lemma_lane_of(b, stride);
            assert(in_lane(stride, b / (stride as int), b));
            assert(!bit64(old_bits, b));
        }
        assert forall|i: int, b: int|
            0 <= i < 16 && #[trigger] in_lane(stride, i, b) && lane_in(new_bits, stride, i) implies bit64(new_bits, b) by {
            lemma_lane_order(i, 16, stride);
            assert(lane_in(old_bits, stride, i) && keep.contains(i));
            assert(bit64(old_bits, b));
        }
    }
}

impl<const STRIDE: u32> LaneMask<STRIDE> {
    /// No lane.
    pub fn none() -> (r: Self)
        ensures
            r.bits == 0,
            1 <= STRIDE <= 4 ==> r.wf(),
            forall|i: int| 0 <= i ==> !#[trigger] r.lane(i),
    {
        let r: LaneMask<STRIDE> = LaneMask { bits: 0 };
        assert forall|i: int| 0 <= i implies !#[trigger] r.lane(i) by {
            lemma_empty(STRIDE, i);
        }
        assert forall|b: int| 0 <= b < 64 implies !#[trigger] bit64(0, b) by {
            lemma_plain_bits(b);
        }
        r
    }

    /// All 16 lanes, as far as there are bits for them.
    pub fn all16() -> (r: Self)
        ensures
            forall|b: int| 0 <= b < 64 ==> (#[trigger] bit64(r.bits, b) <==> b < 16 * STRIDE),
            1 <= STRIDE <= 4 ==> r.wf() && forall|i: int| 0 <= i < 16 ==> #[trigger] r.lane(i),
    {
        let bits: u64 = if STRIDE >= 4 {
            !0u64
        } else {
            proof {
                lemma_low_bits((16 * STRIDE) as u64, 0);
            }
            (1u64 << (STRIDE * 16)) - 1
        };
        let r: LaneMask<STRIDE> = LaneMask { bits };
        proof {
            assert forall|b: int| 0 <= b < 64 implies (#[trigger] bit64(bits, b) <==> b < 16
                * STRIDE) by {
                lemma_plain_bits(b);
                if STRIDE < 4 {
                    lemma_low_bits((16 * STRIDE) as u64, b as u64);
                }
            }
            if 1 <= STRIDE <= 4 {
                assert forall|i: int| 0 <= i < 16 implies #[trigger] r.lane(i) by {
                    lemma_lane_order(i, 16, STRIDE);
                    lemma_lane_start(STRIDE, i);
                    assert(holds(bits, STRIDE, i, i * STRIDE));
                }
                assert forall|i: int, b: int|
                    0 <= i < 16 && #[trigger] in_lane(STRIDE, i, b) && lane_in(bits, STRIDE, i) implies bit64(bits, b) by {
                    lemma_lane_order(i, 16, STRIDE);
                    lemma_lane_start(STRIDE, i);
                }
            }
        }
        r
    }

    /// The mask with these bits.
    pub fn from_bits(bits: u64) -> (r: Self)
        ensures
            r.bits == bits,
    {
        LaneMask { bits }
    }
}

proof fn lemma_low_bits(w: u64, b: u64)
    requires
        w < 64,
        b < 64,
    ensures
        1u64 << w >= 1,
        ((((1u64 << w) - 1) as u64 >> b) & 1 == 1) == (b < w),
{
    assert(1u64 << w >= 1 && ((((1u64 << w) - 1) as u64 >> b) & 1 == 1) == (b < w)) by (bit_vector)
        requires
            w < 64,
            b < 64,
    ;
}

/// The lane of a bit is set.
proof fn lemma_bit_sets_lane(bits: u64, stride: u32, b: int)
    requires
        1 <= stride,
        0 <= b < 64,
        bit64(bits, b),
    ensures
        0 <= b / (stride as int),
        mask_wf(bits, stride) ==> b / (stride as int) < 16,
        lane_in(bits, stride, b / (stride as int)),
{
    lemma_lane_of(b, stride);
    assert(holds(bits, stride, b / (stride as int), b));
}

impl<const STRIDE: u32> MaskOps for LaneMask<STRIDE> {
    open spec fn wf(self) -> bool {
        mask_wf(self.bits, STRIDE)
    }

    open spec fn laned(self) -> bool {
        1 <= STRIDE
    }

    open spec fn counted(self, n: u32) -> bool {
        n * STRIDE <= u32::MAX
    }

    open spec fn has(self, i: int, b: int) -> bool {
        holds(self.bits, STRIDE, i, b)
    }

    open spec fn lane(self, i: int) -> bool {
        lane_in(self.bits, STRIDE, i)
    }

    fn any(self) -> (r: bool) {
        proof {
            if self.bits == 0 {
                assert forall|i: int| 0 <= i implies !#[trigger] self.lane(i) by {
                    lemma_empty(STRIDE, i);
                }
            } else {
                vstd::std_specs::bits::axiom_u64_trailing_zeros(self.bits);
                let b = vstd::std_specs::bits::u64_trailing_zeros(self.bits) as int;
                assert(bit64(self.bits, b));
                lemma_bit_sets_lane(self.bits, STRIDE, b);
                assert(self.lane(b / (STRIDE as int)));
            }
        }
        self.bits != 0
    }

    fn first(self) -> (r: Option<u32>) {
        if self.bits == 0 {
            assert forall|i: int| 0 <= i implies !#[trigger] self.lane(i) by {
                lemma_empty(STRIDE, i);
            }
            None
        } else {
            let b: u32 = self.bits.trailing_zeros();
            proof {
                vstd::std_specs::bits::axiom_u64_trailing_zeros(self.bits);
                assert(bit64(self.bits, b as int));
                lemma_bit_sets_lane(self.bits, STRIDE, b as int);
                let n = b as int / (STRIDE as int);
                assert forall|i: int| 0 <= i < n implies !#[trigger] self.lane(i) by {
                    lemma_lane_of(b as int, STRIDE);
                    lemma_lane_order(i, n, STRIDE);
                    lemma_lane_start(STRIDE, i);
                    if self.lane(i) {
                        let c = choose|c: int| #[trigger] holds(self.bits, STRIDE, i, c);
                        assert((self.bits >> (c as u64)) & 1u64 == 0u64);
                    }
                }
            }
            Some(b / STRIDE)
        }
    }

    fn last(self) -> (r: Option<u32>) {
        if self.bits == 0 {
            assert forall|i: int| 0 <= i implies !#[trigger] self.lane(i) by {
                lemma_empty(STRIDE, i);
            }
            None
        } else {
            proof {
                vstd::std_specs::bits::axiom_u64_leading_zeros(self.bits);
            }
            let b: u32 = 63 - self.bits.leading_zeros();
            proof {
                let bits = self.bits;
                let c = b as u64;
                assert((bits >> c) & 1 == 1) by (bit_vector)
                    requires
                        (bits >> c) & 1 != 0,
                ;
                assert(bit64(self.bits, b as int));
                lemma_bit_sets_lane(self.bits, STRIDE, b as int);
                let n = b as int / (STRIDE as int);
                assert forall|i: int| n < i implies !#[trigger] self.lane(i) by {
                    lemma_lane_of(b as int, STRIDE);
                    lemma_lane_order(n, i, STRIDE);
                    if self.lane(i) {
                        let c = choose|c: int| #[trigger] holds(self.bits, STRIDE, i, c);
                        assert((self.bits >> (c as u64)) & 1u64 == 0u64);
                    }
                }
            }
            Some(b / STRIDE)
        }
    }

    fn keep_lanes_below(self, n: u32) -> (r: Self) {
        proof {
            if !self.counted(n) {
                lemma_width(STRIDE, n);
            }
            lemma_lane_start(STRIDE, n as int);
        }
        let width: u32 = n * STRIDE;
        let m: u64 = if width >= 64 {
            !0u64
        } else {
            proof {
                lemma_low_bits(width as u64, 0);
            }
            (1u64 << width) - 1
        };
        let r: LaneMask<STRIDE> = LaneMask { bits: self.bits & m };
        proof {
            let keep = Set::new(|i: int| i < n);
            assert forall|b: int| 0 <= b < 64 implies (#[trigger] bit64(r.bits, b) <==> bit64(
                self.bits,
                b,
            ) && b < width) by {
                lemma_mask_below(self.bits, m, width as u64, b as u64);
            }
            lemma_split(self.bits, r.bits, STRIDE, n as int, keep, true);
        }
        r
    }

    fn keep_lanes_from(self, n: u32) -> (r: Self) {
        proof {
            if !self.counted(n) {
                lemma_width(STRIDE, n);
            }
            lemma_lane_start(STRIDE, n as int);
        }
        let width: u32 = n * STRIDE;
        let low: u64 = if width >= 64 {
            !0u64
        } else {
            proof {
                lemma_low_bits(width as u64, 0);
            }
            (1u64 << width) - 1
        };
        let r: LaneMask<STRIDE> = LaneMask { bits: self.bits & !low };
        proof {
            let keep = Set::new(|i: int| i >= n);
            assert forall|b: int| 0 <= b < 64 implies (#[trigger] bit64(r.bits, b) <==> bit64(
                self.bits,
                b,
            ) && b >= width) by {
                lemma_mask_from(self.bits, low, width as u64, b as u64);
            }
            lemma_split(self.bits, r.bits, STRIDE, n as int, keep, false);
        }
        r
    }

    fn invert_within(self, all: Self) -> (r: Self) {
        let r: LaneMask<STRIDE> = LaneMask { bits: !self.bits & all.bits };
        proof {
            assert forall|b: int| 0 <= b < 64 implies (#[trigger] bit64(r.bits, b) <==> bit64(
                all.bits,
                b,
            ) && !bit64(self.bits, b)) by {
                let x = self.bits;
                let a = all.bits;
                let c = b as u64;
                assert(((!x & a) >> c) & 1 == 1 <==> (a >> c) & 1 == 1 && (x >> c) & 1 != 1)
                    by (bit_vector)
                    requires
                        c < 64,
                ;
            }
            assert forall|i: int, b: int| 0 <= i implies (#[trigger] r.has(i, b) <==> all.has(i, b)
                && !self.has(i, b)) by {
                lemma_lane_start(STRIDE, i);
            }
            if self.wf() && all.wf() {
                let keep = Set::new(|i: int| !self.lane(i));
                assert forall|i: int, b: int|
                    0 <= i && #[trigger] in_lane(STRIDE, i, b) && b < 64 implies (bit64(r.bits, b)
                    <==> bit64(all.bits, b) && keep.contains(i)) by {
                    lemma_lane_start(STRIDE, i);
                    if bit64(self.bits, b) {
                        assert(holds(self.bits, STRIDE, i, b));
                    } else if i < 16 {
                        assert(!lane_in(self.bits, STRIDE, i));
                    } else if i > 16 {
                        lemma_lane_order(16, i, STRIDE);
                    }
                }
                lemma_keep(all.bits, r.bits, STRIDE, keep);
            }
        }
        r
    }
}

proof fn lemma_lane_start(stride: u32, i: int)
    requires
        0 <= i,
    ensures
        0 <= i * stride,
{
    assert(0 <= i * stride) by (nonlinear_arith)
        requires
            0 <= i,
            stride >= 0,
    ;
}

proof fn lemma_empty(stride: u32, i: int)
    requires
        0 <= i,
    ensures
        !lane_in(0, stride, i),
{
    lemma_lane_start(stride, i);
    if lane_in(0, stride, i) {
        let b = choose|b: int| #[trigger] holds(0, stride, i, b);
        lemma_plain_bits(b);
    }
}

proof fn lemma_width(stride: u32, n: u32)
    requires
        1 <= stride <= 4,
        n <= 16,
    ensures
        0 <= n * stride <= 16 * stride <= 64,
{
    assert(0 <= n * stride <= 16 * stride) by (nonlinear_arith)
        requires
            n <= 16,
            stride >= 1,
    ;
}

proof fn lemma_mask_below(bits: u64, m: u64, width: u64, b: u64)
    requires
        b < 64,
        m == if width >= 64 {
            !0u64
        } else {
            ((1u64 << width) - 1) as u64
        },
    ensures
        ((bits & m) >> b) & 1 == 1 <==> (bits >> b) & 1 == 1 && b < width,
{
    assert((bits & !0u64) == bits && (width < 64 ==> (((bits & (((1u64 << width) - 1) as u64)) >> b)
        & 1 == 1 <==> (bits >> b) & 1 == 1 && b < width))) by (bit_vector)
        requires
            b < 64,
    ;
}

proof fn lemma_mask_from(bits: u64, low: u64, width: u64, b: u64)
    requires
        b < 64,
        low == if width >= 64 {
            !0u64
        } else {
            ((1u64 << width) - 1) as u64
        },
    ensures
        ((bits & !low) >> b) & 1 == 1 <==> (bits >> b) & 1 == 1 && b >= width,
{
    lemma_mask_below(bits, low, width, b);
    assert(((bits & !low) >> b) & 1 == 1 <==> (bits >> b) & 1 == 1 && ((bits & low) >> b) & 1 != 1)
        by (bit_vector);
}

/// Cutting the bits at the start of lane `n` cuts the lanes there.
proof fn lemma_split(
    old_bits: u64,
    new_bits: u64,
    stride: u32,
    n: int,
    keep: Set<int>,
    below: bool,
)
    requires
        0 <= n,
        forall|i: int| keep.contains(i) == if below {
            i < n
        } else {
            i >= n
        },
        forall|b: int|
            0 <= b < 64 ==> (#[trigger] bit64(new_bits, b) <==> bit64(old_bits, b) && if below {
                b < n * stride
            } else {
                b >= n * stride
            }),
    ensures
        mask_wf(old_bits, stride) ==> mask_wf(new_bits, stride),
        forall|i: int, b: int|
            0 <= i ==> (#[trigger] holds(new_bits, stride, i, b) <==> holds(old_bits, stride, i, b)
                && keep.contains(i)),
        forall|i: int|
            0 <= i ==> (#[trigger] lane_in(new_bits, stride, i) <==> lane_in(old_bits, stride, i)
                && keep.contains(i)),
{
    assert forall|i: int, b: int|
        0 <= i && #[trigger] in_lane(stride, i, b) && b < 64 implies (bit64(new_bits, b) <==> bit64(
        old_bits,
        b,
    ) && keep.contains(i)) by {
        lemma_lane_start(stride, i);
        if i < n {
            lemma_lane_order(i, n, stride);
        } else if i > n {
            lemma_lane_order(n, i, stride);
        }
    }
    lemma_keep(old_bits, new_bits, stride, keep);
}

/// Walks over the lanes that are set, from the lowest up.
pub struct LaneIter<const STRIDE: u32> {
    pub bits: u64,
}

impl<const STRIDE: u32> LaneMask<STRIDE> {
    /// A walk over the lanes that are set.
    pub fn into_iter(self) -> (r: LaneIter<STRIDE>)
        ensures
            r.bits == self.bits,
    {
        LaneIter { bits: self.bits }
    }
}

impl<const STRIDE: u32> LaneIter<STRIDE> {
    /// The next lane: the lowest that is left. It is then left no more.
    pub fn next(&mut self) -> (r: Option<u32>)
        requires
            1 <= STRIDE < 128,
        ensures
            mask_wf(old(self).bits, STRIDE) ==> mask_wf(final(self).bits, STRIDE),
            match r {
                None => forall|i: int| 0 <= i ==> !#[trigger] lane_in(old(self).bits, STRIDE, i),
                Some(n) => {
                    &&& mask_wf(old(self).bits, STRIDE) ==> n < 16
                    &&& lane_in(old(self).bits, STRIDE, n as int)
                    &&& forall|i: int| 0 <= i < n ==> !#[trigger] lane_in(old(self).bits, STRIDE, i)
                },
            },
            forall|i: int, b: int|
                0 <= i ==> (#[trigger] holds(final(self).bits, STRIDE, i, b) <==> holds(
                    old(self).bits,
                    STRIDE,
                    i,
                    b,
                ) && !(r matches Some(n) && n == i)),
            forall|i: int|
                0 <= i ==> (#[trigger] lane_in(final(self).bits, STRIDE, i) <==> lane_in(
                    old(self).bits,
                    STRIDE,
                    i,
                ) && !(r matches Some(n) && n == i)),
    {
        let mask: LaneMask<STRIDE> = LaneMask { bits: self.bits };
        match mask.first() {
            None => {
                assert forall|i: int| 0 <= i implies !#[trigger] lane_in(self.bits, STRIDE, i) by {
                    assert(!mask.lane(i));
                }
                None
            },
            Some(lane) => {
                assert forall|i: int| 0 <= i < lane implies !#[trigger] lane_in(
                    self.bits,
                    STRIDE,
                    i,
                ) by {
                    assert(!mask.lane(i));
                }
                proof {
                    assert(mask.lane(lane as int));
                    let b = choose|b: int| #[trigger] holds(mask.bits, STRIDE, lane as int, b);
                    assert(lane * STRIDE <= b < 64);
                    lemma_lane_start(STRIDE, lane as int);
                }
                let shift: u32 = lane * STRIDE;
                let stride: u32 = STRIDE;
                let lane_mask: u64 = if stride >= 64 {
                    !0u64
                } else {
                    proof {
                        lemma_low_bits(stride as u64, 0);
                    }
                    (1u64 << stride) - 1
                };
                let rest: u64 = self.bits & !(lane_mask << shift);
                proof {
                    let keep = Set::new(|i: int| i != lane as int);
                    assert forall|b: int| 0 <= b < 64 implies (#[trigger] bit64(rest, b) <==> bit64(
                        mask.bits,
                        b,
                    ) && !(shift <= b < shift + STRIDE)) by {
                        let x = mask.bits;
                        let c = b as u32;
                        assert(((x & !((if stride >= 64 {
                            !0u64
                        } else {
                            ((1u64 << stride) - 1) as u64
                        }) << shift)) >> c) & 1 == 1 <==> (x >> c) & 1 == 1 && !(shift <= c && c
                            < shift + stride)) by (bit_vector)
                            requires
                                1 <= stride < 128,
                                shift < 64,
                                c < 64,
                        ;
                    }
                    assert forall|i: int, b: int|
                        0 <= i && #[trigger] in_lane(STRIDE, i, b) && b < 64 implies (bit64(rest, b)
                        <==> bit64(mask.bits, b) && keep.contains(i)) by {
                        lemma_lane_start(STRIDE, i);
                        if i < lane {
                            lemma_lane_order(i, lane as int, STRIDE);
                        } else if i > lane {
                            lemma_lane_order(lane as int, i, STRIDE);
                        }
                    }
                    lemma_keep(mask.bits, rest, STRIDE, keep);
                }
                self.bits = rest;
                Some(lane)
            },
        }
    }
}

} // verus!
