//! The searches, over vectors: whole blocks of 16 bytes, and a last block that
//! overlaps the one before it. A buffer shorter than a block is searched byte
//! by byte.

use vstd::prelude::*;

use crate::bits::{lemma_nibbles, lemma_or, lemma_truffle};
use crate::bytes::byte_of;
use crate::simd::accel::reference;
use crate::simd::accel::reference::{
    case_bits, case_mask, finds_first, finds_last, outside, shufti_class, truffle_class, verm_class,
    ByteClass,
};
use crate::simd::lanes::MaskOps;
use crate::simd::V128;

verus! {

/// A mask says which lanes of a vector are in a class.
pub open spec fn marks<V: V128>(mask: V::Mask, v: V, class: ByteClass) -> bool {
    mask.wf() && forall|i: int| 0 <= i < 16 ==> (#[trigger] mask.lane(i) <==> class(v.lane(i)))
}

/// A vector holds a table of 16 bytes.
pub open spec fn holds_table<V: V128>(v: V, table: Seq<u8>) -> bool {
    table.len() == 16 && forall|i: int| 0 <= i < 16 ==> #[trigger] v.lane(i) == table[i]
}

/// The lanes in a shufti class.
fn block_shufti<V: V128>(lo: V, hi: V, chars: V, tables: Ghost<(Seq<u8>, Seq<u8>)>) -> (r: V::Mask)
    requires
        holds_table(lo, tables@.0),
        holds_table(hi, tables@.1),
    ensures
        marks(r, chars, shufti_class(tables@.0, tables@.1)),
{
    let low4 = V::splat(0x0f);
    let c_lo = chars.and(low4);
    let c_hi = chars.shr64_by4().and(low4);
    let both = lo.pshufb(c_lo).and(hi.pshufb(c_hi));
    assert forall|i: int| 0 <= i < 16 implies #[trigger] both.lane(i) == tables@.0[(chars.lane(i)
        & 0x0f) as int] & tables@.1[(chars.lane(i) >> 4) as int] by {
        lemma_nibbles(
            chars.lane(i),
            if i % 8 == 7 {
                0
            } else {
                chars.lane(i + 1)
            },
        );
        assert(lo.lane((chars.lane(i) & 0x0f) as int) == tables@.0[(chars.lane(i) & 0x0f) as int]);
        assert(hi.lane((chars.lane(i) >> 4) as int) == tables@.1[(chars.lane(i) >> 4) as int]);
    }
    let r = both.nonzero_mask();
    assert forall|i: int| 0 <= i < 16 implies (#[trigger] r.lane(i) <==> shufti_class(
        tables@.0,
        tables@.1,
    )(chars.lane(i))) by {
        assert(both.lane(i) == tables@.0[(chars.lane(i) & 0x0f) as int] & tables@.1[(chars.lane(i)
            >> 4) as int]);
    }
    r
}

/// The lanes in a truffle class.
fn block_truffle<V: V128>(clear: V, set: V, chars: V, tables: Ghost<(Seq<u8>, Seq<u8>)>) -> (r:
    V::Mask)
    requires
        holds_table(clear, tables@.0),
        holds_table(set, tables@.1),
    ensures
        marks(r, chars, truffle_class(tables@.0, tables@.1)),
{
    let highconst = V::splat(0x80);
    let shuf_mask_hi = V::splat_u64(0x8040_2010_0804_0201);
    // Only bytes below 0x80 choose from `clear`, only the others from `set`.
    let shuf1 = clear.pshufb(chars);
    let shuf2 = set.pshufb(chars.xor(highconst));
    // The low four bits of each index are the high nibble of the byte.
    let t2 = chars.shr64_by4().and_not(highconst);
    let shuf3 = shuf_mask_hi.pshufb(t2);
    let both = shuf1.or(shuf2).and(shuf3);
    let r = both.nonzero_mask();
    assert forall|i: int| 0 <= i < 16 implies (#[trigger] r.lane(i) <==> truffle_class(
        tables@.0,
        tables@.1,
    )(chars.lane(i))) by {
        let b = chars.lane(i);
        let above = if i % 8 == 7 {
            0u8
        } else {
            chars.lane(i + 1) << 4
        };
        lemma_truffle(
            b,
            if i % 8 == 7 {
                0
            } else {
                chars.lane(i + 1)
            },
        );
        assert(t2.lane(i) == ((b >> 4) | above) & !0x80u8);
        assert(clear.lane((b & 0x0f) as int) == tables@.0[(b & 0x0f) as int]);
        assert(set.lane((b & 0x0f) as int) == tables@.1[(b & 0x0f) as int]);
        assert(shuf_mask_hi.lane((b >> 4) as int) == byte_of(
            0x8040_2010_0804_0201,
            (b >> 4) as int % 8,
        ));
        lemma_or(clear.lane((b & 0x0f) as int), 0, 0);
        lemma_or(set.lane((b & 0x0f) as int), 0, 0);
        assert(both.lane(i) == (shuf1.lane(i) | shuf2.lane(i)) & shuf3.lane(i));
    }
    r
}

/// Searches forward, block by block.
fn scan_fwd<V: V128, F: Fn(V) -> V::Mask>(buf: &[u8], block: F, class: Ghost<ByteClass>) -> (r:
    Option<usize>)
    requires
        buf@.len() >= 16,
        forall|v: V| #[trigger] call_requires(block, (v,)),
        forall|v: V, m: V::Mask| #[trigger] call_ensures(block, (v,), m) ==> marks(m, v, class@),
    ensures
        finds_first(buf@, class@, r),
{
    let len: usize = buf.len();
    let mut d: usize = 0;
    while len - d >= 16
        invariant
            len == buf@.len(),
            len >= 16,
            d <= len,
            forall|v: V| #[trigger] call_requires(block, (v,)),
            forall|v: V, m: V::Mask| #[trigger]
                call_ensures(block, (v,), m) ==> marks(m, v, class@),
            forall|i: int| 0 <= i < d ==> !class@(#[trigger] buf@[i]),
        decreases len - d,
    {
        let v = V::loadu(buf, d);
        let m = block(v);
        match m.first() {
            Some(i) => {
                proof {
                    assert(class@(v.lane(i as int)));
                    assert forall|j: int| 0 <= j < d + i implies !class@(#[trigger] buf@[j]) by {
                        if j >= d {
                            assert(!m.lane(j - d));
                            assert(v.lane(j - d) == buf@[d + (j - d)]);
                        }
                    }
                }
                return Some(d + i as usize);
            },
            None => {
                assert forall|j: int| 0 <= j < d + 16 implies !class@(#[trigger] buf@[j]) by {
                    if j >= d {
                        assert(!m.lane(j - d));
                        assert(v.lane(j - d) == buf@[d + (j - d)]);
                    }
                }
            },
        }
        d = d + 16;
    }
    if d != len {
        let tail: usize = len - 16;
        let v = V::loadu(buf, tail);
        let m = block(v);
        match m.first() {
            Some(i) => {
                proof {
                    assert(class@(v.lane(i as int)));
                    assert forall|j: int| 0 <= j < tail + i implies !class@(#[trigger] buf@[j]) by {
                        if j >= tail {
                            assert(!m.lane(j - tail));
                            assert(v.lane(j - tail) == buf@[tail + (j - tail)]);
                        }
                    }
                }
                return Some(tail + i as usize);
            },
            None => {
                assert forall|j: int| 0 <= j < len implies !class@(#[trigger] buf@[j]) by {
                    if j >= tail {
                        assert(!m.lane(j - tail));
                        assert(v.lane(j - tail) == buf@[tail + (j - tail)]);
                    }
                }
            },
        }
    }
    None
}

/// Searches backward, block by block.
fn scan_rev<V: V128, F: Fn(V) -> V::Mask>(buf: &[u8], block: F, class: Ghost<ByteClass>) -> (r:
    Option<usize>)
    requires
        buf@.len() >= 16,
        forall|v: V| #[trigger] call_requires(block, (v,)),
        forall|v: V, m: V::Mask| #[trigger] call_ensures(block, (v,), m) ==> marks(m, v, class@),
    ensures
        finds_last(buf@, class@, r),
{
    let len: usize = buf.len();
    let mut d: usize = len;
    while d >= 16
        invariant
            len == buf@.len(),
            len >= 16,
            d <= len,
            forall|v: V| #[trigger] call_requires(block, (v,)),
            forall|v: V, m: V::Mask| #[trigger]
                call_ensures(block, (v,), m) ==> marks(m, v, class@),
            forall|i: int| d <= i < len ==> !class@(#[trigger] buf@[i]),
        decreases d,
    {
        d = d - 16;
        let v = V::loadu(buf, d);
        let m = block(v);
        match m.last() {
            Some(i) => {
                proof {
                    assert(class@(v.lane(i as int)));
                    assert forall|j: int| d + i < j < len implies !class@(#[trigger] buf@[j]) by {
                        if j < d + 16 {
                            assert(!m.lane(j - d));
                            assert(v.lane(j - d) == buf@[d + (j - d)]);
                        }
                    }
                }
                return Some(d + i as usize);
            },
            None => {
                assert forall|j: int| d <= j < len implies !class@(#[trigger] buf@[j]) by {
                    if j < d + 16 {
                        assert(!m.lane(j - d));
                        assert(v.lane(j - d) == buf@[d + (j - d)]);
                    }
                }
            },
        }
    }
    if d != 0 {
        let v = V::loadu(buf, 0);
        let m = block(v);
        match m.last() {
            Some(i) => {
                proof {
                    assert(class@(v.lane(i as int)));
                    assert(v.lane(i as int) == buf@[0 + i]);
                    assert forall|j: int| i < j < len implies !class@(#[trigger] buf@[j]) by {
                        if j < 16 {
                            assert(!m.lane(j));
                            assert(v.lane(j) == buf@[0 + j]);
                        }
                    }
                }
                return Some(i as usize);
            },
            None => {
                assert forall|j: int| 0 <= j < len implies !class@(#[trigger] buf@[j]) by {
                    if j < 16 {
                        assert(!m.lane(j));
                        assert(v.lane(j) == buf@[0 + j]);
                    }
                }
            },
        }
    }
    None
}

/// The first byte in a shufti class.
pub fn shufti_exec<V: V128>(mask_lo: &[u8; 16], mask_hi: &[u8; 16], buf: &[u8]) -> (r: Option<usize>)
    ensures
        finds_first(buf@, shufti_class(mask_lo@, mask_hi@), r),
{
    if buf.len() < 16 {
        return reference::shufti_fwd(mask_lo, mask_hi, buf);
    }
    let first = V::loadu(mask_lo, 0);
    let second = V::loadu(mask_hi, 0);
    let block = |chars: V| -> (m: V::Mask)
        ensures
            marks(m, chars, shufti_class(mask_lo@, mask_hi@)),
        { block_shufti(first, second, chars, Ghost((mask_lo@, mask_hi@))) };
    scan_fwd(buf, block, Ghost(shufti_class(mask_lo@, mask_hi@)))
}

/// The last byte in a shufti class.
pub fn rshufti_exec<V: V128>(mask_lo: &[u8; 16], mask_hi: &[u8; 16], buf: &[u8]) -> (r: Option<usize>)
    ensures
        finds_last(buf@, shufti_class(mask_lo@, mask_hi@), r),
{
    if buf.len() < 16 {
        return reference::shufti_rev(mask_lo, mask_hi, buf);
    }
    let first = V::loadu(mask_lo, 0);
    let second = V::loadu(mask_hi, 0);
    let block = |chars: V| -> (m: V::Mask)
        ensures
            marks(m, chars, shufti_class(mask_lo@, mask_hi@)),
        { block_shufti(first, second, chars, Ghost((mask_lo@, mask_hi@))) };
    scan_rev(buf, block, Ghost(shufti_class(mask_lo@, mask_hi@)))
}

/// The first byte in a truffle class.
pub fn truffle_exec<V: V128>(mask_highclear: &[u8; 16], mask_highset: &[u8; 16], buf: &[u8]) -> (r: Option<usize>)
    ensures
        finds_first(buf@, truffle_class(mask_highclear@, mask_highset@), r),
{
    if buf.len() < 16 {
        return reference::truffle_fwd(mask_highclear, mask_highset, buf);
    }
    let first = V::loadu(mask_highclear, 0);
    let second = V::loadu(mask_highset, 0);
    let block = |chars: V| -> (m: V::Mask)
        ensures
            marks(m, chars, truffle_class(mask_highclear@, mask_highset@)),
        { block_truffle(first, second, chars, Ghost((mask_highclear@, mask_highset@))) };
    scan_fwd(buf, block, Ghost(truffle_class(mask_highclear@, mask_highset@)))
}

/// The last byte in a truffle class.
pub fn rtruffle_exec<V: V128>(mask_highclear: &[u8; 16], mask_highset: &[u8; 16], buf: &[u8]) -> (r: Option<usize>)
    ensures
        finds_last(buf@, truffle_class(mask_highclear@, mask_highset@), r),
{
    if buf.len() < 16 {
        return reference::truffle_rev(mask_highclear, mask_highset, buf);
    }
    let first = V::loadu(mask_highclear, 0);
    let second = V::loadu(mask_highset, 0);
    let block = |chars: V| -> (m: V::Mask)
        ensures
            marks(m, chars, truffle_class(mask_highclear@, mask_highset@)),
        { block_truffle(first, second, chars, Ghost((mask_highclear@, mask_highset@))) };
    scan_rev(buf, block, Ghost(truffle_class(mask_highclear@, mask_highset@)))
}

/// The lanes that are one byte, or both cases of a letter.
fn block_verm<V: V128>(key: V, casemask: V, data: V, c: Ghost<u8>, nocase: Ghost<bool>) -> (r: V::Mask)
    requires
        forall|i: int| 0 <= i < 16 ==> #[trigger] key.lane(i) == c@ & case_bits(nocase@),
        forall|i: int| 0 <= i < 16 ==> #[trigger] casemask.lane(i) == case_bits(nocase@),
    ensures
        marks(r, data, verm_class(c@, nocase@)),
{
    let bits = data.and(casemask);
    let r = bits.eq_mask(key);
    assert forall|i: int| 0 <= i < 16 implies (#[trigger] r.lane(i) <==> verm_class(c@, nocase@)(
        data.lane(i),
    )) by {
        assert(key.lane(i) == c@ & case_bits(nocase@));
        assert(casemask.lane(i) == case_bits(nocase@));
    }
    r
}

/// The other lanes.
fn block_nverm<V: V128>(key: V, casemask: V, data: V, c: Ghost<u8>, nocase: Ghost<bool>) -> (r:
    V::Mask)
    requires
        forall|i: int| 0 <= i < 16 ==> #[trigger] key.lane(i) == c@ & case_bits(nocase@),
        forall|i: int| 0 <= i < 16 ==> #[trigger] casemask.lane(i) == case_bits(nocase@),
    ensures
        marks(r, data, outside(verm_class(c@, nocase@))),
{
    let bits = data.and(casemask);
    let r = bits.neq_mask(key);
    assert forall|i: int| 0 <= i < 16 implies (#[trigger] r.lane(i) <==> outside(
        verm_class(c@, nocase@),
    )(data.lane(i))) by {
        assert(key.lane(i) == c@ & case_bits(nocase@));
        assert(casemask.lane(i) == case_bits(nocase@));
    }
    r
}

/// The first byte that is `c`.
pub fn vermicelli_exec<V: V128>(c: u8, nocase: bool, buf: &[u8]) -> (r: Option<usize>)
    ensures
        finds_first(buf@, verm_class(c, nocase), r),
{
    if buf.len() < 16 {
        return reference::verm_fwd(c, nocase, buf);
    }
    let cm: u8 = case_mask(nocase);
    let key = V::splat(c & cm);
    let casemask = V::splat(cm);
    let block = |data: V| -> (m: V::Mask)
        ensures
            marks(m, data, verm_class(c, nocase)),
        { block_verm(key, casemask, data, Ghost(c), Ghost(nocase)) };
    scan_fwd(buf, block, Ghost(verm_class(c, nocase)))
}

/// The first byte that is not `c`.
pub fn nvermicelli_exec<V: V128>(c: u8, nocase: bool, buf: &[u8]) -> (r: Option<usize>)
    ensures
        finds_first(buf@, outside(verm_class(c, nocase)), r),
{
    if buf.len() < 16 {
        return reference::nverm_fwd(c, nocase, buf);
    }
    let cm: u8 = case_mask(nocase);
    let key = V::splat(c & cm);
    let casemask = V::splat(cm);
    let block = |data: V| -> (m: V::Mask)
        ensures
            marks(m, data, outside(verm_class(c, nocase))),
        { block_nverm(key, casemask, data, Ghost(c), Ghost(nocase)) };
    scan_fwd(buf, block, Ghost(outside(verm_class(c, nocase))))
}

/// The last byte that is `c`.
pub fn rvermicelli_exec<V: V128>(c: u8, nocase: bool, buf: &[u8]) -> (r: Option<usize>)
    ensures
        finds_last(buf@, verm_class(c, nocase), r),
{
    if buf.len() < 16 {
        return reference::verm_rev(c, nocase, buf);
    }
    let cm: u8 = case_mask(nocase);
    let key = V::splat(c & cm);
    let casemask = V::splat(cm);
    let block = |data: V| -> (m: V::Mask)
        ensures
            marks(m, data, verm_class(c, nocase)),
        { block_verm(key, casemask, data, Ghost(c), Ghost(nocase)) };
    scan_rev(buf, block, Ghost(verm_class(c, nocase)))
}

/// The last byte that is not `c`.
pub fn rnvermicelli_exec<V: V128>(c: u8, nocase: bool, buf: &[u8]) -> (r: Option<usize>)
    ensures
        finds_last(buf@, outside(verm_class(c, nocase)), r),
{
    if buf.len() < 16 {
        return reference::nverm_rev(c, nocase, buf);
    }
    let cm: u8 = case_mask(nocase);
    let key = V::splat(c & cm);
    let casemask = V::splat(cm);
    let block = |data: V| -> (m: V::Mask)
        ensures
            marks(m, data, outside(verm_class(c, nocase))),
        { block_nverm(key, casemask, data, Ghost(c), Ghost(nocase)) };
    scan_rev(buf, block, Ghost(outside(verm_class(c, nocase))))
}

/// The tables of a double shufti: rows of the low and of the high nibble, for
/// the first byte of a pair and for the second. A bit that is clear in all
/// four stands for a match of its bucket.
pub struct PairTables {
    pub m1_lo: Seq<u8>,
    pub m1_hi: Seq<u8>,
    pub m2_lo: Seq<u8>,
    pub m2_hi: Seq<u8>,
}

impl PairTables {
    /// The buckets that `b` cannot start.
    pub open spec fn not_first(&self, b: u8) -> u8 {
        self.m1_lo[(b & 0x0f) as int] | self.m1_hi[(b >> 4) as int]
    }

    /// The buckets that `b` cannot end.
    pub open spec fn not_second(&self, b: u8) -> u8 {
        self.m2_lo[(b & 0x0f) as int] | self.m2_hi[(b >> 4) as int]
    }

    /// Two bytes are a pair of some bucket.
    pub open spec fn is_pair(&self, a: u8, b: u8) -> bool {
        self.not_first(a) | self.not_second(b) != 0xff
    }
}

/// A pair starts at position `p`.
pub open spec fn pair_at(t: PairTables, buf: Seq<u8>, p: int) -> bool {
    0 <= p && p + 1 < buf.len() && t.is_pair(buf[p], buf[p + 1])
}

/// The result of a search for a pair: where the first one starts, else the
/// last byte if a pair could start there and end in what follows.
pub open spec fn finds_pair(t: PairTables, buf: Seq<u8>, r: Option<usize>) -> bool {
    match r {
        Some(n) => {
            &&& n < buf.len()
            &&& forall|p: int| p < n ==> !#[trigger] pair_at(t, buf, p)
            &&& pair_at(t, buf, n as int) || (n == buf.len() - 1 && t.not_first(buf[n as int])
                != 0xff)
        },
        None => {
            &&& forall|p: int| !#[trigger] pair_at(t, buf, p)
            &&& buf.len() > 0 ==> t.not_first(buf.last()) == 0xff
        },
    }
}

/// One buffer has one result.
pub proof fn pair_is_unique(t: PairTables, buf: Seq<u8>, r: Option<usize>, q: Option<usize>)
    requires
        finds_pair(t, buf, r),
        finds_pair(t, buf, q),
    ensures
        r == q,
{
    match (r, q) {
        (Some(a), Some(b)) => {
            assert(pair_at(t, buf, a as int) == pair_at(t, buf, a as int));
            assert(pair_at(t, buf, b as int) == pair_at(t, buf, b as int));
        },
        (Some(a), None) => {
            assert(!pair_at(t, buf, a as int));
        },
        (None, Some(b)) => {
            assert(!pair_at(t, buf, b as int));
        },
        (None, None) => {},
    }
}

/// The lanes at which a pair ends, if `before` holds what the byte in front of
/// the vector cannot start in its last lane. Also what the bytes of the vector
/// cannot start.
fn block_shufti_double<V: V128>(
    m1_lo: V,
    m1_hi: V,
    m2_lo: V,
    m2_hi: V,
    before: V,
    chars: V,
    t: Ghost<PairTables>,
) -> (r: (V::Mask, V))
    requires
        holds_table(m1_lo, t@.m1_lo),
        holds_table(m1_hi, t@.m1_hi),
        holds_table(m2_lo, t@.m2_lo),
        holds_table(m2_hi, t@.m2_hi),
    ensures
        r.0.wf(),
        forall|i: int| 0 <= i < 16 ==> #[trigger] r.1.lane(i) == t@.not_first(chars.lane(i)),
        forall|i: int|
            0 <= i < 16 ==> (#[trigger] r.0.lane(i) <==> (if i == 0 {
                before.lane(15)
            } else {
                t@.not_first(chars.lane(i - 1))
            }) | t@.not_second(chars.lane(i)) != 0xff),
{
    let low4 = V::splat(0x0f);
    let chars_lo = chars.and(low4);
    let chars_hi = chars.shr64_by4().and(low4);
    let c1 = m1_lo.pshufb(chars_lo).or(m1_hi.pshufb(chars_hi));
    let c2 = m2_lo.pshufb(chars_lo).or(m2_hi.pshufb(chars_hi));
    assert forall|i: int| 0 <= i < 16 implies #[trigger] c1.lane(i) == t@.not_first(chars.lane(i))
        && c2.lane(i) == t@.not_second(chars.lane(i)) by {
        let b = chars.lane(i);
        lemma_nibbles(
            b,
            if i % 8 == 7 {
                0
            } else {
                chars.lane(i + 1)
            },
        );
        assert(m1_lo.lane((b & 0x0f) as int) == t@.m1_lo[(b & 0x0f) as int]);
        assert(m1_hi.lane((b >> 4) as int) == t@.m1_hi[(b >> 4) as int]);
        assert(m2_lo.lane((b & 0x0f) as int) == t@.m2_lo[(b & 0x0f) as int]);
        assert(m2_hi.lane((b >> 4) as int) == t@.m2_hi[(b >> 4) as int]);
    }
    let c = c1.alignr_15(before).or(c2);
    let ones = V::ones();
    let mask = c.neq_mask(ones);
    assert forall|i: int| 0 <= i < 16 implies (#[trigger] mask.lane(i) <==> (if i == 0 {
        before.lane(15)
    } else {
        t@.not_first(chars.lane(i - 1))
    }) | t@.not_second(chars.lane(i)) != 0xff) by {
        assert(c1.lane(i) == t@.not_first(chars.lane(i)));
        if i > 0 {
            assert(c1.lane(i - 1) == t@.not_first(chars.lane(i - 1)));
        }
        assert(ones.lane(i) == 0xff);
    }
    (mask, c1)
}

/// The last byte is a place to stop at if a pair can start there.
fn check_last_byte<V: V128>(state: V, mask_len: usize, len: usize) -> (r: Option<usize>)
    requires
        1 <= mask_len <= 16,
        len >= 1,
    ensures
        r == if state.lane(mask_len - 1) != 0xff {
            Some((len - 1) as usize)
        } else {
            None
        },
{
    let last_elem: u8 = state.to_array()[mask_len - 1];
    if last_elem != 0xff {
        Some(len - 1)
    } else {
        None
    }
}

/// The first pair of bytes, or the last byte if a pair can start there.
pub fn shufti_double_exec<V: V128>(
    m1_lo: &[u8; 16],
    m1_hi: &[u8; 16],
    m2_lo: &[u8; 16],
    m2_hi: &[u8; 16],
    buf: &[u8],
) -> (r: Option<usize>)
    ensures
        finds_pair(
            PairTables { m1_lo: m1_lo@, m1_hi: m1_hi@, m2_lo: m2_lo@, m2_hi: m2_hi@ },
            buf@,
            r,
        ),
{
    let ghost t = PairTables { m1_lo: m1_lo@, m1_hi: m1_hi@, m2_lo: m2_lo@, m2_hi: m2_hi@ };
    let len: usize = buf.len();
    if len == 0 {
        return None;
    }
    let m1l = V::loadu(m1_lo, 0);
    let m1h = V::loadu(m1_hi, 0);
    let m2l = V::loadu(m2_lo, 0);
    let m2h = V::loadu(m2_hi, 0);
    let mut state = V::ones();
    let mut d: usize = 0;
    while len - d >= 16
        invariant
            len == buf@.len(),
            len > 0,
            d <= len,
            d % 16 == 0,
            t == (PairTables {
                m1_lo: m1_lo@,
                m1_hi: m1_hi@,
                m2_lo: m2_lo@,
                m2_hi: m2_hi@,
            }),
            holds_table(m1l, t.m1_lo),
            holds_table(m1h, t.m1_hi),
            holds_table(m2l, t.m2_lo),
            holds_table(m2h, t.m2_hi),
            state.lane(15) == if d == 0 {
                0xff
            } else {
                t.not_first(buf@[d - 1])
            },
            forall|p: int| p + 1 < d ==> !#[trigger] pair_at(t, buf@, p),
        decreases len - d,
    {
        let chars = V::loadu(buf, d);
        let (m, next) = block_shufti_double(m1l, m1h, m2l, m2h, state, chars, Ghost(t));
        proof {
            lemma_block_pairs(t, buf@, d as int, chars, m, state.lane(15));
        }
        match m.first() {
            Some(i) => {
                proof {
                    assert(m.lane(i as int));
                    assert(pair_at(t, buf@, d + i - 1));
                    assert forall|p: int| p < d + i - 1 implies !#[trigger] pair_at(t, buf@, p) by {
                        if p + 1 >= d {
                            assert(!m.lane(p + 1 - d));
                        }
                    }
                }
                return Some(d + i as usize - 1);
            },
            None => {
                assert forall|p: int| p + 1 < d + 16 implies !#[trigger] pair_at(t, buf@, p) by {
                    if p + 1 >= d {
                        assert(!m.lane(p + 1 - d));
                    }
                }
            },
        }
        state = next;
        d = d + 16;
    }
    let mask_len: usize = if len < 16 {
        len
    } else {
        16
    };
    if d != len {
        let base: usize = if len < 16 {
            0
        } else {
            len - 16
        };
        let chars = if len < 16 {
            V::load_partial(buf)
        } else {
            V::loadu(buf, base)
        };
        let ones = V::ones();
        let (m, next) = block_shufti_double(m1l, m1h, m2l, m2h, ones, chars, Ghost(t));
        state = next;
        proof {
            lemma_tail_pairs(t, buf@, base as int, chars, m);
        }
        match m.first() {
            Some(i) => {
                proof {
                    assert(m.lane(i as int));
                    assert(i > 0);
                }
                let pos: usize = base + i as usize - 1;
                if pos < len - 1 {
                    proof {
                        assert(pair_at(t, buf@, pos as int));
                        assert forall|p: int| p < pos implies !#[trigger] pair_at(t, buf@, p) by {
                            if p >= base {
                                assert(!m.lane(p + 1 - base));
                            }
                        }
                    }
                    return Some(pos);
                }
                assert forall|p: int| !#[trigger] pair_at(t, buf@, p) by {
                    if p >= base && p + 1 < len {
                        assert(!m.lane(p + 1 - base));
                    }
                }
            },
            None => {
                assert forall|p: int| !#[trigger] pair_at(t, buf@, p) by {
                    if p >= base && p + 1 < len {
                        assert(!m.lane(p + 1 - base));
                    }
                }
            },
        }
    }
    check_last_byte(state, mask_len, len)
}

/// The lanes of a whole block and the pairs that end there.
proof fn lemma_block_pairs<V: V128>(
    t: PairTables,
    buf: Seq<u8>,
    d: int,
    chars: V,
    m: V::Mask,
    before: u8,
)
    requires
        0 <= d,
        d + 16 <= buf.len(),
        before == if d == 0 {
            0xff
        } else {
            t.not_first(buf[d - 1])
        },
        forall|i: int| 0 <= i < 16 ==> #[trigger] chars.lane(i) == buf[d + i],
        forall|i: int|
            0 <= i < 16 ==> (#[trigger] m.lane(i) <==> (if i == 0 {
                before
            } else {
                t.not_first(chars.lane(i - 1))
            }) | t.not_second(chars.lane(i)) != 0xff),
    ensures
        forall|i: int| 0 <= i < 16 ==> (#[trigger] m.lane(i) <==> pair_at(t, buf, d + i - 1)),
{
    assert forall|i: int| 0 <= i < 16 implies (#[trigger] m.lane(i) <==> pair_at(
        t,
        buf,
        d + i - 1,
    )) by {
        assert(chars.lane(i) == buf[d + i]);
        if i > 0 {
            assert(chars.lane(i - 1) == buf[d + (i - 1)]);
        } else {
            lemma_or(t.not_second(chars.lane(i)), 0, 0);
        }
    }
}

/// The lanes of the last block and the pairs that end there.
proof fn lemma_tail_pairs<V: V128>(t: PairTables, buf: Seq<u8>, base: int, chars: V, m: V::Mask)
    requires
        0 <= base < buf.len() <= base + 16,
        forall|i: int|
            0 <= i < 16 && base + i < buf.len() ==> #[trigger] chars.lane(i) == buf[base + i],
        forall|i: int|
            0 <= i < 16 ==> (#[trigger] m.lane(i) <==> (if i == 0 {
                0xff
            } else {
                t.not_first(chars.lane(i - 1))
            }) | t.not_second(chars.lane(i)) != 0xff),
    ensures
        !m.lane(0),
        forall|i: int|
            0 < i < 16 && base + i < buf.len() ==> (#[trigger] m.lane(i) <==> pair_at(
                t,
                buf,
                base + i - 1,
            )),
{
    lemma_or(t.not_second(chars.lane(0)), 0, 0);
    assert forall|i: int| 0 < i < 16 && base + i < buf.len() implies (#[trigger] m.lane(i)
        <==> pair_at(t, buf, base + i - 1)) by {
        assert(chars.lane(i) == buf[base + i]);
        assert(chars.lane(i - 1) == buf[base + (i - 1)]);
    }
}

} // verus!
