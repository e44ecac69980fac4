//! Teddy: a matcher for a few short literals.
//!
//! For each of up to four bytes at the end of a literal, two tables of 16
//! entries say which buckets a byte excludes, by its low and its high nibble.
//! What the bytes in front of a position do not exclude there is a candidate
//! and gets confirmed. Blocks of 16 bytes are looked at on their own: bytes in
//! front of a block exclude nothing in it.

use vstd::prelude::*;
use vstd::slice::slice_subrange;

use crate::bits::{lemma_byte, lemma_nibbles, lemma_or, lemma_word_is, lemma_zero_byte};
use crate::bytes::{byte_of, byte_or_zero, le32, le64, read_u32, u32_le};
use crate::hwlm::confirm::{
    confirm_ok, confirm_word, validate_confirm, word, word_inside, Track, Tracker, NUM_BUCKETS,
};
use crate::hwlm::fdr::{ending, fresh};
use crate::hwlm::{
    agrees, answered, answered_with_squash, answers_of, calls_of, lemma_agrees_prefix,
    lemma_answers_of_agrees, Answers, Call, ExecResult, Hit, HitSink, HwlmError, PlainSink, ScanCtl,
    SquashSink,
};
use crate::simd::lanes::{bit64, MaskOps};
use crate::simd::scalar::V128Scalar;
use crate::simd::V128;

verus! {

/// Where the nibble tables start.
pub const MASK_BASE: usize = 64;

/// How many bytes of a literal the tables look at.
pub open spec fn masks_of(b: Seq<u8>) -> int {
    (le32(b, 0) - 11) / 2 + 1
}

/// Where the confirm structures are.
pub open spec fn teddy_conf_of(b: Seq<u8>) -> int {
    le32(b, 16) as int
}

/// Where the nibble tables end.
pub open spec fn masks_end(b: Seq<u8>) -> int {
    MASK_BASE + 32 * masks_of(b)
}

/// What is wrong with the bytes of a table, cut to its size.
pub open spec fn teddy_body_fault(b: Seq<u8>) -> Option<HwlmError> {
    if b.len() < 20 {
        Some(HwlmError::Truncated)
    } else if !(masks_end(b) <= teddy_conf_of(b) && masks_end(b) <= b.len() && teddy_conf_of(b) + 4
        * NUM_BUCKETS <= b.len()) {
        Some(HwlmError::BadTable("оффсеты teddy не согласованы"))
    } else if !confirm_ok(b, teddy_conf_of(b)) {
        Some(HwlmError::BadTable("teddy confirm-регион вне size"))
    } else {
        None
    }
}

/// The engine is a Teddy with 8 buckets.
pub open spec fn teddy_engine(b: Seq<u8>) -> bool {
    11 <= le32(b, 0) <= 18
}

/// What is wrong with a table, if anything.
pub open spec fn teddy_fault(bytes: Seq<u8>) -> Option<HwlmError> {
    if bytes.len() < 4 {
        Some(HwlmError::Truncated)
    } else if !teddy_engine(bytes) {
        Some(HwlmError::BadTable("engineID вне base-teddy 11..18"))
    } else if bytes.len() < 8 || le32(bytes, 4) > bytes.len() {
        Some(HwlmError::Truncated)
    } else {
        teddy_body_fault(bytes.take(le32(bytes, 4) as int))
    }
}

/// A parsed table.
pub struct TeddyTable<'a> {
    /// The bytes of the table, cut to its size.
    pub bytes: &'a [u8],
    pub num_masks: usize,
    pub conf_offset: usize,
}

impl<'a> TeddyTable<'a> {
    /// The fields are those of the table, and the table is in order.
    pub open spec fn wf(&self) -> bool {
        &&& teddy_body_fault(self.bytes@) is None
        &&& teddy_engine(self.bytes@)
        &&& self.num_masks == masks_of(self.bytes@)
        &&& self.conf_offset == teddy_conf_of(self.bytes@)
    }

    /// Parses a table.
    pub fn parse(bytes: &'a [u8]) -> (r: Result<Self, HwlmError>)
        ensures
            match r {
                Ok(t) => teddy_fault(bytes@) is None && t.wf() && t.bytes@ == bytes@.take(
                    le32(bytes@, 4) as int,
                ),
                Err(e) => teddy_fault(bytes@) == Some(e),
            },
    {
        let engine_id: u32 = match u32_le(bytes, 0) {
            Some(id) => id,
            None => return Err(HwlmError::Truncated),
        };
        if engine_id < 11 || engine_id > 18 {
            return Err(HwlmError::BadTable("engineID вне base-teddy 11..18"));
        }
        let num_masks: usize = ((engine_id - 11) / 2 + 1) as usize;
        let size: u32 = match u32_le(bytes, 4) {
            Some(size) => size,
            None => return Err(HwlmError::Truncated),
        };
        if size as u64 > bytes.len() as u64 {
            return Err(HwlmError::Truncated);
        }
        let b = slice_subrange(bytes, 0, size as usize);
        assert(b@ =~= bytes@.take(size as int));
        if b.len() < 20 {
            return Err(HwlmError::Truncated);
        }
        let conf_offset: usize = read_u32(b, 16) as usize;
        let mask_end: u64 = MASK_BASE as u64 + 32 * num_masks as u64;
        if mask_end > size as u64 || conf_offset as u64 + 4 * NUM_BUCKETS as u64 > size as u64
            || (conf_offset as u64) < mask_end {
            return Err(HwlmError::BadTable("оффсеты teddy не согласованы"));
        }
        match validate_confirm(b, conf_offset, "teddy confirm-регион вне size") {
            Err(e) => Err(e),
            Ok(_) => Ok(TeddyTable { bytes: b, num_masks, conf_offset }),
        }
    }
}

/// The buckets that a byte excludes as the `m`-th from the end.
pub open spec fn nibble_share(b: Seq<u8>, m: int, c: u8) -> u8 {
    b[MASK_BASE + 32 * m + (c & 0x0f)] | b[MASK_BASE + 32 * m + 16 + (c >> 4)]
}

/// The buckets that the byte `m` in front of position `p + k` excludes there.
pub open spec fn teddy_share(b: Seq<u8>, buf: Seq<u8>, p: int, k: int, m: int) -> u8 {
    if m <= k {
        nibble_share(b, m, byte_or_zero(buf, p + k - m))
    } else {
        0
    }
}

/// The buckets that the last `n` bytes up to position `p + k` exclude there.
pub open spec fn teddy_swept(b: Seq<u8>, buf: Seq<u8>, p: int, k: int, n: int) -> u8
    decreases n,
{
    if n <= 0 {
        0
    } else {
        teddy_swept(b, buf, p, k, n - 1) | teddy_share(b, buf, p, k, n - 1)
    }
}

/// The buckets that cannot end at `p + k`.
pub open spec fn teddy_excluded(b: Seq<u8>, buf: Seq<u8>, p: int, k: int) -> u8 {
    if p + k >= buf.len() {
        0xff
    } else {
        teddy_swept(b, buf, p, k, masks_of(b))
    }
}

/// The candidates at the 8 positions from `p + 8 * half` on, one byte each.
pub open spec fn teddy_candidates(b: Seq<u8>, buf: Seq<u8>, p: int, half: int) -> u64 {
    le64(Seq::new(8, |k: int| !teddy_excluded(b, buf, p, 8 * half + k)), 0)
}

/// The 16 positions from `p` on.
#[verifier::opaque]
pub open spec fn teddy_block(b: Seq<u8>, buf: Seq<u8>, p: int, t: Track, s: Answers) -> Track {
    let conf = teddy_conf_of(b);
    let t1 = word(b, conf, false, teddy_candidates(b, buf, p, 0), p, buf, t, s);
    word(b, conf, false, teddy_candidates(b, buf, p, 1), p + 8, buf, t1, s)
}

/// The blocks from position `p` on.
pub open spec fn teddy_blocks(b: Seq<u8>, buf: Seq<u8>, p: int, t: Track, s: Answers) -> Track
    decreases buf.len() + 16 - p,
{
    if p >= buf.len() || !t.live {
        t
    } else {
        teddy_blocks(b, buf, p + 16, teddy_block(b, buf, p, t, s), s)
    }
}

/// A block from `start` on.
pub open spec fn teddy_scan(
    b: Seq<u8>,
    buf: Seq<u8>,
    start: int,
    calls: Seq<Call>,
    s: Answers,
) -> Track {
    teddy_blocks(b, buf, start, fresh(calls), s)
}

/// The buckets that are excluded at each position of a vector.
fn prep_conf<V: V128>(table: &TeddyTable, val: V, buf: Ghost<Seq<u8>>, p: Ghost<int>) -> (r: V)
    requires
        table.wf(),
        forall|k: int| 0 <= k < 16 ==> #[trigger] val.lane(k) == byte_or_zero(buf@, p@ + k),
    ensures
        forall|k: int|
            0 <= k < 16 ==> #[trigger] r.lane(k) == teddy_swept(
                table.bytes@,
                buf@,
                p@,
                k,
                masks_of(table.bytes@),
            ),
{
    let ghost b = table.bytes@;
    assert(b.len() == table.bytes.len());
    let mask0f = V::splat(0x0f);
    let lo = val.and(mask0f);
    let hi = val.shr64_by4().and(mask0f);
    assert forall|k: int| 0 <= k < 16 implies #[trigger] lo.lane(k) == val.lane(k) & 0x0f
        && hi.lane(k) == val.lane(k) >> 4 by {
        lemma_nibbles(
            val.lane(k),
            if k % 8 == 7 {
                0
            } else {
                val.lane(k + 1)
            },
        );
    }
    let mut r = V::zeroes();
    let mut m: usize = 0;
    while m < table.num_masks
        invariant
            table.wf(),
            b == table.bytes@,
            b.len() <= usize::MAX,
            m <= table.num_masks,
            forall|k: int| 0 <= k < 16 ==> #[trigger] val.lane(k) == byte_or_zero(buf@, p@ + k),
            forall|k: int|
                0 <= k < 16 ==> #[trigger] lo.lane(k) == val.lane(k) & 0x0f && hi.lane(k)
                    == val.lane(k) >> 4,
            forall|k: int|
                0 <= k < 16 ==> #[trigger] r.lane(k) == teddy_swept(b, buf@, p@, k, m as int),
        decreases table.num_masks - m,
    {
        let ghost r0 = r;
        let mask_lo = V::loadu(table.bytes, MASK_BASE + 32 * m);
        let mask_hi = V::loadu(table.bytes, MASK_BASE + 32 * m + 16);
        let res = mask_lo.pshufb(lo).or(mask_hi.pshufb(hi));
        r = r.or(res.shl_bytes(m));
        proof {
            assert forall|k: int| 0 <= k < 16 implies #[trigger] res.lane(k) == nibble_share(
                b,
                m as int,
                val.lane(k),
            ) by {
                lemma_nibbles(val.lane(k), 0);
                assert(lo.lane(k) == val.lane(k) & 0x0f);
                assert(mask_lo.lane((val.lane(k) & 0x0f) as int) == b[MASK_BASE + 32 * m + (
                val.lane(k) & 0x0f)]);
                assert(mask_hi.lane((val.lane(k) >> 4) as int) == b[MASK_BASE + 32 * m + 16 + (
                val.lane(k) >> 4)]);
            }
            assert forall|k: int| 0 <= k < 16 implies #[trigger] r.lane(k) == teddy_swept(
                b,
                buf@,
                p@,
                k,
                m + 1,
            ) by {
                lemma_or(r0.lane(k), 0, 0);
                if m <= k {
                    assert(res.lane(k - m) == nibble_share(b, m as int, val.lane(k - m)));
                }
            }
        }
        m = m + 1;
    }
    r
}

/// A word whose bytes are not `excluded` is made of candidates.
proof fn lemma_teddy_word(b: Seq<u8>, buf: Seq<u8>, p: int, half: int, excluded: u64)
    requires
        0 <= p,
        half == 0 || half == 1,
        forall|k: int|
            0 <= k < 8 ==> #[trigger] byte_of(excluded, k) == teddy_excluded(
                b,
                buf,
                p,
                8 * half + k,
            ),
    ensures
        !excluded == teddy_candidates(b, buf, p, half),
        word_inside(!excluded, p + 8 * half, buf.len()),
{
    let bytes = Seq::new(8, |k: int| !teddy_excluded(b, buf, p, 8 * half + k));
    assert forall|k: int| 0 <= k < 8 implies #[trigger] byte_of(!excluded, k) == bytes[k] by {
        lemma_byte(excluded, 8 * k);
        assert(byte_of(excluded, k) == teddy_excluded(b, buf, p, 8 * half + k));
    }
    lemma_word_is(!excluded, bytes);
    assert forall|n: int| 0 <= n < 64 && #[trigger] bit64(!excluded, n) implies 0 <= p + 8 * half + n
        / 8 < buf.len() by {
        lemma_byte(!excluded, n);
        assert(byte_of(!excluded, n / 8) == bytes[n / 8]);
        lemma_or(0, 0, 0);
    }
}

/// No candidates, no calls.
proof fn lemma_teddy_nothing(b: Seq<u8>, buf: Seq<u8>, p: int)
    requires
        forall|k: int| 0 <= k < 16 ==> #[trigger] teddy_excluded(b, buf, p, k) == 0xff,
    ensures
        forall|t: Track, s: Answers| #[trigger] teddy_block(b, buf, p, t, s) == t,
{
    reveal(teddy_block);
    lemma_or(0, 0, 0);
    assert forall|half: int| half == 0 || half == 1 implies #[trigger] teddy_candidates(
        b,
        buf,
        p,
        half,
    ) == 0 by {
        assert forall|k: int| 0 <= k < 8 implies #[trigger] byte_of(0, k) == !teddy_excluded(
            b,
            buf,
            p,
            8 * half + k,
        ) by {
            lemma_zero_byte(k);
        }
        lemma_word_is(0, Seq::new(8, |k: int| !teddy_excluded(b, buf, p, 8 * half + k)));
    }
}

impl<'a> TeddyTable<'a> {
    /// Confirms the candidates at 16 positions.
    fn confirm_block<S: HitSink>(
        &self,
        buf: &[u8],
        p: usize,
        lo: u64,
        hi: u64,
        st: &mut Tracker,
        sink: &mut S,
    )
        requires
            self.wf(),
            forall|k: int|
                0 <= k < 8 ==> #[trigger] byte_of(lo, k) == teddy_excluded(
                    self.bytes@,
                    buf@,
                    p as int,
                    8 * 0 + k,
                ),
            forall|k: int|
                0 <= k < 8 ==> #[trigger] byte_of(hi, k) == teddy_excluded(
                    self.bytes@,
                    buf@,
                    p as int,
                    8 * 1 + k,
                ),
            buf@.len() <= old(sink).limit(),
            old(sink).inv(),
        ensures
            final(sink).inv(),
            final(sink).fixed() == old(sink).fixed(),
            final(sink).limit() == old(sink).limit(),
            old(sink).log().is_prefix_of(final(sink).log()),
            forall|s: Answers| #[trigger]
                agrees(s, final(sink).log()) ==> teddy_block(
                    self.bytes@,
                    buf@,
                    p as int,
                    old(st).track(old(sink).log()),
                    s,
                ) == final(st).track(final(sink).log()),
    {
        reveal(teddy_block);
        proof {
            lemma_teddy_word(self.bytes@, buf@, p as int, 0, lo);
            lemma_teddy_word(self.bytes@, buf@, p as int, 1, hi);
        }
        let base: i128 = p as i128;
        confirm_word(self.bytes, self.conf_offset, false, !lo, base, buf, st, sink);
        let ghost log1 = sink.log();
        confirm_word(self.bytes, self.conf_offset, false, !hi, base + 8, buf, st, sink);
        proof {
            assert forall|s: Answers| #[trigger] agrees(s, sink.log()) implies agrees(s, log1) by {
                lemma_agrees_prefix(s, sink.log(), log1);
            }
        }
    }

    /// Scans the 16 positions from `p` on, or those that are left.
    fn scan_block<V: V128, S: HitSink>(&self, buf: &[u8], p: usize, st: &mut Tracker, sink: &mut S)
        requires
            self.wf(),
            p < buf@.len(),
            buf@.len() <= old(sink).limit(),
            old(sink).inv(),
        ensures
            final(sink).inv(),
            final(sink).fixed() == old(sink).fixed(),
            final(sink).limit() == old(sink).limit(),
            old(sink).log().is_prefix_of(final(sink).log()),
            forall|s: Answers| #[trigger]
                agrees(s, final(sink).log()) ==> teddy_block(
                    self.bytes@,
                    buf@,
                    p as int,
                    old(st).track(old(sink).log()),
                    s,
                ) == final(st).track(final(sink).log()),
    {
        let ghost b = self.bytes@;
        let len: usize = buf.len();
        let r: V = if len - p >= 16 {
            let val = V::loadu(buf, p);
            prep_conf(self, val, Ghost(buf@), Ghost(p as int))
        } else {
            let tail: usize = len - p;
            let val = V::load_partial(slice_subrange(buf, p, len));
            let mut rb: [u8; 16] = prep_conf(
                self,
                val,
                Ghost(buf@),
                Ghost(p as int),
            ).to_array();
            let mut k: usize = tail;
            while k < 16
                invariant
                    tail <= k <= 16,
                    tail == buf@.len() - p,
                    forall|i: int|
                        0 <= i < 16 ==> #[trigger] rb@[i] == if tail <= i < k {
                            0xffu8
                        } else {
                            teddy_swept(b, buf@, p as int, i, masks_of(b))
                        },
                decreases 16 - k,
            {
                rb[k] = 0xff;
                k = k + 1;
            }
            V::loadu(&rb, 0)
        };
        assert forall|k: int| 0 <= k < 16 implies #[trigger] r.lane(k) == teddy_excluded(
            b,
            buf@,
            p as int,
            k,
        ) by {}
        let ones = V::ones();
        let differ = r.neq_mask(ones);
        if differ.any() {
            let lo: u64 = r.to_u64_low();
            let hi: u64 = r.shr_bytes(8).to_u64_low();
            self.confirm_block(buf, p, lo, hi, st, sink);
        } else {
            proof {
                assert forall|k: int| 0 <= k < 16 implies #[trigger] teddy_excluded(
                    b,
                    buf@,
                    p as int,
                    k,
                ) == 0xff by {
                    assert(r.lane(k) == teddy_excluded(b, buf@, p as int, k));
                    assert(ones.lane(k) == 0xff);
                    assert(!differ.lane(k));
                }
                lemma_teddy_nothing(b, buf@, p as int);
            }
        }
    }

    /// Scans a block from `start` on and hands its hits to a sink.
    pub fn run<V: V128, S: HitSink>(&self, buf: &[u8], start: usize, sink: &mut S) -> (r: ExecResult)
        requires
            self.wf(),
            buf@.len() <= old(sink).limit(),
            old(sink).inv(),
        ensures
            final(sink).inv(),
            final(sink).fixed() == old(sink).fixed(),
            final(sink).limit() == old(sink).limit(),
            old(sink).log().is_prefix_of(final(sink).log()),
            forall|s: Answers| #[trigger]
                agrees(s, final(sink).log()) ==> {
                    let t = teddy_scan(
                        self.bytes@,
                        buf@,
                        start as int,
                        calls_of(old(sink).log()),
                        s,
                    );
                    t.calls == calls_of(final(sink).log()) && r == ending(t)
                },
    {
        let ghost b = self.bytes@;
        let len: usize = buf.len();
        let mut st = Tracker::new();
        let ghost first = st.track(sink.log());
        let mut p: usize = start;
        let mut more = p < len;
        while more && st.live
            invariant
                self.wf(),
                b == self.bytes@,
                len == buf@.len(),
                more ==> p < len,
                buf@.len() <= sink.limit(),
                sink.inv(),
                sink.fixed() == old(sink).fixed(),
                sink.limit() == old(sink).limit(),
                old(sink).log().is_prefix_of(sink.log()),
                forall|s: Answers| #[trigger]
                    agrees(s, sink.log()) ==> teddy_blocks(b, buf@, start as int, first, s)
                        == if more {
                        teddy_blocks(b, buf@, p as int, st.track(sink.log()), s)
                    } else {
                        st.track(sink.log())
                    },
            decreases
                    if more {
                        len - p
                    } else {
                        0
                    },
        {
            let ghost log0 = sink.log();
            self.scan_block::<V, S>(buf, p, &mut st, sink);
            proof {
                assert forall|s: Answers| #[trigger] agrees(s, sink.log()) implies teddy_blocks(
                    b,
                    buf@,
                    start as int,
                    first,
                    s,
                ) == teddy_blocks(b, buf@, p + 16, st.track(sink.log()), s) by {
                    lemma_agrees_prefix(s, sink.log(), log0);
                }
            }
            if len - p > 16 {
                p = p + 16;
            } else {
                more = false;
            }
        }
        if st.live {
            ExecResult::Completed
        } else {
            ExecResult::Terminated
        }
    }
}

/// A log and a result that a scan of a block can have.
pub open spec fn teddy_outcome(
    b: Seq<u8>,
    buf: Seq<u8>,
    start: int,
    log: Seq<Hit>,
    r: ExecResult,
) -> bool {
    let t = teddy_scan(b, buf, start, Seq::empty(), answers_of(log));
    &&& t.calls == calls_of(log)
    &&& r == ending(t)
}

impl<'a> TeddyTable<'a> {
    /// Scans a block from `start` on. `cb` gets the position of the last byte
    /// of each hit, and the literal's id.
    pub fn exec<F: FnMut(u64, u32) -> ScanCtl>(&self, buf: &[u8], start: usize, cb: &mut F) -> (r:
        ExecResult)
        requires
            self.wf(),
            forall|end: u64, id: u32| #[trigger] call_requires(*old(cb), (end, id)),
        ensures
            exists|log: Seq<Hit>| #[trigger]
                teddy_outcome(self.bytes@, buf@, start as int, log, r) && answered(*old(cb), log),
    {
        assert(buf@.len() == buf.len());
        let mut sink = PlainSink { cb, hits: Ghost(Seq::empty()) };
        assert(calls_of(sink.log()) =~= Seq::empty());
        let r = self.run::<V128Scalar, PlainSink<F>>(buf, start, &mut sink);
        proof {
            lemma_answers_of_agrees(sink.log());
            assert(teddy_outcome(self.bytes@, buf@, start as int, sink.log(), r));
            assert(answered(*old(cb), sink.log()));
        }
        r
    }

    /// Like [`TeddyTable::exec`]; `cb` also answers which buckets to squash at
    /// the current position.
    pub fn exec_squash<F: FnMut(u64, u32) -> (ScanCtl, u8)>(
        &self,
        buf: &[u8],
        start: usize,
        cb: &mut F,
    ) -> (r: ExecResult)
        requires
            self.wf(),
            forall|end: u64, id: u32| #[trigger] call_requires(*old(cb), (end, id)),
        ensures
            exists|log: Seq<Hit>| #[trigger]
                teddy_outcome(self.bytes@, buf@, start as int, log, r) && answered_with_squash(
                    *old(cb),
                    log,
                ),
    {
        assert(buf@.len() == buf.len());
        let mut sink = SquashSink { cb, hits: Ghost(Seq::empty()) };
        assert(calls_of(sink.log()) =~= Seq::empty());
        let r = self.run::<V128Scalar, SquashSink<F>>(buf, start, &mut sink);
        proof {
            lemma_answers_of_agrees(sink.log());
            assert(teddy_outcome(self.bytes@, buf@, start as int, sink.log(), r));
            assert(answered_with_squash(*old(cb), sink.log()));
        }
        r
    }
}

} // verus!
