//! FDR: a matcher for many literals.
//!
//! A sliding state of 16 bytes says which buckets cannot end at which of the
//! next positions. At each position a hash of two bytes chooses an entry of a
//! table, which excludes buckets at that position and the seven behind it.
//! What is not excluded is a candidate and gets confirmed.
//!
//! The table comes as bytes that are not trusted. It is checked when it is
//! parsed; a table that passes can be scanned with whatever else it holds.

use vstd::prelude::*;
use vstd::slice::slice_subrange;

use crate::bits::{lemma_byte, lemma_or, lemma_word_is};
use crate::bytes::{byte_of, byte_or_zero, le16, le32, le64, read_u16, read_u32};
use crate::hwlm::confirm::{
    confirm_ok, confirm_word, validate_confirm, word, word_inside, Track, Tracker,
    INVALID_MATCH_ID, NUM_BUCKETS,
};
use crate::hwlm::flood::{
    first_try, flood, flood_detect, next_flood_detect, FLOOD_BACKOFF_START, FLOOD_STRUCT_SIZE,
};
use crate::hwlm::zones::{prepare_zones, spans, zones_show, Span, Zone, ITER_BYTES};
use crate::hwlm::{
    agrees, answered, answered_with_squash, answers_of, calls_of, lemma_agrees_prefix,
    lemma_answers_of_agrees, Answers, Call, ExecResult, Hit, HitSink, HwlmError, PlainSink, ScanCtl,
    SquashSink,
};
use crate::simd::lanes::bit64;
use crate::simd::scalar::V128Scalar;
use crate::simd::V128;

verus! {

/// Where the hash table starts.
pub const FT_OFFSET: usize = 64;

/// The bytes of the header that hold fields.
pub const FDR_HEADER: usize = 48;

/// How far apart the positions are at which the table is asked.
pub open spec fn stride_of(b: Seq<u8>) -> int {
    b[24] as int
}

/// How many bits the hash has.
pub open spec fn domain_of(b: Seq<u8>) -> int {
    b[25] as int
}

/// The bits of the hash.
pub open spec fn domain_mask_of(b: Seq<u8>) -> u64 {
    le16(b, 26) as u64
}

/// Where the confirm structures are.
pub open spec fn conf_of(b: Seq<u8>) -> int {
    le32(b, 16) as int
}

/// Where the flood records are.
pub open spec fn flood_of(b: Seq<u8>) -> int {
    le32(b, 20) as int
}

pub open spec fn stride_ok(b: Seq<u8>) -> bool {
    stride_of(b) == 1 || stride_of(b) == 2 || stride_of(b) == 4
}

pub open spec fn domain_ok(b: Seq<u8>) -> bool {
    9 <= domain_of(b) < 16 && domain_mask_of(b) == (1u64 << (domain_of(b) as u64)) - 1
}

/// The parts of the table follow each other and are inside it.
pub open spec fn layout_ok(b: Seq<u8>) -> bool {
    &&& FT_OFFSET + (domain_mask_of(b) + 1) * 8 <= conf_of(b)
    &&& conf_of(b) + 4 * NUM_BUCKETS <= flood_of(b)
    &&& flood_of(b) + 4 * 256 + FLOOD_STRUCT_SIZE <= b.len()
}

/// What is wrong with the bytes of a table, cut to its size.
pub open spec fn body_fault(b: Seq<u8>) -> Option<HwlmError> {
    if b.len() < FDR_HEADER {
        Some(HwlmError::Truncated)
    } else if !stride_ok(b) {
        Some(HwlmError::BadTable("stride не 1/2/4"))
    } else if !domain_ok(b) {
        Some(HwlmError::BadTable("domain/domainMask"))
    } else if !layout_ok(b) {
        Some(HwlmError::BadTable("оффсеты таблиц не согласованы"))
    } else if !confirm_ok(b, conf_of(b)) {
        Some(HwlmError::BadTable("confirm-регион вне size"))
    } else {
        None
    }
}

/// What is wrong with a table, if anything.
pub open spec fn fdr_fault(bytes: Seq<u8>) -> Option<HwlmError> {
    if bytes.len() < FT_OFFSET {
        Some(HwlmError::Truncated)
    } else if le32(bytes, 0) != 0 {
        Some(HwlmError::BadTable("engineID != 0 (teddy?)"))
    } else if le32(bytes, 4) > bytes.len() {
        Some(HwlmError::Truncated)
    } else {
        body_fault(bytes.take(le32(bytes, 4) as int))
    }
}

/// A parsed table.
pub struct FdrTable<'a> {
    /// The bytes of the table, cut to its size.
    pub bytes: &'a [u8],
    pub stride: usize,
    pub domain_mask: u64,
    pub conf_offset: usize,
    pub flood_offset: usize,
}

impl<'a> FdrTable<'a> {
    /// The fields are those of the table, and the table is in order.
    pub open spec fn wf(&self) -> bool {
        &&& body_fault(self.bytes@) is None
        &&& self.stride == stride_of(self.bytes@)
        &&& self.domain_mask == domain_mask_of(self.bytes@)
        &&& self.conf_offset == conf_of(self.bytes@)
        &&& self.flood_offset == flood_of(self.bytes@)
    }

    /// Parses a table.
    pub fn parse(bytes: &'a [u8]) -> (r: Result<Self, HwlmError>)
        ensures
            match r {
                Ok(t) => fdr_fault(bytes@) is None && t.wf() && t.bytes@ == bytes@.take(
                    le32(bytes@, 4) as int,
                ),
                Err(e) => fdr_fault(bytes@) == Some(e),
            },
    {
        if bytes.len() < FT_OFFSET {
            return Err(HwlmError::Truncated);
        }
        if read_u32(bytes, 0) != 0 {
            return Err(HwlmError::BadTable("engineID != 0 (teddy?)"));
        }
        let size: u32 = read_u32(bytes, 4);
        if size as u64 > bytes.len() as u64 {
            return Err(HwlmError::Truncated);
        }
        let b = slice_subrange(bytes, 0, size as usize);
        assert(b@ =~= bytes@.take(size as int));
        if b.len() < FDR_HEADER {
            return Err(HwlmError::Truncated);
        }
        let conf_offset: usize = read_u32(b, 16) as usize;
        let flood_offset: usize = read_u32(b, 20) as usize;
        let stride: usize = b[24] as usize;
        let domain: u8 = b[25];
        let domain_mask: u64 = read_u16(b, 26) as u64;
        if !(stride == 1 || stride == 2 || stride == 4) {
            return Err(HwlmError::BadTable("stride не 1/2/4"));
        }
        if domain < 9 || domain >= 16 || domain_mask + 1 != 1u64 << (domain as u64) {
            return Err(HwlmError::BadTable("domain/domainMask"));
        }
        let ft_end: u64 = FT_OFFSET as u64 + (domain_mask + 1) * 8;
        if ft_end > conf_offset as u64 || conf_offset as u64 + 4 * NUM_BUCKETS as u64
            > flood_offset as u64 || flood_offset as u64 + 4 * 256 + FLOOD_STRUCT_SIZE
            > size as u64 {
            return Err(HwlmError::BadTable("оффсеты таблиц не согласованы"));
        }
        match validate_confirm(b, conf_offset, "confirm-регион вне size") {
            Err(e) => Err(e),
            Ok(_) => Ok(FdrTable { bytes: b, stride, domain_mask, conf_offset, flood_offset }),
        }
    }
}

/// Two bytes of the block, the first one lower.
pub open spec fn pair_at(buf: Seq<u8>, p: int) -> u64 {
    (byte_or_zero(buf, p) as u64) | ((byte_or_zero(buf, p + 1) as u64) << 8)
}

/// The entry of the hash table that position `p` chooses.
pub open spec fn reach(b: Seq<u8>, buf: Seq<u8>, p: int) -> int {
    (domain_mask_of(b) & pair_at(buf, p)) as int
}

/// The buckets that position `it + i` excludes at position `it + k`.
pub open spec fn share(b: Seq<u8>, buf: Seq<u8>, it: int, i: int, k: int) -> u8 {
    if i % stride_of(b) == 0 && 0 <= k - i < 8 {
        b[FT_OFFSET + 8 * reach(b, buf, it + i) + (k - i)]
    } else {
        0
    }
}

/// The buckets that positions `it + from .. it + to` exclude at `it + k`.
pub open spec fn swept(b: Seq<u8>, buf: Seq<u8>, it: int, k: int, from: int, to: int) -> u8
    decreases to - from,
{
    if to <= from {
        0
    } else {
        swept(b, buf, it, k, from, to - 1) | share(b, buf, it, to - 1, k)
    }
}

/// The buckets that cannot end at `it + k`, after a state and 16 positions.
pub open spec fn excluded(b: Seq<u8>, buf: Seq<u8>, it: int, state: Seq<u8>, k: int) -> u8 {
    (if k < 16 {
        state[k]
    } else {
        0
    }) | swept(b, buf, it, k, 0, 16)
}

/// The candidates at the 8 positions from `it + 8 * half` on, one byte each.
pub open spec fn candidates(b: Seq<u8>, buf: Seq<u8>, it: int, state: Seq<u8>, half: int) -> u64 {
    le64(Seq::new(8, |k: int| !excluded(b, buf, it, state, 8 * half + k)), 0)
}

/// The state 16 positions further.
pub open spec fn next_state(b: Seq<u8>, buf: Seq<u8>, it: int, state: Seq<u8>) -> Seq<u8> {
    Seq::new(
        16,
        |k: int|
            if k < 8 {
                excluded(b, buf, it, state, 16 + k)
            } else {
                0
            },
    )
}

/// The state at the start of a stretch: nothing ends at its first `shift`
/// positions.
pub open spec fn entered(state: Seq<u8>, shift: int) -> Seq<u8> {
    Seq::new(
        16,
        |k: int|
            if k < shift {
                0xff
            } else {
                state[k - shift]
            },
    )
}

/// A vector holds a state.
pub open spec fn holds_state<V: V128>(v: V, state: Seq<u8>) -> bool {
    state.len() == 16 && forall|k: int| 0 <= k < 16 ==> #[trigger] v.lane(k) == state[k]
}

proof fn lemma_reach(b: Seq<u8>, buf: Seq<u8>, p: int)
    ensures
        0 <= reach(b, buf, p) <= domain_mask_of(b),
{
    let dm = domain_mask_of(b);
    let w = pair_at(buf, p);
    assert(dm & w <= dm) by (bit_vector);
}

/// What two neighbouring stretches of positions exclude.
proof fn lemma_swept_split(b: Seq<u8>, buf: Seq<u8>, it: int, k: int, mid: int, to: int)
    requires
        0 <= mid <= to,
    ensures
        swept(b, buf, it, k, 0, to) == swept(b, buf, it, k, 0, mid) | swept(
            b,
            buf,
            it,
            k,
            mid,
            to,
        ),
    decreases to - mid,
{
    if to == mid {
        lemma_or(swept(b, buf, it, k, 0, mid), 0, 0);
    } else {
        lemma_swept_split(b, buf, it, k, mid, to - 1);
        lemma_or(
            swept(b, buf, it, k, 0, mid),
            swept(b, buf, it, k, mid, to - 1),
            share(b, buf, it, to - 1, k),
        );
    }
}

/// Positions behind `it + k`, or more than 8 in front of it, exclude nothing
/// there.
proof fn lemma_swept_none(b: Seq<u8>, buf: Seq<u8>, it: int, k: int, from: int, to: int)
    requires
        k < from || to <= k - 7,
    ensures
        swept(b, buf, it, k, from, to) == 0,
    decreases to - from,
{
    if from < to {
        lemma_swept_none(b, buf, it, k, from, to - 1);
        lemma_or(0, 0, 0);
    }
}

/// The candidates at 16 positions, and the state behind them. The block is
/// seen through `data`, where position `it` is.
pub(crate) fn get_conf_stride<V: V128>(
    table: &FdrTable,
    data: &[u8],
    it: usize,
    state: V,
    buf: Ghost<Seq<u8>>,
    main_it: Ghost<int>,
    old_state: Ghost<Seq<u8>>,
) -> (r: (u64, u64, V))
    requires
        table.wf(),
        it + 16 < data@.len(),
        holds_state(state, old_state@),
        forall|k: int|
            it <= k <= it + 16 ==> #[trigger] data@[k] == byte_or_zero(buf@, main_it@ + (k - it)),
    ensures
        r.0 == candidates(table.bytes@, buf@, main_it@, old_state@, 0),
        r.1 == candidates(table.bytes@, buf@, main_it@, old_state@, 1),
        holds_state(r.2, next_state(table.bytes@, buf@, main_it@, old_state@)),
{
    let ghost b = table.bytes@;
    assert(data@.len() == data.len());
    assert(b.len() == table.bytes.len());
    let mut lo = V::zeroes();
    let mut hi = V::zeroes();
    let mut i: usize = 0;
    while i < 16
        invariant
            i <= 16,
            table.wf(),
            b == table.bytes@,
            b.len() <= usize::MAX,
            it + 16 < data@.len() <= usize::MAX,
            forall|k: int|
                it <= k <= it + 16 ==> #[trigger] data@[k] == byte_or_zero(
                    buf@,
                    main_it@ + (k - it),
                ),
            forall|k: int|
                0 <= k < 16 ==> #[trigger] lo.lane(k) == swept(
                    b,
                    buf@,
                    main_it@,
                    k,
                    0,
                    if i < 8 {
                        i as int
                    } else {
                        8
                    },
                ),
            forall|k: int|
                0 <= k < 16 ==> #[trigger] hi.lane(k) == swept(
                    b,
                    buf@,
                    main_it@,
                    k + 8,
                    8,
                    i as int,
                ),
        decreases 16 - i,
    {
        let ghost lo0 = lo;
        let ghost hi0 = hi;
        if i % table.stride == 0 {
            let pair: u64 = (data[it + i] as u64) | ((data[it + i + 1] as u64) << 8);
            assert(pair == pair_at(buf@, main_it@ + i));
            proof {
                lemma_reach(b, buf@, main_it@ + i);
            }
            let index: usize = (table.domain_mask & pair) as usize;
            let entry = V::load_low64(table.bytes, FT_OFFSET + 8 * index).shl_bytes(i % 8);
            if i < 8 {
                lo = lo.or(entry);
            } else {
                hi = hi.or(entry);
            }
        }
        proof {
            assert forall|k: int| 0 <= k < 16 implies #[trigger] lo.lane(k) == swept(
                b,
                buf@,
                main_it@,
                k,
                0,
                if i + 1 < 8 {
                    i + 1
                } else {
                    8
                },
            ) by {
                lemma_or(lo0.lane(k), 0, 0);
            }
            assert forall|k: int| 0 <= k < 16 implies #[trigger] hi.lane(k) == swept(
                b,
                buf@,
                main_it@,
                k + 8,
                8,
                i + 1,
            ) by {
                lemma_or(hi0.lane(k), 0, 0);
            }
        }
        i = i + 1;
    }
    let st0 = state.or(lo);
    let st8 = st0.shr_bytes(8).or(hi);
    let low0: u64 = st0.to_u64_low();
    let low8: u64 = st8.to_u64_low();
    let conf0: u64 = !low0;
    let conf8: u64 = !low8;
    let next = st8.shr_bytes(8);
    proof {
        assert forall|k: int| 0 <= k < 8 implies #[trigger] st0.lane(k) == excluded(
            b,
            buf@,
            main_it@,
            old_state@,
            k,
        ) && st8.lane(k) == excluded(b, buf@, main_it@, old_state@, 8 + k) && next.lane(k)
            == excluded(b, buf@, main_it@, old_state@, 16 + k) && next.lane(8 + k) == 0 by {
            lemma_swept_split(b, buf@, main_it@, k, 8, 16);
            lemma_swept_split(b, buf@, main_it@, 8 + k, 8, 16);
            lemma_swept_split(b, buf@, main_it@, 16 + k, 8, 16);
            lemma_swept_none(b, buf@, main_it@, k, 8, 16);
            lemma_swept_none(b, buf@, main_it@, 16 + k, 0, 8);
            lemma_or(lo.lane(k), 0, 0);
            lemma_or(hi.lane(8 + k), 0, 0);
            lemma_or(old_state@[8 + k], lo.lane(8 + k), hi.lane(k));
            lemma_or(swept(b, buf@, main_it@, 16 + k, 0, 16), 0, 0);
        }
        let bytes0 = Seq::new(8, |k: int| !excluded(b, buf@, main_it@, old_state@, 8 * 0 + k));
        let bytes8 = Seq::new(8, |k: int| !excluded(b, buf@, main_it@, old_state@, 8 * 1 + k));
        assert forall|k: int| 0 <= k < 8 implies #[trigger] byte_of(conf0, k) == bytes0[k] by {
            lemma_byte(low0, 8 * k);
            assert(byte_of(low0, k) == st0.lane(k));
            assert(st0.lane(k) == excluded(b, buf@, main_it@, old_state@, k));
        }
        assert forall|k: int| 0 <= k < 8 implies #[trigger] byte_of(conf8, k) == bytes8[k] by {
            lemma_byte(low8, 8 * k);
            assert(byte_of(low8, k) == st8.lane(k));
            assert(st0.lane(k) == excluded(b, buf@, main_it@, old_state@, k));
            assert(st8.lane(k) == excluded(b, buf@, main_it@, old_state@, 8 + k));
        }
        lemma_word_is(conf0, bytes0);
        lemma_word_is(conf8, bytes8);
        assert forall|k: int| 0 <= k < 16 implies #[trigger] next.lane(k) == next_state(
            b,
            buf@,
            main_it@,
            old_state@,
        )[k] by {
            let n = if k < 8 {
                k
            } else {
                k - 8
            };
            assert(st0.lane(n) == excluded(b, buf@, main_it@, old_state@, n));
        }
    }
    (conf0, conf8, next)
}

/// A scan between two steps.
#[verifier::ext_equal]
pub struct Scan {
    pub t: Track,
    pub state: Seq<u8>,
    pub backoff: u32,
}

/// The 16 positions from `it` on.
#[verifier::opaque]
pub open spec fn sixteen(b: Seq<u8>, buf: Seq<u8>, it: int, sc: Scan, s: Answers) -> Scan {
    let t1 = word(
        b,
        conf_of(b),
        true,
        candidates(b, buf, it, sc.state, 0),
        it,
        buf,
        sc.t,
        s,
    );
    let t2 = word(b, conf_of(b), true, candidates(b, buf, it, sc.state, 1), it + 8, buf, t1, s);
    Scan { t: t2, state: next_state(b, buf, it, sc.state), backoff: sc.backoff }
}

/// A scan at a position of a stretch.
#[verifier::ext_equal]
pub struct Place {
    pub it: int,
    /// Behind this position a flood is looked for.
    pub try_from: int,
    pub sc: Scan,
}

/// One step: where the stretch is read in place, first a look for a flood.
#[verifier::opaque]
pub open spec fn advance(
    b: Seq<u8>,
    buf: Seq<u8>,
    phase: int,
    main: bool,
    at: Place,
    s: Answers,
) -> Place {
    if main && at.it > at.try_from {
        let f = flood(b, flood_of(b), buf, phase, at.it, at.sc.backoff, at.sc.t, s);
        let sc = Scan { t: f.t, state: at.sc.state, backoff: f.backoff };
        Place {
            it: f.it + 16,
            try_from: f.try_from,
            sc: if f.t.live {
                sixteen(b, buf, f.it, sc, s)
            } else {
                sc
            },
        }
    } else {
        Place { it: at.it + 16, sc: sixteen(b, buf, at.it, at.sc, s), ..at }
    }
}

/// A stretch up to `to`. No step leads behind it.
pub open spec fn stretch(
    b: Seq<u8>,
    buf: Seq<u8>,
    phase: int,
    main: bool,
    to: int,
    at: Place,
    s: Answers,
) -> Scan
    decreases to - at.it,
{
    let next = advance(b, buf, phase, main, at, s);
    if at.it + 16 > to || !at.sc.t.live {
        at.sc
    } else if !(at.it < next.it <= to) {
        next.sc
    } else {
        stretch(b, buf, phase, main, to, next, s)
    }
}

/// The stretches of a block, from the `k`-th on.
pub open spec fn stretches(
    b: Seq<u8>,
    buf: Seq<u8>,
    phase: int,
    spans: Seq<Span>,
    k: int,
    sc: Scan,
    s: Answers,
) -> Scan
    decreases spans.len() - k,
{
    if k < 0 || k >= spans.len() || !sc.t.live {
        sc
    } else {
        let sc2 = stretch(
            b,
            buf,
            phase,
            spans[k].main,
            spans[k].to,
            Place {
                it: spans[k].from,
                try_from: first_try(buf, phase),
                sc: Scan { state: entered(sc.state, spans[k].shift), ..sc },
            },
            s,
        );
        stretches(b, buf, phase, spans, k + 1, sc2, s)
    }
}

/// The start of a run.
pub open spec fn fresh(calls: Seq<Call>) -> Track {
    Track { calls, last: INVALID_MATCH_ID, live: true }
}

/// A block from `start` on.
pub open spec fn fdr_scan(
    b: Seq<u8>,
    buf: Seq<u8>,
    start: int,
    phase: int,
    calls: Seq<Call>,
    s: Answers,
) -> Track {
    if start >= buf.len() {
        fresh(calls)
    } else {
        stretches(
            b,
            buf,
            phase,
            spans(buf.len() as int, start),
            0,
            Scan {
                t: fresh(calls),
                state: b.subrange(32, 48),
                backoff: FLOOD_BACKOFF_START,
            },
            s,
        ).t
    }
}

/// How a run ended.
pub open spec fn ending(t: Track) -> ExecResult {
    if t.live {
        ExecResult::Completed
    } else {
        ExecResult::Terminated
    }
}

pub proof fn lemma_candidates_inside(
    b: Seq<u8>,
    buf: Seq<u8>,
    it: int,
    state: Seq<u8>,
    half: int,
    shift: int,
)
    requires
        half == 0 || half == 1,
        0 <= shift <= 16,
        0 <= it + shift,
        it + 16 <= buf.len(),
        forall|k: int| 0 <= k < shift ==> #[trigger] state[k] == 0xff,
    ensures
        word_inside(candidates(b, buf, it, state, half), it + 8 * half, buf.len()),
{
    let bytes = Seq::new(8, |k: int| !excluded(b, buf, it, state, 8 * half + k));
    let w = candidates(b, buf, it, state, half);
    assert forall|n: int| 0 <= n < 64 && #[trigger] bit64(w, n) implies 0 <= it + 8 * half + n / 8
        < buf.len() by {
        crate::bytes::lemma_word_bytes(bytes, 0, n / 8);
        lemma_byte(w, n);
        let k = 8 * half + n / 8;
        if k < shift {
            assert(state[k] == 0xff);
            lemma_or(swept(b, buf, it, k, 0, 16), 0, 0);
        }
    }
}

/// Confirms the candidates at 16 positions.
fn scan_sixteen<V: V128, S: HitSink>(
    table: &FdrTable,
    buf: &[u8],
    data: &[u8],
    it: usize,
    base: i128,
    state: V,
    st: &mut Tracker,
    sink: &mut S,
    old_state: Ghost<Seq<u8>>,
    shift: Ghost<int>,
    backoff: Ghost<u32>,
) -> (r: V)
    requires
        table.wf(),
        it + 16 < data@.len(),
        -16 <= base <= usize::MAX - 16,
        base + 16 <= buf@.len(),
        0 <= shift@ <= 16,
        0 <= base + shift@,
        holds_state(state, old_state@),
        forall|k: int| 0 <= k < shift@ ==> #[trigger] old_state@[k] == 0xff,
        forall|k: int|
            it <= k <= it + 16 ==> #[trigger] data@[k] == byte_or_zero(buf@, base + (k - it)),
        buf@.len() <= old(sink).limit(),
        old(sink).inv(),
    ensures
        holds_state(r, next_state(table.bytes@, buf@, base as int, old_state@)),
        final(sink).inv(),
        final(sink).fixed() == old(sink).fixed(),
        final(sink).limit() == old(sink).limit(),
        old(sink).log().is_prefix_of(final(sink).log()),
        forall|s: Answers| #[trigger]
            agrees(s, final(sink).log()) ==> sixteen(
                table.bytes@,
                buf@,
                base as int,
                Scan {
                    t: old(st).track(old(sink).log()),
                    state: old_state@,
                    backoff: backoff@,
                },
                s,
            ) == (Scan {
                t: final(st).track(final(sink).log()),
                state: next_state(table.bytes@, buf@, base as int, old_state@),
                backoff: backoff@,
            }),
{
    reveal(sixteen);
    let ghost b = table.bytes@;
    proof {
        lemma_candidates_inside(b, buf@, base as int, old_state@, 0, shift@);
        lemma_candidates_inside(b, buf@, base as int, old_state@, 1, shift@);
    }
    let (conf0, conf8, next) = get_conf_stride(
        table,
        data,
        it,
        state,
        Ghost(buf@),
        Ghost(base as int),
        old_state,
    );
    confirm_word(table.bytes, table.conf_offset, true, conf0, base, buf, st, sink);
    let ghost log1 = sink.log();
    confirm_word(table.bytes, table.conf_offset, true, conf8, base + 8, buf, st, sink);
    proof {
        assert forall|s: Answers| #[trigger] agrees(s, sink.log()) implies agrees(s, log1) by {
            lemma_agrees_prefix(s, sink.log(), log1);
        }
    }
    next
}

/// Takes one step at position `it` of a zone. Returns the position behind it,
/// the one from which to look for the next flood, and the state.
fn scan_step<V: V128, S: HitSink>(
    table: &FdrTable,
    buf: &[u8],
    phase: usize,
    z: &Zone,
    it: usize,
    try_from: usize,
    state: V,
    backoff: &mut u32,
    st: &mut Tracker,
    sink: &mut S,
    span: Ghost<Span>,
    old_state: Ghost<Seq<u8>>,
    shift: Ghost<int>,
) -> (r: (usize, usize, V, Ghost<Seq<u8>>))
    requires
        table.wf(),
        phase < 8,
        z.shows(buf@, span@),
        span@.main ==> span@.to > buf@.len() - 19,
        span@.to <= buf@.len(),
        z.start <= it,
        it + 16 <= z.end,
        (z.end - it) % 16 == 0,
        0 <= shift@ <= 16,
        0 <= it + z.adjust + shift@,
        holds_state(state, old_state@),
        forall|k: int| 0 <= k < shift@ ==> #[trigger] old_state@[k] == 0xff,
        buf@.len() <= old(sink).limit(),
        old(sink).inv(),
    ensures
        it < r.0 <= z.end,
        (z.end - r.0) % 16 == 0,
        holds_state(r.2, r.3@),
        final(sink).inv(),
        final(sink).fixed() == old(sink).fixed(),
        final(sink).limit() == old(sink).limit(),
        old(sink).log().is_prefix_of(final(sink).log()),
        forall|s: Answers| #[trigger]
            agrees(s, final(sink).log()) ==> advance(
                table.bytes@,
                buf@,
                phase as int,
                span@.main,
                Place {
                    it: it + z.adjust,
                    try_from: try_from as int,
                    sc: Scan {
                        t: old(st).track(old(sink).log()),
                        state: old_state@,
                        backoff: *old(backoff),
                    },
                },
                s,
            ) == (Place {
                it: r.0 + z.adjust,
                try_from: r.1 as int,
                sc: Scan {
                    t: final(st).track(final(sink).log()),
                    state: r.3@,
                    backoff: *final(backoff),
                },
            }),
{
    reveal(advance);
    let data = z.data(buf);
    assert(data@.len() == data.len());
    assert(buf@.len() == buf.len());
    let mut at: usize = it;
    let mut next_try: usize = try_from;
    let ghost mut skip = shift@;
    if !z.is_copied && it > try_from {
        let (there, next) = flood_detect(
            table.bytes,
            table.flood_offset,
            buf,
            phase,
            it,
            backoff,
            st,
            sink,
        );
        at = there;
        next_try = next;
        proof {
            skip = 0;
        }
        if !st.live {
            return (at + ITER_BYTES, next_try, state, old_state);
        }
    }
    let ghost log1 = sink.log();
    let ghost base = at + z.adjust;
    assert forall|k: int| at <= k <= at + 16 implies #[trigger] data@[k] == byte_or_zero(
        buf@,
        base + (k - at),
    ) by {}
    let state2 = scan_sixteen(
        table,
        buf,
        data,
        at,
        at as i128 + z.adjust,
        state,
        st,
        sink,
        old_state,
        Ghost(skip),
        Ghost(*backoff),
    );
    proof {
        assert forall|s: Answers| #[trigger] agrees(s, sink.log()) implies agrees(s, log1) by {
            lemma_agrees_prefix(s, sink.log(), log1);
        }
    }
    (
        at + ITER_BYTES,
        next_try,
        state2,
        Ghost(next_state(table.bytes@, buf@, base, old_state@)),
    )
}

/// Scans one stretch.
fn scan_zone<V: V128, S: HitSink>(
    table: &FdrTable,
    buf: &[u8],
    phase: usize,
    z: &Zone,
    state: V,
    backoff: &mut u32,
    st: &mut Tracker,
    sink: &mut S,
    span: Ghost<Span>,
    old_state: Ghost<Seq<u8>>,
) -> (r: (V, Ghost<Seq<u8>>))
    requires
        table.wf(),
        phase < 8,
        z.shows(buf@, span@),
        span@.main ==> span@.to > buf@.len() - 19,
        span@.to <= buf@.len(),
        0 <= span@.from + span@.shift,
        span@.from >= 0 || span@.to == span@.from + 16,
        holds_state(state, old_state@),
        forall|k: int| 0 <= k < span@.shift ==> #[trigger] old_state@[k] == 0xff,
        buf@.len() <= old(sink).limit(),
        old(sink).inv(),
    ensures
        holds_state(r.0, r.1@),
        final(sink).inv(),
        final(sink).fixed() == old(sink).fixed(),
        final(sink).limit() == old(sink).limit(),
        old(sink).log().is_prefix_of(final(sink).log()),
        forall|s: Answers| #[trigger]
            agrees(s, final(sink).log()) ==> stretch(
                table.bytes@,
                buf@,
                phase as int,
                span@.main,
                span@.to,
                Place {
                    it: span@.from,
                    try_from: first_try(buf@, phase as int),
                    sc: Scan {
                        t: old(st).track(old(sink).log()),
                        state: old_state@,
                        backoff: *old(backoff),
                    },
                },
                s,
            ) == (Scan {
                t: final(st).track(final(sink).log()),
                state: r.1@,
                backoff: *final(backoff),
            }),
{
    let mut state = state;
    let ghost mut cur = old_state@;
    let mut it: usize = z.start;
    let mut try_from: usize = next_flood_detect(buf, phase);
    let ghost first = Place {
        it: span@.from,
        try_from: try_from as int,
        sc: Scan { t: st.track(sink.log()), state: cur, backoff: *backoff },
    };
    while st.live && it < z.end
        invariant
            table.wf(),
            phase < 8,
            z.shows(buf@, span@),
            span@.main ==> span@.to > buf@.len() - 19,
            span@.to <= buf@.len(),
            z.start <= it <= z.end,
            (z.end - it) % 16 == 0,
            it > z.start ==> span@.from >= 0 || it == z.end,
            it == z.start ==> 0 <= span@.from + span@.shift && forall|k: int|
                0 <= k < span@.shift ==> #[trigger] cur[k] == 0xff,
            span@.from >= 0 || span@.to == span@.from + 16,
            holds_state(state, cur),
            buf@.len() <= sink.limit(),
            sink.inv(),
            sink.fixed() == old(sink).fixed(),
            sink.limit() == old(sink).limit(),
            old(sink).log().is_prefix_of(sink.log()),
            forall|s: Answers| #[trigger]
                agrees(s, sink.log()) ==> stretch(
                    table.bytes@,
                    buf@,
                    phase as int,
                    span@.main,
                    span@.to,
                    first,
                    s,
                ) == stretch(
                    table.bytes@,
                    buf@,
                    phase as int,
                    span@.main,
                    span@.to,
                    Place {
                        it: it + z.adjust,
                        try_from: try_from as int,
                        sc: Scan { t: st.track(sink.log()), state: cur, backoff: *backoff },
                    },
                    s,
                ),
        decreases z.end - it,
    {
        let ghost log0 = sink.log();
        let ghost shift = if it == z.start {
            span@.shift
        } else {
            0
        };
        let (there, next, state2, cur2) = scan_step(
            table,
            buf,
            phase,
            z,
            it,
            try_from,
            state,
            backoff,
            st,
            sink,
            span,
            Ghost(cur),
            Ghost(shift),
        );
        it = there;
        try_from = next;
        state = state2;
        proof {
            cur = cur2@;
            assert forall|s: Answers| #[trigger] agrees(s, sink.log()) implies agrees(s, log0) by {
                lemma_agrees_prefix(s, sink.log(), log0);
            }
        }
    }
    (state, Ghost(cur))
}

/// Nothing ends at the first `shift` positions.
pub(crate) fn zone_or_mask<V: V128>(shift: usize) -> (r: V)
    requires
        shift <= 16,
    ensures
        forall|k: int|
            0 <= k < 16 ==> #[trigger] r.lane(k) == if k < shift {
                0xffu8
            } else {
                0
            },
{
    let mut m: [u8; 16] = [0u8; 16];
    assert(m == vstd::array::spec_array_fill_for_copy_type::<u8, 16>(0));
    let mut k: usize = 0;
    while k < shift
        invariant
            k <= shift <= 16,
            forall|i: int|
                0 <= i < 16 ==> #[trigger] m@[i] == if i < k {
                    0xffu8
                } else {
                    0
                },
        decreases shift - k,
    {
        m[k] = 0xff;
        k = k + 1;
    }
    V::loadu(&m, 0)
}

/// What holds of each stretch that a block is cut into.
pub proof fn lemma_spans(len: int, start: int)
    requires
        0 <= start < len,
    ensures
        forall|k: int|
            0 <= k < spans(len, start).len() ==> {
                let span = #[trigger] spans(len, start)[k];
                &&& span.main ==> span.to > len - 19
                &&& span.to <= len
                &&& 0 <= span.shift < 16
                &&& 0 <= span.from + span.shift
                &&& span.from >= 0 || span.to == span.from + 16
            },
{
}

impl<'a> FdrTable<'a> {
    /// Scans a block from `start` on and hands its hits to a sink. `phase` is
    /// the address of the block, modulo 8, as far as floods are concerned.
    pub fn run<V: V128, S: HitSink>(
        &self,
        buf: &[u8],
        start: usize,
        phase: usize,
        sink: &mut S,
    ) -> (r: ExecResult)
        requires
            self.wf(),
            phase < 8,
            buf@.len() <= old(sink).limit(),
            old(sink).inv(),
        ensures
            final(sink).inv(),
            final(sink).fixed() == old(sink).fixed(),
            final(sink).limit() == old(sink).limit(),
            old(sink).log().is_prefix_of(final(sink).log()),
            forall|s: Answers| #[trigger]
                agrees(s, final(sink).log()) ==> {
                    let t = fdr_scan(
                        self.bytes@,
                        buf@,
                        start as int,
                        phase as int,
                        calls_of(old(sink).log()),
                        s,
                    );
                    t.calls == calls_of(final(sink).log()) && r == ending(t)
                },
    {
        if start >= buf.len() {
            return ExecResult::Completed;
        }
        let ghost b = self.bytes@;
        let zones = prepare_zones(buf, start);
        let ghost cut = spans(buf@.len() as int, start as int);
        proof {
            lemma_spans(buf@.len() as int, start as int);
        }
        let mut state = V::loadu(self.bytes, 32);
        let ghost mut cur = b.subrange(32, 48);
        let mut backoff: u32 = FLOOD_BACKOFF_START;
        let mut st = Tracker::new();
        let ghost first = Scan { t: st.track(sink.log()), state: cur, backoff };
        let mut k: usize = 0;
        while k < zones.len() && st.live
            invariant
                self.wf(),
                b == self.bytes@,
                phase < 8,
                k <= zones@.len(),
                zones_show(zones@, buf@, cut),
                forall|j: int|
                    0 <= j < cut.len() ==> {
                        let span = #[trigger] cut[j];
                        &&& span.main ==> span.to > buf@.len() - 19
                        &&& span.to <= buf@.len()
                        &&& 0 <= span.shift < 16
                        &&& 0 <= span.from + span.shift
                        &&& span.from >= 0 || span.to == span.from + 16
                    },
                holds_state(state, cur),
                buf@.len() <= sink.limit(),
                sink.inv(),
                sink.fixed() == old(sink).fixed(),
                sink.limit() == old(sink).limit(),
                old(sink).log().is_prefix_of(sink.log()),
                forall|s: Answers| #[trigger]
                    agrees(s, sink.log()) ==> stretches(
                        b,
                        buf@,
                        phase as int,
                        cut,
                        0,
                        first,
                        s,
                    ) == stretches(
                        b,
                        buf@,
                        phase as int,
                        cut,
                        k as int,
                        Scan { t: st.track(sink.log()), state: cur, backoff },
                        s,
                    ),
            decreases zones@.len() - k,
        {
            let ghost log0 = sink.log();
            let z = &zones[k];
            assert(z.shows(buf@, cut[k as int]));
            let inside = state.shl_bytes(z.shift).or(zone_or_mask(z.shift));
            let ghost shifted = entered(cur, z.shift as int);
            assert forall|i: int| 0 <= i < 16 implies #[trigger] inside.lane(i) == shifted[i] by {
                lemma_or(
                    if i < z.shift {
                        0
                    } else {
                        cur[i - z.shift]
                    },
                    0,
                    0,
                );
            }
            let (state2, cur2) = scan_zone(
                self,
                buf,
                phase,
                z,
                inside,
                &mut backoff,
                &mut st,
                sink,
                Ghost(cut[k as int]),
                Ghost(shifted),
            );
            state = state2;
            k = k + 1;
            proof {
                cur = cur2@;
                assert forall|s: Answers| #[trigger] agrees(s, sink.log()) implies agrees(
                    s,
                    log0,
                ) by {
                    lemma_agrees_prefix(s, sink.log(), log0);
                }
            }
        }
        if st.live {
            ExecResult::Completed
        } else {
            ExecResult::Terminated
        }
    }
}

/// A log and a result that a scan of a block can have, with a given phase.
pub open spec fn fdr_outcome(
    b: Seq<u8>,
    buf: Seq<u8>,
    start: int,
    phase: int,
    log: Seq<Hit>,
    r: ExecResult,
) -> bool {
    let t = fdr_scan(b, buf, start, phase, Seq::empty(), answers_of(log));
    &&& 0 <= phase < 8
    &&& t.calls == calls_of(log)
    &&& r == ending(t)
}

/// The address of the first byte: `as_ptr` of a slice. Nothing is stated of
/// it; it differs from run to run.
#[verifier::external_body]
pub(crate) fn address(buf: &[u8]) -> (r: usize) {
    buf.as_ptr() as usize
}

impl<'a> FdrTable<'a> {
    /// Scans a block from `start` on. `cb` gets the position of the last byte
    /// of each hit, and the literal's id.
    pub fn exec<F: FnMut(u64, u32) -> ScanCtl>(&self, buf: &[u8], start: usize, cb: &mut F) -> (r:
        ExecResult)
        requires
            self.wf(),
            forall|end: u64, id: u32| #[trigger] call_requires(*old(cb), (end, id)),
        ensures
            exists|phase: int, log: Seq<Hit>| #[trigger]
                fdr_outcome(self.bytes@, buf@, start as int, phase, log, r) && answered(
                    *old(cb),
                    log,
                ),
    {
        let phase: usize = address(buf) % 8;
        assert(buf@.len() == buf.len());
        let mut sink = PlainSink { cb, hits: Ghost(Seq::empty()) };
        assert(calls_of(sink.log()) =~= Seq::empty());
        let r = self.run::<V128Scalar, PlainSink<F>>(buf, start, phase, &mut sink);
        proof {
            lemma_answers_of_agrees(sink.log());
            assert(fdr_outcome(self.bytes@, buf@, start as int, phase as int, sink.log(), r));
            assert(answered(*old(cb), sink.log()));
        }
        r
    }

    /// Like [`FdrTable::exec`]; `cb` also answers which buckets to squash at
    /// the current position, so that a literal inside another is not
    /// confirmed a second time.
    pub fn exec_squash<F: FnMut(u64, u32) -> (ScanCtl, u8)>(
        &self,
        buf: &[u8],
        start: usize,
        cb: &mut F,
    ) -> (r: ExecResult)
        requires
            self.wf(),
            forall|end: u64, id: u32| #[trigger] call_requires(*old(cb), (end, id)),
        ensures
            exists|phase: int, log: Seq<Hit>| #[trigger]
                fdr_outcome(self.bytes@, buf@, start as int, phase, log, r) && answered_with_squash(
                    *old(cb),
                    log,
                ),
    {
        let phase: usize = address(buf) % 8;
        assert(buf@.len() == buf.len());
        let mut sink = SquashSink { cb, hits: Ghost(Seq::empty()) };
        assert(calls_of(sink.log()) =~= Seq::empty());
        let r = self.run::<V128Scalar, SquashSink<F>>(buf, start, phase, &mut sink);
        proof {
            lemma_answers_of_agrees(sink.log());
            assert(fdr_outcome(self.bytes@, buf@, start as int, phase as int, sink.log(), r));
            assert(answered_with_squash(*old(cb), sink.log()));
        }
        r
    }
}

} // verus!
