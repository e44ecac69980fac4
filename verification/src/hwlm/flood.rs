//! Floods: long runs of one byte, which are reported without a look at each
//! position.
//!
//! Probes read whole words at addresses that are multiples of 8. Where those
//! are in a block depends on its `phase`: the address of its first byte,
//! modulo 8.

use vstd::prelude::*;

use crate::bytes::{le64, opt_le16, opt_le32, opt_le64, u16_le, u32_le, u64_le};
use crate::hwlm::confirm::{ask, Track, Tracker};
use crate::hwlm::{agrees, lemma_agrees_prefix, Answers, HitSink};
use crate::rose::clamp;

verus! {

/// Shorter blocks are not searched for floods.
pub const FLOOD_MINIMUM_SIZE: usize = 256;

/// How far the second try is behind the first.
pub const FLOOD_BACKOFF_START: u32 = 32;

/// A flood with as many ids or more is not handled.
pub const FLOOD_MAX_IDS: u16 = 16;

/// The size of a flood record.
pub const FLOOD_STRUCT_SIZE: u64 = 208;

/// The first position from `i` on whose address is a multiple of 8.
pub open spec fn round_up(phase: int, i: int) -> int {
    i + (8 - (phase + i) % 8) % 8
}

/// The word at `p`, or zero if it is not inside the block.
pub open spec fn word_or_zero(buf: Seq<u8>, p: int) -> u64 {
    match opt_le64(buf, p) {
        Some(w) => w,
        None => 0,
    }
}

/// A word of eight equal bytes.
pub open spec fn repeated(c: u8) -> u64 {
    le64(Seq::new(8, |j: int| c), 0)
}

/// Two neighbouring words are equal.
pub open spec fn probe(buf: Seq<u8>, phase: int, i: int) -> bool {
    word_or_zero(buf, round_up(phase, i)) == word_or_zero(buf, round_up(phase, i + 8))
}

/// From where floods are looked for: the end of the block, unless one of
/// three probes finds equal words.
pub open spec fn first_try(buf: Seq<u8>, phase: int) -> int {
    let len = buf.len() as int;
    if len >= FLOOD_MINIMUM_SIZE && (probe(buf, phase, 0) || probe(buf, phase, len / 2) || probe(
        buf,
        phase,
        len - 24,
    )) {
        FLOOD_BACKOFF_START as int
    } else {
        len
    }
}

/// Floods are followed up to here.
pub open spec fn flood_limit(len: int) -> int {
    if len > 32 {
        len - 32
    } else {
        0
    }
}

/// The record of the floods of byte `c`.
pub open spec fn flood_record(b: Seq<u8>, flood: int, c: u8) -> int {
    let index = match opt_le32(b, flood + 4 * c) {
        Some(index) => index,
        None => 0,
    };
    flood + 4 * 256 + index * FLOOD_STRUCT_SIZE
}

pub open spec fn flood_groups(b: Seq<u8>, record: int) -> u64 {
    match opt_le64(b, record) {
        Some(groups) => groups,
        None => 0,
    }
}

pub open spec fn flood_suffix(b: Seq<u8>, record: int) -> u32 {
    match opt_le32(b, record + 8) {
        Some(suffix) => suffix,
        None => 0,
    }
}

pub open spec fn flood_id_count(b: Seq<u8>, record: int) -> u16 {
    match opt_le16(b, record + 12) {
        Some(count) => count,
        None => u16::MAX,
    }
}

pub open spec fn flood_id(b: Seq<u8>, record: int, k: int) -> u32 {
    match opt_le32(b, record + 16 + 4 * k) {
        Some(id) => id,
        None => 0,
    }
}

pub open spec fn flood_id_groups(b: Seq<u8>, record: int, k: int) -> u64 {
    match opt_le64(b, record + 80 + 8 * k) {
        Some(groups) => groups,
        None => 0,
    }
}

/// A flood of byte `c` can be followed from position `i` on.
pub open spec fn flood_starts(b: Seq<u8>, record: int, buf: Seq<u8>, phase: int, i: int) -> bool {
    &&& word_or_zero(buf, round_up(phase, i)) == repeated(buf[i])
    &&& flood_id_count(b, record) < FLOOD_MAX_IDS
    &&& i >= flood_suffix(b, record) + 7
}

/// The end of the run of byte `c` that holds position `j`, up to a limit.
pub open spec fn run_end(buf: Seq<u8>, c: u8, j: int, limit: int) -> int
    decreases limit - j,
{
    if j < limit && buf[j] == c {
        run_end(buf, c, j + 1, limit)
    } else {
        j
    }
}

/// A call that neither repeats nor squashes anything.
pub open spec fn ask_flood(t: Track, s: Answers, end: int, id: u32) -> Track {
    Track { last: t.last, ..ask(t, s, end, id).0 }
}

/// Reports the ids of a flood from the `k`-th on, at position `p`.
pub open spec fn flood_ids(b: Seq<u8>, record: int, k: int, p: int, t: Track, s: Answers) -> Track
    decreases flood_id_count(b, record) - k,
{
    if k >= flood_id_count(b, record) || !t.live {
        t
    } else {
        let t2 = if flood_id_groups(b, record, k) != 0 {
            ask_flood(t, s, p, flood_id(b, record, k))
        } else {
            t
        };
        flood_ids(b, record, k + 1, p, t2, s)
    }
}

/// Reports a flood at each position from `p` up to `to`.
pub open spec fn flood_positions(b: Seq<u8>, record: int, p: int, to: int, t: Track, s: Answers) -> Track
    decreases to - p,
{
    if p >= to || !t.live {
        t
    } else {
        flood_positions(b, record, p + 1, to, flood_ids(b, record, 0, p, t, s), s)
    }
}

/// Where a look for a flood leaves the scan.
pub struct FloodOut {
    /// The position to go on at.
    pub it: int,
    /// The position from which to look for the next flood.
    pub try_from: int,
    pub backoff: u32,
    pub t: Track,
}

/// The position from which to look for the next flood.
pub open spec fn next_try(len: int, i: int, j: int, backoff: u32) -> int {
    let limit = flood_limit(len);
    if limit >= 128 && j + backoff < limit - 128 {
        clamp((if i >= j {
            i
        } else {
            j
        }) + backoff) as int
    } else {
        limit
    }
}

/// A look for a flood at position `i`. A flood is reported and passed over,
/// in steps of 16. Where there is none, the next look is twice as far.
#[verifier::opaque]
pub open spec fn flood(
    b: Seq<u8>,
    flood_offset: int,
    buf: Seq<u8>,
    phase: int,
    i: int,
    backoff: u32,
    t: Track,
    s: Answers,
) -> FloodOut {
    let len = buf.len() as int;
    let record = flood_record(b, flood_offset, buf[i]);
    let doubled = backoff.wrapping_mul(2);
    if !flood_starts(b, record, buf, phase, i) {
        FloodOut { it: i, try_from: next_try(len, i, i, doubled), backoff: doubled, t }
    } else {
        let back = i - flood_suffix(b, record);
        let j = run_end(buf, buf[i], back - (phase + back) % 8, flood_limit(len));
        if j <= i {
            FloodOut { it: i, try_from: next_try(len, i, j, doubled), backoff: doubled, t }
        } else {
            let size = (j - 1 - i) / 16 * 16;
            let t2 = if flood_groups(b, record) != 0 {
                flood_positions(b, record, i, i + size, t, s)
            } else {
                t
            };
            FloodOut { it: i + size, try_from: next_try(len, i, j - 1, backoff), backoff, t: t2 }
        }
    }
}

fn exec_round_up(phase: usize, i: usize) -> (r: usize)
    requires
        phase < 8,
        i + 16 <= usize::MAX,
    ensures
        r == round_up(phase as int, i as int),
{
    i + (8 - (phase + i) % 8) % 8
}

fn exec_word_or_zero(buf: &[u8], p: usize) -> (r: u64)
    ensures
        r == word_or_zero(buf@, p as int),
{
    match u64_le(buf, p as u64) {
        Some(w) => w,
        None => 0,
    }
}

fn exec_probe(buf: &[u8], phase: usize, i: usize) -> (r: bool)
    requires
        phase < 8,
        i + 24 <= usize::MAX,
    ensures
        r == probe(buf@, phase as int, i as int),
{
    exec_word_or_zero(buf, exec_round_up(phase, i)) == exec_word_or_zero(
        buf,
        exec_round_up(phase, i + 8),
    )
}

/// From where floods are looked for.
pub fn next_flood_detect(buf: &[u8], phase: usize) -> (r: usize)
    requires
        phase < 8,
    ensures
        r == first_try(buf@, phase as int),
{
    let len: usize = buf.len();
    if len < FLOOD_MINIMUM_SIZE {
        return len;
    }
    if exec_probe(buf, phase, 0) || exec_probe(buf, phase, len / 2) || exec_probe(
        buf,
        phase,
        len - 24,
    ) {
        return FLOOD_BACKOFF_START as usize;
    }
    len
}

fn exec_repeated(c: u8) -> (r: u64)
    ensures
        r == repeated(c),
{
    let w: u64 = c as u64;
    let v: u64 = w | (w << 8);
    let v: u64 = v | (v << 16);
    let v: u64 = v | (v << 32);
    assert({
        let v2 = w | (w << 8);
        let v4 = v2 | (v2 << 16);
        v4 | (v4 << 32)
    } == w | (w << 8) | (w << 16) | (w << 24) | (w << 32) | (w << 40) | (w << 48) | (w << 56))
        by (bit_vector);
    v
}

fn exec_run_end(buf: &[u8], c: u8, from: usize, limit: usize) -> (r: usize)
    requires
        limit <= buf@.len(),
    ensures
        r == run_end(buf@, c, from as int, limit as int),
        from <= r,
        r <= limit || r == from,
{
    let mut j: usize = from;
    while j < limit && buf[j] == c
        invariant
            limit <= buf@.len(),
            from <= j,
            j <= limit || j == from,
            run_end(buf@, c, from as int, limit as int) == run_end(
                buf@,
                c,
                j as int,
                limit as int,
            ),
        decreases limit - j,
    {
        j = j + 1;
    }
    j
}

fn report_ids<S: HitSink>(b: &[u8], record: u64, count: u16, p: usize, st: &mut Tracker, sink: &mut S)
    requires
        record <= 0x1_0000_0000_0000,
        count == flood_id_count(b@, record as int),
        p < old(sink).limit(),
        old(sink).inv(),
    ensures
        final(sink).inv(),
        final(sink).fixed() == old(sink).fixed(),
        final(sink).limit() == old(sink).limit(),
        old(sink).log().is_prefix_of(final(sink).log()),
        forall|s: Answers| #[trigger]
            agrees(s, final(sink).log()) ==> flood_ids(
                b@,
                record as int,
                0,
                p as int,
                old(st).track(old(sink).log()),
                s,
            ) == final(st).track(final(sink).log()),
{
    let mut k: u16 = 0;
    while k < count && st.live
        invariant
            record <= 0x1_0000_0000_0000,
            count == flood_id_count(b@, record as int),
            p < sink.limit(),
            sink.inv(),
            sink.fixed() == old(sink).fixed(),
            sink.limit() == old(sink).limit(),
            old(sink).log().is_prefix_of(sink.log()),
            k <= count,
            forall|s: Answers| #[trigger]
                agrees(s, sink.log()) ==> flood_ids(
                    b@,
                    record as int,
                    0,
                    p as int,
                    old(st).track(old(sink).log()),
                    s,
                ) == flood_ids(
                    b@,
                    record as int,
                    k as int,
                    p as int,
                    st.track(sink.log()),
                    s,
                ),
        decreases count - k,
    {
        let groups: u64 = match u64_le(b, record + 80 + 8 * k as u64) {
            Some(groups) => groups,
            None => 0,
        };
        if groups != 0 {
            let id: u32 = match u32_le(b, record + 16 + 4 * k as u64) {
                Some(id) => id,
                None => 0,
            };
            let last: u32 = st.last;
            let _ = st.ask(sink, p, id);
            st.last = last;
        }
        k = k + 1;
    }
}

fn report_flood<S: HitSink>(
    b: &[u8],
    record: u64,
    count: u16,
    from: usize,
    to: usize,
    st: &mut Tracker,
    sink: &mut S,
)
    requires
        record <= 0x1_0000_0000_0000,
        count == flood_id_count(b@, record as int),
        from <= to <= old(sink).limit(),
        old(sink).inv(),
    ensures
        final(sink).inv(),
        final(sink).fixed() == old(sink).fixed(),
        final(sink).limit() == old(sink).limit(),
        old(sink).log().is_prefix_of(final(sink).log()),
        forall|s: Answers| #[trigger]
            agrees(s, final(sink).log()) ==> flood_positions(
                b@,
                record as int,
                from as int,
                to as int,
                old(st).track(old(sink).log()),
                s,
            ) == final(st).track(final(sink).log()),
{
    let mut p: usize = from;
    while p < to && st.live
        invariant
            record <= 0x1_0000_0000_0000,
            count == flood_id_count(b@, record as int),
            from <= p <= to <= sink.limit(),
            sink.inv(),
            sink.fixed() == old(sink).fixed(),
            sink.limit() == old(sink).limit(),
            old(sink).log().is_prefix_of(sink.log()),
            forall|s: Answers| #[trigger]
                agrees(s, sink.log()) ==> flood_positions(
                    b@,
                    record as int,
                    from as int,
                    to as int,
                    old(st).track(old(sink).log()),
                    s,
                ) == flood_positions(
                    b@,
                    record as int,
                    p as int,
                    to as int,
                    st.track(sink.log()),
                    s,
                ),
        decreases to - p,
    {
        let ghost before = sink.log();
        report_ids(b, record, count, p, st, sink);
        proof {
            assert forall|s: Answers| #[trigger] agrees(s, sink.log()) implies agrees(
                s,
                before,
            ) by {
                lemma_agrees_prefix(s, sink.log(), before);
            }
        }
        p = p + 1;
    }
}

fn exec_next_try(len: usize, i: usize, j: usize, backoff: u32) -> (r: usize)
    ensures
        r == next_try(len as int, i as int, j as int, backoff),
{
    let limit: usize = if len > 32 {
        len - 32
    } else {
        0
    };
    if limit >= 128 && j < limit - 128 && (backoff as u64) < (limit - 128 - j) as u64 {
        let from: usize = if i >= j {
            i
        } else {
            j
        };
        from.saturating_add(backoff as usize)
    } else {
        limit
    }
}

/// Looks for a flood at position `i`. Returns the position to go on at, and
/// the one from which to look for the next flood.
pub fn flood_detect<S: HitSink>(
    b: &[u8],
    flood_offset: usize,
    buf: &[u8],
    phase: usize,
    i: usize,
    backoff: &mut u32,
    st: &mut Tracker,
    sink: &mut S,
) -> (r: (usize, usize))
    requires
        flood_offset <= u32::MAX,
        phase < 8,
        i + 16 <= buf@.len(),
        buf@.len() <= old(sink).limit(),
        old(sink).inv(),
    ensures
        final(sink).inv(),
        final(sink).fixed() == old(sink).fixed(),
        final(sink).limit() == old(sink).limit(),
        old(sink).log().is_prefix_of(final(sink).log()),
        forall|s: Answers| #[trigger]
            agrees(s, final(sink).log()) ==> flood(
                b@,
                flood_offset as int,
                buf@,
                phase as int,
                i as int,
                *old(backoff),
                old(st).track(old(sink).log()),
                s,
            ) == (FloodOut {
                it: r.0 as int,
                try_from: r.1 as int,
                backoff: *final(backoff),
                t: final(st).track(final(sink).log()),
            }),
        i <= r.0,
        (r.0 - i) % 16 == 0,
        r.0 > i ==> r.0 + 32 < buf@.len(),
{
    reveal(flood);
    let len: usize = buf.len();
    let c: u8 = buf[i];
    let index: u32 = match u32_le(b, flood_offset as u64 + 4 * c as u64) {
        Some(index) => index,
        None => 0,
    };
    let record: u64 = flood_offset as u64 + 4 * 256 + index as u64 * FLOOD_STRUCT_SIZE;
    let count: u16 = match u16_le(b, record + 12) {
        Some(count) => count,
        None => u16::MAX,
    };
    let suffix: u32 = match u32_le(b, record + 8) {
        Some(suffix) => suffix,
        None => 0,
    };
    if exec_word_or_zero(buf, exec_round_up(phase, i)) != exec_repeated(c) || count
        >= FLOOD_MAX_IDS || (i as u64) < suffix as u64 + 7 {
        *backoff = backoff.wrapping_mul(2);
        return (i, exec_next_try(len, i, i, *backoff));
    }
    let back: usize = i - suffix as usize;
    let limit: usize = if len > 32 {
        len - 32
    } else {
        0
    };
    let j: usize = exec_run_end(buf, c, back - (phase + back) % 8, limit);
    if j <= i {
        *backoff = backoff.wrapping_mul(2);
        return (i, exec_next_try(len, i, j, *backoff));
    }
    let size: usize = (j - 1 - i) / 16 * 16;
    let groups: u64 = match u64_le(b, record) {
        Some(groups) => groups,
        None => 0,
    };
    if groups != 0 {
        report_flood(b, record, count, i, i + size, st, sink);
    }
    (i + size, exec_next_try(len, i, j - 1, *backoff))
}

} // verus!
