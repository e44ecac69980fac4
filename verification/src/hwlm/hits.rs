//! What the hits of an engine say: they lie inside the block, in order, and
//! each was confirmed.

use vstd::prelude::*;
use vstd::std_specs::bits::axiom_u64_trailing_zeros;

use crate::bits::{lemma_bit8, lemma_byte, lemma_or, lemma_word_is};
use crate::bytes::{byte_of, byte_or_zero, le32, le64, lemma_word_bytes};
use crate::hwlm::confirm::{
    ask, bucket, bucket_start, chain, chain_of, chain_start, hash_bits, key_at, lemma_word_shrinks,
    lowest, record_hits, squashed, without_lowest, word, Track, LIT_INFO_SIZE, NUM_BUCKETS,
};
use crate::hwlm::fdr::{
    advance, candidates, conf_of, entered, excluded, fdr_scan, flood_of, fresh, next_state, sixteen,
    stretch, stretches, swept, Place, Scan,
};
use crate::hwlm::finds::{
    block_of, carried, clear, fdr_open, lemma_bit_of_byte, lemma_clear, lemma_walked_step, walked,
};
use crate::hwlm::flood::{
    ask_flood, first_try, flood, flood_groups, flood_id, flood_id_count, flood_id_groups, flood_ids,
    flood_limit, flood_positions, flood_record, flood_starts, flood_suffix, run_end,
    FLOOD_BACKOFF_START, FLOOD_MAX_IDS,
};
use crate::hwlm::noodle::{
    first_key, keys_end, nood_ask, nood_hit, nood_positions, nood_scan, NoodTable,
};
use crate::hwlm::teddy::{
    teddy_block, teddy_blocks, teddy_candidates, teddy_conf_of, teddy_excluded, teddy_scan,
};
use crate::hwlm::zones::{spans, Span};
use crate::hwlm::{Answers, Call, ScanCtl};
use crate::simd::lanes::bit64;

verus! {

/// The record at `li` is on the chain that starts at `from`.
pub open spec fn on_chain(b: Seq<u8>, from: int, li: int) -> bool
    decreases b.len() - from,
{
    &&& from + LIT_INFO_SIZE <= b.len()
    &&& from == li || (b[from + 30] != 0 && on_chain(b, from + LIT_INFO_SIZE, li))
}

/// A call reports the literal of the record at `li`: bucket `k` leads to the
/// record, the last bytes in front of the call's end are the record's, the
/// literal does not reach in front of the block, and it belongs to a group.
pub open spec fn names(b: Seq<u8>, conf: int, buf: Seq<u8>, call: Call, k: int, li: int) -> bool {
    let fdrc = conf + bucket_start(b, conf, k);
    let key = key_at(buf, call.end as int);
    let head = chain_start(b, fdrc, chain_of(b, fdrc, key));
    &&& 0 <= k < NUM_BUCKETS
    &&& bucket_start(b, conf, k) != 0
    &&& 0 < hash_bits(b, fdrc) < 64
    &&& head != 0
    &&& on_chain(b, fdrc + head, li)
    &&& key & le64(b, li + 8) == le64(b, li)
    &&& call.id == le32(b, li + 24)
    &&& b[li + 28] <= call.end + 1
    &&& le64(b, li + 16) != 0
}

/// A call was confirmed by a record of a bucket that is open at its position.
/// With `gated`, the bucket has a group.
pub open spec fn confirmed(x: Sources, call: Call) -> bool {
    exists|k: int, li: int| #[trigger]
        names(x.b, x.conf, x.buf, call, k, li) && (x.open)(call.end as int, k) && (x.gated
            ==> le64(x.b, x.conf + bucket_start(x.b, x.conf, k) + 24) != 0)
}

/// A call reports id `k` of the floods of a byte: that byte is there, and as
/// often as the flood's record asks for in front of it. The record has a group,
/// and so has the id.
pub open spec fn floods(b: Seq<u8>, flood_offset: int, buf: Seq<u8>, call: Call, k: int) -> bool {
    let p = call.end as int;
    let record = flood_record(b, flood_offset, buf[p]);
    &&& 0 <= k < flood_id_count(b, record) < FLOOD_MAX_IDS
    &&& flood_groups(b, record) != 0
    &&& flood_id_groups(b, record, k) != 0
    &&& call.id == flood_id(b, record, k)
    &&& forall|j: int| p - flood_suffix(b, record) <= j <= p ==> #[trigger] buf[j] == buf[p]
}

/// A call comes out of a flood.
pub open spec fn flooded(b: Seq<u8>, flood_offset: int, buf: Seq<u8>, call: Call) -> bool {
    exists|k: int| #[trigger] floods(b, flood_offset, buf, call, k)
}

/// What an engine goes by: the table, where its confirm structures and flood
/// records are, whether buckets without groups are passed over, the block, and
/// at which positions which buckets are open.
pub ghost struct Sources {
    pub b: Seq<u8>,
    pub conf: int,
    pub flood: Option<int>,
    pub gated: bool,
    pub buf: Seq<u8>,
    pub open: spec_fn(int, int) -> bool,
}

/// A call has a reason.
#[verifier::opaque]
pub open spec fn founded(x: Sources, call: Call) -> bool {
    ||| confirmed(x, call)
    ||| x.flood is Some && flooded(x.b, x.flood->0, x.buf, call)
}

/// The calls lie between two positions, in order, and each has a reason.
pub open spec fn orderly(x: Sources, calls: Seq<Call>, lo: int, hi: int) -> bool {
    &&& forall|i: int|
        0 <= i < calls.len() ==> lo <= (#[trigger] calls[i]).end <= hi && founded(x, calls[i])
    &&& forall|i: int, j: int|
        #![trigger calls[i], calls[j]]
        0 <= i <= j < calls.len() ==> calls[i].end <= calls[j].end
}

proof fn lemma_ask_orderly(x: Sources, t: Track, s: Answers, p: int, id: u32, lo: int)
    requires
        orderly(x, t.calls, lo, p),
        lo <= p,
        0 <= p <= u64::MAX,
        founded(x, Call { end: p as u64, id }),
    ensures
        orderly(x, ask(t, s, p, id).0.calls, lo, p),
{
}

proof fn lemma_on_chain_next(b: Seq<u8>, from: int, li: int)
    requires
        on_chain(b, from, li),
        b[li + 30] != 0,
        li + 2 * LIT_INFO_SIZE <= b.len(),
    ensures
        on_chain(b, from, li + LIT_INFO_SIZE),
    decreases b.len() - from,
{
    if from != li {
        lemma_on_chain_next(b, from + LIT_INFO_SIZE, li);
    } else {
        assert(on_chain(b, from + LIT_INFO_SIZE, li + LIT_INFO_SIZE));
    }
}

proof fn lemma_chain_orderly(
    x: Sources,
    k: int,
    li: int,
    p: int,
    t: Track,
    s: Answers,
    squash: u8,
    lo: int,
)
    requires
        orderly(x, t.calls, lo, p),
        lo <= p,
        0 <= p <= u64::MAX,
        0 <= k < NUM_BUCKETS,
        bucket_start(x.b, x.conf, k) != 0,
        (x.open)(p, k),
        x.gated ==> le64(x.b, x.conf + bucket_start(x.b, x.conf, k) + 24) != 0,
        ({
            let fdrc = x.conf + bucket_start(x.b, x.conf, k);
            let head = chain_start(x.b, fdrc, chain_of(x.b, fdrc, key_at(x.buf, p)));
            &&& 0 < hash_bits(x.b, fdrc) < 64
            &&& head != 0
            &&& li + LIT_INFO_SIZE <= x.b.len() ==> on_chain(x.b, fdrc + head, li)
        }),
    ensures
        orderly(x, chain(x.b, li, key_at(x.buf, p), p, t, s, squash).0.calls, lo, p),
    decreases x.b.len() - li,
{
    let b = x.b;
    let key = key_at(x.buf, p);
    let fdrc = x.conf + bucket_start(b, x.conf, k);
    let head = chain_start(b, fdrc, chain_of(b, fdrc, key));
    if t.live && li + LIT_INFO_SIZE <= b.len() {
        let id = le32(b, li + 24);
        let (t2, squash2) = if record_hits(b, li, key, p, t.last) {
            let call = Call { end: p as u64, id };
            assert(founded(x, call)) by {
                reveal(founded);
                assert(names(b, x.conf, x.buf, call, k, li));
            }
            lemma_ask_orderly(x, t, s, p, id, lo);
            let (t2, sq) = ask(t, s, p, id);
            (t2, squash | sq)
        } else {
            (t, squash)
        };
        if b[li + 30] != 0 {
            if li + 2 * LIT_INFO_SIZE <= b.len() {
                lemma_on_chain_next(b, fdrc + head, li);
            }
            lemma_chain_orderly(x, k, li + LIT_INFO_SIZE, p, t2, s, squash2, lo);
        }
    }
}

/// The candidates of a word stand between two positions.
pub open spec fn word_between(candidates: u64, base: int, lo: int, hi: int) -> bool {
    forall|n: int| 0 <= n < 64 && #[trigger] bit64(candidates, n) ==> lo <= base + n / 8 <= hi
}

/// The buckets of the candidates of a word are open.
pub open spec fn word_open(x: Sources, candidates: u64, base: int) -> bool {
    forall|n: int|
        0 <= n < 64 && #[trigger] bit64(candidates, n) ==> (x.open)(base + n / 8, n % 8)
}

proof fn lemma_rest(w: u64)
    requires
        w != 0,
    ensures
        0 <= lowest(w) < 64,
        bit64(w, lowest(w)),
        forall|n: int|
            0 <= n < 64 && #[trigger] bit64(without_lowest(w), n) ==> bit64(w, n) && n > lowest(w),
{
    axiom_u64_trailing_zeros(w);
    let z = lowest(w) as u64;
    assert forall|n: int| 0 <= n < 64 && #[trigger] bit64(without_lowest(w), n) implies bit64(w, n)
        && n > lowest(w) by {
        let k = n as u64;
        assert(((w & ((w - 1) as u64)) >> k) & 1 == 1 && (w >> z) & 1 == 1 && z < 64 && k < 64 && w
            << ((64 - z) as u64) == 0 ==> (w >> k) & 1 == 1 && k > z) by (bit_vector);
    }
}

proof fn lemma_kept(w: u64, keep: u64)
    ensures
        forall|n: int| 0 <= n < 64 && #[trigger] bit64(w & keep, n) ==> bit64(w, n),
{
    assert forall|n: int| 0 <= n < 64 && #[trigger] bit64(w & keep, n) implies bit64(w, n) by {
        let k = n as u64;
        assert(((w & keep) >> k) & 1 == 1 ==> (w >> k) & 1 == 1) by (bit_vector);
    }
}

proof fn lemma_word_orderly(
    x: Sources,
    w: u64,
    base: int,
    t: Track,
    s: Answers,
    lo: int,
    at: int,
    hi: int,
)
    requires
        orderly(x, t.calls, lo, at),
        word_between(w, base, at, hi),
        word_open(x, w, base),
        lo <= at <= hi <= u64::MAX,
        0 <= at,
    ensures
        orderly(x, word(x.b, x.conf, x.gated, w, base, x.buf, t, s).calls, lo, hi),
    decreases w,
{
    if w != 0 && t.live {
        let bit = lowest(w);
        let rest = without_lowest(w);
        let cf = bucket_start(x.b, x.conf, bit % 8);
        let p = base + bit / 8;
        lemma_rest(w);
        lemma_word_shrinks(w, 0);
        if cf == 0 || (x.gated && le64(x.b, x.conf + cf + 24) == 0) {
            lemma_word_orderly(x, rest, base, t, s, lo, at, hi);
        } else {
            let fdrc = x.conf + cf;
            let key = key_at(x.buf, p);
            let (t2, squash) = bucket(x.b, fdrc, key, p, t, s);
            let head = chain_start(x.b, fdrc, chain_of(x.b, fdrc, key));
            assert(orderly(x, t.calls, lo, p));
            if 0 < hash_bits(x.b, fdrc) < 64 && head != 0 {
                lemma_chain_orderly(x, bit % 8, fdrc + head, p, t, s, 0, lo);
            }
            let keep = !((squash as u64) << ((bit / 8 * 8) as u64));
            lemma_word_shrinks(rest, keep);
            lemma_kept(rest, keep);
            assert(word_between(squashed(rest, squash, bit), base, p, hi));
            lemma_word_orderly(x, squashed(rest, squash, bit), base, t2, s, lo, p, hi);
        }
    }
}

proof fn lemma_run(buf: Seq<u8>, c: u8, j: int, limit: int)
    ensures
        j <= run_end(buf, c, j, limit),
        run_end(buf, c, j, limit) <= limit || run_end(buf, c, j, limit) == j,
        forall|i: int| j <= i < run_end(buf, c, j, limit) ==> #[trigger] buf[i] == c,
    decreases limit - j,
{
    if j < limit && buf[j] == c {
        lemma_run(buf, c, j + 1, limit);
    }
}

proof fn lemma_flood_ids_orderly(
    x: Sources,
    record: int,
    k: int,
    p: int,
    t: Track,
    s: Answers,
    lo: int,
)
    requires
        orderly(x, t.calls, lo, p),
        lo <= p,
        0 <= p <= u64::MAX,
        0 <= k,
        x.flood is Some,
        record == flood_record(x.b, x.flood->0, x.buf[p]),
        flood_groups(x.b, record) != 0,
        flood_id_count(x.b, record) < FLOOD_MAX_IDS,
        forall|j: int|
            p - flood_suffix(x.b, record) <= j <= p ==> #[trigger] x.buf[j] == x.buf[p],
    ensures
        orderly(x, flood_ids(x.b, record, k, p, t, s).calls, lo, p),
    decreases flood_id_count(x.b, record) - k,
{
    if k < flood_id_count(x.b, record) && t.live {
        let id = flood_id(x.b, record, k);
        let t2 = if flood_id_groups(x.b, record, k) != 0 {
            let call = Call { end: p as u64, id };
            assert(founded(x, call)) by {
                reveal(founded);
                assert(floods(x.b, x.flood->0, x.buf, call, k));
            }
            lemma_ask_orderly(x, t, s, p, id, lo);
            ask_flood(t, s, p, id)
        } else {
            t
        };
        lemma_flood_ids_orderly(x, record, k + 1, p, t2, s, lo);
    }
}

proof fn lemma_flood_positions_orderly(
    x: Sources,
    record: int,
    c: u8,
    p: int,
    to: int,
    t: Track,
    s: Answers,
    lo: int,
)
    requires
        orderly(x, t.calls, lo, p - 1),
        lo <= p <= to <= u64::MAX,
        0 <= p,
        x.flood is Some,
        record == flood_record(x.b, x.flood->0, c),
        flood_groups(x.b, record) != 0,
        flood_id_count(x.b, record) < FLOOD_MAX_IDS,
        forall|j: int| p - flood_suffix(x.b, record) <= j < to ==> #[trigger] x.buf[j] == c,
    ensures
        orderly(x, flood_positions(x.b, record, p, to, t, s).calls, lo, to - 1),
    decreases to - p,
{
    if p < to && t.live {
        assert(orderly(x, t.calls, lo, p));
        lemma_flood_ids_orderly(x, record, 0, p, t, s, lo);
        let t2 = flood_ids(x.b, record, 0, p, t, s);
        assert(orderly(x, t2.calls, lo, p));
        lemma_flood_positions_orderly(x, record, c, p + 1, to, t2, s, lo);
    }
}

proof fn lemma_flood_orderly(
    x: Sources,
    phase: int,
    i: int,
    backoff: u32,
    t: Track,
    s: Answers,
    lo: int,
)
    requires
        orderly(x, t.calls, lo, i - 1),
        lo <= i,
        0 <= i,
        i + 16 <= x.buf.len() <= u64::MAX,
        0 <= phase,
        x.flood is Some,
    ensures
        ({
            let f = flood(x.b, x.flood->0, x.buf, phase, i, backoff, t, s);
            &&& orderly(x, f.t.calls, lo, f.it - 1)
            &&& i <= f.it
            &&& (f.it - i) % 16 == 0
            &&& f.it > i ==> f.it + 32 < x.buf.len()
        }),
{
    reveal(flood);
    let c = x.buf[i];
    let record = flood_record(x.b, x.flood->0, c);
    let back = i - flood_suffix(x.b, record);
    let from = back - (phase + back) % 8;
    let limit = flood_limit(x.buf.len() as int);
    let j = run_end(x.buf, c, from, limit);
    lemma_run(x.buf, c, from, limit);
    if j > i && flood_starts(x.b, record, x.buf, phase, i) && flood_groups(x.b, record) != 0 {
        let size = (j - 1 - i) / 16 * 16;
        lemma_flood_positions_orderly(x, record, c, i, i + size, t, s, lo);
    }
}

/// The candidates at 16 positions of a stretch whose first `shift` are none.
proof fn lemma_candidates_between(
    b: Seq<u8>,
    buf: Seq<u8>,
    it: int,
    state: Seq<u8>,
    half: int,
    shift: int,
)
    requires
        half == 0 || half == 1,
        0 <= shift < 16,
        forall|k: int| 0 <= k < shift ==> #[trigger] state[k] == 0xff,
    ensures
        half == 0 ==> word_between(
            candidates(b, buf, it, state, half),
            it,
            it + shift,
            it + shift + 15,
        ),
        word_between(candidates(b, buf, it, state, half), it + 8 * half, it + 8 * half, it + 8
            * half + 7),
        word_between(candidates(b, buf, it, state, half), it + 8 * half, it + shift, it + 15),
{
    let bytes = Seq::new(8, |k: int| !excluded(b, buf, it, state, 8 * half + k));
    let w = candidates(b, buf, it, state, half);
    assert forall|n: int| 0 <= n < 64 && #[trigger] bit64(w, n) implies 8 * half + n / 8
        >= shift by {
        lemma_word_bytes(bytes, 0, n / 8);
        lemma_byte(w, n);
        let k = 8 * half + n / 8;
        if k < shift {
            assert(state[k] == 0xff);
            lemma_or(swept(b, buf, it, k, 0, 16), 0, 0);
        }
    }
}

/// In a block in which no flood is looked for, bucket `k` is open at position
/// `p`: FDR does not exclude it there.
pub open spec fn fdr_opens(
    b: Seq<u8>,
    buf: Seq<u8>,
    start: int,
    phase: int,
    p: int,
    k: int,
) -> bool {
    first_try(buf, phase) == buf.len() ==> exists|j: int| #[trigger]
        fdr_open(b, buf, spans(buf.len() as int, start), j, p, k)
}

/// What FDR goes by.
pub open spec fn fdr_sources(b: Seq<u8>, buf: Seq<u8>, start: int, phase: int) -> Sources {
    Sources {
        b,
        conf: conf_of(b),
        flood: Some(flood_of(b)),
        gated: true,
        buf,
        open: |p: int, k: int| fdr_opens(b, buf, start, phase, p, k),
    }
}

/// The candidates of half a step are open.
proof fn lemma_candidates_open(
    x: Sources,
    it: int,
    state: Seq<u8>,
    half: int,
)
    requires
        half == 0 || half == 1,
        forall|p: int, k: int|
            it <= p < it + 16 && 0 <= k < 8 && clear(
                excluded(x.b, x.buf, it, state, p - it),
                k,
            ) ==> #[trigger] (x.open)(p, k),
    ensures
        word_open(x, candidates(x.b, x.buf, it, state, half), it + 8 * half),
{
    let bytes = Seq::new(8, |k: int| !excluded(x.b, x.buf, it, state, 8 * half + k));
    let w = candidates(x.b, x.buf, it, state, half);
    assert forall|n: int| 0 <= n < 64 && #[trigger] bit64(w, n) implies (x.open)(
        it + 8 * half + n / 8,
        n % 8,
    ) by {
        lemma_bit_of_byte(bytes, n / 8, n % 8);
        lemma_clear(excluded(x.b, x.buf, it, state, 8 * half + n / 8), n % 8);
    }
}

proof fn lemma_sixteen_orderly(
    x: Sources,
    it: int,
    sc: Scan,
    s: Answers,
    lo: int,
    shift: int,
)
    requires
        0 <= shift < 16,
        forall|k: int| 0 <= k < shift ==> #[trigger] sc.state[k] == 0xff,
        x.conf == conf_of(x.b),
        x.gated,
        forall|p: int, k: int|
            it <= p < it + 16 && it + shift <= p && 0 <= k < 8 && clear(
                excluded(x.b, x.buf, it, sc.state, p - it),
                k,
            ) ==> #[trigger] (x.open)(p, k),
        orderly(x, sc.t.calls, lo, it + shift - 1),
        lo <= it + shift,
        0 <= it + shift,
        it + 16 <= u64::MAX,
    ensures
        orderly(x, sixteen(x.b, x.buf, it, sc, s).t.calls, lo, it + 15),
{
    reveal(sixteen);
    let (b, buf) = (x.b, x.buf);
    let c0 = candidates(b, buf, it, sc.state, 0);
    let c8 = candidates(b, buf, it, sc.state, 1);
    let t1 = word(b, conf_of(b), true, c0, it, buf, sc.t, s);
    lemma_candidates_between(b, buf, it, sc.state, 0, shift);
    lemma_candidates_between(b, buf, it, sc.state, 1, shift);
    assert forall|p: int, k: int|
        it <= p < it + 16 && 0 <= k < 8 && clear(
            excluded(b, buf, it, sc.state, p - it),
            k,
        ) implies #[trigger] (x.open)(p, k) by {
        if p < it + shift {
            assert(sc.state[p - it] == 0xff);
            lemma_or(swept(b, buf, it, p - it, 0, 16), 0, 0);
            lemma_bit8(0xff, 0, 0, k);
        }
    }
    lemma_candidates_open(x, it, sc.state, 0);
    lemma_candidates_open(x, it, sc.state, 1);
    let mid = if shift <= 7 {
        it + 7
    } else {
        it + shift
    };
    assert(word_between(c0, it, it + shift, mid));
    assert(orderly(x, sc.t.calls, lo, it + shift));
    lemma_word_orderly(x, c0, it, sc.t, s, lo, it + shift, mid);
    assert(word_between(c8, it + 8, mid, it + 15));
    lemma_word_orderly(x, c8, it + 8, t1, s, lo, mid, it + 15);
}

/// A stretch that is cut into steps of 16, inside the block.
pub open spec fn fits_block(span: Span, len: int) -> bool {
    &&& span.to <= len
    &&& span.main ==> span.to > len - 19 && span.from >= 0 && span.shift == 0
    &&& 0 <= span.shift < 16
    &&& 0 <= span.from + span.shift
    &&& (span.to - span.from) % 16 == 0
    &&& span.from < span.to
}

/// The state with which stretch `j` is walked through, at position `it`.
pub open spec fn state_in(b: Seq<u8>, buf: Seq<u8>, cut: Seq<Span>, j: int, it: int) -> Seq<u8> {
    walked(b, buf, entered(carried(b, buf, cut, j), cut[j].shift), cut[j].from, it)
}

/// The buckets that FDR leaves open in stretch `j` are open.
pub open spec fn opens_in(x: Sources, phase: int, cut: Seq<Span>, j: int) -> bool {
    &&& x.conf == conf_of(x.b)
    &&& x.flood == Some(flood_of(x.b))
    &&& x.gated
    &&& forall|p: int, k: int|
        (first_try(x.buf, phase) == x.buf.len() ==> fdr_open(x.b, x.buf, cut, j, p, k))
            ==> #[trigger] (x.open)(p, k)
}

proof fn lemma_stretch_orderly(
    x: Sources,
    phase: int,
    cut: Seq<Span>,
    j: int,
    at: Place,
    s: Answers,
    lo: int,
    shift: int,
)
    requires
        0 <= j < cut.len(),
        opens_in(x, phase, cut, j),
        fits_block(cut[j], x.buf.len() as int),
        x.buf.len() <= u64::MAX,
        0 <= phase,
        0 <= shift < 16,
        forall|k: int| 0 <= k < shift ==> #[trigger] at.sc.state[k] == 0xff,
        first_try(x.buf, phase) == x.buf.len() ==> at.try_from == x.buf.len() && at.sc.state
            == state_in(x.b, x.buf, cut, j, at.it),
        cut[j].from <= at.it <= cut[j].to,
        (cut[j].to - at.it) % 16 == 0,
        0 <= at.it + shift,
        at.it > cut[j].from || shift == cut[j].shift,
        at.it > cut[j].from ==> shift == 0,
        orderly(x, at.sc.t.calls, lo, at.it + shift - 1),
        lo <= at.it + shift,
    ensures
        ({
            let out = stretch(x.b, x.buf, phase, cut[j].main, cut[j].to, at, s);
            &&& orderly(x, out.t.calls, lo, cut[j].to - 1)
            &&& first_try(x.buf, phase) == x.buf.len() && out.t.live ==> out.state == state_in(
                x.b,
                x.buf,
                cut,
                j,
                cut[j].to,
            )
        }),
    decreases cut[j].to - at.it,
{
    let (b, buf) = (x.b, x.buf);
    let span = cut[j];
    let calm = first_try(buf, phase) == buf.len();
    let next = advance(b, buf, phase, span.main, at, s);
    if at.it + 16 <= span.to && at.sc.t.live {
        reveal(advance);
        if span.main && at.it > at.try_from {
            assert(!calm);
            let f = flood(b, flood_of(b), buf, phase, at.it, at.sc.backoff, at.sc.t, s);
            lemma_flood_orderly(x, phase, at.it, at.sc.backoff, at.sc.t, s, lo);
            let sc = Scan { t: f.t, state: at.sc.state, backoff: f.backoff };
            if f.t.live {
                lemma_sixteen_orderly(x, f.it, sc, s, lo, 0);
            }
        } else {
            assert forall|p: int, k: int|
                at.it <= p < at.it + 16 && at.it + shift <= p && 0 <= k < 8 && clear(
                    excluded(b, buf, at.it, at.sc.state, p - at.it),
                    k,
                ) implies #[trigger] (x.open)(p, k) by {
                if calm {
                    assert(block_of(span.from, p) == at.it);
                    assert(fdr_open(b, buf, cut, j, p, k));
                }
            }
            lemma_sixteen_orderly(x, at.it, at.sc, s, lo, shift);
        }
        assert(at.it < next.it <= span.to);
        assert(orderly(x, next.sc.t.calls, lo, next.it - 1));
        if calm {
            assert(next.it == at.it + 16);
            assert(next.sc.state == next_state(b, buf, at.it, at.sc.state)) by {
                reveal(sixteen);
            }
            lemma_walked_step(
                b,
                buf,
                entered(carried(b, buf, cut, j), span.shift),
                span.from,
                at.it,
            );
        }
        lemma_stretch_orderly(x, phase, cut, j, next, s, lo, 0);
    }
}

/// Stretches cover a block from `start` on: each goes on where the one in
/// front of it ends.
pub open spec fn covers(cut: Seq<Span>, len: int, start: int) -> bool {
    &&& cut.len() > 0
    &&& cut[0].from + cut[0].shift == start
    &&& cut.last().to == len
    &&& forall|k: int| 0 <= k < cut.len() ==> fits_block(#[trigger] cut[k], len)
    &&& forall|k: int|
        0 < k < cut.len() ==> (#[trigger] cut[k]).from + cut[k].shift == cut[k - 1].to
}

/// The stretches that a block is cut into cover it, without a gap or an
/// overlap.
pub proof fn zones_cover_the_block(len: int, start: int)
    requires
        0 <= start < len,
    ensures
        covers(spans(len, start), len, start),
{
}

/// Where stretch `k` of a cut goes on.
pub open spec fn resumes(cut: Seq<Span>, start: int, k: int) -> int {
    if k == 0 {
        start
    } else {
        cut[k - 1].to
    }
}

/// The start of a stretch.
pub open spec fn enters(buf: Seq<u8>, phase: int, span: Span, sc: Scan) -> Place {
    Place {
        it: span.from,
        try_from: first_try(buf, phase),
        sc: Scan { state: entered(sc.state, span.shift), ..sc },
    }
}

proof fn lemma_whole_stretch_orderly(
    x: Sources,
    phase: int,
    cut: Seq<Span>,
    j: int,
    sc: Scan,
    s: Answers,
    lo: int,
)
    requires
        0 <= j < cut.len(),
        opens_in(x, phase, cut, j),
        fits_block(cut[j], x.buf.len() as int),
        x.buf.len() <= u64::MAX,
        0 <= phase,
        first_try(x.buf, phase) == x.buf.len() ==> sc.state == carried(x.b, x.buf, cut, j),
        lo <= cut[j].from + cut[j].shift,
        orderly(x, sc.t.calls, lo, cut[j].from + cut[j].shift - 1),
    ensures
        ({
            let out = stretch(
                x.b,
                x.buf,
                phase,
                cut[j].main,
                cut[j].to,
                enters(x.buf, phase, cut[j], sc),
                s,
            );
            &&& orderly(x, out.t.calls, lo, cut[j].to - 1)
            &&& first_try(x.buf, phase) == x.buf.len() && out.t.live ==> out.state == carried(
                x.b,
                x.buf,
                cut,
                j + 1,
            )
        }),
{
    lemma_stretch_orderly(
        x,
        phase,
        cut,
        j,
        enters(x.buf, phase, cut[j], sc),
        s,
        lo,
        cut[j].shift,
    );
}

proof fn lemma_stretches_orderly(
    x: Sources,
    phase: int,
    start: int,
    cut: Seq<Span>,
    k: int,
    sc: Scan,
    s: Answers,
)
    requires
        0 <= start < x.buf.len() <= u64::MAX,
        0 <= phase,
        covers(cut, x.buf.len() as int, start),
        forall|j: int| 0 <= j < cut.len() ==> #[trigger] opens_in(x, phase, cut, j),
        0 <= k <= cut.len(),
        start <= resumes(cut, start, k),
        first_try(x.buf, phase) == x.buf.len() && sc.t.live ==> sc.state == carried(
            x.b,
            x.buf,
            cut,
            k,
        ),
        orderly(x, sc.t.calls, start, resumes(cut, start, k) - 1),
    ensures
        orderly(
            x,
            stretches(x.b, x.buf, phase, cut, k, sc, s).t.calls,
            start,
            x.buf.len() - 1,
        ),
    decreases cut.len() - k,
{
    if k < cut.len() {
        let span = cut[k];
        assert(fits_block(span, x.buf.len() as int));
        assert(span.from + span.shift == resumes(cut, start, k));
        assert(opens_in(x, phase, cut, k));
        if sc.t.live {
            lemma_whole_stretch_orderly(x, phase, cut, k, sc, s, start);
            let sc2 = stretch(
                x.b,
                x.buf,
                phase,
                span.main,
                span.to,
                enters(x.buf, phase, span, sc),
                s,
            );
            lemma_stretches_orderly(x, phase, start, cut, k + 1, sc2, s);
        } else {
            assert(resumes(cut, start, k) <= x.buf.len());
        }
    }
}

/// The hits of FDR lie inside the block and at or behind its start, in order
/// of where they end. Each was confirmed by a literal record whose bytes are
/// there, or comes out of a run of one byte.
pub proof fn fdr_hits_are_orderly(b: Seq<u8>, buf: Seq<u8>, start: int, phase: int, s: Answers)
    requires
        0 <= start,
        0 <= phase,
        buf.len() <= u64::MAX,
    ensures
        orderly(
            fdr_sources(b, buf, start, phase),
            fdr_scan(b, buf, start, phase, Seq::empty(), s).calls,
            start,
            buf.len() - 1,
        ),
{
    if start < buf.len() {
        let cut = spans(buf.len() as int, start);
        let x = fdr_sources(b, buf, start, phase);
        zones_cover_the_block(buf.len() as int, start);
        assert forall|j: int| 0 <= j < cut.len() implies #[trigger] opens_in(x, phase, cut, j) by {
            assert forall|p: int, k: int|
                (first_try(buf, phase) == buf.len() ==> fdr_open(b, buf, cut, j, p, k))
                    implies #[trigger] (x.open)(p, k) by {}
        }
        lemma_stretches_orderly(
            x,
            phase,
            start,
            cut,
            0,
            Scan {
                t: fresh(Seq::empty()),
                state: b.subrange(32, 48),
                backoff: FLOOD_BACKOFF_START,
            },
            s,
        );
    }
}

/// What Teddy goes by.
pub open spec fn teddy_sources(b: Seq<u8>, buf: Seq<u8>, start: int) -> Sources {
    Sources {
        b,
        conf: teddy_conf_of(b),
        flood: None,
        gated: false,
        buf,
        open: |p: int, k: int|
            clear(teddy_excluded(b, buf, block_of(start, p), p - block_of(start, p)), k),
    }
}

/// The candidates of half a block are open.
proof fn lemma_teddy_candidates_open(b: Seq<u8>, buf: Seq<u8>, start: int, p: int, half: int)
    requires
        half == 0 || half == 1,
        start <= p,
        (p - start) % 16 == 0,
    ensures
        word_open(
            teddy_sources(b, buf, start),
            teddy_candidates(b, buf, p, half),
            p + 8 * half,
        ),
{
    let bytes = Seq::new(8, |k: int| !teddy_excluded(b, buf, p, 8 * half + k));
    let w = teddy_candidates(b, buf, p, half);
    let x = teddy_sources(b, buf, start);
    assert forall|n: int| 0 <= n < 64 && #[trigger] bit64(w, n) implies (x.open)(
        p + 8 * half + n / 8,
        n % 8,
    ) by {
        lemma_bit_of_byte(bytes, n / 8, n % 8);
        lemma_clear(teddy_excluded(b, buf, p, 8 * half + n / 8), n % 8);
        assert(block_of(start, p + 8 * half + n / 8) == p);
    }
}

/// The candidates of half a block.
proof fn lemma_teddy_candidates_between(b: Seq<u8>, buf: Seq<u8>, p: int, half: int)
    requires
        half == 0 || half == 1,
    ensures
        word_between(
            teddy_candidates(b, buf, p, half),
            p + 8 * half,
            p + 8 * half,
            if p + 8 * half + 8 <= buf.len() {
                p + 8 * half + 7
            } else {
                buf.len() - 1
            },
        ),
{
    let bytes = Seq::new(8, |k: int| !teddy_excluded(b, buf, p, 8 * half + k));
    let w = teddy_candidates(b, buf, p, half);
    assert forall|n: int| 0 <= n < 64 && #[trigger] bit64(w, n) implies p + 8 * half + n / 8
        < buf.len() by {
        lemma_word_bytes(bytes, 0, n / 8);
        lemma_byte(w, n);
        if p + 8 * half + n / 8 >= buf.len() {
            lemma_or(0, 0, 0);
        }
    }
}

proof fn lemma_teddy_blocks_orderly(
    b: Seq<u8>,
    buf: Seq<u8>,
    p: int,
    t: Track,
    s: Answers,
    lo: int,
)
    requires
        0 <= lo <= p,
        (p - lo) % 16 == 0,
        buf.len() <= u64::MAX,
        orderly(
            teddy_sources(b, buf, lo),
            t.calls,
            lo,
            if p <= buf.len() {
                p - 1
            } else {
                buf.len() - 1
            },
        ),
    ensures
        orderly(teddy_sources(b, buf, lo), teddy_blocks(b, buf, p, t, s).calls, lo, buf.len() - 1),
    decreases buf.len() + 16 - p,
{
    if p < buf.len() && t.live {
        reveal(teddy_block);
        let x = teddy_sources(b, buf, lo);
        let len = buf.len() as int;
        let c0 = teddy_candidates(b, buf, p, 0);
        let c8 = teddy_candidates(b, buf, p, 1);
        let t1 = word(b, x.conf, false, c0, p, buf, t, s);
        lemma_teddy_candidates_between(b, buf, p, 0);
        lemma_teddy_candidates_between(b, buf, p, 1);
        lemma_teddy_candidates_open(b, buf, lo, p, 0);
        lemma_teddy_candidates_open(b, buf, lo, p, 1);
        let mid = if p + 8 <= len {
            p + 7
        } else {
            len - 1
        };
        assert(orderly(x, t.calls, lo, p));
        lemma_word_orderly(x, c0, p, t, s, lo, p, mid);
        let end = if p + 16 <= len {
            p + 15
        } else {
            len - 1
        };
        assert(word_between(c8, p + 8, mid, end));
        lemma_word_orderly(x, c8, p + 8, t1, s, lo, mid, end);
        lemma_teddy_blocks_orderly(b, buf, p + 16, teddy_block(b, buf, p, t, s), s, lo);
    }
}

/// The hits of Teddy lie inside the block and at or behind its start, in
/// order of where they end, and each was confirmed by a literal record whose
/// bytes are there.
pub proof fn teddy_hits_are_orderly(b: Seq<u8>, buf: Seq<u8>, start: int, s: Answers)
    requires
        0 <= start,
        buf.len() <= u64::MAX,
    ensures
        orderly(
            teddy_sources(b, buf, start),
            teddy_scan(b, buf, start, Seq::empty(), s).calls,
            start,
            buf.len() - 1,
        ),
{
    lemma_teddy_blocks_orderly(b, buf, start, fresh(Seq::empty()), s, start);
}

/// The record at `li` stands for a text of up to 8 bytes, all bits of which
/// count.
pub open spec fn spells(b: Seq<u8>, li: int, text: Seq<u8>) -> bool {
    let gap = 8 - text.len();
    &&& 1 <= text.len() <= 8
    &&& b[li + 28] == text.len()
    &&& forall|k: int|
        0 <= k < 8 ==> #[trigger] b[li + k] == if k < gap {
            0
        } else {
            text[k - gap]
        }
    &&& forall|k: int|
        0 <= k < 8 ==> #[trigger] b[li + 8 + k] == if k < gap {
            0u8
        } else {
            0xff
        }
}

/// A text ends with position `p` of a block.
pub open spec fn ends_at(buf: Seq<u8>, text: Seq<u8>, p: int) -> bool {
    &&& text.len() <= p + 1
    &&& buf.subrange(p + 1 - text.len(), p + 1) == text
}

pub proof fn lemma_masked_byte(a: u64, m: u64, k: int)
    requires
        0 <= k < 8,
    ensures
        byte_of(a & m, k) == byte_of(a, k) & byte_of(m, k),
        byte_of(m, k) == 0xff ==> byte_of(a & m, k) == byte_of(a, k),
        byte_of(m, k) == 0 ==> byte_of(a & m, k) == 0,
{
    let t = (8 * k) as u64;
    let x = (a >> t) as u8;
    assert(((a & m) >> t) as u8 == ((a >> t) as u8) & ((m >> t) as u8) && x & 0xff == x && x & 0
        == 0) by (bit_vector);
}

/// A record that stands for a text is confirmed exactly where the text ends.
pub proof fn literal_is_found_where_it_ends(
    b: Seq<u8>,
    li: int,
    text: Seq<u8>,
    buf: Seq<u8>,
    p: int,
    last: u32,
)
    requires
        0 <= li,
        spells(b, li, text),
        0 <= p < buf.len(),
        le64(b, li + 16) != 0,
        last != le32(b, li + 24),
    ensures
        record_hits(b, li, key_at(buf, p), p, last) <==> ends_at(buf, text, p),
{
    let key = key_at(buf, p);
    let msk = le64(b, li + 8);
    let v = le64(b, li);
    let tail = Seq::new(8, |j: int| byte_or_zero(buf, p - 7 + j));
    let gap = 8 - text.len();
    assert forall|k: int| 0 <= k < 8 implies #[trigger] byte_of(key, k) == byte_or_zero(
        buf,
        p - 7 + k,
    ) && byte_of(v, k) == b[li + k] && byte_of(msk, k) == b[li + 8 + k] by {
        lemma_word_bytes(tail, 0, k);
        lemma_word_bytes(b, li, k);
        lemma_word_bytes(b, li + 8, k);
    }
    if record_hits(b, li, key, p, last) {
        assert forall|j: int| 0 <= j < text.len() implies #[trigger] buf.subrange(
            p + 1 - text.len(),
            p + 1,
        )[j] == text[j] by {
            lemma_masked_byte(key, msk, j + gap);
            assert(byte_of(key, j + gap) == byte_or_zero(buf, p - 7 + j + gap));
            assert(b[li + 8 + (j + gap)] == 0xff);
            assert(b[li + (j + gap)] == text[j]);
        }
        assert(buf.subrange(p + 1 - text.len(), p + 1) =~= text);
    }
    if ends_at(buf, text, p) {
        let bytes = Seq::new(8, |k: int| b[li + k]);
        assert forall|k: int| 0 <= k < 8 implies #[trigger] byte_of(key & msk, k) == bytes[k] by {
            lemma_masked_byte(key, msk, k);
            assert(byte_of(key, k) == byte_or_zero(buf, p - 7 + k));
            assert(b[li + 8 + k] == if k < gap {
                0u8
            } else {
                0xff
            });
            if k >= gap {
                assert(buf.subrange(p + 1 - text.len(), p + 1)[k - gap] == text[k - gap]);
            }
        }
        lemma_word_is(key & msk, bytes);
    }
}

/// Squashing takes the chosen buckets away at the position of a hit, and
/// nothing else.
pub proof fn squash_takes_buckets_away(w: u64, squash: u8, bit: int, n: int)
    requires
        0 <= bit < 64,
        0 <= n < 64,
    ensures
        bit64(squashed(w, squash, bit), n) <==> bit64(w, n) && !(n / 8 == bit / 8 && bit64(
            squash as u64,
            n % 8,
        )),
{
    let k = n as u64;
    let low = (n % 8) as u64;
    let t = (bit / 8 * 8) as u64;
    let x = squash as u64;
    assert(((w & !(x << t)) >> k) & 1 == 1 <==> (w >> k) & 1 == 1 && !(k >= t && k < t + 8 && (x
        >> low) & 1 == 1)) by (bit_vector)
        requires
            x <= 0xff,
            t <= 56,
            t % 8 == 0,
            k < 64,
            low == k % 8,
    ;
}

/// The calls of a search for one literal, up to position `p`: one for each
/// position at which the literal is, in order.
pub open spec fn lists(t: NoodTable, buf: Seq<u8>, from: int, p: int, calls: Seq<Call>) -> bool {
    &&& forall|i: int|
        0 <= i < calls.len() ==> {
            let q = (#[trigger] calls[i]).end + 1 - t.key_offset;
            calls[i].id == t.id && from <= q < p && nood_hit(t, buf, q)
        }
    &&& forall|q: int|
        from <= q < p && #[trigger] nood_hit(t, buf, q) ==> exists|i: int|
            0 <= i < calls.len() && (#[trigger] calls[i]).end == q + t.key_offset - 1
    &&& forall|i: int, j: int|
        #![trigger calls[i], calls[j]]
        0 <= i < j < calls.len() ==> calls[i].end < calls[j].end
}

proof fn lemma_nood_lists(
    t: NoodTable,
    buf: Seq<u8>,
    from: int,
    p: int,
    to: int,
    tr: Track,
    s: Answers,
)
    requires
        t.wf(),
        0 <= from <= p <= to <= buf.len() + 1 - t.key_offset,
        buf.len() <= u64::MAX,
        tr.live,
        forall|calls: Seq<Call>| (#[trigger] s(calls)).ctl == ScanCtl::Continue,
        lists(t, buf, from, p, tr.calls),
    ensures
        lists(t, buf, from, to, nood_positions(t, buf, p, to, tr, s).calls),
    decreases to - p,
{
    if p < to {
        let tr2 = if nood_hit(t, buf, p) {
            nood_ask(t, p, tr, s)
        } else {
            tr
        };
        if nood_hit(t, buf, p) {
            let n = tr.calls.len() as int;
            assert(tr2.calls[n].end == p + t.key_offset - 1);
            assert forall|q: int| from <= q < p + 1 && #[trigger] nood_hit(t, buf, q) implies exists
                |i: int| 0 <= i < tr2.calls.len() && (#[trigger] tr2.calls[i]).end == q
                + t.key_offset - 1 by {
                if q < p {
                    let i = choose|i: int|
                        0 <= i < tr.calls.len() && (#[trigger] tr.calls[i]).end == q + t.key_offset
                            - 1;
                    assert(tr2.calls[i] == tr.calls[i]);
                }
            }
        }
        assert(lists(t, buf, from, p + 1, tr2.calls));
        lemma_nood_lists(t, buf, from, p + 1, to, tr2, s);
    }
}

/// Noodle finds its literal wherever it is, once each, in order, and nothing
/// else, if its callback never ends the scan.
pub proof fn noodle_finds_every_literal(t: NoodTable, buf: Seq<u8>, start: int, s: Answers)
    requires
        t.wf(),
        0 <= start,
        buf.len() <= u64::MAX,
        forall|calls: Seq<Call>| (#[trigger] s(calls)).ctl == ScanCtl::Continue,
    ensures
        lists(
            t,
            buf,
            first_key(t, start),
            keys_end(t, buf.len() as int),
            nood_scan(t, buf, start, Seq::empty(), s).calls,
        ),
{
    if start + t.msk_len <= buf.len() {
        lemma_nood_lists(
            t,
            buf,
            first_key(t, start),
            first_key(t, start),
            keys_end(t, buf.len() as int),
            fresh(Seq::empty()),
            s,
        );
    }
}

} // verus!
