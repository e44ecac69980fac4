//! The calls of an engine depend on nothing but the answers that it got.

use vstd::prelude::*;

use crate::bytes::{le32, le64};
use crate::hwlm::confirm::{
    ask, bucket, bucket_start, chain, chain_of, chain_start, key_at, lemma_word_shrinks,
    lowest, record_hits, squashed, without_lowest, word, Track, LIT_INFO_SIZE,
};
use crate::hwlm::fdr::{
    advance, candidates, conf_of, entered, fdr_outcome, fdr_scan, flood_of, fresh, sixteen, stretch,
    stretches, Place, Scan,
};
use crate::hwlm::flood::{
    ask_flood, first_try, flood, flood_id, flood_id_count, flood_id_groups, flood_ids,
    flood_positions, FLOOD_BACKOFF_START,
};
use crate::hwlm::laws::{unflooded, unflooded_blocks_have_no_address};
use crate::hwlm::noodle::{
    first_key, keys_end, nood_ask, nood_hit, nood_outcome, nood_positions, nood_scan, NoodTable,
};
use crate::hwlm::teddy::{
    teddy_block, teddy_blocks, teddy_candidates, teddy_conf_of, teddy_outcome, teddy_scan,
};
use crate::hwlm::zones::{spans, Span};
use crate::hwlm::{answers_of, calls_of, Answers, Call, ExecResult, Hit};

verus! {

/// Two ways to answer give the same answers to some calls.
pub open spec fn same_answers(s: Answers, s2: Answers, calls: Seq<Call>) -> bool {
    forall|i: int| 0 < i <= calls.len() ==> s(#[trigger] calls.take(i)) == s2(calls.take(i))
}

proof fn lemma_same_before(s: Answers, s2: Answers, fewer: Seq<Call>, calls: Seq<Call>)
    requires
        fewer.is_prefix_of(calls),
        same_answers(s, s2, calls),
    ensures
        same_answers(s, s2, fewer),
{
    assert forall|i: int| 0 < i <= fewer.len() implies s(#[trigger] fewer.take(i)) == s2(
        fewer.take(i),
    ) by {
        assert(fewer.take(i) =~= calls.take(i));
    }
}

/// A track goes on from another one, and would be the same with answers that
/// are the same for its calls.
pub open spec fn caused(t: Track, out: Track, out2: Track, s: Answers, s2: Answers) -> bool {
    &&& t.calls.is_prefix_of(out.calls)
    &&& same_answers(s, s2, out.calls) ==> out2 == out
}

proof fn lemma_ask_caused(t: Track, s: Answers, s2: Answers, end: int, id: u32)
    ensures
        t.calls.is_prefix_of(ask(t, s, end, id).0.calls),
        same_answers(s, s2, ask(t, s, end, id).0.calls) ==> ask(t, s2, end, id) == ask(
            t,
            s,
            end,
            id,
        ),
{
    let calls = ask(t, s, end, id).0.calls;
    assert(calls.take(calls.len() as int) =~= calls);
}

pub proof fn lemma_chain_caused(
    b: Seq<u8>,
    li: int,
    key: u64,
    i: int,
    t: Track,
    s: Answers,
    s2: Answers,
    squash: u8,
)
    ensures
        t.calls.is_prefix_of(chain(b, li, key, i, t, s, squash).0.calls),
        same_answers(s, s2, chain(b, li, key, i, t, s, squash).0.calls) ==> chain(
            b,
            li,
            key,
            i,
            t,
            s2,
            squash,
        ) == chain(b, li, key, i, t, s, squash),
    decreases b.len() - li,
{
    if t.live && li + LIT_INFO_SIZE <= b.len() {
        let id = le32(b, li + 24);
        let out = chain(b, li, key, i, t, s, squash).0;
        let (next, squash2) = if record_hits(b, li, key, i, t.last) {
            lemma_ask_caused(t, s, s2, i, id);
            let (next, sq) = ask(t, s, i, id);
            (next, squash | sq)
        } else {
            (t, squash)
        };
        if b[li + 30] != 0 {
            lemma_chain_caused(b, li + LIT_INFO_SIZE, key, i, next, s, s2, squash2);
        }
        if same_answers(s, s2, out.calls) {
            lemma_same_before(s, s2, next.calls, out.calls);
        }
    }
}

pub proof fn lemma_word_caused(
    b: Seq<u8>,
    conf: int,
    gated: bool,
    w: u64,
    base: int,
    buf: Seq<u8>,
    t: Track,
    s: Answers,
    s2: Answers,
)
    ensures
        caused(
            t,
            word(b, conf, gated, w, base, buf, t, s),
            word(b, conf, gated, w, base, buf, t, s2),
            s,
            s2,
        ),
    decreases w,
{
    if w != 0 && t.live {
        let bit = lowest(w);
        let rest = without_lowest(w);
        let cf = bucket_start(b, conf, bit % 8);
        let p = base + bit / 8;
        lemma_word_shrinks(w, 0);
        if cf == 0 || (gated && le64(b, conf + cf + 24) == 0) {
            lemma_word_caused(b, conf, gated, rest, base, buf, t, s, s2);
        } else {
            let fdrc = conf + cf;
            let key = key_at(buf, p);
            let (next, squash) = bucket(b, fdrc, key, p, t, s);
            lemma_chain_caused(
                b,
                fdrc + chain_start(b, fdrc, chain_of(b, fdrc, key)),
                key,
                p,
                t,
                s,
                s2,
                0,
            );
            lemma_word_shrinks(rest, !((squash as u64) << ((bit / 8 * 8) as u64)));
            lemma_word_caused(
                b,
                conf,
                gated,
                squashed(rest, squash, bit),
                base,
                buf,
                next,
                s,
                s2,
            );
            let out = word(b, conf, gated, w, base, buf, t, s);
            if same_answers(s, s2, out.calls) {
                lemma_same_before(s, s2, next.calls, out.calls);
            }
        }
    }
}

proof fn lemma_flood_ids_caused(
    b: Seq<u8>,
    record: int,
    k: int,
    p: int,
    t: Track,
    s: Answers,
    s2: Answers,
)
    ensures
        caused(
            t,
            flood_ids(b, record, k, p, t, s),
            flood_ids(b, record, k, p, t, s2),
            s,
            s2,
        ),
    decreases flood_id_count(b, record) - k,
{
    if k < flood_id_count(b, record) && t.live {
        let id = flood_id(b, record, k);
        let next = if flood_id_groups(b, record, k) != 0 {
            lemma_ask_caused(t, s, s2, p, id);
            ask_flood(t, s, p, id)
        } else {
            t
        };
        lemma_flood_ids_caused(b, record, k + 1, p, next, s, s2);
        let out = flood_ids(b, record, k, p, t, s);
        if same_answers(s, s2, out.calls) {
            lemma_same_before(s, s2, next.calls, out.calls);
        }
    }
}

proof fn lemma_flood_positions_caused(
    b: Seq<u8>,
    record: int,
    p: int,
    to: int,
    t: Track,
    s: Answers,
    s2: Answers,
)
    ensures
        caused(
            t,
            flood_positions(b, record, p, to, t, s),
            flood_positions(b, record, p, to, t, s2),
            s,
            s2,
        ),
    decreases to - p,
{
    if p < to && t.live {
        let next = flood_ids(b, record, 0, p, t, s);
        lemma_flood_ids_caused(b, record, 0, p, t, s, s2);
        lemma_flood_positions_caused(b, record, p + 1, to, next, s, s2);
        let out = flood_positions(b, record, p, to, t, s);
        if same_answers(s, s2, out.calls) {
            lemma_same_before(s, s2, next.calls, out.calls);
        }
    }
}

proof fn lemma_flood_caused(
    b: Seq<u8>,
    flood_offset: int,
    buf: Seq<u8>,
    phase: int,
    i: int,
    backoff: u32,
    t: Track,
    s: Answers,
    s2: Answers,
)
    ensures
        ({
            let f = flood(b, flood_offset, buf, phase, i, backoff, t, s);
            let f2 = flood(b, flood_offset, buf, phase, i, backoff, t, s2);
            &&& t.calls.is_prefix_of(f.t.calls)
            &&& same_answers(s, s2, f.t.calls) ==> f2 == f
        }),
{
    reveal(flood);
    assert forall|record: int, to: int| caused(
        t,
        #[trigger] flood_positions(b, record, i, to, t, s),
        flood_positions(b, record, i, to, t, s2),
        s,
        s2,
    ) by {
        lemma_flood_positions_caused(b, record, i, to, t, s, s2);
    }
}

proof fn lemma_sixteen_caused(
    b: Seq<u8>,
    buf: Seq<u8>,
    it: int,
    sc: Scan,
    s: Answers,
    s2: Answers,
)
    ensures
        ({
            let out = sixteen(b, buf, it, sc, s);
            &&& sc.t.calls.is_prefix_of(out.t.calls)
            &&& same_answers(s, s2, out.t.calls) ==> sixteen(b, buf, it, sc, s2) == out
        }),
{
    reveal(sixteen);
    let c0 = candidates(b, buf, it, sc.state, 0);
    let c8 = candidates(b, buf, it, sc.state, 1);
    let next = word(b, conf_of(b), true, c0, it, buf, sc.t, s);
    lemma_word_caused(b, conf_of(b), true, c0, it, buf, sc.t, s, s2);
    lemma_word_caused(b, conf_of(b), true, c8, it + 8, buf, next, s, s2);
    let out = sixteen(b, buf, it, sc, s);
    if same_answers(s, s2, out.t.calls) {
        lemma_same_before(s, s2, next.calls, out.t.calls);
    }
}

proof fn lemma_advance_caused(
    b: Seq<u8>,
    buf: Seq<u8>,
    phase: int,
    main: bool,
    at: Place,
    s: Answers,
    s2: Answers,
)
    ensures
        ({
            let out = advance(b, buf, phase, main, at, s);
            &&& at.sc.t.calls.is_prefix_of(out.sc.t.calls)
            &&& same_answers(s, s2, out.sc.t.calls) ==> advance(b, buf, phase, main, at, s2) == out
        }),
{
    reveal(advance);
    let out = advance(b, buf, phase, main, at, s);
    if main && at.it > at.try_from {
        let f = flood(b, flood_of(b), buf, phase, at.it, at.sc.backoff, at.sc.t, s);
        lemma_flood_caused(b, flood_of(b), buf, phase, at.it, at.sc.backoff, at.sc.t, s, s2);
        let sc = Scan { t: f.t, state: at.sc.state, backoff: f.backoff };
        lemma_sixteen_caused(b, buf, f.it, sc, s, s2);
        if same_answers(s, s2, out.sc.t.calls) {
            lemma_same_before(s, s2, f.t.calls, out.sc.t.calls);
        }
    } else {
        lemma_sixteen_caused(b, buf, at.it, at.sc, s, s2);
    }
}

pub proof fn lemma_stretch_caused(
    b: Seq<u8>,
    buf: Seq<u8>,
    phase: int,
    main: bool,
    to: int,
    at: Place,
    s: Answers,
    s2: Answers,
)
    ensures
        ({
            let out = stretch(b, buf, phase, main, to, at, s);
            &&& at.sc.t.calls.is_prefix_of(out.t.calls)
            &&& same_answers(s, s2, out.t.calls) ==> stretch(b, buf, phase, main, to, at, s2) == out
        }),
    decreases to - at.it,
{
    if at.it + 16 <= to && at.sc.t.live {
        let next = advance(b, buf, phase, main, at, s);
        let out = stretch(b, buf, phase, main, to, at, s);
        lemma_advance_caused(b, buf, phase, main, at, s, s2);
        if at.it < next.it <= to {
            lemma_stretch_caused(b, buf, phase, main, to, next, s, s2);
        }
        if same_answers(s, s2, out.t.calls) {
            lemma_same_before(s, s2, next.sc.t.calls, out.t.calls);
        }
    }
}

pub proof fn lemma_stretches_caused(
    b: Seq<u8>,
    buf: Seq<u8>,
    phase: int,
    cut: Seq<Span>,
    k: int,
    sc: Scan,
    s: Answers,
    s2: Answers,
)
    ensures
        ({
            let out = stretches(b, buf, phase, cut, k, sc, s);
            &&& sc.t.calls.is_prefix_of(out.t.calls)
            &&& same_answers(s, s2, out.t.calls) ==> stretches(b, buf, phase, cut, k, sc, s2) == out
        }),
    decreases cut.len() - k,
{
    if 0 <= k < cut.len() && sc.t.live {
        let at = Place {
            it: cut[k].from,
            try_from: first_try(buf, phase),
            sc: Scan { state: entered(sc.state, cut[k].shift), ..sc },
        };
        let next = stretch(b, buf, phase, cut[k].main, cut[k].to, at, s);
        let out = stretches(b, buf, phase, cut, k, sc, s);
        lemma_stretch_caused(b, buf, phase, cut[k].main, cut[k].to, at, s, s2);
        lemma_stretches_caused(b, buf, phase, cut, k + 1, next, s, s2);
        if same_answers(s, s2, out.t.calls) {
            lemma_same_before(s, s2, next.t.calls, out.t.calls);
        }
    }
}

/// The calls of FDR depend on nothing but the table, the block, and the
/// answers that it got.
pub proof fn fdr_is_caused(
    b: Seq<u8>,
    buf: Seq<u8>,
    start: int,
    phase: int,
    s: Answers,
    s2: Answers,
)
    requires
        same_answers(s, s2, fdr_scan(b, buf, start, phase, Seq::empty(), s).calls),
    ensures
        fdr_scan(b, buf, start, phase, Seq::empty(), s2) == fdr_scan(
            b,
            buf,
            start,
            phase,
            Seq::empty(),
            s,
        ),
{
    if start < buf.len() {
        lemma_stretches_caused(
            b,
            buf,
            phase,
            spans(buf.len() as int, start),
            0,
            Scan {
                t: fresh(Seq::empty()),
                state: b.subrange(32, 48),
                backoff: FLOOD_BACKOFF_START,
            },
            s,
            s2,
        );
    }
}

pub proof fn lemma_teddy_blocks_caused(
    b: Seq<u8>,
    buf: Seq<u8>,
    p: int,
    t: Track,
    s: Answers,
    s2: Answers,
)
    ensures
        caused(t, teddy_blocks(b, buf, p, t, s), teddy_blocks(b, buf, p, t, s2), s, s2),
    decreases buf.len() + 16 - p,
{
    if p < buf.len() && t.live {
        reveal(teddy_block);
        let conf = teddy_conf_of(b);
        let c0 = teddy_candidates(b, buf, p, 0);
        let c8 = teddy_candidates(b, buf, p, 1);
        let half = word(b, conf, false, c0, p, buf, t, s);
        let next = teddy_block(b, buf, p, t, s);
        let out = teddy_blocks(b, buf, p, t, s);
        lemma_word_caused(b, conf, false, c0, p, buf, t, s, s2);
        lemma_word_caused(b, conf, false, c8, p + 8, buf, half, s, s2);
        lemma_teddy_blocks_caused(b, buf, p + 16, next, s, s2);
        if same_answers(s, s2, out.calls) {
            lemma_same_before(s, s2, next.calls, out.calls);
            lemma_same_before(s, s2, half.calls, next.calls);
        }
    }
}

/// The calls of Teddy depend on nothing but the table, the block, and the
/// answers that it got.
pub proof fn teddy_is_caused(b: Seq<u8>, buf: Seq<u8>, start: int, s: Answers, s2: Answers)
    requires
        same_answers(s, s2, teddy_scan(b, buf, start, Seq::empty(), s).calls),
    ensures
        teddy_scan(b, buf, start, Seq::empty(), s2) == teddy_scan(
            b,
            buf,
            start,
            Seq::empty(),
            s,
        ),
{
    lemma_teddy_blocks_caused(b, buf, start, fresh(Seq::empty()), s, s2);
}

proof fn lemma_nood_positions_caused(
    t: NoodTable,
    buf: Seq<u8>,
    p: int,
    to: int,
    tr: Track,
    s: Answers,
    s2: Answers,
)
    ensures
        caused(
            tr,
            nood_positions(t, buf, p, to, tr, s),
            nood_positions(t, buf, p, to, tr, s2),
            s,
            s2,
        ),
    decreases to - p,
{
    if p < to && tr.live {
        let next = if nood_hit(t, buf, p) {
            lemma_ask_caused(tr, s, s2, p + t.key_offset - 1, t.id);
            nood_ask(t, p, tr, s)
        } else {
            tr
        };
        lemma_nood_positions_caused(t, buf, p + 1, to, next, s, s2);
        let out = nood_positions(t, buf, p, to, tr, s);
        if same_answers(s, s2, out.calls) {
            lemma_same_before(s, s2, next.calls, out.calls);
        }
    }
}

/// The calls of Noodle depend on nothing but the table, the block, and the
/// answers that it got.
pub proof fn nood_is_caused(t: NoodTable, buf: Seq<u8>, start: int, s: Answers, s2: Answers)
    requires
        same_answers(s, s2, nood_scan(t, buf, start, Seq::empty(), s).calls),
    ensures
        nood_scan(t, buf, start, Seq::empty(), s2) == nood_scan(t, buf, start, Seq::empty(), s),
{
    if buf.len() - start >= t.msk_len {
        lemma_nood_positions_caused(
            t,
            buf,
            first_key(t, start),
            keys_end(t, buf.len() as int),
            fresh(Seq::empty()),
            s,
            s2,
        );
    }
}

/// Two logs have the same answers as far as both go.
pub open spec fn answered_alike(one: Seq<Hit>, other: Seq<Hit>) -> bool {
    forall|i: int|
        #![trigger one[i], other[i]]
        0 <= i < one.len() && i < other.len() ==> one[i].reply == other[i].reply
}

proof fn lemma_alike(one: Seq<Hit>, other: Seq<Hit>)
    requires
        answered_alike(one, other),
        one.len() <= other.len(),
    ensures
        same_answers(answers_of(one), answers_of(other), calls_of(one)),
{
    assert forall|i: int| 0 < i <= calls_of(one).len() implies answers_of(one)(
        #[trigger] calls_of(one).take(i),
    ) == answers_of(other)(calls_of(one).take(i)) by {
        assert(one[i - 1].reply == other[i - 1].reply);
    }
}

proof fn lemma_logs_equal(one: Seq<Hit>, other: Seq<Hit>)
    requires
        answered_alike(one, other),
        calls_of(one) == calls_of(other),
    ensures
        one == other,
{
    assert(one.len() == calls_of(one).len());
    assert(other.len() == calls_of(other).len());
    assert forall|i: int| 0 <= i < one.len() implies one[i] == other[i] by {
        assert(calls_of(one)[i] == one[i].call && calls_of(other)[i] == other[i].call);
        assert(one[i].reply == other[i].reply);
    }
    assert(one =~= other);
}

/// Two scans with FDR of one block are the same, if the same answers are
/// given to their calls.
pub proof fn fdr_scans_are_alike(
    b: Seq<u8>,
    buf: Seq<u8>,
    start: int,
    phase: int,
    one: Seq<Hit>,
    other: Seq<Hit>,
    r: ExecResult,
    r2: ExecResult,
)
    requires
        fdr_outcome(b, buf, start, phase, one, r),
        fdr_outcome(b, buf, start, phase, other, r2),
        answered_alike(one, other),
    ensures
        one == other,
        r == r2,
{
    let (s, s2) = (answers_of(one), answers_of(other));
    if one.len() <= other.len() {
        lemma_alike(one, other);
        fdr_is_caused(b, buf, start, phase, s, s2);
    } else {
        lemma_alike(other, one);
        fdr_is_caused(b, buf, start, phase, s2, s);
    }
    lemma_logs_equal(one, other);
}

/// Two scans with FDR of one block are the same, if the same answers are given
/// to their calls, also where the block lies at two addresses, provided that no
/// flood is looked for at either. That is so of every block that is shorter
/// than `FLOOD_MINIMUM_SIZE`, and of those whose probes find no equal words.
pub proof fn fdr_scans_are_alike_anywhere(
    b: Seq<u8>,
    buf: Seq<u8>,
    start: int,
    phase: int,
    phase2: int,
    one: Seq<Hit>,
    other: Seq<Hit>,
    r: ExecResult,
    r2: ExecResult,
)
    requires
        0 <= start,
        phase == phase2 || (unflooded(buf, phase) && unflooded(buf, phase2)),
        fdr_outcome(b, buf, start, phase, one, r),
        fdr_outcome(b, buf, start, phase2, other, r2),
        answered_alike(one, other),
    ensures
        one == other,
        r == r2,
{
    if phase != phase2 {
        unflooded_blocks_have_no_address(b, buf, start, phase, phase2, answers_of(other));
    }
    fdr_scans_are_alike(b, buf, start, phase, one, other, r, r2);
}

/// Two scans with Teddy of one block are the same, if the same answers are
/// given to their calls.
pub proof fn teddy_scans_are_alike(
    b: Seq<u8>,
    buf: Seq<u8>,
    start: int,
    one: Seq<Hit>,
    other: Seq<Hit>,
    r: ExecResult,
    r2: ExecResult,
)
    requires
        teddy_outcome(b, buf, start, one, r),
        teddy_outcome(b, buf, start, other, r2),
        answered_alike(one, other),
    ensures
        one == other,
        r == r2,
{
    let (s, s2) = (answers_of(one), answers_of(other));
    if one.len() <= other.len() {
        lemma_alike(one, other);
        teddy_is_caused(b, buf, start, s, s2);
    } else {
        lemma_alike(other, one);
        teddy_is_caused(b, buf, start, s2, s);
    }
    lemma_logs_equal(one, other);
}

/// Two scans with Noodle of one block are the same, if the same answers are
/// given to their calls.
pub proof fn nood_scans_are_alike(
    t: NoodTable,
    buf: Seq<u8>,
    start: int,
    one: Seq<Hit>,
    other: Seq<Hit>,
    r: ExecResult,
    r2: ExecResult,
)
    requires
        nood_outcome(t, buf, start, one, r),
        nood_outcome(t, buf, start, other, r2),
        answered_alike(one, other),
    ensures
        one == other,
        r == r2,
{
    let (s, s2) = (answers_of(one), answers_of(other));
    if one.len() <= other.len() {
        lemma_alike(one, other);
        nood_is_caused(t, buf, start, s, s2);
    } else {
        lemma_alike(other, one);
        nood_is_caused(t, buf, start, s2, s);
    }
    lemma_logs_equal(one, other);
}

} // verus!
