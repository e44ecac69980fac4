//! What holds of every engine, whatever its table holds: it obeys its
//! callback, and in a short block it does not matter where the block lies.

use vstd::prelude::*;

use crate::bytes::{le32, le64};
use crate::hwlm::confirm::{
    ask, bucket, bucket_start, chain, chain_of, chain_start, key_at, lemma_word_shrinks, lowest,
    record_hits, squashed, without_lowest, word, Track, LIT_INFO_SIZE,
};
use crate::hwlm::fdr::{
    advance, candidates, conf_of, entered, fdr_scan, flood_of, fresh, lemma_spans, sixteen, stretch,
    stretches, Place, Scan,
};
use crate::hwlm::flood::{
    ask_flood, first_try, flood, flood_id, flood_id_count, flood_id_groups, flood_ids,
    flood_positions, FLOOD_BACKOFF_START, FLOOD_MINIMUM_SIZE,
};
use crate::hwlm::noodle::{
    first_key, keys_end, nood_ask, nood_hit, nood_positions, nood_scan, NoodTable,
};
use crate::hwlm::teddy::{
    teddy_block, teddy_blocks, teddy_candidates, teddy_conf_of, teddy_scan,
};
use crate::hwlm::zones::{spans, Span};
use crate::hwlm::{Answers, ScanCtl};

verus! {

/// Every call but the last was answered with a wish to go on, and the run is
/// alive if the last one was, too.
pub open spec fn obedient(t: Track, s: Answers) -> bool {
    &&& forall|i: int|
        0 < i < t.calls.len() ==> s(#[trigger] t.calls.take(i)).ctl == ScanCtl::Continue
    &&& t.live == (t.calls.len() == 0 || s(t.calls).ctl == ScanCtl::Continue)
}

proof fn lemma_ask_obeys(t: Track, s: Answers, end: int, id: u32)
    requires
        obedient(t, s),
        t.live,
    ensures
        obedient(ask(t, s, end, id).0, s),
{
    let t2 = ask(t, s, end, id).0;
    assert forall|i: int| 0 < i < t2.calls.len() implies s(#[trigger] t2.calls.take(i)).ctl
        == ScanCtl::Continue by {
        assert(t2.calls.take(i) =~= t.calls.take(i));
        if i == t.calls.len() {
            assert(t.calls.take(i) =~= t.calls);
        }
    }
}

proof fn lemma_chain_obeys(
    b: Seq<u8>,
    li: int,
    key: u64,
    i: int,
    t: Track,
    s: Answers,
    squash: u8,
)
    requires
        obedient(t, s),
    ensures
        obedient(chain(b, li, key, i, t, s, squash).0, s),
    decreases b.len() - li,
{
    if t.live && li + LIT_INFO_SIZE <= b.len() {
        let (t2, squash2) = if record_hits(b, li, key, i, t.last) {
            let id = le32(b, li + 24);
            lemma_ask_obeys(t, s, i, id);
            let (t2, sq) = ask(t, s, i, id);
            (t2, squash | sq)
        } else {
            (t, squash)
        };
        if b[li + 30] != 0 {
            lemma_chain_obeys(b, li + LIT_INFO_SIZE, key, i, t2, s, squash2);
        }
    }
}

proof fn lemma_word_obeys(
    b: Seq<u8>,
    conf: int,
    gated: bool,
    candidates: u64,
    base: int,
    buf: Seq<u8>,
    t: Track,
    s: Answers,
)
    requires
        obedient(t, s),
    ensures
        obedient(word(b, conf, gated, candidates, base, buf, t, s), s),
    decreases candidates,
{
    if candidates != 0 && t.live {
        let bit = lowest(candidates);
        let rest = without_lowest(candidates);
        let cf = bucket_start(b, conf, bit % 8);
        let p = base + bit / 8;
        lemma_word_shrinks(candidates, 0);
        if cf == 0 || (gated && le64(b, conf + cf + 24) == 0) {
            lemma_word_obeys(b, conf, gated, rest, base, buf, t, s);
        } else {
            let fdrc = conf + cf;
            let key = key_at(buf, p);
            let (t2, squash) = bucket(b, fdrc, key, p, t, s);
            lemma_chain_obeys(
                b,
                fdrc + chain_start(b, fdrc, chain_of(b, fdrc, key)),
                key,
                p,
                t,
                s,
                0,
            );
            lemma_word_shrinks(rest, !((squash as u64) << ((bit / 8 * 8) as u64)));
            lemma_word_obeys(b, conf, gated, squashed(rest, squash, bit), base, buf, t2, s);
        }
    }
}

proof fn lemma_flood_ids_obey(b: Seq<u8>, record: int, k: int, p: int, t: Track, s: Answers)
    requires
        obedient(t, s),
    ensures
        obedient(flood_ids(b, record, k, p, t, s), s),
    decreases flood_id_count(b, record) - k,
{
    if k < flood_id_count(b, record) && t.live {
        let id = flood_id(b, record, k);
        let t2 = if flood_id_groups(b, record, k) != 0 {
            lemma_ask_obeys(t, s, p, id);
            ask_flood(t, s, p, id)
        } else {
            t
        };
        assert(obedient(t2, s));
        lemma_flood_ids_obey(b, record, k + 1, p, t2, s);
    }
}

proof fn lemma_flood_positions_obey(
    b: Seq<u8>,
    record: int,
    p: int,
    to: int,
    t: Track,
    s: Answers,
)
    requires
        obedient(t, s),
    ensures
        obedient(flood_positions(b, record, p, to, t, s), s),
    decreases to - p,
{
    if p < to && t.live {
        lemma_flood_ids_obey(b, record, 0, p, t, s);
        lemma_flood_positions_obey(b, record, p + 1, to, flood_ids(b, record, 0, p, t, s), s);
    }
}

proof fn lemma_flood_obeys(
    b: Seq<u8>,
    flood_offset: int,
    buf: Seq<u8>,
    phase: int,
    i: int,
    backoff: u32,
    t: Track,
    s: Answers,
)
    requires
        obedient(t, s),
    ensures
        obedient(flood(b, flood_offset, buf, phase, i, backoff, t, s).t, s),
{
    reveal(flood);
    assert forall|record: int, to: int| obedient(
        #[trigger] flood_positions(b, record, i, to, t, s),
        s,
    ) by {
        lemma_flood_positions_obey(b, record, i, to, t, s);
    }
}

proof fn lemma_sixteen_obeys(b: Seq<u8>, buf: Seq<u8>, it: int, sc: Scan, s: Answers)
    requires
        obedient(sc.t, s),
    ensures
        obedient(sixteen(b, buf, it, sc, s).t, s),
{
    reveal(sixteen);
    let c0 = candidates(b, buf, it, sc.state, 0);
    let c8 = candidates(b, buf, it, sc.state, 1);
    let t1 = word(b, conf_of(b), true, c0, it, buf, sc.t, s);
    lemma_word_obeys(b, conf_of(b), true, c0, it, buf, sc.t, s);
    lemma_word_obeys(b, conf_of(b), true, c8, it + 8, buf, t1, s);
}

proof fn lemma_advance_obeys(
    b: Seq<u8>,
    buf: Seq<u8>,
    phase: int,
    main: bool,
    at: Place,
    s: Answers,
)
    requires
        obedient(at.sc.t, s),
    ensures
        obedient(advance(b, buf, phase, main, at, s).sc.t, s),
{
    reveal(advance);
    if main && at.it > at.try_from {
        let f = flood(b, flood_of(b), buf, phase, at.it, at.sc.backoff, at.sc.t, s);
        lemma_flood_obeys(b, flood_of(b), buf, phase, at.it, at.sc.backoff, at.sc.t, s);
        let sc = Scan { t: f.t, state: at.sc.state, backoff: f.backoff };
        lemma_sixteen_obeys(b, buf, f.it, sc, s);
    } else {
        lemma_sixteen_obeys(b, buf, at.it, at.sc, s);
    }
}

proof fn lemma_stretch_obeys(
    b: Seq<u8>,
    buf: Seq<u8>,
    phase: int,
    main: bool,
    to: int,
    at: Place,
    s: Answers,
)
    requires
        obedient(at.sc.t, s),
    ensures
        obedient(stretch(b, buf, phase, main, to, at, s).t, s),
    decreases to - at.it,
{
    let next = advance(b, buf, phase, main, at, s);
    lemma_advance_obeys(b, buf, phase, main, at, s);
    if at.it + 16 <= to && at.sc.t.live && at.it < next.it <= to {
        lemma_stretch_obeys(b, buf, phase, main, to, next, s);
    }
}

proof fn lemma_stretches_obey(
    b: Seq<u8>,
    buf: Seq<u8>,
    phase: int,
    cut: Seq<Span>,
    k: int,
    sc: Scan,
    s: Answers,
)
    requires
        obedient(sc.t, s),
    ensures
        obedient(stretches(b, buf, phase, cut, k, sc, s).t, s),
    decreases cut.len() - k,
{
    if 0 <= k < cut.len() && sc.t.live {
        let at = Place {
            it: cut[k].from,
            try_from: first_try(buf, phase),
            sc: Scan { state: entered(sc.state, cut[k].shift), ..sc },
        };
        lemma_stretch_obeys(b, buf, phase, cut[k].main, cut[k].to, at, s);
        let sc2 = stretch(b, buf, phase, cut[k].main, cut[k].to, at, s);
        lemma_stretches_obey(b, buf, phase, cut, k + 1, sc2, s);
    }
}

/// FDR obeys its callback: after an answer that ends the scan it makes no
/// further call.
pub proof fn fdr_obeys(b: Seq<u8>, buf: Seq<u8>, start: int, phase: int, s: Answers)
    ensures
        obedient(fdr_scan(b, buf, start, phase, Seq::empty(), s), s),
{
    if start < buf.len() {
        lemma_stretches_obey(
            b,
            buf,
            phase,
            spans(buf.len() as int, start),
            0,
            Scan {
                t: fresh(Seq::empty()),
                state: b.subrange(32, 48),
                backoff: FLOOD_BACKOFF_START,
            },
            s,
        );
    }
}

proof fn lemma_teddy_blocks_obey(b: Seq<u8>, buf: Seq<u8>, p: int, t: Track, s: Answers)
    requires
        obedient(t, s),
    ensures
        obedient(teddy_blocks(b, buf, p, t, s), s),
    decreases buf.len() + 16 - p,
{
    if p < buf.len() && t.live {
        reveal(teddy_block);
        let conf = teddy_conf_of(b);
        let c0 = teddy_candidates(b, buf, p, 0);
        let c8 = teddy_candidates(b, buf, p, 1);
        let t1 = word(b, conf, false, c0, p, buf, t, s);
        lemma_word_obeys(b, conf, false, c0, p, buf, t, s);
        lemma_word_obeys(b, conf, false, c8, p + 8, buf, t1, s);
        lemma_teddy_blocks_obey(b, buf, p + 16, teddy_block(b, buf, p, t, s), s);
    }
}

/// Teddy obeys its callback.
pub proof fn teddy_obeys(b: Seq<u8>, buf: Seq<u8>, start: int, s: Answers)
    ensures
        obedient(teddy_scan(b, buf, start, Seq::empty(), s), s),
{
    lemma_teddy_blocks_obey(b, buf, start, fresh(Seq::empty()), s);
}

proof fn lemma_nood_positions_obey(
    t: NoodTable,
    buf: Seq<u8>,
    p: int,
    to: int,
    tr: Track,
    s: Answers,
)
    requires
        obedient(tr, s),
    ensures
        obedient(nood_positions(t, buf, p, to, tr, s), s),
    decreases to - p,
{
    if p < to && tr.live {
        let tr2 = if nood_hit(t, buf, p) {
            lemma_ask_obeys(tr, s, p + t.key_offset - 1, t.id);
            nood_ask(t, p, tr, s)
        } else {
            tr
        };
        assert(obedient(tr2, s));
        lemma_nood_positions_obey(t, buf, p + 1, to, tr2, s);
    }
}

/// Noodle obeys its callback.
pub proof fn nood_obeys(t: NoodTable, buf: Seq<u8>, start: int, s: Answers)
    ensures
        obedient(nood_scan(t, buf, start, Seq::empty(), s), s),
{
    if buf.len() - start >= t.msk_len {
        lemma_nood_positions_obey(
            t,
            buf,
            first_key(t, start),
            keys_end(t, buf.len() as int),
            fresh(Seq::empty()),
            s,
        );
    }
}

proof fn lemma_no_flood(
    b: Seq<u8>,
    buf: Seq<u8>,
    one: int,
    other: int,
    main: bool,
    to: int,
    at: Place,
    s: Answers,
)
    requires
        at.try_from >= to,
    ensures
        stretch(b, buf, one, main, to, at, s) == stretch(b, buf, other, main, to, at, s),
    decreases to - at.it,
{
    if at.it + 16 <= to && at.sc.t.live {
        reveal(advance);
        let next = advance(b, buf, one, main, at, s);
        assert(next == advance(b, buf, other, main, at, s));
        lemma_no_flood(b, buf, one, other, main, to, next, s);
    }
}

/// No flood is looked for in a block that lies at some address.
pub open spec fn unflooded(buf: Seq<u8>, phase: int) -> bool {
    first_try(buf, phase) == buf.len()
}

proof fn lemma_no_floods(
    b: Seq<u8>,
    buf: Seq<u8>,
    one: int,
    other: int,
    cut: Seq<Span>,
    k: int,
    sc: Scan,
    s: Answers,
)
    requires
        unflooded(buf, one),
        unflooded(buf, other),
        forall|j: int| 0 <= j < cut.len() ==> (#[trigger] cut[j]).to <= buf.len(),
    ensures
        stretches(b, buf, one, cut, k, sc, s) == stretches(b, buf, other, cut, k, sc, s),
    decreases cut.len() - k,
{
    if 0 <= k < cut.len() && sc.t.live {
        let at = Place {
            it: cut[k].from,
            try_from: first_try(buf, one),
            sc: Scan { state: entered(sc.state, cut[k].shift), ..sc },
        };
        lemma_no_flood(b, buf, one, other, cut[k].main, cut[k].to, at, s);
        let sc2 = stretch(b, buf, one, cut[k].main, cut[k].to, at, s);
        lemma_no_floods(b, buf, one, other, cut, k + 1, sc2, s);
    }
}

/// Where no flood is looked for, the hits do not depend on where the block
/// lies in memory.
pub proof fn unflooded_blocks_have_no_address(
    b: Seq<u8>,
    buf: Seq<u8>,
    start: int,
    one: int,
    other: int,
    s: Answers,
)
    requires
        0 <= start,
        unflooded(buf, one),
        unflooded(buf, other),
    ensures
        fdr_scan(b, buf, start, one, Seq::empty(), s) == fdr_scan(
            b,
            buf,
            start,
            other,
            Seq::empty(),
            s,
        ),
{
    if start < buf.len() {
        lemma_spans(buf.len() as int, start);
        lemma_no_floods(
            b,
            buf,
            one,
            other,
            spans(buf.len() as int, start),
            0,
            Scan {
                t: fresh(Seq::empty()),
                state: b.subrange(32, 48),
                backoff: FLOOD_BACKOFF_START,
            },
            s,
        );
    }
}

/// The hits in a short block do not depend on where the block lies in memory.
pub proof fn short_blocks_have_no_address(
    b: Seq<u8>,
    buf: Seq<u8>,
    start: int,
    one: int,
    other: int,
    s: Answers,
)
    requires
        0 <= start,
        buf.len() < FLOOD_MINIMUM_SIZE,
    ensures
        fdr_scan(b, buf, start, one, Seq::empty(), s) == fdr_scan(
            b,
            buf,
            start,
            other,
            Seq::empty(),
            s,
        ),
{
    unflooded_blocks_have_no_address(b, buf, start, one, other, s);
}

} // verus!
