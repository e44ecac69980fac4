//! No literal is lost: what the tables do not exclude is confirmed, and what
//! is confirmed is reported.

use vstd::prelude::*;
use vstd::std_specs::bits::axiom_u64_trailing_zeros;

use crate::bits::lemma_or;
use crate::bytes::{le32, le64, lemma_word_bytes};
use crate::hwlm::causes::{
    lemma_chain_caused, lemma_stretch_caused, lemma_stretches_caused, lemma_teddy_blocks_caused,
    lemma_word_caused,
};
use crate::hwlm::confirm::{
    ask, bucket, bucket_start, chain, chain_of, chain_start, key_at, lemma_word_shrinks, lowest,
    record_hits, squashed, without_lowest, word, Track, LIT_FLAG_NOREPEAT, LIT_INFO_SIZE,
};
use crate::hwlm::fdr::{
    advance, candidates, conf_of, entered, excluded, fdr_scan, fresh, next_state, sixteen, stretch,
    stretches, Place, Scan,
};
use crate::hwlm::flood::{first_try, FLOOD_BACKOFF_START};
use crate::hwlm::hits::{enters, fits_block, names, on_chain, zones_cover_the_block};
use crate::hwlm::teddy::{
    teddy_block, teddy_blocks, teddy_candidates, teddy_conf_of, teddy_excluded, teddy_scan,
};
use crate::hwlm::zones::{spans, Span};
use crate::hwlm::{Answers, Call, ScanCtl};
use crate::simd::lanes::bit64;

verus! {

/// Every call is answered with the wish to go on, and squashes nothing.
pub open spec fn steady(s: Answers) -> bool {
    forall|calls: Seq<Call>| (#[trigger] s(calls)).ctl == ScanCtl::Continue && s(calls).squash == 0
}

/// The record at `li` is one that may be reported again and again.
pub open spec fn reportable(b: Seq<u8>, li: int) -> bool {
    &&& b[li + 29] & LIT_FLAG_NOREPEAT == 0
    &&& le64(b, li + 16) != 0
}

proof fn lemma_chain_finds(
    b: Seq<u8>,
    at: int,
    key: u64,
    p: int,
    t: Track,
    s: Answers,
    squash: u8,
    li: int,
)
    requires
        steady(s),
        t.live,
    ensures
        chain(b, at, key, p, t, s, squash).0.live,
        chain(b, at, key, p, t, s, squash).1 == squash,
        on_chain(b, at, li) && reportable(b, li) && key & le64(b, li + 8) == le64(b, li) && b[li
            + 28] <= p + 1 ==> chain(b, at, key, p, t, s, squash).0.calls.contains(
            Call { end: p as u64, id: le32(b, li + 24) },
        ),
    decreases b.len() - at,
{
    if at + LIT_INFO_SIZE <= b.len() {
        let id = le32(b, at + 24);
        let out = chain(b, at, key, p, t, s, squash).0;
        let call = Call { end: p as u64, id };
        lemma_or(squash, 0, 0);
        let (t2, squash2) = if record_hits(b, at, key, p, t.last) {
            let (t2, sq) = ask(t, s, p, id);
            assert(t2.calls[t.calls.len() as int] == call);
            (t2, squash | sq)
        } else {
            (t, squash)
        };
        if b[at + 30] != 0 {
            lemma_chain_finds(b, at + LIT_INFO_SIZE, key, p, t2, s, squash2, li);
            lemma_chain_caused(b, at + LIT_INFO_SIZE, key, p, t2, s, s, squash2);
        }
        if record_hits(b, at, key, p, t.last) {
            assert(out.calls[t.calls.len() as int] == call);
        }
    }
}

proof fn lemma_other_bits(w: u64, n: int)
    requires
        w != 0,
        0 <= n < 64,
        bit64(w, n),
        n != lowest(w),
    ensures
        bit64(without_lowest(w), n),
{
    axiom_u64_trailing_zeros(w);
    let z = lowest(w) as u64;
    let k = n as u64;
    if k < z {
        assert((w >> k) & 1u64 == 0);
    }
    assert(((w & ((w - 1) as u64)) >> k) & 1 == 1) by (bit_vector)
        requires
            (w >> k) & 1 == 1,
            (w >> z) & 1 == 1,
            z < k,
            k < 64,
    ;
}

proof fn lemma_nothing_squashed(w: u64, bit: int)
    ensures
        squashed(w, 0, bit) == w,
{
    let t = (bit / 8 * 8) as u64;
    assert(w & !(0u64 << t) == w) by (bit_vector);
}

proof fn lemma_word_lives(
    b: Seq<u8>,
    conf: int,
    gated: bool,
    w: u64,
    base: int,
    buf: Seq<u8>,
    t: Track,
    s: Answers,
)
    requires
        steady(s),
        t.live,
    ensures
        word(b, conf, gated, w, base, buf, t, s).live,
    decreases w,
{
    if w != 0 {
        let bit = lowest(w);
        let rest = without_lowest(w);
        let cf = bucket_start(b, conf, bit % 8);
        let p = base + bit / 8;
        lemma_word_shrinks(w, 0);
        if cf == 0 || (gated && le64(b, conf + cf + 24) == 0) {
            lemma_word_lives(b, conf, gated, rest, base, buf, t, s);
        } else {
            let fdrc = conf + cf;
            let key = key_at(buf, p);
            let head = chain_start(b, fdrc, chain_of(b, fdrc, key));
            lemma_chain_finds(b, fdrc + head, key, p, t, s, 0, 0);
            lemma_nothing_squashed(rest, bit);
            lemma_word_lives(b, conf, gated, rest, base, buf, bucket(b, fdrc, key, p, t, s).0, s);
        }
    }
}

/// Every record that a candidate of a word leads to is reported, if its bytes
/// are there.
pub proof fn candidates_are_followed(
    b: Seq<u8>,
    conf: int,
    gated: bool,
    w: u64,
    base: int,
    buf: Seq<u8>,
    t: Track,
    s: Answers,
    n: int,
    li: int,
)
    requires
        steady(s),
        t.live,
        0 <= n < 64,
        0 <= base + n / 8 <= u64::MAX,
    ensures
        ({
            let out = word(b, conf, gated, w, base, buf, t, s);
            let call = Call { end: (base + n / 8) as u64, id: le32(b, li + 24) };
            &&& out.live
            &&& bit64(w, n) && names(b, conf, buf, call, n % 8, li) && reportable(b, li) && (gated
                ==> le64(b, conf + bucket_start(b, conf, n % 8) + 24) != 0) ==> out.calls.contains(
                call,
            )
        }),
    decreases w,
{
    if w != 0 {
        let bit = lowest(w);
        let rest = without_lowest(w);
        let cf = bucket_start(b, conf, bit % 8);
        let p = base + bit / 8;
        axiom_u64_trailing_zeros(w);
        lemma_word_shrinks(w, 0);
        if bit64(w, n) && n != bit {
            lemma_other_bits(w, n);
        }
        if cf == 0 || (gated && le64(b, conf + cf + 24) == 0) {
            candidates_are_followed(b, conf, gated, rest, base, buf, t, s, n, li);
        } else {
            let fdrc = conf + cf;
            let key = key_at(buf, p);
            let head = chain_start(b, fdrc, chain_of(b, fdrc, key));
            let (t2, squash) = bucket(b, fdrc, key, p, t, s);
            lemma_chain_finds(b, fdrc + head, key, p, t, s, 0, li);
            lemma_nothing_squashed(rest, bit);
            candidates_are_followed(b, conf, gated, rest, base, buf, t2, s, n, li);
            lemma_word_caused(b, conf, gated, rest, base, buf, t2, s, s);
            if n == bit {
                let call = Call { end: p as u64, id: le32(b, li + 24) };
                let out = word(b, conf, gated, w, base, buf, t, s);
                if t2.calls.contains(call) {
                    let i = t2.calls.index_of(call);
                    assert(out.calls[i] == call);
                }
            }
        }
    } else {
        let k = n as u64;
        assert((0u64 >> k) & 1 != 1) by (bit_vector);
    }
}

/// Bit `k` of the byte at place `j` of a word.
pub proof fn lemma_bit_of_byte(bytes: Seq<u8>, j: int, k: int)
    requires
        bytes.len() == 8,
        0 <= j < 8,
        0 <= k < 8,
    ensures
        bit64(le64(bytes, 0), 8 * j + k) <==> bit64(bytes[j] as u64, k),
{
    lemma_word_bytes(bytes, 0, j);
    let w = le64(bytes, 0);
    let t = (8 * j) as u64;
    let low = k as u64;
    let n = (8 * j + k) as u64;
    assert(((w >> n) & 1 == 1) <==> ((((w >> t) as u8) as u64) >> low) & 1 == 1) by (bit_vector)
        requires
            low < 8,
            t <= 56,
            n == t + low,
    ;
}

/// Bit `k` of a byte is clear.
pub open spec fn clear(x: u8, k: int) -> bool {
    !bit64(x as u64, k)
}

pub proof fn lemma_clear(x: u8, k: int)
    requires
        0 <= k < 8,
    ensures
        clear(x, k) <==> bit64((!x) as u64, k),
{
    let c = k as u64;
    assert(((x as u64 >> c) & 1 == 1) <==> !(((!x) as u64 >> c) & 1 == 1)) by (bit_vector)
        requires
            c < 8,
    ;
}

/// The start of the block of 16 bytes, counted from `start`, in which
/// position `p` is.
pub open spec fn block_of(start: int, p: int) -> int {
    start + (p - start) / 16 * 16
}

proof fn lemma_teddy_block_finds(
    b: Seq<u8>,
    buf: Seq<u8>,
    base: int,
    t: Track,
    s: Answers,
    p: int,
    k: int,
    li: int,
)
    requires
        steady(s),
        t.live,
        0 <= base,
        buf.len() <= u64::MAX,
    ensures
        teddy_block(b, buf, base, t, s).live,
        ({
            let call = Call { end: p as u64, id: le32(b, li + 24) };
            &&& base <= p < base + 16
            &&& p < buf.len()
            &&& clear(teddy_excluded(b, buf, base, p - base), k)
            &&& names(b, teddy_conf_of(b), buf, call, k, li)
            &&& reportable(b, li)
        }) ==> teddy_block(b, buf, base, t, s).calls.contains(
            Call { end: p as u64, id: le32(b, li + 24) },
        ),
{
    reveal(teddy_block);
    let conf = teddy_conf_of(b);
    let c0 = teddy_candidates(b, buf, base, 0);
    let c8 = teddy_candidates(b, buf, base, 1);
    let t1 = word(b, conf, false, c0, base, buf, t, s);
    let out = teddy_block(b, buf, base, t, s);
    let call = Call { end: p as u64, id: le32(b, li + 24) };
    lemma_word_lives(b, conf, false, c0, base, buf, t, s);
    lemma_word_lives(b, conf, false, c8, base + 8, buf, t1, s);
    if 0 <= k < 8 && base <= p < base + 16 && p < buf.len() {
        let half = (p - base) / 8;
        let j = (p - base) % 8;
        let n = 8 * j + k;
        let bytes = Seq::new(8, |i: int| !teddy_excluded(b, buf, base, 8 * half + i));
        lemma_bit_of_byte(bytes, j, k);
        lemma_clear(teddy_excluded(b, buf, base, p - base), k);
        if half == 0 {
            candidates_are_followed(b, conf, false, c0, base, buf, t, s, n, li);
            lemma_word_caused(b, conf, false, c8, base + 8, buf, t1, s, s);
            if t1.calls.contains(call) {
                let i = t1.calls.index_of(call);
                assert(out.calls[i] == call);
            }
        } else {
            candidates_are_followed(b, conf, false, c8, base + 8, buf, t1, s, n, li);
        }
    }
}

proof fn lemma_teddy_blocks_find(
    b: Seq<u8>,
    buf: Seq<u8>,
    base: int,
    t: Track,
    s: Answers,
    p: int,
    k: int,
    li: int,
)
    requires
        steady(s),
        t.live,
        0 <= base <= p < buf.len() <= u64::MAX,
        clear(teddy_excluded(b, buf, block_of(base, p), p - block_of(base, p)), k),
        names(
            b,
            teddy_conf_of(b),
            buf,
            (Call { end: p as u64, id: le32(b, li + 24) }),
            k,
            li,
        ),
        reportable(b, li),
    ensures
        teddy_blocks(b, buf, base, t, s).calls.contains(
            Call { end: p as u64, id: le32(b, li + 24) },
        ),
    decreases buf.len() + 16 - base,
{
    let next = teddy_block(b, buf, base, t, s);
    let out = teddy_blocks(b, buf, base, t, s);
    let call = Call { end: p as u64, id: le32(b, li + 24) };
    lemma_teddy_block_finds(b, buf, base, t, s, p, k, li);
    if p < base + 16 {
        assert(block_of(base, p) == base);
        lemma_teddy_blocks_caused(b, buf, base + 16, next, s, s);
        let i = next.calls.index_of(call);
        assert(out.calls[i] == call);
    } else {
        assert(block_of(base + 16, p) == block_of(base, p));
        lemma_teddy_blocks_find(b, buf, base + 16, next, s, p, k, li);
    }
}

/// Teddy loses no literal: a literal whose bucket its tables do not exclude
/// at a position is reported there if its bytes are there, as long as the
/// callback neither ends the scan nor squashes anything.
pub proof fn teddy_loses_no_literal(
    b: Seq<u8>,
    buf: Seq<u8>,
    start: int,
    s: Answers,
    p: int,
    k: int,
    li: int,
)
    requires
        steady(s),
        0 <= start <= p < buf.len() <= u64::MAX,
        clear(teddy_excluded(b, buf, block_of(start, p), p - block_of(start, p)), k),
        names(
            b,
            teddy_conf_of(b),
            buf,
            (Call { end: p as u64, id: le32(b, li + 24) }),
            k,
            li,
        ),
        reportable(b, li),
    ensures
        teddy_scan(b, buf, start, Seq::empty(), s).calls.contains(
            Call { end: p as u64, id: le32(b, li + 24) },
        ),
{
    lemma_teddy_blocks_find(b, buf, start, fresh(Seq::empty()), s, p, k, li);
}

/// The state of FDR after the steps of 16 bytes from `from` up to `it`.
pub open spec fn walked(b: Seq<u8>, buf: Seq<u8>, state: Seq<u8>, from: int, it: int) -> Seq<u8>
    decreases it - from,
{
    if from + 16 > it {
        state
    } else {
        walked(b, buf, next_state(b, buf, from, state), from + 16, it)
    }
}

/// One step of 16 bytes more.
pub proof fn lemma_walked_step(b: Seq<u8>, buf: Seq<u8>, state: Seq<u8>, from: int, it: int)
    requires
        from <= it,
        (it - from) % 16 == 0,
    ensures
        walked(b, buf, state, from, it + 16) == next_state(
            b,
            buf,
            it,
            walked(b, buf, state, from, it),
        ),
    decreases it - from,
{
    if from + 16 <= it {
        lemma_walked_step(b, buf, next_state(b, buf, from, state), from + 16, it);
    } else {
        assert(walked(b, buf, next_state(b, buf, from, state), from + 16, it + 16) == next_state(
            b,
            buf,
            from,
            state,
        ));
    }
}

/// The state of FDR in front of stretch `k` of a block.
pub open spec fn carried(b: Seq<u8>, buf: Seq<u8>, cut: Seq<Span>, k: int) -> Seq<u8>
    decreases k,
{
    if k <= 0 {
        b.subrange(32, 48)
    } else {
        walked(
            b,
            buf,
            entered(carried(b, buf, cut, k - 1), cut[k - 1].shift),
            cut[k - 1].from,
            cut[k - 1].to,
        )
    }
}

/// Position `p` is in stretch `j`, and FDR does not exclude bucket `k` there.
pub open spec fn fdr_open(b: Seq<u8>, buf: Seq<u8>, cut: Seq<Span>, j: int, p: int, k: int) -> bool {
    let span = cut[j];
    let it = block_of(span.from, p);
    &&& 0 <= j < cut.len()
    &&& span.from + span.shift <= p < span.to
    &&& clear(
        excluded(
            b,
            buf,
            it,
            walked(b, buf, entered(carried(b, buf, cut, j), span.shift), span.from, it),
            p - it,
        ),
        k,
    )
}

proof fn lemma_sixteen_finds(
    b: Seq<u8>,
    buf: Seq<u8>,
    it: int,
    sc: Scan,
    s: Answers,
    p: int,
    k: int,
    li: int,
)
    requires
        steady(s),
        sc.t.live,
        buf.len() <= u64::MAX,
    ensures
        sixteen(b, buf, it, sc, s).t.live,
        ({
            let call = Call { end: p as u64, id: le32(b, li + 24) };
            &&& it <= p < it + 16
            &&& 0 <= p < buf.len()
            &&& clear(excluded(b, buf, it, sc.state, p - it), k)
            &&& names(b, conf_of(b), buf, call, k, li)
            &&& reportable(b, li)
            &&& le64(b, conf_of(b) + bucket_start(b, conf_of(b), k) + 24) != 0
        }) ==> sixteen(b, buf, it, sc, s).t.calls.contains(
            Call { end: p as u64, id: le32(b, li + 24) },
        ),
{
    reveal(sixteen);
    let conf = conf_of(b);
    let c0 = candidates(b, buf, it, sc.state, 0);
    let c8 = candidates(b, buf, it, sc.state, 1);
    let t1 = word(b, conf, true, c0, it, buf, sc.t, s);
    let out = sixteen(b, buf, it, sc, s).t;
    let call = Call { end: p as u64, id: le32(b, li + 24) };
    lemma_word_lives(b, conf, true, c0, it, buf, sc.t, s);
    lemma_word_lives(b, conf, true, c8, it + 8, buf, t1, s);
    if 0 <= k < 8 && it <= p < it + 16 && 0 <= p < buf.len() {
        let half = (p - it) / 8;
        let j = (p - it) % 8;
        let n = 8 * j + k;
        let bytes = Seq::new(8, |i: int| !excluded(b, buf, it, sc.state, 8 * half + i));
        lemma_bit_of_byte(bytes, j, k);
        lemma_clear(excluded(b, buf, it, sc.state, p - it), k);
        if half == 0 {
            candidates_are_followed(b, conf, true, c0, it, buf, sc.t, s, n, li);
            lemma_word_caused(b, conf, true, c8, it + 8, buf, t1, s, s);
            if t1.calls.contains(call) {
                let i = t1.calls.index_of(call);
                assert(out.calls[i] == call);
            }
        } else {
            candidates_are_followed(b, conf, true, c8, it + 8, buf, t1, s, n, li);
        }
    }
}

/// What a literal needs to be reported at a position.
pub open spec fn due(b: Seq<u8>, buf: Seq<u8>, p: int, k: int, li: int) -> bool {
    let call = Call { end: p as u64, id: le32(b, li + 24) };
    &&& 0 <= p < buf.len()
    &&& names(b, conf_of(b), buf, call, k, li)
    &&& reportable(b, li)
    &&& le64(b, conf_of(b) + bucket_start(b, conf_of(b), k) + 24) != 0
}

proof fn lemma_stretch_finds(
    b: Seq<u8>,
    buf: Seq<u8>,
    phase: int,
    main: bool,
    to: int,
    at: Place,
    s: Answers,
    p: int,
    k: int,
    li: int,
)
    requires
        steady(s),
        at.sc.t.live,
        at.it <= to <= at.try_from,
        (to - at.it) % 16 == 0,
        buf.len() <= u64::MAX,
    ensures
        stretch(b, buf, phase, main, to, at, s).t.live,
        stretch(b, buf, phase, main, to, at, s).state == walked(b, buf, at.sc.state, at.it, to),
        at.it <= p < to && due(b, buf, p, k, li) && clear(
            excluded(
                b,
                buf,
                block_of(at.it, p),
                walked(b, buf, at.sc.state, at.it, block_of(at.it, p)),
                p - block_of(at.it, p),
            ),
            k,
        ) ==> stretch(b, buf, phase, main, to, at, s).t.calls.contains(
            Call { end: p as u64, id: le32(b, li + 24) },
        ),
    decreases to - at.it,
{
    if at.it + 16 <= to {
        reveal(advance);
        let next = advance(b, buf, phase, main, at, s);
        let out = stretch(b, buf, phase, main, to, at, s);
        let call = Call { end: p as u64, id: le32(b, li + 24) };
        lemma_sixteen_finds(b, buf, at.it, at.sc, s, p, k, li);
        assert(next.sc.state == next_state(b, buf, at.it, at.sc.state)) by {
            reveal(sixteen);
        }
        lemma_stretch_finds(b, buf, phase, main, to, next, s, p, k, li);
        if at.it <= p < at.it + 16 {
            assert(block_of(at.it, p) == at.it);
            lemma_stretch_caused(b, buf, phase, main, to, next, s, s);
            if next.sc.t.calls.contains(call) {
                let i = next.sc.t.calls.index_of(call);
                assert(out.t.calls[i] == call);
            }
        } else if p >= at.it + 16 {
            assert(block_of(at.it + 16, p) == block_of(at.it, p));
        }
    }
}

proof fn lemma_stretches_find(
    b: Seq<u8>,
    buf: Seq<u8>,
    phase: int,
    cut: Seq<Span>,
    i: int,
    sc: Scan,
    s: Answers,
    j: int,
    p: int,
    k: int,
    li: int,
)
    requires
        steady(s),
        sc.t.live,
        first_try(buf, phase) == buf.len(),
        buf.len() <= u64::MAX,
        0 <= i <= j < cut.len(),
        forall|q: int| 0 <= q < cut.len() ==> fits_block(#[trigger] cut[q], buf.len() as int),
        sc.state == carried(b, buf, cut, i),
        fdr_open(b, buf, cut, j, p, k),
        due(b, buf, p, k, li),
    ensures
        stretches(b, buf, phase, cut, i, sc, s).t.calls.contains(
            Call { end: p as u64, id: le32(b, li + 24) },
        ),
    decreases cut.len() - i,
{
    let span = cut[i];
    assert(fits_block(span, buf.len() as int));
    let at = enters(buf, phase, span, sc);
    let next = stretch(b, buf, phase, span.main, span.to, at, s);
    let out = stretches(b, buf, phase, cut, i, sc, s);
    let call = Call { end: p as u64, id: le32(b, li + 24) };
    lemma_stretch_finds(b, buf, phase, span.main, span.to, at, s, p, k, li);
    if i == j {
        lemma_stretches_caused(b, buf, phase, cut, i + 1, next, s, s);
        let q = next.t.calls.index_of(call);
        assert(out.t.calls[q] == call);
    } else {
        assert(carried(b, buf, cut, i + 1) == next.state);
        lemma_stretches_find(b, buf, phase, cut, i + 1, next, s, j, p, k, li);
    }
}

/// FDR loses no literal in a block in which it does not look for floods, as
/// in every short one: a literal whose bucket its table does not exclude at a
/// position is reported there if its bytes are there, as long as the callback
/// neither ends the scan nor squashes anything.
pub proof fn fdr_loses_no_literal(
    b: Seq<u8>,
    buf: Seq<u8>,
    start: int,
    phase: int,
    s: Answers,
    j: int,
    p: int,
    k: int,
    li: int,
)
    requires
        steady(s),
        0 <= start < buf.len() <= u64::MAX,
        first_try(buf, phase) == buf.len(),
        fdr_open(b, buf, spans(buf.len() as int, start), j, p, k),
        due(b, buf, p, k, li),
    ensures
        fdr_scan(b, buf, start, phase, Seq::empty(), s).calls.contains(
            Call { end: p as u64, id: le32(b, li + 24) },
        ),
{
    zones_cover_the_block(buf.len() as int, start);
    lemma_stretches_find(
        b,
        buf,
        phase,
        spans(buf.len() as int, start),
        0,
        Scan {
            t: fresh(Seq::empty()),
            state: b.subrange(32, 48),
            backoff: FLOOD_BACKOFF_START,
        },
        s,
        j,
        p,
        k,
        li,
    );
}

} // verus!
