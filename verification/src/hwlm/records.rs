//! What the confirm structures are for: a record is reported where its bits
//! are in the block, and nowhere else.
//!
//! The laws here speak of the bytes of a table and of a block.

use vstd::arithmetic::power2::pow2;
use vstd::prelude::*;

use crate::bits::{as_wanted, lemma_and, lemma_masked, lemma_word_is};
use crate::bytes::{
    byte_of, byte_or_zero, le32, le64, lemma_word_bytes, number, words_are_numbers,
};
use crate::hwlm::causes::{fdr_is_caused, same_answers, teddy_is_caused};
use crate::hwlm::confirm::{bucket_start, chain_of, hash_bits, key_at, record_hits};
use crate::hwlm::fdr::{body_fault, conf_of, domain_ok, fdr_outcome, flood_of, stride_ok};
use crate::hwlm::finds::{fdr_loses_no_literal, fdr_open, steady, teddy_loses_no_literal};
use crate::hwlm::flood::{first_try, flood_record, probe, round_up};
use crate::hwlm::hits::{
    confirmed, fdr_hits_are_orderly, fdr_opens, fdr_sources, flooded, floods, founded, lemma_masked_byte, names,
    on_chain, teddy_hits_are_orderly, teddy_sources, zones_cover_the_block,
};
use crate::hwlm::laws::{fdr_obeys, teddy_obeys};
use crate::hwlm::rooms::{
    fdr_leaves, fdr_leaves_open_what_its_entries_do, teddy_leaves,
    teddy_leaves_open_what_its_masks_do,
};
use crate::hwlm::teddy::{teddy_conf_of, teddy_engine, teddy_outcome};
use crate::hwlm::zones::spans;
use crate::hwlm::{answers_of, calls_of, Answers, Call, ExecResult, Hit, Reply, ScanCtl};

verus! {

/// Byte `j` of the last 8 where position `p` is the last one, zero in front of
/// the block.
pub open spec fn last_of(buf: Seq<u8>, p: int, j: int) -> u8 {
    byte_or_zero(buf, p - 7 + j)
}

/// The bits that the mask of a record selects from the last 8 bytes are those
/// that the record wants.
pub open spec fn bits_are_there(b: Seq<u8>, li: int, buf: Seq<u8>, p: int) -> bool {
    forall|j: int|
        0 <= j < 8 ==> as_wanted(last_of(buf, p, j), b[li + 8 + j], #[trigger] b[li + j])
}

pub proof fn lemma_last_bytes(buf: Seq<u8>, p: int, j: int)
    requires
        0 <= j < 8,
    ensures
        byte_of(key_at(buf, p), j) == last_of(buf, p, j),
{
    lemma_word_bytes(Seq::new(8, |i: int| byte_or_zero(buf, p - 7 + i)), 0, j);
}

proof fn lemma_bits_are_there(b: Seq<u8>, li: int, buf: Seq<u8>, p: int)
    ensures
        (key_at(buf, p) & le64(b, li + 8) == le64(b, li)) == bits_are_there(b, li, buf, p),
{
    let key = key_at(buf, p);
    let mask = le64(b, li + 8);
    let want = Seq::new(8, |j: int| b[li + j]);
    assert(le64(b, li) == le64(want, 0));
    assert forall|j: int| 0 <= j < 8 implies (byte_of(key & mask, j) == #[trigger] b[li + j])
        == as_wanted(last_of(buf, p, j), b[li + 8 + j], b[li + j]) by {
        lemma_masked_byte(key, mask, j);
        lemma_last_bytes(buf, p, j);
        lemma_word_bytes(b, li + 8, j);
        lemma_masked(last_of(buf, p, j), b[li + 8 + j], b[li + j]);
    }
    if bits_are_there(b, li, buf, p) {
        assert forall|j: int| 0 <= j < 8 implies #[trigger] byte_of(key & mask, j) == want[j] by {
            assert(b[li + j] == want[j]);
        }
        lemma_word_is(key & mask, want);
    }
    if key & mask == le64(b, li) {
        assert forall|j: int| 0 <= j < 8 implies as_wanted(
            last_of(buf, p, j),
            b[li + 8 + j],
            #[trigger] b[li + j],
        ) by {
            lemma_word_bytes(b, li, j);
        }
    }
}

/// A record is reported at a position exactly where its bits are there, the
/// literal does not reach in front of the block, the record belongs to a
/// group, and it is not one that must not be repeated right after itself.
pub proof fn record_is_reported_where_its_bits_are(
    b: Seq<u8>,
    li: int,
    buf: Seq<u8>,
    p: int,
    last: u32,
)
    ensures
        record_hits(b, li, key_at(buf, p), p, last) <==> {
            &&& bits_are_there(b, li, buf, p)
            &&& b[li + 28] <= p + 1
            &&& number(b, li + 16, 8) != 0
            &&& b[li + 29] % 2 == 1 ==> last != number(b, li + 24, 4)
        },
{
    lemma_bits_are_there(b, li, buf, p);
    words_are_numbers(b, li + 16);
    words_are_numbers(b, li + 24);
    lemma_and(b[li + 29], 0, 0, 0);
}

/// The chain that the confirm structure at `f` has for 8 bytes: the highest
/// bits of the product of a number and the multiplier. The number is made of
/// the bits that the structure's mask selects.
pub open spec fn chain_of_bytes(b: Seq<u8>, f: int, bytes: Seq<u8>) -> int {
    let selected = Seq::new(8, |j: int| b[f + j] & bytes[j]);
    let product = number(selected, 0, 8) * number(b, f + 8, 8);
    ((product % 0x1_0000_0000_0000_0000) / pow2((64 - number(b, f + 16, 4)) as nat)) as int
}

/// The last 8 bytes where position `p` is the last one.
pub open spec fn tail(buf: Seq<u8>, p: int) -> Seq<u8> {
    Seq::new(8, |j: int| last_of(buf, p, j))
}

/// The chain of a position is that of the last 8 bytes.
pub proof fn chain_is_the_top_of_a_product(b: Seq<u8>, f: int, buf: Seq<u8>, p: int)
    requires
        0 < number(b, f + 16, 4) < 64,
    ensures
        chain_of(b, f, key_at(buf, p)) == chain_of_bytes(b, f, tail(buf, p)),
{
    let key = key_at(buf, p);
    let mask = le64(b, f);
    let selected = Seq::new(8, |j: int| b[f + j] & tail(buf, p)[j]);
    assert forall|j: int| 0 <= j < 8 implies #[trigger] byte_of(key & mask, j) == selected[j] by {
        lemma_masked_byte(key, mask, j);
        lemma_last_bytes(buf, p, j);
        lemma_word_bytes(b, f, j);
        lemma_and(byte_of(key, j), b[f + j], 0, 0);
    }
    lemma_word_is(key & mask, selected);
    words_are_numbers(selected, 0);
    words_are_numbers(b, f + 8);
    words_are_numbers(b, f + 16);
    let product = (key & mask).wrapping_mul(le64(b, f + 8));
    vstd::bits::lemma_u64_shr_is_div(product, (64 - hash_bits(b, f)) as u64);
}

/// Bytes that agree where the mask of a confirm structure selects have the
/// same chain, whatever else they are.
pub proof fn chain_depends_on_selected_bits(
    b: Seq<u8>,
    f: int,
    buf: Seq<u8>,
    p: int,
    other: Seq<u8>,
    q: int,
)
    requires
        0 < number(b, f + 16, 4) < 64,
        forall|j: int|
            0 <= j < 8 ==> #[trigger] last_of(buf, p, j) & b[f + j] == last_of(other, q, j) & b[f
                + j],
    ensures
        chain_of(b, f, key_at(buf, p)) == chain_of(b, f, key_at(other, q)),
{
    chain_is_the_top_of_a_product(b, f, buf, p);
    chain_is_the_top_of_a_product(b, f, other, q);
    let one = Seq::new(8, |j: int| b[f + j] & tail(buf, p)[j]);
    let two = Seq::new(8, |j: int| b[f + j] & tail(other, q)[j]);
    assert forall|j: int| 0 <= j < 8 implies one[j] == two[j] by {
        assert(last_of(buf, p, j) & b[f + j] == last_of(other, q, j) & b[f + j]);
        lemma_and(last_of(buf, p, j), b[f + j], 0, 0);
        lemma_and(last_of(other, q, j), b[f + j], 0, 0);
    }
    assert(one =~= two);
}

/// The hit comes from a record: bucket `k` leads to the record at `li` where
/// position `p` is the last one, and the record is there.
pub open spec fn comes_from(b: Seq<u8>, conf: int, buf: Seq<u8>, call: Call, k: int, li: int) -> bool {
    let cf = number(b, conf + 4 * k, 4);
    let f = conf + cf;
    let p = call.end as int;
    let head = number(b, f + 32 + 4 * chain_of_bytes(b, f, tail(buf, p)), 4);
    &&& 0 <= k < 8
    &&& cf != 0
    &&& 0 < number(b, f + 16, 4) < 64
    &&& head != 0
    &&& on_chain(b, f + head, li)
    &&& bits_are_there(b, li, buf, p)
    &&& b[li + 28] <= p + 1
    &&& number(b, li + 16, 8) != 0
    &&& call.id == number(b, li + 24, 4)
}

/// The hit comes from a run of one byte: the table's record for floods of the
/// byte lists the hit's id, with a group, and there are as many of the byte in
/// front of the position as the record asks for.
pub open spec fn comes_from_flood(b: Seq<u8>, at: int, buf: Seq<u8>, call: Call, k: int) -> bool {
    let p = call.end as int;
    let record = at + 1024 + 208 * number(b, at + 4 * buf[p], 4);
    &&& 0 <= k < number(b, record + 12, 2) < 16
    &&& number(b, record, 8) != 0
    &&& number(b, record + 80 + 8 * k, 8) != 0
    &&& call.id == number(b, record + 16 + 4 * k, 4)
    &&& forall|j: int| p - number(b, record + 8, 4) <= j <= p ==> #[trigger] buf[j] == buf[p]
}

pub proof fn lemma_comes_from(b: Seq<u8>, conf: int, buf: Seq<u8>, call: Call, k: int, li: int)
    ensures
        names(b, conf, buf, call, k, li) == comes_from(b, conf, buf, call, k, li),
{
    let p = call.end as int;
    let f = conf + bucket_start(b, conf, k);
    words_are_numbers(b, conf + 4 * k);
    words_are_numbers(b, f + 16);
    words_are_numbers(b, li + 16);
    words_are_numbers(b, li + 24);
    if 0 < number(b, f + 16, 4) < 64 {
        chain_is_the_top_of_a_product(b, f, buf, p);
    }
    words_are_numbers(b, f + 32 + 4 * chain_of_bytes(b, f, tail(buf, p)));
    lemma_bits_are_there(b, li, buf, p);
}

/// The confirm structure of bucket `k` has a group.
pub open spec fn grouped(b: Seq<u8>, conf: int, k: int) -> bool {
    number(b, conf + number(b, conf + 4 * k, 4) + 24, 8) != 0
}

/// Every hit was answered with the wish to go on, and squashed nothing.
pub open spec fn unhindered(log: Seq<Hit>) -> bool {
    forall|i: int|
        0 <= i < log.len() ==> (#[trigger] log[i]).reply.ctl == ScanCtl::Continue
            && log[i].reply.squash == 0
}

/// A hit whose last byte is at `p` is in a log.
pub open spec fn hit_at(log: Seq<Hit>, p: int, id: int) -> bool {
    exists|i: int|
        0 <= i < log.len() && (#[trigger] log[i]).call.end == p && log[i].call.id == id
}

/// A record may be reported as often as it is there: it may be repeated, and
/// it belongs to a group.
pub open spec fn repeatable(b: Seq<u8>, li: int) -> bool {
    b[li + 29] % 2 == 0 && number(b, li + 16, 8) != 0
}

/// Nowhere in a block do 8 bytes follow that are the same again.
pub open spec fn restless(buf: Seq<u8>) -> bool {
    forall|q: int| 0 <= q && q + 16 <= buf.len() ==> #[trigger] turns(buf, q)
}

/// The 8 bytes from `q` on are not the same again.
pub open spec fn turns(buf: Seq<u8>, q: int) -> bool {
    exists|d: int| 0 <= d < 8 && #[trigger] buf[q + d] != buf[q + 8 + d]
}

/// A block in which no run of equal bytes is passed over: a short one, or one
/// without repetitions.
pub open spec fn calm(buf: Seq<u8>) -> bool {
    buf.len() < 256 || restless(buf)
}

proof fn lemma_probe(buf: Seq<u8>, phase: int, i: int)
    requires
        restless(buf),
        0 <= phase < 8,
        0 <= i,
        i + 24 <= buf.len(),
    ensures
        !probe(buf, phase, i),
{
    let q = round_up(phase, i);
    assert(i <= q < i + 8);
    assert(round_up(phase, i + 8) == q + 8);
    assert(turns(buf, q));
    let d = choose|d: int| 0 <= d < 8 && #[trigger] buf[q + d] != buf[q + 8 + d];
    lemma_word_bytes(buf, q, d);
    lemma_word_bytes(buf, q + 8, d);
}

proof fn lemma_calm(buf: Seq<u8>, phase: int)
    requires
        calm(buf),
        0 <= phase < 8,
    ensures
        first_try(buf, phase) == buf.len(),
{
    let len = buf.len() as int;
    if len >= 256 {
        lemma_probe(buf, phase, 0);
        lemma_probe(buf, phase, len / 2);
        lemma_probe(buf, phase, len - 24);
    }
}

proof fn lemma_hit_in(log: Seq<Hit>, call: Call)
    requires
        calls_of(log).contains(call),
    ensures
        hit_at(log, call.end as int, call.id as int),
{
    let i = calls_of(log).index_of(call);
    assert(log[i].call == call);
}

proof fn lemma_unhindered(log: Seq<Hit>) -> (s: Answers)
    requires
        unhindered(log),
    ensures
        steady(s),
        same_answers(answers_of(log), s, calls_of(log)),
{
    let s: Answers = |calls: Seq<Call>| Reply { ctl: ScanCtl::Continue, squash: 0 };
    assert forall|i: int| 0 < i <= calls_of(log).len() implies answers_of(log)(
        #[trigger] calls_of(log).take(i),
    ) == s(calls_of(log).take(i)) by {
        assert(log[i - 1].reply.ctl == ScanCtl::Continue);
    }
    s
}

proof fn lemma_body(b: Seq<u8>)
    requires
        body_fault(b) is None,
    ensures
        domain_ok(b),
        stride_ok(b),
        b.len() >= 64,
        0 <= flood_of(b),
        flood_of(b) + 1024 <= b.len(),
{
}

/// What is open in a stretch of a block is what the entries leave open.
proof fn lemma_open_is_left(b: Seq<u8>, buf: Seq<u8>, start: int, j: int, p: int, k: int)
    requires
        domain_ok(b),
        stride_ok(b),
        b.len() >= 64,
        0 <= start < buf.len(),
        0 <= k < 8,
    ensures
        fdr_open(b, buf, spans(buf.len() as int, start), j, p, k) == fdr_leaves(
            b,
            buf,
            spans(buf.len() as int, start),
            j,
            p,
            k,
        ),
{
    let cut = spans(buf.len() as int, start);
    zones_cover_the_block(buf.len() as int, start);
    fdr_leaves_open_what_its_entries_do(b, buf, start, cut, j, p, k);
}

/// FDR reports a record wherever it is there and the table leaves its bucket
/// open, in a calm block, if no hit ended the scan or squashed a bucket.
pub proof fn fdr_reports_every_record(
    b: Seq<u8>,
    buf: Seq<u8>,
    start: int,
    phase: int,
    log: Seq<Hit>,
    r: ExecResult,
    call: Call,
    j: int,
    k: int,
    li: int,
)
    requires
        body_fault(b) is None,
        fdr_outcome(b, buf, start, phase, log, r),
        unhindered(log),
        calm(buf),
        0 <= start < buf.len() <= u64::MAX,
        comes_from(b, number(b, 16, 4) as int, buf, call, k, li),
        grouped(b, number(b, 16, 4) as int, k),
        repeatable(b, li),
        fdr_leaves(b, buf, spans(buf.len() as int, start), j, call.end as int, k),
    ensures
        hit_at(log, call.end as int, call.id as int),
        r == ExecResult::Completed,
{
    let conf = conf_of(b);
    let p = call.end as int;
    let s = lemma_unhindered(log);
    words_are_numbers(b, 16);
    words_are_numbers(b, conf + 4 * k);
    words_are_numbers(b, conf + bucket_start(b, conf, k) + 24);
    words_are_numbers(b, li + 16);
    words_are_numbers(b, li + 24);
    lemma_and(b[li + 29], 0, 0, 0);
    lemma_comes_from(b, conf, buf, call, k, li);
    lemma_calm(buf, phase);
    lemma_body(b);
    lemma_open_is_left(b, buf, start, j, p, k);
    assert(call == Call { end: p as u64, id: le32(b, li + 24) });
    fdr_is_caused(b, buf, start, phase, answers_of(log), s);
    fdr_loses_no_literal(b, buf, start, phase, s, j, p, k, li);
    lemma_hit_in(log, call);
    fdr_obeys(b, buf, start, phase, answers_of(log));
    assert(log[log.len() - 1].reply.ctl == ScanCtl::Continue);
}

/// Teddy reports a record wherever it is there and the masks leave its bucket
/// open, if no hit ended the scan or squashed a bucket.
pub proof fn teddy_reports_every_record(
    b: Seq<u8>,
    buf: Seq<u8>,
    start: int,
    log: Seq<Hit>,
    r: ExecResult,
    call: Call,
    k: int,
    li: int,
)
    requires
        teddy_engine(b),
        teddy_outcome(b, buf, start, log, r),
        unhindered(log),
        0 <= start <= call.end,
        buf.len() <= u64::MAX,
        comes_from(b, number(b, 16, 4) as int, buf, call, k, li),
        repeatable(b, li),
        teddy_leaves(b, buf, start, call.end as int, k),
    ensures
        hit_at(log, call.end as int, call.id as int),
        r == ExecResult::Completed,
{
    let conf = teddy_conf_of(b);
    let p = call.end as int;
    let s = lemma_unhindered(log);
    words_are_numbers(b, 0);
    words_are_numbers(b, 16);
    words_are_numbers(b, li + 16);
    words_are_numbers(b, li + 24);
    lemma_and(b[li + 29], 0, 0, 0);
    lemma_comes_from(b, conf, buf, call, k, li);
    teddy_leaves_open_what_its_masks_do(b, buf, start, p, k);
    assert(call == Call { end: p as u64, id: le32(b, li + 24) });
    teddy_is_caused(b, buf, start, answers_of(log), s);
    teddy_loses_no_literal(b, buf, start, s, p, k, li);
    lemma_hit_in(log, call);
    teddy_obeys(b, buf, start, answers_of(log));
    assert(log[log.len() - 1].reply.ctl == ScanCtl::Continue);
}

/// A hit of FDR comes from a record whose bucket has a group and, in a calm
/// block, is one that the table leaves open there.
pub open spec fn fdr_reason(
    b: Seq<u8>,
    buf: Seq<u8>,
    start: int,
    call: Call,
    k: int,
    li: int,
) -> bool {
    let conf = number(b, 16, 4) as int;
    &&& comes_from(b, conf, buf, call, k, li)
    &&& grouped(b, conf, k)
    &&& calm(buf) ==> exists|j: int| #[trigger]
        fdr_leaves(b, buf, spans(buf.len() as int, start), j, call.end as int, k)
}

proof fn lemma_comes_from_flood(b: Seq<u8>, at: int, buf: Seq<u8>, call: Call, k: int)
    requires
        floods(b, at, buf, call, k),
        0 <= at,
        at + 1024 <= b.len(),
    ensures
        comes_from_flood(b, at, buf, call, k),
{
    let record = flood_record(b, at, buf[call.end as int]);
    words_are_numbers(b, at + 4 * buf[call.end as int]);
    words_are_numbers(b, record);
    words_are_numbers(b, record + 8);
    words_are_numbers(b, record + 12);
    words_are_numbers(b, record + 16 + 4 * k);
    words_are_numbers(b, record + 80 + 8 * k);
}

proof fn lemma_fdr_reason(
    b: Seq<u8>,
    buf: Seq<u8>,
    start: int,
    phase: int,
    call: Call,
    k: int,
    li: int,
)
    requires
        domain_ok(b),
        stride_ok(b),
        b.len() >= 64,
        0 <= start < buf.len(),
        0 <= phase < 8,
        names(b, conf_of(b), buf, call, k, li),
        le64(b, conf_of(b) + bucket_start(b, conf_of(b), k) + 24) != 0,
        fdr_opens(b, buf, start, phase, call.end as int, k),
    ensures
        fdr_reason(b, buf, start, call, k, li),
{
    let conf = conf_of(b);
    let cut = spans(buf.len() as int, start);
    words_are_numbers(b, 16);
    lemma_comes_from(b, conf, buf, call, k, li);
    words_are_numbers(b, conf + 4 * k);
    words_are_numbers(b, conf + bucket_start(b, conf, k) + 24);
    if calm(buf) {
        lemma_calm(buf, phase);
        let j = choose|j: int| #[trigger] fdr_open(b, buf, cut, j, call.end as int, k);
        lemma_open_is_left(b, buf, start, j, call.end as int, k);
        assert(fdr_leaves(b, buf, cut, j, call.end as int, k));
    }
}

/// Hits of FDR lie from the start on inside the block, in order, and each has
/// a reason: a record that is there, in a bucket that is open, or a run of one
/// byte.
pub proof fn fdr_reports_nothing_else(
    b: Seq<u8>,
    buf: Seq<u8>,
    start: int,
    phase: int,
    log: Seq<Hit>,
    r: ExecResult,
    i: int,
)
    requires
        body_fault(b) is None,
        fdr_outcome(b, buf, start, phase, log, r),
        0 <= start,
        buf.len() <= u64::MAX,
        0 <= i < log.len(),
    ensures
        start <= log[i].call.end < buf.len(),
        i > 0 ==> log[i - 1].call.end <= log[i].call.end,
        (exists|k: int, li: int| #[trigger] fdr_reason(b, buf, start, log[i].call, k, li)) || (exists
            |k: int|
         #[trigger]
            comes_from_flood(b, number(b, 20, 4) as int, buf, log[i].call, k)),
{
    let calls = calls_of(log);
    let call = log[i].call;
    let x = fdr_sources(b, buf, start, phase);
    lemma_body(b);
    fdr_hits_are_orderly(b, buf, start, phase, answers_of(log));
    words_are_numbers(b, 20);
    assert(calls[i] == call);
    if i > 0 {
        assert(calls[i - 1] == log[i - 1].call);
    }
    assert(confirmed(x, call) || flooded(b, flood_of(b), buf, call)) by {
        reveal(founded);
    }
    if confirmed(x, call) {
        let (k, li) = choose|k: int, li: int| #[trigger]
            names(x.b, x.conf, x.buf, call, k, li) && (x.open)(call.end as int, k) && (x.gated
                ==> le64(x.b, x.conf + bucket_start(x.b, x.conf, k) + 24) != 0);
        lemma_fdr_reason(b, buf, start, phase, call, k, li);
    } else {
        let k = choose|k: int| #[trigger] floods(b, flood_of(b), buf, call, k);
        lemma_comes_from_flood(b, flood_of(b), buf, call, k);
        assert(comes_from_flood(b, number(b, 20, 4) as int, buf, log[i].call, k));
    }
}

/// Hits of Teddy lie from the start on inside the block, in order, and each
/// comes from a record that is there, in a bucket that the masks leave open.
pub proof fn teddy_reports_nothing_else(
    b: Seq<u8>,
    buf: Seq<u8>,
    start: int,
    log: Seq<Hit>,
    r: ExecResult,
    i: int,
)
    requires
        teddy_engine(b),
        teddy_outcome(b, buf, start, log, r),
        0 <= start,
        buf.len() <= u64::MAX,
        0 <= i < log.len(),
    ensures
        start <= log[i].call.end < buf.len(),
        i > 0 ==> log[i - 1].call.end <= log[i].call.end,
        exists|k: int, li: int| #[trigger]
            comes_from(b, number(b, 16, 4) as int, buf, log[i].call, k, li) && teddy_leaves(
                b,
                buf,
                start,
                log[i].call.end as int,
                k,
            ),
{
    let calls = calls_of(log);
    let call = log[i].call;
    teddy_hits_are_orderly(b, buf, start, answers_of(log));
    words_are_numbers(b, 16);
    assert(calls[i] == call);
    if i > 0 {
        assert(calls[i - 1] == log[i - 1].call);
    }
    reveal(founded);
    let x = teddy_sources(b, buf, start);
    let (k, li) = choose|k: int, li: int| #[trigger]
        names(x.b, x.conf, x.buf, call, k, li) && (x.open)(call.end as int, k) && (x.gated
            ==> le64(x.b, x.conf + bucket_start(x.b, x.conf, k) + 24) != 0);
    lemma_comes_from(b, teddy_conf_of(b), buf, call, k, li);
    words_are_numbers(b, 0);
    teddy_leaves_open_what_its_masks_do(b, buf, start, call.end as int, k);
    assert(comes_from(b, number(b, 16, 4) as int, buf, log[i].call, k, li));
}

} // verus!
