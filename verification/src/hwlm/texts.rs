//! What the tables are for: a text is reported wherever it ends in a block.
//!
//! The laws here speak of the bytes of a table, of a text and of a block, and
//! of the hits of a scan.

use vstd::arithmetic::power2::pow2;
use vstd::prelude::*;

use crate::bits::{lemma_and, lemma_masked};
use crate::bytes::{byte_or_zero, number, words_are_numbers};
use crate::hwlm::fdr::{body_fault, fdr_outcome};
use crate::hwlm::finds::clear;
use crate::hwlm::hits::{on_chain, zones_cover_the_block};
use crate::hwlm::records::{
    calm, chain_of_bytes, comes_from, fdr_reports_every_record, grouped, hit_at, last_of,
    repeatable, tail, teddy_reports_every_record, unhindered,
};
use crate::hwlm::rooms::{entry_leaves, fdr_leaves, mask_leaves, teddy_leaves};
use crate::hwlm::teddy::{teddy_engine, teddy_outcome};
use crate::hwlm::zones::spans;
use crate::hwlm::{Call, ExecResult, Hit};

verus! {

/// A text stands in a block, from `start` on, and ends with position `p`.
pub open spec fn occurs(buf: Seq<u8>, text: Seq<u8>, start: int, p: int) -> bool {
    let first = p + 1 - text.len();
    &&& start <= first
    &&& p < buf.len()
    &&& forall|i: int| 0 <= i < text.len() ==> #[trigger] text[i] == buf[first + i]
}

/// Where a text ends, byte `j` in front of its end can be `c` and the byte
/// behind that can be `d`.
pub open spec fn can_stand(text: Seq<u8>, j: int, c: u8, d: u8) -> bool {
    &&& j < text.len() ==> c == text[text.len() - 1 - j]
    &&& 1 <= j <= text.len() ==> d == text[text.len() - j]
}

/// An FDR table leaves room for a text in bucket `k`: byte `j` of an entry
/// has the bucket's bit clear where the entry is one of bytes that can stand
/// `j` in front of the text's end, and so have the bytes of the start state
/// at which the text can end.
pub open spec fn fdr_admits(b: Seq<u8>, text: Seq<u8>, k: int) -> bool {
    &&& forall|j: int, c: u8, d: u8|
        0 <= j < 8 && #[trigger] can_stand(text, j, c, d) ==> clear(
            b[64 + 8 * ((c + 256 * d) % (pow2(b[25] as nat) as int)) + j],
            k,
        )
    &&& forall|j: int| text.len() - 1 <= j < 16 ==> clear(#[trigger] b[32 + j], k)
}

/// Byte `j` of the 8 last bytes where a text ends, as far as the text tells.
pub open spec fn last_byte(text: Seq<u8>, j: int) -> u8 {
    let gap = 8 - text.len();
    if j < gap {
        0
    } else {
        text[j - gap]
    }
}

/// The chain of a text in the confirm structure at `f`.
pub open spec fn chain_of_text(b: Seq<u8>, f: int, text: Seq<u8>) -> int {
    chain_of_bytes(b, f, Seq::new(8, |j: int| last_byte(text, j)))
}

/// The record at `li` is one for a text: its mask selects bits of the text
/// alone, and they are as the record wants them.
pub open spec fn accepts(b: Seq<u8>, li: int, text: Seq<u8>) -> bool {
    let gap = 8 - text.len();
    &&& b[li + 28] <= text.len()
    &&& forall|j: int|
        0 <= j < gap ==> #[trigger] b[li + j] == 0 && b[li + 8 + j] == 0
    &&& forall|j: int|
        gap <= j < 8 ==> text[j - gap] & b[li + 8 + j] == #[trigger] b[li + j]
}

/// The confirm structure of bucket `k` leads from a text to the record at
/// `li`: its mask selects bits of the text alone, and the record is in the
/// chain of the text.
pub open spec fn leads(b: Seq<u8>, conf: int, text: Seq<u8>, k: int, li: int) -> bool {
    let cf = number(b, conf + 4 * k, 4);
    let f = conf + cf;
    let head = number(b, f + 32 + 4 * chain_of_text(b, f, text), 4);
    &&& 0 <= k < 8
    &&& cf != 0
    &&& 0 < number(b, f + 16, 4) < 64
    &&& forall|j: int| 0 <= j < 8 - text.len() ==> #[trigger] b[f + j] == 0
    &&& head != 0
    &&& on_chain(b, f + head, li)
}

proof fn lemma_text_byte(buf: Seq<u8>, text: Seq<u8>, start: int, p: int, j: int)
    requires
        1 <= text.len() <= 8,
        0 <= start,
        occurs(buf, text, start, p),
        8 - text.len() <= j < 8,
    ensures
        last_of(buf, p, j) == text[j - (8 - text.len())],
{
    let i = j - (8 - text.len());
    assert(text[i] == buf[p + 1 - text.len() + i]);
}

/// Where a text ends, its chain is chosen, whatever is in front of it.
proof fn lemma_chain_of_text(b: Seq<u8>, f: int, text: Seq<u8>, buf: Seq<u8>, start: int, p: int)
    requires
        1 <= text.len() <= 8,
        0 <= start,
        occurs(buf, text, start, p),
        forall|j: int| 0 <= j < 8 - text.len() ==> #[trigger] b[f + j] == 0,
    ensures
        chain_of_bytes(b, f, tail(buf, p)) == chain_of_text(b, f, text),
{
    let told = Seq::new(8, |j: int| last_byte(text, j));
    let one = Seq::new(8, |j: int| b[f + j] & tail(buf, p)[j]);
    let two = Seq::new(8, |j: int| b[f + j] & told[j]);
    assert forall|j: int| 0 <= j < 8 implies one[j] == two[j] by {
        if j < 8 - text.len() {
            assert(b[f + j] == 0);
            lemma_and(tail(buf, p)[j], 0, 0, 0);
            lemma_and(0, 0, 0, 0);
        } else {
            lemma_text_byte(buf, text, start, p, j);
        }
    }
    assert(one =~= two);
}

/// Where a text ends, the record that its structure leads to is there.
proof fn lemma_text_is_there(
    b: Seq<u8>,
    conf: int,
    text: Seq<u8>,
    k: int,
    li: int,
    buf: Seq<u8>,
    start: int,
    call: Call,
)
    requires
        1 <= text.len() <= 8,
        0 <= start,
        occurs(buf, text, start, call.end as int),
        leads(b, conf, text, k, li),
        accepts(b, li, text),
        repeatable(b, li),
        call.id == number(b, li + 24, 4),
    ensures
        comes_from(b, conf, buf, call, k, li),
{
    let f = conf + number(b, conf + 4 * k, 4);
    let p = call.end as int;
    lemma_chain_of_text(b, f, text, buf, start, p);
    assert forall|j: int| 0 <= j < 8 implies crate::bits::as_wanted(
        last_of(buf, p, j),
        b[li + 8 + j],
        #[trigger] b[li + j],
    ) by {
        lemma_masked(last_of(buf, p, j), b[li + 8 + j], b[li + j]);
        if j < 8 - text.len() {
            lemma_and(last_of(buf, p, j), 0, 0, 0);
        } else {
            lemma_text_byte(buf, text, start, p, j);
        }
    }
}

/// A table that leaves room for a text leaves its bucket open where the text
/// ends.
proof fn lemma_fdr_leaves_room(
    b: Seq<u8>,
    buf: Seq<u8>,
    text: Seq<u8>,
    k: int,
    start: int,
    p: int,
) -> (j: int)
    requires
        fdr_admits(b, text, k),
        0 <= start,
        text.len() >= 1,
        occurs(buf, text, start, p),
    ensures
        fdr_leaves(b, buf, spans(buf.len() as int, start), j, p, k),
{
    let len = buf.len() as int;
    let cut = spans(len, start);
    zones_cover_the_block(len, start);
    assert forall|q: int| p - 8 < q <= p implies #[trigger] entry_leaves(b, buf, q, p, k) by {
        let i = p - q;
        let (c, d) = (byte_or_zero(buf, q), byte_or_zero(buf, q + 1));
        if i < text.len() {
            assert(text[text.len() - 1 - i] == buf[p + 1 - text.len() + (text.len() - 1 - i)]);
        }
        if 1 <= i <= text.len() {
            assert(text[text.len() - i] == buf[p + 1 - text.len() + (text.len() - i)]);
        }
        assert(can_stand(text, i, c, d));
    }
    let j = if p < cut[0].to {
        0
    } else if p < cut[1].to {
        1
    } else {
        2int
    };
    j
}

/// FDR reports a text wherever it ends in a block, whatever stands around it.
/// The text is one for which the table leaves room in bucket `k`, and to whose
/// record the confirm structure of the bucket leads. The block is calm, so
/// that no run of equal bytes is passed over, and no hit ended the scan or
/// squashed a bucket.
pub proof fn fdr_reports_every_text(
    b: Seq<u8>,
    buf: Seq<u8>,
    start: int,
    phase: int,
    log: Seq<Hit>,
    r: ExecResult,
    text: Seq<u8>,
    k: int,
    li: int,
    p: int,
)
    requires
        body_fault(b) is None,
        fdr_outcome(b, buf, start, phase, log, r),
        unhindered(log),
        calm(buf),
        0 <= start,
        buf.len() <= u64::MAX,
        1 <= text.len() <= 8,
        fdr_admits(b, text, k),
        leads(b, number(b, 16, 4) as int, text, k, li),
        grouped(b, number(b, 16, 4) as int, k),
        accepts(b, li, text),
        repeatable(b, li),
        occurs(buf, text, start, p),
    ensures
        hit_at(log, p, number(b, li + 24, 4) as int),
        r == ExecResult::Completed,
{
    words_are_numbers(b, li + 24);
    let call = Call { end: p as u64, id: number(b, li + 24, 4) as u32 };
    lemma_text_is_there(b, number(b, 16, 4) as int, text, k, li, buf, start, call);
    let j = lemma_fdr_leaves_room(b, buf, text, k, start, p);
    fdr_reports_every_record(b, buf, start, phase, log, r, call, j, k, li);
}

/// The masks of a Teddy table leave room for a text in bucket `k`: for the
/// byte that is `m`-th from the end, the rows of both its nibbles have the
/// bucket's bit clear, and where the text is shorter, so have all rows. There
/// are as many pairs of masks as the engine's id tells: one for 11 and 12, one
/// more for each two ids from there on.
pub open spec fn teddy_admits(b: Seq<u8>, text: Seq<u8>, k: int) -> bool {
    forall|m: int, c: u8|
        0 <= m && 11 + 2 * m <= number(b, 0, 4) && #[trigger] ends_with(text, m, c) ==> clear(
            b[64 + 32 * m + c as int % 16],
            k,
        ) && clear(b[64 + 32 * m + 16 + c as int / 16], k)
}

/// The `m`-th byte from the end can be `c` where a text ends.
pub open spec fn ends_with(text: Seq<u8>, m: int, c: u8) -> bool {
    m < text.len() ==> c == text[text.len() - 1 - m]
}

/// Teddy reports a text wherever it ends in a block, whatever stands around
/// it. The text is one for which the masks leave room in bucket `k`, and to
/// whose record the confirm structure of the bucket leads. No hit ended the
/// scan or squashed a bucket.
pub proof fn teddy_reports_every_text(
    b: Seq<u8>,
    buf: Seq<u8>,
    start: int,
    log: Seq<Hit>,
    r: ExecResult,
    text: Seq<u8>,
    k: int,
    li: int,
    p: int,
)
    requires
        teddy_engine(b),
        teddy_outcome(b, buf, start, log, r),
        unhindered(log),
        0 <= start,
        buf.len() <= u64::MAX,
        1 <= text.len() <= 8,
        teddy_admits(b, text, k),
        leads(b, number(b, 16, 4) as int, text, k, li),
        accepts(b, li, text),
        repeatable(b, li),
        occurs(buf, text, start, p),
    ensures
        hit_at(log, p, number(b, li + 24, 4) as int),
        r == ExecResult::Completed,
{
    words_are_numbers(b, li + 24);
    let call = Call { end: p as u64, id: number(b, li + 24, 4) as u32 };
    lemma_text_is_there(b, number(b, 16, 4) as int, text, k, li, buf, start, call);
    assert forall|m: int|
        0 <= m <= (p - start) % 16 && 11 + 2 * m <= number(b, 0, 4) implies #[trigger] mask_leaves(
        b,
        m,
        buf[p - m],
        k,
    ) by {
        if m < text.len() {
            assert(text[text.len() - 1 - m] == buf[p + 1 - text.len() + (text.len() - 1 - m)]);
        }
        assert(ends_with(text, m, buf[p - m]));
    }
    assert(teddy_leaves(b, buf, start, p, k));
    teddy_reports_every_record(b, buf, start, log, r, call, k, li);
}

} // verus!
