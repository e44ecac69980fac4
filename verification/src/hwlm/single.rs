//! What Noodle is for: its literal is reported wherever it ends in a block,
//! and nowhere else.
//!
//! The laws here speak of the fields of a table and of the bytes of a block.

use vstd::prelude::*;

use crate::bits::{as_wanted, bit8, lemma_and, lemma_bit8, lemma_masked, lemma_same_bits, lemma_word_is};
use crate::bytes::{byte_of, le64, lemma_word_bytes};
use crate::hwlm::causes::{nood_is_caused, same_answers};
use crate::hwlm::hits::{lemma_masked_byte, lists, noodle_finds_every_literal};
use crate::hwlm::noodle::{
    first_key, key_at, key_bits, key_matches, keys_end, nood_hit, nood_outcome, nood_scan,
    word_before, NoodTable,
};
use crate::hwlm::records::hit_at;
use crate::hwlm::texts::occurs;
use crate::hwlm::{answers_of, calls_of, Answers, Call, ExecResult, Hit, Reply, ScanCtl};

verus! {

/// Two bytes are equal, up to the bit by which the cases of a letter differ
/// where case does not count.
pub open spec fn alike(c: u8, d: u8, nocase: bool) -> bool {
    forall|j: int| 0 <= j < 8 && !(nocase && j == 5) ==> #[trigger] bit8(c, j) == bit8(d, j)
}

/// Whether case counts for the key: not if the table says so, but always for
/// a single byte that is no letter.
pub open spec fn caseless(t: NoodTable) -> bool {
    t.nocase && (!t.single || 65 <= t.key0 <= 90 || 97 <= t.key0 <= 122)
}

/// Byte `j` of what a table wants.
pub open spec fn wanted_byte(t: NoodTable, j: int) -> u8 {
    byte_of(t.cmp, j)
}

proof fn lemma_wanted(t: NoodTable)
    ensures
        t.cmp == le64(Seq::new(8, |j: int| wanted_byte(t, j)), 0),
{
    lemma_word_is(t.cmp, Seq::new(8, |j: int| wanted_byte(t, j)));
}

/// The bits that the table's mask selects from the bytes that end with
/// position `e` are those that the table wants.
pub open spec fn masked_there(t: NoodTable, buf: Seq<u8>, e: int) -> bool {
    forall|j: int|
        0 <= j < 8 ==> as_wanted(
            if j < t.msk_len {
                buf[e + 1 - t.msk_len + j]
            } else {
                0
            },
            byte_of(t.msk, j),
            #[trigger] wanted_byte(t, j),
        )
}

/// The literal of a table ends with position `e`: its key bytes are there, and
/// so are the bits under its mask. A literal of one byte is its own key.
pub open spec fn stands(t: NoodTable, buf: Seq<u8>, start: int, e: int) -> bool {
    let p = e + 1 - t.key_offset;
    &&& start + t.msk_len <= e + 1
    &&& 0 <= p
    &&& e < buf.len()
    &&& alike(buf[p], t.key0, caseless(t))
    &&& !t.single ==> alike(buf[p + 1], t.key1, caseless(t))
    &&& (t.single && t.msk_len == 1) || masked_there(t, buf, e)
}

proof fn lemma_alike(c: u8, d: u8, nocase: bool)
    ensures
        ({
            let m = if nocase {
                0xdfu8
            } else {
                0xff
            };
            (c & m == d & m) == alike(c, d, nocase)
        }),
{
    let m = if nocase {
        0xdfu8
    } else {
        0xff
    };
    lemma_same_bits(c & m, d & m);
    assert forall|j: int| 0 <= j < 8 implies #[trigger] bit8(c & m, j) == (bit8(c, j) && !(nocase
        && j == 5)) && bit8(d & m, j) == (bit8(d, j) && !(nocase && j == 5)) by {
        lemma_bit8(c, m, 0, j);
        lemma_bit8(d, m, 0, j);
        lemma_bit8(0xff, 0, 5, j);
        lemma_bit8(0, 0, 0, j);
        lemma_and(0, 0, 0, 0);
    }
    if c & m == d & m {
        assert forall|j: int| 0 <= j < 8 && !(nocase && j == 5) implies #[trigger] bit8(c, j)
            == bit8(d, j) by {
            assert(bit8(c & m, j) == bit8(d & m, j));
        }
    }
    if alike(c, d, nocase) {
        assert forall|j: int| 0 <= j < 8 implies #[trigger] bit8(c & m, j) == bit8(d & m, j) by {
            if !(nocase && j == 5) {
                assert(bit8(c, j) == bit8(d, j));
            }
        }
    }
}

proof fn lemma_masked_there(t: NoodTable, buf: Seq<u8>, e: int)
    ensures
        key_matches(t, word_before(buf, e + 1, t.msk_len as int)) == masked_there(t, buf, e),
{
    let n = t.msk_len as int;
    let bytes = Seq::new(
        8,
        |j: int|
            if j < n {
                buf[e + 1 - n + j]
            } else {
                0
            },
    );
    let v = word_before(buf, e + 1, n);
    let want = Seq::new(8, |j: int| wanted_byte(t, j));
    assert(v == le64(bytes, 0));
    lemma_wanted(t);
    assert forall|j: int| 0 <= j < 8 implies (byte_of(v & t.msk, j) == #[trigger] wanted_byte(t, j))
        == as_wanted(bytes[j], byte_of(t.msk, j), wanted_byte(t, j)) by {
        lemma_masked_byte(v, t.msk, j);
        lemma_word_bytes(bytes, 0, j);
        lemma_masked(bytes[j], byte_of(t.msk, j), wanted_byte(t, j));
    }
    if masked_there(t, buf, e) {
        assert forall|j: int| 0 <= j < 8 implies #[trigger] byte_of(v & t.msk, j) == want[j] by {
            assert(wanted_byte(t, j) == want[j]);
        }
        lemma_word_is(v & t.msk, want);
    }
}

proof fn lemma_stands(t: NoodTable, buf: Seq<u8>, start: int, e: int)
    requires
        t.wf(),
        0 <= start,
    ensures
        stands(t, buf, start, e) <==> {
            let q = e + 1 - t.key_offset;
            first_key(t, start) <= q < keys_end(t, buf.len() as int) && nood_hit(t, buf, q)
        },
{
    let q = e + 1 - t.key_offset;
    lemma_alike(buf[q], t.key0, caseless(t));
    lemma_alike(buf[q + 1], t.key1, caseless(t));
    lemma_masked_there(t, buf, e);
}

/// Noodle reports its literal exactly where it ends, if no hit ended the scan:
/// once each, in order, and nothing else.
pub proof fn noodle_reports_where_its_literal_stands(
    t: NoodTable,
    buf: Seq<u8>,
    start: int,
    log: Seq<Hit>,
    r: ExecResult,
    e: int,
)
    requires
        t.wf(),
        nood_outcome(t, buf, start, log, r),
        forall|i: int| 0 <= i < log.len() ==> (#[trigger] log[i]).reply.ctl == ScanCtl::Continue,
        0 <= start,
        buf.len() <= u64::MAX,
    ensures
        hit_at(log, e, t.id as int) <==> stands(t, buf, start, e),
        forall|i: int|
            0 <= i < log.len() ==> (#[trigger] log[i]).call.id == t.id,
        forall|i: int, j: int|
            #![trigger log[i], log[j]]
            0 <= i < j < log.len() ==> log[i].call.end < log[j].call.end,
{
    let s: Answers = |calls: Seq<Call>|
        if 0 < calls.len() <= log.len() {
            log[calls.len() - 1].reply
        } else {
            Reply { ctl: ScanCtl::Continue, squash: 0 }
        };
    assert forall|calls: Seq<Call>| (#[trigger] s(calls)).ctl == ScanCtl::Continue by {
        if 0 < calls.len() <= log.len() {
            assert(log[calls.len() - 1].reply.ctl == ScanCtl::Continue);
        }
    }
    let calls = calls_of(log);
    assert(same_answers(answers_of(log), s, calls));
    nood_is_caused(t, buf, start, answers_of(log), s);
    noodle_finds_every_literal(t, buf, start, s);
    let (from, to) = (first_key(t, start), keys_end(t, buf.len() as int));
    assert(lists(t, buf, from, to, calls));
    lemma_stands(t, buf, start, e);
    assert forall|i: int| 0 <= i < log.len() implies (#[trigger] log[i]).call.id == t.id by {
        assert(calls[i] == log[i].call);
    }
    assert forall|i: int, j: int|
        #![trigger log[i], log[j]]
        0 <= i < j < log.len() implies log[i].call.end < log[j].call.end by {
        assert(calls[i] == log[i].call && calls[j] == log[j].call);
    }
    if hit_at(log, e, t.id as int) {
        let i = choose|i: int|
            0 <= i < log.len() && (#[trigger] log[i]).call.end == e && log[i].call.id == t.id;
        assert(calls[i] == log[i].call);
    }
    if stands(t, buf, start, e) {
        let q = e + 1 - t.key_offset;
        assert(nood_hit(t, buf, q));
        if start + t.msk_len > buf.len() {
            assert(false);
        }
        let i = choose|i: int|
            0 <= i < calls.len() && (#[trigger] calls[i]).end == q + t.key_offset - 1;
        assert(log[i].call == calls[i]);
    }
}

/// A table is one for a text: its mask covers the text and selects bits of it
/// alone, which are as the table wants them, and its key bytes are bytes of
/// the text.
pub open spec fn made_for(t: NoodTable, text: Seq<u8>) -> bool {
    let n = text.len() as int;
    &&& t.msk_len == n
    &&& t.key_offset <= n
    &&& t.key0 == text[n - t.key_offset]
    &&& !t.single ==> t.key1 == text[n - t.key_offset + 1]
    &&& forall|j: int|
        0 <= j < 8 ==> as_wanted(
            if j < n {
                text[j]
            } else {
                0
            },
            byte_of(t.msk, j),
            #[trigger] wanted_byte(t, j),
        )
}

/// Noodle reports a text wherever it ends in a block, whatever stands around
/// it.
pub proof fn noodle_reports_every_text(
    t: NoodTable,
    buf: Seq<u8>,
    start: int,
    log: Seq<Hit>,
    r: ExecResult,
    text: Seq<u8>,
    p: int,
)
    requires
        t.wf(),
        made_for(t, text),
        nood_outcome(t, buf, start, log, r),
        forall|i: int| 0 <= i < log.len() ==> (#[trigger] log[i]).reply.ctl == ScanCtl::Continue,
        0 <= start,
        buf.len() <= u64::MAX,
        occurs(buf, text, start, p),
    ensures
        hit_at(log, p, t.id as int),
{
    noodle_reports_where_its_literal_stands(t, buf, start, log, r, p);
    let n = text.len() as int;
    let first = p + 1 - n;
    assert(text[n - t.key_offset] == buf[first + (n - t.key_offset)]);
    if !t.single {
        assert(text[n - t.key_offset + 1] == buf[first + (n - t.key_offset + 1)]);
    }
    assert forall|j: int| 0 <= j < 8 implies as_wanted(
        if j < t.msk_len {
            buf[p + 1 - t.msk_len + j]
        } else {
            0
        },
        byte_of(t.msk, j),
        #[trigger] wanted_byte(t, j),
    ) by {
        if j < n {
            assert(text[j] == buf[first + j]);
        }
    }
}

} // verus!
