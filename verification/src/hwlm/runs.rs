//! What becomes of a run of one byte: FDR passes over it in whole steps, and
//! reports at each position what the table lists for the byte.

use vstd::prelude::*;

use crate::bytes::{le64, lemma_word_bytes, number, words_are_numbers};
use crate::hwlm::confirm::Track;
use crate::hwlm::finds::steady;
use crate::hwlm::flood::{
    ask_flood, flood, flood_groups, flood_id, flood_id_count, flood_id_groups, flood_ids,
    flood_limit, flood_positions, flood_record, flood_starts, flood_suffix, repeated, round_up,
    run_end, word_or_zero,
};
use crate::hwlm::{Answers, Call};

verus! {

/// Where the record for floods of a byte is, in a table whose flood records
/// are at `at`.
pub open spec fn record_of(b: Seq<u8>, at: int, c: u8) -> int {
    at + 1024 + 208 * number(b, at + 4 * c, 4)
}

/// The record for floods of a byte is inside the table.
pub open spec fn record_fits(b: Seq<u8>, at: int, c: u8) -> bool {
    0 <= at && at + 1024 <= b.len() && record_of(b, at, c) + 208 <= b.len()
}

/// All bytes of a block from one position up to another are the same.
pub open spec fn same_from(buf: Seq<u8>, from: int, to: int, c: u8) -> bool {
    forall|j: int| from <= j < to ==> #[trigger] buf[j] == c
}

/// A run can be passed over at position `i`: the first 8 bytes from there on
/// at an address that is a multiple of 8 are those of the run, the table has
/// fewer than 16 ids for it, and what the record asks for in front of `i` is
/// inside the block.
pub open spec fn run_at(b: Seq<u8>, at: int, buf: Seq<u8>, phase: int, i: int) -> bool {
    let c = buf[i];
    let record = record_of(b, at, c);
    &&& number(b, record + 12, 2) < 16
    &&& i >= number(b, record + 8, 4) + 7
    &&& exists|q: int|
        i <= q < i + 8 && (phase + q) % 8 == 0 && q + 8 <= buf.len() && #[trigger] same_from(
            buf,
            q,
            q + 8,
            c,
        )
}

proof fn lemma_record(b: Seq<u8>, at: int, c: u8)
    requires
        record_fits(b, at, c),
    ensures
        flood_record(b, at, c) == record_of(b, at, c),
        flood_groups(b, record_of(b, at, c)) == number(b, record_of(b, at, c), 8),
        flood_suffix(b, record_of(b, at, c)) == number(b, record_of(b, at, c) + 8, 4),
        flood_id_count(b, record_of(b, at, c)) == number(b, record_of(b, at, c) + 12, 2),
        forall|k: int|
            0 <= k < 16 ==> #[trigger] flood_id(b, record_of(b, at, c), k) == number(
                b,
                record_of(b, at, c) + 16 + 4 * k,
                4,
            ),
        forall|k: int|
            0 <= k < 16 ==> #[trigger] flood_id_groups(b, record_of(b, at, c), k) == number(
                b,
                record_of(b, at, c) + 80 + 8 * k,
                8,
            ),
{
    let record = record_of(b, at, c);
    words_are_numbers(b, at + 4 * c);
    words_are_numbers(b, record);
    words_are_numbers(b, record + 8);
    words_are_numbers(b, record + 12);
    assert forall|k: int| 0 <= k < 16 implies #[trigger] flood_id(b, record, k) == number(
        b,
        record + 16 + 4 * k,
        4,
    ) by {
        words_are_numbers(b, record + 16 + 4 * k);
    }
    assert forall|k: int| 0 <= k < 16 implies #[trigger] flood_id_groups(b, record, k) == number(
        b,
        record + 80 + 8 * k,
        8,
    ) by {
        words_are_numbers(b, record + 80 + 8 * k);
    }
}

proof fn lemma_repeated(buf: Seq<u8>, q: int, c: u8)
    requires
        0 <= q,
        q + 8 <= buf.len(),
    ensures
        (word_or_zero(buf, q) == repeated(c)) == same_from(buf, q, q + 8, c),
{
    let same = Seq::new(8, |j: int| c);
    let there = Seq::new(8, |j: int| buf[q + j]);
    assert(le64(buf, q) == le64(there, 0));
    if le64(buf, q) == le64(same, 0) {
        assert forall|j: int| q <= j < q + 8 implies #[trigger] buf[j] == c by {
            lemma_word_bytes(buf, q, j - q);
            lemma_word_bytes(same, 0, j - q);
        }
    }
    if same_from(buf, q, q + 8, c) {
        assert(there =~= same) by {
            assert forall|j: int| 0 <= j < 8 implies there[j] == same[j] by {
                assert(buf[q + j] == c);
            }
        }
    }
}

proof fn lemma_run_starts(b: Seq<u8>, at: int, buf: Seq<u8>, phase: int, i: int)
    requires
        record_fits(b, at, buf[i]),
        0 <= phase,
        0 <= i,
        i + 16 <= buf.len(),
    ensures
        flood_starts(b, record_of(b, at, buf[i]), buf, phase, i) == run_at(b, at, buf, phase, i),
{
    let c = buf[i];
    let q = round_up(phase, i);
    lemma_record(b, at, c);
    assert(i <= q < i + 8 && (phase + q) % 8 == 0);
    lemma_repeated(buf, q, c);
    if run_at(b, at, buf, phase, i) {
        let q2 = choose|q: int|
            i <= q < i + 8 && (phase + q) % 8 == 0 && q + 8 <= buf.len() && #[trigger] same_from(
                buf,
                q,
                q + 8,
                c,
            );
        assert(q2 == q);
    }
    if flood_starts(b, record_of(b, at, c), buf, phase, i) {
        assert(same_from(buf, q, q + 8, c));
    }
}

/// A run ends where another byte is, or at a limit.
proof fn lemma_run_end(buf: Seq<u8>, c: u8, j: int, limit: int)
    ensures
        j <= run_end(buf, c, j, limit),
        run_end(buf, c, j, limit) <= limit || run_end(buf, c, j, limit) == j,
        same_from(buf, j, run_end(buf, c, j, limit), c),
        run_end(buf, c, j, limit) < limit ==> buf[run_end(buf, c, j, limit)] != c,
    decreases limit - j,
{
    if j < limit && buf[j] == c {
        lemma_run_end(buf, c, j + 1, limit);
    }
}

/// The calls of one track are among those of another.
pub open spec fn kept(t: Track, later: Track) -> bool {
    forall|call: Call| #[trigger] t.calls.contains(call) ==> later.calls.contains(call)
}

proof fn lemma_ids(
    b: Seq<u8>,
    record: int,
    k: int,
    p: int,
    t: Track,
    s: Answers,
)
    requires
        steady(s),
        t.live,
        0 <= k,
        0 <= p <= u64::MAX,
    ensures
        flood_ids(b, record, k, p, t, s).live,
        kept(t, flood_ids(b, record, k, p, t, s)),
        forall|n: int|
            k <= n < flood_id_count(b, record) && flood_id_groups(b, record, n) != 0
                ==> flood_ids(b, record, k, p, t, s).calls.contains(
                Call { end: p as u64, id: #[trigger] flood_id(b, record, n) },
            ),
    decreases flood_id_count(b, record) - k,
{
    if k < flood_id_count(b, record) {
        let id = flood_id(b, record, k);
        let call = Call { end: p as u64, id };
        let t2 = if flood_id_groups(b, record, k) != 0 {
            ask_flood(t, s, p, id)
        } else {
            t
        };
        if flood_id_groups(b, record, k) != 0 {
            assert(t2.calls == t.calls.push(call));
            assert(t2.calls[t.calls.len() as int] == call);
            assert(t2.calls.contains(call));
            assert forall|other: Call| #[trigger] t.calls.contains(other) implies t2.calls.contains(
                other,
            ) by {
                let i = t.calls.index_of(other);
                assert(t2.calls[i] == other);
            }
        }
        lemma_ids(b, record, k + 1, p, t2, s);
    }
}

proof fn lemma_positions(
    b: Seq<u8>,
    record: int,
    p: int,
    to: int,
    t: Track,
    s: Answers,
    q: int,
    n: int,
)
    requires
        steady(s),
        t.live,
        0 <= p,
        to <= u64::MAX,
    ensures
        flood_positions(b, record, p, to, t, s).live,
        kept(t, flood_positions(b, record, p, to, t, s)),
        p <= q < to && 0 <= n < flood_id_count(b, record) && flood_id_groups(b, record, n) != 0
            ==> flood_positions(b, record, p, to, t, s).calls.contains(
            Call { end: q as u64, id: flood_id(b, record, n) },
        ),
    decreases to - p,
{
    if p < to {
        let t2 = flood_ids(b, record, 0, p, t, s);
        lemma_ids(b, record, 0, p, t, s);
        lemma_positions(b, record, p + 1, to, t2, s, q, n);
    }
}

/// A look for a run at position `i` passes over the run in whole steps of 16,
/// as many as fit in front of its last byte, if it starts at or in front of
/// what the table's record asks for, and over nothing where there is no run.
/// In front of what is passed over, and up to its end, there is nothing but
/// the byte; within one more step the run ends, or the last 32 bytes of the
/// block begin.
pub proof fn runs_are_passed_over(
    b: Seq<u8>,
    at: int,
    buf: Seq<u8>,
    phase: int,
    i: int,
    backoff: u32,
    t: Track,
    s: Answers,
)
    requires
        record_fits(b, at, buf[i]),
        0 <= phase,
        0 <= i,
        i + 32 <= buf.len(),
    ensures
        ({
            let c = buf[i];
            let suffix = number(b, record_of(b, at, c) + 8, 4) as int;
            let to = flood(b, at, buf, phase, i, backoff, t, s).it;
            &&& i <= to
            &&& (to - i) % 16 == 0
            &&& to > i ==> run_at(b, at, buf, phase, i) && same_from(buf, i - suffix, to + 1, c)
                && to + 32 < buf.len()
            &&& run_at(b, at, buf, phase, i) && same_from(buf, i - suffix - 7, i + 1, c) ==> to + 17
                > buf.len() - 32 || !same_from(buf, i, to + 17, c)
        }),
{
    reveal(flood);
    let c = buf[i];
    let record = record_of(b, at, c);
    let suffix = number(b, record + 8, 4) as int;
    lemma_record(b, at, c);
    lemma_run_starts(b, at, buf, phase, i);
    if run_at(b, at, buf, phase, i) {
        let back = i - suffix;
        let from = back - (phase + back) % 8;
        let limit = flood_limit(buf.len() as int);
        let j = run_end(buf, c, from, limit);
        lemma_run_end(buf, c, from, limit);
        let to = flood(b, at, buf, phase, i, backoff, t, s).it;
        if to > i {
            assert(from <= i - suffix);
            assert(to + 1 <= j);
        }
        if same_from(buf, i - suffix - 7, i + 1, c) && to + 17 <= buf.len() - 32 && same_from(
            buf,
            i,
            to + 17,
            c,
        ) {
            assert(from >= i - suffix - 7);
            if j < limit {
                assert(buf[j] != c);
                assert(j > i) by {
                    if j <= i {
                        assert(buf[j] == c);
                    }
                }
                assert(j >= to + 17) by {
                    if j < to + 17 {
                        assert(buf[j] == c);
                    }
                }
            }
            assert(false);
        }
    }
}

/// At each position of a run that is passed over, every id is reported that
/// the table's record lists with a group, if the record has one and no hit
/// ends the scan.
pub proof fn runs_are_reported(
    b: Seq<u8>,
    at: int,
    buf: Seq<u8>,
    phase: int,
    i: int,
    backoff: u32,
    t: Track,
    s: Answers,
    p: int,
    n: int,
)
    requires
        record_fits(b, at, buf[i]),
        0 <= phase,
        0 <= i,
        i + 32 <= buf.len() <= u64::MAX,
        steady(s),
        t.live,
        ({
            let record = record_of(b, at, buf[i]);
            &&& i <= p < flood(b, at, buf, phase, i, backoff, t, s).it
            &&& number(b, record, 8) != 0
            &&& 0 <= n < number(b, record + 12, 2)
            &&& number(b, record + 80 + 8 * n, 8) != 0
        }),
    ensures
        flood(b, at, buf, phase, i, backoff, t, s).t.calls.contains(
            Call {
                end: p as u64,
                id: number(b, record_of(b, at, buf[i]) + 16 + 4 * n, 4) as u32,
            },
        ),
{
    reveal(flood);
    let record = record_of(b, at, buf[i]);
    let to = flood(b, at, buf, phase, i, backoff, t, s).it;
    lemma_record(b, at, buf[i]);
    runs_are_passed_over(b, at, buf, phase, i, backoff, t, s);
    words_are_numbers(b, record + 16 + 4 * n);
    lemma_positions(b, record, i, to, t, s, p, n);
    assert(flood_id(b, record, n) == number(b, record + 16 + 4 * n, 4));
    assert(flood_id_groups(b, record, n) == number(b, record + 80 + 8 * n, 8));
}

} // verus!
