//! What holds of every scan with a database.

use vstd::prelude::*;

use crate::bytes::le32;
use crate::hwlm::causes::{fdr_is_caused, same_answers, teddy_is_caused};
use crate::hwlm::fdr::fdr_fault;
use crate::hwlm::flood::FLOOD_MINIMUM_SIZE;
use crate::hwlm::laws::{fdr_obeys, obedient, short_blocks_have_no_address, teddy_obeys};
use crate::hwlm::teddy::teddy_fault;
use crate::hwlm::{Answers, Call, ScanCtl};
use crate::literal::laws::{
    heeded, program_forgets_nothing, program_heeds_the_answer, program_is_caused, remembers,
    same_replies, willing,
};
use crate::literal::program::{
    budget, effects, lemma_run_extends_log, program, run, scene, Machine,
};
use crate::literal::report::{replies_of, Replies, Report};
use crate::rose::{
    foreign_machinery, hwlm_type_at, matcher_table_at, RoseEngine, RoseError, FMATCHER_OFFSET,
    HEADER_SIZE, HS_MODE_BLOCK, HWLM_ENGINE_FDR, MODE,
};
use crate::scan::delay::{
    after_hits, at_last_end, delay_answers, flush, lemma_pushed, lemma_replay, on_hit, play, start,
    Delay,
};
use crate::scan::slots::{any_due, least, Slot};
use crate::scan::{load_fault, scan_end, scan_outcome, Floating, ScanError};
use crate::serialized::{
    bytecode_of, changed_bytecode_is_refused, db_fault, DbError, BYTECODE_OFFSET,
};

verus! {

proof fn lemma_play(
    rose: &RoseEngine,
    data: Seq<u8>,
    d: Delay,
    prog_off: u32,
    end: u64,
    in_confirm: bool,
    o: Replies,
)
    requires
        d.wf(),
        willing(d.log),
    ensures
        ({
            let (d2, reply) = play(rose, data, d, prog_off, end, in_confirm, o);
            &&& d2.wf()
            &&& heeded(d2.log)
            &&& d2.last_end == d.last_end
            &&& remembers(d2.memory, d.memory)
            &&& reply.ctl == ScanCtl::Continue ==> willing(d2.log) && d2.err == d.err
        }),
{
    let sc = scene(rose, data, end, in_confirm);
    let fx = effects(d.groups, d.memory, Seq::empty(), 0, d.log);
    let m = Machine { at: prog_off as int, work_done: false, fx };
    program_heeds_the_answer(sc, m, o, budget(sc.bc));
    program_forgets_nothing(sc, m, o, budget(sc.bc));
    lemma_pushed(d.slots, program(sc, prog_off, fx, o).0.delayed, end, d.last_end);
}

/// Replays bring a scan forward: it never goes back, forgets nothing, and
/// heeds the answers to its reports. If it is to go on, everything up to the
/// offset was replayed.
pub proof fn replays_come_in_time(
    rose: &RoseEngine,
    data: Seq<u8>,
    d: Delay,
    curr_end: u64,
    o: Replies,
)
    requires
        d.wf(),
        willing(d.log),
    ensures
        ({
            let (d2, ctl) = flush(rose, data, d, curr_end, o);
            &&& d2.wf()
            &&& heeded(d2.log)
            &&& d.last_end <= d2.last_end
            &&& remembers(d2.memory, d.memory)
            &&& ctl == ScanCtl::Continue ==> {
                &&& willing(d2.log)
                &&& d2.err == d.err
                &&& curr_end <= d2.last_end
                &&& !any_due(d2.slots, curr_end)
            }
        }),
    decreases
            if curr_end >= d.last_end {
                curr_end - d.last_end
            } else {
                0
            },
            at_last_end(d).len(),
{
    if any_due(d.slots, curr_end) {
        lemma_replay(rose, data, d, curr_end, o);
        let x = least(d.slots);
        let d1 = Delay { slots: d.slots.remove(x), last_end: x.0, ..d };
        match rose.delayed_program(x.1) {
            Err(e) => {},
            Ok(prog) => {
                lemma_play(rose, data, d1, prog, x.0, false, o);
                let (d2, reply) = play(rose, data, d1, prog, x.0, false, o);
                if reply.ctl == ScanCtl::Continue {
                    replays_come_in_time(rose, data, d2, curr_end, o);
                }
            },
        }
    } else {
        let d2 = flush(rose, data, d, curr_end, o).0;
        assert forall|x: Slot| #[trigger] d2.slots.contains(x) implies x.0 >= d2.last_end by {
            if x.0 < curr_end {
                assert(d.slots.contains(x) && x.0 <= curr_end);
            }
        }
    }
}

/// A direct match is played after every replay at or in front of its end, and
/// never in front of what was played before.
pub proof fn replays_come_first(
    rose: &RoseEngine,
    data: Seq<u8>,
    d: Delay,
    call: Call,
    o: Replies,
)
    requires
        d.wf(),
        willing(d.log),
    ensures
        ({
            let end = (call.end + 1) as u64;
            let (d1, ctl) = flush(rose, data, d, end, o);
            let (d2, reply) = on_hit(rose, data, d, call, o);
            &&& d2.wf()
            &&& heeded(d2.log)
            &&& d.last_end <= d2.last_end
            &&& remembers(d2.memory, d.memory)
            &&& reply.ctl == ScanCtl::Continue ==> {
                &&& willing(d2.log)
                &&& d2.err is None
                &&& ctl == ScanCtl::Continue
                &&& !any_due(d1.slots, end)
                &&& (d2, reply) == play(rose, data, d1, call.id, end, true, o)
            }
        }),
{
    let end = (call.end + 1) as u64;
    replays_come_in_time(rose, data, d, end, o);
    let (d1, ctl) = flush(rose, data, d, end, o);
    if d.err is None && ctl == ScanCtl::Continue {
        lemma_play(rose, data, d1, call.id, end, true, o);
    }
}

/// Every one of some calls is answered with the wish to go on.
pub open spec fn welcome(s: Answers, calls: Seq<Call>) -> bool {
    forall|i: int| 0 < i <= calls.len() ==> s(#[trigger] calls.take(i)).ctl == ScanCtl::Continue
}

proof fn lemma_after_hits(rose: &RoseEngine, data: Seq<u8>, calls: Seq<Call>, o: Replies)
    requires
        welcome(delay_answers(rose, data, o), calls),
    ensures
        ({
            let d = after_hits(rose, data, calls, o);
            d.wf() && willing(d.log) && d.err is None
        }),
    decreases calls.len(),
{
    if calls.len() > 0 {
        let shorter = calls.drop_last();
        let s = delay_answers(rose, data, o);
        assert forall|i: int| 0 < i <= shorter.len() implies s(#[trigger] shorter.take(i)).ctl
            == ScanCtl::Continue by {
            assert(shorter.take(i) =~= calls.take(i));
        }
        lemma_after_hits(rose, data, shorter, o);
        assert(calls.take(calls.len() as int) =~= calls);
        replays_come_first(rose, data, after_hits(rose, data, shorter, o), calls.last(), o);
    }
}

/// The answer to a report that ends a scan is obeyed: no report follows it.
pub proof fn stopped_scan_reports_no_more(
    rose: &RoseEngine,
    floating: &Floating,
    data: Seq<u8>,
    phase: int,
    log: Seq<Report>,
    r: Result<(), ScanError>,
)
    requires
        scan_outcome(rose, floating, data, phase, log, r),
    ensures
        forall|i: int| 0 <= i < log.len() - 1 ==> (#[trigger] log[i]).ctl == ScanCtl::Continue,
{
    let o = replies_of(log);
    let s = delay_answers(rose, data, o);
    let t = floating.scan(data, phase, s);
    match floating {
        Floating::Fdr(table) => fdr_obeys(table.bytes@, data, 0, phase, s),
        Floating::Teddy(table) => teddy_obeys(table.bytes@, data, 0, s),
    }
    assert(obedient(t, s));
    if t.live {
        assert forall|i: int| 0 < i <= t.calls.len() implies s(#[trigger] t.calls.take(i)).ctl
            == ScanCtl::Continue by {
            if i == t.calls.len() {
                assert(t.calls.take(i) =~= t.calls);
            }
        }
        lemma_after_hits(rose, data, t.calls, o);
        replays_come_in_time(
            rose,
            data,
            after_hits(rose, data, t.calls, o),
            data.len() as u64,
            o,
        );
    } else {
        let shorter = t.calls.drop_last();
        assert forall|i: int| 0 < i <= shorter.len() implies s(#[trigger] shorter.take(i)).ctl
            == ScanCtl::Continue by {
            assert(shorter.take(i) =~= t.calls.take(i));
        }
        lemma_after_hits(rose, data, shorter, o);
        replays_come_first(rose, data, after_hits(rose, data, shorter, o), t.calls.last(), o);
    }
}

/// A block without bytes is scanned without a report or an error.
pub proof fn empty_block_is_silent(
    rose: &RoseEngine,
    floating: &Floating,
    data: Seq<u8>,
    phase: int,
    log: Seq<Report>,
    r: Result<(), ScanError>,
)
    requires
        data.len() == 0,
        scan_outcome(rose, floating, data, phase, log, r),
    ensures
        log.len() == 0,
        r is Ok,
{
    let o = replies_of(log);
    let d = start(rose);
    assert(d.wf());
    assert(!any_due(d.slots, 0));
}

/// The reports of a scan of a short block do not depend on where the block
/// lies in memory.
pub proof fn short_scans_have_no_address(
    rose: &RoseEngine,
    floating: &Floating,
    data: Seq<u8>,
    one: int,
    other: int,
    log: Seq<Report>,
    r: Result<(), ScanError>,
)
    requires
        data.len() < FLOOD_MINIMUM_SIZE,
        scan_outcome(rose, floating, data, one, log, r),
        0 <= other < 8,
    ensures
        scan_outcome(rose, floating, data, other, log, r),
{
    let s = delay_answers(rose, data, replies_of(log));
    match floating {
        Floating::Fdr(table) => short_blocks_have_no_address(
            table.bytes@,
            data,
            0,
            one,
            other,
            s,
        ),
        Floating::Teddy(table) => {},
    }
}

/// A database that loads is one for block scans with floating literals alone,
/// its floating matcher is of the FDR family, and its table is one that an
/// engine accepts. Anything else is refused.
pub proof fn loaded_database_is_in_scope(serialized: Seq<u8>)
    requires
        load_fault(serialized) is None,
    ensures
        ({
            let bc = bytecode_of(serialized);
            let off = le32(bc, FMATCHER_OFFSET as int);
            let table = matcher_table_at(bc, off)->Ok_0;
            &&& db_fault(serialized) is None
            &&& bc.len() >= HEADER_SIZE
            &&& le32(bc, MODE as int) == HS_MODE_BLOCK
            &&& foreign_machinery(bc) is None
            &&& hwlm_type_at(bc, off) == Ok::<u8, RoseError>(HWLM_ENGINE_FDR)
            &&& matcher_table_at(bc, off) is Ok
            &&& fdr_fault(table) is None || teddy_fault(table) is None
        }),
{
}

/// A database that loads does not load after a change of any single byte of
/// its bytecode.
pub proof fn changed_database_does_not_load(serialized: Seq<u8>, k: int, b: u8)
    requires
        load_fault(serialized) is None,
        0 <= k < bytecode_of(serialized).len(),
        bytecode_of(serialized)[k] != b,
    ensures
        load_fault(serialized.update(BYTECODE_OFFSET + k, b)) matches Some(ScanError::Db(
            DbError::CrcMismatch { .. },
        )),
{
    changed_bytecode_is_refused(serialized, k, b);
}

proof fn lemma_play_caused(
    rose: &RoseEngine,
    data: Seq<u8>,
    d: Delay,
    prog_off: u32,
    end: u64,
    in_confirm: bool,
    o: Replies,
    o2: Replies,
)
    requires
        d.wf(),
    ensures
        ({
            let out = play(rose, data, d, prog_off, end, in_confirm, o);
            &&& out.0.wf()
            &&& d.log.is_prefix_of(out.0.log)
            &&& same_replies(o, o2, out.0.log.len()) ==> play(
                rose,
                data,
                d,
                prog_off,
                end,
                in_confirm,
                o2,
            ) == out
        }),
{
    let sc = scene(rose, data, end, in_confirm);
    let fx = effects(d.groups, d.memory, Seq::empty(), 0, d.log);
    let m = Machine { at: prog_off as int, work_done: false, fx };
    lemma_run_extends_log(sc, m, o, budget(sc.bc));
    lemma_pushed(d.slots, program(sc, prog_off, fx, o).0.delayed, end, d.last_end);
    if same_replies(o, o2, run(sc, m, o, budget(sc.bc)).0.log.len()) {
        program_is_caused(sc, m, o, o2, budget(sc.bc));
    }
}

proof fn lemma_flush_caused(
    rose: &RoseEngine,
    data: Seq<u8>,
    d: Delay,
    curr_end: u64,
    o: Replies,
    o2: Replies,
)
    requires
        d.wf(),
    ensures
        ({
            let out = flush(rose, data, d, curr_end, o);
            &&& out.0.wf()
            &&& d.log.is_prefix_of(out.0.log)
            &&& same_replies(o, o2, out.0.log.len()) ==> flush(rose, data, d, curr_end, o2) == out
        }),
    decreases
            if curr_end >= d.last_end {
                curr_end - d.last_end
            } else {
                0
            },
            at_last_end(d).len(),
{
    if any_due(d.slots, curr_end) {
        lemma_replay(rose, data, d, curr_end, o);
        let x = least(d.slots);
        let d1 = Delay { slots: d.slots.remove(x), last_end: x.0, ..d };
        match rose.delayed_program(x.1) {
            Err(e) => {},
            Ok(prog) => {
                lemma_play_caused(rose, data, d1, prog, x.0, false, o, o2);
                let (d2, reply) = play(rose, data, d1, prog, x.0, false, o);
                if reply.ctl == ScanCtl::Continue {
                    lemma_flush_caused(rose, data, d2, curr_end, o, o2);
                }
            },
        }
    } else {
        let d2 = flush(rose, data, d, curr_end, o).0;
        assert forall|x: Slot| #[trigger] d2.slots.contains(x) implies x.0 >= d2.last_end by {
            if x.0 < curr_end {
                assert(d.slots.contains(x) && x.0 <= curr_end);
            }
        }
    }
}

proof fn lemma_on_hit_caused(
    rose: &RoseEngine,
    data: Seq<u8>,
    d: Delay,
    call: Call,
    o: Replies,
    o2: Replies,
)
    requires
        d.wf(),
    ensures
        ({
            let out = on_hit(rose, data, d, call, o);
            &&& out.0.wf()
            &&& d.log.is_prefix_of(out.0.log)
            &&& same_replies(o, o2, out.0.log.len()) ==> on_hit(rose, data, d, call, o2) == out
        }),
{
    let end = (call.end + 1) as u64;
    lemma_flush_caused(rose, data, d, end, o, o2);
    let (d1, ctl) = flush(rose, data, d, end, o);
    lemma_play_caused(rose, data, d1, call.id, end, true, o, o2);
}

proof fn lemma_after_hits_caused(
    rose: &RoseEngine,
    data: Seq<u8>,
    calls: Seq<Call>,
    o: Replies,
    o2: Replies,
)
    ensures
        ({
            let d = after_hits(rose, data, calls, o);
            &&& d.wf()
            &&& same_replies(o, o2, d.log.len()) ==> after_hits(rose, data, calls, o2) == d
                && same_answers(
                delay_answers(rose, data, o),
                delay_answers(rose, data, o2),
                calls,
            )
        }),
    decreases calls.len(),
{
    if calls.len() > 0 {
        let shorter = calls.drop_last();
        let before = after_hits(rose, data, shorter, o);
        lemma_after_hits_caused(rose, data, shorter, o, o2);
        lemma_on_hit_caused(rose, data, before, calls.last(), o, o2);
        let d = after_hits(rose, data, calls, o);
        if same_replies(o, o2, d.log.len()) {
            let (s, s2) = (delay_answers(rose, data, o), delay_answers(rose, data, o2));
            assert(same_replies(o, o2, before.log.len()));
            assert forall|i: int| 0 < i <= calls.len() implies s(#[trigger] calls.take(i)) == s2(
                calls.take(i),
            ) by {
                if i < calls.len() {
                    assert(calls.take(i) =~= shorter.take(i));
                } else {
                    assert(calls.take(i) =~= calls);
                }
            }
        }
    }
}

proof fn lemma_scan_caused(
    rose: &RoseEngine,
    floating: &Floating,
    data: Seq<u8>,
    phase: int,
    o: Replies,
    o2: Replies,
)
    requires
        same_replies(o, o2, scan_end(rose, floating, data, phase, o).log.len()),
    ensures
        scan_end(rose, floating, data, phase, o2) == scan_end(rose, floating, data, phase, o),
{
    let (s, s2) = (delay_answers(rose, data, o), delay_answers(rose, data, o2));
    let t = floating.scan(data, phase, s);
    let d = after_hits(rose, data, t.calls, o);
    lemma_after_hits_caused(rose, data, t.calls, o, o2);
    lemma_flush_caused(rose, data, d, data.len() as u64, o, o2);
    assert(same_replies(o, o2, d.log.len()));
    match floating {
        Floating::Fdr(table) => fdr_is_caused(table.bytes@, data, 0, phase, s, s2),
        Floating::Teddy(table) => teddy_is_caused(table.bytes@, data, 0, s, s2),
    }
}

/// Two scans of one block at one address are the same, if the same answers
/// are given to their reports.
pub proof fn scans_are_alike(
    rose: &RoseEngine,
    floating: &Floating,
    data: Seq<u8>,
    phase: int,
    one: Seq<Report>,
    other: Seq<Report>,
    r: Result<(), ScanError>,
    r2: Result<(), ScanError>,
)
    requires
        scan_outcome(rose, floating, data, phase, one, r),
        scan_outcome(rose, floating, data, phase, other, r2),
        forall|i: int|
            #![trigger one[i], other[i]]
            0 <= i < one.len() && i < other.len() ==> one[i].ctl == other[i].ctl,
    ensures
        one == other,
        r == r2,
{
    let (o, o2) = (replies_of(one), replies_of(other));
    if one.len() <= other.len() {
        assert forall|i: int| 0 <= i < one.len() implies #[trigger] o(i) == o2(i) by {
            assert(one[i].ctl == other[i].ctl);
        }
        lemma_scan_caused(rose, floating, data, phase, o, o2);
    } else {
        assert forall|i: int| 0 <= i < other.len() implies #[trigger] o2(i) == o(i) by {
            assert(one[i].ctl == other[i].ctl);
        }
        lemma_scan_caused(rose, floating, data, phase, o2, o);
    }
}

} // verus!
