//! What a direct match comes to: its reports, what it squashes, and the order
//! in which what was put off is replayed.

use vstd::prelude::*;

use crate::bits::{bit8, lemma_bit8};
use crate::bytes::{fits, number};
use crate::hwlm::{Call, ScanCtl};
use crate::literal::branch::Scene;
use crate::literal::history::steps;
use crate::literal::instructions::{
    programs_end, report_is_made_once, signed, stands_at,
};
use crate::literal::op;
use crate::literal::program::{
    act, budget, effects, program, run, scene, step, Machine, Step,
};
use crate::literal::report::{Replies, Report};
use crate::rose::RoseEngine;
use crate::scan::delay::{flush, lemma_replay, on_hit, play, start, Delay};
use crate::scan::slots::{any_due, least, Slot};

verus! {

/// A scan begins with the groups that the header gives, and nothing else.
pub proof fn scan_begins_with_the_groups_of_the_header(rose: &RoseEngine, bc: Seq<u8>)
    requires
        rose.reads(bc),
    ensures
        start(rose).groups == number(bc, 240, 8),
        start(rose).slots == Set::<Slot>::empty(),
        start(rose).log.len() == 0,
        start(rose).err is None,
        start(rose).last_end == 0,
        forall|k: u32| !(#[trigger] start(rose).memory.handled.contains(k)),
        forall|k: u32| !(#[trigger] start(rose).memory.roles.contains(k)),
        forall|k: (u32, u64)| !(#[trigger] start(rose).memory.seen.contains(k)),
{
    crate::rose::header::header_fields_are_numbers(rose, bc);
}

/// What is replayed first: something that waits and is due, and that nothing
/// else that waits comes in front of, by offset or, at one offset, by index.
pub open spec fn comes_first(d: Delay, curr_end: u64, t: u64, x: u32) -> bool {
    &&& d.slots.contains((t, x))
    &&& t <= curr_end
    &&& forall|u: u64, y: u32| #[trigger]
        d.slots.contains((u, y)) && (u, y) != (t, x) ==> t < u || (t == u && x < y)
}

/// The state in which the first replay runs.
pub open spec fn at_replay(d: Delay, t: u64, x: u32) -> Delay {
    Delay { slots: d.slots.remove((t, x)), last_end: t, ..d }
}

/// Replays come in the order of their offsets, those at one offset in the
/// order of their indices. A replay runs the program of its literal at its
/// offset; a replay without a program, or one that is told to stop, ends the
/// replays. Where nothing is due, nothing happens.
pub proof fn replays_come_in_order(
    rose: &RoseEngine,
    data: Seq<u8>,
    d: Delay,
    curr_end: u64,
    o: Replies,
    t: u64,
    x: u32,
)
    requires
        d.wf(),
    ensures
        comes_first(d, curr_end, t, x) ==> match rose.delayed_program(x) {
            Err(e) => {
                &&& flush(rose, data, d, curr_end, o).1 == ScanCtl::Terminate
                &&& flush(rose, data, d, curr_end, o).0.err is Some
                &&& flush(rose, data, d, curr_end, o).0.log == d.log
            },
            Ok(prog) => {
                let (d2, reply) = play(rose, data, at_replay(d, t, x), prog, t, false, o);
                flush(rose, data, d, curr_end, o) == match reply.ctl {
                    ScanCtl::Terminate => (d2, ScanCtl::Terminate),
                    ScanCtl::Continue => flush(rose, data, d2, curr_end, o),
                }
            },
        },
        (forall|u: u64, y: u32| #[trigger] d.slots.contains((u, y)) ==> u > curr_end) ==> {
            let (d2, ctl) = flush(rose, data, d, curr_end, o);
            &&& ctl == ScanCtl::Continue
            &&& d2.slots == d.slots
            &&& d2.log == d.log
            &&& d2.groups == d.groups
            &&& d2.memory == d.memory
            &&& d2.err == d.err
        },
{
    if comes_first(d, curr_end, t, x) {
        assert(d.slots.contains((t, x)) && (t, x).0 <= curr_end);
        assert(any_due(d.slots, curr_end));
        lemma_replay(rose, data, d, curr_end, o);
        let y = least(d.slots);
        assert(d.slots.contains((y.0, y.1)));
        assert(y == (t, x));
    }
    if forall|u: u64, y: u32| #[trigger] d.slots.contains((u, y)) ==> u > curr_end {
        assert forall|z: Slot| #[trigger] d.slots.contains(z) implies z.0 > curr_end by {
            assert(d.slots.contains((z.0, z.1)));
        }
        assert(!any_due(d.slots, curr_end));
    }
}

/// A direct match hands over its report at the offset behind its last byte,
/// adjusted as the program says, if its program begins with a report. What is
/// due up to there has been replayed before.
pub proof fn match_is_reported_behind_its_last_byte(
    rose: &RoseEngine,
    data: Seq<u8>,
    d: Delay,
    call: Call,
    o: Replies,
)
    requires
        d.wf(),
        d.err is None,
        forall|u: u64, y: u32| #[trigger] d.slots.contains((u, y)) ==> u > call.end + 1,
        call.end < u64::MAX,
        fits(rose.bytes(), call.id as int, 17),
        rose.bytes()[call.id as int] == op::REPORT,
        rose.bytes()[call.id + 16] == op::END,
        0 <= call.end + 1 + signed(rose.bytes(), call.id + 8) <= u64::MAX,
    ensures
        ({
            let report = Report {
                id: number(rose.bytes(), call.id + 4, 4) as u32,
                to: (call.end + 1 + signed(rose.bytes(), call.id + 8)) as u64,
                ctl: o(d.log.len() as int),
            };
            let (d2, reply) = on_hit(rose, data, d, call, o);
            &&& d2.log == d.log.push(report)
            &&& d2.slots == d.slots
            &&& d2.groups == d.groups
            &&& d2.memory == d.memory
            &&& d2.err is None
            &&& reply.ctl == report.ctl
            &&& reply.squash == 0
        }),
{
    let end = (call.end + 1) as u64;
    let sc = scene(rose, data, end, true);
    replays_come_in_order(rose, data, d, end, o, 0, 0);
    let fx = effects(d.groups, d.memory, Seq::empty(), 0, d.log);
    let m = Machine { at: call.id as int, work_done: false, fx };
    report_is_made_once(sc, m, o);
    reveal_with_fuel(run, 3);
    if let Step::Go(m2) = step(sc, m, o) {
        programs_end(sc, m2, o);
        assert(stands_at(sc, m2, 0, 1));
    }
}

/// A program that ends in an error ends the scan, and the scan keeps the
/// error: no later match runs a program. What was reported before stays.
pub proof fn error_ends_the_scan(
    rose: &RoseEngine,
    data: Seq<u8>,
    d: Delay,
    prog_off: u32,
    end: u64,
    in_confirm: bool,
    o: Replies,
    call: Call,
)
    ensures
        ({
            let sc = scene(rose, data, end, in_confirm);
            let fx = effects(d.groups, d.memory, Seq::empty(), 0, d.log);
            let (d2, reply) = play(rose, data, d, prog_off, end, in_confirm, o);
            let (fx2, r) = program(sc, prog_off, fx, o);
            &&& r is Err ==> reply.ctl == ScanCtl::Terminate && d2.err == Some(r->Err_0)
            &&& r is Ok ==> reply.ctl == r->Ok_0 && d2.err == d.err
            &&& d2.log == fx2.log
        }),
        d.err is Some ==> {
            let (d2, reply) = on_hit(rose, data, d, call, o);
            d2 == d && reply.ctl == ScanCtl::Terminate
        },
        prog_off > rose.bytes().len() ==> play(rose, data, d, prog_off, end, in_confirm, o).0.err
            is Some,
{
}

/// Instruction `n` that a program executes names bucket `k` to be squashed.
pub open spec fn squashes_at(sc: Scene, m: Machine, o: Replies, n: nat, k: int) -> bool {
    match steps(sc, m, o, n) {
        Some(m2) => {
            &&& fits(sc.bc, m2.at, 2)
            &&& sc.bc[m2.at] == op::INCLUDED_JUMP
            &&& bit8(sc.bc[m2.at + 1], k)
        },
        None => false,
    }
}

proof fn lemma_step_squash(sc: Scene, m: Machine, o: Replies, k: int)
    requires
        0 <= k < 8,
    ensures
        ({
            let squash = match step(sc, m, o) {
                Step::Go(m2) => m2.fx.squash,
                Step::Stop(fx, r) => fx.squash,
            };
            bit8(squash, k) <==> bit8(m.fx.squash, k) || (sc.in_confirm && fits(sc.bc, m.at, 2)
                && sc.bc[m.at] == op::INCLUDED_JUMP && bit8(sc.bc[m.at + 1], k))
        }),
{
    reveal(act);
    lemma_bit8(m.fx.squash, sc.bc[m.at + 1], 0, k);
}

proof fn lemma_run_squash(sc: Scene, m: Machine, o: Replies, left: nat, k: int)
    requires
        0 <= k < 8,
    ensures
        bit8(run(sc, m, o, left).0.squash, k) <==> bit8(m.fx.squash, k) || (sc.in_confirm && exists
            |n: nat| n < left && #[trigger] squashes_at(sc, m, o, n, k)),
    decreases left,
{
    if left > 0 {
        lemma_step_squash(sc, m, o, k);
        assert(squashes_at(sc, m, o, 0, k) == (fits(sc.bc, m.at, 2) && sc.bc[m.at]
            == op::INCLUDED_JUMP && bit8(sc.bc[m.at + 1], k)));
        match step(sc, m, o) {
            Step::Go(m2) => {
                lemma_run_squash(sc, m2, o, (left - 1) as nat, k);
                if exists|n: nat| n < left && #[trigger] squashes_at(sc, m, o, n, k) {
                    let n = choose|n: nat| n < left && #[trigger] squashes_at(sc, m, o, n, k);
                    if n > 0 {
                        assert(squashes_at(sc, m2, o, (n - 1) as nat, k));
                    }
                }
                if exists|n: nat| n < left - 1 && #[trigger] squashes_at(sc, m2, o, n, k) {
                    let n = choose|n: nat| n < left - 1 && #[trigger] squashes_at(sc, m2, o, n, k);
                    assert(squashes_at(sc, m, o, n + 1, k));
                }
            },
            Step::Stop(fx, r) => {},
        }
    }
}

/// An engine is asked to squash bucket `k` exactly where its match ran a
/// program that ended without an error and jumped into the program of an
/// included literal that names bucket `k`. A replay squashes nothing.
pub proof fn buckets_are_squashed(
    rose: &RoseEngine,
    data: Seq<u8>,
    d: Delay,
    prog_off: u32,
    end: u64,
    in_confirm: bool,
    o: Replies,
    k: int,
)
    requires
        0 <= k < 8,
        prog_off <= rose.bytes().len(),
    ensures
        ({
            let sc = scene(rose, data, end, in_confirm);
            let fx = effects(d.groups, d.memory, Seq::empty(), 0, d.log);
            let m = Machine { at: prog_off as int, work_done: false, fx };
            bit8(play(rose, data, d, prog_off, end, in_confirm, o).1.squash, k) <==> {
                &&& program(sc, prog_off, fx, o).1 is Ok
                &&& in_confirm
                &&& exists|n: nat| n < budget(sc.bc) && #[trigger] squashes_at(sc, m, o, n, k)
            }
        }),
{
    let sc = scene(rose, data, end, in_confirm);
    let fx = effects(d.groups, d.memory, Seq::empty(), 0, d.log);
    let m = Machine { at: prog_off as int, work_done: false, fx };
    lemma_run_squash(sc, m, o, budget(sc.bc), k);
    lemma_bit8(0, 0, 0, k);
    crate::bits::lemma_plain_bits(k);
}

} // verus!
