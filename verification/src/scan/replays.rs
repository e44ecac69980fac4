//! What becomes of a delayed literal: it is replayed where its delay ends.

use vstd::prelude::*;

use crate::bytes::{fits, le32, number, words_are_numbers};
use crate::hwlm::{Call, ScanCtl};
use crate::literal::branch::Scene;
use crate::literal::history::steps;
use crate::literal::op;
use crate::literal::program::{
    act, budget, effects, program, run, scene, step, Machine, Step,
};
use crate::literal::report::Replies;
use crate::rose::RoseEngine;
use crate::scan::delay::{
    after_hits, at_last_end, delay_answers, flush, lemma_pushed, lemma_replay, play, pushed, start,
    Delay,
};
use crate::scan::slots::{any_due, least, Slot};

verus! {

/// The instruction at `at` asks for delayed literal `x` to be replayed `d`
/// bytes further on.
pub open spec fn asks_for(sc: Scene, at: int, d: int, x: int) -> bool {
    &&& fits(sc.bc, at, 8)
    &&& sc.bc[at] == op::PUSH_DELAYED
    &&& sc.bc[at + 1] == d
    &&& number(sc.bc, at + 4, 4) == x
}

/// Instruction `n` that a program executes asks for a delayed literal.
pub open spec fn asked_at(sc: Scene, m: Machine, o: Replies, n: nat, d: int, x: int) -> bool {
    match steps(sc, m, o, n) {
        Some(m2) => asks_for(sc, m2.at, d, x),
        None => false,
    }
}

/// A program asks for delayed literal `x` to be replayed `d` bytes further on.
pub open spec fn asks(sc: Scene, m: Machine, o: Replies, d: int, x: int) -> bool {
    exists|n: nat| n < budget(sc.bc) && #[trigger] asked_at(sc, m, o, n, d, x)
}

proof fn lemma_step_delays(sc: Scene, m: Machine, o: Replies, d: u8, x: u32)
    ensures
        ({
            let delayed = match step(sc, m, o) {
                Step::Go(m2) => m2.fx.delayed,
                Step::Stop(fx, r) => fx.delayed,
            };
            delayed.contains((d, x)) <==> m.fx.delayed.contains((d, x)) || asks_for(
                sc,
                m.at,
                d as int,
                x as int,
            )
        }),
{
    reveal(act);
    words_are_numbers(sc.bc, m.at + 4);
    let item = (sc.bc[m.at + 1], le32(sc.bc, m.at + 4));
    let before = m.fx.delayed;
    let longer = before.push(item);
    assert(longer.contains((d, x)) <==> before.contains((d, x)) || item == (d, x)) by {
        if before.contains((d, x)) {
            let i = before.index_of((d, x));
            assert(longer[i] == (d, x));
        }
        assert(longer[before.len() as int] == item);
        if longer.contains((d, x)) {
            let i = longer.index_of((d, x));
            if i < before.len() {
                assert(before[i] == (d, x));
            }
        }
    }
}

/// The literals that a program delays are those that it asked for.
proof fn lemma_run_delays(sc: Scene, m: Machine, o: Replies, left: nat, d: u8, x: u32)
    ensures
        run(sc, m, o, left).0.delayed.contains((d, x)) <==> m.fx.delayed.contains((d, x)) || exists
            |n: nat| n < left && #[trigger] asked_at(sc, m, o, n, d as int, x as int),
    decreases left,
{
    if left > 0 {
        lemma_step_delays(sc, m, o, d, x);
        assert(asked_at(sc, m, o, 0, d as int, x as int) == asks_for(
            sc,
            m.at,
            d as int,
            x as int,
        ));
        match step(sc, m, o) {
            Step::Go(m2) => {
                lemma_run_delays(sc, m2, o, (left - 1) as nat, d, x);
                if exists|n: nat| n < left && #[trigger] asked_at(sc, m, o, n, d as int, x as int) {
                    let n = choose|n: nat|
                        n < left && #[trigger] asked_at(sc, m, o, n, d as int, x as int);
                    if n > 0 {
                        assert(asked_at(sc, m2, o, (n - 1) as nat, d as int, x as int));
                    }
                }
                if exists|n: nat|
                    n < left - 1 && #[trigger] asked_at(sc, m2, o, n, d as int, x as int) {
                    let n = choose|n: nat|
                        n < left - 1 && #[trigger] asked_at(sc, m2, o, n, d as int, x as int);
                    assert(asked_at(sc, m, o, n + 1, d as int, x as int));
                }
            },
            Step::Stop(fx, r) => {},
        }
    }
}

proof fn lemma_pushed_holds(
    slots: Set<Slot>,
    delayed: Seq<(u8, u32)>,
    end: u64,
    last_end: u64,
    t: u64,
    x: u32,
)
    requires
        end + 255 <= u64::MAX,
    ensures
        pushed(slots, delayed, end, last_end).contains((t, x)) <==> slots.contains((t, x)) || (
        last_end < t && exists|d: u8| t == end + d && #[trigger] delayed.contains((d, x))),
    decreases delayed.len(),
{
    if delayed.len() > 0 {
        let shorter = delayed.drop_last();
        let item = delayed.last();
        lemma_pushed_holds(slots, shorter, end, last_end, t, x);
        assert(end.wrapping_add(item.0 as u64) == end + item.0);
        assert(delayed =~= shorter.push(item));
        assert forall|d: u8| #[trigger] delayed.contains((d, x)) == (shorter.contains((d, x)) || item
            == (d, x)) by {
            if shorter.contains((d, x)) {
                let i = shorter.index_of((d, x));
                assert(delayed[i] == (d, x));
            }
            assert(delayed[delayed.len() - 1] == item);
            if delayed.contains((d, x)) {
                let i = delayed.index_of((d, x));
                if i < shorter.len() {
                    assert(shorter[i] == (d, x));
                }
            }
        }
        if last_end < t && exists|d: u8| t == end + d && #[trigger] delayed.contains((d, x)) {
            let d = choose|d: u8| t == end + d && #[trigger] delayed.contains((d, x));
            if shorter.contains((d, x)) {
                assert(t == end + d && shorter.contains((d, x)));
            }
        }
        if last_end < t && exists|d: u8| t == end + d && #[trigger] shorter.contains((d, x)) {
            let d = choose|d: u8| t == end + d && #[trigger] shorter.contains((d, x));
            assert(delayed.contains((d, x)));
        }
        if item.1 == x && t == end + item.0 {
            assert(delayed.contains((item.0, x)));
        }
    } else {
        assert forall|d: u8| !#[trigger] delayed.contains((d, x)) by {}
    }
}

/// A program at offset `end` makes delayed literal `x` wait for offset
/// `end + d` exactly where it asks for it with delay `d`, unless that is not
/// behind what was replayed already. Nothing else begins to wait, and what
/// waited waits on. A program that ends in an error delays nothing.
pub proof fn delayed_literals_wait_for_their_offset(
    rose: &RoseEngine,
    data: Seq<u8>,
    d: Delay,
    prog_off: u32,
    end: u64,
    in_confirm: bool,
    o: Replies,
    t: u64,
    x: u32,
)
    requires
        end + 255 <= u64::MAX,
    ensures
        ({
            let sc = scene(rose, data, end, in_confirm);
            let fx = effects(d.groups, d.memory, Seq::empty(), 0, d.log);
            let m = Machine { at: prog_off as int, work_done: false, fx };
            let after = play(rose, data, d, prog_off, end, in_confirm, o).0;
            if program(sc, prog_off, fx, o).1 is Err {
                after.slots == d.slots
            } else {
                after.slots.contains((t, x)) <==> d.slots.contains((t, x)) || (d.last_end < t && asks(
                    sc,
                    m,
                    o,
                    t - end,
                    x as int,
                ))
            }
        }),
{
    let sc = scene(rose, data, end, in_confirm);
    let fx = effects(d.groups, d.memory, Seq::empty(), 0, d.log);
    let m = Machine { at: prog_off as int, work_done: false, fx };
    let (out, r) = program(sc, prog_off, fx, o);
    if r is Ok {
        lemma_pushed_holds(d.slots, out.delayed, end, d.last_end, t, x);
        assert(!fx.delayed.contains((0, x)));
        if exists|y: u8| t == end + y && #[trigger] out.delayed.contains((y, x)) {
            let y = choose|y: u8| t == end + y && #[trigger] out.delayed.contains((y, x));
            lemma_run_delays(sc, m, o, budget(sc.bc), y, x);
            let n = choose|n: nat|
                n < budget(sc.bc) && #[trigger] asked_at(sc, m, o, n, y as int, x as int);
            assert(asked_at(sc, m, o, n, t - end, x as int));
        }
        if asks(sc, m, o, t - end, x as int) {
            let n = choose|n: nat|
                n < budget(sc.bc) && #[trigger] asked_at(sc, m, o, n, t - end, x as int);
            let y = (t - end) as u8;
            assert(y == t - end);
            lemma_run_delays(sc, m, o, budget(sc.bc), y, x);
            assert(asked_at(sc, m, o, n, y as int, x as int));
            assert(t == end + y && out.delayed.contains((y, x)));
        }
    }
}

/// On its way to an offset, a scan comes to a state from which delayed literal
/// `x` is replayed at offset `t`.
pub open spec fn replays_at(
    rose: &RoseEngine,
    data: Seq<u8>,
    d: Delay,
    curr_end: u64,
    o: Replies,
    at: Delay,
    t: u64,
    x: u32,
) -> bool {
    &&& d.log.is_prefix_of(at.log)
    &&& at.last_end == t
    &&& rose.delayed_program(x) is Ok
    &&& flush(rose, data, d, curr_end, o) == flush(
        rose,
        data,
        play(rose, data, at, rose.delayed_program(x)->Ok_0, t, false, o).0,
        curr_end,
        o,
    )
}

proof fn lemma_play_keeps(
    rose: &RoseEngine,
    data: Seq<u8>,
    d: Delay,
    prog_off: u32,
    end: u64,
    in_confirm: bool,
    o: Replies,
)
    requires
        d.wf(),
    ensures
        ({
            let d2 = play(rose, data, d, prog_off, end, in_confirm, o).0;
            &&& d2.wf()
            &&& d2.last_end == d.last_end
            &&& d.slots.subset_of(d2.slots)
            &&& d.log.is_prefix_of(d2.log)
        }),
{
    let sc = scene(rose, data, end, in_confirm);
    let fx = effects(d.groups, d.memory, Seq::empty(), 0, d.log);
    let m = Machine { at: prog_off as int, work_done: false, fx };
    lemma_pushed(d.slots, program(sc, prog_off, fx, o).0.delayed, end, d.last_end);
    crate::literal::program::lemma_run_extends_log(sc, m, o, budget(sc.bc));
}

/// A literal that waits is replayed at exactly the offset that it waits for,
/// once a scan comes there and is not stopped. One that waits for a later
/// offset waits on.
pub proof fn waiting_literals_are_replayed(
    rose: &RoseEngine,
    data: Seq<u8>,
    d: Delay,
    curr_end: u64,
    o: Replies,
    t: u64,
    x: u32,
)
    requires
        d.wf(),
        d.slots.contains((t, x)),
        flush(rose, data, d, curr_end, o).1 == ScanCtl::Continue,
    ensures
        t <= curr_end ==> exists|at: Delay| #[trigger]
            replays_at(rose, data, d, curr_end, o, at, t, x),
        t > curr_end ==> flush(rose, data, d, curr_end, o).0.slots.contains((t, x)),
        flush(rose, data, d, curr_end, o).0.wf(),
        d.log.is_prefix_of(flush(rose, data, d, curr_end, o).0.log),
    decreases
            if curr_end >= d.last_end {
                curr_end - d.last_end
            } else {
                0
            },
            at_last_end(d).len(),
{
    if any_due(d.slots, curr_end) {
        lemma_replay(rose, data, d, curr_end, o);
        let y = least(d.slots);
        let d1 = Delay { slots: d.slots.remove(y), last_end: y.0, ..d };
        let prog = rose.delayed_program(y.1)->Ok_0;
        let d2 = play(rose, data, d1, prog, y.0, false, o).0;
        lemma_play_keeps(rose, data, d1, prog, y.0, false, o);
        if y == (t, x) {
            assert(replays_at(rose, data, d, curr_end, o, d1, t, x));
            lemma_flush_keeps(rose, data, d2, curr_end, o);
        } else {
            assert(d2.slots.contains((t, x)));
            waiting_literals_are_replayed(rose, data, d2, curr_end, o, t, x);
            if t <= curr_end {
                let at = choose|at: Delay| #[trigger]
                    replays_at(rose, data, d2, curr_end, o, at, t, x);
                assert(replays_at(rose, data, d, curr_end, o, at, t, x));
            }
        }
    } else {
        lemma_flush_keeps(rose, data, d, curr_end, o);
    }
}

proof fn lemma_flush_keeps(
    rose: &RoseEngine,
    data: Seq<u8>,
    d: Delay,
    curr_end: u64,
    o: Replies,
)
    requires
        d.wf(),
    ensures
        flush(rose, data, d, curr_end, o).0.wf(),
        d.log.is_prefix_of(flush(rose, data, d, curr_end, o).0.log),
    decreases
            if curr_end >= d.last_end {
                curr_end - d.last_end
            } else {
                0
            },
            at_last_end(d).len(),
{
    if any_due(d.slots, curr_end) {
        lemma_replay(rose, data, d, curr_end, o);
        let y = least(d.slots);
        let d1 = Delay { slots: d.slots.remove(y), last_end: y.0, ..d };
        if let Ok(prog) = rose.delayed_program(y.1) {
            let (d2, reply) = play(rose, data, d1, prog, y.0, false, o);
            lemma_play_keeps(rose, data, d1, prog, y.0, false, o);
            if reply.ctl == ScanCtl::Continue {
                lemma_flush_keeps(rose, data, d2, curr_end, o);
            }
        }
    } else {
        let d2 = flush(rose, data, d, curr_end, o).0;
        assert forall|x: Slot| #[trigger] d2.slots.contains(x) implies x.0 >= d2.last_end by {
            if x.0 < curr_end {
                assert(d.slots.contains(x) && x.0 <= curr_end);
            }
        }
    }
}

/// Where a scan looks for replays after its first `j` direct matches: up to
/// the end of the next one, or up to the end of the block.
pub open spec fn horizon(data: Seq<u8>, calls: Seq<Call>, j: int) -> u64 {
    if j < calls.len() {
        (calls[j].end + 1) as u64
    } else {
        data.len() as u64
    }
}

/// In a scan with these direct matches, delayed literal `x` is replayed at
/// offset `t`.
pub open spec fn replayed_in_scan(
    rose: &RoseEngine,
    data: Seq<u8>,
    calls: Seq<Call>,
    o: Replies,
    t: u64,
    x: u32,
) -> bool {
    exists|j: int, at: Delay|
        0 <= j <= calls.len() && #[trigger] replays_at(
            rose,
            data,
            after_hits(rose, data, calls.take(j), o),
            horizon(data, calls, j),
            o,
            at,
            t,
            x,
        )
}

/// The program of direct match `i` asks for delayed literal `x`, `delay` bytes
/// further on.
pub open spec fn hit_asks(
    rose: &RoseEngine,
    data: Seq<u8>,
    calls: Seq<Call>,
    o: Replies,
    i: int,
    delay: int,
    x: u32,
) -> bool {
    let end = (calls[i].end + 1) as u64;
    let d = flush(rose, data, after_hits(rose, data, calls.take(i), o), end, o).0;
    let fx = effects(d.groups, d.memory, Seq::empty(), 0, d.log);
    asks(
        scene(rose, data, end, true),
        Machine { at: calls[i].id as int, work_done: false, fx },
        o,
        delay,
        x as int,
    )
}

/// Direct matches come in order, inside the block, and none of them stops the
/// scan.
pub open spec fn goes_through(
    rose: &RoseEngine,
    data: Seq<u8>,
    calls: Seq<Call>,
    o: Replies,
) -> bool {
    &&& data.len() + 255 <= u64::MAX
    &&& forall|i: int| 0 <= i < calls.len() ==> (#[trigger] calls[i]).end < data.len()
    &&& forall|i: int, j: int|
        #![trigger calls[i], calls[j]]
        0 <= i <= j < calls.len() ==> calls[i].end <= calls[j].end
    &&& forall|i: int|
        0 < i <= calls.len() ==> delay_answers(rose, data, o)(#[trigger] calls.take(i)).ctl
            == ScanCtl::Continue
    &&& flush(
        rose,
        data,
        after_hits(rose, data, calls, o),
        data.len() as u64,
        o,
    ).1 == ScanCtl::Continue
}

/// The last offset that a look for replays reaches.
proof fn lemma_flush_reaches(
    rose: &RoseEngine,
    data: Seq<u8>,
    d: Delay,
    curr_end: u64,
    o: Replies,
)
    requires
        d.wf(),
        d.last_end <= curr_end,
        flush(rose, data, d, curr_end, o).1 == ScanCtl::Continue,
    ensures
        flush(rose, data, d, curr_end, o).0.last_end == curr_end,
    decreases curr_end - d.last_end, at_last_end(d).len(),
{
    if any_due(d.slots, curr_end) {
        lemma_replay(rose, data, d, curr_end, o);
        let y = least(d.slots);
        let d1 = Delay { slots: d.slots.remove(y), last_end: y.0, ..d };
        let prog = rose.delayed_program(y.1)->Ok_0;
        let d2 = play(rose, data, d1, prog, y.0, false, o).0;
        lemma_play_keeps(rose, data, d1, prog, y.0, false, o);
        lemma_flush_reaches(rose, data, d2, curr_end, o);
    }
}

/// The scan after some direct matches, and the steps of the next one.
proof fn lemma_next_hit(rose: &RoseEngine, data: Seq<u8>, calls: Seq<Call>, o: Replies, j: int)
    requires
        goes_through(rose, data, calls, o),
        0 <= j <= calls.len(),
    ensures
        ({
            let d = after_hits(rose, data, calls.take(j), o);
            let end = (calls[j].end + 1) as u64;
            &&& d.wf()
            &&& d.last_end <= if j == 0 {
                0
            } else {
                calls[j - 1].end + 1
            }
            &&& j < calls.len() ==> {
                let d1 = flush(rose, data, d, end, o).0;
                let (d2, reply) = play(rose, data, d1, calls[j].id, end, true, o);
                &&& flush(rose, data, d, end, o).1 == ScanCtl::Continue
                &&& d1.wf()
                &&& d1.last_end == end
                &&& reply.ctl == ScanCtl::Continue
                &&& after_hits(rose, data, calls.take(j + 1), o) == d2
            }
        }),
    decreases j,
{
    let d = after_hits(rose, data, calls.take(j), o);
    if j > 0 {
        lemma_next_hit(rose, data, calls, o, j - 1);
        let end = (calls[j - 1].end + 1) as u64;
        let d0 = after_hits(rose, data, calls.take(j - 1), o);
        let d1 = flush(rose, data, d0, end, o).0;
        lemma_play_keeps(rose, data, d1, calls[j - 1].id, end, true, o);
    } else {
        assert(calls.take(0) =~= Seq::empty());
        assert(d == start(rose));
    }
    if j < calls.len() {
        let longer = calls.take(j + 1);
        let end = (calls[j].end + 1) as u64;
        assert(longer.drop_last() =~= calls.take(j));
        assert(longer.last() == calls[j]);
        assert(delay_answers(rose, data, o)(longer).ctl == ScanCtl::Continue);
        if j > 0 {
            assert(calls[j - 1].end <= calls[j].end);
        }
        lemma_flush_keeps(rose, data, d, end, o);
        lemma_flush_reaches(rose, data, d, end, o);
    }
}

/// What waits after some direct matches is replayed in the rest of the scan.
proof fn lemma_waits_on(
    rose: &RoseEngine,
    data: Seq<u8>,
    calls: Seq<Call>,
    o: Replies,
    j: int,
    t: u64,
    x: u32,
)
    requires
        goes_through(rose, data, calls, o),
        0 <= j <= calls.len(),
        after_hits(rose, data, calls.take(j), o).slots.contains((t, x)),
        t <= data.len(),
    ensures
        replayed_in_scan(rose, data, calls, o, t, x),
    decreases calls.len() - j,
{
    let d = after_hits(rose, data, calls.take(j), o);
    let to = horizon(data, calls, j);
    lemma_next_hit(rose, data, calls, o, j);
    if j == calls.len() {
        assert(calls.take(j) =~= calls);
    }
    waiting_literals_are_replayed(rose, data, d, to, o, t, x);
    if t <= to {
        let at = choose|at: Delay| #[trigger] replays_at(rose, data, d, to, o, at, t, x);
        assert(replays_at(
            rose,
            data,
            after_hits(rose, data, calls.take(j), o),
            horizon(data, calls, j),
            o,
            at,
            t,
            x,
        ));
    } else {
        let d1 = flush(rose, data, d, to, o).0;
        lemma_play_keeps(rose, data, d1, calls[j].id, to, true, o);
        lemma_waits_on(rose, data, calls, o, j + 1, t, x);
    }
}

/// A direct match that ends at offset `e` and whose program asks for a delayed
/// literal with delay `delay` makes the scan replay it at exactly offset
/// `e + delay`, unless that is behind the block.
pub proof fn delayed_literals_are_replayed(
    rose: &RoseEngine,
    data: Seq<u8>,
    calls: Seq<Call>,
    o: Replies,
    i: int,
    delay: int,
    x: u32,
)
    requires
        goes_through(rose, data, calls, o),
        0 <= i < calls.len(),
        0 < delay,
        hit_asks(rose, data, calls, o, i, delay, x),
        calls[i].end + 1 + delay <= data.len(),
    ensures
        replayed_in_scan(rose, data, calls, o, (calls[i].end + 1 + delay) as u64, x),
{
    let end = (calls[i].end + 1) as u64;
    let t = (end + delay) as u64;
    let d = after_hits(rose, data, calls.take(i), o);
    let d1 = flush(rose, data, d, end, o).0;
    lemma_next_hit(rose, data, calls, o, i);
    assert(calls[i].end < data.len());
    delayed_literals_wait_for_their_offset(rose, data, d1, calls[i].id, end, true, o, t, x);
    let sc = scene(rose, data, end, true);
    let fx = effects(d1.groups, d1.memory, Seq::empty(), 0, d1.log);
    assert(program(sc, calls[i].id, fx, o).1 is Ok);
    lemma_waits_on(rose, data, calls, o, i + 1, t, x);
}

} // verus!
