//! What holds of every literal program.

use vstd::prelude::*;

use crate::bytes::{fits, le32};
use crate::hwlm::ScanCtl;
use crate::literal::branch::{is_test, signed32, target, Branch, Scene};
use crate::literal::dedupe::Memory;
use crate::literal::op;
use crate::literal::program::{
    act, budget, lemma_run_extends_log, program, report_offset, run, step, Effects, Machine, Step,
};
use crate::literal::report::{replies_of, Replies, Report};
use crate::literal::InterpError;

verus! {

/// No report was answered with the wish to end the scan.
pub open spec fn willing(log: Seq<Report>) -> bool {
    forall|i: int| 0 <= i < log.len() ==> (#[trigger] log[i]).ctl == ScanCtl::Continue
}

/// At most the last report was.
pub open spec fn heeded(log: Seq<Report>) -> bool {
    forall|i: int| 0 <= i < log.len() - 1 ==> (#[trigger] log[i]).ctl == ScanCtl::Continue
}

/// A report that ends the scan is the last one that a program makes, and the
/// program says so.
pub proof fn program_heeds_the_answer(sc: Scene, m: Machine, o: Replies, budget: nat)
    requires
        willing(m.fx.log),
    ensures
        heeded(run(sc, m, o, budget).0.log),
        run(sc, m, o, budget).1 != Ok::<ScanCtl, InterpError>(ScanCtl::Terminate) ==> willing(
            run(sc, m, o, budget).0.log,
        ),
    decreases budget,
{
    reveal(act);
    if budget > 0 {
        match step(sc, m, o) {
            Step::Go(m2) => {
                assert(willing(m2.fx.log));
                program_heeds_the_answer(sc, m2, o, (budget - 1) as nat);
            },
            Step::Stop(fx, r) => {},
        }
    }
}

/// Everything that one memory holds, another holds as well: pairs that were
/// reported, roles that were handled, and roles that are on.
pub open spec fn remembers(later: Memory, earlier: Memory) -> bool {
    &&& earlier.seen.subset_of(later.seen)
    &&& earlier.handled.subset_of(later.handled)
    &&& earlier.roles.subset_of(later.roles)
}

/// A program forgets nothing.
pub proof fn program_forgets_nothing(sc: Scene, m: Machine, o: Replies, budget: nat)
    ensures
        remembers(run(sc, m, o, budget).0.memory, m.fx.memory),
    decreases budget,
{
    reveal(act);
    if budget > 0 {
        match step(sc, m, o) {
            Step::Go(m2) => {
                assert(remembers(m2.fx.memory, m.fx.memory));
                program_forgets_nothing(sc, m2, o, (budget - 1) as nat);
            },
            Step::Stop(fx, r) => {},
        }
    }
}

/// The pair that a deduplicated report goes by.
pub open spec fn dedupe_pair(sc: Scene, at: int) -> (u32, u64) {
    (le32(sc.bc, at + 4), report_offset(sc.end, signed32(sc.bc, at + 12)))
}

/// The step of a deduplicated report. If its pair was reported before, it
/// changes nothing, and the program goes on at the jump. Otherwise it is
/// reported once, and the pair is remembered.
pub open spec fn dedupe_step(sc: Scene, m: Machine, o: Replies, again: bool) -> Step {
    let len = sc.bc.len();
    let pair = dedupe_pair(sc, m.at);
    if again {
        Step::Go(
            Machine {
                at: target(len, m.at, Branch::Jump(le32(sc.bc, m.at + 16))),
                work_done: true,
                ..m
            },
        )
    } else {
        let ctl = o(m.fx.log.len() as int);
        let fx = Effects {
            memory: Memory { seen: m.fx.memory.seen.insert(pair), ..m.fx.memory },
            log: m.fx.log.push(Report { id: le32(sc.bc, m.at + 8), to: pair.1, ctl }),
            ..m.fx
        };
        if ctl == ScanCtl::Terminate {
            Step::Stop(fx, Ok(ScanCtl::Terminate))
        } else {
            Step::Go(
                Machine { at: target(len, m.at, Branch::Next(24)), work_done: true, fx },
            )
        }
    }
}

/// A deduplicated report is made once for each pair of key and offset: the
/// first time it is made and the pair is remembered, and while the pair is
/// remembered it is not made again.
pub proof fn pair_is_reported_once(sc: Scene, m: Machine, o: Replies)
    requires
        fits(sc.bc, m.at, 20),
        sc.bc[m.at] == op::DEDUPE_AND_REPORT,
    ensures
        step(sc, m, o) == dedupe_step(
            sc,
            m,
            o,
            m.fx.memory.seen.contains(dedupe_pair(sc, m.at)),
        ),
{
    reveal(act);
    let pair = dedupe_pair(sc, m.at);
    if m.fx.memory.seen.contains(pair) {
        assert(m.fx.memory.seen.insert(pair) =~= m.fx.memory.seen);
    }
}

/// A test changes nothing but the place at which the program goes on.
pub proof fn tests_change_nothing(sc: Scene, m: Machine, o: Replies)
    requires
        0 <= m.at < sc.bc.len(),
        is_test(sc.bc[m.at]),
    ensures
        match step(sc, m, o) {
            Step::Go(m2) => m2.fx == m.fx && m2.work_done == m.work_done,
            Step::Stop(fx, r) => fx == m.fx && r is Err,
        },
{
}

/// Two ways to answer give the same answers to the first `n` reports.
pub open spec fn same_replies(o: Replies, o2: Replies, n: nat) -> bool {
    forall|i: int| 0 <= i < n ==> #[trigger] o(i) == o2(i)
}

/// What a program does depends on nothing but its surroundings and the
/// answers that it got.
pub proof fn program_is_caused(sc: Scene, m: Machine, o: Replies, o2: Replies, budget: nat)
    requires
        same_replies(o, o2, run(sc, m, o, budget).0.log.len()),
    ensures
        run(sc, m, o2, budget) == run(sc, m, o, budget),
    decreases budget,
{
    if budget > 0 {
        reveal(act);
        lemma_run_extends_log(sc, m, o, budget);
        match step(sc, m, o) {
            Step::Go(m2) => {
                lemma_run_extends_log(sc, m2, o, (budget - 1) as nat);
                program_is_caused(sc, m2, o, o2, (budget - 1) as nat);
            },
            Step::Stop(fx, r) => {},
        }
    }
}

/// The suffix trigger of the instruction at which a program stands: queue,
/// event, location.
pub open spec fn trigger(sc: Scene, at: int) -> Seq<(u32, u32, u64)> {
    if fits(sc.bc, at, 12) && sc.bc[at] == op::TRIGGER_SUFFIX {
        seq![(le32(sc.bc, at + 4), le32(sc.bc, at + 8), sc.end)]
    } else {
        Seq::empty()
    }
}

/// The suffix triggers that a program executes, in order.
pub open spec fn triggers(sc: Scene, m: Machine, o: Replies, budget: nat) -> Seq<(u32, u32, u64)>
    decreases budget,
{
    if budget == 0 {
        Seq::empty()
    } else {
        trigger(sc, m.at) + match step(sc, m, o) {
            Step::Go(m2) => triggers(sc, m2, o, (budget - 1) as nat),
            Step::Stop(fx, r) => Seq::empty(),
        }
    }
}

/// A program adds to the suffix triggers exactly those that it executes, in
/// their order.
pub proof fn program_keeps_its_triggers(sc: Scene, m: Machine, o: Replies, budget: nat)
    ensures
        run(sc, m, o, budget).0.memory.suffix == m.fx.memory.suffix + triggers(sc, m, o, budget),
    decreases budget,
{
    let before = m.fx.memory.suffix;
    if budget > 0 {
        reveal(act);
        let own = trigger(sc, m.at);
        match step(sc, m, o) {
            Step::Go(m2) => {
                assert(m2.fx.memory.suffix =~= before + own);
                program_keeps_its_triggers(sc, m2, o, (budget - 1) as nat);
                let rest = triggers(sc, m2, o, (budget - 1) as nat);
                assert(before + own + rest =~= before + (own + rest));
            },
            Step::Stop(fx, r) => {
                assert(fx.memory.suffix =~= before + own);
                assert(own + Seq::<(u32, u32, u64)>::empty() =~= own);
            },
        }
    } else {
        assert(before + Seq::<(u32, u32, u64)>::empty() =~= before);
    }
}

/// Two logs have the same answers as far as both go.
pub open spec fn replied_alike(one: Seq<Report>, other: Seq<Report>) -> bool {
    forall|i: int|
        #![trigger one[i], other[i]]
        0 <= i < one.len() && i < other.len() ==> one[i].ctl == other[i].ctl
}

/// Two runs of one program from one state are the same, if the same answers
/// are given to their reports.
pub proof fn programs_are_alike(
    sc: Scene,
    prog_off: u32,
    fx: Effects,
    one: (Effects, Result<ScanCtl, InterpError>),
    other: (Effects, Result<ScanCtl, InterpError>),
)
    requires
        program(sc, prog_off, fx, replies_of(one.0.log)) == one,
        program(sc, prog_off, fx, replies_of(other.0.log)) == other,
        replied_alike(one.0.log, other.0.log),
    ensures
        one == other,
{
    if prog_off <= sc.bc.len() {
        let m = Machine { at: prog_off as int, work_done: false, fx };
        let (o, o2) = (replies_of(one.0.log), replies_of(other.0.log));
        if one.0.log.len() <= other.0.log.len() {
            program_is_caused(sc, m, o, o2, budget(sc.bc));
        } else {
            program_is_caused(sc, m, o2, o, budget(sc.bc));
        }
    }
}

/// Up to `n` instructions of a program each lead forward, or end it.
pub open spec fn leads_forward(sc: Scene, m: Machine, o: Replies, n: nat) -> bool
    decreases n,
{
    n == 0 || match step(sc, m, o) {
        Step::Go(m2) => m2.at > m.at && leads_forward(sc, m2, o, (n - 1) as nat),
        Step::Stop(fx, r) => true,
    }
}

proof fn lemma_enough(sc: Scene, m: Machine, o: Replies, n: nat, more: nat)
    requires
        leads_forward(sc, m, o, n),
        m.at + n >= sc.bc.len() + 1,
        n > 0,
        n <= more,
    ensures
        run(sc, m, o, n) == run(sc, m, o, more),
    decreases n,
{
    if let Step::Go(m2) = step(sc, m, o) {
        lemma_enough(sc, m2, o, (n - 1) as nat, (more - 1) as nat);
    }
}

/// A program that only leads forward is not cut off: a larger budget of
/// instructions would change nothing.
pub proof fn budget_is_enough(sc: Scene, prog_off: u32, fx: Effects, o: Replies, more: nat)
    requires
        prog_off <= sc.bc.len(),
        leads_forward(
            sc,
            Machine { at: prog_off as int, work_done: false, fx },
            o,
            budget(sc.bc),
        ),
        budget(sc.bc) <= more,
    ensures
        program(sc, prog_off, fx, o) == run(
            sc,
            Machine { at: prog_off as int, work_done: false, fx },
            o,
            more,
        ),
{
    lemma_enough(
        sc,
        Machine { at: prog_off as int, work_done: false, fx },
        o,
        budget(sc.bc),
        more,
    );
}

} // verus!
