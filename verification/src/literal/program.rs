//! Running a literal program.
//!
//! Programs come out of the bytecode, which is not trusted. An operand behind
//! its end, an instruction that a literal scan does not have and a program
//! that does not stop are errors.

use vstd::prelude::*;
use vstd::slice::slice_subrange;

use crate::bytes::{fits, le32, le64, read_u32, read_u64};
use crate::hwlm::ScanCtl;
use crate::literal::branch::{
    bad_offset, has_room, is_test, is_test_code, leftfix, nfa_refusal, run_test, signed32, target,
    verdict, Branch, Scene,
};
use crate::literal::dedupe::{locations, without_queue, Dedupe, Memory};
use crate::literal::op;
use crate::literal::op::{aligned, roundup};
use crate::literal::report::{
    lemma_replies_prefix, lemma_replies_push, replies_agree, replies_of, reported, FnReports,
    Replies, Report, ReportSink,
};
use crate::literal::InterpError;
use crate::nfa::{nfa_out_of_scope, Nfa};
use crate::rose::RoseEngine;

verus! {

/// What a program leaves behind.
#[verifier::ext_equal]
pub struct Effects {
    /// Groups that are switched on.
    pub groups: u64,
    pub memory: Memory,
    /// Delayed literals to replay: delay in bytes, index.
    pub delayed: Seq<(u8, u32)>,
    /// Buckets to squash at the current position.
    pub squash: u8,
    /// Every report so far.
    pub log: Seq<Report>,
}

/// A program in the middle of its run.
#[verifier::ext_equal]
pub struct Machine {
    /// Where the next instruction is.
    pub at: int,
    /// Whether the program reported or triggered anything.
    pub work_done: bool,
    pub fx: Effects,
}

/// How one instruction ends: the program goes on, or stops with a result.
pub enum Step {
    Go(Machine),
    Stop(Effects, Result<ScanCtl, InterpError>),
}

pub open spec fn overrun(m: Machine) -> Step {
    Step::Stop(m.fx, Err(InterpError::ProgramOverrun))
}

/// The program goes on at a branch.
pub open spec fn follow(sc: Scene, m: Machine, branch: Branch) -> Step {
    Step::Go(Machine { at: target(sc.bc.len(), m.at, branch), ..m })
}

/// The program goes on behind an instruction of `size` bytes.
pub open spec fn past(sc: Scene, m: Machine, size: int) -> Step {
    follow(sc, m, Branch::Next(aligned(size) as usize))
}

/// The end offset of a report: wraps around like a 64-bit number.
pub open spec fn report_offset(end: u64, adjust: i32) -> u64 {
    ((end + adjust) % 0x1_0000_0000_0000_0000) as u64
}

/// The state after a report, and the answer to it.
pub open spec fn after_report(m: Machine, id: u32, to: u64, o: Replies) -> Machine {
    let ctl = o(m.fx.log.len() as int);
    Machine { fx: Effects { log: m.fx.log.push(Report { id, to, ctl }), ..m.fx }, ..m }
}

pub open spec fn do_report(sc: Scene, m: Machine, o: Replies) -> Step {
    let ctl = o(m.fx.log.len() as int);
    let to = report_offset(sc.end, signed32(sc.bc, m.at + 8));
    let m2 = after_report(Machine { work_done: true, ..m }, le32(sc.bc, m.at + 4), to, o);
    if ctl == ScanCtl::Terminate {
        Step::Stop(m2.fx, Ok(ScanCtl::Terminate))
    } else {
        past(sc, m2, 12)
    }
}

pub open spec fn do_final_report(sc: Scene, m: Machine, o: Replies) -> Step {
    let to = report_offset(sc.end, signed32(sc.bc, m.at + 8));
    Step::Stop(
        after_report(m, le32(sc.bc, m.at + 4), to, o).fx,
        Ok(o(m.fx.log.len() as int)),
    )
}

pub open spec fn do_dedupe_and_report(sc: Scene, m: Machine, o: Replies) -> Step {
    let ctl = o(m.fx.log.len() as int);
    let to = report_offset(sc.end, signed32(sc.bc, m.at + 12));
    let key = (le32(sc.bc, m.at + 4), to);
    let memory = Memory { seen: m.fx.memory.seen.insert(key), ..m.fx.memory };
    let m1 = Machine { work_done: true, fx: Effects { memory, ..m.fx }, ..m };
    if m.fx.memory.seen.contains(key) {
        follow(sc, m1, Branch::Jump(le32(sc.bc, m.at + 16)))
    } else {
        let m2 = after_report(m1, le32(sc.bc, m.at + 8), to, o);
        if ctl == ScanCtl::Terminate {
            Step::Stop(m2.fx, Ok(ScanCtl::Terminate))
        } else {
            past(sc, m2, 20)
        }
    }
}

pub open spec fn do_included_jump(sc: Scene, m: Machine) -> Step {
    if !sc.in_confirm {
        past(sc, m, 8)
    } else if !fits(sc.bc, m.at, 2) {
        overrun(m)
    } else {
        let m2 = Machine {
            fx: Effects { squash: m.fx.squash | sc.bc[m.at + 1], ..m.fx },
            ..m
        };
        let child = le32(sc.bc, m.at + 4);
        if !fits(sc.bc, m.at, 8) {
            overrun(m2)
        } else if child > sc.bc.len() {
            Step::Stop(m2.fx, Err(bad_offset(sc, child)))
        } else {
            Step::Go(Machine { at: child as int, ..m2 })
        }
    }
}

pub open spec fn do_check_infix(sc: Scene, m: Machine) -> Step {
    let queue = le32(sc.bc, m.at + 4);
    let lag = le32(sc.bc, m.at + 8);
    if lag <= sc.end && sc.end - lag <= sc.buf.len() && locations(
        m.fx.memory.infix,
        queue,
    ).len() > 0 {
        Step::Stop(m.fx, Err(nfa_refusal(sc, queue)))
    } else {
        follow(sc, m, Branch::Jump(le32(sc.bc, m.at + 16)))
    }
}

/// With the memory replaced.
pub open spec fn remembering(m: Machine, memory: Memory) -> Machine {
    Machine { fx: Effects { memory, ..m.fx }, ..m }
}

/// An instruction that does more than test.
#[verifier::opaque]
pub open spec fn act(sc: Scene, code: u8, m: Machine, o: Replies) -> Step {
    let bc = sc.bc;
    let at = m.at;
    let mem = m.fx.memory;
    if code == op::END {
        Step::Stop(m.fx, Ok(ScanCtl::Continue))
    } else if code == op::CHECK_GROUPS {
        if !fits(bc, at, 16) {
            overrun(m)
        } else if le64(bc, at + 8) & m.fx.groups == 0 {
            Step::Stop(m.fx, Ok(ScanCtl::Continue))
        } else {
            past(sc, m, 16)
        }
    } else if code == op::CHECK_NOT_HANDLED {
        if !fits(bc, at, 12) {
            overrun(m)
        } else {
            let key = le32(bc, at + 4);
            let m2 = remembering(m, Memory { handled: mem.handled.insert(key), ..mem });
            if mem.handled.contains(key) {
                follow(sc, m2, Branch::Jump(le32(bc, at + 8)))
            } else {
                past(sc, m2, 12)
            }
        }
    } else if code == op::CHECK_INFIX {
        if !fits(bc, at, 20) {
            overrun(m)
        } else {
            do_check_infix(sc, m)
        }
    } else if code == op::REPORT {
        if !fits(bc, at, 12) {
            overrun(m)
        } else {
            do_report(sc, m, o)
        }
    } else if code == op::FINAL_REPORT {
        if !fits(bc, at, 12) {
            overrun(m)
        } else {
            do_final_report(sc, m, o)
        }
    } else if code == op::DEDUPE_AND_REPORT {
        if !fits(bc, at, 20) {
            overrun(m)
        } else {
            do_dedupe_and_report(sc, m, o)
        }
    } else if code == op::INCLUDED_JUMP {
        do_included_jump(sc, m)
    } else if code == op::PUSH_DELAYED {
        if !fits(bc, at, 8) {
            overrun(m)
        } else {
            let delayed = m.fx.delayed.push((bc[at + 1], le32(bc, at + 4)));
            past(sc, Machine { fx: Effects { delayed, ..m.fx }, ..m }, 8)
        }
    } else if code == op::TRIGGER_SUFFIX {
        if !fits(bc, at, 12) {
            overrun(m)
        } else {
            let suffix = mem.suffix.push((le32(bc, at + 4), le32(bc, at + 8), sc.end));
            past(
                sc,
                remembering(Machine { work_done: true, ..m }, Memory { suffix, ..mem }),
                12,
            )
        }
    } else if code == op::TRIGGER_INFIX {
        if !fits(bc, at, 13) {
            overrun(m)
        } else {
            let queue = le32(bc, at + 4);
            let kept = if bc[at + 12] != 0 {
                without_queue(mem.infix, queue)
            } else {
                mem.infix
            };
            let infix = kept.push((queue, sc.end));
            past(
                sc,
                remembering(Machine { work_done: true, ..m }, Memory { infix, ..mem }),
                16,
            )
        }
    } else if code == op::SET_STATE {
        if !fits(bc, at, 8) {
            overrun(m)
        } else {
            let roles = mem.roles.insert(le32(bc, at + 4));
            past(sc, remembering(Machine { work_done: true, ..m }, Memory { roles, ..mem }), 8)
        }
    } else if code == op::CHECK_STATE {
        if !fits(bc, at, 12) {
            overrun(m)
        } else if mem.roles.contains(le32(bc, at + 4)) {
            past(sc, m, 12)
        } else {
            follow(sc, m, Branch::Jump(le32(bc, at + 8)))
        }
    } else if code == op::SET_GROUPS {
        if !fits(bc, at, 16) {
            overrun(m)
        } else {
            let groups = m.fx.groups | le64(bc, at + 8);
            past(sc, Machine { fx: Effects { groups, ..m.fx }, ..m }, 16)
        }
    } else if code == op::SQUASH_GROUPS {
        if !fits(bc, at, 16) {
            overrun(m)
        } else {
            let groups = if m.work_done {
                m.fx.groups & le64(bc, at + 8)
            } else {
                m.fx.groups
            };
            past(sc, Machine { fx: Effects { groups, ..m.fx }, ..m }, 16)
        }
    } else if code == op::CATCH_UP || code == op::CATCH_UP_MPV {
        past(sc, m, 1)
    } else {
        Step::Stop(m.fx, Err(InterpError::UnsupportedOpcode(code)))
    }
}

/// One instruction.
pub open spec fn step(sc: Scene, m: Machine, o: Replies) -> Step {
    if !(0 <= m.at < sc.bc.len()) {
        overrun(m)
    } else {
        let code = sc.bc[m.at];
        if is_test(code) {
            match verdict(sc, code, m.at) {
                Ok(branch) => follow(sc, m, branch),
                Err(e) => Step::Stop(m.fx, Err(e)),
            }
        } else {
            act(sc, code, m, o)
        }
    }
}

/// At most `budget` instructions.
pub open spec fn run(sc: Scene, m: Machine, o: Replies, budget: nat) -> (
    Effects,
    Result<ScanCtl, InterpError>,
)
    decreases budget,
{
    if budget == 0 {
        (m.fx, Err(InterpError::ProgramOverrun))
    } else {
        match step(sc, m, o) {
            Step::Go(m2) => run(sc, m2, o, (budget - 1) as nat),
            Step::Stop(fx, r) => (fx, r),
        }
    }
}

/// A program that has not stopped after this many instructions never does:
/// each takes at least [`op::MIN_ALIGN`] bytes unless it jumps.
pub open spec fn budget(bc: Seq<u8>) -> nat {
    bc.len() + op::MIN_ALIGN as nat
}

/// The program at `prog_off`, from start to end.
pub open spec fn program(sc: Scene, prog_off: u32, fx: Effects, o: Replies) -> (
    Effects,
    Result<ScanCtl, InterpError>,
) {
    if prog_off > sc.bc.len() {
        (fx, Err(bad_offset(sc, prog_off)))
    } else {
        run(sc, Machine { at: prog_off as int, work_done: false, fx }, o, budget(sc.bc))
    }
}

/// What every way to answer knows of a log that grew by one report.
proof fn lemma_log_push(before: Seq<Report>, after: Seq<Report>)
    requires
        exists|report: Report| after == #[trigger] before.push(report),
    ensures
        before.is_prefix_of(after),
        forall|o: Replies| #[trigger]
            replies_agree(o, after) ==> replies_agree(o, before) && o(before.len() as int)
                == after.last().ctl,
{
    let report = choose|report: Report| after == #[trigger] before.push(report);
    assert forall|o: Replies| #[trigger] replies_agree(o, after) implies replies_agree(o, before)
        && o(before.len() as int) == after.last().ctl by {
        lemma_replies_push(o, before, report);
    }
}

/// Reports are only added.
pub proof fn lemma_run_extends_log(sc: Scene, m: Machine, o: Replies, budget: nat)
    ensures
        m.fx.log.is_prefix_of(run(sc, m, o, budget).0.log),
    decreases budget,
{
    reveal(act);
    if budget > 0 {
        match step(sc, m, o) {
            Step::Go(m2) => {
                lemma_run_extends_log(sc, m2, o, (budget - 1) as nat);
            },
            Step::Stop(fx, r) => {},
        }
    }
}

/// The position and the flag of a program in the middle of its run.
struct Cursor {
    at: usize,
    work_done: bool,
}

impl Cursor {
    spec fn machine(&self, fx: Effects) -> Machine {
        Machine { at: self.at as int, work_done: self.work_done, fx }
    }

    fn follow(&mut self, len: usize, branch: Branch)
        requires
            old(self).at <= len,
        ensures
            final(self).at == target(len as nat, old(self).at as int, branch),
            final(self).at <= len,
            final(self).work_done == old(self).work_done,
    {
        let room: usize = len - self.at;
        let there: usize = match branch {
            Branch::Next(size) => if size <= room {
                self.at + size
            } else {
                len
            },
            Branch::Jump(jump) => if jump as u64 <= room as u64 {
                self.at + jump as usize
            } else {
                len
            },
        };
        self.at = there;
    }

    fn past(&mut self, len: usize, size: usize)
        requires
            old(self).at <= len,
            size <= 1024,
        ensures
            final(self).at == target(
                len as nat,
                old(self).at as int,
                Branch::Next(aligned(size as int) as usize),
            ),
            final(self).at <= len,
            final(self).work_done == old(self).work_done,
    {
        self.follow(len, Branch::Next(roundup(size)));
    }
}

fn offset_of_report(end: u64, adjust: i32) -> (r: u64)
    ensures
        r == report_offset(end, adjust),
{
    if adjust >= 0 {
        end.wrapping_add(adjust as u64)
    } else {
        end.wrapping_sub((-(adjust as i64)) as u64)
    }
}

/// Whether the automaton accepts from any of the trigger locations.
fn any_accepts(nfa: &Nfa, buf: &[u8], locs: &Vec<u64>, loc: usize, report: u32) -> (r: Result<
    bool,
    InterpError,
>)
    requires
        loc <= buf@.len(),
    ensures
        r == if exists|i: int| 0 <= i < locs@.len() && #[trigger] locs@[i] <= loc {
            Err::<bool, InterpError>(InterpError::Nfa(nfa_out_of_scope()))
        } else {
            Ok(false)
        },
{
    let mut i: usize = 0;
    while i < locs.len()
        invariant
            i <= locs@.len(),
            loc <= buf@.len(),
            forall|j: int| 0 <= j < i ==> #[trigger] locs@[j] > loc,
        decreases locs@.len() - i,
    {
        if locs[i] <= loc as u64 {
            match nfa.in_accept_state(slice_subrange(buf, locs[i] as usize, loc), report) {
                Err(e) => return Err(InterpError::Nfa(e)),
                Ok(accepted) => if accepted {
                    return Ok(true);
                },
            }
        }
        i = i + 1;
    }
    Ok(false)
}

/// Tests an infix: whether its automaton accepts, and if not, nothing else.
fn run_infix(
    rose: &RoseEngine,
    at: usize,
    buf: &[u8],
    end: u64,
    dedupe: &Dedupe,
    sc: Ghost<Scene>,
) -> (r: Result<bool, InterpError>)
    requires
        sc@.bc == rose.bytes(),
        sc@.nfa_info == rose.nfa_info_offset,
        sc@.buf == buf@,
        sc@.end == end,
        fits(rose.bytes(), at as int, 20),
    ensures
        r == ({
            let queue = le32(sc@.bc, at + 4);
            let lag = le32(sc@.bc, at + 8);
            if lag <= end && end - lag <= buf@.len() && locations(dedupe@.infix, queue).len() > 0 {
                Err::<bool, InterpError>(nfa_refusal(sc@, queue))
            } else {
                Ok(false)
            }
        }),
{
    let bc = rose.bytecode();
    let queue: u32 = read_u32(bc, at + 4);
    let lag: u64 = read_u32(bc, at + 8) as u64;
    let report: u32 = read_u32(bc, at + 12);
    if end < lag || end - lag > buf.len() as u64 {
        return Ok(false);
    }
    let locs = dedupe.infix_locs(queue);
    if locs.len() == 0 {
        return Ok(false);
    }
    match leftfix(rose, queue, sc) {
        Err(e) => Err(e),
        Ok(nfa) => any_accepts(&nfa, buf, &locs, (end - lag) as usize, report),
    }
}

/// What outlives a program, as a whole.
pub open spec fn effects(
    groups: u64,
    memory: Memory,
    delayed: Seq<(u8, u32)>,
    squash: u8,
    log: Seq<Report>,
) -> Effects {
    Effects { groups, memory, delayed, squash, log }
}

/// Performs an instruction that does more than test. `None` if the program
/// goes on.
#[verifier::spinoff_prover]
#[verifier::rlimit(50)]
fn perform<R: ReportSink>(
    rose: &RoseEngine,
    code: u8,
    cur: &mut Cursor,
    buf: &[u8],
    end: u64,
    groups: &mut u64,
    dedupe: &mut Dedupe,
    reports: &mut R,
    delayed: &mut Vec<(u8, u32)>,
    in_confirm: bool,
    squash_out: &mut u8,
    sc: Ghost<Scene>,
) -> (r: Option<Result<ScanCtl, InterpError>>)
    requires
        !is_test(code),
        old(cur).at <= rose.bytes().len(),
        sc@ == (Scene {
            bc: rose.bytes(),
            nfa_info: rose.nfa_info_offset,
            buf: buf@,
            end,
            in_confirm,
        }),
        old(reports).inv(),
    ensures
        final(cur).at <= rose.bytes().len(),
        final(reports).inv(),
        final(reports).fixed() == old(reports).fixed(),
        old(reports).log().is_prefix_of(final(reports).log()),
        forall|o: Replies| #[trigger]
            replies_agree(o, final(reports).log()) ==> act(
                sc@,
                code,
                old(cur).machine(
                    effects(
                        *old(groups),
                        old(dedupe)@,
                        old(delayed)@,
                        *old(squash_out),
                        old(reports).log(),
                    ),
                ),
                o,
            ) == ({
                let fx = effects(
                    *final(groups),
                    final(dedupe)@,
                    final(delayed)@,
                    *final(squash_out),
                    final(reports).log(),
                );
                match r {
                    None => Step::Go(final(cur).machine(fx)),
                    Some(r) => Step::Stop(fx, r),
                }
            }),
{
    reveal(act);
    let bc = rose.bytecode();
    let len: usize = bc.len();
    let at: usize = cur.at;
    match code {
        op::END => return Some(Ok(ScanCtl::Continue)),
        op::CHECK_GROUPS => {
            if !has_room(bc, at, 16) {
                return Some(Err(InterpError::ProgramOverrun));
            }
            if read_u64(bc, at + 8) & *groups == 0 {
                return Some(Ok(ScanCtl::Continue));
            }
            cur.past(len, 16);
        },
        op::CHECK_NOT_HANDLED => {
            if !has_room(bc, at, 12) {
                return Some(Err(InterpError::ProgramOverrun));
            }
            if dedupe.not_handled(read_u32(bc, at + 4)) {
                cur.past(len, 12);
            } else {
                cur.follow(len, Branch::Jump(read_u32(bc, at + 8)));
            }
        },
        op::CHECK_INFIX => {
            if !has_room(bc, at, 20) {
                return Some(Err(InterpError::ProgramOverrun));
            }
            match run_infix(rose, at, buf, end, dedupe, sc) {
                Err(e) => return Some(Err(e)),
                Ok(accepted) => if accepted {
                    cur.past(len, 20);
                } else {
                    cur.follow(len, Branch::Jump(read_u32(bc, at + 16)));
                },
            }
        },
        op::REPORT => {
            if !has_room(bc, at, 12) {
                return Some(Err(InterpError::ProgramOverrun));
            }
            let to: u64 = offset_of_report(end, read_u32(bc, at + 8) as i32);
            cur.work_done = true;
            let ghost before = reports.log();
            let ctl = reports.report(read_u32(bc, at + 4), to);
            proof {
                lemma_log_push(before, reports.log());
            }
            if ctl == ScanCtl::Terminate {
                return Some(Ok(ScanCtl::Terminate));
            }
            cur.past(len, 12);
        },
        op::FINAL_REPORT => {
            if !has_room(bc, at, 12) {
                return Some(Err(InterpError::ProgramOverrun));
            }
            let to: u64 = offset_of_report(end, read_u32(bc, at + 8) as i32);
            let ghost before = reports.log();
            let ctl = reports.report(read_u32(bc, at + 4), to);
            proof {
                lemma_log_push(before, reports.log());
            }
            return Some(Ok(ctl));
        },
        op::DEDUPE_AND_REPORT => {
            if !has_room(bc, at, 20) {
                return Some(Err(InterpError::ProgramOverrun));
            }
            let to: u64 = offset_of_report(end, read_u32(bc, at + 12) as i32);
            cur.work_done = true;
            if dedupe.fresh(read_u32(bc, at + 4), to) {
                let ghost before = reports.log();
                let ctl = reports.report(read_u32(bc, at + 8), to);
                proof {
                    lemma_log_push(before, reports.log());
                }
                if ctl == ScanCtl::Terminate {
                    return Some(Ok(ScanCtl::Terminate));
                }
                cur.past(len, 20);
            } else {
                cur.follow(len, Branch::Jump(read_u32(bc, at + 16)));
            }
        },
        op::INCLUDED_JUMP => {
            if in_confirm {
                if !has_room(bc, at, 2) {
                    return Some(Err(InterpError::ProgramOverrun));
                }
                *squash_out = *squash_out | bc[at + 1];
                if !has_room(bc, at, 8) {
                    return Some(Err(InterpError::ProgramOverrun));
                }
                let child: u32 = read_u32(bc, at + 4);
                match rose.by_offset(child as usize) {
                    Err(e) => return Some(Err(InterpError::Rose(e))),
                    Ok(_) => {
                        cur.at = child as usize;
                    },
                }
            } else {
                cur.past(len, 8);
            }
        },
        op::PUSH_DELAYED => {
            if !has_room(bc, at, 8) {
                return Some(Err(InterpError::ProgramOverrun));
            }
            delayed.push((bc[at + 1], read_u32(bc, at + 4)));
            cur.past(len, 8);
        },
        op::TRIGGER_SUFFIX => {
            if !has_room(bc, at, 12) {
                return Some(Err(InterpError::ProgramOverrun));
            }
            dedupe.push_suffix(read_u32(bc, at + 4), read_u32(bc, at + 8), end);
            cur.work_done = true;
            cur.past(len, 12);
        },
        op::TRIGGER_INFIX => {
            if !has_room(bc, at, 13) {
                return Some(Err(InterpError::ProgramOverrun));
            }
            dedupe.push_infix(read_u32(bc, at + 4), end, bc[at + 12] != 0);
            cur.work_done = true;
            cur.past(len, 16);
        },
        op::SET_STATE => {
            if !has_room(bc, at, 8) {
                return Some(Err(InterpError::ProgramOverrun));
            }
            dedupe.set_role_state(read_u32(bc, at + 4));
            cur.work_done = true;
            cur.past(len, 8);
        },
        op::CHECK_STATE => {
            if !has_room(bc, at, 12) {
                return Some(Err(InterpError::ProgramOverrun));
            }
            if dedupe.role_state_set(read_u32(bc, at + 4)) {
                cur.past(len, 12);
            } else {
                cur.follow(len, Branch::Jump(read_u32(bc, at + 8)));
            }
        },
        op::SET_GROUPS => {
            if !has_room(bc, at, 16) {
                return Some(Err(InterpError::ProgramOverrun));
            }
            *groups = *groups | read_u64(bc, at + 8);
            cur.past(len, 16);
        },
        op::SQUASH_GROUPS => {
            if !has_room(bc, at, 16) {
                return Some(Err(InterpError::ProgramOverrun));
            }
            if cur.work_done {
                *groups = *groups & read_u64(bc, at + 8);
            }
            cur.past(len, 16);
        },
        op::CATCH_UP | op::CATCH_UP_MPV => {
            cur.past(len, 1);
        },
        _ => return Some(Err(InterpError::UnsupportedOpcode(code))),
    }
    None
}

/// The scene of a program.
pub open spec fn scene(rose: &RoseEngine, buf: Seq<u8>, end: u64, in_confirm: bool) -> Scene {
    Scene { bc: rose.bytes(), nfa_info: rose.nfa_info_offset, buf, end, in_confirm }
}

/// Runs the program at `prog_off` for a match that ends at `end`, and hands
/// its reports to a sink.
pub fn interpret<R: ReportSink>(
    rose: &RoseEngine,
    prog_off: u32,
    end: u64,
    buf: &[u8],
    groups: &mut u64,
    dedupe: &mut Dedupe,
    reports: &mut R,
    delayed: &mut Vec<(u8, u32)>,
    in_confirm: bool,
    squash_out: &mut u8,
) -> (r: Result<ScanCtl, InterpError>)
    requires
        old(reports).inv(),
    ensures
        final(reports).inv(),
        final(reports).fixed() == old(reports).fixed(),
        old(reports).log().is_prefix_of(final(reports).log()),
        forall|o: Replies| #[trigger]
            replies_agree(o, final(reports).log()) ==> program(
                scene(rose, buf@, end, in_confirm),
                prog_off,
                effects(
                    *old(groups),
                    old(dedupe)@,
                    old(delayed)@,
                    *old(squash_out),
                    old(reports).log(),
                ),
                o,
            ) == (
                effects(
                    *final(groups),
                    final(dedupe)@,
                    final(delayed)@,
                    *final(squash_out),
                    final(reports).log(),
                ),
                r,
            ),
{
    match rose.by_offset(prog_off as usize) {
        Err(e) => return Err(InterpError::Rose(e)),
        Ok(_) => {},
    }
    let ghost sc = scene(rose, buf@, end, in_confirm);
    let bc = rose.bytecode();
    let len: usize = bc.len();
    let mut cur = Cursor { at: prog_off as usize, work_done: false };
    let mut left: u128 = len as u128 + op::MIN_ALIGN as u128;
    let ghost start = cur.machine(
        effects(*groups, dedupe@, delayed@, *squash_out, reports.log()),
    );
    while left > 0
        invariant
            bc@ == rose.bytes(),
            bc@.len() == len,
            cur.at <= len,
            sc == scene(rose, buf@, end, in_confirm),
            prog_off <= len,
            start == (Machine {
                at: prog_off as int,
                work_done: false,
                fx: effects(
                    *old(groups),
                    old(dedupe)@,
                    old(delayed)@,
                    *old(squash_out),
                    old(reports).log(),
                ),
            }),
            reports.inv(),
            reports.fixed() == old(reports).fixed(),
            old(reports).log().is_prefix_of(reports.log()),
            forall|o: Replies| #[trigger]
                replies_agree(o, reports.log()) ==> run(sc, start, o, budget(bc@)) == run(
                    sc,
                    cur.machine(effects(*groups, dedupe@, delayed@, *squash_out, reports.log())),
                    o,
                    left as nat,
                ),
        decreases left,
    {
        let ghost m = cur.machine(
            effects(*groups, dedupe@, delayed@, *squash_out, reports.log()),
        );
        let ghost before = reports.log();
        let ghost fuel = left as nat;
        left = left - 1;
        if cur.at >= len {
            assert(forall|o: Replies| #[trigger]
                replies_agree(o, before) ==> step(sc, m, o) == overrun(m));
            return Err(InterpError::ProgramOverrun);
        }
        let code: u8 = bc[cur.at];
        if is_test_code(code) {
            match run_test(rose, code, cur.at, buf, end, Ghost(sc)) {
                Err(e) => {
                    assert(forall|o: Replies| #[trigger]
                        replies_agree(o, before) ==> step(sc, m, o) == Step::Stop(m.fx, Err(e)));
                    return Err(e);
                },
                Ok(branch) => cur.follow(len, branch),
            }
        } else {
            let stop = perform(
                rose,
                code,
                &mut cur,
                buf,
                end,
                groups,
                dedupe,
                reports,
                delayed,
                in_confirm,
                squash_out,
                Ghost(sc),
            );
            proof {
                assert forall|o: Replies| #[trigger] replies_agree(
                    o,
                    reports.log(),
                ) implies replies_agree(o, before) by {
                    lemma_replies_prefix(o, reports.log(), before);
                }
            }
            if let Some(r) = stop {
                return r;
            }
        }
        assert forall|o: Replies| #[trigger] replies_agree(o, reports.log()) implies run(
            sc,
            start,
            o,
            budget(bc@),
        ) == run(
            sc,
            cur.machine(effects(*groups, dedupe@, delayed@, *squash_out, reports.log())),
            o,
            left as nat,
        ) by {
            assert(replies_agree(o, before));
            assert(step(sc, m, o) == Step::Go(
                cur.machine(effects(*groups, dedupe@, delayed@, *squash_out, reports.log())),
            ));
            assert(run(sc, m, o, fuel) == run(
                sc,
                cur.machine(effects(*groups, dedupe@, delayed@, *squash_out, reports.log())),
                o,
                (fuel - 1) as nat,
            ));
        }
    }
    Err(InterpError::ProgramOverrun)
}

/// Runs the program at `prog_off` for a match whose last byte is at
/// `end_last_byte`. `groups` and `dedupe` live as long as the scan.
/// `delayed` collects the literals to replay, and `squash_out` the buckets to
/// squash, which only a program run out of an engine's confirm step
/// (`in_confirm`) can ask for. `report` gets the external id and the end
/// offset of each match.
pub fn run_program<F: FnMut(u32, u64) -> ScanCtl>(
    rose: &RoseEngine,
    prog_off: u32,
    end_last_byte: u64,
    buf: &[u8],
    groups: &mut u64,
    dedupe: &mut Dedupe,
    report: &mut F,
    delayed: &mut Vec<(u8, u32)>,
    in_confirm: bool,
    squash_out: &mut u8,
) -> (r: Result<ScanCtl, InterpError>)
    requires
        end_last_byte < u64::MAX,
        forall|id: u32, to: u64| #[trigger] call_requires(*old(report), (id, to)),
    ensures
        exists|log: Seq<Report>| #[trigger]
            reported(*old(report), log) && program(
                scene(rose, buf@, (end_last_byte + 1) as u64, in_confirm),
                prog_off,
                effects(
                    *old(groups),
                    old(dedupe)@,
                    old(delayed)@,
                    *old(squash_out),
                    Seq::empty(),
                ),
                replies_of(log),
            ) == (
                effects(
                    *final(groups),
                    final(dedupe)@,
                    final(delayed)@,
                    *final(squash_out),
                    log,
                ),
                r,
            ),
{
    let mut reports = FnReports { cb: report, reports: Ghost(Seq::empty()) };
    let r = interpret(
        rose,
        prog_off,
        end_last_byte + 1,
        buf,
        groups,
        dedupe,
        &mut reports,
        delayed,
        in_confirm,
        squash_out,
    );
    proof {
        let log = reports.reports@;
        assert(replies_agree(replies_of(log), reports.log()));
        assert(reported(*old(report), log));
    }
    r
}

} // verus!
