//! What the instructions of a program do, by their operands.
//!
//! The laws here speak of the bytes of an instruction as numbers, and of
//! groups one by one.

use vstd::prelude::*;

use crate::bits::{as_wanted, lemma_groups, lemma_signed};
use crate::bytes::{fits, le32, le64, number, words_are_numbers};
use crate::hwlm::ScanCtl;
use crate::literal::bitwise::byte_test_wants_selected_bits;
use crate::literal::branch::{signed32, verdict, Scene};
use crate::literal::dedupe::{locations, without_queue, Memory};
use crate::literal::op;
use crate::literal::program::{act, report_offset, step, Effects, Machine, Step};
use crate::literal::report::{Replies, Report};
use crate::literal::InterpError;
use crate::simd::lanes::bit64;

verus! {

/// The signed number that 4 bytes write.
pub open spec fn signed(bc: Seq<u8>, off: int) -> int {
    let n = number(bc, off, 4);
    if n < 0x8000_0000 {
        n as int
    } else {
        n - 0x1_0000_0000
    }
}

/// `n` bytes further on, or at the end of the bytecode if that comes first.
pub open spec fn ahead(sc: Scene, m: Machine, n: int) -> int {
    if m.at + n <= sc.bc.len() {
        m.at + n
    } else {
        sc.bc.len() as int
    }
}

/// The program goes on `n` bytes further, and nothing has changed.
pub open spec fn moves(sc: Scene, m: Machine, n: int, after: Step) -> bool {
    after == Step::Go(Machine { at: ahead(sc, m, n), ..m })
}

/// The instruction at which a program stands, with its operands.
pub open spec fn stands_at(sc: Scene, m: Machine, code: u8, size: int) -> bool {
    fits(sc.bc, m.at, size) && sc.bc[m.at] == code
}

proof fn lemma_signed32(bc: Seq<u8>, off: int)
    ensures
        signed32(bc, off) == signed(bc, off),
{
    words_are_numbers(bc, off);
    lemma_signed(le32(bc, off));
}

/// The end offset of a report is the end of the match plus the adjustment. It
/// wraps around only where that is below zero or does not fit into 64 bits.
pub proof fn reports_end_at_the_adjusted_offset(bc: Seq<u8>, off: int, end: u64)
    ensures
        ({
            let to = report_offset(end, signed32(bc, off)) as int;
            let sum = end + signed(bc, off);
            &&& 0 <= sum <= u64::MAX ==> to == sum
            &&& sum < 0 ==> to == sum + 0x1_0000_0000_0000_0000
            &&& sum > u64::MAX ==> to == sum - 0x1_0000_0000_0000_0000
        }),
{
    lemma_signed32(bc, off);
}

/// A report hands over its id and the adjusted end offset, once. The program
/// has then done something, and goes on unless it is told to stop.
pub proof fn report_is_made_once(sc: Scene, m: Machine, o: Replies)
    requires
        stands_at(sc, m, op::REPORT, 12),
        0 <= sc.end + signed(sc.bc, m.at + 8) <= u64::MAX,
    ensures
        ({
            let ctl = o(m.fx.log.len() as int);
            let report = Report {
                id: number(sc.bc, m.at + 4, 4) as u32,
                to: (sc.end + signed(sc.bc, m.at + 8)) as u64,
                ctl,
            };
            let fx = Effects { log: m.fx.log.push(report), ..m.fx };
            match ctl {
                ScanCtl::Terminate => step(sc, m, o) == Step::Stop(fx, Ok(ScanCtl::Terminate)),
                ScanCtl::Continue => step(sc, m, o) == Step::Go(
                    Machine { at: ahead(sc, m, 16), work_done: true, fx },
                ),
            }
        }),
{
    reveal(act);
    words_are_numbers(sc.bc, m.at + 4);
    reports_end_at_the_adjusted_offset(sc.bc, m.at + 8, sc.end);
}

/// A final report does the same and ends the program with the answer.
pub proof fn final_report_ends_the_program(sc: Scene, m: Machine, o: Replies)
    requires
        stands_at(sc, m, op::FINAL_REPORT, 12),
        0 <= sc.end + signed(sc.bc, m.at + 8) <= u64::MAX,
    ensures
        ({
            let ctl = o(m.fx.log.len() as int);
            let report = Report {
                id: number(sc.bc, m.at + 4, 4) as u32,
                to: (sc.end + signed(sc.bc, m.at + 8)) as u64,
                ctl,
            };
            step(sc, m, o) == Step::Stop(
                Effects { log: m.fx.log.push(report), ..m.fx },
                Ok(ctl),
            )
        }),
{
    reveal(act);
    words_are_numbers(sc.bc, m.at + 4);
    reports_end_at_the_adjusted_offset(sc.bc, m.at + 8, sc.end);
}

/// Group `g` is one of a number's.
pub open spec fn has_group(groups: u64, g: int) -> bool {
    bit64(groups, g)
}

/// A test of groups goes on exactly where one of the wanted groups is switched
/// on. Otherwise the program ends. Nothing changes.
pub proof fn group_test_asks_for_one_group(sc: Scene, m: Machine, o: Replies)
    requires
        stands_at(sc, m, op::CHECK_GROUPS, 16),
    ensures
        ({
            let wanted = number(sc.bc, m.at + 8, 8) as u64;
            if exists|g: int|
                0 <= g < 64 && #[trigger] has_group(wanted, g) && has_group(m.fx.groups, g) {
                moves(sc, m, 16, step(sc, m, o))
            } else {
                step(sc, m, o) == Step::Stop(m.fx, Ok(ScanCtl::Continue))
            }
        }),
{
    reveal(act);
    let wanted = le64(sc.bc, m.at + 8);
    words_are_numbers(sc.bc, m.at + 8);
    if wanted & m.fx.groups != 0 {
        let g = vstd::std_specs::bits::u64_trailing_zeros(wanted & m.fx.groups) as int;
        vstd::std_specs::bits::axiom_u64_trailing_zeros(wanted & m.fx.groups);
        lemma_groups(wanted, m.fx.groups, g);
        assert(has_group(wanted, g));
    }
    if exists|g: int|
        0 <= g < 64 && #[trigger] has_group(wanted, g) && has_group(m.fx.groups, g) {
        let g = choose|g: int|
            0 <= g < 64 && #[trigger] has_group(wanted, g) && has_group(m.fx.groups, g);
        lemma_groups(wanted, m.fx.groups, g);
        lemma_groups(0, 0, g);
    }
}

/// Setting groups switches the named ones on and leaves the others as they
/// are.
pub proof fn groups_are_switched_on(sc: Scene, m: Machine, o: Replies, g: int)
    requires
        stands_at(sc, m, op::SET_GROUPS, 16),
        0 <= g < 64,
    ensures
        match step(sc, m, o) {
            Step::Go(m2) => {
                let named = number(sc.bc, m.at + 8, 8) as u64;
                &&& has_group(m2.fx.groups, g) <==> has_group(m.fx.groups, g) || has_group(
                    named,
                    g,
                )
                &&& m2 == Machine {
                    at: ahead(sc, m, 16),
                    work_done: m.work_done,
                    fx: Effects { groups: m2.fx.groups, ..m.fx },
                }
            },
            Step::Stop(fx, r) => false,
        },
{
    reveal(act);
    words_are_numbers(sc.bc, m.at + 8);
    lemma_groups(m.fx.groups, le64(sc.bc, m.at + 8), g);
}

/// Squashing groups leaves on only those that are named, and only if the
/// program has done something.
pub proof fn groups_are_squashed_after_work(sc: Scene, m: Machine, o: Replies, g: int)
    requires
        stands_at(sc, m, op::SQUASH_GROUPS, 16),
        0 <= g < 64,
    ensures
        match step(sc, m, o) {
            Step::Go(m2) => {
                let named = number(sc.bc, m.at + 8, 8) as u64;
                &&& has_group(m2.fx.groups, g) <==> has_group(m.fx.groups, g) && (m.work_done
                    ==> has_group(named, g))
                &&& m2 == Machine {
                    at: ahead(sc, m, 16),
                    work_done: m.work_done,
                    fx: Effects { groups: m2.fx.groups, ..m.fx },
                }
            },
            Step::Stop(fx, r) => false,
        },
{
    reveal(act);
    words_are_numbers(sc.bc, m.at + 8);
    lemma_groups(m.fx.groups, le64(sc.bc, m.at + 8), g);
}

/// A role is on exactly after it was switched on: the instruction switches its
/// role on, and no other.
pub proof fn role_is_switched_on(sc: Scene, m: Machine, o: Replies, role: u32)
    requires
        stands_at(sc, m, op::SET_STATE, 8),
    ensures
        match step(sc, m, o) {
            Step::Go(m2) => {
                &&& m2.fx.memory.roles.contains(role) <==> m.fx.memory.roles.contains(role) || role
                    == number(sc.bc, m.at + 4, 4)
                &&& m2 == Machine {
                    at: ahead(sc, m, 8),
                    work_done: true,
                    fx: Effects {
                        memory: Memory { roles: m2.fx.memory.roles, ..m.fx.memory },
                        ..m.fx
                    },
                }
            },
            Step::Stop(fx, r) => false,
        },
{
    reveal(act);
    words_are_numbers(sc.bc, m.at + 4);
}

/// A test of a role passes exactly where the role is on.
pub proof fn role_test_asks_for_the_role(sc: Scene, m: Machine, o: Replies)
    requires
        stands_at(sc, m, op::CHECK_STATE, 12),
    ensures
        m.fx.memory.roles.contains(number(sc.bc, m.at + 4, 4) as u32) ==> moves(
            sc,
            m,
            16,
            step(sc, m, o),
        ),
        !m.fx.memory.roles.contains(number(sc.bc, m.at + 4, 4) as u32) ==> moves(
            sc,
            m,
            number(sc.bc, m.at + 8, 4) as int,
            step(sc, m, o),
        ),
{
    reveal(act);
    words_are_numbers(sc.bc, m.at + 4);
    words_are_numbers(sc.bc, m.at + 8);
}

/// A test whether a role was handled passes the first time alone: it passes
/// where the role was not handled, and the role is then handled.
pub proof fn role_is_handled_once(sc: Scene, m: Machine, o: Replies)
    requires
        stands_at(sc, m, op::CHECK_NOT_HANDLED, 12),
    ensures
        match step(sc, m, o) {
            Step::Go(m2) => {
                let role = number(sc.bc, m.at + 4, 4) as u32;
                &&& m2.at == ahead(
                    sc,
                    m,
                    if m.fx.memory.handled.contains(role) {
                        number(sc.bc, m.at + 8, 4) as int
                    } else {
                        16
                    },
                )
                &&& m2.work_done == m.work_done
                &&& m2.fx.memory.handled.contains(role)
                &&& forall|other: u32|
                    other != role ==> (#[trigger] m2.fx.memory.handled.contains(other)
                        <==> m.fx.memory.handled.contains(other))
                &&& m2.fx == (Effects {
                    memory: Memory { handled: m2.fx.memory.handled, ..m.fx.memory },
                    ..m.fx
                })
            },
            Step::Stop(fx, r) => false,
        },
{
    reveal(act);
    words_are_numbers(sc.bc, m.at + 4);
    words_are_numbers(sc.bc, m.at + 8);
}

/// A jump into another literal's program happens only while an engine
/// confirms: the named buckets are to be squashed as well, and the program
/// goes on at the other one. Elsewhere the instruction does nothing.
pub proof fn included_literals_are_squashed(sc: Scene, m: Machine, o: Replies, k: int)
    requires
        stands_at(sc, m, op::INCLUDED_JUMP, 8),
        0 <= k < 8,
    ensures
        !sc.in_confirm ==> moves(sc, m, 8, step(sc, m, o)),
        sc.in_confirm && number(sc.bc, m.at + 4, 4) <= sc.bc.len() ==> match step(sc, m, o) {
            Step::Go(m2) => {
                &&& bit64(m2.fx.squash as u64, k) <==> bit64(m.fx.squash as u64, k) || bit64(
                    sc.bc[m.at + 1] as u64,
                    k,
                )
                &&& m2 == Machine {
                    at: number(sc.bc, m.at + 4, 4) as int,
                    work_done: m.work_done,
                    fx: Effects { squash: m2.fx.squash, ..m.fx },
                }
            },
            Step::Stop(fx, r) => false,
        },
{
    reveal(act);
    words_are_numbers(sc.bc, m.at + 4);
    let (x, y) = (m.fx.squash, sc.bc[m.at + 1]);
    crate::bits::lemma_bit8(x, y, 0, k);
    crate::bits::lemma_bit8(x | y, 0, 0, k);
    crate::bits::lemma_bit8(y, 0, 0, k);
}

proof fn lemma_locations_push(infix: Seq<(u32, u64)>, x: (u32, u64), queue: u32)
    ensures
        locations(infix.push(x), queue) == if x.0 == queue {
            locations(infix, queue).push(x.1)
        } else {
            locations(infix, queue)
        },
{
    let longer = infix.push(x);
    reveal(Seq::filter);
    assert(longer.drop_last() =~= infix);
    assert(longer.last() == x);
    assert(locations(longer, queue) =~= if x.0 == queue {
        locations(infix, queue).push(x.1)
    } else {
        locations(infix, queue)
    });
}

proof fn lemma_locations_without(infix: Seq<(u32, u64)>, gone: u32, queue: u32)
    ensures
        locations(without_queue(infix, gone), queue) == if gone == queue {
            Seq::<u64>::empty()
        } else {
            locations(infix, queue)
        },
    decreases infix.len(),
{
    reveal(Seq::filter);
    if infix.len() > 0 {
        let shorter = infix.drop_last();
        let x = infix.last();
        lemma_locations_without(shorter, gone, queue);
        lemma_locations_push(shorter, x, queue);
        assert(infix =~= shorter.push(x));
        if x.0 != gone {
            assert(without_queue(infix, gone) =~= without_queue(shorter, gone).push(x));
            lemma_locations_push(without_queue(shorter, gone), x, queue);
        } else {
            assert(without_queue(infix, gone) =~= without_queue(shorter, gone));
        }
    }
    assert(locations(without_queue(infix, gone), queue) =~= if gone == queue {
        Seq::<u64>::empty()
    } else {
        locations(infix, queue)
    });
}

/// An infix is triggered: the end of the match comes behind the earlier
/// locations of its queue, or takes their place if the instruction cancels
/// them. Other queues keep their locations, and nothing else changes.
pub proof fn infix_is_triggered(sc: Scene, m: Machine, o: Replies, queue: u32)
    requires
        stands_at(sc, m, op::TRIGGER_INFIX, 13),
    ensures
        match step(sc, m, o) {
            Step::Go(m2) => {
                let before = locations(m.fx.memory.infix, queue);
                let after = locations(m2.fx.memory.infix, queue);
                &&& queue != number(sc.bc, m.at + 4, 4) ==> after == before
                &&& queue == number(sc.bc, m.at + 4, 4) && sc.bc[m.at + 12] == 0 ==> after
                    == before.push(sc.end)
                &&& queue == number(sc.bc, m.at + 4, 4) && sc.bc[m.at + 12] != 0 ==> after
                    == seq![sc.end]
                &&& m2 == Machine {
                    at: ahead(sc, m, 16),
                    work_done: true,
                    fx: Effects {
                        memory: Memory { infix: m2.fx.memory.infix, ..m.fx.memory },
                        ..m.fx
                    },
                }
            },
            Step::Stop(fx, r) => false,
        },
{
    reveal(act);
    words_are_numbers(sc.bc, m.at + 4);
    let own = le32(sc.bc, m.at + 4);
    let before = m.fx.memory.infix;
    lemma_locations_push(before, (own, sc.end), queue);
    lemma_locations_without(before, own, queue);
    lemma_locations_push(without_queue(before, own), (own, sc.end), queue);
    assert(Seq::<u64>::empty().push(sc.end) =~= seq![sc.end]);
}

/// A test of bounds passes exactly where the match ends between them, and one
/// for an early match where it does not end in front of the least offset.
pub proof fn bounds_are_tested(sc: Scene, m: Machine, o: Replies)
    ensures
        stands_at(sc, m, op::CHECK_BOUNDS, 28) ==> moves(
            sc,
            m,
            if number(sc.bc, m.at + 8, 8) <= sc.end && sc.end <= number(sc.bc, m.at + 16, 8) {
                32
            } else {
                number(sc.bc, m.at + 24, 4) as int
            },
            step(sc, m, o),
        ),
        stands_at(sc, m, op::CHECK_LIT_EARLY, 12) ==> moves(
            sc,
            m,
            if sc.end < number(sc.bc, m.at + 4, 4) {
                number(sc.bc, m.at + 8, 4) as int
            } else {
                16
            },
            step(sc, m, o),
        ),
{
    reveal(verdict);
    words_are_numbers(sc.bc, m.at + 4);
    words_are_numbers(sc.bc, m.at + 8);
    words_are_numbers(sc.bc, m.at + 16);
    words_are_numbers(sc.bc, m.at + 24);
}

/// The instruction that tests one byte goes on behind itself exactly where the
/// byte at the signed offset from the end has the wanted bits where the mask
/// selects, or has not if that is negated. Otherwise it goes on at its jump.
pub proof fn byte_is_tested(sc: Scene, m: Machine, o: Replies)
    requires
        stands_at(sc, m, op::CHECK_BYTE, 12),
        0 <= sc.end + signed(sc.bc, m.at + 4) < sc.buf.len(),
    ensures
        ({
            let c = sc.buf[sc.end + signed(sc.bc, m.at + 4)];
            let (mask, want) = (sc.bc[m.at + 1], sc.bc[m.at + 2]);
            let passes = if sc.bc[m.at + 3] == 0 {
                as_wanted(c, mask, want)
            } else {
                !as_wanted(c, mask, want)
            };
            moves(
                sc,
                m,
                if passes {
                    16
                } else {
                    number(sc.bc, m.at + 8, 4) as int
                },
                step(sc, m, o),
            )
        }),
{
    reveal(verdict);
    words_are_numbers(sc.bc, m.at + 8);
    lemma_signed32(sc.bc, m.at + 4);
    byte_test_wants_selected_bits(
        sc.buf,
        sc.bc[m.at + 1],
        sc.bc[m.at + 2],
        sc.bc[m.at + 3] != 0,
        sc.end + signed(sc.bc, m.at + 4),
    );
}

/// The report of a key and an end offset is made the first time only. The
/// second time the program goes on at its jump and hands over nothing.
pub proof fn key_is_reported_once(sc: Scene, m: Machine, o: Replies)
    requires
        stands_at(sc, m, op::DEDUPE_AND_REPORT, 20),
        0 <= sc.end + signed(sc.bc, m.at + 12) <= u64::MAX,
    ensures
        ({
            let ctl = o(m.fx.log.len() as int);
            let to = (sc.end + signed(sc.bc, m.at + 12)) as u64;
            let key = (number(sc.bc, m.at + 4, 4) as u32, to);
            let report = Report { id: number(sc.bc, m.at + 8, 4) as u32, to, ctl };
            let mem = m.fx.memory;
            let memory = Memory { seen: mem.seen.insert(key), ..mem };
            let fx = Effects { log: m.fx.log.push(report), memory, ..m.fx };
            if mem.seen.contains(key) {
                step(sc, m, o) == Step::Go(
                    Machine {
                        at: ahead(sc, m, number(sc.bc, m.at + 16, 4) as int),
                        work_done: true,
                        ..m
                    },
                )
            } else {
                match ctl {
                    ScanCtl::Terminate => step(sc, m, o) == Step::Stop(fx, Ok(ScanCtl::Terminate)),
                    ScanCtl::Continue => step(sc, m, o) == Step::Go(
                        Machine { at: ahead(sc, m, 24), work_done: true, fx },
                    ),
                }
            }
        }),
{
    reveal(act);
    words_are_numbers(sc.bc, m.at + 4);
    words_are_numbers(sc.bc, m.at + 8);
    words_are_numbers(sc.bc, m.at + 16);
    reports_end_at_the_adjusted_offset(sc.bc, m.at + 12, sc.end);
    let key = (
        le32(sc.bc, m.at + 4),
        report_offset(sc.end, signed32(sc.bc, m.at + 12)),
    );
    if m.fx.memory.seen.contains(key) {
        assert(m.fx.memory.seen.insert(key) =~= m.fx.memory.seen);
    }
}

/// A program at its end stops without an error. One that stands at a byte that
/// is no instruction stops with an error that names the byte, and one that has
/// run out of the bytecode with another. Two instructions do nothing here.
pub proof fn programs_end(sc: Scene, m: Machine, o: Replies)
    requires
        0 <= m.at,
    ensures
        m.at >= sc.bc.len() ==> step(sc, m, o) == Step::Stop(
            m.fx,
            Err(InterpError::ProgramOverrun),
        ),
        stands_at(sc, m, 0, 1) ==> step(sc, m, o) == Step::Stop(m.fx, Ok(ScanCtl::Continue)),
        stands_at(sc, m, op::CATCH_UP, 1) ==> moves(sc, m, 8, step(sc, m, o)),
        stands_at(sc, m, op::CATCH_UP_MPV, 1) ==> moves(sc, m, 8, step(sc, m, o)),
        m.at < sc.bc.len() && !known(sc.bc[m.at]) ==> step(sc, m, o) == Step::Stop(
            m.fx,
            Err(InterpError::UnsupportedOpcode(sc.bc[m.at])),
        ),
{
    reveal(act);
}

/// The codes of the instructions that programs may hold.
pub open spec fn known(code: u8) -> bool {
    ||| code == 0
    ||| code == 2 || code == 3
    ||| 5 <= code <= 18
    ||| code == 20 || code == 21
    ||| code == 26 || code == 27
    ||| code == 33
    ||| code == 37 || code == 38
    ||| 41 <= code <= 44
    ||| code == 53 || code == 54
    ||| code == 61
}

/// A literal is put off as the operands say, and the program goes on. A
/// suffix is triggered at the end of the match, which counts as work.
pub proof fn work_is_put_off(sc: Scene, m: Machine, o: Replies)
    ensures
        stands_at(sc, m, op::PUSH_DELAYED, 8) ==> step(sc, m, o) == Step::Go(
            Machine {
                at: ahead(sc, m, 8),
                work_done: m.work_done,
                fx: Effects {
                    delayed: m.fx.delayed.push(
                        (sc.bc[m.at + 1], number(sc.bc, m.at + 4, 4) as u32),
                    ),
                    ..m.fx
                },
            },
        ),
        stands_at(sc, m, op::TRIGGER_SUFFIX, 12) ==> step(sc, m, o) == Step::Go(
            Machine {
                at: ahead(sc, m, 16),
                work_done: true,
                fx: Effects {
                    memory: Memory {
                        suffix: m.fx.memory.suffix.push(
                            (
                                number(sc.bc, m.at + 4, 4) as u32,
                                number(sc.bc, m.at + 8, 4) as u32,
                                sc.end,
                            ),
                        ),
                        ..m.fx.memory
                    },
                    ..m.fx
                },
            },
        ),
{
    reveal(act);
    words_are_numbers(sc.bc, m.at + 4);
    words_are_numbers(sc.bc, m.at + 8);
}

/// Trigger `i` of an automaton was for a queue.
pub open spec fn triggered(infix: Seq<(u32, u64)>, i: int, queue: nat) -> bool {
    0 <= i < infix.len() && infix[i].0 == queue
}

proof fn lemma_triggered(infix: Seq<(u32, u64)>, queue: u32)
    ensures
        locations(infix, queue).len() > 0 <==> exists|i: int| #[trigger]
            triggered(infix, i, queue as nat),
    decreases infix.len(),
{
    reveal(Seq::filter);
    if infix.len() > 0 {
        let shorter = infix.drop_last();
        assert(infix =~= shorter.push(infix.last()));
        lemma_triggered(shorter, queue);
        lemma_locations_push(shorter, infix.last(), queue);
        if exists|i: int| #[trigger] triggered(shorter, i, queue as nat) {
            let i = choose|i: int| #[trigger] triggered(shorter, i, queue as nat);
            assert(triggered(infix, i, queue as nat));
        }
        if exists|i: int| #[trigger] triggered(infix, i, queue as nat) {
            let i = choose|i: int| #[trigger] triggered(infix, i, queue as nat);
            if i < shorter.len() {
                assert(triggered(shorter, i, queue as nat));
            }
        }
        if infix.last().0 == queue {
            assert(triggered(infix, infix.len() - 1, queue as nat));
        }
    } else {
        assert(locations(infix, queue) =~= Seq::empty());
    }
}

/// A test of an automaton that was never triggered, or that would look in
/// front of the block or behind it, fails. Any other ends in an error. A test
/// of a prefix fails only where it would look in front of the block.
pub proof fn automata_are_not_asked(sc: Scene, m: Machine, o: Replies)
    requires
        sc.end <= sc.buf.len(),
    ensures
        stands_at(sc, m, op::CHECK_INFIX, 20) ==> {
            let queue = number(sc.bc, m.at + 4, 4);
            if sc.end >= number(sc.bc, m.at + 8, 4) && exists|i: int| #[trigger]
                triggered(m.fx.memory.infix, i, queue) {
                step(sc, m, o) matches Step::Stop(fx, r) && fx == m.fx && r is Err
            } else {
                moves(sc, m, number(sc.bc, m.at + 16, 4) as int, step(sc, m, o))
            }
        },
        stands_at(sc, m, op::CHECK_PREFIX, 20) ==> {
            if sc.end >= number(sc.bc, m.at + 8, 4) {
                step(sc, m, o) matches Step::Stop(fx, r) && fx == m.fx && r is Err
            } else {
                moves(sc, m, number(sc.bc, m.at + 16, 4) as int, step(sc, m, o))
            }
        },
{
    reveal(act);
    reveal(verdict);
    words_are_numbers(sc.bc, m.at + 4);
    words_are_numbers(sc.bc, m.at + 8);
    words_are_numbers(sc.bc, m.at + 16);
    lemma_triggered(m.fx.memory.infix, le32(sc.bc, m.at + 4));
}

} // verus!
