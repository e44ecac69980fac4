//! What holds of a memory over several programs.

use vstd::prelude::*;

use crate::bytes::{fits, le32};
use crate::hwlm::ScanCtl;
use crate::literal::branch::{target, Branch, Scene};
use crate::literal::dedupe::Memory;
use crate::literal::laws::{
    dedupe_pair, dedupe_step, pair_is_reported_once, program_keeps_its_triggers,
    programs_are_alike, replied_alike, triggers,
};
use crate::literal::op;
use crate::literal::program::{act, budget, program, run, step, Effects, Machine, Step};
use crate::literal::report::{replies_of, Replies};
use crate::literal::InterpError;

verus! {

/// A program that was run with a memory.
pub struct Turn {
    /// Whether the suffix triggers were taken out of the memory just before.
    pub took: bool,
    pub sc: Scene,
    pub prog_off: u32,
    pub before: Effects,
    pub after: Effects,
    pub result: Result<ScanCtl, InterpError>,
}

/// The turn ended as its program says.
pub open spec fn made(turn: Turn) -> bool {
    program(turn.sc, turn.prog_off, turn.before, replies_of(turn.after.log)) == (
        turn.after,
        turn.result,
    )
}

/// A memory from which the suffix triggers were taken.
pub open spec fn taken(memory: Memory) -> Memory {
    Memory { suffix: Seq::empty(), ..memory }
}

/// The memory behind the first `i` turns.
pub open spec fn memory_behind(start: Memory, turns: Seq<Turn>, i: int) -> Memory {
    if i <= 0 {
        start
    } else {
        turns[i - 1].after.memory
    }
}

/// The turns were made one after the other, with a memory that began as
/// `start`.
pub open spec fn made_in_turn(start: Memory, turns: Seq<Turn>) -> bool {
    forall|i: int|
        0 <= i < turns.len() ==> made(#[trigger] turns[i]) && turns[i].before.memory
            == if turns[i].took {
            taken(memory_behind(start, turns, i))
        } else {
            memory_behind(start, turns, i)
        }
}

/// The suffix triggers that a turn executed, in order.
pub open spec fn turn_triggers(turn: Turn) -> Seq<(u32, u32, u64)> {
    if turn.prog_off > turn.sc.bc.len() {
        Seq::empty()
    } else {
        triggers(
            turn.sc,
            Machine { at: turn.prog_off as int, work_done: false, fx: turn.before },
            replies_of(turn.after.log),
            budget(turn.sc.bc),
        )
    }
}

/// The suffix triggers that were executed in the first `i` turns and not
/// taken yet, behind those that there were at the start.
pub open spec fn pending(start: Memory, turns: Seq<Turn>, i: int) -> Seq<(u32, u32, u64)>
    decreases i,
{
    if i <= 0 {
        start.suffix
    } else {
        (if turns[i - 1].took {
            Seq::empty()
        } else {
            pending(start, turns, i - 1)
        }) + turn_triggers(turns[i - 1])
    }
}

/// The suffix triggers that can be taken are those of every turn since they
/// were last taken, in the order in which they were executed.
pub proof fn triggers_stay_until_taken(start: Memory, turns: Seq<Turn>, i: int)
    requires
        made_in_turn(start, turns),
        0 <= i <= turns.len(),
    ensures
        memory_behind(start, turns, i).suffix == pending(start, turns, i),
    decreases i,
{
    if i > 0 {
        triggers_stay_until_taken(start, turns, i - 1);
        let turn = turns[i - 1];
        let before = turn.before.memory.suffix;
        if turn.prog_off > turn.sc.bc.len() {
            assert(before + turn_triggers(turn) =~= before);
        } else {
            program_keeps_its_triggers(
                turn.sc,
                Machine { at: turn.prog_off as int, work_done: false, fx: turn.before },
                replies_of(turn.after.log),
                budget(turn.sc.bc),
            );
        }
    }
}

/// Two turns were asked for in the same way, whatever memory they had, and
/// their reports were answered alike.
pub open spec fn asked_alike(one: Turn, other: Turn) -> bool {
    &&& one.took == other.took
    &&& one.sc == other.sc
    &&& one.prog_off == other.prog_off
    &&& one.before.groups == other.before.groups
    &&& one.before.delayed == other.before.delayed
    &&& one.before.squash == other.before.squash
    &&& one.before.log == other.before.log
    &&& replied_alike(one.after.log, other.after.log)
}

/// Two memories that begin alike behave alike, over any number of programs:
/// the reports, the other effects and the results are the same, and so are the
/// suffix triggers that are taken. So a memory that was cleared cannot be told
/// from a new one, since both are blank.
pub proof fn equal_memories_behave_alike(
    start: Memory,
    one: Seq<Turn>,
    other: Seq<Turn>,
    i: int,
)
    requires
        made_in_turn(start, one),
        made_in_turn(start, other),
        one.len() == other.len(),
        forall|j: int|
            #![trigger one[j], other[j]]
            0 <= j < one.len() ==> asked_alike(one[j], other[j]),
        0 <= i <= one.len(),
    ensures
        forall|j: int| 0 <= j < i ==> #[trigger] one[j] == other[j],
        memory_behind(start, one, i) == memory_behind(start, other, i),
    decreases i,
{
    if i > 0 {
        equal_memories_behave_alike(start, one, other, i - 1);
        let (a, b) = (one[i - 1], other[i - 1]);
        assert(asked_alike(a, b));
        assert(a.before == b.before);
        programs_are_alike(
            a.sc,
            a.prog_off,
            a.before,
            (a.after, a.result),
            (b.after, b.result),
        );
        assert(a == b);
    }
}

/// A program after `n` instructions, if it did not stop before.
pub open spec fn steps(sc: Scene, m: Machine, o: Replies, n: nat) -> Option<Machine>
    decreases n,
{
    if n == 0 {
        Some(m)
    } else {
        match step(sc, m, o) {
            Step::Go(m2) => steps(sc, m2, o, (n - 1) as nat),
            Step::Stop(fx, r) => None,
        }
    }
}

/// The instruction at `at` is a deduplicated report with this pair of key and
/// offset.
pub open spec fn is_dedupe(sc: Scene, at: int, pair: (u32, u64)) -> bool {
    &&& fits(sc.bc, at, 20)
    &&& sc.bc[at] == op::DEDUPE_AND_REPORT
    &&& dedupe_pair(sc, at) == pair
}

/// Instruction `n` that a program executes is a deduplicated report with this
/// pair.
pub open spec fn dedupes_at(sc: Scene, m: Machine, o: Replies, n: nat, pair: (u32, u64)) -> bool {
    match steps(sc, m, o, n) {
        Some(m2) => is_dedupe(sc, m2.at, pair),
        None => false,
    }
}

proof fn lemma_step_sees(sc: Scene, m: Machine, o: Replies, pair: (u32, u64))
    ensures
        ({
            let seen = match step(sc, m, o) {
                Step::Go(m2) => m2.fx.memory.seen,
                Step::Stop(fx, r) => fx.memory.seen,
            };
            seen.contains(pair) <==> m.fx.memory.seen.contains(pair) || is_dedupe(sc, m.at, pair)
        }),
{
    reveal(act);
}

/// What a program remembers after `n` instructions: what it did before, and
/// the pairs of its deduplicated reports so far.
proof fn lemma_steps_see(sc: Scene, m: Machine, o: Replies, n: nat, pair: (u32, u64))
    requires
        steps(sc, m, o, n) is Some,
    ensures
        steps(sc, m, o, n)->0.fx.memory.seen.contains(pair) <==> m.fx.memory.seen.contains(pair)
            || exists|k: nat| k < n && #[trigger] dedupes_at(sc, m, o, k, pair),
    decreases n,
{
    if n > 0 {
        lemma_step_sees(sc, m, o, pair);
        let m2 = step(sc, m, o)->Go_0;
        lemma_steps_see(sc, m2, o, (n - 1) as nat, pair);
        lemma_shift(sc, m, m2, o, n, pair);
    }
}

/// The deduplicated reports of a program are that of its first instruction
/// and those of the others.
proof fn lemma_shift(sc: Scene, m: Machine, m2: Machine, o: Replies, n: nat, pair: (u32, u64))
    requires
        n > 0,
        step(sc, m, o) == Step::Go(m2),
    ensures
        (exists|k: nat| k < n && #[trigger] dedupes_at(sc, m, o, k, pair)) <==> is_dedupe(
            sc,
            m.at,
            pair,
        ) || exists|k: nat| k < n - 1 && #[trigger] dedupes_at(sc, m2, o, k, pair),
{
    assert(dedupes_at(sc, m, o, 0, pair) == is_dedupe(sc, m.at, pair));
    if exists|k: nat| k < n && #[trigger] dedupes_at(sc, m, o, k, pair) {
        let k = choose|k: nat| k < n && #[trigger] dedupes_at(sc, m, o, k, pair);
        if k > 0 {
            assert(dedupes_at(sc, m2, o, (k - 1) as nat, pair));
        }
    }
    if exists|k: nat| k < n - 1 && #[trigger] dedupes_at(sc, m2, o, k, pair) {
        let k = choose|k: nat| k < n - 1 && #[trigger] dedupes_at(sc, m2, o, k, pair);
        assert(dedupes_at(sc, m, o, k + 1, pair));
    }
}

/// What a program remembers when it ends.
proof fn lemma_run_sees(sc: Scene, m: Machine, o: Replies, budget: nat, pair: (u32, u64))
    ensures
        run(sc, m, o, budget).0.memory.seen.contains(pair) <==> m.fx.memory.seen.contains(pair)
            || exists|k: nat| k < budget && #[trigger] dedupes_at(sc, m, o, k, pair),
    decreases budget,
{
    if budget > 0 {
        lemma_step_sees(sc, m, o, pair);
        assert(dedupes_at(sc, m, o, 0, pair) == is_dedupe(sc, m.at, pair));
        match step(sc, m, o) {
            Step::Go(m2) => {
                lemma_run_sees(sc, m2, o, (budget - 1) as nat, pair);
                lemma_shift(sc, m, m2, o, budget, pair);
            },
            Step::Stop(fx, r) => {},
        }
    }
}

/// Where a turn stands when it comes to its instruction `n`, counted from 0,
/// if it does.
pub open spec fn stand(turn: Turn, n: nat) -> Option<Machine> {
    if turn.prog_off > turn.sc.bc.len() || n >= budget(turn.sc.bc) {
        None
    } else {
        steps(
            turn.sc,
            Machine { at: turn.prog_off as int, work_done: false, fx: turn.before },
            replies_of(turn.after.log),
            n,
        )
    }
}

/// Instruction `n` that a turn executes is a deduplicated report with this
/// pair of key and offset.
pub open spec fn deduped(turn: Turn, n: nat, pair: (u32, u64)) -> bool {
    match stand(turn, n) {
        Some(m) => is_dedupe(turn.sc, m.at, pair),
        None => false,
    }
}

/// A deduplicated report with this pair was executed before instruction `n`
/// of turn `i`: in an earlier turn, or earlier in the same one.
pub open spec fn deduped_before(turns: Seq<Turn>, i: int, n: nat, pair: (u32, u64)) -> bool {
    exists|j: int, k: nat|
        0 <= j && (j < i || (j == i && k < n)) && #[trigger] deduped(turns[j], k, pair)
}

/// What a memory holds behind some turns: what it did at the start, and the
/// pairs of every deduplicated report that was executed since.
proof fn lemma_turns_see(start: Memory, turns: Seq<Turn>, i: int, pair: (u32, u64))
    requires
        made_in_turn(start, turns),
        0 <= i <= turns.len(),
    ensures
        memory_behind(start, turns, i).seen.contains(pair) <==> start.seen.contains(pair)
            || deduped_before(turns, i, 0, pair),
    decreases i,
{
    if i > 0 {
        lemma_turns_see(start, turns, i - 1, pair);
        let turn = turns[i - 1];
        let m = Machine { at: turn.prog_off as int, work_done: false, fx: turn.before };
        let o = replies_of(turn.after.log);
        assert(made(turn));
        if turn.prog_off <= turn.sc.bc.len() {
            lemma_run_sees(turn.sc, m, o, budget(turn.sc.bc), pair);
            if exists|k: nat|
                k < budget(turn.sc.bc) && #[trigger] dedupes_at(turn.sc, m, o, k, pair) {
                let k = choose|k: nat|
                    k < budget(turn.sc.bc) && #[trigger] dedupes_at(turn.sc, m, o, k, pair);
                assert(deduped(turns[i - 1], k, pair));
            }
        }
        if deduped_before(turns, i - 1, 0, pair) {
            let (j, k) = choose|j: int, k: nat|
                0 <= j && (j < i - 1 || (j == i - 1 && k < 0)) && #[trigger] deduped(
                    turns[j],
                    k,
                    pair,
                );
            assert(deduped(turns[j], k, pair));
        }
        if deduped_before(turns, i, 0, pair) {
            let (j, k) = choose|j: int, k: nat|
                0 <= j && (j < i || (j == i && k < 0)) && #[trigger] deduped(turns[j], k, pair);
            if j == i - 1 {
                assert(dedupes_at(turn.sc, m, o, k, pair));
            } else {
                assert(deduped_before(turns, i - 1, 0, pair));
            }
        }
    }
}

/// Over any number of programs with one memory, a deduplicated report is made
/// exactly once for each pair of key and offset: when the pair is new, that is,
/// not in the memory at the start and not executed since. Otherwise nothing is
/// reported, and the program goes on at the jump.
pub proof fn pairs_are_reported_once(start: Memory, turns: Seq<Turn>, i: int, n: nat)
    requires
        made_in_turn(start, turns),
        0 <= i < turns.len(),
        stand(turns[i], n) is Some,
        is_dedupe(
            turns[i].sc,
            stand(turns[i], n)->0.at,
            dedupe_pair(turns[i].sc, stand(turns[i], n)->0.at),
        ),
    ensures
        ({
            let turn = turns[i];
            let m = stand(turn, n)->0;
            let o = replies_of(turn.after.log);
            let pair = dedupe_pair(turn.sc, m.at);
            step(turn.sc, m, o) == dedupe_step(
                turn.sc,
                m,
                o,
                start.seen.contains(pair) || deduped_before(turns, i, n, pair),
            )
        }),
{
    let turn = turns[i];
    let entry = Machine { at: turn.prog_off as int, work_done: false, fx: turn.before };
    let o = replies_of(turn.after.log);
    let m = stand(turn, n)->0;
    let pair = dedupe_pair(turn.sc, m.at);
    pair_is_reported_once(turn.sc, m, o);
    lemma_turns_see(start, turns, i, pair);
    lemma_steps_see(turn.sc, entry, o, n, pair);
    if exists|k: nat| k < n && #[trigger] dedupes_at(turn.sc, entry, o, k, pair) {
        let k = choose|k: nat| k < n && #[trigger] dedupes_at(turn.sc, entry, o, k, pair);
        assert(deduped(turns[i], k, pair));
    }
    if deduped_before(turns, i, 0, pair) {
        let (j, k) = choose|j: int, k: nat|
            0 <= j && (j < i || (j == i && k < 0)) && #[trigger] deduped(turns[j], k, pair);
        assert(deduped(turns[j], k, pair));
    }
    if deduped_before(turns, i, n, pair) {
        let (j, k) = choose|j: int, k: nat|
            0 <= j && (j < i || (j == i && k < n)) && #[trigger] deduped(turns[j], k, pair);
        if j == i {
            assert(dedupes_at(turn.sc, entry, o, k, pair));
        } else {
            assert(deduped_before(turns, i, 0, pair));
        }
    }
}

/// A pair that was reported in one program is not reported again in a later
/// one, nor later in the same one, as long as the memory is not cleared: the
/// instruction changes nothing, and the program goes on at the jump.
pub proof fn pair_is_not_reported_again(
    start: Memory,
    turns: Seq<Turn>,
    j: int,
    k: nat,
    i: int,
    n: nat,
    pair: (u32, u64),
)
    requires
        made_in_turn(start, turns),
        0 <= j,
        j < i || (j == i && k < n),
        i < turns.len(),
        deduped(turns[j], k, pair),
        deduped(turns[i], n, pair),
    ensures
        ({
            let turn = turns[i];
            let m = stand(turn, n)->0;
            step(turn.sc, m, replies_of(turn.after.log)) == Step::Go(
                Machine {
                    at: target(
                        turn.sc.bc.len(),
                        m.at,
                        Branch::Jump(le32(turn.sc.bc, m.at + 16)),
                    ),
                    work_done: true,
                    ..m
                },
            )
        }),
{
    assert(deduped_before(turns, i, n, pair));
    pairs_are_reported_once(start, turns, i, n);
}

} // verus!
