//! Running literal programs over a scan, with the literals that they delay.
//!
//! A program can ask for a delayed literal to be replayed some bytes further
//! on. Replays happen in order of their offsets, and before a direct match at
//! the same offset.

use vstd::prelude::*;

use crate::hwlm::{
    agrees, calls_of, lemma_agrees_extend, Answers, Call, Hit, HitSink, Reply, ScanCtl,
};
use crate::literal::dedupe::{blank, Dedupe, Memory};
use crate::literal::program::{effects, interpret, program, scene};
use crate::literal::report::{lemma_replies_prefix, replies_agree, Replies, Report, ReportSink};
use crate::literal::InterpError;
use crate::rose::RoseEngine;
use crate::scan::slots::{any_due, before, is_least, least, Slot, Slots};

verus! {

/// A scan between two hits.
#[verifier::ext_equal]
pub struct Delay {
    /// Groups that are switched on.
    pub groups: u64,
    pub memory: Memory,
    /// Replays that wait.
    pub slots: Set<Slot>,
    /// Up to here replays have happened.
    pub last_end: u64,
    /// Every report so far.
    pub log: Seq<Report>,
    /// The error that ended the scan.
    pub err: Option<InterpError>,
}

impl Delay {
    /// There are finitely many replays, and none is in front of those that
    /// happened.
    pub open spec fn wf(&self) -> bool {
        &&& self.slots.finite()
        &&& forall|x: Slot| #[trigger] self.slots.contains(x) ==> x.0 >= self.last_end
    }
}

/// The start of a scan.
pub open spec fn start(rose: &RoseEngine) -> Delay {
    Delay {
        groups: rose.initial_groups,
        memory: blank(),
        slots: Set::empty(),
        last_end: 0,
        log: Seq::empty(),
        err: None,
    }
}

/// The replays that a program asked for at offset `end`, added to those that
/// wait. A replay that would not be behind `last_end` is dropped.
pub open spec fn pushed(slots: Set<Slot>, delayed: Seq<(u8, u32)>, end: u64, last_end: u64) -> Set<
    Slot,
>
    decreases delayed.len(),
{
    if delayed.len() == 0 {
        slots
    } else {
        let rest = pushed(slots, delayed.drop_last(), end, last_end);
        let replay = end.wrapping_add(delayed.last().0 as u64);
        if replay <= last_end {
            rest
        } else {
            rest.insert((replay, delayed.last().1))
        }
    }
}

/// Runs a program at offset `end`, and what is answered to whoever asked.
pub open spec fn play(
    rose: &RoseEngine,
    data: Seq<u8>,
    d: Delay,
    prog_off: u32,
    end: u64,
    in_confirm: bool,
    o: Replies,
) -> (Delay, Reply) {
    let (fx, r) = program(
        scene(rose, data, end, in_confirm),
        prog_off,
        effects(d.groups, d.memory, Seq::empty(), 0, d.log),
        o,
    );
    let d2 = Delay { groups: fx.groups, memory: fx.memory, log: fx.log, ..d };
    match r {
        Err(e) => (
            Delay { err: Some(e), ..d2 },
            Reply { ctl: ScanCtl::Terminate, squash: 0 },
        ),
        Ok(ctl) => (
            Delay { slots: pushed(d.slots, fx.delayed, end, d.last_end), ..d2 },
            Reply { ctl, squash: fx.squash },
        ),
    }
}

/// The replays at the offset that was reached last.
pub open spec fn at_last_end(d: Delay) -> Set<Slot> {
    d.slots.filter(|x: Slot| x.0 == d.last_end)
}

/// Replays what is due up to an offset, in order.
pub open spec fn flush(rose: &RoseEngine, data: Seq<u8>, d: Delay, curr_end: u64, o: Replies) -> (
    Delay,
    ScanCtl,
)
    decreases
            if curr_end >= d.last_end {
                curr_end - d.last_end
            } else {
                0
            },
            at_last_end(d).len(),
    when d.wf()
    via flush_decreases
{
    if !any_due(d.slots, curr_end) {
        let last_end = if curr_end >= d.last_end {
            curr_end
        } else {
            d.last_end
        };
        (Delay { last_end, ..d }, ScanCtl::Continue)
    } else {
        let x = least(d.slots);
        let d1 = Delay { slots: d.slots.remove(x), last_end: x.0, ..d };
        match rose.delayed_program(x.1) {
            Err(e) => (
                Delay { err: Some(InterpError::Rose(e)), ..d1 },
                ScanCtl::Terminate,
            ),
            Ok(prog) => {
                let (d2, reply) = play(rose, data, d1, prog, x.0, false, o);
                if reply.ctl == ScanCtl::Terminate {
                    (d2, ScanCtl::Terminate)
                } else {
                    flush(rose, data, d2, curr_end, o)
                }
            },
        }
    }
}

/// What is added is finite and behind the last offset; what was there stays.
pub proof fn lemma_pushed(slots: Set<Slot>, delayed: Seq<(u8, u32)>, end: u64, last_end: u64)
    requires
        slots.finite(),
    ensures
        pushed(slots, delayed, end, last_end).finite(),
        forall|x: Slot| #[trigger]
            pushed(slots, delayed, end, last_end).contains(x) ==> slots.contains(x) || x.0
                > last_end,
        forall|x: Slot|
            slots.contains(x) ==> #[trigger] pushed(slots, delayed, end, last_end).contains(x),
    decreases delayed.len(),
{
    if delayed.len() > 0 {
        lemma_pushed(slots, delayed.drop_last(), end, last_end);
    }
}

/// The first of finitely many slots is there.
proof fn lemma_least(slots: Set<Slot>)
    requires
        slots.finite(),
        exists|x: Slot| slots.contains(x),
    ensures
        is_least(slots, least(slots)),
    decreases slots.len(),
{
    let x = choose|x: Slot| slots.contains(x);
    let rest = slots.remove(x);
    let first = if exists|y: Slot| rest.contains(y) {
        lemma_least(rest);
        let y = least(rest);
        if before(x, y) {
            x
        } else {
            y
        }
    } else {
        x
    };
    assert forall|y: Slot| #[trigger] slots.contains(y) implies y == first || before(first, y) by {
        if y != x {
            assert(rest.contains(y));
        }
    }
    assert(is_least(slots, first));
}

/// One replay leads on: to a larger offset, or to fewer replays at this one.
pub proof fn lemma_replay(
    rose: &RoseEngine,
    data: Seq<u8>,
    d: Delay,
    curr_end: u64,
    o: Replies,
)
    requires
        d.wf(),
        any_due(d.slots, curr_end),
    ensures
        ({
            let x = least(d.slots);
            let d1 = Delay { slots: d.slots.remove(x), last_end: x.0, ..d };
            &&& is_least(d.slots, x)
            &&& d.last_end <= x.0 <= curr_end
            &&& d1.wf()
            &&& forall|prog: u32, in_confirm: bool|
                {
                    let d2 = #[trigger] play(rose, data, d1, prog, x.0, in_confirm, o).0;
                    &&& d2.wf()
                    &&& d2.last_end == x.0
                    &&& x.0 == d.last_end ==> at_last_end(d2).len() < at_last_end(d).len()
                }
        }),
{
    let w = choose|w: Slot| #[trigger] d.slots.contains(w) && w.0 <= curr_end;
    lemma_least(d.slots);
    let x = least(d.slots);
    assert(w == x || before(x, w));
    let d1 = Delay { slots: d.slots.remove(x), last_end: x.0, ..d };
    assert forall|y: Slot| #[trigger] d1.slots.contains(y) implies y.0 >= d1.last_end by {
        assert(d.slots.contains(y));
    }
    assert forall|prog: u32, in_confirm: bool|
        {
            let d2 = #[trigger] play(rose, data, d1, prog, x.0, in_confirm, o).0;
            &&& d2.wf()
            &&& d2.last_end == x.0
            &&& x.0 == d.last_end ==> at_last_end(d2).len() < at_last_end(d).len()
        } by {
        let (d2, reply) = play(rose, data, d1, prog, x.0, in_confirm, o);
        let (fx, r) = program(
            scene(rose, data, x.0, in_confirm),
            prog,
            effects(d1.groups, d1.memory, Seq::empty(), 0, d1.log),
            o,
        );
        lemma_pushed(d1.slots, fx.delayed, x.0, d1.last_end);
        if x.0 == d.last_end {
            assert(at_last_end(d2) =~= at_last_end(d).remove(x));
            assert(at_last_end(d).contains(x));
            assert(at_last_end(d).finite());
        }
    }
}

#[via_fn]
proof fn flush_decreases(
    rose: &RoseEngine,
    data: Seq<u8>,
    d: Delay,
    curr_end: u64,
    o: Replies,
) {
    if any_due(d.slots, curr_end) {
        lemma_replay(rose, data, d, curr_end, o);
    }
}

/// A direct match: what is due comes first, the program of the match after.
pub open spec fn on_hit(rose: &RoseEngine, data: Seq<u8>, d: Delay, call: Call, o: Replies) -> (
    Delay,
    Reply,
) {
    let stop = Reply { ctl: ScanCtl::Terminate, squash: 0 };
    if d.err is Some {
        (d, stop)
    } else {
        let real_end = (call.end + 1) as u64;
        let (d1, ctl) = flush(rose, data, d, real_end, o);
        if ctl == ScanCtl::Terminate {
            (d1, stop)
        } else {
            play(rose, data, d1, call.id, real_end, true, o)
        }
    }
}

/// The scan after a sequence of direct matches.
pub open spec fn after_hits(rose: &RoseEngine, data: Seq<u8>, calls: Seq<Call>, o: Replies) -> Delay
    decreases calls.len(),
{
    if calls.len() == 0 {
        start(rose)
    } else {
        on_hit(rose, data, after_hits(rose, data, calls.drop_last(), o), calls.last(), o).0
    }
}

/// How a scan answers the engine's calls.
pub open spec fn delay_answers(rose: &RoseEngine, data: Seq<u8>, o: Replies) -> Answers {
    |calls: Seq<Call>|
        on_hit(
            rose,
            data,
            after_hits(rose, data, calls.drop_last(), o),
            calls.last(),
            o,
        ).1
}

/// A scan with a database: takes the hits of the engine, runs the programs of
/// the literals, and hands their reports to a sink.
pub struct DelayScan<'a, 'd, R: ReportSink> {
    pub rose: &'d RoseEngine<'a>,
    pub data: &'d [u8],
    pub groups: u64,
    pub dedupe: Dedupe,
    pub slots: Slots,
    pub delay_last_end: u64,
    pub reports: R,
    pub err: Option<InterpError>,
    pub hits: Ghost<Seq<Hit>>,
}

impl<'a, 'd, R: ReportSink> DelayScan<'a, 'd, R> {
    /// The scan as a whole.
    pub open spec fn state(&self) -> Delay {
        Delay {
            groups: self.groups,
            memory: self.dedupe@,
            slots: self.slots@,
            last_end: self.delay_last_end,
            log: self.reports.log(),
            err: self.err,
        }
    }

    /// Holds at any time.
    pub open spec fn ready(&self) -> bool {
        &&& self.slots.wf()
        &&& self.state().wf()
        &&& self.reports.inv()
    }

    /// What no step changes.
    pub open spec fn setting(&self) -> (RoseEngine<'a>, Seq<u8>, R::Fixed, Seq<Hit>) {
        (*self.rose, self.data@, self.reports.fixed(), self.hits@)
    }

    /// Runs a program at offset `end`.
    fn run_prog(&mut self, prog_off: u32, end: u64, in_confirm: bool) -> (r: (ScanCtl, u8))
        requires
            old(self).ready(),
            end <= old(self).data@.len(),
        ensures
            final(self).ready(),
            final(self).setting() == old(self).setting(),
            old(self).reports.log().is_prefix_of(final(self).reports.log()),
            forall|o: Replies| #[trigger]
                replies_agree(o, final(self).reports.log()) ==> play(
                    old(self).rose,
                    old(self).data@,
                    old(self).state(),
                    prog_off,
                    end,
                    in_confirm,
                    o,
                ) == (final(self).state(), Reply { ctl: r.0, squash: r.1 }),
    {
        let mut delayed: Vec<(u8, u32)> = Vec::new();
        let mut squash: u8 = 0;
        let mut groups: u64 = self.groups;
        let r = interpret(
            self.rose,
            prog_off,
            end,
            self.data,
            &mut groups,
            &mut self.dedupe,
            &mut self.reports,
            &mut delayed,
            in_confirm,
            &mut squash,
        );
        self.groups = groups;
        let ctl = match r {
            Err(e) => {
                self.err = Some(e);
                return (ScanCtl::Terminate, 0);
            },
            Ok(ctl) => ctl,
        };
        let ghost slots0 = self.slots@;
        let mut k: usize = 0;
        proof {
            assert(delayed@.take(0) =~= Seq::empty());
        }
        let ghost before_loop = *self;
        while k < delayed.len()
            invariant
                k <= delayed@.len(),
                self.slots.wf(),
                self.slots@ == pushed(
                    slots0,
                    delayed@.take(k as int),
                    end,
                    self.delay_last_end,
                ),
                end <= self.data@.len(),
                *self == (DelayScan { slots: self.slots, ..before_loop }),
            decreases delayed@.len() - k,
        {
            let (delay, index) = delayed[k];
            let replay: u64 = end.wrapping_add(delay as u64);
            proof {
                assert(delayed@.take(k + 1).drop_last() =~= delayed@.take(k as int));
            }
            if replay > self.delay_last_end {
                self.slots.insert(replay, index);
            }
            k = k + 1;
        }
        proof {
            assert(delayed@.take(k as int) =~= delayed@);
            lemma_pushed(slots0, delayed@, end, self.delay_last_end);
        }
        (ctl, squash)
    }
}

impl<'a, 'd, R: ReportSink> DelayScan<'a, 'd, R> {
    /// Replays what is due up to an offset, in order.
    pub fn flush(&mut self, curr_end: u64) -> (r: ScanCtl)
        requires
            old(self).ready(),
            curr_end <= old(self).data@.len(),
        ensures
            final(self).ready(),
            final(self).setting() == old(self).setting(),
            old(self).reports.log().is_prefix_of(final(self).reports.log()),
            forall|o: Replies| #[trigger]
                replies_agree(o, final(self).reports.log()) ==> flush(
                    old(self).rose,
                    old(self).data@,
                    old(self).state(),
                    curr_end,
                    o,
                ) == (final(self).state(), r),
    {
        let ghost rose = self.rose;
        let ghost data = self.data@;
        loop
            invariant
                self.ready(),
                rose == self.rose,
                data == self.data@,
                curr_end <= data.len(),
                self.setting() == old(self).setting(),
                old(self).reports.log().is_prefix_of(self.reports.log()),
                forall|o: Replies| #[trigger]
                    replies_agree(o, self.reports.log()) ==> flush(
                        old(self).rose,
                        old(self).data@,
                        old(self).state(),
                        curr_end,
                        o,
                    ) == flush(rose, data, self.state(), curr_end, o),
            decreases
                    if curr_end >= self.delay_last_end {
                        curr_end - self.delay_last_end
                    } else {
                        0
                    },
                    at_last_end(self.state()).len(),
        {
            let ghost d = self.state();
            let ghost log0 = self.reports.log();
            let x = match self.slots.pop_due(curr_end) {
                None => {
                    if curr_end > self.delay_last_end {
                        self.delay_last_end = curr_end;
                    }
                    assert(self.state().wf()) by {
                        assert forall|y: Slot| #[trigger] self.slots@.contains(y) implies y.0
                            >= self.delay_last_end by {
                            assert(d.slots.contains(y));
                        }
                    }
                    return ScanCtl::Continue;
                },
                Some(x) => x,
            };
            let ghost some_replies: Replies = |i: int| ScanCtl::Continue;
            proof {
                lemma_replay(rose, data, d, curr_end, some_replies);
            }
            self.delay_last_end = x.0;
            let ghost d1 = self.state();
            assert(d1 == (Delay { slots: d.slots.remove(x), last_end: x.0, ..d }));
            match self.rose.delay_program(x.1) {
                Err(e) => {
                    self.err = Some(InterpError::Rose(e));
                    return ScanCtl::Terminate;
                },
                Ok(prog) => {
                    let (ctl, _squash) = self.run_prog(prog, x.0, false);
                    proof {
                        let o = crate::literal::report::replies_of(self.reports.log());
                        assert(replies_agree(o, self.reports.log()));
                        lemma_replay(rose, data, d, curr_end, o);
                        assert(play(rose, data, d1, prog, x.0, false, o).0 == self.state());
                        assert forall|o: Replies| #[trigger] replies_agree(
                            o,
                            self.reports.log(),
                        ) implies replies_agree(o, log0) by {
                            lemma_replies_prefix(o, self.reports.log(), log0);
                        }
                    }
                    if ctl == ScanCtl::Terminate {
                        return ScanCtl::Terminate;
                    }
                },
            }
        }
    }

    /// A direct match whose last byte is at `end_last_byte`: what is due comes
    /// first, its program after.
    pub fn on_hit(&mut self, end_last_byte: u64, prog_off: u32) -> (r: (ScanCtl, u8))
        requires
            old(self).ready(),
            end_last_byte < old(self).data@.len(),
        ensures
            final(self).ready(),
            final(self).setting() == old(self).setting(),
            old(self).reports.log().is_prefix_of(final(self).reports.log()),
            forall|o: Replies| #[trigger]
                replies_agree(o, final(self).reports.log()) ==> on_hit(
                    old(self).rose,
                    old(self).data@,
                    old(self).state(),
                    Call { end: end_last_byte, id: prog_off },
                    o,
                ) == (final(self).state(), Reply { ctl: r.0, squash: r.1 }),
    {
        if self.err.is_some() {
            return (ScanCtl::Terminate, 0);
        }
        assert(self.data@.len() == self.data.len());
        let real_end: u64 = end_last_byte + 1;
        if self.flush(real_end) == ScanCtl::Terminate {
            return (ScanCtl::Terminate, 0);
        }
        let ghost log1 = self.reports.log();
        let r = self.run_prog(prog_off, real_end, true);
        proof {
            assert forall|o: Replies| #[trigger] replies_agree(
                o,
                self.reports.log(),
            ) implies replies_agree(o, log1) by {
                lemma_replies_prefix(o, self.reports.log(), log1);
            }
        }
        r
    }
}

impl<'a, 'd, R: ReportSink> HitSink for DelayScan<'a, 'd, R> {
    type Fixed = (RoseEngine<'a>, Seq<u8>, R::Fixed);

    open spec fn fixed(&self) -> (RoseEngine<'a>, Seq<u8>, R::Fixed) {
        (*self.rose, self.data@, self.reports.fixed())
    }

    open spec fn log(&self) -> Seq<Hit> {
        self.hits@
    }

    open spec fn inv(&self) -> bool {
        &&& self.ready()
        &&& forall|o: Replies| #[trigger]
            replies_agree(o, self.reports.log()) ==> after_hits(
                self.rose,
                self.data@,
                calls_of(self.hits@),
                o,
            ) == self.state() && agrees(delay_answers(self.rose, self.data@, o), self.hits@)
    }

    open spec fn limit(&self) -> nat {
        self.data@.len()
    }

    fn hit(&mut self, end: u64, id: u32) -> (r: (ScanCtl, u8)) {
        let ghost hits0 = self.hits@;
        let ghost log0 = self.reports.log();
        let ghost d0 = self.state();
        let r = self.on_hit(end, id);
        let ghost hit = Hit {
            call: Call { end, id },
            reply: Reply { ctl: r.0, squash: r.1 },
        };
        self.hits = Ghost(hits0.push(hit));
        proof {
            let calls = calls_of(hits0);
            assert(calls_of(self.hits@) =~= calls.push(hit.call));
            assert(calls.push(hit.call).drop_last() =~= calls);
            assert forall|o: Replies| #[trigger] replies_agree(
                o,
                self.reports.log(),
            ) implies after_hits(self.rose, self.data@, calls_of(self.hits@), o) == self.state()
                && agrees(delay_answers(self.rose, self.data@, o), self.hits@) by {
                lemma_replies_prefix(o, self.reports.log(), log0);
                assert(after_hits(self.rose, self.data@, calls, o) == d0);
                lemma_agrees_extend(delay_answers(self.rose, self.data@, o), hits0, hit);
            }
        }
        r
    }
}

} // verus!
