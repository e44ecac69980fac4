//! Literal matching engines and the protocol between an engine and whoever
//! receives its hits.
//!
//! Engine tables come as bytes out of the bytecode, which is not trusted:
//! every offset is checked when a table is parsed.

pub mod causes;
pub mod confirm;
pub mod fdr;
pub mod finds;
pub mod flood;
pub mod hits;
pub mod laws;
pub mod noodle;
pub mod records;
pub mod replay;
pub mod rooms;
pub mod runs;
pub mod single;
pub mod tables;
pub mod teddy;
pub mod texts;
pub mod zones;

use vstd::prelude::*;

verus! {

/// What a callback tells the scan to do next.
#[derive(Debug, Clone, Copy, PartialEq, Eq, Structural)]
pub enum ScanCtl {
    Continue,
    Terminate,
}

/// How an engine run ended: at the end of the data, or by a callback.
#[derive(Debug, Clone, Copy, PartialEq, Eq, Structural)]
pub enum ExecResult {
    Completed,
    Terminated,
}

/// Why an engine table is not accepted.
#[derive(Debug, Clone, PartialEq, Eq)]
pub enum HwlmError {
    /// There are fewer bytes than the table's header asks for.
    Truncated,
    /// A field of the table holds a value that is not allowed.
    BadTable(&'static str),
}

/// What an engine hands to its callback: the index of the last byte of the
/// literal, and the literal's id.
pub struct Call {
    pub end: u64,
    pub id: u32,
}

/// What the callback answers: whether to go on, and which buckets of the
/// current position to squash.
pub struct Reply {
    pub ctl: ScanCtl,
    pub squash: u8,
}

/// A call together with the answer that it got.
pub struct Hit {
    pub call: Call,
    pub reply: Reply,
}

/// A way to answer calls: from all calls so far, the current one included, to
/// the answer to the current one.
pub type Answers = spec_fn(Seq<Call>) -> Reply;

/// The calls of a log, without the answers.
pub open spec fn calls_of(log: Seq<Hit>) -> Seq<Call> {
    log.map_values(|h: Hit| h.call)
}

/// Every answer in the log is the one that `s` gives.
pub open spec fn agrees(s: Answers, log: Seq<Hit>) -> bool {
    forall|i: int|
        0 <= i < log.len() ==> s(calls_of(log.take(i + 1))) == (#[trigger] log[i]).reply
}

/// The answers of a log, by position.
pub open spec fn answers_of(log: Seq<Hit>) -> Answers {
    |calls: Seq<Call>| log[calls.len() - 1].reply
}

/// A log is described by its own answers.
pub proof fn lemma_answers_of_agrees(log: Seq<Hit>)
    ensures
        agrees(answers_of(log), log),
{
}

/// Answers that agree with a log agree with it before its last call, and give
/// the last answer to that call.
pub proof fn lemma_agrees_push(s: Answers, log: Seq<Hit>, hit: Hit)
    requires
        agrees(s, log.push(hit)),
    ensures
        agrees(s, log),
        s(calls_of(log).push(hit.call)) == hit.reply,
        calls_of(log.push(hit)) == calls_of(log).push(hit.call),
{
    let longer = log.push(hit);
    assert(calls_of(longer) =~= calls_of(log).push(hit.call));
    assert(longer.take(longer.len() as int) =~= longer);
    assert(longer[log.len() as int] == hit);
    assert forall|i: int| 0 <= i < log.len() implies s(calls_of(log.take(i + 1))) == (
    #[trigger] log[i]).reply by {
        assert(longer.take(i + 1) =~= log.take(i + 1));
        assert(longer[i] == log[i]);
    }
}

/// Answers that agree with a log agree with each of its beginnings.
pub proof fn lemma_agrees_prefix(s: Answers, log: Seq<Hit>, shorter: Seq<Hit>)
    requires
        agrees(s, log),
        shorter.is_prefix_of(log),
    ensures
        agrees(s, shorter),
{
    assert forall|i: int| 0 <= i < shorter.len() implies s(calls_of(shorter.take(i + 1))) == (
    #[trigger] shorter[i]).reply by {
        assert(log.take(i + 1) =~= shorter.take(i + 1));
        assert(log[i] == shorter[i]);
    }
}

/// The converse: answers that agree with a log and give `hit`'s answer next
/// agree with the longer log.
pub proof fn lemma_agrees_extend(s: Answers, log: Seq<Hit>, hit: Hit)
    requires
        agrees(s, log),
        s(calls_of(log).push(hit.call)) == hit.reply,
    ensures
        agrees(s, log.push(hit)),
{
    let longer = log.push(hit);
    assert(calls_of(longer) =~= calls_of(log).push(hit.call));
    assert forall|i: int| 0 <= i < longer.len() implies s(calls_of(longer.take(i + 1))) == (
    #[trigger] longer[i]).reply by {
        if i < log.len() {
            assert(longer.take(i + 1) =~= log.take(i + 1));
            assert(longer[i] == log[i]);
        } else {
            assert(longer.take(i + 1) =~= longer);
        }
    }
}

/// Receives the hits of an engine.
pub trait HitSink: Sized {
    /// What no call changes.
    type Fixed;

    spec fn fixed(&self) -> Self::Fixed;

    /// Every hit so far.
    spec fn log(&self) -> Seq<Hit>;

    /// Holds between calls.
    spec fn inv(&self) -> bool;

    /// Calls end below this position.
    spec fn limit(&self) -> nat;

    fn hit(&mut self, end: u64, id: u32) -> (r: (ScanCtl, u8))
        requires
            old(self).inv(),
            end < old(self).limit(),
        ensures
            final(self).inv(),
            final(self).fixed() == old(self).fixed(),
            final(self).limit() == old(self).limit(),
            final(self).log() == old(self).log().push(
                (Hit { call: Call { end, id }, reply: Reply { ctl: r.0, squash: r.1 } }),
            ),
    ;
}

/// A sink that asks a closure and keeps every squash byte that it answers.
pub struct SquashSink<'a, F: FnMut(u64, u32) -> (ScanCtl, u8)> {
    pub cb: &'a mut F,
    pub hits: Ghost<Seq<Hit>>,
}

/// Every answer in the log is one that the closure can give.
pub open spec fn answered_with_squash<F: FnMut(u64, u32) -> (ScanCtl, u8)>(
    cb: F,
    log: Seq<Hit>,
) -> bool {
    forall|i: int|
        0 <= i < log.len() ==> call_ensures(
            cb,
            ((#[trigger] log[i]).call.end, log[i].call.id),
            (log[i].reply.ctl, log[i].reply.squash),
        )
}

impl<'a, F: FnMut(u64, u32) -> (ScanCtl, u8)> HitSink for SquashSink<'a, F> {
    type Fixed = F;

    open spec fn fixed(&self) -> F {
        *self.cb
    }

    open spec fn log(&self) -> Seq<Hit> {
        self.hits@
    }

    open spec fn inv(&self) -> bool {
        &&& forall|end: u64, id: u32| #[trigger] call_requires(*self.cb, (end, id))
        &&& answered_with_squash(*self.cb, self.hits@)
    }

    open spec fn limit(&self) -> nat {
        u64::MAX as nat + 1
    }

    fn hit(&mut self, end: u64, id: u32) -> (r: (ScanCtl, u8)) {
        let r = (self.cb)(end, id);
        self.hits = Ghost(
            self.hits@.push(
                Hit { call: Call { end, id }, reply: Reply { ctl: r.0, squash: r.1 } },
            ),
        );
        r
    }
}

/// A sink that asks a closure which never squashes.
pub struct PlainSink<'a, F: FnMut(u64, u32) -> ScanCtl> {
    pub cb: &'a mut F,
    pub hits: Ghost<Seq<Hit>>,
}

/// Every answer in the log is one that the closure can give, and squashes
/// nothing.
pub open spec fn answered<F: FnMut(u64, u32) -> ScanCtl>(cb: F, log: Seq<Hit>) -> bool {
    forall|i: int|
        0 <= i < log.len() ==> call_ensures(
            cb,
            ((#[trigger] log[i]).call.end, log[i].call.id),
            log[i].reply.ctl,
        ) && log[i].reply.squash == 0
}

impl<'a, F: FnMut(u64, u32) -> ScanCtl> HitSink for PlainSink<'a, F> {
    type Fixed = F;

    open spec fn fixed(&self) -> F {
        *self.cb
    }

    open spec fn log(&self) -> Seq<Hit> {
        self.hits@
    }

    open spec fn inv(&self) -> bool {
        &&& forall|end: u64, id: u32| #[trigger] call_requires(*self.cb, (end, id))
        &&& answered(*self.cb, self.hits@)
    }

    open spec fn limit(&self) -> nat {
        u64::MAX as nat + 1
    }

    fn hit(&mut self, end: u64, id: u32) -> (r: (ScanCtl, u8)) {
        let ctl = (self.cb)(end, id);
        self.hits = Ghost(
            self.hits@.push(Hit { call: Call { end, id }, reply: Reply { ctl, squash: 0 } }),
        );
        (ctl, 0)
    }
}

} // verus!
