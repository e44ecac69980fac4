//! The protocol between a program and whoever receives its reports.

use vstd::prelude::*;

use crate::hwlm::ScanCtl;

verus! {

/// One report: the external id, the end offset, and the answer that it got.
pub struct Report {
    pub id: u32,
    pub to: u64,
    pub ctl: ScanCtl,
}

/// A way to answer reports, by their number.
pub type Replies = spec_fn(int) -> ScanCtl;

/// Every answer in the log is the one that `o` gives.
pub open spec fn replies_agree(o: Replies, log: Seq<Report>) -> bool {
    forall|i: int| 0 <= i < log.len() ==> (#[trigger] log[i]).ctl == o(i)
}

/// The answers of a log.
pub open spec fn replies_of(log: Seq<Report>) -> Replies {
    |i: int| log[i].ctl
}

/// Answers that agree with a log agree with it before its last report, and
/// give that report its answer.
pub proof fn lemma_replies_push(o: Replies, log: Seq<Report>, report: Report)
    requires
        replies_agree(o, log.push(report)),
    ensures
        replies_agree(o, log),
        o(log.len() as int) == report.ctl,
{
    assert(log.push(report)[log.len() as int] == report);
    assert forall|i: int| 0 <= i < log.len() implies (#[trigger] log[i]).ctl == o(i) by {
        assert(log.push(report)[i] == log[i]);
    }
}

/// Answers that agree with a log agree with each of its beginnings.
pub proof fn lemma_replies_prefix(o: Replies, log: Seq<Report>, shorter: Seq<Report>)
    requires
        replies_agree(o, log),
        shorter.is_prefix_of(log),
    ensures
        replies_agree(o, shorter),
{
    assert forall|i: int| 0 <= i < shorter.len() implies (#[trigger] shorter[i]).ctl == o(i) by {
        assert(log[i] == shorter[i]);
    }
}

/// Receives the reports of programs. A sink that is not verified leaves the
/// spec functions open.
pub trait ReportSink: Sized {
    /// What no report changes.
    type Fixed;

    closed spec fn fixed(&self) -> Self::Fixed {
        arbitrary()
    }

    /// Every report so far.
    closed spec fn log(&self) -> Seq<Report> {
        arbitrary()
    }

    /// Holds between reports.
    closed spec fn inv(&self) -> bool {
        arbitrary()
    }

    fn report(&mut self, id: u32, to: u64) -> (ctl: ScanCtl)
        requires
            old(self).inv(),
        ensures
            final(self).inv(),
            final(self).fixed() == old(self).fixed(),
            final(self).log() == old(self).log().push((Report { id, to, ctl })),
    ;
}

/// A sink that asks a closure.
pub struct FnReports<'a, F: FnMut(u32, u64) -> ScanCtl> {
    pub cb: &'a mut F,
    pub reports: Ghost<Seq<Report>>,
}

/// Every answer in the log is one that the closure can give.
pub open spec fn reported<F: FnMut(u32, u64) -> ScanCtl>(cb: F, log: Seq<Report>) -> bool {
    forall|i: int|
        0 <= i < log.len() ==> call_ensures(cb, ((#[trigger] log[i]).id, log[i].to), log[i].ctl)
}

impl<'a, F: FnMut(u32, u64) -> ScanCtl> ReportSink for FnReports<'a, F> {
    type Fixed = F;

    open spec fn fixed(&self) -> F {
        *self.cb
    }

    open spec fn log(&self) -> Seq<Report> {
        self.reports@
    }

    open spec fn inv(&self) -> bool {
        &&& forall|id: u32, to: u64| #[trigger] call_requires(*self.cb, (id, to))
        &&& reported(*self.cb, self.reports@)
    }

    fn report(&mut self, id: u32, to: u64) -> (ctl: ScanCtl) {
        let ctl = (self.cb)(id, to);
        self.reports = Ghost(self.reports@.push(Report { id, to, ctl }));
        ctl
    }
}

} // verus!
