//! Scanning a block with a database.
//!
//! The floating matcher finds literals, their programs decide what to report.
//! What is out of scope (automata, anchored literals, streaming, floating
//! matchers outside the FDR family) is refused when the database is loaded,
//! never scanned wrongly.

pub mod delay;
pub mod laws;
pub mod outcomes;
pub mod replays;
pub mod slots;

use vstd::prelude::*;

use crate::bytes::{le32, u32_le};
use crate::hwlm::confirm::Track;
use crate::hwlm::fdr::{address, fdr_fault, fdr_scan, FdrTable};
use crate::hwlm::teddy::{teddy_fault, teddy_scan, TeddyTable};
use crate::hwlm::{agrees, calls_of, Answers, ExecResult, HitSink, HwlmError, ScanCtl};
use crate::literal::dedupe::Dedupe;
use crate::literal::report::{
    lemma_replies_prefix, replies_agree, replies_of, reported, FnReports, Replies, Report,
    ReportSink,
};
use crate::literal::InterpError;
use crate::rose::{fdr_table_at, literal_fault, RoseEngine, RoseError, FMATCHER_OFFSET};
use crate::scan::delay::{after_hits, delay_answers, flush, start, Delay, DelayScan};
use crate::scan::slots::Slots;
use crate::serialized::{bytecode_of, db_fault, DbError, SerializedDb};
use crate::simd::scalar::V128Scalar;
use crate::simd::V128;

verus! {

/// Why a database cannot be loaded, or a scan cannot go on.
#[derive(Debug)]
pub enum ScanError {
    Db(DbError),
    Rose(RoseError),
    Fdr(HwlmError),
    Interp(InterpError),
}

impl From<DbError> for ScanError {
    fn from(e: DbError) -> (r: Self) {
        ScanError::Db(e)
    }
}

impl vstd::std_specs::convert::FromSpecImpl<DbError> for ScanError {
    open spec fn obeys_from_spec() -> bool {
        true
    }

    open spec fn from_spec(e: DbError) -> ScanError {
        ScanError::Db(e)
    }
}

impl From<RoseError> for ScanError {
    fn from(e: RoseError) -> (r: Self) {
        ScanError::Rose(e)
    }
}

impl vstd::std_specs::convert::FromSpecImpl<RoseError> for ScanError {
    open spec fn obeys_from_spec() -> bool {
        true
    }

    open spec fn from_spec(e: RoseError) -> ScanError {
        ScanError::Rose(e)
    }
}

impl From<HwlmError> for ScanError {
    fn from(e: HwlmError) -> (r: Self) {
        ScanError::Fdr(e)
    }
}

impl vstd::std_specs::convert::FromSpecImpl<HwlmError> for ScanError {
    open spec fn obeys_from_spec() -> bool {
        true
    }

    open spec fn from_spec(e: HwlmError) -> ScanError {
        ScanError::Fdr(e)
    }
}

impl From<InterpError> for ScanError {
    fn from(e: InterpError) -> (r: Self) {
        ScanError::Interp(e)
    }
}

impl vstd::std_specs::convert::FromSpecImpl<InterpError> for ScanError {
    open spec fn obeys_from_spec() -> bool {
        true
    }

    open spec fn from_spec(e: InterpError) -> ScanError {
        ScanError::Interp(e)
    }
}

/// The engine of the floating matcher.
pub enum Floating<'a> {
    Fdr(FdrTable<'a>),
    Teddy(TeddyTable<'a>),
}

impl<'a> Floating<'a> {
    pub open spec fn wf(&self) -> bool {
        match self {
            Floating::Fdr(t) => t.wf(),
            Floating::Teddy(t) => t.wf(),
        }
    }

    /// The hits of the engine in a block. `phase` is the address of the
    /// block, modulo 8.
    pub open spec fn scan(&self, data: Seq<u8>, phase: int, s: Answers) -> Track {
        match self {
            Floating::Fdr(t) => fdr_scan(t.bytes@, data, 0, phase, Seq::empty(), s),
            Floating::Teddy(t) => teddy_scan(t.bytes@, data, 0, Seq::empty(), s),
        }
    }
}

/// A database that is ready to scan.
pub struct Database<'a> {
    pub rose: RoseEngine<'a>,
    pub floating: Floating<'a>,
}

/// The first word of a table tells FDR (zero) from Teddy.
pub open spec fn is_fdr(table: Seq<u8>) -> bool {
    table.len() >= 4 && le32(table, 0) == 0
}

/// What is wrong with a serialized database as one to scan with, if anything.
pub open spec fn load_fault(serialized: Seq<u8>) -> Option<ScanError> {
    let bc = bytecode_of(serialized);
    match db_fault(serialized) {
        Some(e) => Some(ScanError::Db(e)),
        None => match literal_fault(bc) {
            Some(e) => Some(ScanError::Rose(e)),
            None => match fdr_table_at(bc, le32(bc, FMATCHER_OFFSET as int)) {
                Err(e) => Some(ScanError::Rose(e)),
                Ok(table) => {
                    let fault = if is_fdr(table) {
                        fdr_fault(table)
                    } else {
                        teddy_fault(table)
                    };
                    match fault {
                        Some(e) => Some(ScanError::Fdr(e)),
                        None => None,
                    }
                },
            },
        },
    }
}

/// Where a scan of a block ends, with the answers that its reports get: after
/// the hits of the engine, and after the replays that still wait unless the
/// scan was told to stop.
pub open spec fn scan_end(
    rose: &RoseEngine,
    floating: &Floating,
    data: Seq<u8>,
    phase: int,
    o: Replies,
) -> Delay {
    let t = floating.scan(data, phase, delay_answers(rose, data, o));
    let d = after_hits(rose, data, t.calls, o);
    if t.live {
        flush(rose, data, d, data.len() as u64, o).0
    } else {
        d
    }
}

/// Reports and a result that a scan of a block can have, with a given phase.
pub open spec fn scan_outcome(
    rose: &RoseEngine,
    floating: &Floating,
    data: Seq<u8>,
    phase: int,
    log: Seq<Report>,
    r: Result<(), ScanError>,
) -> bool {
    let d = scan_end(rose, floating, data, phase, replies_of(log));
    &&& 0 <= phase < 8
    &&& d.log == log
    &&& r == match d.err {
        Some(e) => Err(ScanError::Interp(e)),
        None => Ok::<(), ScanError>(()),
    }
}

impl<'a> Database<'a> {
    pub open spec fn wf(&self) -> bool {
        self.floating.wf()
    }

    /// Takes a serialized database apart, up to its floating matcher, which has
    /// to be of the FDR family.
    pub fn load(serialized: &'a [u8]) -> (r: Result<Self, ScanError>)
        ensures
            match r {
                Ok(db) => {
                    let bc = bytecode_of(serialized@);
                    let table = fdr_table_at(bc, le32(bc, FMATCHER_OFFSET as int))->Ok_0;
                    &&& load_fault(serialized@) is None
                    &&& db.wf()
                    &&& db.rose.reads(bc)
                    &&& match db.floating {
                        Floating::Fdr(t) => is_fdr(table) && t.bytes@ == table.take(
                            le32(table, 4) as int,
                        ),
                        Floating::Teddy(t) => !is_fdr(table) && t.bytes@ == table.take(
                            le32(table, 4) as int,
                        ),
                    }
                },
                Err(e) => load_fault(serialized@) == Some(e),
            },
    {
        let db = match SerializedDb::parse(serialized) {
            Ok(db) => db,
            Err(e) => return Err(ScanError::from(e)),
        };
        let rose = match RoseEngine::parse(db.bytecode()) {
            Ok(rose) => rose,
            Err(e) => return Err(ScanError::from(e)),
        };
        let table = match rose.floating_fdr_table() {
            Ok(table) => table,
            Err(e) => return Err(ScanError::from(e)),
        };
        let engine_id: u32 = match u32_le(table, 0) {
            Some(id) => id,
            None => u32::MAX,
        };
        let floating = if engine_id == 0 {
            match FdrTable::parse(table) {
                Ok(t) => Floating::Fdr(t),
                Err(e) => return Err(ScanError::from(e)),
            }
        } else {
            match TeddyTable::parse(table) {
                Ok(t) => Floating::Teddy(t),
                Err(e) => return Err(ScanError::from(e)),
            }
        };
        Ok(Database { rose, floating })
    }

    /// Scans a block. `on_match` gets the external id and the end offset of
    /// each match, and can stop the scan.
    pub fn scan_block<F: FnMut(u32, u64) -> ScanCtl>(&self, data: &[u8], on_match: &mut F) -> (r:
        Result<(), ScanError>)
        requires
            self.wf(),
            forall|id: u32, to: u64| #[trigger] call_requires(*old(on_match), (id, to)),
        ensures
            exists|phase: int, log: Seq<Report>| #[trigger]
                scan_outcome(&self.rose, &self.floating, data@, phase, log, r) && reported(
                    *old(on_match),
                    log,
                ),
    {
        self.scan_block_with::<V128Scalar, F>(data, on_match)
    }

    /// Like [`Database::scan_block`], with a vector backend of choice.
    pub fn scan_block_with<V: V128, F: FnMut(u32, u64) -> ScanCtl>(
        &self,
        data: &[u8],
        on_match: &mut F,
    ) -> (r: Result<(), ScanError>)
        requires
            self.wf(),
            forall|id: u32, to: u64| #[trigger] call_requires(*old(on_match), (id, to)),
        ensures
            exists|phase: int, log: Seq<Report>| #[trigger]
                scan_outcome(&self.rose, &self.floating, data@, phase, log, r) && reported(
                    *old(on_match),
                    log,
                ),
    {
        let phase: usize = address(data) % 8;
        let r = self.scan_block_at::<V, F>(data, phase, on_match);
        proof {
            let log = choose|log: Seq<Report>| #[trigger]
                scan_outcome(&self.rose, &self.floating, data@, phase as int, log, r) && reported(
                    *old(on_match),
                    log,
                );
            assert(scan_outcome(&self.rose, &self.floating, data@, phase as int, log, r));
        }
        r
    }

    /// Like [`Database::scan_block_with`], for a block whose address is known
    /// modulo 8.
    pub fn scan_block_at<V: V128, F: FnMut(u32, u64) -> ScanCtl>(
        &self,
        data: &[u8],
        phase: usize,
        on_match: &mut F,
    ) -> (r: Result<(), ScanError>)
        requires
            self.wf(),
            phase < 8,
            forall|id: u32, to: u64| #[trigger] call_requires(*old(on_match), (id, to)),
        ensures
            exists|log: Seq<Report>| #[trigger]
                scan_outcome(&self.rose, &self.floating, data@, phase as int, log, r) && reported(
                    *old(on_match),
                    log,
                ),
    {
        let reports = FnReports { cb: on_match, reports: Ghost(Seq::empty()) };
        let (r, reports) = self.scan_into::<V, FnReports<F>>(data, phase, reports);
        proof {
            let log = reports.log();
            assert(replies_agree(replies_of(log), log));
            assert(reported(*old(on_match), log));
            assert(scan_outcome(&self.rose, &self.floating, data@, phase as int, log, r));
        }
        r
    }

    /// Scans a block whose address is known modulo 8, and hands each report to
    /// a sink. The sink comes back with every report of the scan in its log,
    /// in order, and no other.
    pub fn scan_into<V: V128, R: ReportSink>(&self, data: &[u8], phase: usize, reports: R) -> (r: (
        Result<(), ScanError>,
        R,
    ))
        requires
            self.wf(),
            phase < 8,
            reports.inv(),
            reports.log().len() == 0,
        ensures
            r.1.inv(),
            r.1.fixed() == reports.fixed(),
            scan_outcome(
                &self.rose,
                &self.floating,
                data@,
                phase as int,
                r.1.log(),
                r.0,
            ),
            forall|o: Replies| #[trigger]
                replies_agree(o, r.1.log()) ==> {
                    let d = scan_end(&self.rose, &self.floating, data@, phase as int, o);
                    &&& d.log == r.1.log()
                    &&& r.0 == match d.err {
                        Some(e) => Err(ScanError::Interp(e)),
                        None => Ok::<(), ScanError>(()),
                    }
                },
    {
        assert(data@.len() == data.len());
        assert(reports.log() =~= Seq::empty());
        let mut scan = DelayScan {
            rose: &self.rose,
            data,
            groups: self.rose.initial_groups,
            dedupe: Dedupe::default(),
            slots: Slots::new(),
            delay_last_end: 0,
            reports,
            err: None,
            hits: Ghost(Seq::empty()),
        };
        proof {
            assert(calls_of(scan.hits@) =~= Seq::empty());
            assert(scan.state() == start(&self.rose));
        }
        let ended = match &self.floating {
            Floating::Fdr(t) => t.run::<V, DelayScan<R>>(data, 0, phase, &mut scan),
            Floating::Teddy(t) => t.run::<V, DelayScan<R>>(data, 0, &mut scan),
        };
        let ghost log1 = scan.reports.log();
        proof {
            assert forall|o: Replies| #[trigger] replies_agree(o, log1) implies {
                let t = self.floating.scan(
                    data@,
                    phase as int,
                    delay_answers(&self.rose, data@, o),
                );
                t.live == (ended == ExecResult::Completed) && after_hits(
                    &self.rose,
                    data@,
                    t.calls,
                    o,
                ) == scan.state()
            } by {
                assert(agrees(delay_answers(&self.rose, data@, o), scan.log()));
            }
        }
        if ended == ExecResult::Completed {
            let _ = scan.flush(data.len() as u64);
        }
        let ghost log = scan.reports.log();
        proof {
            assert forall|o: Replies| #[trigger] replies_agree(o, log) implies scan_end(
                &self.rose,
                &self.floating,
                data@,
                phase as int,
                o,
            ) == scan.state() by {
                lemma_replies_prefix(o, log, log1);
            }
            assert(replies_agree(replies_of(log), log));
        }
        let r = match scan.err {
            Some(e) => Err(ScanError::Interp(e)),
            None => Ok(()),
        };
        (r, scan.reports)
    }
}

} // verus!
