//! Access to the fields of the `RoseEngine` header and to the floating
//! literal matcher inside the bytecode.
//!
//! Field offsets are part of the bytecode contract (LP64 layout of version
//! 5.4.12). Every field has a fixed width, so the layout is the same on all
//! supported machines.

pub mod header;

use vstd::prelude::*;
use vstd::slice::slice_subrange;

use crate::bytes::{fits, le32, le64, opt_le32, read_u32, read_u64, u32_le};

verus! {

/// `pureLiteral`: u8.
pub const PURE_LITERAL: usize = 0;

/// `runtimeImpl`: u8.
pub const RUNTIME_IMPL: usize = 4;

/// `mode`: u32.
pub const MODE: usize = 12;

/// `smallWriteOffset`: u32.
pub const SMALL_WRITE_OFFSET: usize = 84;

/// `amatcherOffset`: u32.
pub const AMATCHER_OFFSET: usize = 88;

/// `ematcherOffset`: u32.
pub const EMATCHER_OFFSET: usize = 92;

/// `fmatcherOffset`: u32.
pub const FMATCHER_OFFSET: usize = 96;

/// `longLitTableOffset`: u32.
pub const LONG_LIT_TABLE_OFFSET: usize = 108;

/// `delayProgramOffset`: u32.
pub const DELAY_PROGRAM_OFFSET: usize = 140;

/// `activeArrayCount`: u32.
pub const ACTIVE_ARRAY_COUNT: usize = 148;

/// `queueCount`: u32.
pub const QUEUE_COUNT: usize = 156;

/// `eodProgramOffset`: u32.
pub const EOD_PROGRAM_OFFSET: usize = 184;

/// `floatingMinLiteralMatchOffset`: u32.
pub const FLOATING_MIN_LIT_MATCH_OFFSET: usize = 232;

/// `nfaInfoOffset`: u32.
pub const NFA_INFO_OFFSET: usize = 236;

/// `initialGroups`: u64.
pub const INITIAL_GROUPS: usize = 240;

/// `floating_group_mask`: u64.
pub const FLOATING_GROUP_MASK: usize = 248;

/// `size`: u32.
pub const SIZE: usize = 256;

/// `delay_count`: u32.
pub const DELAY_COUNT: usize = 260;

/// `anchored_count`: u32.
pub const ANCHORED_COUNT: usize = 268;

/// `totalNumLiterals`: u32.
pub const TOTAL_NUM_LITERALS: usize = 388;

/// `outfixBeginQueue`: u32.
pub const OUTFIX_BEGIN_QUEUE: usize = 396;

/// `outfixEndQueue`: u32.
pub const OUTFIX_END_QUEUE: usize = 400;

/// The shortest bytecode that holds every field read by the header parser.
pub const HEADER_SIZE: usize = 404;

/// `sizeof(struct NfaInfo)`; `nfaOffset` is its first field.
pub const NFA_INFO_SIZE: usize = 20;

/// Full Rose runtime.
pub const ROSE_RUNTIME_FULL_ROSE: u8 = 0;

/// Matches come from the floating literal table alone.
pub const ROSE_RUNTIME_PURE_LITERAL: u8 = 1;

/// A database of one outfix NFA and no literals.
pub const ROSE_RUNTIME_SINGLE_OUTFIX: u8 = 2;

/// Block mode.
pub const HS_MODE_BLOCK: u32 = 1;

/// The floating matcher is of the FDR family.
pub const HWLM_ENGINE_FDR: u8 = 12;

/// The floating matcher is a noodle.
pub const HWLM_ENGINE_NOOD: u8 = 16;

/// Where matcher data starts behind the 224-byte HWLM header, rounded up to
/// a cache line.
pub const HWLM_DATA_OFFSET: usize = 256;

/// Why a bytecode is not accepted, or an offset in it cannot be followed.
#[derive(Debug, Clone, PartialEq, Eq)]
pub enum RoseError {
    /// The bytecode is shorter than its header.
    Truncated,
    /// Not block mode.
    NotBlockMode(u32),
    /// The runtime implementation is not one that the parser accepts.
    UnsupportedRuntime(u8),
    /// The database holds machinery besides floating literals; the payload
    /// names it.
    NeedsFullRose(&'static str),
    /// `fmatcherOffset` is zero: there is no floating table.
    NoFloatingMatcher,
    /// The floating matcher is not of the FDR family.
    NotFdr(u8),
    /// An offset points outside the bytecode.
    OffsetOutOfRange { off: usize, len: usize },
}

/// A parsed view of the bytecode of a block-mode literal database.
#[derive(Debug, Clone, Copy)]
pub struct RoseEngine<'a> {
    /// The whole bytecode: the base of all its offsets.
    pub bc: &'a [u8],
    pub pure_literal: u8,
    pub runtime_impl: u8,
    pub mode: u32,
    pub fmatcher_offset: u32,
    pub floating_min_lit_match_offset: u32,
    pub initial_groups: u64,
    pub floating_group_mask: u64,
    pub size: u32,
    pub total_num_literals: u32,
    /// Non-zero if the database has a fast path for short buffers; the
    /// floating table covers the same literals.
    pub small_write_offset: u32,
    /// Non-zero if the database has delayed literals.
    pub delay_count: u32,
    /// Offset of the table of delayed-literal programs.
    pub delay_program_offset: u32,
    /// Offset of the `NfaInfo` array.
    pub nfa_info_offset: u32,
    pub outfix_begin_queue: u32,
    pub outfix_end_queue: u32,
}

/// An offset as an error reports it: one that no `usize` can hold is
/// reported as the largest.
pub open spec fn clamp(off: int) -> usize {
    if off <= usize::MAX {
        off as usize
    } else {
        usize::MAX
    }
}

/// The error for an offset that lies outside a bytecode of length `len`.
pub open spec fn out_of_range(off: int, len: nat) -> RoseError {
    RoseError::OffsetOutOfRange { off: clamp(off), len: len as usize }
}

/// The first piece of machinery, in the order in which they are tested, that
/// a floating-literal scan cannot run.
pub open spec fn foreign_machinery(bc: Seq<u8>) -> Option<&'static str> {
    if le32(bc, AMATCHER_OFFSET as int) != 0 {
        Some("anchored-matcher")
    } else if le32(bc, EMATCHER_OFFSET as int) != 0 {
        Some("eod-matcher")
    } else if le32(bc, LONG_LIT_TABLE_OFFSET as int) != 0 {
        Some("long-literal-table")
    } else if le32(bc, ACTIVE_ARRAY_COUNT as int) != 0 {
        Some("nfa-active-array")
    } else if le32(bc, QUEUE_COUNT as int) != 0 {
        Some("nfa-queues")
    } else if le32(bc, EOD_PROGRAM_OFFSET as int) != 0 {
        Some("eod-program")
    } else if le32(bc, ANCHORED_COUNT as int) != 0 {
        Some("anchored-literals")
    } else {
        None
    }
}

/// The same for a scan that also runs outfix NFAs.
pub open spec fn foreign_machinery_with_nfa(bc: Seq<u8>) -> Option<&'static str> {
    let queues = le32(bc, QUEUE_COUNT as int);
    if le32(bc, AMATCHER_OFFSET as int) != 0 {
        Some("anchored-matcher")
    } else if le32(bc, EMATCHER_OFFSET as int) != 0 {
        Some("eod-matcher")
    } else if le32(bc, LONG_LIT_TABLE_OFFSET as int) != 0 {
        Some("long-literal-table")
    } else if le32(bc, EOD_PROGRAM_OFFSET as int) != 0 {
        Some("eod-program")
    } else if le32(bc, ANCHORED_COUNT as int) != 0 {
        Some("anchored-literals")
    } else if le32(bc, DELAY_COUNT as int) != 0 {
        Some("delayed-literals")
    } else if queues != 0 && le32(bc, OUTFIX_END_QUEUE as int) > queues {
        Some("nfa-queue вне outfix-диапазона")
    } else {
        None
    }
}

/// What is wrong with a bytecode for a floating-literal scan, if anything.
pub open spec fn literal_fault(bc: Seq<u8>) -> Option<RoseError> {
    if bc.len() < HEADER_SIZE {
        Some(RoseError::Truncated)
    } else if le32(bc, MODE as int) != HS_MODE_BLOCK {
        Some(RoseError::NotBlockMode(le32(bc, MODE as int)))
    } else if bc[RUNTIME_IMPL as int] != ROSE_RUNTIME_PURE_LITERAL && bc[RUNTIME_IMPL as int]
        != ROSE_RUNTIME_FULL_ROSE {
        Some(RoseError::UnsupportedRuntime(bc[RUNTIME_IMPL as int]))
    } else {
        match foreign_machinery(bc) {
            Some(what) => Some(RoseError::NeedsFullRose(what)),
            None => None,
        }
    }
}

/// What is wrong with a bytecode for a scan that also runs outfix NFAs.
pub open spec fn outfix_fault(bc: Seq<u8>) -> Option<RoseError> {
    if bc.len() < HEADER_SIZE {
        Some(RoseError::Truncated)
    } else if le32(bc, MODE as int) != HS_MODE_BLOCK {
        Some(RoseError::NotBlockMode(le32(bc, MODE as int)))
    } else if bc[RUNTIME_IMPL as int] != ROSE_RUNTIME_FULL_ROSE && bc[RUNTIME_IMPL as int]
        != ROSE_RUNTIME_SINGLE_OUTFIX {
        Some(RoseError::UnsupportedRuntime(bc[RUNTIME_IMPL as int]))
    } else {
        match foreign_machinery_with_nfa(bc) {
            Some(what) => Some(RoseError::NeedsFullRose(what)),
            None => None,
        }
    }
}

/// Where the record of NFA queue `qi` starts.
pub open spec fn nfa_info_at(nfa_info_offset: u32, qi: u32) -> int {
    nfa_info_offset + qi * NFA_INFO_SIZE
}

/// The offset of the NFA of queue `qi`, or the error on the way to it.
pub open spec fn nfa_start(bc: Seq<u8>, nfa_info_offset: u32, qi: u32) -> Result<int, RoseError> {
    let info = nfa_info_at(nfa_info_offset, qi);
    if !fits(bc, info, 4) {
        Err(out_of_range(info, bc.len()))
    } else if le32(bc, info) > bc.len() {
        Err(out_of_range(le32(bc, info) as int, bc.len()))
    } else {
        Ok(le32(bc, info) as int)
    }
}

/// The type byte of the floating matcher at `off`, or why there is none.
pub open spec fn hwlm_type_at(bc: Seq<u8>, off: u32) -> Result<u8, RoseError> {
    if off == 0 {
        Err(RoseError::NoFloatingMatcher)
    } else if off >= bc.len() {
        Err(out_of_range(off as int, bc.len()))
    } else {
        Ok(bc[off as int])
    }
}

/// The data of the floating matcher at `off`, behind its HWLM header, or why
/// there is none.
pub open spec fn matcher_table_at(bc: Seq<u8>, off: u32) -> Result<Seq<u8>, RoseError> {
    let start = off + HWLM_DATA_OFFSET;
    match hwlm_type_at(bc, off) {
        Err(e) => Err(e),
        Ok(_) => if start > bc.len() {
            Err(out_of_range(start, bc.len()))
        } else {
            Ok(bc.skip(start))
        },
    }
}

/// The data of the floating matcher at `off`, provided that it is of the FDR
/// family, or why there is none.
pub open spec fn fdr_table_at(bc: Seq<u8>, off: u32) -> Result<Seq<u8>, RoseError> {
    match hwlm_type_at(bc, off) {
        Err(e) => Err(e),
        Ok(ty) => if ty != HWLM_ENGINE_FDR {
            Err(RoseError::NotFdr(ty))
        } else {
            matcher_table_at(bc, off)
        },
    }
}

fn offset_error(off: u64, len: usize) -> (r: RoseError)
    ensures
        r == out_of_range(off as int, len as nat),
{
    let off: usize = if off <= usize::MAX as u64 {
        off as usize
    } else {
        usize::MAX
    };
    RoseError::OffsetOutOfRange { off, len }
}

impl<'a> RoseEngine<'a> {
    /// The whole bytecode.
    pub open spec fn bytes(&self) -> Seq<u8> {
        self.bc@
    }

    /// Every public field is what the header of `bc` says.
    pub open spec fn reads(&self, bc: Seq<u8>) -> bool {
        &&& self.bytes() == bc
        &&& self.pure_literal == bc[PURE_LITERAL as int]
        &&& self.runtime_impl == bc[RUNTIME_IMPL as int]
        &&& self.mode == le32(bc, MODE as int)
        &&& self.fmatcher_offset == le32(bc, FMATCHER_OFFSET as int)
        &&& self.floating_min_lit_match_offset == le32(bc, FLOATING_MIN_LIT_MATCH_OFFSET as int)
        &&& self.initial_groups == le64(bc, INITIAL_GROUPS as int)
        &&& self.floating_group_mask == le64(bc, FLOATING_GROUP_MASK as int)
        &&& self.size == le32(bc, SIZE as int)
        &&& self.total_num_literals == le32(bc, TOTAL_NUM_LITERALS as int)
        &&& self.small_write_offset == le32(bc, SMALL_WRITE_OFFSET as int)
        &&& self.delay_count == le32(bc, DELAY_COUNT as int)
        &&& self.delay_program_offset == le32(bc, DELAY_PROGRAM_OFFSET as int)
        &&& self.nfa_info_offset == le32(bc, NFA_INFO_OFFSET as int)
        &&& self.outfix_begin_queue == le32(bc, OUTFIX_BEGIN_QUEUE as int)
        &&& self.outfix_end_queue == le32(bc, OUTFIX_END_QUEUE as int)
    }

    /// Parses the header of a database whose matches come from the floating
    /// table alone. Anything else is refused, never scanned wrongly.
    pub fn parse(bc: &'a [u8]) -> (r: Result<Self, RoseError>)
        ensures
            match r {
                Ok(e) => literal_fault(bc@) is None && e.reads(bc@),
                Err(e) => literal_fault(bc@) == Some(e),
            },
    {
        if bc.len() < HEADER_SIZE {
            return Err(RoseError::Truncated);
        }
        let e = Self::read_header(bc);
        if e.mode != HS_MODE_BLOCK {
            return Err(RoseError::NotBlockMode(e.mode));
        }
        if e.runtime_impl != ROSE_RUNTIME_PURE_LITERAL && e.runtime_impl != ROSE_RUNTIME_FULL_ROSE {
            return Err(RoseError::UnsupportedRuntime(e.runtime_impl));
        }
        if read_u32(bc, AMATCHER_OFFSET) != 0 {
            return Err(RoseError::NeedsFullRose("anchored-matcher"));
        }
        if read_u32(bc, EMATCHER_OFFSET) != 0 {
            return Err(RoseError::NeedsFullRose("eod-matcher"));
        }
        if read_u32(bc, LONG_LIT_TABLE_OFFSET) != 0 {
            return Err(RoseError::NeedsFullRose("long-literal-table"));
        }
        if read_u32(bc, ACTIVE_ARRAY_COUNT) != 0 {
            return Err(RoseError::NeedsFullRose("nfa-active-array"));
        }
        if read_u32(bc, QUEUE_COUNT) != 0 {
            return Err(RoseError::NeedsFullRose("nfa-queues"));
        }
        if read_u32(bc, EOD_PROGRAM_OFFSET) != 0 {
            return Err(RoseError::NeedsFullRose("eod-program"));
        }
        if read_u32(bc, ANCHORED_COUNT) != 0 {
            return Err(RoseError::NeedsFullRose("anchored-literals"));
        }
        Ok(e)
    }

    /// Like [`RoseEngine::parse`], but allows NFA queues inside the outfix
    /// range; matches then come from the floating table and from outfix NFAs.
    pub fn parse_allow_nfa(bc: &'a [u8]) -> (r: Result<Self, RoseError>)
        ensures
            match r {
                Ok(e) => outfix_fault(bc@) is None && e.reads(bc@),
                Err(e) => outfix_fault(bc@) == Some(e),
            },
    {
        if bc.len() < HEADER_SIZE {
            return Err(RoseError::Truncated);
        }
        let e = Self::read_header(bc);
        if e.mode != HS_MODE_BLOCK {
            return Err(RoseError::NotBlockMode(e.mode));
        }
        if e.runtime_impl != ROSE_RUNTIME_FULL_ROSE && e.runtime_impl != ROSE_RUNTIME_SINGLE_OUTFIX {
            return Err(RoseError::UnsupportedRuntime(e.runtime_impl));
        }
        if read_u32(bc, AMATCHER_OFFSET) != 0 {
            return Err(RoseError::NeedsFullRose("anchored-matcher"));
        }
        if read_u32(bc, EMATCHER_OFFSET) != 0 {
            return Err(RoseError::NeedsFullRose("eod-matcher"));
        }
        if read_u32(bc, LONG_LIT_TABLE_OFFSET) != 0 {
            return Err(RoseError::NeedsFullRose("long-literal-table"));
        }
        if read_u32(bc, EOD_PROGRAM_OFFSET) != 0 {
            return Err(RoseError::NeedsFullRose("eod-program"));
        }
        if read_u32(bc, ANCHORED_COUNT) != 0 {
            return Err(RoseError::NeedsFullRose("anchored-literals"));
        }
        if read_u32(bc, DELAY_COUNT) != 0 {
            return Err(RoseError::NeedsFullRose("delayed-literals"));
        }
        let queues: u32 = read_u32(bc, QUEUE_COUNT);
        if queues != 0 && e.outfix_end_queue > queues {
            return Err(RoseError::NeedsFullRose("nfa-queue вне outfix-диапазона"));
        }
        Ok(e)
    }

    fn read_header(bc: &'a [u8]) -> (r: Self)
        requires
            bc@.len() >= HEADER_SIZE,
        ensures
            r.reads(bc@),
    {
        RoseEngine {
            bc,
            pure_literal: bc[PURE_LITERAL],
            runtime_impl: bc[RUNTIME_IMPL],
            mode: read_u32(bc, MODE),
            fmatcher_offset: read_u32(bc, FMATCHER_OFFSET),
            floating_min_lit_match_offset: read_u32(bc, FLOATING_MIN_LIT_MATCH_OFFSET),
            initial_groups: read_u64(bc, INITIAL_GROUPS),
            floating_group_mask: read_u64(bc, FLOATING_GROUP_MASK),
            size: read_u32(bc, SIZE),
            total_num_literals: read_u32(bc, TOTAL_NUM_LITERALS),
            small_write_offset: read_u32(bc, SMALL_WRITE_OFFSET),
            delay_count: read_u32(bc, DELAY_COUNT),
            delay_program_offset: read_u32(bc, DELAY_PROGRAM_OFFSET),
            nfa_info_offset: read_u32(bc, NFA_INFO_OFFSET),
            outfix_begin_queue: read_u32(bc, OUTFIX_BEGIN_QUEUE),
            outfix_end_queue: read_u32(bc, OUTFIX_END_QUEUE),
        }
    }

    /// The bytes of every outfix NFA, from its header on: one slice for each
    /// queue of `outfix_begin_queue..outfix_end_queue`, in order.
    pub fn outfix_nfas(&self) -> (r: Result<Vec<&'a [u8]>, RoseError>)
        ensures
            match r {
                Ok(out) => {
                    &&& out@.len() == if self.outfix_begin_queue <= self.outfix_end_queue {
                        self.outfix_end_queue - self.outfix_begin_queue
                    } else {
                        0
                    }
                    &&& forall|k: int|
                        0 <= k < out@.len() ==> {
                            let start = nfa_start(
                                self.bytes(),
                                self.nfa_info_offset,
                                (self.outfix_begin_queue + k) as u32,
                            );
                            &&& start is Ok
                            &&& (#[trigger] out@[k])@ == self.bytes().skip(start->Ok_0)
                        }
                },
                Err(e) => exists|qi: u32|
                    {
                        &&& self.outfix_begin_queue <= qi < self.outfix_end_queue
                        &&& #[trigger] nfa_start(self.bytes(), self.nfa_info_offset, qi) == Err::<
                            int,
                            RoseError,
                        >(e)
                        &&& forall|q: u32|
                            self.outfix_begin_queue <= q < qi ==> #[trigger] nfa_start(
                                self.bytes(),
                                self.nfa_info_offset,
                                q,
                            ) is Ok
                    },
            },
    {
        let mut out: Vec<&'a [u8]> = Vec::new();
        let mut qi: u32 = self.outfix_begin_queue;
        while qi < self.outfix_end_queue
            invariant
                self.outfix_begin_queue <= qi,
                qi <= self.outfix_end_queue || qi == self.outfix_begin_queue,
                out@.len() == qi - self.outfix_begin_queue,
                forall|q: u32|
                    self.outfix_begin_queue <= q < qi ==> #[trigger] nfa_start(
                        self.bytes(),
                        self.nfa_info_offset,
                        q,
                    ) is Ok,
                forall|k: int|
                    0 <= k < out@.len() ==> (#[trigger] out@[k])@ == self.bytes().skip(
                        nfa_start(
                            self.bytes(),
                            self.nfa_info_offset,
                            (self.outfix_begin_queue + k) as u32,
                        )->Ok_0,
                    ),
            decreases self.outfix_end_queue - qi,
        {
            match self.nfa_by_queue(qi) {
                Ok(bytes) => out.push(bytes),
                Err(e) => return Err(e),
            }
            qi = qi + 1;
        }
        Ok(out)
    }

    /// The bytes of the NFA of queue `qi`, from its header on.
    pub fn nfa_by_queue(&self, qi: u32) -> (r: Result<&'a [u8], RoseError>)
        ensures
            match r {
                Ok(s) => nfa_start(self.bytes(), self.nfa_info_offset, qi) is Ok && s@
                    == self.bytes().skip(nfa_start(self.bytes(), self.nfa_info_offset, qi)->Ok_0),
                Err(e) => nfa_start(self.bytes(), self.nfa_info_offset, qi) == Err::<int, RoseError>(
                    e,
                ),
            },
    {
        let info: u64 = self.nfa_info_offset as u64 + qi as u64 * NFA_INFO_SIZE as u64;
        let nfa_off: u32 = match u32_le(self.bc, info) {
            Some(v) => v,
            None => return Err(offset_error(info, self.bc.len())),
        };
        if nfa_off as u64 > self.bc.len() as u64 {
            return Err(offset_error(nfa_off as u64, self.bc.len()));
        }
        let start: usize = nfa_off as usize;
        proof {
            assert(self.bc@.subrange(start as int, self.bc@.len() as int) == self.bc@.skip(
                start as int,
            ));
        }
        Ok(slice_subrange(self.bc, start, self.bc.len()))
    }

    /// The whole bytecode: the base of all its offsets.
    pub fn bytecode(&self) -> (r: &'a [u8])
        ensures
            r@ == self.bytes(),
            r@.len() <= usize::MAX,
    {
        assert(self.bc@.len() == self.bc.len());
        self.bc
    }

    /// The type of the floating matcher.
    pub fn floating_hwlm_type(&self) -> (r: Result<u8, RoseError>)
        ensures
            r == self.hwlm_type(),
    {
        if self.fmatcher_offset == 0 {
            return Err(RoseError::NoFloatingMatcher);
        }
        if self.fmatcher_offset as u64 >= self.bc.len() as u64 {
            return Err(offset_error(self.fmatcher_offset as u64, self.bc.len()));
        }
        let off: usize = self.fmatcher_offset as usize;
        Ok(self.bc[off])
    }

    pub open spec fn hwlm_type(&self) -> Result<u8, RoseError> {
        hwlm_type_at(self.bytes(), self.fmatcher_offset)
    }

    pub open spec fn matcher_table(&self) -> Result<Seq<u8>, RoseError> {
        matcher_table_at(self.bytes(), self.fmatcher_offset)
    }

    pub open spec fn fdr_table(&self) -> Result<Seq<u8>, RoseError> {
        fdr_table_at(self.bytes(), self.fmatcher_offset)
    }

    /// The floating table, provided that its type is FDR.
    pub fn floating_fdr_table(&self) -> (r: Result<&'a [u8], RoseError>)
        ensures
            match r {
                Ok(s) => self.fdr_table() == Ok::<Seq<u8>, RoseError>(s@),
                Err(e) => self.fdr_table() == Err::<Seq<u8>, RoseError>(e),
            },
    {
        match self.floating_hwlm_type() {
            Err(e) => Err(e),
            Ok(ty) => {
                if ty != HWLM_ENGINE_FDR {
                    return Err(RoseError::NotFdr(ty));
                }
                self.floating_matcher_table()
            },
        }
    }

    /// The floating table, whatever its type. The first four bytes of an
    /// FDR-family table tell the engine.
    pub fn floating_matcher_table(&self) -> (r: Result<&'a [u8], RoseError>)
        ensures
            match r {
                Ok(s) => self.matcher_table() == Ok::<Seq<u8>, RoseError>(s@),
                Err(e) => self.matcher_table() == Err::<Seq<u8>, RoseError>(e),
            },
    {
        match self.floating_hwlm_type() {
            Err(e) => return Err(e),
            Ok(_) => {},
        }
        let start: u64 = self.fmatcher_offset as u64 + HWLM_DATA_OFFSET as u64;
        if start > self.bc.len() as u64 {
            return Err(offset_error(start, self.bc.len()));
        }
        self.by_offset(start as usize)
    }

    /// The program of delayed literal `index`, or why there is none.
    pub open spec fn delayed_program(&self, index: u32) -> Result<u32, RoseError> {
        let off = self.delay_program_offset + index * 4;
        match opt_le32(self.bytes(), off) {
            Some(v) => Ok(v),
            None => Err(out_of_range(off, self.bytes().len())),
        }
    }

    /// The program offset of delayed literal `index`.
    pub fn delay_program(&self, index: u32) -> (r: Result<u32, RoseError>)
        ensures
            r == self.delayed_program(index),
    {
        let off: u64 = self.delay_program_offset as u64 + index as u64 * 4;
        match u32_le(self.bc, off) {
            Some(v) => Ok(v),
            None => Err(offset_error(off, self.bc.len())),
        }
    }

    /// The bytecode from `off` on.
    pub fn by_offset(&self, off: usize) -> (r: Result<&'a [u8], RoseError>)
        ensures
            match r {
                Ok(s) => off <= self.bytes().len() && s@ == self.bytes().skip(off as int),
                Err(e) => off > self.bytes().len() && e == out_of_range(
                    off as int,
                    self.bytes().len(),
                ),
            },
    {
        if off > self.bc.len() {
            return Err(offset_error(off as u64, self.bc.len()));
        }
        proof {
            assert(self.bc@.subrange(off as int, self.bc@.len() as int) == self.bc@.skip(
                off as int,
            ));
        }
        Ok(slice_subrange(self.bc, off, self.bc.len()))
    }
}

} // verus!
