//! Instructions that only test: they read the program and the block, and
//! choose where the program goes on.

use vstd::prelude::*;
use vstd::slice::slice_subrange;

use crate::bytes::{fits, le32, le64, read_u32, read_u64};
use crate::literal::checks::{
    byte_passes, check_byte, check_lookaround, check_mask, check_mask32, check_med_lit,
    check_shufti_16x16, check_shufti_16x8, check_shufti_32x16, check_shufti_32x8,
    check_single_lookaround, literal_ends_at, lookaround, masked, shufti_16x16, shufti_16x8,
    shufti_32x16, shufti_32x8, single_lookaround_passes, window_passes, word_masked,
};
use crate::literal::op;
use crate::literal::op::{aligned, roundup};
use crate::literal::InterpError;
use crate::nfa::{nfa_out_of_scope, Nfa};
use crate::rose::{nfa_start, out_of_range, RoseEngine};

verus! {

/// What a program sees and never changes.
pub struct Scene {
    /// The bytecode.
    pub bc: Seq<u8>,
    /// Where the records of the automata start.
    pub nfa_info: u32,
    /// The block that is scanned.
    pub buf: Seq<u8>,
    /// The end offset of the match: one behind its last byte.
    pub end: u64,
    /// Whether an engine waits for the squash byte of this match.
    pub in_confirm: bool,
}

/// Where a program goes on: behind the instruction, or at a jump.
#[derive(Clone, Copy)]
pub enum Branch {
    Next(usize),
    Jump(u32),
}

/// On success behind an instruction of `size` bytes, on failure at the jump.
pub open spec fn branch_on(pass: bool, size: int, jump: u32) -> Branch {
    if pass {
        Branch::Next(aligned(size) as usize)
    } else {
        Branch::Jump(jump)
    }
}

fn take_branch(pass: bool, size: usize, jump: u32) -> (r: Branch)
    requires
        size <= 1024,
    ensures
        r == branch_on(pass, size as int, jump),
{
    if pass {
        Branch::Next(roundup(size))
    } else {
        Branch::Jump(jump)
    }
}

/// The position that a branch leads to. One behind the bytecode is its end.
pub open spec fn target(len: nat, at: int, branch: Branch) -> int {
    let d = match branch {
        Branch::Next(size) => size as int,
        Branch::Jump(jump) => jump as int,
    };
    if at + d <= len {
        at + d
    } else {
        len as int
    }
}

/// Whether the instruction only tests.
pub open spec fn is_test(code: u8) -> bool {
    ||| code == op::CHECK_BYTE
    ||| code == op::CHECK_LIT_EARLY
    ||| code == op::CHECK_SHUFTI_16X8
    ||| code == op::CHECK_MASK
    ||| code == op::CHECK_BOUNDS
    ||| code == op::CHECK_SINGLE_LOOKAROUND
    ||| code == op::CHECK_LOOKAROUND
    ||| code == op::CHECK_MASK_32
    ||| code == op::CHECK_SHUFTI_32X8
    ||| code == op::CHECK_SHUFTI_16X16
    ||| code == op::CHECK_SHUFTI_32X16
    ||| code == op::CHECK_PREFIX
    ||| code == op::CHECK_MED_LIT
    ||| code == op::CHECK_MED_LIT_NOCASE
}

/// Whether the instruction only tests.
pub fn is_test_code(code: u8) -> (r: bool)
    ensures
        r == is_test(code),
{
    match code {
        op::CHECK_BYTE
        | op::CHECK_LIT_EARLY
        | op::CHECK_SHUFTI_16X8
        | op::CHECK_MASK
        | op::CHECK_BOUNDS
        | op::CHECK_SINGLE_LOOKAROUND
        | op::CHECK_LOOKAROUND
        | op::CHECK_MASK_32
        | op::CHECK_SHUFTI_32X8
        | op::CHECK_SHUFTI_16X16
        | op::CHECK_SHUFTI_32X16
        | op::CHECK_PREFIX
        | op::CHECK_MED_LIT
        | op::CHECK_MED_LIT_NOCASE => true,
        _ => false,
    }
}

/// The error for an offset of the program that points outside the bytecode.
pub open spec fn bad_offset(sc: Scene, off: u32) -> InterpError {
    InterpError::Rose(out_of_range(off as int, sc.bc.len()))
}

/// Signed operand at `off`.
pub open spec fn signed32(bc: Seq<u8>, off: int) -> i32 {
    le32(bc, off) as i32
}

pub open spec fn test_single_lookaround(sc: Scene, at: int) -> Result<Branch, InterpError> {
    let reach = le32(sc.bc, at + 4);
    if reach > sc.bc.len() {
        Err(bad_offset(sc, reach))
    } else {
        Ok(
            branch_on(
                single_lookaround_passes(
                    sc.buf,
                    sc.bc.skip(reach as int),
                    sc.end + (sc.bc[at + 1] as i8),
                ),
                12,
                le32(sc.bc, at + 8),
            ),
        )
    }
}

pub open spec fn test_lookaround(sc: Scene, at: int) -> Result<Branch, InterpError> {
    let look = le32(sc.bc, at + 4);
    let reach = le32(sc.bc, at + 8);
    if look > sc.bc.len() {
        Err(bad_offset(sc, look))
    } else if reach > sc.bc.len() {
        Err(bad_offset(sc, reach))
    } else {
        match lookaround(
            sc.buf,
            sc.bc.skip(look as int),
            sc.bc.skip(reach as int),
            le32(sc.bc, at + 12) as int,
            sc.end,
        ) {
            Ok(pass) => Ok(branch_on(pass, 20, le32(sc.bc, at + 16))),
            Err(e) => Err(e),
        }
    }
}

/// The error that asking the automaton of a queue ends in.
pub open spec fn nfa_refusal(sc: Scene, queue: u32) -> InterpError {
    match nfa_start(sc.bc, sc.nfa_info, queue) {
        Err(e) => InterpError::Rose(e),
        Ok(_) => InterpError::Nfa(nfa_out_of_scope()),
    }
}

pub open spec fn test_prefix(sc: Scene, at: int) -> Result<Branch, InterpError> {
    let lag = le32(sc.bc, at + 8);
    if sc.end < lag {
        Ok(branch_on(false, 20, le32(sc.bc, at + 16)))
    } else if sc.end - lag > sc.buf.len() {
        Err(InterpError::ProgramOverrun)
    } else {
        Err(nfa_refusal(sc, le32(sc.bc, at + 4)))
    }
}

pub open spec fn test_med_lit(sc: Scene, at: int, nocase: bool) -> Result<Branch, InterpError> {
    let lit = le32(sc.bc, at + 4);
    if lit > sc.bc.len() {
        Err(bad_offset(sc, lit))
    } else {
        Ok(
            branch_on(
                literal_ends_at(
                    sc.buf,
                    sc.bc.skip(lit as int),
                    le32(sc.bc, at + 8) as int,
                    sc.end as int,
                    nocase,
                ),
                16,
                le32(sc.bc, at + 12),
            ),
        )
    }
}

/// How many bytes a test reads from its position on.
pub open spec fn test_size(code: u8) -> int {
    if code == op::CHECK_BYTE || code == op::CHECK_LIT_EARLY || code
        == op::CHECK_SINGLE_LOOKAROUND {
        12
    } else if code == op::CHECK_SHUFTI_16X8 {
        64
    } else if code == op::CHECK_MASK {
        40
    } else if code == op::CHECK_BOUNDS {
        28
    } else if code == op::CHECK_LOOKAROUND || code == op::CHECK_PREFIX {
        20
    } else if code == op::CHECK_MASK_32 || code == op::CHECK_SHUFTI_32X8 {
        80
    } else if code == op::CHECK_SHUFTI_16X16 {
        112
    } else if code == op::CHECK_SHUFTI_32X16 {
        144
    } else {
        16
    }
}

/// What a test at `at` decides, or the error that it ends in.
#[verifier::opaque]
pub open spec fn verdict(sc: Scene, code: u8, at: int) -> Result<Branch, InterpError> {
    let bc = sc.bc;
    if !fits(bc, at, test_size(code)) {
        Err(InterpError::ProgramOverrun)
    } else if code == op::CHECK_BYTE {
        Ok(
            branch_on(
                byte_passes(
                    sc.buf,
                    bc[at + 1],
                    bc[at + 2],
                    bc[at + 3] != 0,
                    sc.end + signed32(bc, at + 4),
                ),
                12,
                le32(bc, at + 8),
            ),
        )
    } else if code == op::CHECK_LIT_EARLY {
        Ok(branch_on(sc.end >= le32(bc, at + 4), 12, le32(bc, at + 8)))
    } else if code == op::CHECK_SHUFTI_16X8 {
        Ok(
            branch_on(
                window_passes(
                    sc.buf,
                    sc.end + signed32(bc, at + 56),
                    16,
                    shufti_16x8(
                        bc.subrange(at + 1, at + 33),
                        bc.subrange(at + 33, at + 49),
                        le32(bc, at + 52),
                    ),
                ),
                64,
                le32(bc, at + 60),
            ),
        )
    } else if code == op::CHECK_MASK {
        Ok(
            branch_on(
                window_passes(
                    sc.buf,
                    sc.end + signed32(bc, at + 32),
                    8,
                    word_masked(le64(bc, at + 8), le64(bc, at + 16), le64(bc, at + 24)),
                ),
                40,
                le32(bc, at + 36),
            ),
        )
    } else if code == op::CHECK_BOUNDS {
        Ok(
            branch_on(
                le64(bc, at + 8) <= sc.end <= le64(bc, at + 16),
                32,
                le32(bc, at + 24),
            ),
        )
    } else if code == op::CHECK_SINGLE_LOOKAROUND {
        test_single_lookaround(sc, at)
    } else if code == op::CHECK_LOOKAROUND {
        test_lookaround(sc, at)
    } else if code == op::CHECK_MASK_32 {
        Ok(
            branch_on(
                window_passes(
                    sc.buf,
                    sc.end + signed32(bc, at + 72),
                    32,
                    masked(
                        bc.subrange(at + 1, at + 33),
                        bc.subrange(at + 33, at + 65),
                        le32(bc, at + 68),
                    ),
                ),
                80,
                le32(bc, at + 76),
            ),
        )
    } else if code == op::CHECK_SHUFTI_32X8 {
        Ok(
            branch_on(
                window_passes(
                    sc.buf,
                    sc.end + signed32(bc, at + 72),
                    32,
                    shufti_32x8(
                        bc.subrange(at + 1, at + 17),
                        bc.subrange(at + 17, at + 33),
                        bc.subrange(at + 33, at + 65),
                        le32(bc, at + 68),
                    ),
                ),
                80,
                le32(bc, at + 76),
            ),
        )
    } else if code == op::CHECK_SHUFTI_16X16 {
        Ok(
            branch_on(
                window_passes(
                    sc.buf,
                    sc.end + signed32(bc, at + 104),
                    16,
                    shufti_16x16(
                        bc.subrange(at + 1, at + 33),
                        bc.subrange(at + 33, at + 65),
                        bc.subrange(at + 65, at + 97),
                        le32(bc, at + 100),
                    ),
                ),
                112,
                le32(bc, at + 108),
            ),
        )
    } else if code == op::CHECK_SHUFTI_32X16 {
        Ok(
            branch_on(
                window_passes(
                    sc.buf,
                    sc.end + signed32(bc, at + 136),
                    32,
                    shufti_32x16(
                        bc.subrange(at + 1, at + 33),
                        bc.subrange(at + 33, at + 65),
                        bc.subrange(at + 65, at + 97),
                        bc.subrange(at + 97, at + 129),
                        le32(bc, at + 132),
                    ),
                ),
                144,
                le32(bc, at + 140),
            ),
        )
    } else if code == op::CHECK_PREFIX {
        test_prefix(sc, at)
    } else {
        test_med_lit(sc, at, code == op::CHECK_MED_LIT_NOCASE)
    }
}

/// Whether `n` bytes from `at` on are inside the bytecode.
pub fn has_room(bc: &[u8], at: usize, n: usize) -> (r: bool)
    ensures
        r == fits(bc@, at as int, n as int),
{
    n <= bc.len() && at <= bc.len() - n
}

fn run_single_lookaround(rose: &RoseEngine, at: usize, buf: &[u8], end: u64, sc: Ghost<Scene>) -> (r:
    Result<Branch, InterpError>)
    requires
        sc@.bc == rose.bytes(),
        sc@.buf == buf@,
        sc@.end == end,
        fits(rose.bytes(), at as int, 12),
    ensures
        r == test_single_lookaround(sc@, at as int),
{
    let bc = rose.bytecode();
    let check_offset: i8 = bc[at + 1] as i8;
    match rose.by_offset(read_u32(bc, at + 4) as usize) {
        Err(e) => Err(InterpError::Rose(e)),
        Ok(reach) => Ok(
            take_branch(
                check_single_lookaround(buf, reach, check_offset, end),
                12,
                read_u32(bc, at + 8),
            ),
        ),
    }
}

fn run_lookaround(rose: &RoseEngine, at: usize, buf: &[u8], end: u64, sc: Ghost<Scene>) -> (r: Result<
    Branch,
    InterpError,
>)
    requires
        sc@.bc == rose.bytes(),
        sc@.buf == buf@,
        sc@.end == end,
        fits(rose.bytes(), at as int, 20),
    ensures
        r == test_lookaround(sc@, at as int),
{
    let bc = rose.bytecode();
    let look = match rose.by_offset(read_u32(bc, at + 4) as usize) {
        Err(e) => return Err(InterpError::Rose(e)),
        Ok(look) => look,
    };
    let reach = match rose.by_offset(read_u32(bc, at + 8) as usize) {
        Err(e) => return Err(InterpError::Rose(e)),
        Ok(reach) => reach,
    };
    let count: usize = read_u32(bc, at + 12) as usize;
    match check_lookaround(buf, look, reach, count, end) {
        Err(e) => Err(e),
        Ok(pass) => Ok(take_branch(pass, 20, read_u32(bc, at + 16))),
    }
}

/// The automaton of a queue.
pub fn leftfix<'a>(rose: &RoseEngine<'a>, queue: u32, sc: Ghost<Scene>) -> (r: Result<
    Nfa<'a>,
    InterpError,
>)
    requires
        sc@.bc == rose.bytes(),
        sc@.nfa_info == rose.nfa_info_offset,
    ensures
        r == Err::<Nfa<'a>, InterpError>(nfa_refusal(sc@, queue)),
{
    match rose.nfa_by_queue(queue) {
        Err(e) => Err(InterpError::Rose(e)),
        Ok(bytes) => match Nfa::from_bytes(bytes) {
            Err(e) => Err(InterpError::Nfa(e)),
            Ok(nfa) => Ok(nfa),
        },
    }
}

fn run_prefix(rose: &RoseEngine, at: usize, buf: &[u8], end: u64, sc: Ghost<Scene>) -> (r: Result<
    Branch,
    InterpError,
>)
    requires
        sc@.bc == rose.bytes(),
        sc@.nfa_info == rose.nfa_info_offset,
        sc@.buf == buf@,
        sc@.end == end,
        fits(rose.bytes(), at as int, 20),
    ensures
        r == test_prefix(sc@, at as int),
{
    let bc = rose.bytecode();
    let queue: u32 = read_u32(bc, at + 4);
    let lag: u64 = read_u32(bc, at + 8) as u64;
    let report: u32 = read_u32(bc, at + 12);
    let jump: u32 = read_u32(bc, at + 16);
    if end < lag {
        return Ok(take_branch(false, 20, jump));
    }
    if end - lag > buf.len() as u64 {
        return Err(InterpError::ProgramOverrun);
    }
    let hay = slice_subrange(buf, 0, (end - lag) as usize);
    match leftfix(rose, queue, sc) {
        Err(e) => Err(e),
        Ok(nfa) => match nfa.in_accept_state(hay, report) {
            Err(e) => Err(InterpError::Nfa(e)),
            Ok(accepted) => Ok(take_branch(accepted, 20, jump)),
        },
    }
}

fn run_med_lit(
    rose: &RoseEngine,
    at: usize,
    buf: &[u8],
    end: u64,
    nocase: bool,
    sc: Ghost<Scene>,
) -> (r: Result<Branch, InterpError>)
    requires
        sc@.bc == rose.bytes(),
        sc@.buf == buf@,
        sc@.end == end,
        fits(rose.bytes(), at as int, 16),
    ensures
        r == test_med_lit(sc@, at as int, nocase),
{
    let bc = rose.bytecode();
    let length: usize = read_u32(bc, at + 8) as usize;
    match rose.by_offset(read_u32(bc, at + 4) as usize) {
        Err(e) => Err(InterpError::Rose(e)),
        Ok(lit) => Ok(
            take_branch(
                check_med_lit(buf, lit, length, end, nocase),
                16,
                read_u32(bc, at + 12),
            ),
        ),
    }
}

fn size_of_test(code: u8) -> (r: usize)
    ensures
        r == test_size(code),
{
    match code {
        op::CHECK_BYTE | op::CHECK_LIT_EARLY | op::CHECK_SINGLE_LOOKAROUND => 12,
        op::CHECK_SHUFTI_16X8 => 64,
        op::CHECK_MASK => 40,
        op::CHECK_BOUNDS => 28,
        op::CHECK_LOOKAROUND | op::CHECK_PREFIX => 20,
        op::CHECK_MASK_32 | op::CHECK_SHUFTI_32X8 => 80,
        op::CHECK_SHUFTI_16X16 => 112,
        op::CHECK_SHUFTI_32X16 => 144,
        _ => 16,
    }
}

/// Makes the test at `at`.
pub fn run_test(
    rose: &RoseEngine,
    code: u8,
    at: usize,
    buf: &[u8],
    end: u64,
    sc: Ghost<Scene>,
) -> (r: Result<Branch, InterpError>)
    requires
        is_test(code),
        sc@.bc == rose.bytes(),
        sc@.nfa_info == rose.nfa_info_offset,
        sc@.buf == buf@,
        sc@.end == end,
    ensures
        r == verdict(sc@, code, at as int),
{
    reveal(verdict);
    let bc = rose.bytecode();
    if !has_room(bc, at, size_of_test(code)) {
        return Err(InterpError::ProgramOverrun);
    }
    let (pass, size, jump): (bool, usize, u32) = match code {
        op::CHECK_BYTE => (
            check_byte(
                buf,
                bc[at + 1],
                bc[at + 2],
                bc[at + 3],
                read_u32(bc, at + 4) as i32,
                end,
            ),
            12,
            read_u32(bc, at + 8),
        ),
        op::CHECK_LIT_EARLY => (
            end >= read_u32(bc, at + 4) as u64,
            12,
            read_u32(bc, at + 8),
        ),
        op::CHECK_SHUFTI_16X8 => (
            check_shufti_16x8(
                buf,
                slice_subrange(bc, at + 1, at + 33),
                slice_subrange(bc, at + 33, at + 49),
                read_u32(bc, at + 52),
                read_u32(bc, at + 56) as i32,
                end,
            ),
            64,
            read_u32(bc, at + 60),
        ),
        op::CHECK_MASK => (
            check_mask(
                buf,
                read_u64(bc, at + 8),
                read_u64(bc, at + 16),
                read_u64(bc, at + 24),
                read_u32(bc, at + 32) as i32,
                end,
            ),
            40,
            read_u32(bc, at + 36),
        ),
        op::CHECK_BOUNDS => (
            read_u64(bc, at + 8) <= end && end <= read_u64(bc, at + 16),
            32,
            read_u32(bc, at + 24),
        ),
        op::CHECK_SINGLE_LOOKAROUND => return run_single_lookaround(rose, at, buf, end, sc),
        op::CHECK_LOOKAROUND => return run_lookaround(rose, at, buf, end, sc),
        op::CHECK_MASK_32 => (
            check_mask32(
                buf,
                slice_subrange(bc, at + 1, at + 33),
                slice_subrange(bc, at + 33, at + 65),
                read_u32(bc, at + 68),
                read_u32(bc, at + 72) as i32,
                end,
            ),
            80,
            read_u32(bc, at + 76),
        ),
        op::CHECK_SHUFTI_32X8 => (
            check_shufti_32x8(
                buf,
                slice_subrange(bc, at + 1, at + 17),
                slice_subrange(bc, at + 17, at + 33),
                slice_subrange(bc, at + 33, at + 65),
                read_u32(bc, at + 68),
                read_u32(bc, at + 72) as i32,
                end,
            ),
            80,
            read_u32(bc, at + 76),
        ),
        op::CHECK_SHUFTI_16X16 => (
            check_shufti_16x16(
                buf,
                slice_subrange(bc, at + 1, at + 33),
                slice_subrange(bc, at + 33, at + 65),
                slice_subrange(bc, at + 65, at + 97),
                read_u32(bc, at + 100),
                read_u32(bc, at + 104) as i32,
                end,
            ),
            112,
            read_u32(bc, at + 108),
        ),
        op::CHECK_SHUFTI_32X16 => (
            check_shufti_32x16(
                buf,
                slice_subrange(bc, at + 1, at + 33),
                slice_subrange(bc, at + 33, at + 65),
                slice_subrange(bc, at + 65, at + 97),
                slice_subrange(bc, at + 97, at + 129),
                read_u32(bc, at + 132),
                read_u32(bc, at + 136) as i32,
                end,
            ),
            144,
            read_u32(bc, at + 140),
        ),
        op::CHECK_PREFIX => return run_prefix(rose, at, buf, end, sc),
        _ => return run_med_lit(
            rose,
            at,
            buf,
            end,
            code == op::CHECK_MED_LIT_NOCASE,
            sc,
        ),
    };
    Ok(take_branch(pass, size, jump))
}

} // verus!
