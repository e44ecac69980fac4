//! Instruction codes of literal programs.

use vstd::prelude::*;

verus! {

pub const END: u8 = 0;

pub const CHECK_LIT_EARLY: u8 = 2;

pub const CHECK_GROUPS: u8 = 3;

pub const CHECK_BOUNDS: u8 = 5;

pub const CHECK_NOT_HANDLED: u8 = 6;

pub const CHECK_SINGLE_LOOKAROUND: u8 = 7;

pub const CHECK_LOOKAROUND: u8 = 8;

pub const CHECK_MASK: u8 = 9;

pub const CHECK_MASK_32: u8 = 10;

pub const CHECK_BYTE: u8 = 11;

pub const CHECK_SHUFTI_16X8: u8 = 12;

pub const CHECK_SHUFTI_32X8: u8 = 13;

pub const CHECK_SHUFTI_16X16: u8 = 14;

pub const CHECK_SHUFTI_32X16: u8 = 15;

pub const CHECK_INFIX: u8 = 16;

pub const CHECK_PREFIX: u8 = 17;

pub const PUSH_DELAYED: u8 = 18;

pub const CATCH_UP: u8 = 20;

pub const CATCH_UP_MPV: u8 = 21;

pub const TRIGGER_INFIX: u8 = 26;

pub const TRIGGER_SUFFIX: u8 = 27;

pub const REPORT: u8 = 33;

pub const DEDUPE_AND_REPORT: u8 = 37;

pub const FINAL_REPORT: u8 = 38;

pub const SET_STATE: u8 = 41;

pub const SET_GROUPS: u8 = 42;

pub const SQUASH_GROUPS: u8 = 43;

pub const CHECK_STATE: u8 = 44;

pub const CHECK_MED_LIT: u8 = 53;

pub const CHECK_MED_LIT_NOCASE: u8 = 54;

pub const INCLUDED_JUMP: u8 = 61;

/// Instructions start at multiples of this.
pub const MIN_ALIGN: usize = 8;

/// The space that an instruction of `n` bytes takes.
pub open spec fn aligned(n: int) -> int {
    (n + MIN_ALIGN - 1) / (MIN_ALIGN as int) * MIN_ALIGN
}

/// The space that an instruction of `n` bytes takes.
pub fn roundup(n: usize) -> (r: usize)
    requires
        n <= 1024,
    ensures
        r == aligned(n as int),
{
    (n + MIN_ALIGN - 1) / MIN_ALIGN * MIN_ALIGN
}

} // verus!
