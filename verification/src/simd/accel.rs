//! Searching a buffer for bytes of a class.
//!
//! Forward searches give the first byte of the class, backward searches the
//! last. [`shufti_double_exec`] looks for pairs of bytes. An empty buffer
//! holds nothing.

pub mod classes;
pub mod generic;
pub mod masks;
pub mod reference;

use vstd::prelude::*;

use crate::simd::accel::generic::{finds_pair, PairTables};
use crate::simd::accel::reference::{
    finds_first, finds_last, outside, shufti_class, truffle_class, verm_class,
};
use crate::simd::scalar::V128Scalar;

verus! {

/// The first byte in a shufti class.
pub fn shufti_exec(mask_lo: &[u8; 16], mask_hi: &[u8; 16], buf: &[u8]) -> (r: Option<usize>)
    ensures
        finds_first(buf@, shufti_class(mask_lo@, mask_hi@), r),
{
    generic::shufti_exec::<V128Scalar>(mask_lo, mask_hi, buf)
}

/// The last byte in a shufti class.
pub fn rshufti_exec(mask_lo: &[u8; 16], mask_hi: &[u8; 16], buf: &[u8]) -> (r: Option<usize>)
    ensures
        finds_last(buf@, shufti_class(mask_lo@, mask_hi@), r),
{
    generic::rshufti_exec::<V128Scalar>(mask_lo, mask_hi, buf)
}

/// The first pair of bytes, or the last byte if a pair can start there.
pub fn shufti_double_exec(
    m1_lo: &[u8; 16],
    m1_hi: &[u8; 16],
    m2_lo: &[u8; 16],
    m2_hi: &[u8; 16],
    buf: &[u8],
) -> (r: Option<usize>)
    ensures
        finds_pair(
            PairTables { m1_lo: m1_lo@, m1_hi: m1_hi@, m2_lo: m2_lo@, m2_hi: m2_hi@ },
            buf@,
            r,
        ),
{
    generic::shufti_double_exec::<V128Scalar>(m1_lo, m1_hi, m2_lo, m2_hi, buf)
}

/// The first byte in a truffle class.
pub fn truffle_exec(mask_highclear: &[u8; 16], mask_highset: &[u8; 16], buf: &[u8]) -> (r: Option<usize>)
    ensures
        finds_first(buf@, truffle_class(mask_highclear@, mask_highset@), r),
{
    generic::truffle_exec::<V128Scalar>(mask_highclear, mask_highset, buf)
}

/// The last byte in a truffle class.
pub fn rtruffle_exec(mask_highclear: &[u8; 16], mask_highset: &[u8; 16], buf: &[u8]) -> (r: Option<usize>)
    ensures
        finds_last(buf@, truffle_class(mask_highclear@, mask_highset@), r),
{
    generic::rtruffle_exec::<V128Scalar>(mask_highclear, mask_highset, buf)
}

/// The first byte that is `c`.
pub fn vermicelli_exec(c: u8, nocase: bool, buf: &[u8]) -> (r: Option<usize>)
    ensures
        finds_first(buf@, verm_class(c, nocase), r),
{
    generic::vermicelli_exec::<V128Scalar>(c, nocase, buf)
}

/// The first byte that is not `c`.
pub fn nvermicelli_exec(c: u8, nocase: bool, buf: &[u8]) -> (r: Option<usize>)
    ensures
        finds_first(buf@, outside(verm_class(c, nocase)), r),
{
    generic::nvermicelli_exec::<V128Scalar>(c, nocase, buf)
}

/// The last byte that is `c`.
pub fn rvermicelli_exec(c: u8, nocase: bool, buf: &[u8]) -> (r: Option<usize>)
    ensures
        finds_last(buf@, verm_class(c, nocase), r),
{
    generic::rvermicelli_exec::<V128Scalar>(c, nocase, buf)
}

/// The last byte that is not `c`.
pub fn rnvermicelli_exec(c: u8, nocase: bool, buf: &[u8]) -> (r: Option<usize>)
    ensures
        finds_last(buf@, outside(verm_class(c, nocase)), r),
{
    generic::rnvermicelli_exec::<V128Scalar>(c, nocase, buf)
}

} // verus!
