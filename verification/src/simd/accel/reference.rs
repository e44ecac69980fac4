//! Classes of bytes, and the plain way to search for them.

use vstd::prelude::*;

use crate::bits::lemma_nibbles;

verus! {

/// A class of bytes.
pub type ByteClass = spec_fn(u8) -> bool;

/// The bytes that are not in a class.
pub open spec fn outside(class: ByteClass) -> ByteClass {
    |b: u8| !class(b)
}

/// The row of the low nibble and the row of the high nibble have a bit in
/// common.
pub open spec fn shufti_class(lo: Seq<u8>, hi: Seq<u8>) -> ByteClass {
    |b: u8| lo[(b & 0x0f) as int] & hi[(b >> 4) as int] != 0
}

/// Bit `(b >> 4) & 7` of the row of the low nibble, in one table for the lower
/// half of the bytes and another for the upper half.
pub open spec fn truffle_class(clear: Seq<u8>, set: Seq<u8>) -> ByteClass {
    |b: u8|
        (if b < 0x80 {
            clear
        } else {
            set
        })[(b & 0x0f) as int] & (1u8 << ((b >> 4) & 7)) != 0
}

/// The bits of a byte that count when the case of letters does not.
pub open spec fn case_bits(nocase: bool) -> u8 {
    if nocase {
        0xdf
    } else {
        0xff
    }
}

/// One byte, or both cases of a letter.
pub open spec fn verm_class(c: u8, nocase: bool) -> ByteClass {
    |b: u8| b & case_bits(nocase) == c & case_bits(nocase)
}

/// The result of a forward search.
pub open spec fn finds_first(buf: Seq<u8>, class: ByteClass, r: Option<usize>) -> bool {
    match r {
        Some(n) => {
            &&& n < buf.len()
            &&& class(buf[n as int])
            &&& forall|i: int| 0 <= i < n ==> !class(#[trigger] buf[i])
        },
        None => forall|i: int| 0 <= i < buf.len() ==> !class(#[trigger] buf[i]),
    }
}

/// The result of a backward search.
pub open spec fn finds_last(buf: Seq<u8>, class: ByteClass, r: Option<usize>) -> bool {
    match r {
        Some(n) => {
            &&& n < buf.len()
            &&& class(buf[n as int])
            &&& forall|i: int| n < i < buf.len() ==> !class(#[trigger] buf[i])
        },
        None => forall|i: int| 0 <= i < buf.len() ==> !class(#[trigger] buf[i]),
    }
}

/// Two forward searches of one buffer for one class have one result.
pub proof fn first_is_unique(buf: Seq<u8>, class: ByteClass, r: Option<usize>, q: Option<usize>)
    requires
        finds_first(buf, class, r),
        finds_first(buf, class, q),
    ensures
        r == q,
{
    match (r, q) {
        (Some(a), Some(b)) => {
            assert(class(buf[a as int]) && class(buf[b as int]));
        },
        (Some(a), None) => {
            assert(class(buf[a as int]));
        },
        (None, Some(b)) => {
            assert(class(buf[b as int]));
        },
        (None, None) => {},
    }
}

/// Two backward searches of one buffer for one class have one result.
pub proof fn last_is_unique(buf: Seq<u8>, class: ByteClass, r: Option<usize>, q: Option<usize>)
    requires
        finds_last(buf, class, r),
        finds_last(buf, class, q),
    ensures
        r == q,
{
    match (r, q) {
        (Some(a), Some(b)) => {
            assert(class(buf[a as int]) && class(buf[b as int]));
        },
        (Some(a), None) => {
            assert(class(buf[a as int]));
        },
        (None, Some(b)) => {
            assert(class(buf[b as int]));
        },
        (None, None) => {},
    }
}

/// Whether a byte is in a shufti class.
pub fn shufti_in_class(lo: &[u8; 16], hi: &[u8; 16], b: u8) -> (r: bool)
    ensures
        r == shufti_class(lo@, hi@)(b),
{
    proof {
        lemma_nibbles(b, 0);
    }
    lo[(b & 0x0f) as usize] & hi[(b >> 4) as usize] != 0
}

/// Whether a byte is in a truffle class.
pub fn truffle_in_class(clear: &[u8; 16], set: &[u8; 16], b: u8) -> (r: bool)
    ensures
        r == truffle_class(clear@, set@)(b),
{
    proof {
        lemma_nibbles(b, 0);
        crate::bits::lemma_seven(b >> 4);
    }
    let row: u8 = if b < 0x80 {
        clear[(b & 0x0f) as usize]
    } else {
        set[(b & 0x0f) as usize]
    };
    row & (1u8 << ((b >> 4) & 7)) != 0
}

/// The bits of a byte that count when the case of letters does not.
pub fn case_mask(nocase: bool) -> (r: u8)
    ensures
        r == case_bits(nocase),
{
    if nocase {
        0xdf
    } else {
        0xff
    }
}

/// Whether a byte is the one, or the other case of it.
pub fn verm_matches(c: u8, nocase: bool, b: u8) -> (r: bool)
    ensures
        r == verm_class(c, nocase)(b),
{
    let cm: u8 = case_mask(nocase);
    b & cm == c & cm
}

/// The first byte in a shufti class.
pub fn shufti_fwd(lo: &[u8; 16], hi: &[u8; 16], buf: &[u8]) -> (r: Option<usize>)
    ensures
        finds_first(buf@, shufti_class(lo@, hi@), r),
{
    let mut i: usize = 0;
    while i < buf.len()
        invariant
            i <= buf@.len(),
            forall|j: int| 0 <= j < i ==> !shufti_class(lo@, hi@)(#[trigger] buf@[j]),
        decreases buf@.len() - i,
    {
        if shufti_in_class(lo, hi, buf[i]) {
            return Some(i);
        }
        i = i + 1;
    }
    None
}

/// The last byte in a shufti class.
pub fn shufti_rev(lo: &[u8; 16], hi: &[u8; 16], buf: &[u8]) -> (r: Option<usize>)
    ensures
        finds_last(buf@, shufti_class(lo@, hi@), r),
{
    let mut i: usize = buf.len();
    while i > 0
        invariant
            i <= buf@.len(),
            forall|j: int| i <= j < buf@.len() ==> !shufti_class(lo@, hi@)(#[trigger] buf@[j]),
        decreases i,
    {
        i = i - 1;
        if shufti_in_class(lo, hi, buf[i]) {
            return Some(i);
        }
    }
    None
}

/// The first byte in a truffle class.
pub fn truffle_fwd(clear: &[u8; 16], set: &[u8; 16], buf: &[u8]) -> (r: Option<usize>)
    ensures
        finds_first(buf@, truffle_class(clear@, set@), r),
{
    let mut i: usize = 0;
    while i < buf.len()
        invariant
            i <= buf@.len(),
            forall|j: int| 0 <= j < i ==> !truffle_class(clear@, set@)(#[trigger] buf@[j]),
        decreases buf@.len() - i,
    {
        if truffle_in_class(clear, set, buf[i]) {
            return Some(i);
        }
        i = i + 1;
    }
    None
}

/// The last byte in a truffle class.
pub fn truffle_rev(clear: &[u8; 16], set: &[u8; 16], buf: &[u8]) -> (r: Option<usize>)
    ensures
        finds_last(buf@, truffle_class(clear@, set@), r),
{
    let mut i: usize = buf.len();
    while i > 0
        invariant
            i <= buf@.len(),
            forall|j: int| i <= j < buf@.len() ==> !truffle_class(clear@, set@)(#[trigger] buf@[j]),
        decreases i,
    {
        i = i - 1;
        if truffle_in_class(clear, set, buf[i]) {
            return Some(i);
        }
    }
    None
}

/// The first byte that is `c`.
pub fn verm_fwd(c: u8, nocase: bool, buf: &[u8]) -> (r: Option<usize>)
    ensures
        finds_first(buf@, verm_class(c, nocase), r),
{
    let mut i: usize = 0;
    while i < buf.len()
        invariant
            i <= buf@.len(),
            forall|j: int| 0 <= j < i ==> !verm_class(c, nocase)(#[trigger] buf@[j]),
        decreases buf@.len() - i,
    {
        if verm_matches(c, nocase, buf[i]) {
            return Some(i);
        }
        i = i + 1;
    }
    None
}

/// The first byte that is not `c`.
pub fn nverm_fwd(c: u8, nocase: bool, buf: &[u8]) -> (r: Option<usize>)
    ensures
        finds_first(buf@, outside(verm_class(c, nocase)), r),
{
    let mut i: usize = 0;
    while i < buf.len()
        invariant
            i <= buf@.len(),
            forall|j: int| 0 <= j < i ==> !outside(verm_class(c, nocase))(#[trigger] buf@[j]),
        decreases buf@.len() - i,
    {
        if !verm_matches(c, nocase, buf[i]) {
            return Some(i);
        }
        i = i + 1;
    }
    None
}

/// The last byte that is `c`.
pub fn verm_rev(c: u8, nocase: bool, buf: &[u8]) -> (r: Option<usize>)
    ensures
        finds_last(buf@, verm_class(c, nocase), r),
{
    let mut i: usize = buf.len();
    while i > 0
        invariant
            i <= buf@.len(),
            forall|j: int| i <= j < buf@.len() ==> !verm_class(c, nocase)(#[trigger] buf@[j]),
        decreases i,
    {
        i = i - 1;
        if verm_matches(c, nocase, buf[i]) {
            return Some(i);
        }
    }
    None
}

/// The last byte that is not `c`.
pub fn nverm_rev(c: u8, nocase: bool, buf: &[u8]) -> (r: Option<usize>)
    ensures
        finds_last(buf@, outside(verm_class(c, nocase)), r),
{
    let mut i: usize = buf.len();
    while i > 0
        invariant
            i <= buf@.len(),
            forall|j: int| i <= j < buf@.len() ==> !outside(verm_class(c, nocase))(#[trigger] buf@[j]),
        decreases i,
    {
        i = i - 1;
        if !verm_matches(c, nocase, buf[i]) {
            return Some(i);
        }
    }
    None
}

} // verus!
