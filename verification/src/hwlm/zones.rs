//! Zones: how a block is cut so that 16 bytes can always be read at once.
//!
//! The middle of a block is read where it is. Its edges are copied into a
//! small buffer, with zeroes in the place of what is not there.

use vstd::prelude::*;

use crate::bytes::byte_or_zero;

verus! {

/// How many bytes are read at once.
pub const ITER_BYTES: usize = 16;

/// The size of the buffer for a copied edge.
pub const ZONE_SIZE: usize = 64;

/// A stretch of the block, by its positions there. The first `shift` of them
/// belong to an earlier stretch, or lie in front of the block.
pub struct Span {
    pub from: int,
    pub to: int,
    pub shift: int,
    /// Read in place; only there are floods looked for.
    pub main: bool,
}

/// A block of at most 16 bytes, ending where the block ends.
pub open spec fn short_span(len: int, start: int) -> Span {
    Span { from: len - 16, to: len, shift: 16 - (len - start), main: false }
}

/// The first 16 bytes of a longer block.
pub open spec fn start_span(start: int) -> Span {
    Span { from: start, to: start + 16, shift: 0, main: false }
}

/// Where the middle of a longer block ends: whole steps, and 3 bytes short of
/// the end.
pub open spec fn main_end(len: int, start: int) -> int {
    start + (len - start - 3) / 16 * 16
}

/// The middle of a longer block.
pub open spec fn main_span(len: int, start: int) -> Span {
    Span { from: start + 16, to: main_end(len, start), shift: 0, main: true }
}

/// What is left from `begin` on, in one step or two.
pub open spec fn end_span(len: int, begin: int) -> Span {
    if len - begin > 16 {
        Span { from: len - 32, to: len, shift: 32 - (len - begin), main: false }
    } else {
        Span { from: len - 16, to: len, shift: 16 - (len - begin), main: false }
    }
}

/// How a block is cut, from `start` on.
pub open spec fn spans(len: int, start: int) -> Seq<Span> {
    if len - start <= 16 {
        seq![short_span(len, start)]
    } else if main_end(len, start) > start + 16 {
        seq![start_span(start), main_span(len, start), end_span(len, main_end(len, start))]
    } else {
        seq![start_span(start), end_span(len, start + 16)]
    }
}

/// A stretch to read: the block itself, or a copy of an edge.
pub struct Zone {
    pub copied: [u8; 64],
    pub is_copied: bool,
    pub start: usize,
    pub end: usize,
    pub shift: usize,
    /// The position in the block of a position in the zone, less the latter.
    pub adjust: i128,
}

impl Zone {
    /// The bytes that the zone's positions refer to.
    pub open spec fn bytes(&self, buf: Seq<u8>) -> Seq<u8> {
        if self.is_copied {
            self.copied@
        } else {
            buf
        }
    }

    /// The zone shows the stretch, and one byte behind it.
    pub open spec fn shows(&self, buf: Seq<u8>, span: Span) -> bool {
        &&& self.start + self.adjust == span.from
        &&& self.end + self.adjust == span.to
        &&& self.shift == span.shift
        &&& 0 <= self.shift < 16
        &&& self.start <= self.end < self.bytes(buf).len()
        &&& (self.end - self.start) % 16 == 0
        &&& self.is_copied == !span.main
        &&& !self.is_copied ==> self.adjust == 0
        &&& -16 <= self.adjust <= usize::MAX
        &&& forall|k: int|
            self.start <= k <= self.end ==> #[trigger] self.bytes(buf)[k] == byte_or_zero(
                buf,
                k + self.adjust,
            )
    }

    /// The bytes that the zone's positions refer to.
    pub fn data<'b>(&'b self, buf: &'b [u8]) -> (r: &'b [u8])
        ensures
            r@ == self.bytes(buf@),
    {
        if self.is_copied {
            &self.copied
        } else {
            buf
        }
    }
}

/// Copies `n` bytes from position `from` on, and one more.
fn copy_zone(buf: &[u8], from: i128, n: usize, shift: usize, span: Ghost<Span>) -> (r: Zone)
    requires
        n == 16 || n == 32,
        -16 <= from <= usize::MAX,
        shift < 16,
        span@ == (Span { from: from as int, to: from + n, shift: shift as int, main: false }),
    ensures
        r.shows(buf@, span@),
{
    let mut copied: [u8; 64] = [0u8; 64];
    assert(copied == vstd::array::spec_array_fill_for_copy_type::<u8, 64>(0));
    let mut k: usize = 0;
    while k < n + 1
        invariant
            n == 16 || n == 32,
            -16 <= from <= usize::MAX,
            k <= n + 1,
            forall|i: int| 0 <= i < k ==> #[trigger] copied@[i] == byte_or_zero(buf@, i + from),
            forall|i: int| k <= i < 64 ==> #[trigger] copied@[i] == 0,
        decreases n + 1 - k,
    {
        let p: i128 = from + k as i128;
        if p >= 0 && p < buf.len() as i128 {
            copied[k] = buf[p as usize];
        }
        k = k + 1;
    }
    Zone { copied, is_copied: true, start: 0, end: n, shift, adjust: from }
}

/// The whole of a block with at most 16 bytes from `begin` on.
pub fn create_short_zone(buf: &[u8], begin: usize) -> (r: Zone)
    requires
        begin < buf@.len() <= begin + 16,
    ensures
        r.shows(buf@, short_span(buf@.len() as int, begin as int)),
{
    let len: usize = buf.len();
    copy_zone(
        buf,
        len as i128 - 16,
        16,
        16 - (len - begin),
        Ghost(short_span(len as int, begin as int)),
    )
}

/// The first 16 bytes of a block with more than 16 bytes from `begin` on.
pub fn create_start_zone(buf: &[u8], begin: usize) -> (r: Zone)
    requires
        begin + 16 < buf@.len(),
    ensures
        r.shows(buf@, start_span(begin as int)),
{
    copy_zone(buf, begin as i128, 16, 0, Ghost(start_span(begin as int)))
}

/// The rest of a block, from `begin` on.
pub fn create_end_zone(buf: &[u8], begin: usize) -> (r: Zone)
    requires
        16 <= begin < buf@.len() <= begin + 31,
    ensures
        r.shows(buf@, end_span(buf@.len() as int, begin as int)),
{
    let len: usize = buf.len();
    let z_len: usize = len - begin;
    let ghost span = end_span(len as int, begin as int);
    if z_len > ITER_BYTES {
        copy_zone(buf, len as i128 - 32, 32, 32 - z_len, Ghost(span))
    } else {
        copy_zone(buf, len as i128 - 16, 16, 16 - z_len, Ghost(span))
    }
}

/// The zones are those that the block is cut into.
pub open spec fn zones_show(zones: Seq<Zone>, buf: Seq<u8>, spans: Seq<Span>) -> bool {
    &&& zones.len() == spans.len()
    &&& forall|k: int| 0 <= k < zones.len() ==> (#[trigger] zones[k]).shows(buf, spans[k])
}

/// Cuts a block, from `start` on.
pub fn prepare_zones(buf: &[u8], start: usize) -> (r: Vec<Zone>)
    requires
        start < buf@.len(),
    ensures
        zones_show(r@, buf@, spans(buf@.len() as int, start as int)),
{
    let len: usize = buf.len();
    let mut out: Vec<Zone> = Vec::new();
    if len - start <= ITER_BYTES {
        out.push(create_short_zone(buf, start));
        return out;
    }
    out.push(create_start_zone(buf, start));
    let steps: usize = (len - start - 3) / ITER_BYTES;
    let end: usize = start + steps * ITER_BYTES;
    if end > start + ITER_BYTES {
        out.push(
            Zone {
                copied: [0u8;64],
                is_copied: false,
                start: start + ITER_BYTES,
                end,
                shift: 0,
                adjust: 0,
            },
        );
        out.push(create_end_zone(buf, end));
    } else {
        out.push(create_end_zone(buf, start + ITER_BYTES));
    }
    out
}

} // verus!
