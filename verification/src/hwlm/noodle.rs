//! Noodle: a matcher for one literal.
//!
//! It looks for the last byte of the literal, or for two bytes near its end,
//! and then holds up to 8 bytes against a mask and a wanted word.

use vstd::prelude::*;

use crate::bits::lemma_word_is;
use crate::bytes::{byte_of, le32, le64, load_u64_le_partial, read_u32, read_u64};
use crate::hwlm::confirm::{ask, Track, Tracker};
use crate::hwlm::fdr::{ending, fresh};
use crate::hwlm::{
    agrees, answered, answers_of, calls_of, lemma_answers_of_agrees, Answers,
    Call, ExecResult, Hit, HitSink, HwlmError, PlainSink, ScanCtl,
};
use crate::simd::accel::reference::{case_bits, case_mask};

verus! {

/// The size of a table.
pub const NOOD_TABLE_SIZE: usize = 32;

/// A parsed table.
#[derive(Debug, Clone, Copy, PartialEq, Eq)]
pub struct NoodTable {
    pub id: u32,
    /// The bits of the last bytes that count.
    pub msk: u64,
    /// What those bits have to be.
    pub cmp: u64,
    /// How many bytes the mask covers.
    pub msk_len: u8,
    /// How far the first key byte is in front of the end.
    pub key_offset: u8,
    pub nocase: bool,
    /// One key byte, not two.
    pub single: bool,
    pub key0: u8,
    pub key1: u8,
}

/// The fields of a table in the bytes that it was read from.
pub open spec fn nood_reads(t: NoodTable, b: Seq<u8>) -> bool {
    &&& t.id == le32(b, 0)
    &&& t.msk == le64(b, 8)
    &&& t.cmp == le64(b, 16)
    &&& t.msk_len == b[24]
    &&& t.key_offset == b[25]
    &&& t.nocase == (b[26] != 0)
    &&& t.single == (b[27] != 0)
    &&& t.key0 == b[28]
    &&& t.key1 == b[29]
}

/// What is wrong with the fields of a table, if anything: the mask covers 1 to
/// 8 bytes, a single key byte is the last one, two key bytes are in front of
/// the end, and no further than the mask.
pub open spec fn shape_fault(msk_len: u8, key_offset: u8, single: bool) -> Option<HwlmError> {
    if msk_len == 0 || msk_len > 8 {
        Some(HwlmError::BadTable("msk_len вне 1..=8"))
    } else if single && key_offset != 1 {
        Some(HwlmError::BadTable("single с key_offset != 1"))
    } else if !single && key_offset < 2 {
        Some(HwlmError::BadTable("double с key_offset < 2"))
    } else if key_offset > msk_len + 1 {
        Some(HwlmError::BadTable("key_offset за пределами маски"))
    } else {
        None
    }
}

/// What is wrong with the bytes of a table, if anything.
pub open spec fn nood_fault(b: Seq<u8>) -> Option<HwlmError> {
    if b.len() < NOOD_TABLE_SIZE {
        Some(HwlmError::Truncated)
    } else {
        shape_fault(b[24], b[25], b[27] != 0)
    }
}

/// The wanted word, under the mask.
pub open spec fn key_matches(t: NoodTable, v: u64) -> bool {
    v & t.msk == t.cmp
}

pub open spec fn is_letter(c: u8) -> bool {
    0x41 <= c <= 0x5a || 0x61 <= c <= 0x7a
}

/// The bits of a key byte that count. For a single key byte that is no letter,
/// all do.
pub open spec fn key_bits(t: NoodTable) -> u8 {
    case_bits(t.nocase && (t.single ==> is_letter(t.key0)))
}

/// The last `n` bytes in front of position `end`, as a word.
pub open spec fn word_before(buf: Seq<u8>, end: int, n: int) -> u64 {
    le64(
        Seq::new(
            8,
            |j: int|
                if j < n {
                    buf[end - n + j]
                } else {
                    0
                },
        ),
        0,
    )
}

/// The key is at position `p`.
pub open spec fn key_at(t: NoodTable, buf: Seq<u8>, p: int) -> bool {
    &&& buf[p] & key_bits(t) == t.key0 & key_bits(t)
    &&& !t.single ==> buf[p + 1] & key_bits(t) == t.key1 & key_bits(t)
}

/// The literal is there with its key at position `p`. A literal of one byte is
/// its own key.
pub open spec fn nood_hit(t: NoodTable, buf: Seq<u8>, p: int) -> bool {
    &&& key_at(t, buf, p)
    &&& t.single && t.msk_len == 1 || key_matches(
        t,
        word_before(buf, p + t.key_offset, t.msk_len as int),
    )
}

/// The first position at which the key can be.
pub open spec fn first_key(t: NoodTable, start: int) -> int {
    let p = start + t.msk_len - t.key_offset;
    if p < 0 {
        0
    } else {
        p
    }
}

/// The position behind the last one at which the key can be.
pub open spec fn keys_end(t: NoodTable, len: int) -> int {
    len + 1 - t.key_offset
}

/// A call that remembers nothing.
pub open spec fn nood_ask(t: NoodTable, p: int, tr: Track, s: Answers) -> Track {
    Track { last: tr.last, ..ask(tr, s, p + t.key_offset - 1, t.id).0 }
}

/// The positions from `p` on, up to `to`.
pub open spec fn nood_positions(
    t: NoodTable,
    buf: Seq<u8>,
    p: int,
    to: int,
    tr: Track,
    s: Answers,
) -> Track
    decreases to - p,
{
    if p >= to || !tr.live {
        tr
    } else {
        let tr2 = if nood_hit(t, buf, p) {
            nood_ask(t, p, tr, s)
        } else {
            tr
        };
        nood_positions(t, buf, p + 1, to, tr2, s)
    }
}

/// A block from `start` on.
pub open spec fn nood_scan(
    t: NoodTable,
    buf: Seq<u8>,
    start: int,
    calls: Seq<Call>,
    s: Answers,
) -> Track {
    if buf.len() - start < t.msk_len {
        fresh(calls)
    } else {
        nood_positions(
            t,
            buf,
            first_key(t, start),
            keys_end(t, buf.len() as int),
            fresh(calls),
            s,
        )
    }
}

/// A log and a result that a scan of a block can have.
pub open spec fn nood_outcome(
    t: NoodTable,
    buf: Seq<u8>,
    start: int,
    log: Seq<Hit>,
    r: ExecResult,
) -> bool {
    let tr = nood_scan(t, buf, start, Seq::empty(), answers_of(log));
    &&& tr.calls == calls_of(log)
    &&& r == ending(tr)
}

fn letter(c: u8) -> (r: bool)
    ensures
        r == is_letter(c),
{
    (0x41 <= c && c <= 0x5a) || (0x61 <= c && c <= 0x7a)
}

impl NoodTable {
    pub open spec fn wf(&self) -> bool {
        shape_fault(self.msk_len, self.key_offset, self.single) is None
    }

    /// Parses a table.
    pub fn parse(bytes: &[u8]) -> (r: Result<NoodTable, HwlmError>)
        ensures
            match r {
                Ok(t) => nood_fault(bytes@) is None && nood_reads(t, bytes@) && t.wf(),
                Err(e) => nood_fault(bytes@) == Some(e),
            },
    {
        if bytes.len() < NOOD_TABLE_SIZE {
            return Err(HwlmError::Truncated);
        }
        let t = NoodTable {
            id: read_u32(bytes, 0),
            msk: read_u64(bytes, 8),
            cmp: read_u64(bytes, 16),
            msk_len: bytes[24],
            key_offset: bytes[25],
            nocase: bytes[26] != 0,
            single: bytes[27] != 0,
            key0: bytes[28],
            key1: bytes[29],
        };
        if t.msk_len == 0 || t.msk_len > 8 {
            return Err(HwlmError::BadTable("msk_len вне 1..=8"));
        }
        if t.single && t.key_offset != 1 {
            return Err(HwlmError::BadTable("single с key_offset != 1"));
        }
        if !t.single && t.key_offset < 2 {
            return Err(HwlmError::BadTable("double с key_offset < 2"));
        }
        if t.key_offset > t.msk_len + 1 {
            return Err(HwlmError::BadTable("key_offset за пределами маски"));
        }
        Ok(t)
    }

    fn key_word_matches(&self, v: u64) -> (r: bool)
        ensures
            r == key_matches(*self, v),
    {
        v & self.msk == self.cmp
    }

    /// Whether the literal is there with its key at position `p`.
    fn confirms(&self, buf: &[u8], p: usize, bits: u8) -> (r: bool)
        requires
            self.wf(),
            bits == key_bits(*self),
            p + self.key_offset <= buf@.len(),
            p + self.key_offset >= self.msk_len,
        ensures
            r == nood_hit(*self, buf@, p as int),
    {
        if buf[p] & bits != self.key0 & bits {
            return false;
        }
        if !self.single && buf[p + 1] & bits != self.key1 & bits {
            return false;
        }
        if self.single && self.msk_len == 1 {
            return true;
        }
        let end: usize = p + self.key_offset as usize;
        let n: usize = self.msk_len as usize;
        let v: u64 = load_u64_le_partial(buf, end - n, n);
        proof {
            let window = Seq::new(
                8,
                |j: int|
                    if j < n {
                        buf@[end - n + j]
                    } else {
                        0
                    },
            );
            assert forall|i: int| 0 <= i < 8 implies #[trigger] byte_of(v, i) == window[i] by {}
            lemma_word_is(v, window);
            assert(v == word_before(buf@, end as int, n as int));
        }
        self.key_word_matches(v)
    }

    /// Scans a block from `start` on and hands its hits to a sink.
    pub fn run<S: HitSink>(&self, buf: &[u8], start: usize, sink: &mut S) -> (r: ExecResult)
        requires
            self.wf(),
            buf@.len() <= old(sink).limit(),
            old(sink).inv(),
        ensures
            final(sink).inv(),
            final(sink).fixed() == old(sink).fixed(),
            final(sink).limit() == old(sink).limit(),
            old(sink).log().is_prefix_of(final(sink).log()),
            forall|s: Answers| #[trigger]
                agrees(s, final(sink).log()) ==> {
                    let tr = nood_scan(
                        *self,
                        buf@,
                        start as int,
                        calls_of(old(sink).log()),
                        s,
                    );
                    tr.calls == calls_of(final(sink).log()) && r == ending(tr)
                },
    {
        let len: usize = buf.len();
        let ml: usize = self.msk_len as usize;
        let ko: usize = self.key_offset as usize;
        if start > len || len - start < ml {
            return ExecResult::Completed;
        }
        let bits: u8 = case_mask(self.nocase && (!self.single || letter(self.key0)));
        let mut st = Tracker::new();
        let first: usize = if start + ml >= ko {
            start + ml - ko
        } else {
            0
        };
        let ghost t0 = st.track(sink.log());
        let mut p: usize = first;
        while st.live && p < len && len - p >= ko
            invariant
                self.wf(),
                bits == key_bits(*self),
                len == buf@.len(),
                ko == self.key_offset,
                ml == self.msk_len,
                first == first_key(*self, start as int),
                first <= p,
                buf@.len() <= sink.limit(),
                sink.inv(),
                sink.fixed() == old(sink).fixed(),
                sink.limit() == old(sink).limit(),
                old(sink).log().is_prefix_of(sink.log()),
                forall|s: Answers| #[trigger]
                    agrees(s, sink.log()) ==> nood_positions(
                        *self,
                        buf@,
                        first as int,
                        keys_end(*self, len as int),
                        t0,
                        s,
                    ) == nood_positions(
                        *self,
                        buf@,
                        p as int,
                        keys_end(*self, len as int),
                        st.track(sink.log()),
                        s,
                    ),
            decreases len - p,
        {
            if self.confirms(buf, p, bits) {
                let last: u32 = st.last;
                let _ = st.ask(sink, p + ko - 1, self.id);
                st.last = last;
            }
            p = p + 1;
        }
        if st.live {
            ExecResult::Completed
        } else {
            ExecResult::Terminated
        }
    }

    /// Scans a block from `start` on. `cb` gets the position of the last byte
    /// of each hit, and the literal's id.
    pub fn exec<F: FnMut(u64, u32) -> ScanCtl>(&self, buf: &[u8], start: usize, cb: &mut F) -> (r:
        ExecResult)
        requires
            self.wf(),
            forall|end: u64, id: u32| #[trigger] call_requires(*old(cb), (end, id)),
        ensures
            exists|log: Seq<Hit>| #[trigger]
                nood_outcome(*self, buf@, start as int, log, r) && answered(*old(cb), log),
    {
        assert(buf@.len() == buf.len());
        let mut sink = PlainSink { cb, hits: Ghost(Seq::empty()) };
        assert(calls_of(sink.log()) =~= Seq::empty());
        let r = self.run(buf, start, &mut sink);
        proof {
            lemma_answers_of_agrees(sink.log());
            assert(nood_outcome(*self, buf@, start as int, sink.log(), r));
            assert(answered(*old(cb), sink.log()));
        }
        r
    }
}

} // verus!
