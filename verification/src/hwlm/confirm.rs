//! Confirming candidates: from a set bit of a candidate word to the literals
//! that end at its position.
//!
//! Each of the 8 buckets has a confirm structure: a hash of the last 8 bytes
//! chooses a chain of literal records, and each record is held against those
//! bytes. The structures are checked once, when a table is parsed; the scan
//! then reads them without further tests.

use vstd::prelude::*;
use vstd::std_specs::bits::{axiom_u64_trailing_zeros, u64_trailing_zeros};

use crate::bytes::{byte_or_zero, le32, le64, read_u32, read_u64};
use crate::hwlm::{
    agrees, calls_of, lemma_agrees_prefix, lemma_agrees_push, Answers, Call, Hit, HitSink, HwlmError,
    Reply, ScanCtl,
};
use crate::simd::lanes::bit64;

verus! {

/// How many buckets there are.
pub const NUM_BUCKETS: usize = 8;

/// The size of a literal record.
pub const LIT_INFO_SIZE: usize = 32;

/// The size of the header of a confirm structure.
pub const CONFIRM_HEADER: usize = 32;

/// A literal that is not reported twice in a row.
pub const LIT_FLAG_NOREPEAT: u8 = 1;

/// No literal has this id.
pub const INVALID_MATCH_ID: u32 = 0xffff_ffff;

/// From the record at `li` on, up to the one that ends its chain, all records
/// are inside the table.
pub open spec fn chain_ok(b: Seq<u8>, li: int) -> bool
    decreases b.len() - li,
{
    &&& 0 <= li
    &&& li + LIT_INFO_SIZE <= b.len()
    &&& b[li + 30] == 0 || chain_ok(b, li + LIT_INFO_SIZE)
}

/// How many bits of the hash a confirm structure uses.
pub open spec fn hash_bits(b: Seq<u8>, fdrc: int) -> u32 {
    le32(b, fdrc + 16)
}

/// How many chains a confirm structure has.
pub open spec fn chain_count(b: Seq<u8>, fdrc: int) -> int {
    (1u64 << hash_bits(b, fdrc)) as int
}

/// Where chain `c` starts, relative to its confirm structure. Zero: nowhere.
pub open spec fn chain_start(b: Seq<u8>, fdrc: int, c: int) -> u32 {
    le32(b, fdrc + CONFIRM_HEADER + 4 * c)
}

/// Chain `c` is empty, or inside the table.
pub open spec fn chain_slot_ok(b: Seq<u8>, fdrc: int, c: int) -> bool {
    chain_start(b, fdrc, c) == 0 || chain_ok(b, fdrc + chain_start(b, fdrc, c))
}

/// A confirm structure is inside the table, with all its chains.
pub open spec fn bucket_ok(b: Seq<u8>, fdrc: int) -> bool {
    &&& 0 <= fdrc
    &&& fdrc + CONFIRM_HEADER <= b.len()
    &&& 0 < hash_bits(b, fdrc) < 64 ==> {
        &&& fdrc + CONFIRM_HEADER + 4 * chain_count(b, fdrc) <= b.len()
        &&& forall|c: int|
            0 <= c < chain_count(b, fdrc) ==> #[trigger] chain_slot_ok(b, fdrc, c)
    }
}

/// Where the confirm structure of bucket `k` is, relative to the first. Zero:
/// nowhere.
pub open spec fn bucket_start(b: Seq<u8>, conf: int, k: int) -> u32 {
    le32(b, conf + 4 * k)
}

/// Bucket `k` is empty, or inside the table.
pub open spec fn bucket_slot_ok(b: Seq<u8>, conf: int, k: int) -> bool {
    bucket_start(b, conf, k) == 0 || bucket_ok(b, conf + bucket_start(b, conf, k))
}

/// All confirm structures are inside the table.
pub open spec fn confirm_ok(b: Seq<u8>, conf: int) -> bool {
    &&& 0 <= conf
    &&& conf + 4 * NUM_BUCKETS <= b.len()
    &&& forall|k: int| 0 <= k < NUM_BUCKETS ==> #[trigger] bucket_slot_ok(b, conf, k)
}

fn validate_chain(b: &[u8], li: u64) -> (r: bool)
    ensures
        r == chain_ok(b@, li as int),
{
    let size: u64 = b.len() as u64;
    let mut at: u64 = li;
    while size >= LIT_INFO_SIZE as u64 && at <= size - LIT_INFO_SIZE as u64
        invariant
            size == b@.len(),
            b@.len() <= usize::MAX,
            chain_ok(b@, li as int) == chain_ok(b@, at as int),
        decreases size - at,
    {
        if b[at as usize + 30] == 0 {
            return true;
        }
        at = at + LIT_INFO_SIZE as u64;
    }
    false
}

fn validate_bucket(b: &[u8], fdrc: u64) -> (r: bool)
    ensures
        r == bucket_ok(b@, fdrc as int),
{
    let size: u64 = b.len() as u64;
    if size < CONFIRM_HEADER as u64 || fdrc > size - CONFIRM_HEADER as u64 {
        return false;
    }
    let n_bits: u32 = read_u32(b, fdrc as usize + 16);
    if n_bits == 0 || n_bits >= 64 {
        return true;
    }
    let entries: u64 = 1u64 << n_bits;
    let room: u64 = size - fdrc - CONFIRM_HEADER as u64;
    if entries > room / 4 {
        return false;
    }
    let mut c: u64 = 0;
    while c < entries
        invariant
            c <= entries,
            entries == chain_count(b@, fdrc as int),
            0 < hash_bits(b@, fdrc as int) < 64,
            size == b@.len(),
            fdrc + CONFIRM_HEADER + 4 * entries <= b@.len() <= usize::MAX,
            forall|k: int| 0 <= k < c ==> #[trigger] chain_slot_ok(b@, fdrc as int, k),
        decreases entries - c,
    {
        let start: u32 = read_u32(b, fdrc as usize + CONFIRM_HEADER + 4 * c as usize);
        if start != 0 && (start as u64 > size - fdrc || !validate_chain(b, fdrc + start as u64)) {
            assert(!chain_slot_ok(b@, fdrc as int, c as int));
            return false;
        }
        c = c + 1;
    }
    true
}

/// Checks every confirm structure that the 8 buckets lead to. `what` names
/// the table in the error.
pub fn validate_confirm(b: &[u8], conf: usize, what: &'static str) -> (r: Result<(), HwlmError>)
    ensures
        match r {
            Ok(_) => confirm_ok(b@, conf as int),
            Err(e) => !confirm_ok(b@, conf as int) && e == HwlmError::BadTable(what),
        },
{
    let size: usize = b.len();
    if size < 4 * NUM_BUCKETS || conf > size - 4 * NUM_BUCKETS {
        return Err(HwlmError::BadTable(what));
    }
    let mut k: usize = 0;
    while k < NUM_BUCKETS
        invariant
            k <= NUM_BUCKETS,
            size == b@.len(),
            conf + 4 * NUM_BUCKETS <= size,
            forall|j: int| 0 <= j < k ==> #[trigger] bucket_slot_ok(b@, conf as int, j),
        decreases NUM_BUCKETS - k,
    {
        let cf: u32 = read_u32(b, conf + 4 * k);
        if cf != 0 && (cf as u64 > (size - conf) as u64 || !validate_bucket(
            b,
            conf as u64 + cf as u64,
        )) {
            assert(!bucket_slot_ok(b@, conf as int, k as int));
            return Err(HwlmError::BadTable(what));
        }
        k = k + 1;
    }
    Ok(())
}

/// An engine in the middle of its run: the calls that it made, the last
/// literal that it reported, and whether it was told to go on.
#[verifier::ext_equal]
pub struct Track {
    pub calls: Seq<Call>,
    pub last: u32,
    pub live: bool,
}

/// A call, and the squash byte that it is answered with.
pub open spec fn ask(t: Track, s: Answers, end: int, id: u32) -> (Track, u8) {
    let calls = t.calls.push(Call { end: end as u64, id });
    let reply = s(calls);
    (Track { calls, last: id, live: reply.ctl == ScanCtl::Continue }, reply.squash)
}

/// The literal record at `li` is to be reported at position `i`: the last
/// bytes `key` are its own, it is not an unwanted repetition, it does not
/// reach in front of the block, and it belongs to a group.
pub open spec fn record_hits(b: Seq<u8>, li: int, key: u64, i: int, last: u32) -> bool {
    &&& key & le64(b, li + 8) == le64(b, li)
    &&& !(last == le32(b, li + 24) && b[li + 29] & LIT_FLAG_NOREPEAT != 0)
    &&& b[li + 28] <= i + 1
    &&& le64(b, li + 16) != 0
}

/// The records from `li` on, one after the other. `squash` collects the
/// answers.
pub open spec fn chain(
    b: Seq<u8>,
    li: int,
    key: u64,
    i: int,
    t: Track,
    s: Answers,
    squash: u8,
) -> (Track, u8)
    decreases b.len() - li,
{
    if !t.live || li + LIT_INFO_SIZE > b.len() {
        (t, squash)
    } else {
        let (t2, squash2) = if record_hits(b, li, key, i, t.last) {
            let (t2, sq) = ask(t, s, i, le32(b, li + 24));
            (t2, squash | sq)
        } else {
            (t, squash)
        };
        if b[li + 30] == 0 {
            (t2, squash2)
        } else {
            chain(b, li + LIT_INFO_SIZE, key, i, t2, s, squash2)
        }
    }
}

/// The chain that a confirm structure chooses for a key.
pub open spec fn chain_of(b: Seq<u8>, fdrc: int, key: u64) -> int {
    ((key & le64(b, fdrc)).wrapping_mul(le64(b, fdrc + 8)) >> ((64 - hash_bits(
        b,
        fdrc,
    )) as u32)) as int
}

/// The literals of one bucket at position `i`.
pub open spec fn bucket(b: Seq<u8>, fdrc: int, key: u64, i: int, t: Track, s: Answers) -> (
    Track,
    u8,
) {
    let start = chain_start(b, fdrc, chain_of(b, fdrc, key));
    if !(0 < hash_bits(b, fdrc) < 64) || start == 0 {
        (t, 0)
    } else {
        chain(b, fdrc + start, key, i, t, s, 0)
    }
}

/// The 8 bytes that end at `p`, the last one highest, with zeroes outside the
/// block.
pub open spec fn key_at(buf: Seq<u8>, p: int) -> u64 {
    le64(Seq::new(8, |j: int| byte_or_zero(buf, p - 7 + j)), 0)
}

/// The lowest set bit of a word.
pub open spec fn lowest(word: u64) -> int {
    u64_trailing_zeros(word) as int
}

/// A word without its lowest set bit.
pub open spec fn without_lowest(word: u64) -> u64 {
    word & ((word - 1) as u64)
}

/// A word without the buckets that were squashed at the position of a bit.
pub open spec fn squashed(word: u64, squash: u8, bit: int) -> u64 {
    word & !((squash as u64) << ((bit / 8 * 8) as u64))
}

pub proof fn lemma_word_shrinks(word: u64, keep: u64)
    ensures
        word != 0 ==> without_lowest(word) < word,
        word & keep <= word,
{
    assert(word != 0 ==> word & ((word - 1) as u64) < word) by (bit_vector);
    assert(word & keep <= word) by (bit_vector);
}

/// The candidates of a word: bit `8 * j + k` stands for bucket `k` at position
/// `base + j`. With `gated`, a bucket without groups is passed over.
pub open spec fn word(
    b: Seq<u8>,
    conf: int,
    gated: bool,
    candidates: u64,
    base: int,
    buf: Seq<u8>,
    t: Track,
    s: Answers,
) -> Track
    decreases candidates,
    via word_decreases
{
    if candidates == 0 || !t.live {
        t
    } else {
        let bit = lowest(candidates);
        let rest = without_lowest(candidates);
        let cf = bucket_start(b, conf, bit % 8);
        let p = base + bit / 8;
        if cf == 0 || (gated && le64(b, conf + cf + 24) == 0) {
            word(b, conf, gated, rest, base, buf, t, s)
        } else {
            let (t2, squash) = bucket(b, conf + cf, key_at(buf, p), p, t, s);
            word(b, conf, gated, squashed(rest, squash, bit), base, buf, t2, s)
        }
    }
}

#[via_fn]
proof fn word_decreases(
    b: Seq<u8>,
    conf: int,
    gated: bool,
    candidates: u64,
    base: int,
    buf: Seq<u8>,
    t: Track,
    s: Answers,
) {
    let rest = without_lowest(candidates);
    lemma_word_shrinks(candidates, 0);
    assert forall|squash: u8, bit: int| #[trigger] squashed(rest, squash, bit) <= rest by {
        lemma_word_shrinks(rest, !((squash as u64) << ((bit / 8 * 8) as u64)));
    }
}

/// What an engine keeps while it runs.
pub struct Tracker {
    pub last: u32,
    pub live: bool,
}

impl Tracker {
    /// The run so far.
    pub open spec fn track(&self, log: Seq<Hit>) -> Track {
        Track { calls: calls_of(log), last: self.last, live: self.live }
    }

    /// The start of a run.
    pub fn new() -> (r: Self)
        ensures
            r.live,
            r.last == INVALID_MATCH_ID,
    {
        Tracker { last: INVALID_MATCH_ID, live: true }
    }

    /// Makes a call.
    pub fn ask<S: HitSink>(&mut self, sink: &mut S, end: usize, id: u32) -> (r: u8)
        requires
            old(sink).inv(),
            end < old(sink).limit(),
        ensures
            final(sink).inv(),
            final(sink).fixed() == old(sink).fixed(),
            final(sink).limit() == old(sink).limit(),
            old(sink).log().is_prefix_of(final(sink).log()),
            forall|s: Answers| #[trigger]
                agrees(s, final(sink).log()) ==> agrees(s, old(sink).log()) && ask(
                    old(self).track(old(sink).log()),
                    s,
                    end as int,
                    id,
                ) == (final(self).track(final(sink).log()), r),
    {
        let ghost before = sink.log();
        let (ctl, squash) = sink.hit(end as u64, id);
        self.last = id;
        self.live = ctl == ScanCtl::Continue;
        proof {
            let hit = Hit {
                call: Call { end: end as u64, id },
                reply: Reply { ctl, squash },
            };
            assert forall|s: Answers| #[trigger] agrees(s, sink.log()) implies agrees(s, before)
                && ask(old(self).track(before), s, end as int, id) == (
                self.track(sink.log()),
                squash,
            ) by {
                lemma_agrees_push(s, before, hit);
            }
        }
        squash
    }
}

/// Walks a chain of literal records.
fn run_chain<S: HitSink>(
    b: &[u8],
    li: usize,
    key: u64,
    i: usize,
    st: &mut Tracker,
    sink: &mut S,
) -> (r: u8)
    requires
        chain_ok(b@, li as int),
        i < usize::MAX,
        i < old(sink).limit(),
        old(sink).inv(),
    ensures
        final(sink).inv(),
        final(sink).fixed() == old(sink).fixed(),
        final(sink).limit() == old(sink).limit(),
        old(sink).log().is_prefix_of(final(sink).log()),
        forall|s: Answers| #[trigger]
            agrees(s, final(sink).log()) ==> chain(
                b@,
                li as int,
                key,
                i as int,
                old(st).track(old(sink).log()),
                s,
                0,
            ) == (final(st).track(final(sink).log()), r),
{
    let mut at: usize = li;
    let mut squash: u8 = 0;
    assert(b@.len() == b.len());
    while st.live
        invariant
            chain_ok(b@, at as int),
            b@.len() <= usize::MAX,
            i < usize::MAX,
            i < sink.limit(),
            sink.inv(),
            sink.fixed() == old(sink).fixed(),
            sink.limit() == old(sink).limit(),
            old(sink).log().is_prefix_of(sink.log()),
            forall|s: Answers| #[trigger]
                agrees(s, sink.log()) ==> chain(
                    b@,
                    li as int,
                    key,
                    i as int,
                    old(st).track(old(sink).log()),
                    s,
                    0,
                ) == chain(b@, at as int, key, i as int, st.track(sink.log()), s, squash),
        decreases b@.len() - at,
    {
        let id: u32 = read_u32(b, at + 24);
        if key & read_u64(b, at + 8) == read_u64(b, at) && !(st.last == id && b[at + 29]
            & LIT_FLAG_NOREPEAT != 0) && b[at + 28] as usize <= i + 1 && read_u64(b, at + 16) != 0 {
            let sq: u8 = st.ask(sink, i, id);
            squash = squash | sq;
        }
        if b[at + 30] == 0 {
            return squash;
        }
        at = at + LIT_INFO_SIZE;
    }
    squash
}

/// Reports the literals of one bucket at position `i`.
pub fn conf_with_bit<S: HitSink>(
    b: &[u8],
    fdrc: usize,
    i: usize,
    key: u64,
    st: &mut Tracker,
    sink: &mut S,
) -> (r: u8)
    requires
        bucket_ok(b@, fdrc as int),
        i < usize::MAX,
        i < old(sink).limit(),
        old(sink).inv(),
    ensures
        final(sink).inv(),
        final(sink).fixed() == old(sink).fixed(),
        final(sink).limit() == old(sink).limit(),
        old(sink).log().is_prefix_of(final(sink).log()),
        forall|s: Answers| #[trigger]
            agrees(s, final(sink).log()) ==> bucket(
                b@,
                fdrc as int,
                key,
                i as int,
                old(st).track(old(sink).log()),
                s,
            ) == (final(st).track(final(sink).log()), r),
{
    assert(b@.len() == b.len());
    let n_bits: u32 = read_u32(b, fdrc + 16);
    if n_bits == 0 || n_bits >= 64 {
        return 0;
    }
    let hash: u64 = (key & read_u64(b, fdrc)).wrapping_mul(read_u64(b, fdrc + 8));
    let c: u64 = hash >> (64 - n_bits);
    assert(hash >> ((64 - n_bits) as u32) < 1u64 << n_bits) by (bit_vector)
        requires
            0 < n_bits < 64,
    ;
    assert(chain_slot_ok(b@, fdrc as int, c as int));
    let start: u32 = read_u32(b, fdrc + CONFIRM_HEADER + 4 * c as usize);
    if start == 0 {
        return 0;
    }
    run_chain(b, fdrc + start as usize, key, i, st, sink)
}

/// The 8 bytes that end at `p`, the last one highest, with zeroes in front of
/// the block.
pub fn conf_val(buf: &[u8], p: usize) -> (r: u64)
    requires
        p < buf@.len(),
    ensures
        r == key_at(buf@, p as int),
{
    let ghost window = Seq::new(8, |j: int| byte_or_zero(buf@, p - 7 + j));
    if p >= 7 {
        let r: u64 = read_u64(buf, p - 7);
        assert(r == le64(window, 0));
        return r;
    }
    let mut bytes: [u8; 8] = [0u8; 8];
    let mut k: usize = 7 - p;
    while k < 8
        invariant
            p < 7,
            p < buf@.len(),
            7 - p <= k <= 8,
            window == Seq::new(8, |j: int| byte_or_zero(buf@, p - 7 + j)),
            forall|j: int| 0 <= j < k ==> #[trigger] bytes@[j] == window[j],
        decreases 8 - k,
    {
        bytes[k] = buf[p + k - 7];
        k = k + 1;
    }
    assert(bytes@ =~= window);
    read_u64(&bytes, 0)
}

/// Every candidate of a word stands at a position of the block.
pub open spec fn word_inside(candidates: u64, base: int, len: nat) -> bool {
    forall|n: int| 0 <= n < 64 && #[trigger] bit64(candidates, n) ==> 0 <= base + n / 8 < len
}

proof fn lemma_word_inside(candidates: u64, keep: u64, base: int, len: nat)
    requires
        word_inside(candidates, base, len),
    ensures
        word_inside(candidates & keep, base, len),
{
    assert forall|n: int| 0 <= n < 64 && #[trigger] bit64(candidates & keep, n) implies 0 <= base
        + n / 8 < len by {
        let k = n as u64;
        assert((candidates >> k) & 1 == 1) by (bit_vector)
            requires
                ((candidates & keep) >> k) & 1 == 1,
        ;
        assert(bit64(candidates, n));
    }
}

/// Confirms the candidates of a word, from the lowest bit up.
pub fn confirm_word<S: HitSink>(
    b: &[u8],
    conf: usize,
    gated: bool,
    candidates: u64,
    base: i128,
    buf: &[u8],
    st: &mut Tracker,
    sink: &mut S,
)
    requires
        confirm_ok(b@, conf as int),
        -64 <= base <= u64::MAX + 64,
        word_inside(candidates, base as int, buf@.len()),
        buf@.len() <= old(sink).limit(),
        old(sink).inv(),
    ensures
        final(sink).inv(),
        final(sink).fixed() == old(sink).fixed(),
        final(sink).limit() == old(sink).limit(),
        old(sink).log().is_prefix_of(final(sink).log()),
        forall|s: Answers| #[trigger]
            agrees(s, final(sink).log()) ==> word(
                b@,
                conf as int,
                gated,
                candidates,
                base as int,
                buf@,
                old(st).track(old(sink).log()),
                s,
            ) == final(st).track(final(sink).log()),
{
    let mut left: u64 = candidates;
    assert(b@.len() == b.len());
    assert(buf@.len() == buf.len());
    while left != 0 && st.live
        invariant
            confirm_ok(b@, conf as int),
            b@.len() <= usize::MAX,
            buf@.len() <= usize::MAX,
            -64 <= base <= u64::MAX + 64,
            word_inside(left, base as int, buf@.len()),
            buf@.len() <= sink.limit(),
            sink.inv(),
            sink.fixed() == old(sink).fixed(),
            sink.limit() == old(sink).limit(),
            old(sink).log().is_prefix_of(sink.log()),
            forall|s: Answers| #[trigger]
                agrees(s, sink.log()) ==> word(
                    b@,
                    conf as int,
                    gated,
                    candidates,
                    base as int,
                    buf@,
                    old(st).track(old(sink).log()),
                    s,
                ) == word(
                    b@,
                    conf as int,
                    gated,
                    left,
                    base as int,
                    buf@,
                    st.track(sink.log()),
                    s,
                ),
        decreases left,
    {
        let ghost before = sink.log();
        let bit: u32 = left.trailing_zeros();
        proof {
            axiom_u64_trailing_zeros(left);
            assert(bit64(left, bit as int));
            lemma_word_shrinks(left, 0);
            lemma_word_inside(left, (left - 1) as u64, base as int, buf@.len());
        }
        left = left & (left - 1);
        let bucket_no: usize = (bit % 8) as usize;
        assert(bucket_slot_ok(b@, conf as int, bucket_no as int));
        let cf: u32 = read_u32(b, conf + 4 * bucket_no);
        if cf != 0 {
            let fdrc: usize = conf + cf as usize;
            if !(gated && read_u64(b, fdrc + 24) == 0) {
                let p: usize = (base + (bit / 8) as i128) as usize;
                let squash: u8 = conf_with_bit(b, fdrc, p, conf_val(buf, p), st, sink);
                let gone: u64 = !((squash as u64) << (bit / 8 * 8));
                proof {
                    lemma_word_shrinks(left, gone);
                    lemma_word_inside(left, gone, base as int, buf@.len());
                    assert forall|s: Answers| #[trigger] agrees(s, sink.log()) implies agrees(
                        s,
                        before,
                    ) by {
                        lemma_agrees_prefix(s, sink.log(), before);
                    }
                }
                left = left & gone;
            }
        }
    }
}

} // verus!
