//! Measuring the confirmation alone: the candidates of the middle of a block
//! are noted once, and confirmed again and again.

use vstd::prelude::*;

use crate::bits::lemma_or;
use crate::bytes::byte_or_zero;
use crate::hwlm::confirm::{confirm_word, word, word_inside, Track, Tracker};
use crate::hwlm::fdr::{
    candidates, conf_of, entered, fresh, get_conf_stride, holds_state, lemma_candidates_inside,
    lemma_spans, next_state, zone_or_mask, FdrTable,
};
use crate::hwlm::zones::{prepare_zones, spans, zones_show, Span, Zone, ITER_BYTES};
use crate::hwlm::{
    agrees, calls_of, lemma_agrees_extend, Answers, Call, Hit, HitSink, Reply, ScanCtl,
};
use crate::simd::scalar::V128Scalar;
use crate::simd::V128;

verus! {

/// Candidates that are noted down, and the state of the search.
pub ghost struct Notes {
    pub found: Seq<(u64, u64, u64)>,
    pub state: Seq<u8>,
}

/// The notes behind one step: a position where anything may end is noted with
/// its two words, if the stretch is read in place.
pub open spec fn noted(b: Seq<u8>, buf: Seq<u8>, main: bool, it: int, n: Notes) -> Notes {
    let c0 = candidates(b, buf, it, n.state, 0);
    let c8 = candidates(b, buf, it, n.state, 1);
    Notes {
        found: if main && (c0 | c8) != 0 {
            n.found.push((it as u64, c0, c8))
        } else {
            n.found
        },
        state: next_state(b, buf, it, n.state),
    }
}

/// The notes behind a stretch.
pub open spec fn notes_of_stretch(
    b: Seq<u8>,
    buf: Seq<u8>,
    main: bool,
    to: int,
    it: int,
    n: Notes,
) -> Notes
    decreases to - it,
{
    if it + 16 > to {
        n
    } else {
        notes_of_stretch(b, buf, main, to, it + 16, noted(b, buf, main, it, n))
    }
}

/// The notes behind the stretches of a block, from the `k`-th on.
pub open spec fn notes_of(b: Seq<u8>, buf: Seq<u8>, cut: Seq<Span>, k: int, n: Notes) -> Notes
    decreases cut.len() - k,
{
    if k < 0 || k >= cut.len() {
        n
    } else {
        notes_of(
            b,
            buf,
            cut,
            k + 1,
            notes_of_stretch(
                b,
                buf,
                cut[k].main,
                cut[k].to,
                cut[k].from,
                Notes { state: entered(n.state, cut[k].shift), ..n },
            ),
        )
    }
}

/// The candidates of the middle of a block.
pub open spec fn main_candidates(b: Seq<u8>, buf: Seq<u8>) -> Seq<(u64, u64, u64)> {
    if buf.len() == 0 {
        Seq::empty()
    } else {
        notes_of(
            b,
            buf,
            spans(buf.len() as int, 0),
            0,
            Notes { found: Seq::empty(), state: b.subrange(32, 48) },
        ).found
    }
}

/// A note whose candidates lie inside a block.
pub open spec fn note_inside(c: (u64, u64, u64), len: nat) -> bool {
    &&& word_inside(c.1, c.0 as int, len)
    &&& word_inside(c.2, c.0 + 8, len)
}

pub open spec fn notes_inside(found: Seq<(u64, u64, u64)>, len: nat) -> bool {
    forall|i: int| 0 <= i < found.len() ==> note_inside(#[trigger] found[i], len)
}

/// The answer to every call of a replay.
pub open spec fn go_on() -> Reply {
    Reply { ctl: ScanCtl::Continue, squash: 0 }
}

pub open spec fn always() -> Answers {
    |calls: Seq<Call>| go_on()
}

/// The confirmation of the notes, from the `k`-th on.
pub open spec fn replayed(
    b: Seq<u8>,
    buf: Seq<u8>,
    found: Seq<(u64, u64, u64)>,
    k: int,
    t: Track,
) -> Track
    decreases found.len() - k,
{
    if k < 0 || k >= found.len() {
        t
    } else {
        let it = found[k].0 as int;
        let t1 = word(b, conf_of(b), true, found[k].1, it, buf, t, always());
        let t2 = word(b, conf_of(b), true, found[k].2, it + 8, buf, t1, always());
        replayed(b, buf, found, k + 1, t2)
    }
}

/// The confirmation of the notes, `reps` times.
pub open spec fn replayed_times(
    b: Seq<u8>,
    buf: Seq<u8>,
    found: Seq<(u64, u64, u64)>,
    reps: int,
    t: Track,
) -> Track
    decreases reps,
{
    if reps <= 0 {
        t
    } else {
        replayed(b, buf, found, 0, replayed_times(b, buf, found, reps - 1, t))
    }
}

/// A checksum after one more call.
pub open spec fn summed(sum: u64, call: Call) -> u64 {
    sum.wrapping_add(((call.end << 7u64) | (call.end >> 57u64)) ^ call.id as u64).wrapping_mul(
        0x9E37_79B9_7F4A_7C15,
    )
}

/// The checksum of calls.
pub open spec fn checksum(calls: Seq<Call>) -> u64
    decreases calls.len(),
{
    if calls.len() == 0 {
        0
    } else {
        summed(checksum(calls.drop_last()), calls.last())
    }
}

/// A sink that sums calls up, and always lets the search go on.
pub struct SumSink {
    pub sum: u64,
    pub hits: Ghost<Seq<Hit>>,
}

impl HitSink for SumSink {
    type Fixed = ();

    open spec fn fixed(&self) -> () {
        ()
    }

    open spec fn log(&self) -> Seq<Hit> {
        self.hits@
    }

    open spec fn inv(&self) -> bool {
        &&& self.sum == checksum(calls_of(self.hits@))
        &&& agrees(always(), self.hits@)
    }

    open spec fn limit(&self) -> nat {
        u64::MAX as nat + 1
    }

    fn hit(&mut self, end: u64, id: u32) -> (r: (ScanCtl, u8)) {
        let turned: u64 = (end << 7u64) | (end >> 57u64);
        self.sum = self.sum.wrapping_add(turned ^ id as u64).wrapping_mul(0x9E37_79B9_7F4A_7C15);
        proof {
            let log = self.hits@;
            let hit = Hit { call: Call { end, id }, reply: go_on() };
            lemma_agrees_extend(always(), log, hit);
            assert(calls_of(log.push(hit)) =~= calls_of(log).push(hit.call));
            assert(calls_of(log).push(hit.call).drop_last() =~= calls_of(log));
        }
        self.hits = Ghost(
            self.hits@.push(
                Hit {
                    call: Call { end, id },
                    reply: Reply { ctl: ScanCtl::Continue, squash: 0 },
                },
            ),
        );
        (ScanCtl::Continue, 0)
    }
}

/// Notes the candidates of one stretch.
fn note_zone<V: V128>(
    table: &FdrTable,
    buf: &[u8],
    z: &Zone,
    state: V,
    out: &mut Vec<(u64, u64, u64)>,
    span: Ghost<Span>,
    old_state: Ghost<Seq<u8>>,
) -> (r: (V, Ghost<Seq<u8>>))
    requires
        table.wf(),
        z.shows(buf@, span@),
        span@.to <= buf@.len(),
        holds_state(state, old_state@),
        notes_inside(old(out)@, buf@.len()),
    ensures
        holds_state(r.0, r.1@),
        notes_inside(final(out)@, buf@.len()),
        notes_of_stretch(
            table.bytes@,
            buf@,
            span@.main,
            span@.to,
            span@.from,
            Notes { found: old(out)@, state: old_state@ },
        ) == (Notes { found: final(out)@, state: r.1@ }),
{
    let data = z.data(buf);
    assert(data@.len() == data.len());
    assert(buf@.len() == buf.len());
    let mut state = state;
    let ghost mut cur = old_state@;
    let ghost all = notes_of_stretch(
        table.bytes@,
        buf@,
        span@.main,
        span@.to,
        span@.from,
        Notes { found: out@, state: cur },
    );
    let mut it: usize = z.start;
    while it < z.end
        invariant
            table.wf(),
            z.shows(buf@, span@),
            data@ == z.bytes(buf@),
            span@.to <= buf@.len() <= usize::MAX,
            z.start <= it <= z.end,
            (z.end - it) % 16 == 0,
            holds_state(state, cur),
            notes_inside(out@, buf@.len()),
            all == notes_of_stretch(
                table.bytes@,
                buf@,
                span@.main,
                span@.to,
                it + z.adjust,
                Notes { found: out@, state: cur },
            ),
        decreases z.end - it,
    {
        let ghost at = it + z.adjust;
        assert forall|k: int| it <= k <= it + 16 implies #[trigger] data@[k] == byte_or_zero(
            buf@,
            at + (k - it),
        ) by {}
        let (c0, c8, next) = get_conf_stride(
            table,
            data,
            it,
            state,
            Ghost(buf@),
            Ghost(at),
            Ghost(cur),
        );
        if !z.is_copied && (c0 | c8) != 0 {
            proof {
                lemma_candidates_inside(table.bytes@, buf@, at, cur, 0, 0);
                lemma_candidates_inside(table.bytes@, buf@, at, cur, 1, 0);
            }
            out.push((it as u64, c0, c8));
        }
        state = next;
        proof {
            cur = next_state(table.bytes@, buf@, at, cur);
        }
        it += ITER_BYTES;
    }
    (state, Ghost(cur))
}

impl<'a> FdrTable<'a> {
    /// Notes the candidates of the middle of a block: the position, and the
    /// candidates there and eight bytes on. Floods are not looked for.
    pub fn dump_main_candidates(&self, buf: &[u8]) -> (r: Vec<(u64, u64, u64)>)
        requires
            self.wf(),
        ensures
            r@ == main_candidates(self.bytes@, buf@),
            notes_inside(r@, buf@.len()),
    {
        let mut out: Vec<(u64, u64, u64)> = Vec::new();
        if buf.len() == 0 {
            return out;
        }
        let zones = prepare_zones(buf, 0);
        let ghost b = self.bytes@;
        let ghost cut = spans(buf@.len() as int, 0);
        proof {
            lemma_spans(buf@.len() as int, 0);
        }
        let mut state = V128Scalar::loadu(self.bytes, 32);
        let ghost mut cur = b.subrange(32, 48);
        let ghost first = Notes { found: out@, state: cur };
        let mut k: usize = 0;
        while k < zones.len()
            invariant
                self.wf(),
                b == self.bytes@,
                k <= zones@.len(),
                zones_show(zones@, buf@, cut),
                forall|j: int| 0 <= j < cut.len() ==> (#[trigger] cut[j]).to <= buf@.len(),
                holds_state(state, cur),
                notes_inside(out@, buf@.len()),
                notes_of(b, buf@, cut, 0, first) == notes_of(
                    b,
                    buf@,
                    cut,
                    k as int,
                    Notes { found: out@, state: cur },
                ),
            decreases zones@.len() - k,
        {
            let z = &zones[k];
            assert(z.shows(buf@, cut[k as int]));
            let inside = state.shl_bytes(z.shift).or(zone_or_mask(z.shift));
            let ghost shifted = entered(cur, z.shift as int);
            assert forall|i: int| 0 <= i < 16 implies #[trigger] inside.lane(i) == shifted[i] by {
                lemma_or(
                    if i < z.shift {
                        0
                    } else {
                        cur[i - z.shift]
                    },
                    0,
                    0,
                );
            }
            let (state2, cur2) = note_zone(
                self,
                buf,
                z,
                inside,
                &mut out,
                Ghost(cut[k as int]),
                Ghost(shifted),
            );
            state = state2;
            k += 1;
            proof {
                cur = cur2@;
            }
        }
        out
    }

    /// Confirms noted candidates `reps` times, and sums up the calls.
    pub fn confirm_replay(&self, buf: &[u8], cands: &[(u64, u64, u64)], reps: usize) -> (r: u64)
        requires
            self.wf(),
            notes_inside(cands@, buf@.len()),
        ensures
            r == checksum(
                replayed_times(
                    self.bytes@,
                    buf@,
                    cands@,
                    reps as int,
                    fresh(Seq::empty()),
                ).calls,
            ),
    {
        let mut sink = SumSink { sum: 0, hits: Ghost(Seq::empty()) };
        assert(calls_of(sink.log()) =~= Seq::empty());
        assert(buf@.len() == buf.len());
        let mut st = Tracker::new();
        let mut round: usize = 0;
        while round < reps
            invariant
                self.wf(),
                notes_inside(cands@, buf@.len()),
                buf@.len() <= usize::MAX,
                round <= reps,
                sink.inv(),
                st.track(sink.log()) == replayed_times(
                    self.bytes@,
                    buf@,
                    cands@,
                    round as int,
                    fresh(Seq::empty()),
                ),
            decreases reps - round,
        {
            let ghost t0 = st.track(sink.log());
            let mut k: usize = 0;
            while k < cands.len()
                invariant
                    self.wf(),
                    notes_inside(cands@, buf@.len()),
                    buf@.len() <= usize::MAX,
                    k <= cands@.len(),
                    sink.inv(),
                    replayed(self.bytes@, buf@, cands@, 0, t0) == replayed(
                        self.bytes@,
                        buf@,
                        cands@,
                        k as int,
                        st.track(sink.log()),
                    ),
                decreases cands@.len() - k,
            {
                let (it, c0, c8): (u64, u64, u64) = cands[k];
                assert(note_inside(cands@[k as int], buf@.len()));
                confirm_word(
                    self.bytes,
                    self.conf_offset,
                    true,
                    c0,
                    it as i128,
                    buf,
                    &mut st,
                    &mut sink,
                );
                confirm_word(
                    self.bytes,
                    self.conf_offset,
                    true,
                    c8,
                    it as i128 + 8,
                    buf,
                    &mut st,
                    &mut sink,
                );
                k += 1;
            }
            round += 1;
        }
        sink.sum
    }
}

} // verus!
