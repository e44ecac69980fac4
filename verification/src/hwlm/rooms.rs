//! Which buckets a table leaves open at a position, by the bytes of the table
//! and of the block.

use vstd::arithmetic::power2::pow2;
use vstd::prelude::*;

use crate::bits::{lemma_and, lemma_bit8, lemma_nibbles};
use crate::bytes::{byte_or_zero, le32, number, words_are_numbers};
use crate::hwlm::fdr::{
    domain_mask_of, domain_ok, entered, excluded, next_state, reach, share, stride_of, stride_ok,
    swept,
};
use crate::hwlm::finds::{block_of, carried, clear, fdr_open, walked};
use crate::hwlm::hits::{covers, state_in};
use crate::hwlm::teddy::{masks_of, teddy_excluded, teddy_share, teddy_swept};
use crate::hwlm::zones::Span;

verus! {

/// The entry that an FDR table has for position `q`, the number of the two
/// bytes there cut to the table's domain, leaves bucket `k` open at position
/// `p`.
pub open spec fn entry_leaves(b: Seq<u8>, buf: Seq<u8>, q: int, p: int, k: int) -> bool {
    let pair = byte_or_zero(buf, q) + 256 * byte_or_zero(buf, q + 1);
    clear(b[64 + 8 * (pair % (pow2(b[25] as nat) as int)) + (p - q)], k)
}

/// The table is asked at position `q`: it is a multiple of the table's stride
/// behind `from`.
pub open spec fn asked(b: Seq<u8>, from: int, q: int) -> bool {
    (q - from) % (b[24] as int) == 0
}

/// The positions at which a table is asked, from `from` on and in front of
/// `to`, leave bucket `k` open at position `p`.
pub open spec fn entries_leave(
    b: Seq<u8>,
    buf: Seq<u8>,
    from: int,
    to: int,
    p: int,
    k: int,
) -> bool {
    forall|q: int|
        p - 8 < q <= p && from <= q < to && asked(b, from, q) ==> #[trigger] entry_leaves(b, buf, q, p, k)
}

/// FDR leaves bucket `k` open at position `p` of stretch `j`: the positions of
/// the stretch do so, and near its beginning also those of the stretch in
/// front of it, or the start state in front of which there is none.
pub open spec fn fdr_leaves(
    b: Seq<u8>,
    buf: Seq<u8>,
    cut: Seq<Span>,
    j: int,
    p: int,
    k: int,
) -> bool {
    let span = cut[j];
    &&& 0 <= j < cut.len()
    &&& span.from + span.shift <= p < span.to
    &&& entries_leave(b, buf, span.from, p + 1, p, k)
    &&& j == 0 ==> clear(b[32 + (p - span.from - span.shift)], k)
    &&& j > 0 && p < span.from + 16 ==> entries_leave(
        b,
        buf,
        cut[j - 1].from,
        cut[j - 1].to,
        p,
        k,
    )
}

/// The entry of a position is the number of its two bytes, cut to the domain.
pub proof fn lemma_entry(b: Seq<u8>, buf: Seq<u8>, q: int)
    requires
        domain_ok(b),
    ensures
        reach(b, buf, q) == (byte_or_zero(buf, q) + 256 * byte_or_zero(buf, q + 1)) % (pow2(
            b[25] as nat,
        ) as int),
{
    let pair = seq![byte_or_zero(buf, q), byte_or_zero(buf, q + 1)];
    let n = b[25] as nat;
    words_are_numbers(pair, 0);
    reveal_with_fuel(number, 3);
    let w = (pair[0] as u64) | ((pair[1] as u64) << 8);
    vstd::bits::lemma_u64_pow2_no_overflow(n);
    vstd::bits::lemma_u64_shl_is_mul(1, n as u64);
    vstd::bits::lemma_u64_low_bits_mask_is_mod(w, n);
    let dm = domain_mask_of(b);
    assert(dm == vstd::bits::low_bits_mask(n));
    lemma_and(0, 0, dm, w);
}

pub proof fn lemma_clear_or(x: u8, y: u8, k: int)
    requires
        0 <= k < 8,
    ensures
        clear(x | y, k) <==> clear(x, k) && clear(y, k),
        clear(0, k),
        !clear(0xff, k),
{
    lemma_bit8(x, y, 0, k);
    lemma_bit8(x | y, 0, 0, k);
    lemma_bit8(y, 0, 0, k);
    lemma_bit8(0, 0, 0, k);
    lemma_bit8(0xff, 0, 0, k);
}

/// What some positions of a step leave open.
proof fn lemma_swept_leaves(b: Seq<u8>, buf: Seq<u8>, it: int, p: int, k: int, to: int)
    requires
        domain_ok(b),
        stride_ok(b),
        0 <= k < 8,
        0 <= to <= 16,
    ensures
        clear(swept(b, buf, it, p - it, 0, to), k) <==> forall|q: int|
            p - 8 < q <= p && it <= q < it + to && asked(b, it, q)
                ==> #[trigger] entry_leaves(b, buf, q, p, k),
    decreases to,
{
    lemma_clear_or(0, 0, k);
    if to > 0 {
        let i = to - 1;
        lemma_swept_leaves(b, buf, it, p, k, i);
        lemma_entry(b, buf, it + i);
        lemma_clear_or(swept(b, buf, it, p - it, 0, i), share(b, buf, it, i, p - it), k);
        let last = p - 8 < it + i <= p && asked(b, it, it + i);
        assert(last ==> share(b, buf, it, i, p - it) == b[64 + 8 * reach(b, buf, it + i) + (p - (it
            + i))]);
        assert(clear(share(b, buf, it, i, p - it), k) <==> (last ==> entry_leaves(
            b,
            buf,
            it + i,
            p,
            k,
        )));
    }
}

/// Behind a step, the state depends on the positions walked through alone.
proof fn lemma_walked_leaves(
    b: Seq<u8>,
    buf: Seq<u8>,
    state: Seq<u8>,
    from: int,
    it: int,
    p: int,
    k: int,
)
    requires
        domain_ok(b),
        stride_ok(b),
        0 <= k < 8,
        from < it <= p < it + 16,
        (it - from) % 16 == 0,
    ensures
        clear(walked(b, buf, state, from, it)[p - it], k) <==> entries_leave(
            b,
            buf,
            from,
            it,
            p,
            k,
        ),
    decreases it - from,
{
    let next = next_state(b, buf, from, state);
    lemma_clear_or(0, 0, k);
    if from + 16 < it {
        lemma_walked_leaves(b, buf, next, from + 16, it, p, k);
        assert(walked(b, buf, state, from, it) == walked(b, buf, next, from + 16, it));
        if entries_leave(b, buf, from + 16, it, p, k) {
            assert forall|q: int|
                p - 8 < q <= p && from <= q < it && asked(b, from, q)
                    implies #[trigger] entry_leaves(b, buf, q, p, k) by {
                lemma_asked(b, from, from + 16, q);
            }
        }
        if entries_leave(b, buf, from, it, p, k) {
            assert forall|q: int|
                p - 8 < q <= p && from + 16 <= q < it && asked(b, from + 16, q)
                    implies #[trigger] entry_leaves(b, buf, q, p, k) by {
                lemma_asked(b, from, from + 16, q);
            }
        }
    } else {
        assert(it == from + 16);
        assert(walked(b, buf, state, from, it) == walked(b, buf, next, it, it));
        assert(walked(b, buf, next, it, it) == next);
        lemma_swept_leaves(b, buf, from, p, k, 16);
        if p - it < 8 {
            assert(next[p - it] == excluded(b, buf, from, state, p - from));
            lemma_clear_or(0, swept(b, buf, from, p - from, 0, 16), k);
        }
    }
}

/// FDR leaves open what its bytes say.
pub proof fn fdr_leaves_open_what_its_entries_do(
    b: Seq<u8>,
    buf: Seq<u8>,
    start: int,
    cut: Seq<Span>,
    j: int,
    p: int,
    k: int,
)
    requires
        domain_ok(b),
        stride_ok(b),
        b.len() >= 64,
        0 <= k < 8,
        covers(cut, buf.len() as int, start),
        cut[0].to == cut[0].from + 16,
    ensures
        fdr_open(b, buf, cut, j, p, k) <==> fdr_leaves(b, buf, cut, j, p, k),
{
    if 0 <= j < cut.len() && cut[j].from + cut[j].shift <= p < cut[j].to {
        let span = cut[j];
        let it = block_of(span.from, p);
        let state = state_in(b, buf, cut, j, it);
        let first = entered(carried(b, buf, cut, j), span.shift);
        lemma_swept_leaves(b, buf, it, p, k, 16);
        lemma_clear_or(state[p - it], swept(b, buf, it, p - it, 0, 16), k);
        if it == span.from {
            assert(state == first);
            assert(state[p - it] == carried(b, buf, cut, j)[p - span.from - span.shift]);
            if j > 0 {
                let prev = cut[j - 1];
                assert(span.from + span.shift == prev.to);
                lemma_walked_leaves(
                    b,
                    buf,
                    entered(carried(b, buf, cut, j - 1), prev.shift),
                    prev.from,
                    prev.to,
                    p,
                    k,
                );
            } else {
                assert(carried(b, buf, cut, 0)[p - span.from - span.shift] == b[32 + (p - span.from
                    - span.shift)]);
            }
        } else {
            lemma_walked_leaves(b, buf, first, span.from, it, p, k);
        }
        let open = fdr_open(b, buf, cut, j, p, k);
        assert(open <==> clear(state[p - it], k) && clear(swept(b, buf, it, p - it, 0, 16), k));
        if open {
            assert forall|q: int|
                p - 8 < q <= p && span.from <= q < p + 1 && asked(b, span.from, q)
                    implies #[trigger] entry_leaves(b, buf, q, p, k) by {
                lemma_asked(b, span.from, it, q);
            }
        }
        if fdr_leaves(b, buf, cut, j, p, k) {
            assert forall|q: int|
                p - 8 < q <= p && it <= q < it + 16 && asked(b, it, q)
                    implies #[trigger] entry_leaves(b, buf, q, p, k) by {
                lemma_asked(b, span.from, it, q);
            }
            assert forall|q: int|
                p - 8 < q <= p && span.from <= q < it && asked(b, span.from, q)
                    implies #[trigger] entry_leaves(b, buf, q, p, k) by {}
        }
    }
}

proof fn lemma_asked(b: Seq<u8>, from: int, it: int, q: int)
    requires
        stride_ok(b),
        (it - from) % 16 == 0,
    ensures
        asked(b, from, q) <==> asked(b, it, q),
{
    assert(stride_of(b) == 1 || stride_of(b) == 2 || stride_of(b) == 4);
    if b[24] == 2 {
        assert((q - it) % 2 == 0 <==> (q - from) % 2 == 0);
    } else if b[24] == 4 {
        assert((q - it) % 4 == 0 <==> (q - from) % 4 == 0);
    }
}

/// Teddy leaves bucket `k` open at position `p`: for the byte that is `m`-th
/// from the end, as far as there are masks and as the byte is in the same
/// step of 16, the rows of both its digits in base 16 do so.
pub open spec fn teddy_leaves(b: Seq<u8>, buf: Seq<u8>, start: int, p: int, k: int) -> bool {
    &&& p < buf.len()
    &&& forall|m: int|
        0 <= m <= (p - start) % 16 && 11 + 2 * m <= number(b, 0, 4) ==> #[trigger] mask_leaves(
            b,
            m,
            buf[p - m],
            k,
        )
}

/// The `m`-th pair of masks leaves bucket `k` open for a byte.
pub open spec fn mask_leaves(b: Seq<u8>, m: int, c: u8, k: int) -> bool {
    &&& clear(b[64 + 32 * m + c as int % 16], k)
    &&& clear(b[64 + 32 * m + 16 + c as int / 16], k)
}

proof fn lemma_teddy_swept_leaves(
    b: Seq<u8>,
    buf: Seq<u8>,
    base: int,
    p: int,
    k: int,
    n: int,
)
    requires
        0 <= k < 8,
        0 <= base <= p < buf.len(),
        n <= masks_of(b),
    ensures
        clear(teddy_swept(b, buf, base, p - base, n), k) <==> forall|m: int|
            0 <= m < n && m <= p - base ==> #[trigger] mask_leaves(b, m, buf[p - m], k),
    decreases n,
{
    lemma_clear_or(0, 0, k);
    if n > 0 {
        let m = n - 1;
        lemma_teddy_swept_leaves(b, buf, base, p, k, m);
        lemma_clear_or(
            teddy_swept(b, buf, base, p - base, m),
            teddy_share(b, buf, base, p - base, m),
            k,
        );
        if m <= p - base {
            let c = buf[p - m];
            lemma_nibbles(c, 0);
            lemma_clear_or(b[64 + 32 * m + (c & 0x0f)], b[64 + 32 * m + 16 + (c >> 4)], k);
            assert(clear(teddy_share(b, buf, base, p - base, m), k) == mask_leaves(b, m, c, k));
        }
    }
}

/// Teddy leaves open what its masks do.
pub proof fn teddy_leaves_open_what_its_masks_do(
    b: Seq<u8>,
    buf: Seq<u8>,
    start: int,
    p: int,
    k: int,
)
    requires
        0 <= k < 8,
        0 <= start <= p,
        11 <= number(b, 0, 4),
    ensures
        clear(teddy_excluded(b, buf, block_of(start, p), p - block_of(start, p)), k)
            <==> teddy_leaves(b, buf, start, p, k),
{
    let base = block_of(start, p);
    words_are_numbers(b, 0);
    lemma_clear_or(0, 0, k);
    assert(p - base == (p - start) % 16);
    if p < buf.len() {
        lemma_teddy_swept_leaves(b, buf, base, p, k, masks_of(b));
        assert(masks_of(b) == (le32(b, 0) - 11) / 2 + 1);
        if clear(teddy_swept(b, buf, base, p - base, masks_of(b)), k) {
            assert forall|m: int|
                0 <= m <= (p - start) % 16 && 11 + 2 * m <= number(b, 0, 4) implies #[trigger] mask_leaves(
                b,
                m,
                buf[p - m],
                k,
            ) by {
                assert(m < masks_of(b));
            }
        }
        if teddy_leaves(b, buf, start, p, k) {
            assert forall|m: int| 0 <= m < masks_of(b) && m <= p - base implies #[trigger] mask_leaves(
                b,
                m,
                buf[p - m],
                k,
            ) by {}
        }
    }
}

} // verus!
