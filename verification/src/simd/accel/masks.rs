//! Tables for classes of bytes, without false members.

use vstd::prelude::*;

use crate::bits::{bit8, lemma_bit8, lemma_full, lemma_nibbles, lemma_same_byte, lemma_seven};
use crate::simd::accel::generic::{finds_pair, pair_at, PairTables};
use crate::simd::accel::reference::{shufti_class, truffle_class};

verus! {

/// Some byte of the class has the high nibble `n`.
pub open spec fn has_nibble(class: Seq<u8>, n: int) -> bool {
    exists|i: int| 0 <= i < class.len() && (#[trigger] class[i]) >> 4 == n
}

/// How many high nibbles below `n` the class has.
pub open spec fn rank(class: Seq<u8>, n: int) -> nat
    decreases n,
{
    if n <= 0 {
        0
    } else {
        rank(class, n - 1) + if has_nibble(class, n - 1) {
            1
        } else {
            0nat
        }
    }
}

/// Some byte of the class has the low nibble `q` and a high nibble with rank
/// `j`.
pub open spec fn has_member(class: Seq<u8>, whole: Seq<u8>, q: int, j: int) -> bool {
    exists|i: int|
        0 <= i < class.len() && (#[trigger] class[i]) & 0x0f == q && rank(
            whole,
            (class[i] >> 4) as int,
        ) == j
}

/// The tables of a shufti class: each high nibble has the bucket of its rank.
pub open spec fn shufti_tables(class: Seq<u8>, lo: Seq<u8>, hi: Seq<u8>) -> bool {
    &&& lo.len() == 16
    &&& hi.len() == 16
    &&& forall|n: int|
        0 <= n < 16 ==> #[trigger] hi[n] == if has_nibble(class, n) {
            1u8 << (rank(class, n) as u8)
        } else {
            0
        }
    &&& forall|q: int, j: int|
        0 <= q < 16 && 0 <= j < 8 ==> (#[trigger] bit8(lo[q], j) <==> has_member(
            class,
            class,
            q,
            j,
        ))
}

proof fn lemma_rank_grows(class: Seq<u8>, n: int, m: int)
    requires
        n <= m,
    ensures
        rank(class, n) <= rank(class, m),
        0 <= n < m && has_nibble(class, n) ==> rank(class, n) < rank(class, m),
    decreases m - n,
{
    if n < m {
        lemma_rank_grows(class, n, m - 1);
    }
}

/// The tables know the class: a byte is a member where the tables say so.
pub proof fn shufti_tables_are_exact(class: Seq<u8>, lo: Seq<u8>, hi: Seq<u8>)
    requires
        rank(class, 16) <= 8,
        shufti_tables(class, lo, hi),
    ensures
        forall|b: u8| #[trigger] shufti_class(lo, hi)(b) <==> class.contains(b),
{
    assert forall|b: u8| #[trigger] shufti_class(lo, hi)(b) <==> class.contains(b) by {
        lemma_nibbles(b, 0);
        let q = (b & 0x0f) as int;
        let n = (b >> 4) as int;
        let j = rank(class, n) as int;
        assert(hi[n] == if has_nibble(class, n) {
            1u8 << (rank(class, n) as u8)
        } else {
            0
        });
        if has_nibble(class, n) {
            lemma_rank_grows(class, n, 16);
            lemma_bit8(lo[q], 0, j, j);
            assert(bit8(lo[q], j) <==> has_member(class, class, q, j));
            if has_member(class, class, q, j) {
                let i = choose|i: int|
                    0 <= i < class.len() && (#[trigger] class[i]) & 0x0f == q && rank(
                        class,
                        (class[i] >> 4) as int,
                    ) == j;
                let m = (class[i] >> 4) as int;
                assert(has_nibble(class, m));
                lemma_nibbles(class[i], 0);
                if m < n {
                    lemma_rank_grows(class, m, n);
                } else if n < m {
                    lemma_rank_grows(class, n, m);
                }
                lemma_same_byte(class[i], b);
                assert(class[i] == b);
            }
            if class.contains(b) {
                let i = choose|i: int| 0 <= i < class.len() && class[i] == b;
                assert(class[i] & 0x0f == q);
            }
        } else {
            lemma_bit8(lo[q], 0, 0, 0);
            if class.contains(b) {
                let i = choose|i: int| 0 <= i < class.len() && class[i] == b;
                assert(class[i] >> 4 == n);
            }
        }
    }
}

/// Which high nibbles a class has.
fn nibbles_of(class: &[u8]) -> (r: [bool; 16])
    ensures
        forall|n: int| 0 <= n < 16 ==> (#[trigger] r@[n] <==> has_nibble(class@, n)),
{
    let mut seen: [bool; 16] = [false; 16];
    assert(seen == vstd::array::spec_array_fill_for_copy_type::<bool, 16>(false));
    let mut k: usize = 0;
    assert(forall|n: int| !has_nibble(class@.take(0), n));
    while k < class.len()
        invariant
            k <= class@.len(),
            forall|n: int|
                0 <= n < 16 ==> (#[trigger] seen@[n] <==> has_nibble(class@.take(k as int), n)),
        decreases class@.len() - k,
    {
        let c: u8 = class[k];
        proof {
            lemma_nibbles(c, 0);
            let shorter = class@.take(k as int);
            let longer = class@.take(k + 1);
            assert forall|n: int| #[trigger] has_nibble(longer, n) <==> has_nibble(shorter, n) || n
                == c >> 4 by {
                if has_nibble(longer, n) {
                    let i = choose|i: int| 0 <= i < longer.len() && (#[trigger] longer[i]) >> 4 == n;
                    if i < k {
                        assert(shorter[i] >> 4 == n);
                    }
                }
                if has_nibble(shorter, n) {
                    let i = choose|i: int|
                        0 <= i < shorter.len() && (#[trigger] shorter[i]) >> 4 == n;
                    assert(longer[i] >> 4 == n);
                }
                assert(longer[k as int] == c);
            }
        }
        seen[(c >> 4) as usize] = true;
        k = k + 1;
    }
    assert(class@.take(k as int) =~= class@);
    seen
}

/// The tables of a shufti class. `None` if the class has more than 8 high
/// nibbles.
pub fn shufti_masks_exact(class: &[u8]) -> (r: Option<([u8; 16], [u8; 16])>)
    ensures
        match r {
            None => rank(class@, 16) > 8,
            Some((lo, hi)) => {
                &&& rank(class@, 16) <= 8
                &&& shufti_tables(class@, lo@, hi@)
                &&& forall|b: u8| #[trigger]
                    shufti_class(lo@, hi@)(b) <==> class@.contains(b)
            },
        },
{
    let seen = nibbles_of(class);
    let mut ranks: [u8; 16] = [0u8; 16];
    let mut count: u8 = 0;
    let mut n: usize = 0;
    while n < 16
        invariant
            n <= 16,
            count == rank(class@, n as int),
            count <= n,
            forall|m: int| 0 <= m < 16 ==> (#[trigger] seen@[m] <==> has_nibble(class@, m)),
            forall|m: int| 0 <= m < n ==> #[trigger] ranks@[m] == rank(class@, m),
        decreases 16 - n,
    {
        ranks[n] = count;
        if seen[n] {
            count = count + 1;
        }
        n = n + 1;
    }
    if count > 8 {
        return None;
    }
    let mut lo: [u8; 16] = [0u8; 16];
    let mut hi: [u8; 16] = [0u8; 16];
    assert(lo == vstd::array::spec_array_fill_for_copy_type::<u8, 16>(0));
    let mut k: usize = 0;
    proof {
        assert(class@.take(0) =~= Seq::empty());
        assert forall|q: int, j: int| 0 <= q < 16 && 0 <= j < 8 implies (#[trigger] bit8(
            lo@[q],
            j,
        ) <==> has_member(class@.take(0), class@, q, j)) by {
            lemma_bit8(0, 0, 0, j);
        }
    }
    while k < class.len()
        invariant
            k <= class@.len(),
            rank(class@, 16) <= 8,
            forall|m: int| 0 <= m < 16 ==> #[trigger] ranks@[m] == rank(class@, m),
            forall|m: int|
                0 <= m < 16 ==> #[trigger] hi@[m] == if has_nibble(class@.take(k as int), m) {
                    1u8 << (rank(class@, m) as u8)
                } else {
                    0
                },
            forall|q: int, j: int|
                0 <= q < 16 && 0 <= j < 8 ==> (#[trigger] bit8(lo@[q], j) <==> has_member(
                    class@.take(k as int),
                    class@,
                    q,
                    j,
                )),
        decreases class@.len() - k,
    {
        let c: u8 = class[k];
        let ghost shorter = class@.take(k as int);
        let ghost longer = class@.take(k + 1);
        let ghost lo0 = lo@;
        proof {
            lemma_nibbles(c, 0);
            assert(class@[k as int] >> 4 == (c >> 4) as int);
            assert(has_nibble(class@, (c >> 4) as int));
            lemma_rank_grows(class@, (c >> 4) as int, 16);
        }
        let low: usize = (c & 0x0f) as usize;
        let high: usize = (c >> 4) as usize;
        let bucket: u8 = ranks[high];
        lo[low] = lo[low] | (1u8 << bucket);
        hi[high] = hi[high] | (1u8 << bucket);
        k = k + 1;
        proof {
            assert(longer[k - 1] == c);
            assert forall|m: int| 0 <= m < 16 implies #[trigger] hi@[m] == if has_nibble(
                longer,
                m,
            ) {
                1u8 << (rank(class@, m) as u8)
            } else {
                0
            } by {
                lemma_bit8(1u8 << bucket, 0, 0, 0);
                crate::bits::lemma_or(1u8 << bucket, 0, 0);
                if has_nibble(longer, m) && m != c >> 4 {
                    let i = choose|i: int| 0 <= i < longer.len() && (#[trigger] longer[i]) >> 4 == m;
                    assert(shorter[i] >> 4 == m);
                }
                if has_nibble(shorter, m) {
                    let i = choose|i: int|
                        0 <= i < shorter.len() && (#[trigger] shorter[i]) >> 4 == m;
                    assert(longer[i] >> 4 == m);
                }
            }
            assert forall|q: int, j: int| 0 <= q < 16 && 0 <= j < 8 implies (#[trigger] bit8(
                lo@[q],
                j,
            ) <==> has_member(longer, class@, q, j)) by {
                lemma_bit8(lo0[q], 0, bucket as int, j);
                assert(bit8(lo0[q], j) <==> has_member(shorter, class@, q, j));
                if has_member(longer, class@, q, j) {
                    let i = choose|i: int|
                        0 <= i < longer.len() && (#[trigger] longer[i]) & 0x0f == q && rank(
                            class@,
                            (longer[i] >> 4) as int,
                        ) == j;
                    if i < k - 1 {
                        assert(shorter[i] & 0x0f == q);
                    }
                }
                if has_member(shorter, class@, q, j) {
                    let i = choose|i: int|
                        0 <= i < shorter.len() && (#[trigger] shorter[i]) & 0x0f == q && rank(
                            class@,
                            (shorter[i] >> 4) as int,
                        ) == j;
                    assert(longer[i] & 0x0f == q);
                }
            }
        }
    }
    proof {
        assert(class@.take(k as int) =~= class@);
        shufti_tables_are_exact(class@, lo@, hi@);
    }
    Some((lo, hi))
}

/// The tables of a truffle class: any class has them.
pub fn truffle_masks(class: &[u8]) -> (r: ([u8; 16], [u8; 16]))
    ensures
        forall|b: u8| #[trigger] truffle_class(r.0@, r.1@)(b) <==> class@.contains(b),
{
    let mut clear: [u8; 16] = [0u8; 16];
    let mut set: [u8; 16] = [0u8; 16];
    assert(clear == vstd::array::spec_array_fill_for_copy_type::<u8, 16>(0));
    let mut k: usize = 0;
    proof {
        assert(class@.take(0) =~= Seq::empty());
        assert forall|b: u8| #[trigger] truffle_class(clear@, set@)(b) <==> class@.take(
            0,
        ).contains(b) by {
            lemma_nibbles(b, 0);
            lemma_seven(b >> 4);
            lemma_bit8(0, 0, ((b >> 4) & 7) as int, ((b >> 4) & 7) as int);
        }
    }
    while k < class.len()
        invariant
            k <= class@.len(),
            forall|b: u8| #[trigger]
                truffle_class(clear@, set@)(b) <==> class@.take(k as int).contains(b),
        decreases class@.len() - k,
    {
        let c: u8 = class[k];
        let ghost clear0 = clear@;
        let ghost set0 = set@;
        let ghost shorter = class@.take(k as int);
        proof {
            lemma_nibbles(c, 0);
            lemma_seven(c >> 4);
        }
        let low: usize = (c & 0x0f) as usize;
        let mark: u8 = 1u8 << ((c >> 4) & 7);
        if c < 0x80 {
            clear[low] = clear[low] | mark;
        } else {
            set[low] = set[low] | mark;
        }
        k = k + 1;
        proof {
            let longer = class@.take(k as int);
            assert(longer =~= shorter.push(c));
            assert forall|b: u8| #[trigger] truffle_class(clear@, set@)(b) <==> longer.contains(
                b,
            ) by {
                lemma_nibbles(b, 0);
                lemma_seven(b >> 4);
                lemma_same_byte(b, c);
                let row = (if b < 0x80 {
                    clear0
                } else {
                    set0
                })[(b & 0x0f) as int];
                let r = ((c >> 4) & 7) as int;
                let j = ((b >> 4) & 7) as int;
                lemma_bit8(row, 0, r, j);
                lemma_bit8(row, 0, j, j);
                lemma_bit8(row | mark, 0, j, j);
                assert(truffle_class(clear0, set0)(b) <==> shorter.contains(b));
                assert(longer.contains(b) <==> shorter.contains(b) || b == c) by {
                    if shorter.contains(b) {
                        let i = choose|i: int| 0 <= i < shorter.len() && shorter[i] == b;
                        assert(longer[i] == b);
                    }
                    assert(longer[k - 1] == c);
                }
            }
        }
    }
    assert(class@.take(k as int) =~= class@);
    (clear, set)
}

/// The `j`-th pair is there, and its byte `first` (else `second`) has the
/// nibble `q`, low or high.
pub open spec fn pair_nibble(pairs: Seq<(u8, u8)>, j: int, first: bool, low: bool, q: int) -> bool {
    0 <= j < pairs.len() && {
        let b = if first {
            pairs[j].0
        } else {
            pairs[j].1
        };
        (if low {
            b & 0x0f
        } else {
            b >> 4
        }) == q
    }
}

/// A row of one of the tables: a bucket for each pair, clear where it matches.
pub open spec fn pair_row(
    pairs: Seq<(u8, u8)>,
    row: u8,
    first: bool,
    low: bool,
    q: int,
) -> bool {
    forall|j: int| 0 <= j < 8 ==> (#[trigger] bit8(row, j) <==> !pair_nibble(pairs, j, first, low, q))
}

/// One of the tables.
pub open spec fn pair_table(pairs: Seq<(u8, u8)>, table: Seq<u8>, first: bool, low: bool) -> bool {
    table.len() == 16 && forall|q: int|
        0 <= q < 16 ==> pair_row(pairs, #[trigger] table[q], first, low, q)
}

/// The four tables of a list of pairs.
pub open spec fn pair_tables(pairs: Seq<(u8, u8)>, t: PairTables) -> bool {
    &&& pair_table(pairs, t.m1_lo, true, true)
    &&& pair_table(pairs, t.m1_hi, true, false)
    &&& pair_table(pairs, t.m2_lo, false, true)
    &&& pair_table(pairs, t.m2_hi, false, false)
}

/// Clears the bucket of pair `k` in the row of its nibble.
fn clear_bucket(
    table: &mut [u8; 16],
    nibble: u8,
    k: usize,
    pairs: Ghost<Seq<(u8, u8)>>,
    first: Ghost<bool>,
    low: Ghost<bool>,
)
    requires
        k < pairs@.len() <= 8,
        nibble < 16,
        forall|q: int| pair_nibble(pairs@, k as int, first@, low@, q) <==> q == nibble,
        pair_table(pairs@.take(k as int), old(table)@, first@, low@),
    ensures
        pair_table(pairs@.take(k + 1), final(table)@, first@, low@),
{
    let ghost before = table@;
    let i: usize = nibble as usize;
    table[i] = table[i] & !(1u8 << (k as u8));
    proof {
        let shorter = pairs@.take(k as int);
        let longer = pairs@.take(k + 1);
        assert forall|q: int| 0 <= q < 16 implies pair_row(
            longer,
            #[trigger] table@[q],
            first@,
            low@,
            q,
        ) by {
            assert(pair_row(shorter, before[q], first@, low@, q));
            assert forall|j: int| 0 <= j < 8 implies (#[trigger] bit8(table@[q], j)
                <==> !pair_nibble(longer, j, first@, low@, q)) by {
                lemma_bit8(before[q], 0, k as int, j);
                assert(bit8(before[q], j) <==> !pair_nibble(shorter, j, first@, low@, q));
                if j < k {
                    assert(longer[j] == shorter[j]);
                }
                assert(longer[k as int] == pairs@[k as int]);
                assert(pair_nibble(pairs@, k as int, first@, low@, q) <==> q == nibble);
            }
        }
    }
}

proof fn lemma_no_pairs(table: Seq<u8>, first: bool, low: bool)
    requires
        table.len() == 16,
        forall|q: int| 0 <= q < 16 ==> #[trigger] table[q] == 0xff,
    ensures
        pair_table(Seq::empty(), table, first, low),
{
    assert forall|q: int| 0 <= q < 16 implies pair_row(
        Seq::empty(),
        #[trigger] table[q],
        first,
        low,
        q,
    ) by {
        lemma_full(table[q]);
    }
}

/// The tables of up to 8 pairs. `None` for more, and for none.
pub fn shufti_double_masks_exact(pairs: &[(u8, u8)]) -> (r: Option<
    ([u8; 16], [u8; 16], [u8; 16], [u8; 16]),
>)
    ensures
        match r {
            None => pairs@.len() == 0 || pairs@.len() > 8,
            Some((m1_lo, m1_hi, m2_lo, m2_hi)) => {
                &&& 0 < pairs@.len() <= 8
                &&& pair_tables(
                    pairs@,
                    PairTables { m1_lo: m1_lo@, m1_hi: m1_hi@, m2_lo: m2_lo@, m2_hi: m2_hi@ },
                )
            },
        },
{
    if pairs.len() > 8 || pairs.len() == 0 {
        return None;
    }
    let mut m1_lo: [u8; 16] = [0xffu8; 16];
    let mut m1_hi: [u8; 16] = [0xffu8; 16];
    let mut m2_lo: [u8; 16] = [0xffu8; 16];
    let mut m2_hi: [u8; 16] = [0xffu8; 16];
    assert(m1_lo == vstd::array::spec_array_fill_for_copy_type::<u8, 16>(0xff));
    let mut k: usize = 0;
    proof {
        assert(pairs@.take(0) =~= Seq::empty());
        lemma_no_pairs(m1_lo@, true, true);
        lemma_no_pairs(m1_hi@, true, false);
        lemma_no_pairs(m2_lo@, false, true);
        lemma_no_pairs(m2_hi@, false, false);
    }
    while k < pairs.len()
        invariant
            k <= pairs@.len() <= 8,
            pair_table(pairs@.take(k as int), m1_lo@, true, true),
            pair_table(pairs@.take(k as int), m1_hi@, true, false),
            pair_table(pairs@.take(k as int), m2_lo@, false, true),
            pair_table(pairs@.take(k as int), m2_hi@, false, false),
        decreases pairs@.len() - k,
    {
        let (a, b) = pairs[k];
        proof {
            lemma_nibbles(a, 0);
            lemma_nibbles(b, 0);
        }
        clear_bucket(&mut m1_lo, a & 0x0f, k, Ghost(pairs@), Ghost(true), Ghost(true));
        clear_bucket(&mut m1_hi, a >> 4, k, Ghost(pairs@), Ghost(true), Ghost(false));
        clear_bucket(&mut m2_lo, b & 0x0f, k, Ghost(pairs@), Ghost(false), Ghost(true));
        clear_bucket(&mut m2_hi, b >> 4, k, Ghost(pairs@), Ghost(false), Ghost(false));
        k = k + 1;
    }
    assert(pairs@.take(k as int) =~= pairs@);
    Some((m1_lo, m1_hi, m2_lo, m2_hi))
}

/// Some pair of the list starts with a byte.
pub open spec fn starts_pair(pairs: Seq<(u8, u8)>, a: u8) -> bool {
    exists|k: int| 0 <= k < pairs.len() && (#[trigger] pairs[k]).0 == a
}

/// A pair of the list starts at position `p`.
pub open spec fn listed_at(pairs: Seq<(u8, u8)>, buf: Seq<u8>, p: int) -> bool {
    0 <= p && p + 1 < buf.len() && pairs.contains((buf[p], buf[p + 1]))
}

/// The result of a search for a pair of the list.
pub open spec fn finds_listed(pairs: Seq<(u8, u8)>, buf: Seq<u8>, r: Option<usize>) -> bool {
    match r {
        Some(n) => {
            &&& n < buf.len()
            &&& forall|p: int| p < n ==> !#[trigger] listed_at(pairs, buf, p)
            &&& listed_at(pairs, buf, n as int) || (n == buf.len() - 1 && starts_pair(
                pairs,
                buf[n as int],
            ))
        },
        None => {
            &&& forall|p: int| !#[trigger] listed_at(pairs, buf, p)
            &&& buf.len() > 0 ==> !starts_pair(pairs, buf.last())
        },
    }
}

/// Bucket `j` of the tables is that of pair `j`.
proof fn lemma_bucket(pairs: Seq<(u8, u8)>, t: PairTables, a: u8, j: int)
    requires
        pair_tables(pairs, t),
        0 <= j < 8,
    ensures
        bit8(t.not_first(a), j) <==> !(j < pairs.len() && pairs[j].0 == a),
        bit8(t.not_second(a), j) <==> !(j < pairs.len() && pairs[j].1 == a),
{
    lemma_nibbles(a, 0);
    let (q, n) = ((a & 0x0f) as int, (a >> 4) as int);
    assert(pair_row(pairs, t.m1_lo[q], true, true, q));
    assert(pair_row(pairs, t.m1_hi[n], true, false, n));
    assert(pair_row(pairs, t.m2_lo[q], false, true, q));
    assert(pair_row(pairs, t.m2_hi[n], false, false, n));
    lemma_bit8(t.m1_lo[q], t.m1_hi[n], 0, j);
    lemma_bit8(t.m2_lo[q], t.m2_hi[n], 0, j);
    assert(bit8(t.m1_lo[q], j) <==> !pair_nibble(pairs, j, true, true, q));
    assert(bit8(t.m1_hi[n], j) <==> !pair_nibble(pairs, j, true, false, n));
    assert(bit8(t.m2_lo[q], j) <==> !pair_nibble(pairs, j, false, true, q));
    assert(bit8(t.m2_hi[n], j) <==> !pair_nibble(pairs, j, false, false, n));
    if j < pairs.len() {
        lemma_same_byte(pairs[j].0, a);
        lemma_same_byte(pairs[j].1, a);
    }
}

/// The tables of a list know its pairs, and the bytes that start them.
pub proof fn pair_tables_are_exact(pairs: Seq<(u8, u8)>, t: PairTables)
    requires
        pairs.len() <= 8,
        pair_tables(pairs, t),
    ensures
        forall|a: u8, b: u8| #[trigger] t.is_pair(a, b) <==> pairs.contains((a, b)),
        forall|a: u8| (#[trigger] t.not_first(a) != 0xff) <==> starts_pair(pairs, a),
{
    assert forall|a: u8| (#[trigger] t.not_first(a) != 0xff) <==> starts_pair(pairs, a) by {
        lemma_full(t.not_first(a));
        if t.not_first(a) != 0xff {
            let j = choose|j: int| 0 <= j < 8 && !#[trigger] bit8(t.not_first(a), j);
            lemma_bucket(pairs, t, a, j);
            assert(pairs[j].0 == a);
        }
        if starts_pair(pairs, a) {
            let k = choose|k: int| 0 <= k < pairs.len() && (#[trigger] pairs[k]).0 == a;
            lemma_bucket(pairs, t, a, k);
            assert(!bit8(t.not_first(a), k));
        }
    }
    assert forall|a: u8, b: u8| #[trigger] t.is_pair(a, b) <==> pairs.contains((a, b)) by {
        let x = t.not_first(a);
        let y = t.not_second(b);
        lemma_full(x | y);
        if t.is_pair(a, b) {
            let j = choose|j: int| 0 <= j < 8 && !#[trigger] bit8(x | y, j);
            lemma_bit8(x, y, 0, j);
            lemma_bucket(pairs, t, a, j);
            lemma_bucket(pairs, t, b, j);
            assert(!bit8(t.not_first(a), j) && !bit8(t.not_second(b), j));
            assert(pairs[j] == (a, b));
        }
        if pairs.contains((a, b)) {
            let k = choose|k: int| 0 <= k < pairs.len() && pairs[k] == (a, b);
            lemma_bit8(x, y, 0, k);
            lemma_bucket(pairs, t, a, k);
            lemma_bucket(pairs, t, b, k);
            assert(!bit8(x | y, k));
        }
    }
}

/// A search with the tables of a list finds what a search for its pairs finds.
pub proof fn double_search_is_exact(
    pairs: Seq<(u8, u8)>,
    t: PairTables,
    buf: Seq<u8>,
    r: Option<usize>,
)
    requires
        pairs.len() <= 8,
        pair_tables(pairs, t),
    ensures
        finds_pair(t, buf, r) <==> finds_listed(pairs, buf, r),
{
    pair_tables_are_exact(pairs, t);
    assert forall|p: int| #[trigger] pair_at(t, buf, p) == listed_at(pairs, buf, p) by {}
    assert forall|p: int| pair_at(t, buf, p) == #[trigger] listed_at(pairs, buf, p) by {}
    if buf.len() > 0 {
        assert((t.not_first(buf.last()) != 0xff) <==> starts_pair(pairs, buf.last()));
    }
}

/// The first pair of a list, or the last byte if a pair of the list starts
/// with it.
pub fn shufti_double_naive(pairs: &[(u8, u8)], buf: &[u8]) -> (r: Option<usize>)
    ensures
        finds_listed(pairs@, buf@, r),
{
    let len: usize = buf.len();
    if len == 0 {
        return None;
    }
    let mut p: usize = 0;
    while p < len - 1
        invariant
            len == buf@.len(),
            len > 0,
            p <= len - 1,
            forall|q: int| q < p ==> !#[trigger] listed_at(pairs@, buf@, q),
        decreases len - 1 - p,
    {
        let a: u8 = buf[p];
        let b: u8 = buf[p + 1];
        let mut k: usize = 0;
        while k < pairs.len()
            invariant
                k <= pairs@.len(),
                len == buf@.len(),
                p + 1 < len,
                a == buf@[p as int],
                b == buf@[p + 1],
                forall|q: int| q < p ==> !#[trigger] listed_at(pairs@, buf@, q),
                forall|i: int| 0 <= i < k ==> #[trigger] pairs@[i] != (a, b),
            decreases pairs@.len() - k,
        {
            if pairs[k].0 == a && pairs[k].1 == b {
                assert(pairs@[k as int] == (a, b));
                assert(listed_at(pairs@, buf@, p as int));
                return Some(p);
            }
            k = k + 1;
        }
        p = p + 1;
    }
    let last: u8 = buf[len - 1];
    let mut k: usize = 0;
    while k < pairs.len()
        invariant
            k <= pairs@.len(),
            len == buf@.len(),
            len > 0,
            last == buf@[len - 1],
            forall|q: int| q < len - 1 ==> !#[trigger] listed_at(pairs@, buf@, q),
            forall|i: int| 0 <= i < k ==> (#[trigger] pairs@[i]).0 != last,
        decreases pairs@.len() - k,
    {
        if pairs[k].0 == last {
            assert(starts_pair(pairs@, buf@[len - 1]));
            return Some(len - 1);
        }
        k = k + 1;
    }
    None
}

} // verus!
