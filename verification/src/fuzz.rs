//! Repeatable mutations of a block of bytes: changed bits and bytes, length
//! edges, hostile words in the header, and inserted copies.

use vstd::prelude::*;

use crate::bits::{bit8, lemma_bit8, lemma_or};
use crate::bytes::byte_of;

verus! {

/// The state of the generator after a draw.
pub open spec fn drawn(state: u64) -> u64 {
    state.wrapping_add(0x9E37_79B9_7F4A_7C15)
}

/// What a draw gives.
pub open spec fn draw(state: u64) -> u64 {
    let z0 = drawn(state);
    let z1 = (z0 ^ (z0 >> 30)).wrapping_mul(0xBF58_476D_1CE4_E5B9);
    let z2 = (z1 ^ (z1 >> 27)).wrapping_mul(0x94D0_49BB_1331_11EB);
    z2 ^ (z2 >> 31)
}

/// What a draw below `n` gives.
pub open spec fn draw_below(state: u64, n: int) -> int {
    if n == 0 {
        0
    } else {
        draw(state) as int % n
    }
}

/// The state after a draw below `n`: nothing is drawn below zero.
pub open spec fn drawn_below(state: u64, n: int) -> u64 {
    if n == 0 {
        state
    } else {
        drawn(state)
    }
}

/// What a draw gives as a byte.
pub open spec fn draw_byte(state: u64) -> u8 {
    (draw(state) % 256) as u8
}

/// A generator of numbers (splitmix64): the same seed gives the same numbers.
pub struct Rng(pub u64);

impl Rng {
    /// Draws a number.
    pub fn next(&mut self) -> (r: u64)
        ensures
            r == draw(old(self).0),
            final(self).0 == drawn(old(self).0),
    {
        self.0 = self.0.wrapping_add(0x9E37_79B9_7F4A_7C15);
        let mut z: u64 = self.0;
        z = (z ^ (z >> 30)).wrapping_mul(0xBF58_476D_1CE4_E5B9);
        z = (z ^ (z >> 27)).wrapping_mul(0x94D0_49BB_1331_11EB);
        z ^ (z >> 31)
    }

    /// Draws a number below `n`.
    pub fn below(&mut self, n: usize) -> (r: usize)
        ensures
            r == draw_below(old(self).0, n as int),
            final(self).0 == drawn_below(old(self).0, n as int),
            n > 0 ==> r < n,
    {
        if n == 0 {
            0
        } else {
            (self.next() % n as u64) as usize
        }
    }

    /// Draws a byte.
    fn byte(&mut self) -> (r: u8)
        ensures
            r == draw_byte(old(self).0),
            final(self).0 == drawn(old(self).0),
    {
        (self.next() % 256) as u8
    }
}

/// Bytes that are being mutated, and the state of the generator.
pub ghost struct Mutant {
    pub bytes: Seq<u8>,
    pub state: u64,
}

/// One bit of one byte flipped.
pub open spec fn flipped(b: Seq<u8>, state: u64) -> Mutant {
    let i = draw_below(state, b.len() as int);
    let s = drawn_below(state, b.len() as int);
    Mutant {
        bytes: b.update(i, b[i] ^ (1u8 << draw_below(s, 8) as u8)),
        state: drawn_below(s, 8),
    }
}

/// One byte replaced.
pub open spec fn replaced(b: Seq<u8>, state: u64) -> Mutant {
    let i = draw_below(state, b.len() as int);
    let s = drawn_below(state, b.len() as int);
    Mutant { bytes: b.update(i, draw_byte(s)), state: drawn(s) }
}

/// The end cut off. What stays is shorter, unless there was nothing.
pub open spec fn cut(b: Seq<u8>, state: u64) -> Mutant {
    let n = if b.len() == 0 {
        1
    } else {
        b.len() as int
    };
    Mutant { bytes: b.take(draw_below(state, n)), state: drawn_below(state, n) }
}

/// `n` drawn bytes behind the end.
pub open spec fn grown(b: Seq<u8>, state: u64, n: int) -> Mutant
    decreases n,
{
    if n <= 0 {
        Mutant { bytes: b, state }
    } else {
        grown(b.push(draw_byte(state)), drawn(state), n - 1)
    }
}

/// Where a hostile word may start: in the header, and inside the bytes.
pub open spec fn header(len: int) -> int {
    if len - 3 > 512 {
        512
    } else {
        len - 3
    }
}

/// The hostile words: huge, zero, one, and a little past the end.
pub open spec fn hostile(k: int, len: int) -> u32 {
    if k == 0 {
        0xffff_ffff
    } else if k == 1 {
        0x7fff_fff0
    } else if k == 2 {
        0
    } else if k == 3 {
        1
    } else {
        ((len % 0x1_0000_0000 + 4096) % 0x1_0000_0000) as u32
    }
}

/// The word at `off` replaced, the low byte first.
pub open spec fn with_word(b: Seq<u8>, off: int, v: u32) -> Seq<u8> {
    b.update(off, byte_of(v as u64, 0)).update(off + 1, byte_of(v as u64, 1)).update(
        off + 2,
        byte_of(v as u64, 2),
    ).update(off + 3, byte_of(v as u64, 3))
}

/// A word of the header replaced by a hostile one.
pub open spec fn smashed(b: Seq<u8>, state: u64) -> Mutant {
    let off = draw_below(state, header(b.len() as int));
    let s = drawn_below(state, header(b.len() as int));
    Mutant {
        bytes: with_word(b, off, hostile(draw_below(s, 5), b.len() as int)),
        state: drawn_below(s, 5),
    }
}

/// A piece of the bytes inserted once more.
pub open spec fn doubled(b: Seq<u8>, state: u64) -> Mutant {
    let n = b.len() as int;
    let s1 = drawn_below(state, n);
    let s2 = drawn_below(s1, n);
    let a = draw_below(state, n);
    let c = draw_below(s1, n);
    let at = draw_below(s2, n);
    let piece = if a <= c {
        b.subrange(a, c)
    } else {
        b.subrange(c, a)
    };
    Mutant { bytes: b.take(at) + piece + b.skip(at), state: drawn_below(s2, n) }
}

/// One mutation. What is too short for the drawn kind is doubled, if it can
/// be, or left.
pub open spec fn mutated_once(m: Mutant) -> Mutant {
    let kind = draw_below(m.state, 6);
    let s = drawn_below(m.state, 6);
    if kind == 0 && m.bytes.len() > 0 {
        flipped(m.bytes, s)
    } else if kind == 1 && m.bytes.len() > 0 {
        replaced(m.bytes, s)
    } else if kind == 2 {
        cut(m.bytes, s)
    } else if kind == 3 {
        grown(m.bytes, drawn_below(s, 64), draw_below(s, 64))
    } else if kind == 4 && m.bytes.len() >= 4 {
        smashed(m.bytes, s)
    } else if m.bytes.len() >= 2 {
        doubled(m.bytes, s)
    } else {
        Mutant { bytes: m.bytes, state: s }
    }
}

/// `n` mutations.
pub open spec fn mutated_times(m: Mutant, n: int) -> Mutant
    decreases n,
{
    if n <= 0 {
        m
    } else {
        mutated_once(mutated_times(m, n - 1))
    }
}

/// A seed after one to six mutations.
pub open spec fn mutated(seed: Seq<u8>, state: u64) -> Mutant {
    mutated_times(
        Mutant { bytes: seed, state: drawn_below(state, 6) },
        1 + draw_below(state, 6),
    )
}

fn low_byte(v: u32, i: u32) -> (r: u8)
    requires
        i < 4,
    ensures
        r == byte_of(v as u64, i as int),
{
    (v as u64 >> (8 * i as u64)) as u8
}

fn smash(b: &mut Vec<u8>, rng: &mut Rng)
    requires
        old(b)@.len() >= 4,
    ensures
        smashed(old(b)@, old(rng).0) == (Mutant { bytes: final(b)@, state: final(rng).0 }),
{
    let len: usize = b.len();
    let hi: usize = if len - 3 > 512 {
        512
    } else {
        len - 3
    };
    let off: usize = rng.below(hi);
    let k: usize = rng.below(5);
    let v: u32 = match k {
        0 => 0xffff_ffff,
        1 => 0x7fff_fff0,
        2 => 0,
        3 => 1,
        _ => ((len as u64 % 0x1_0000_0000 + 4096) % 0x1_0000_0000) as u32,
    };
    b.set(off, low_byte(v, 0));
    b.set(off + 1, low_byte(v, 1));
    b.set(off + 2, low_byte(v, 2));
    b.set(off + 3, low_byte(v, 3));
}

fn double(b: &mut Vec<u8>, rng: &mut Rng)
    requires
        old(b)@.len() >= 2,
    ensures
        doubled(old(b)@, old(rng).0) == (Mutant { bytes: final(b)@, state: final(rng).0 }),
{
    let len: usize = b.len();
    let a: usize = rng.below(len);
    let c: usize = rng.below(len);
    let at: usize = rng.below(len);
    let (from, to): (usize, usize) = if a <= c {
        (a, c)
    } else {
        (c, a)
    };
    let ghost seed = b@;
    let mut out: Vec<u8> = Vec::new();
    let mut i: usize = 0;
    while i < at
        invariant
            i <= at < b@.len(),
            out@ == b@.take(i as int),
        decreases at - i,
    {
        out.push(b[i]);
        i += 1;
        assert(b@.take(i as int) =~= b@.take(i - 1).push(b@[i - 1]));
    }
    let mut j: usize = from;
    assert(b@.subrange(from as int, j as int) =~= Seq::empty());
    assert(out@ =~= b@.take(at as int) + b@.subrange(from as int, j as int));
    while j < to
        invariant
            from <= j <= to < b@.len(),
            at < b@.len(),
            out@ == b@.take(at as int) + b@.subrange(from as int, j as int),
        decreases to - j,
    {
        out.push(b[j]);
        j += 1;
        assert(b@.subrange(from as int, j as int) =~= b@.subrange(from as int, j - 1).push(
            b@[j - 1],
        ));
        assert(out@ =~= b@.take(at as int) + b@.subrange(from as int, j as int));
    }
    let ghost front = out@;
    assert(out@ =~= front + b@.subrange(at as int, i as int));
    while i < len
        invariant
            at <= i <= len,
            len == b@.len(),
            out@ == front + b@.subrange(at as int, i as int),
        decreases len - i,
    {
        out.push(b[i]);
        i += 1;
        assert(b@.subrange(at as int, i as int) =~= b@.subrange(at as int, i - 1).push(b@[i - 1]));
        assert(out@ =~= front + b@.subrange(at as int, i as int));
    }
    assert(seed.skip(at as int) =~= seed.subrange(at as int, len as int));
    *b = out;
}

fn grow(b: &mut Vec<u8>, rng: &mut Rng)
    ensures
        grown(old(b)@, drawn_below(old(rng).0, 64), draw_below(old(rng).0, 64)) == (Mutant {
            bytes: final(b)@,
            state: final(rng).0,
        }),
{
    let n: usize = rng.below(64);
    let ghost all = grown(b@, rng.0, n as int);
    let mut i: usize = 0;
    while i < n
        invariant
            i <= n,
            grown(b@, rng.0, n - i) == all,
        decreases n - i,
    {
        b.push(rng.byte());
        i += 1;
    }
}

fn mutate_once(b: &mut Vec<u8>, rng: &mut Rng)
    ensures
        mutated_once(Mutant { bytes: old(b)@, state: old(rng).0 }) == (Mutant {
            bytes: final(b)@,
            state: final(rng).0,
        }),
{
    let kind: usize = rng.below(6);
    let len: usize = b.len();
    if kind == 0 && len > 0 {
        let i: usize = rng.below(len);
        let bit: usize = rng.below(8);
        let v: u8 = b[i] ^ (1u8 << bit as u8);
        b.set(i, v);
    } else if kind == 1 && len > 0 {
        let i: usize = rng.below(len);
        let v: u8 = rng.byte();
        b.set(i, v);
    } else if kind == 2 {
        let n: usize = rng.below(if len == 0 {
            1
        } else {
            len
        });
        b.truncate(n);
    } else if kind == 3 {
        grow(b, rng);
    } else if kind == 4 && len >= 4 {
        smash(b, rng);
    } else if len >= 2 {
        double(b, rng);
    }
}

/// Mutates a seed.
pub fn mutate(seed: &[u8], rng: &mut Rng) -> (r: Vec<u8>)
    ensures
        mutated(seed@, old(rng).0) == (Mutant { bytes: r@, state: final(rng).0 }),
{
    let mut b: Vec<u8> = Vec::new();
    b.extend_from_slice(seed);
    assert(b@ =~= seed@);
    let rounds: usize = 1 + rng.below(6);
    let ghost m = Mutant { bytes: b@, state: rng.0 };
    let mut i: usize = 0;
    while i < rounds
        invariant
            i <= rounds,
            mutated_times(m, i as int) == (Mutant { bytes: b@, state: rng.0 }),
        decreases rounds - i,
    {
        mutate_once(&mut b, rng);
        i += 1;
    }
    b
}

/// Two bytes differ in bit `r` and in no other.
pub open spec fn differ_at(x: u8, y: u8, r: int) -> bool {
    forall|j: int| 0 <= j < 8 ==> (#[trigger] bit8(x, j) != bit8(y, j) <==> j == r)
}

/// A flip changes one byte, in one bit.
pub proof fn flip_changes_one_bit(b: Seq<u8>, state: u64)
    requires
        b.len() > 0,
    ensures
        ({
            let i = draw_below(state, b.len() as int);
            let after = flipped(b, state).bytes;
            &&& 0 <= i < b.len()
            &&& after.len() == b.len()
            &&& forall|k: int| 0 <= k < b.len() && k != i ==> #[trigger] after[k] == b[k]
            &&& exists|r: int| 0 <= r < 8 && #[trigger] differ_at(after[i], b[i], r)
        }),
{
    let i = draw_below(state, b.len() as int);
    let s = drawn_below(state, b.len() as int);
    let r = draw_below(s, 8);
    let one = 1u8 << (r as u8);
    let after = flipped(b, state).bytes;
    assert forall|j: int| #![trigger bit8(after[i], j)] 0 <= j < 8 implies (bit8(after[i], j) != bit8(
        b[i],
        j,
    ) <==> j == r) by {
        lemma_bit8(b[i], one, r, j);
        lemma_bit8(0, 0, r, j);
        lemma_or(one, 0, 0);
    }
    assert(differ_at(after[i], b[i], r));
}

/// A cut leaves a shorter beginning, growth leaves the whole beginning, and
/// doubling takes nothing away.
pub proof fn mutations_keep_what_they_do_not_touch(b: Seq<u8>, state: u64, n: int)
    ensures
        b.len() > 0 ==> cut(b, state).bytes.len() < b.len() && cut(b, state).bytes.is_prefix_of(b),
        n >= 0 ==> grown(b, state, n).bytes.len() == b.len() + n && b.is_prefix_of(
            grown(b, state, n).bytes,
        ),
        b.len() > 0 ==> b.len() <= doubled(b, state).bytes.len() < 2 * b.len(),
    decreases n,
{
    if n > 0 {
        mutations_keep_what_they_do_not_touch(b.push(draw_byte(state)), drawn(state), n - 1);
        let longer = b.push(draw_byte(state));
        assert(longer.take(b.len() as int) =~= b);
        let all = grown(b, state, n).bytes;
        assert(longer =~= all.take(longer.len() as int));
        assert(b =~= all.take(b.len() as int));
    }
}

} // verus!
