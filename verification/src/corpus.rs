//! Corpora of blocks and the lines that their scans print.

use vstd::prelude::*;
use vstd::string::StringExecFns;

use crate::text::{decimal, push_decimal};

verus! {

/// Whether a character is white space.
pub open spec fn is_space(c: char) -> bool {
    let u = c as u32;
    ||| 0x09 <= u <= 0x0d
    ||| u == 0x20
    ||| u == 0x85
    ||| u == 0xa0
    ||| u == 0x1680
    ||| 0x2000 <= u <= 0x200a
    ||| 0x2028 <= u <= 0x2029
    ||| u == 0x202f
    ||| u == 0x205f
    ||| u == 0x3000
}

/// A line without the space in front of it.
pub open spec fn trim_start(s: Seq<char>) -> Seq<char>
    decreases s.len(),
{
    if s.len() > 0 && is_space(s[0]) {
        trim_start(s.drop_first())
    } else {
        s
    }
}

/// A line without the space behind it.
pub open spec fn trim_end(s: Seq<char>) -> Seq<char>
    decreases s.len(),
{
    if s.len() > 0 && is_space(s.last()) {
        trim_end(s.drop_last())
    } else {
        s
    }
}

/// A line without the space around it.
pub open spec fn trimmed(s: Seq<char>) -> Seq<char> {
    trim_end(trim_start(s))
}

/// The value of a character as a digit in base 16.
pub open spec fn hex_value(c: char) -> Option<u8> {
    let u = c as u32;
    if 48 <= u <= 57 {
        Some((u - 48) as u8)
    } else if 97 <= u <= 102 {
        Some((u - 87) as u8)
    } else if 65 <= u <= 70 {
        Some((u - 55) as u8)
    } else {
        None
    }
}

/// The byte that two characters write: two digits, or a plus and a digit.
pub open spec fn hex_byte(hi: char, lo: char) -> Option<u8> {
    match (hex_value(hi), hex_value(lo)) {
        (Some(h), Some(l)) => Some((16 * h + l) as u8),
        (None, Some(l)) => if hi == '+' {
            Some(l)
        } else {
            None
        },
        _ => None,
    }
}

/// The byte that pair `i` of some characters writes.
pub open spec fn hex_pair(s: Seq<char>, i: int) -> Option<u8> {
    hex_byte(s[2 * i], s[2 * i + 1])
}

/// Whether a line writes a sequence of bytes: an even number of characters,
/// each pair a byte. Space around them is ignored.
pub open spec fn is_hex(s: Seq<char>) -> bool {
    let t = trimmed(s);
    &&& t.len() % 2 == 0
    &&& forall|i: int| 0 <= i < t.len() / 2 ==> (#[trigger] hex_pair(t, i)) is Some
}

/// The bytes that a line writes.
pub open spec fn from_hex(s: Seq<char>) -> Seq<u8> {
    let t = trimmed(s);
    Seq::new(t.len() / 2, |i: int| hex_pair(t, i)->0)
}

fn space(c: char) -> (r: bool)
    ensures
        r == is_space(c),
{
    let u: u32 = c as u32;
    (0x09 <= u && u <= 0x0d) || u == 0x20 || u == 0x85 || u == 0xa0 || u == 0x1680 || (0x2000 <= u
        && u <= 0x200a) || u == 0x2028 || u == 0x2029 || u == 0x202f || u == 0x205f || u == 0x3000
}

fn digit_of(c: char) -> (r: Option<u8>)
    ensures
        r == hex_value(c),
{
    let u: u32 = c as u32;
    if 48 <= u && u <= 57 {
        Some((u - 48) as u8)
    } else if 97 <= u && u <= 102 {
        Some((u - 87) as u8)
    } else if 65 <= u && u <= 70 {
        Some((u - 55) as u8)
    } else {
        None
    }
}

fn byte_of_pair(hi: char, lo: char) -> (r: Option<u8>)
    ensures
        r == hex_byte(hi, lo),
{
    match (digit_of(hi), digit_of(lo)) {
        (Some(h), Some(l)) => Some(16 * h + l),
        (None, Some(l)) => if hi == '+' {
            Some(l)
        } else {
            None
        },
        _ => None,
    }
}

/// Where a line begins and ends without the space around it.
fn trim(s: &Vec<char>) -> (r: (usize, usize))
    ensures
        r.0 <= r.1 <= s@.len(),
        trimmed(s@) == s@.subrange(r.0 as int, r.1 as int),
{
    let mut from: usize = 0;
    assert(s@.skip(0) =~= s@);
    while from < s.len() && space(s[from])
        invariant
            from <= s@.len(),
            trim_start(s@) == trim_start(s@.skip(from as int)),
        decreases s@.len() - from,
    {
        assert(s@.skip(from as int).drop_first() =~= s@.skip(from + 1));
        from += 1;
    }
    assert(trim_start(s@) == s@.skip(from as int));
    let mut to: usize = s.len();
    assert(s@.subrange(from as int, to as int) =~= s@.skip(from as int));
    while to > from && space(s[to - 1])
        invariant
            from <= to <= s@.len(),
            trimmed(s@) == trim_end(s@.subrange(from as int, to as int)),
        decreases to,
    {
        assert(s@.subrange(from as int, to as int).drop_last() =~= s@.subrange(
            from as int,
            to - 1,
        ));
        to -= 1;
    }
    (from, to)
}

/// Reads a line of a corpus: the bytes of a block in base 16, with any space
/// around them.
pub fn unhex(s: &str) -> (r: Option<Vec<u8>>)
    ensures
        r is Some <==> is_hex(s@),
        r matches Some(b) ==> b@ == from_hex(s@),
{
    let mut line: Vec<char> = Vec::new();
    for c in it: s.chars()
        invariant
            it.seq() == s@,
            line@ == s@.take(it.index() as int),
    {
        line.push(c);
    }
    assert(line@ =~= s@);
    let (from, to) = trim(&line);
    let ghost t = trimmed(s@);
    if (to - from) % 2 != 0 {
        return None;
    }
    let mut out: Vec<u8> = Vec::new();
    let n: usize = (to - from) / 2;
    let mut i: usize = 0;
    while i < n
        invariant
            i <= n,
            from + 2 * n == to,
            to <= line@.len(),
            t == trimmed(s@),
            t == line@.subrange(from as int, to as int),
            out@.len() == i,
            forall|j: int| 0 <= j < i ==> #[trigger] hex_pair(t, j) == Some(out@[j]),
        decreases n - i,
    {
        match byte_of_pair(line[from + 2 * i], line[from + 2 * i + 1]) {
            Some(b) => out.push(b),
            None => {
                assert(hex_pair(t, i as int) is None);
                return None;
            },
        }
        i += 1;
    }
    assert(out@ =~= from_hex(s@)) by {
        assert forall|j: int| 0 <= j < n implies out@[j] == from_hex(s@)[j] by {
            assert(hex_pair(t, j) == Some(out@[j]));
        }
    }
    Some(out)
}

/// The order of hits in a line: by where they end, then by identifier.
pub open spec fn hit_le(a: (u64, u32), b: (u64, u32)) -> bool {
    a.0 < b.0 || (a.0 == b.0 && a.1 <= b.1)
}

pub open spec fn sorted_hits(s: Seq<(u64, u32)>) -> bool {
    forall|i: int, j: int|
        #![trigger s[i], s[j]]
        0 <= i <= j < s.len() ==> hit_le(s[i], s[j])
}

/// Where to put a hit among sorted ones: behind those that are not after it.
fn place(hits: &Vec<(u64, u32)>, item: (u64, u32)) -> (at: usize)
    requires
        sorted_hits(hits@),
    ensures
        at <= hits@.len(),
        forall|j: int| 0 <= j < at ==> hit_le(#[trigger] hits@[j], item),
        forall|j: int| at <= j < hits@.len() ==> hit_le(item, #[trigger] hits@[j]),
{
    let mut at: usize = hits.len();
    while at > 0
        invariant
            at <= hits@.len(),
            sorted_hits(hits@),
            forall|j: int| at <= j < hits@.len() ==> hit_le(item, #[trigger] hits@[j]),
        decreases at,
    {
        let prev: (u64, u32) = hits[at - 1];
        if prev.0 < item.0 || (prev.0 == item.0 && prev.1 <= item.1) {
            return at;
        }
        at -= 1;
    }
    at
}

/// Puts hits in the order of a line.
pub fn sort_hits(hits: &[(u64, u32)]) -> (r: Vec<(u64, u32)>)
    ensures
        sorted_hits(r@),
        r@.to_multiset() == hits@.to_multiset(),
{
    let mut out: Vec<(u64, u32)> = Vec::new();
    let mut k: usize = 0;
    assert(hits@.take(0) =~= out@);
    while k < hits.len()
        invariant
            k <= hits@.len(),
            out@.len() == k,
            sorted_hits(out@),
            out@.to_multiset() == hits@.take(k as int).to_multiset(),
        decreases hits@.len() - k,
    {
        let at: usize = place(&out, hits[k]);
        let ghost before = out@;
        out.insert(at, hits[k]);
        proof {
            vstd::seq_lib::to_multiset_insert(before, at as int, hits@[k as int]);
            vstd::seq_lib::to_multiset_build(hits@.take(k as int), hits@[k as int]);
            assert(hits@.take(k + 1) =~= hits@.take(k as int).push(hits@[k as int]));
        }
        k += 1;
    }
    assert(hits@.take(k as int) =~= hits@);
    out
}

/// The hits of a line as text: each the identifier and where it ends.
pub open spec fn hits_text(hits: Seq<(u64, u32)>) -> Seq<char>
    decreases hits.len(),
{
    if hits.len() == 0 {
        Seq::empty()
    } else {
        hits_text(hits.drop_last()) + " "@ + decimal(hits.last().1 as nat) + "@"@ + decimal(
            hits.last().0 as nat,
        )
    }
}

/// The line for block `index` of a corpus.
pub fn record_line(index: u64, hits: &[(u64, u32)]) -> (r: String)
    ensures
        r@ == decimal(index as nat) + ":"@ + hits_text(hits@),
{
    let mut out = String::from_str("");
    proof {
        reveal_strlit("");
    }
    push_decimal(&mut out, index);
    out.append(":");
    let ghost head = decimal(index as nat) + ":"@;
    let mut k: usize = 0;
    assert(hits@.take(0) =~= Seq::empty());
    assert(out@ =~= head + hits_text(hits@.take(0)));
    while k < hits.len()
        invariant
            k <= hits@.len(),
            out@ == head + hits_text(hits@.take(k as int)),
        decreases hits@.len() - k,
    {
        let hit: (u64, u32) = hits[k];
        out.append(" ");
        push_decimal(&mut out, hit.1 as u64);
        out.append("@");
        push_decimal(&mut out, hit.0);
        k += 1;
        assert(hits@.take(k as int).drop_last() =~= hits@.take(k - 1));
        assert(out@ =~= head + hits_text(hits@.take(k as int)));
    }
    assert(hits@.take(k as int) =~= hits@);
    out
}

/// A character is a digit in base 16, in either case.
pub open spec fn writes_digit(c: char, d: int) -> bool {
    ||| (0 <= d < 10 && c as u32 == 48 + d)
    ||| (10 <= d < 16 && (c as u32 == 97 + (d - 10) || c as u32 == 65 + (d - 10)))
}

/// Two characters for each byte, the high digit first.
pub open spec fn writes_bytes(text: Seq<char>, bytes: Seq<u8>) -> bool {
    &&& text.len() == 2 * bytes.len()
    &&& forall|i: int|
        0 <= i < bytes.len() ==> writes_digit(text[2 * i], (#[trigger] bytes[i]) as int / 16)
            && writes_digit(text[2 * i + 1], bytes[i] as int % 16)
}

proof fn lemma_trim_start(space: Seq<char>, rest: Seq<char>)
    requires
        forall|i: int| 0 <= i < space.len() ==> is_space(#[trigger] space[i]),
        rest.len() > 0 ==> !is_space(rest[0]),
    ensures
        trim_start(space + rest) == rest,
    decreases space.len(),
{
    let s = space + rest;
    if space.len() > 0 {
        assert(s[0] == space[0]);
        assert(s.drop_first() =~= space.drop_first() + rest);
        lemma_trim_start(space.drop_first(), rest);
    } else {
        assert(s =~= rest);
    }
}

proof fn lemma_trim_end(rest: Seq<char>, space: Seq<char>)
    requires
        forall|i: int| 0 <= i < space.len() ==> is_space(#[trigger] space[i]),
        rest.len() > 0 ==> !is_space(rest.last()),
    ensures
        trim_end(rest + space) == rest,
    decreases space.len(),
{
    let s = rest + space;
    if space.len() > 0 {
        assert(s.last() == space.last());
        assert(s.drop_last() =~= rest + space.drop_last());
        lemma_trim_end(rest, space.drop_last());
    } else {
        assert(s =~= rest);
    }
}

/// A line that writes bytes, with any space around them, gives back those
/// bytes.
pub proof fn line_gives_back_its_bytes(
    front: Seq<char>,
    text: Seq<char>,
    back: Seq<char>,
    bytes: Seq<u8>,
)
    requires
        forall|i: int| 0 <= i < front.len() ==> is_space(#[trigger] front[i]),
        forall|i: int| 0 <= i < back.len() ==> is_space(#[trigger] back[i]),
        writes_bytes(text, bytes),
        bytes.len() > 0,
    ensures
        is_hex(front + text + back),
        from_hex(front + text + back) == bytes,
{
    let n = bytes.len() as int;
    let first: int = 0;
    assert(writes_digit(text[2 * first], bytes[first] as int / 16));
    assert(writes_digit(text[2 * (n - 1) + 1], bytes[n - 1] as int % 16));
    assert(front + text + back =~= front + (text + back));
    assert((text + back)[0] == text[0]);
    lemma_trim_start(front, text + back);
    lemma_trim_end(text, back);
    assert forall|i: int| 0 <= i < n implies #[trigger] hex_pair(text, i) == Some(bytes[i]) by {
        assert(writes_digit(text[2 * i], bytes[i] as int / 16));
        assert(writes_digit(text[2 * i + 1], bytes[i] as int % 16));
    }
    assert(from_hex(front + text + back) =~= bytes);
}

/// Hits in order: an earlier one does not end later, and of two that end at
/// one place the earlier one does not have the greater identifier.
pub proof fn hits_are_in_order(s: Seq<(u64, u32)>, i: int, j: int)
    requires
        sorted_hits(s),
        0 <= i < j < s.len(),
    ensures
        s[i].0 <= s[j].0,
        s[i].0 == s[j].0 ==> s[i].1 <= s[j].1,
{
}

} // verus!
