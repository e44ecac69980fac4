//! Numbers as text.

use vstd::prelude::*;
use vstd::string::StringExecFns;

verus! {

/// A digit, in base 10 or 16.
pub open spec fn digit(d: int) -> Seq<char> {
    if d == 0 {
        "0"@
    } else if d == 1 {
        "1"@
    } else if d == 2 {
        "2"@
    } else if d == 3 {
        "3"@
    } else if d == 4 {
        "4"@
    } else if d == 5 {
        "5"@
    } else if d == 6 {
        "6"@
    } else if d == 7 {
        "7"@
    } else if d == 8 {
        "8"@
    } else if d == 9 {
        "9"@
    } else if d == 10 {
        "a"@
    } else if d == 11 {
        "b"@
    } else if d == 12 {
        "c"@
    } else if d == 13 {
        "d"@
    } else if d == 14 {
        "e"@
    } else {
        "f"@
    }
}

/// A number in base 10.
pub open spec fn decimal(n: nat) -> Seq<char>
    decreases n,
{
    if n < 10 {
        digit(n as int)
    } else {
        decimal(n / 10) + digit((n % 10) as int)
    }
}

/// The last `k` digits of a number in base 16.
pub open spec fn hex_digits(n: nat, k: nat) -> Seq<char>
    decreases k,
{
    if k == 0 {
        Seq::empty()
    } else {
        hex_digits(n / 16, (k - 1) as nat) + digit((n % 16) as int)
    }
}

/// A 32-bit number in base 16, with all its digits and a prefix.
pub open spec fn hex(n: u32) -> Seq<char> {
    "0x"@ + hex_digits(n as nat, 8)
}

fn digit_text(d: u8) -> (r: &'static str)
    requires
        d < 16,
    ensures
        r@ == digit(d as int),
{
    match d {
        0 => "0",
        1 => "1",
        2 => "2",
        3 => "3",
        4 => "4",
        5 => "5",
        6 => "6",
        7 => "7",
        8 => "8",
        9 => "9",
        10 => "a",
        11 => "b",
        12 => "c",
        13 => "d",
        14 => "e",
        _ => "f",
    }
}

/// Writes a number in base 10 behind a text.
pub fn push_decimal(out: &mut String, n: u64)
    ensures
        final(out)@ == old(out)@ + decimal(n as nat),
    decreases n,
{
    if n >= 10 {
        push_decimal(out, n / 10);
        assert((old(out)@ + decimal(n as nat / 10)) + digit((n % 10) as int) =~= old(out)@ + (
        decimal(n as nat / 10) + digit((n % 10) as int)));
    }
    out.append(digit_text((n % 10) as u8));
}

fn push_hex_digits(out: &mut String, n: u32, k: u32)
    requires
        k <= 8,
    ensures
        final(out)@ == old(out)@ + hex_digits(n as nat, k as nat),
    decreases k,
{
    if k > 0 {
        push_hex_digits(out, n / 16, k - 1);
        assert((old(out)@ + hex_digits(n as nat / 16, (k - 1) as nat)) + digit((n % 16) as int)
            =~= old(out)@ + (hex_digits(n as nat / 16, (k - 1) as nat) + digit((n % 16) as int)));
        out.append(digit_text((n % 16) as u8));
    } else {
        assert(old(out)@ + Seq::<char>::empty() =~= old(out)@);
    }
}

/// Writes a 32-bit number in base 16 behind a text.
pub fn push_hex(out: &mut String, n: u32)
    ensures
        final(out)@ == old(out)@ + hex(n),
{
    out.append("0x");
    push_hex_digits(out, n, 8);
    assert((old(out)@ + "0x"@) + hex_digits(n as nat, 8) =~= old(out)@ + hex(n));
}

/// The number that digits write, the first one highest.
pub open spec fn value(s: Seq<char>) -> int
    decreases s.len(),
{
    if s.len() == 0 {
        0
    } else {
        10 * value(s.drop_last()) + (s.last() as u32 - 48)
    }
}

/// A number in base 10 is written with digits, has that value, and begins with
/// a zero only if it is zero.
pub proof fn decimal_has_its_value(n: nat)
    ensures
        value(decimal(n)) == n,
        decimal(n).len() > 0,
        forall|i: int| 0 <= i < decimal(n).len() ==> '0' <= #[trigger] decimal(n)[i] <= '9',
        n > 0 ==> decimal(n)[0] != '0',
    decreases n,
{
    let d = (n % 10) as int;
    let last = digit(d);
    reveal_strlit("0");
    reveal_strlit("1");
    reveal_strlit("2");
    reveal_strlit("3");
    reveal_strlit("4");
    reveal_strlit("5");
    reveal_strlit("6");
    reveal_strlit("7");
    reveal_strlit("8");
    reveal_strlit("9");
    assert(last.len() == 1 && last[0] as u32 == 48 + d);
    if n < 10 {
        assert(decimal(n) =~= last);
        assert(last.drop_last() =~= Seq::empty());
        reveal_with_fuel(value, 2);
    } else {
        let head = decimal(n / 10);
        decimal_has_its_value(n / 10);
        assert((head + last).drop_last() =~= head);
        assert((head + last).last() == last[0]);
    }
}

} // verus!
