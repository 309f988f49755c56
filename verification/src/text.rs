//! Small text helpers used by the display methods.
use vstd::prelude::*;
use crate::coord::push_char;

verus! {

/// The decimal digit character of `d` (`0 <= d < 10`).
pub open spec fn digit_char(d: nat) -> char {
    (48 + d) as char
}

/// The decimal representation of `n`, without leading zeros.
pub open spec fn spec_decimal(n: nat) -> Seq<char>
    decreases n,
{
    if n < 10 {
        seq![digit_char(n)]
    } else {
        spec_decimal(n / 10).push(digit_char(n % 10))
    }
}

/// Appends the decimal representation of `n`.
pub fn push_decimal(out: &mut String, n: usize)
    ensures
        final(out)@ == old(out)@ + spec_decimal(n as nat),
    decreases n,
{
    if n >= 10 {
        push_decimal(out, n / 10);
    }
    let d: u8 = (n % 10) as u8;
    let c: char = (48u8 + d) as char;
    push_char(out, c);
    proof {
        assert(c == digit_char((n % 10) as nat));
    }
}

/// Appends a string slice.
pub fn push_str_seq(out: &mut String, s: &str)
    ensures
        final(out)@ == old(out)@ + s@,
{
    out.append(s);
}

/// Appends every character of `chars`.
pub fn push_char_seq(out: &mut String, chars: &Vec<char>)
    ensures
        final(out)@ == old(out)@ + chars@,
{
    let ghost start = out@;
    let mut i: usize = 0;
    while i < chars.len()
        invariant
            i <= chars.len(),
            out@ == start + chars@.take(i as int),
        decreases chars.len() - i,
    {
        push_char(out, chars[i]);
        proof {
            assert(chars@.take(i + 1) == chars@.take(i as int).push(chars@[i as int]));
        }
        i = i + 1;
    }
    proof {
        assert(chars@.take(chars@.len() as int) == chars@);
    }
}

} // verus!

verus! {

/// The upper-case hexadecimal digit character of `d` (`0 <= d < 16`).
pub open spec fn hex_digit_char(d: nat) -> char {
    if d < 10 {
        (48 + d) as char
    } else {
        (55 + d) as char
    }
}

/// The four-digit upper-case hexadecimal representation of `v`.
pub open spec fn spec_hex4(v: nat) -> Seq<char> {
    seq![
        hex_digit_char((v / 4096) % 16),
        hex_digit_char((v / 256) % 16),
        hex_digit_char((v / 16) % 16),
        hex_digit_char(v % 16),
    ]
}

/// The character of one upper-case hexadecimal digit.
fn hex_char(d: u16) -> (r: char)
    requires
        d < 16,
    ensures
        r == hex_digit_char(d as nat),
{
    if d < 10 {
        ((48u16 + d) as u8) as char
    } else {
        ((55u16 + d) as u8) as char
    }
}

/// Appends `v` as four upper-case hexadecimal digits.
pub fn push_hex4(out: &mut String, v: u16)
    ensures
        final(out)@ == old(out)@ + spec_hex4(v as nat),
{
    let ghost start = out@;
    push_char(out, hex_char((v / 4096) % 16));
    push_char(out, hex_char((v / 256) % 16));
    push_char(out, hex_char((v / 16) % 16));
    push_char(out, hex_char(v % 16));
    assert(out@ =~= start + spec_hex4(v as nat));
}

} // verus!
