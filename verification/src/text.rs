//! Decimal and hexadecimal renderings of numbers, and UTF-8 decoding of byte
//! payloads, for log lines.

use vstd::prelude::*;

verus! {

/// The text of one digit `d` (`0..16`), upper-case for `10..16`.
pub open spec fn digit_text(d: nat) -> Seq<char> {
    if d == 0 {
        "0"@
    } else if d == 1 {
        "1"@
    } else if d == 2 {
        "2"@
    } else if d == 3 {
        "3"@
    } else if d == 4 {
        "4"@
    } else if d == 5 {
        "5"@
    } else if d == 6 {
        "6"@
    } else if d == 7 {
        "7"@
    } else if d == 8 {
        "8"@
    } else if d == 9 {
        "9"@
    } else if d == 10 {
        "A"@
    } else if d == 11 {
        "B"@
    } else if d == 12 {
        "C"@
    } else if d == 13 {
        "D"@
    } else if d == 14 {
        "E"@
    } else {
        "F"@
    }
}

/// The decimal text of `n`, without leading zeros.
pub open spec fn dec_text(n: nat) -> Seq<char>
    decreases n,
{
    if n < 10 {
        digit_text(n)
    } else {
        dec_text(n / 10) + digit_text(n % 10)
    }
}

/// The two-digit upper-case hexadecimal text of `x`.
pub open spec fn hex2_text(x: u8) -> Seq<char> {
    digit_text((x / 16) as nat) + digit_text((x % 16) as nat)
}

fn digit_str(d: u8) -> (s: &'static str)
    requires
        d < 16,
    ensures
        s@ == digit_text(d as nat),
{
    match d {
        0 => "0",
        1 => "1",
        2 => "2",
        3 => "3",
        4 => "4",
        5 => "5",
        6 => "6",
        7 => "7",
        8 => "8",
        9 => "9",
        10 => "A",
        11 => "B",
        12 => "C",
        13 => "D",
        14 => "E",
        _ => "F",
    }
}

/// Appends the decimal text of `n` to `s`.
pub(crate) fn push_dec(s: &mut String, n: u32)
    ensures
        final(s)@ == old(s)@ + dec_text(n as nat),
    decreases n,
{
    if n >= 10 {
        push_dec(s, n / 10);
    }
    s.append(digit_str((n % 10) as u8));
    proof {
        if n < 10 {
            assert(n % 10 == n);
        }
    }
}

/// Appends the two-digit upper-case hexadecimal text of `x` to `s`.
pub(crate) fn push_hex2(s: &mut String, x: u8)
    ensures
        final(s)@ == old(s)@ + hex2_text(x),
{
    s.append(digit_str(x / 16));
    s.append(digit_str(x % 16));
}

/// `core::str::from_utf8`: the text that `bytes` encode, when they are valid
/// UTF-8.
#[verifier::external_body]
pub(crate) fn utf8_text(bytes: &[u8]) -> (r: Option<&str>)
    ensures
        r is Some <==> vstd::utf8::valid_utf8(bytes@),
        r matches Some(t) ==> t@ == vstd::utf8::decode_utf8(bytes@),
{
    core::str::from_utf8(bytes).ok()
}


/// Different hex digits are different characters.
pub proof fn lemma_digits_differ(a: nat, b: nat)
    requires
        a < 16,
        b < 16,
        a != b,
    ensures
        digit_text(a).len() == 1,
        digit_text(b).len() == 1,
        digit_text(a)[0] != digit_text(b)[0],
{
    reveal_strlit("0");
    reveal_strlit("1");
    reveal_strlit("2");
    reveal_strlit("3");
    reveal_strlit("4");
    reveal_strlit("5");
    reveal_strlit("6");
    reveal_strlit("7");
    reveal_strlit("8");
    reveal_strlit("9");
    reveal_strlit("A");
    reveal_strlit("B");
    reveal_strlit("C");
    reveal_strlit("D");
    reveal_strlit("E");
    reveal_strlit("F");
}

/// Two hex digits name the byte.
pub proof fn lemma_hex2_differ(x: u8, y: u8)
    requires
        x != y,
    ensures
        hex2_text(x).len() == 2,
        hex2_text(y).len() == 2,
        hex2_text(x) != hex2_text(y),
{
    if x / 16 != y / 16 {
        lemma_digits_differ((x / 16) as nat, (y / 16) as nat);
        lemma_digits_differ((x % 16) as nat, if x % 16 == 0 { 1 } else { 0 });
        lemma_digits_differ((y % 16) as nat, if y % 16 == 0 { 1 } else { 0 });
        assert(hex2_text(x)[0] != hex2_text(y)[0]);
    } else {
        assert(x % 16 != y % 16);
        lemma_digits_differ((x % 16) as nat, (y % 16) as nat);
        lemma_digits_differ((x / 16) as nat, if x / 16 == 0 { 1 } else { 0 });
        assert(hex2_text(x)[1] != hex2_text(y)[1]);
    }
}


} // verus!
