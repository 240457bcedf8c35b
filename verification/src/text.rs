use vstd::prelude::*;

verus! {

/// Whether a character has the Unicode property `Alphabetic`.
pub uninterp spec fn is_alphabetic(c: char) -> bool;

/// `char::is_alphabetic`: whether the character has the Unicode property
/// `Alphabetic`, which depends on the character alone.
#[verifier::external_body]
fn alphabetic(c: char) -> (res: bool)
    ensures
        res == is_alphabetic(c),
{
    c.is_alphabetic()
}

/// A letter of the Latin alphabet without diacritics, in either case.
pub open spec fn is_name(c: char) -> bool {
    ('a' <= c && c <= 'z') || ('A' <= c && c <= 'Z')
}

/// A letter: within ASCII the letters of the Latin alphabet, beyond ASCII
/// the characters with the Unicode property `Alphabetic`.
pub open spec fn is_letter(c: char) -> bool {
    if (c as u32) < 0x80 {
        is_name(c)
    } else {
        is_alphabetic(c)
    }
}

/// Whether a character is a letter.
pub(crate) fn letter(c: char) -> (res: bool)
    ensures
        res == is_letter(c),
{
    if (c as u32) < 0x80 {
        ('a' <= c && c <= 'z') || ('A' <= c && c <= 'Z')
    } else {
        alphabetic(c)
    }
}

/// `String::push`: the character is appended to the end of the string.
#[verifier::external_body]
pub(crate) fn push_char(text: &mut String, c: char)
    ensures
        final(text)@ == old(text)@.push(c),
{
    text.push(c)
}

/// The decimal digit for a number below ten.
pub open spec fn digit(d: nat) -> char {
    if d == 0 {
        '0'
    } else if d == 1 {
        '1'
    } else if d == 2 {
        '2'
    } else if d == 3 {
        '3'
    } else if d == 4 {
        '4'
    } else if d == 5 {
        '5'
    } else if d == 6 {
        '6'
    } else if d == 7 {
        '7'
    } else if d == 8 {
        '8'
    } else {
        '9'
    }
}

/// A number as it is written in decimal, without leading zeros.
pub open spec fn decimal(n: nat) -> Seq<char>
    decreases n,
{
    if n < 10 {
        seq![digit(n)]
    } else {
        decimal(n / 10).push(digit(n % 10))
    }
}

/// The decimal digit for a number below ten.
fn digit_of(d: u8) -> (c: char)
    requires
        d < 10,
    ensures
        c == digit(d as nat),
{
    if d == 0 {
        '0'
    } else if d == 1 {
        '1'
    } else if d == 2 {
        '2'
    } else if d == 3 {
        '3'
    } else if d == 4 {
        '4'
    } else if d == 5 {
        '5'
    } else if d == 6 {
        '6'
    } else if d == 7 {
        '7'
    } else if d == 8 {
        '8'
    } else {
        '9'
    }
}

/// Appends a number, written in decimal, to `out`.
pub fn write_decimal(n: u8, out: &mut String)
    ensures
        final(out)@ == old(out)@ + decimal(n as nat),
{
    reveal_with_fuel(decimal, 3);
    if n >= 100 {
        push_char(out, digit_of(n / 100));
    }
    if n >= 10 {
        push_char(out, digit_of((n / 10) % 10));
    }
    push_char(out, digit_of(n % 10));
    assert(out@ == old(out)@ + decimal(n as nat));
}

} // verus!
