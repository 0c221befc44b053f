//! The text a report is made of: characters appended to a string, and
//! integers written in decimal.

use vstd::prelude::*;

verus! {

broadcast use vstd::string::group_string_axioms;

/// Append one character: `String::push`.
#[verifier::external_body]
pub fn push_char(s: &mut String, c: char)
    ensures
        final(s)@ == old(s)@.push(c),
{
    s.push(c);
}

/// The characters of a string.
pub fn chars_of(text: &str) -> (r: Vec<char>)
    ensures
        r@ == text@,
{
    let mut out: Vec<char> = Vec::new();
    for c in it: text.chars()
        invariant
            out@ == it.seq().take(it.index() as int),
    {
        out.push(c);
    }
    assert(out@ =~= text@);
    out
}

/// Append a string.
pub fn push_str(s: &mut String, text: &str)
    ensures
        final(s)@ == old(s)@ + text@,
{
    let chars = chars_of(text);
    let ghost start = s@;
    let mut i: usize = 0;
    while i < chars.len()
        invariant
            i <= chars@.len(),
            chars@ == text@,
            s@ == start + chars@.take(i as int),
        decreases chars@.len() - i,
    {
        push_char(s, chars[i]);
        i += 1;
        assert(s@ =~= start + chars@.take(i as int));
    }
    assert(chars@.take(chars@.len() as int) =~= chars@);
}

/// The digit character of `d < 10`.
pub open spec fn digit_char(d: nat) -> char {
    if d == 0 {
        '0'
    } else if d == 1 {
        '1'
    } else if d == 2 {
        '2'
    } else if d == 3 {
        '3'
    } else if d == 4 {
        '4'
    } else if d == 5 {
        '5'
    } else if d == 6 {
        '6'
    } else if d == 7 {
        '7'
    } else if d == 8 {
        '8'
    } else {
        '9'
    }
}

/// The decimal form of a natural number, without leading zeros.
pub open spec fn dec(v: nat) -> Seq<char>
    decreases v,
{
    if v < 10 {
        seq![digit_char(v)]
    } else {
        dec(v / 10) + seq![digit_char(v % 10)]
    }
}

/// The decimal form of an integer, with a leading `-` when negative.
pub open spec fn dec_int(v: int) -> Seq<char> {
    if v < 0 {
        seq!['-'] + dec((-v) as nat)
    } else {
        dec(v as nat)
    }
}

pub fn digit(d: u64) -> (r: char)
    requires
        d < 10,
    ensures
        r == digit_char(d as nat),
{
    if d == 0 {
        '0'
    } else if d == 1 {
        '1'
    } else if d == 2 {
        '2'
    } else if d == 3 {
        '3'
    } else if d == 4 {
        '4'
    } else if d == 5 {
        '5'
    } else if d == 6 {
        '6'
    } else if d == 7 {
        '7'
    } else if d == 8 {
        '8'
    } else {
        '9'
    }
}

/// Append the decimal form of a natural number.
pub fn push_decimal(s: &mut String, v: u64)
    ensures
        final(s)@ == old(s)@ + dec(v as nat),
    decreases v,
{
    if v >= 10 {
        push_decimal(s, v / 10);
    }
    push_char(s, digit(v % 10));
    assert(final(s)@ =~= old(s)@ + dec(v as nat)) by {
        if v >= 10 {
            assert(dec(v as nat) == dec((v / 10) as nat) + seq![digit_char((v % 10) as nat)]);
        }
    }
}

/// Append the decimal form of an integer, with a leading `-` when negative.
pub fn push_signed(s: &mut String, v: i64)
    ensures
        final(s)@ == old(s)@ + dec_int(v as int),
{
    if v < 0 {
        push_char(s, '-');
        let m: u64 = (-(v as i128)) as u64;
        push_decimal(s, m);
        assert(final(s)@ =~= old(s)@ + dec_int(v as int));
    } else {
        push_decimal(s, v as u64);
    }
}

/// The line `key=value`.
pub fn key_value(key: &str, v: u64) -> (r: String)
    ensures
        r@ == key@ + seq!['='] + dec(v as nat),
{
    let mut out = String::new();
    push_str(&mut out, key);
    push_char(&mut out, '=');
    push_decimal(&mut out, v);
    assert(out@ =~= key@ + seq!['='] + dec(v as nat));
    out
}

/// The line `key=text`.
pub fn key_text(key: &str, text: &str) -> (r: String)
    ensures
        r@ == key@ + seq!['='] + text@,
{
    let mut out = String::new();
    push_str(&mut out, key);
    push_char(&mut out, '=');
    push_str(&mut out, text);
    assert(out@ =~= key@ + seq!['='] + text@);
    out
}


/// The line `key=value` behind a prefix.
pub fn prefixed_value(prefix: &str, key: &str, v: u64) -> (r: String)
    ensures
        r@ == prefix@ + key@ + seq!['='] + dec(v as nat),
{
    let mut out = String::new();
    push_str(&mut out, prefix);
    push_str(&mut out, key);
    push_char(&mut out, '=');
    push_decimal(&mut out, v);
    assert(out@ =~= prefix@ + key@ + seq!['='] + dec(v as nat));
    out
}


/// An ASCII control character, which a quoted text shows by its code.
pub open spec fn is_control(c: char) -> bool {
    (c as nat) < 0x20 || c as nat == 0x7f
}

/// The lowercase hexadecimal digits.
pub open spec fn hex_digits() -> Seq<char> {
    seq!['0', '1', '2', '3', '4', '5', '6', '7', '8', '9', 'a', 'b', 'c', 'd', 'e', 'f']
}

/// A code below `0x80` in hexadecimal, without leading zeros.
pub open spec fn hex_text(v: nat) -> Seq<char> {
    if v < 16 {
        seq![hex_digits()[v as int]]
    } else {
        seq![hex_digits()[(v / 16) as int], hex_digits()[(v % 16) as int]]
    }
}

/// A character's code is its value.
pub proof fn lemma_char_code(c: char)
    ensures
        (c as u32) as nat == c as nat,
{
    assert(c as nat <= 0x10FFFF);
}

/// Whether a character is an ASCII control character.
pub fn control(c: char) -> (r: bool)
    ensures
        r == is_control(c),
{
    proof {
        lemma_char_code(c);
    }
    let v = c as u32;
    v < 0x20 || v == 0x7f
}

/// Append `\u{..}` with a control character's code in hexadecimal.
pub fn push_code_escape(out: &mut String, c: char)
    requires
        is_control(c),
    ensures
        final(out)@ == old(out)@ + seq!['\\', 'u', '{'] + hex_text(c as nat) + seq!['}'],
{
    proof {
        lemma_char_code(c);
    }
    let ghost before = out@;
    push_char(out, '\\');
    push_char(out, 'u');
    push_char(out, '{');
    let v = c as u32;
    let hex = ['0', '1', '2', '3', '4', '5', '6', '7', '8', '9', 'a', 'b', 'c', 'd', 'e', 'f'];
    assert(hex@ =~= hex_digits());
    let ghost mid = out@;
    if v < 16 {
        push_char(out, hex[v as usize]);
        assert(out@ =~= mid + hex_text(c as nat));
    } else {
        push_char(out, hex[(v / 16) as usize]);
        push_char(out, hex[(v % 16) as usize]);
        assert(out@ =~= mid + hex_text(c as nat));
    }
    push_char(out, '}');
    assert(out@ =~= before + seq!['\\', 'u', '{'] + hex_text(c as nat) + seq!['}']);
}

} // verus!
