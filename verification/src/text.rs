//! Helpers for byte strings and for numbers in decimal digits.
//!
//! The player's output is handled as raw bytes, and stated over `Seq<u8>`; ASCII
//! literals are brought in through [`ascii_bytes`].

use vstd::prelude::*;
use vstd::slice::*;
use vstd::string::*;
use vstd::utf8::*;

verus! {

/// The bytes of a text made of ASCII characters only: one byte per character.
pub open spec fn ascii_bytes(text: Seq<char>) -> Seq<u8> {
    Seq::new(text.len(), |i: int| text[i] as u8)
}

/// `text` begins with `prefix`.
pub open spec fn starts_with(text: Seq<u8>, prefix: Seq<u8>) -> bool {
    prefix.len() <= text.len() && text.subrange(0, prefix.len() as int) == prefix
}

/// `text` ends with `suffix`.
pub open spec fn ends_with(text: Seq<u8>, suffix: Seq<u8>) -> bool {
    suffix.len() <= text.len() && text.subrange(text.len() - suffix.len(), text.len() as int)
        == suffix
}

/// ASCII whitespace: space, tab, line feed, vertical tab, form feed, carriage return.
pub open spec fn is_blank(byte: u8) -> bool {
    byte == 0x20 || (0x09 <= byte && byte <= 0x0d)
}

/// `text` without its leading blanks.
pub open spec fn trim_start(text: Seq<u8>) -> Seq<u8>
    decreases text.len(),
{
    if text.len() > 0 && is_blank(text[0]) {
        trim_start(text.drop_first())
    } else {
        text
    }
}

/// `text` without its trailing blanks.
pub open spec fn trim_end(text: Seq<u8>) -> Seq<u8>
    decreases text.len(),
{
    if text.len() > 0 && is_blank(text.last()) {
        trim_end(text.drop_last())
    } else {
        text
    }
}

/// `text` without its leading and trailing blanks.
pub open spec fn trim(text: Seq<u8>) -> Seq<u8> {
    trim_end(trim_start(text))
}

/// The bytes of an ASCII string literal.
pub(crate) fn literal_bytes(text: &'static str) -> (bytes: &'static [u8])
    requires
        is_ascii_chars(text@),
    ensures
        bytes@ == ascii_bytes(text@),
{
    proof {
        is_ascii_spec_bytes(text);
    }
    text.as_bytes()
}

/// Compares `count` bytes of `left`, from `left_from` on, with as many of `right`,
/// from `right_from` on.
pub(crate) fn same_range(
    left: &[u8],
    left_from: usize,
    right: &[u8],
    right_from: usize,
    count: usize,
) -> (same: bool)
    requires
        left_from + count <= left@.len(),
        right_from + count <= right@.len(),
    ensures
        same == (left@.subrange(left_from as int, left_from + count) == right@.subrange(
            right_from as int,
            right_from + count,
        )),
{
    let ghost l = left@.subrange(left_from as int, left_from + count);
    let ghost r = right@.subrange(right_from as int, right_from + count);
    let left_len = left.len();
    let right_len = right.len();
    let mut i: usize = 0;
    while i < count
        invariant
            i <= count,
            left_len == left@.len(),
            right_len == right@.len(),
            left_from + count <= left_len,
            right_from + count <= right_len,
            l == left@.subrange(left_from as int, left_from + count),
            r == right@.subrange(right_from as int, right_from + count),
            forall|k: int| 0 <= k < i ==> l[k] == r[k],
        decreases count - i,
    {
        if left[left_from + i] != right[right_from + i] {
            assert(l[i as int] != r[i as int]);
            return false;
        }
        i += 1;
    }
    assert(l =~= r);
    true
}

/// Whether `text` begins with `prefix`.
pub fn has_prefix(text: &[u8], prefix: &[u8]) -> (found: bool)
    ensures
        found == starts_with(text@, prefix@),
{
    if prefix.len() > text.len() {
        return false;
    }
    assert(prefix@.subrange(0, prefix@.len() as int) =~= prefix@);
    same_range(text, 0, prefix, 0, prefix.len())
}

/// Whether `text` ends with `suffix`.
pub fn has_suffix(text: &[u8], suffix: &[u8]) -> (found: bool)
    ensures
        found == ends_with(text@, suffix@),
{
    if suffix.len() > text.len() {
        return false;
    }
    assert(suffix@.subrange(0, suffix@.len() as int) =~= suffix@);
    same_range(text, text.len() - suffix.len(), suffix, 0, suffix.len())
}

/// Whether two byte strings are equal.
pub fn same_bytes(left: &[u8], right: &[u8]) -> (same: bool)
    ensures
        same == (left@ == right@),
{
    if left.len() != right.len() {
        return false;
    }
    assert(left@.subrange(0, left@.len() as int) =~= left@);
    assert(right@.subrange(0, right@.len() as int) =~= right@);
    same_range(left, 0, right, 0, left.len())
}

/// Whether a byte is ASCII whitespace.
pub fn blank(byte: u8) -> (r: bool)
    ensures
        r == is_blank(byte),
{
    byte == 0x20 || (0x09 <= byte && byte <= 0x0d)
}

/// The part of `text` between its leading and its trailing blanks.
pub fn trimmed(text: &[u8]) -> (inner: &[u8])
    ensures
        inner@ == trim(text@),
{
    let len = text.len();
    let mut start: usize = 0;
    assert(text@.subrange(0, len as int) =~= text@);
    while start < len && blank(text[start])
        invariant
            start <= len,
            len == text@.len(),
            trim_start(text@) == trim_start(text@.subrange(start as int, len as int)),
        decreases len - start,
    {
        assert(text@.subrange(start as int, len as int).drop_first() =~= text@.subrange(
            start + 1,
            len as int,
        ));
        start += 1;
    }
    assert(trim_start(text@) == text@.subrange(start as int, len as int));
    let mut end: usize = len;
    while end > start && blank(text[end - 1])
        invariant
            start <= end <= len,
            len == text@.len(),
            trim(text@) == trim_end(text@.subrange(start as int, end as int)),
        decreases end - start,
    {
        assert(text@.subrange(start as int, end as int).drop_last() =~= text@.subrange(
            start as int,
            end - 1,
        ));
        end -= 1;
    }
    slice_subrange(text, start, end)
}

/// The character of a decimal digit.
pub open spec fn digit_char(digit: nat) -> char {
    if digit == 0 {
        '0'
    } else if digit == 1 {
        '1'
    } else if digit == 2 {
        '2'
    } else if digit == 3 {
        '3'
    } else if digit == 4 {
        '4'
    } else if digit == 5 {
        '5'
    } else if digit == 6 {
        '6'
    } else if digit == 7 {
        '7'
    } else if digit == 8 {
        '8'
    } else {
        '9'
    }
}

/// A number in decimal digits, without leading zeros.
pub open spec fn decimal_text(number: nat) -> Seq<char>
    decreases number,
{
    if number < 10 {
        seq![digit_char(number)]
    } else {
        decimal_text(number / 10).push(digit_char(number % 10))
    }
}

/// The one-character text of a decimal digit.
fn digit_text(digit: usize) -> (text: &'static str)
    requires
        digit < 10,
    ensures
        text@ == seq![digit_char(digit as nat)],
{
    proof {
        reveal_strlit("0");
        reveal_strlit("1");
        reveal_strlit("2");
        reveal_strlit("3");
        reveal_strlit("4");
        reveal_strlit("5");
        reveal_strlit("6");
        reveal_strlit("7");
        reveal_strlit("8");
        reveal_strlit("9");
    }
    let text = if digit == 0 {
        "0"
    } else if digit == 1 {
        "1"
    } else if digit == 2 {
        "2"
    } else if digit == 3 {
        "3"
    } else if digit == 4 {
        "4"
    } else if digit == 5 {
        "5"
    } else if digit == 6 {
        "6"
    } else if digit == 7 {
        "7"
    } else if digit == 8 {
        "8"
    } else {
        "9"
    };
    assert(text@ =~= seq![digit_char(digit as nat)]);
    text
}

/// Writes a number in decimal digits behind `text`.
pub(crate) fn append_decimal(text: &mut String, number: usize)
    ensures
        final(text)@ == old(text)@ + decimal_text(number as nat),
    decreases number,
{
    if number >= 10 {
        append_decimal(text, number / 10);
    }
    text.append(digit_text(number % 10));
    assert(text@ =~= old(text)@ + decimal_text(number as nat));
}

} // verus!
