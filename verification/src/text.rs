//! Searching and cutting text by byte position.
//!
//! Log lines and file names are UTF-8 text, and their markers are plain
//! ASCII. Positions are therefore counted in bytes of the UTF-8 encoding, and
//! the specifications speak of a text through `spec_bytes`.

use vstd::prelude::*;
use vstd::string::*;
use vstd::utf8::*;

verus! {

/// Whether `needle` stands in `hay` at byte position `at`.
pub open spec fn occurs_at(hay: Seq<u8>, needle: Seq<u8>, at: int) -> bool {
    &&& 0 <= at
    &&& at + needle.len() <= hay.len()
    &&& hay.subrange(at, at + needle.len()) == needle
}

/// Whether `needle` stands somewhere in `hay`.
pub open spec fn occurs(hay: Seq<u8>, needle: Seq<u8>) -> bool {
    exists|at: int| occurs_at(hay, needle, at)
}

/// Whether `at` is the leftmost position at which `needle` stands in `hay`.
pub open spec fn is_first_occurrence(hay: Seq<u8>, needle: Seq<u8>, at: int) -> bool {
    &&& occurs_at(hay, needle, at)
    &&& forall|before: int| 0 <= before < at ==> !occurs_at(hay, needle, before)
}

/// The leftmost position at which `needle` stands in `hay`, if there is one.
pub open spec fn first_occurrence(hay: Seq<u8>, needle: Seq<u8>) -> Option<int> {
    if exists|at: int| is_first_occurrence(hay, needle, at) {
        Some(choose|at: int| is_first_occurrence(hay, needle, at))
    } else {
        None
    }
}

/// A leftmost position is the leftmost position.
pub proof fn lemma_first_occurrence_found(hay: Seq<u8>, needle: Seq<u8>, at: int)
    requires
        is_first_occurrence(hay, needle, at),
    ensures
        first_occurrence(hay, needle) == Some(at),
{
    let chosen = choose|at: int| is_first_occurrence(hay, needle, at);
    assert(is_first_occurrence(hay, needle, chosen));
    if chosen < at {
        assert(!occurs_at(hay, needle, chosen));
    }
    if at < chosen {
        assert(!occurs_at(hay, needle, at));
    }
}

/// Without an occurrence there is no leftmost one, and the other way round.
pub proof fn lemma_first_occurrence_none(hay: Seq<u8>, needle: Seq<u8>)
    ensures
        first_occurrence(hay, needle) is None <==> !occurs(hay, needle),
{
    if occurs(hay, needle) {
        let some = choose|at: int| occurs_at(hay, needle, at);
        lemma_leftmost_exists(hay, needle, some, 0);
    }
}

/// Scanning upwards from `from` reaches a leftmost occurrence no later than
/// at the occurrence `some`.
proof fn lemma_leftmost_exists(hay: Seq<u8>, needle: Seq<u8>, some: int, from: int)
    requires
        occurs_at(hay, needle, some),
        0 <= from <= some,
        forall|before: int| 0 <= before < from ==> !occurs_at(hay, needle, before),
    ensures
        exists|at: int| is_first_occurrence(hay, needle, at),
    decreases some - from,
{
    if occurs_at(hay, needle, from) {
        assert(is_first_occurrence(hay, needle, from));
    } else {
        lemma_leftmost_exists(hay, needle, some, from + 1);
    }
}

/// Whether `needle` stands in `hay` at `at`.
fn matches_at(hay: &[u8], needle: &[u8], at: usize) -> (same: bool)
    requires
        at + needle@.len() <= hay@.len(),
    ensures
        same == occurs_at(hay@, needle@, at as int),
{
    let length = needle.len();
    let end = hay.len();
    let mut k: usize = 0;
    while k < length
        invariant
            k <= length == needle@.len(),
            at + length <= end == hay@.len(),
            forall|j: int| 0 <= j < k ==> hay@[at + j] == needle@[j],
        decreases length - k,
    {
        if hay[at + k] != needle[k] {
            proof {
                let part = hay@.subrange(at as int, at + needle@.len());
                assert(part[k as int] == hay@[at + k]);
            }
            return false;
        }
        k = k + 1;
    }
    assert(hay@.subrange(at as int, at + needle@.len()) =~= needle@);
    true
}

/// The position of the leftmost occurrence of `needle` in `hay`.
pub fn find_bytes(hay: &[u8], needle: &[u8]) -> (found: Option<usize>)
    ensures
        match found {
            Some(at) => first_occurrence(hay@, needle@) == Some(at as int),
            None => first_occurrence(hay@, needle@) is None,
        },
{
    if needle.len() > hay.len() {
        proof {
            lemma_first_occurrence_none(hay@, needle@);
        }
        return None;
    }
    let last: usize = hay.len() - needle.len();
    let mut at: usize = 0;
    while at < last
        invariant
            last == hay@.len() - needle@.len(),
            at <= last,
            forall|before: int| 0 <= before < at ==> !occurs_at(hay@, needle@, before),
        decreases last - at,
    {
        if matches_at(hay, needle, at) {
            proof {
                lemma_first_occurrence_found(hay@, needle@, at as int);
            }
            return Some(at);
        }
        at = at + 1;
    }
    if matches_at(hay, needle, last) {
        proof {
            lemma_first_occurrence_found(hay@, needle@, last as int);
        }
        return Some(last);
    }
    proof {
        lemma_first_occurrence_none(hay@, needle@);
    }
    None
}

/// The byte position of the leftmost occurrence of `needle` in `hay`.
pub fn find(hay: &str, needle: &str) -> (found: Option<usize>)
    ensures
        match found {
            Some(at) => first_occurrence(hay.spec_bytes(), needle.spec_bytes()) == Some(at as int),
            None => first_occurrence(hay.spec_bytes(), needle.spec_bytes()) is None,
        },
{
    find_bytes(hay.as_bytes(), needle.as_bytes())
}

/// Whether `needle` stands somewhere in `hay`.
pub fn contains(hay: &str, needle: &str) -> (found: bool)
    ensures
        found == occurs(hay.spec_bytes(), needle.spec_bytes()),
{
    proof {
        lemma_first_occurrence_none(hay.spec_bytes(), needle.spec_bytes());
    }
    find(hay, needle).is_some()
}

/// The bytes of `bytes` from `from` up to `to`, where both positions lie
/// between two characters of the text that `bytes` encodes.
pub open spec fn cut_bytes(bytes: Seq<u8>, from: int, to: int) -> Option<Seq<u8>> {
    if 0 <= from <= to <= bytes.len() && is_char_boundary(bytes, from) && is_char_boundary(
        bytes,
        to,
    ) {
        Some(bytes.subrange(from, to))
    } else {
        None
    }
}

/// In UTF-8 text an ASCII byte is a character of its own: the positions
/// before and after it both lie between two characters.
pub proof fn lemma_ascii_byte_is_character(bytes: Seq<u8>, at: int)
    requires
        valid_utf8(bytes),
        0 <= at < bytes.len(),
        bytes[at] <= 0x7f,
    ensures
        is_char_boundary(bytes, at),
        is_char_boundary(bytes, at + 1),
{
    is_char_boundary_iff_not_is_continuation_byte(bytes, at);
    valid_utf8_split(bytes, at);
    let rest = bytes.subrange(at, bytes.len() as int);
    assert(rest[0] == bytes[at]);
    assert(length_of_first_scalar(rest) == 1);
    assert(is_char_boundary(rest, 1)) by {
        reveal_with_fuel(is_char_boundary, 2);
        reveal_with_fuel(valid_utf8, 2);
    }
    if at + 1 == bytes.len() {
        is_char_boundary_start_end_of_seq(bytes);
    } else {
        assert(rest[1] == bytes[at + 1]);
        is_char_boundary_iff_not_is_continuation_byte(rest, 1);
        is_char_boundary_iff_not_is_continuation_byte(bytes, at + 1);
    }
}

/// The part of `text` from byte `from` up to byte `to`, or `None` where the
/// range does not lie within the text or would split a character.
pub fn cut<'a>(text: &'a str, from: usize, to: usize) -> (part: Option<&'a str>)
    ensures
        match part {
            Some(part) => cut_bytes(text.spec_bytes(), from as int, to as int) == Some(
                part.spec_bytes(),
            ),
            None => cut_bytes(text.spec_bytes(), from as int, to as int) is None,
        },
{
    if from > to || to > text.as_bytes().len() {
        return None;
    }
    if !text.is_char_boundary(from) || !text.is_char_boundary(to) {
        return None;
    }
    let ghost bytes = text.spec_bytes();
    let (head, _) = text.split_at(to);
    proof {
        encode_utf8_valid_utf8(text@);
        encode_utf8_valid_utf8(head@);
        if from < to {
            is_char_boundary_iff_not_is_continuation_byte(bytes, from as int);
            is_char_boundary_iff_not_is_continuation_byte(head.spec_bytes(), from as int);
        } else {
            is_char_boundary_start_end_of_seq(head.spec_bytes());
        }
    }
    let (_, part) = head.split_at(from);
    assert(part.spec_bytes() =~= bytes.subrange(from as int, to as int));
    Some(part)
}

/// Whether `byte` is one of the ASCII digits `0` to `9`.
pub open spec fn is_digit(byte: u8) -> bool {
    0x30 <= byte <= 0x39
}

/// Whether `text` holds ASCII digits and nothing else.
pub open spec fn all_digits(text: Seq<u8>) -> bool {
    forall|i: int| 0 <= i < text.len() ==> is_digit(#[trigger] text[i])
}

/// The number that the ASCII digits `digits` write in base ten.
pub open spec fn digits_value(digits: Seq<u8>) -> nat
    decreases digits.len(),
{
    if digits.len() == 0 {
        0
    } else {
        10 * digits_value(digits.drop_last()) + (digits.last() - 0x30) as nat
    }
}

/// `text` without the plus sign that may lead it.
pub open spec fn without_plus(text: Seq<u8>) -> Seq<u8> {
    if text.len() > 0 && text[0] == 0x2b {
        text.drop_first()
    } else {
        text
    }
}

/// The 32-bit unsigned number that `text` writes: an optional plus sign, then
/// one or more ASCII digits and nothing else, naming a value of at most
/// `u32::MAX`.
pub open spec fn decimal_u32(text: Seq<u8>) -> Option<u32> {
    let digits = without_plus(text);
    if digits.len() > 0 && all_digits(digits) && digits_value(digits) <= u32::MAX {
        Some(digits_value(digits) as u32)
    } else {
        None
    }
}

/// A number is at least as large as the number written by any of its
/// leading digits.
proof fn lemma_digits_value_grows(digits: Seq<u8>, shown: int)
    requires
        all_digits(digits),
        0 <= shown <= digits.len(),
    ensures
        digits_value(digits.take(shown)) <= digits_value(digits),
    decreases digits.len() - shown,
{
    if shown == digits.len() {
        assert(digits.take(shown) =~= digits);
    } else {
        let longer = digits.take(shown + 1);
        assert(longer.drop_last() =~= digits.take(shown));
        assert(is_digit(digits[shown]));
        assert(longer.last() == digits[shown]);
        lemma_digits_value_grows(digits, shown + 1);
    }
}

/// Reads `text` as a 32-bit unsigned decimal number.
pub fn parse_u32(text: &[u8]) -> (value: Option<u32>)
    ensures
        value == decimal_u32(text@),
{
    let end = text.len();
    let start: usize = if end > 0 && text[0] == 0x2b {
        1
    } else {
        0
    };
    let ghost digits = without_plus(text@);
    assert(digits =~= text@.subrange(start as int, end as int));
    if start == end {
        return None;
    }
    let mut at: usize = start;
    let mut value: u64 = 0;
    while at < end
        invariant
            start <= at <= end == text@.len(),
            digits == without_plus(text@),
            digits == text@.subrange(start as int, end as int),
            all_digits(digits.take(at - start)),
            value == digits_value(digits.take(at - start)),
            value <= u32::MAX,
        decreases end - at,
    {
        let byte = text[at];
        assert(digits[at - start] == byte);
        if byte < 0x30 || byte > 0x39 {
            assert(!is_digit(digits[at - start]));
            return None;
        }
        let ghost shown = digits.take(at - start + 1);
        assert(shown.drop_last() =~= digits.take(at - start));
        assert(shown.last() == byte);
        let next: u64 = value * 10 + (byte - 0x30) as u64;
        if next > 0xffff_ffff {
            proof {
                if all_digits(digits) {
                    lemma_digits_value_grows(digits, at - start + 1);
                }
            }
            return None;
        }
        value = next;
        at = at + 1;
    }
    assert(digits.take(at - start) =~= digits);
    Some(value as u32)
}

/// The character that writes the digit `digit`.
pub open spec fn digit_char(digit: nat) -> char {
    ((0x30 + digit) as u8) as char
}

/// The digits that write `value` in base ten, without leading zeros.
pub open spec fn digits_text(value: nat) -> Seq<char>
    decreases value,
{
    if value < 10 {
        seq![digit_char(value)]
    } else {
        digits_text(value / 10).push(digit_char(value % 10))
    }
}

/// How `value` is written in base ten: its digits, after a minus sign where
/// it is negative.
pub open spec fn decimal_text(value: int) -> Seq<char> {
    if value < 0 {
        seq!['-'] + digits_text((-value) as nat)
    } else {
        digits_text(value as nat)
    }
}

/// The text of one digit.
fn digit_text(digit: u8) -> (text: &'static str)
    requires
        digit < 10,
    ensures
        text@ == seq![digit_char(digit as nat)],
{
    proof {
        reveal_strlit("0");
        reveal_strlit("1");
        reveal_strlit("2");
        reveal_strlit("3");
        reveal_strlit("4");
        reveal_strlit("5");
        reveal_strlit("6");
        reveal_strlit("7");
        reveal_strlit("8");
        reveal_strlit("9");
    }
    let text = match digit {
        0 => "0",
        1 => "1",
        2 => "2",
        3 => "3",
        4 => "4",
        5 => "5",
        6 => "6",
        7 => "7",
        8 => "8",
        _ => "9",
    };
    assert(text@ =~= seq![digit_char(digit as nat)]);
    text
}

/// Appends the digits of `value` to `text`.
fn push_digits(value: u64, text: &mut String)
    ensures
        final(text)@ == old(text)@ + digits_text(value as nat),
    decreases value,
{
    if value >= 10 {
        push_digits(value / 10, text);
    }
    let ghost before = text@;
    text.append(digit_text((value % 10) as u8));
    assert(text@ =~= old(text)@ + digits_text(value as nat));
}

/// Writes `value` in base ten.
pub fn format_i64(value: i64) -> (text: String)
    ensures
        text@ == decimal_text(value as int),
{
    let mut text = String::new();
    if value < 0 {
        proof {
            reveal_strlit("-");
        }
        text.append("-");
        assert(text@ =~= seq!['-']);
        let magnitude: i128 = -(value as i128);
        push_digits(magnitude as u64, &mut text);
    } else {
        push_digits(value as u64, &mut text);
        assert(text@ =~= digits_text(value as nat));
    }
    text
}

} // verus!
