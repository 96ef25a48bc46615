//! Numbers and words in text.

use vstd::prelude::*;
use vstd::slice::slice_subrange;
use vstd::utf8::is_ascii_chars;
use vstd::utf8::is_ascii_chars_encode_utf8;

verus! {

/// The code of `+`.
pub const PLUS: u8 = 43;

/// The code of the digit zero.
pub const ZERO: u8 = 48;

/// The code of `:`.
pub const COLON: u8 = 58;

/// The bytes of a text, one to a character.
pub open spec fn ascii(text: Seq<char>) -> Seq<u8> {
    Seq::new(text.len(), |i: int| text[i] as u8)
}

/// The text that has the given bytes, one to a character.
pub open spec fn ascii_text(bytes: Seq<u8>) -> Seq<char> {
    Seq::new(bytes.len(), |i: int| bytes[i] as char)
}

/// `number` in decimal digits, without leading zeros.
pub open spec fn decimal(number: nat) -> Seq<u8>
    decreases number,
{
    if number < 10 {
        seq![(ZERO + number) as u8]
    } else {
        decimal(number / 10).push((ZERO + number % 10) as u8)
    }
}

pub open spec fn is_digit(byte: u8) -> bool {
    ZERO <= byte < ZERO + 10
}

pub open spec fn all_digits(bytes: Seq<u8>) -> bool {
    forall|i: int| 0 <= i < bytes.len() ==> is_digit(#[trigger] bytes[i])
}

/// The number that decimal digits stand for.
pub open spec fn digits_value(digits: Seq<u8>) -> int
    decreases digits.len(),
{
    if digits.len() == 0 {
        0
    } else {
        10 * digits_value(digits.drop_last()) + (digits.last() - ZERO)
    }
}

/// `bytes` without the one `+` that may stand in front of a number.
pub open spec fn without_sign(bytes: Seq<u8>) -> Seq<u8> {
    if bytes.len() > 0 && bytes[0] == PLUS {
        bytes.skip(1)
    } else {
        bytes
    }
}

/// The 32-bit number that `bytes` spell out: an optional `+`, then one or more decimal digits and
/// nothing else.
pub open spec fn parsed_u32(bytes: Seq<u8>) -> Option<u32> {
    let digits = without_sign(bytes);
    if digits.len() > 0 && all_digits(digits) && digits_value(digits) <= u32::MAX {
        Some(digits_value(digits) as u32)
    } else {
        None
    }
}

/// What stands before and what stands behind the first `separator`.
pub open spec fn split_once(bytes: Seq<u8>, separator: u8) -> Option<(Seq<u8>, Seq<u8>)>
    decreases bytes.len(),
{
    if bytes.len() == 0 {
        None
    } else if bytes[0] == separator {
        Some((Seq::empty(), bytes.skip(1)))
    } else {
        match split_once(bytes.skip(1), separator) {
            Some((before, after)) => Some((seq![bytes[0]] + before, after)),
            None => None,
        }
    }
}

/// Whether a character has the Unicode property `White_Space`.
pub open spec fn white_space(c: char) -> bool {
    ||| '\u{9}' <= c <= '\u{d}'
    ||| c == '\u{20}'
    ||| c == '\u{85}'
    ||| c == '\u{a0}'
    ||| c == '\u{1680}'
    ||| '\u{2000}' <= c <= '\u{200a}'
    ||| c == '\u{2028}'
    ||| c == '\u{2029}'
    ||| c == '\u{202f}'
    ||| c == '\u{205f}'
    ||| c == '\u{3000}'
}

/// `text` without the white space at either end.
pub open spec fn trimmed(text: Seq<char>) -> Seq<char>
    decreases text.len(),
{
    if text.len() > 0 && white_space(text[0]) {
        trimmed(text.skip(1))
    } else if text.len() > 0 && white_space(text.last()) {
        trimmed(text.drop_last())
    } else {
        text
    }
}

/// `str::trim` removes white space, as Unicode defines it, from both ends.
pub assume_specification[ str::trim ](text: &str) -> (r: &str)
    ensures
        r@ == trimmed(text@),
;

/// The bytes of an ASCII literal.
pub(crate) fn ascii_bytes(text: &str) -> (r: &[u8])
    requires
        is_ascii_chars(text@),
    ensures
        r@ == ascii(text@),
{
    proof {
        is_ascii_chars_encode_utf8(text@);
    }
    let bytes = text.as_bytes();
    assert(bytes@ =~= ascii(text@));
    bytes
}

/// Appends `number` to `bytes`, in decimal digits.
pub(crate) fn push_decimal(bytes: &mut Vec<u8>, number: u32)
    ensures
        final(bytes)@ == old(bytes)@ + decimal(number as nat),
    decreases number,
{
    if number >= 10 {
        push_decimal(bytes, number / 10);
    }
    bytes.push(ZERO + (number % 10) as u8);
    assert(bytes@ =~= old(bytes)@ + decimal(number as nat));
}

/// Reads the number that `bytes` spell out.
pub(crate) fn parse_u32(bytes: &[u8]) -> (r: Option<u32>)
    ensures
        r == parsed_u32(bytes@),
{
    let start: usize = if bytes.len() > 0 && bytes[0] == PLUS { 1 } else { 0 };
    let ghost digits = without_sign(bytes@);
    assert(digits =~= bytes@.skip(start as int));
    if start == bytes.len() {
        return None;
    }
    let mut value: u64 = 0;
    let mut i: usize = start;
    while i < bytes.len()
        invariant
            start <= i <= bytes.len(),
            digits == bytes@.skip(start as int),
            digits == without_sign(bytes@),
            all_digits(digits.take(i - start)),
            value == digits_value(digits.take(i - start)),
            value <= u32::MAX,
        decreases bytes.len() - i,
    {
        let byte: u8 = bytes[i];
        assert(digits[i - start] == byte);
        if byte < ZERO || byte >= ZERO + 10 {
            return None;
        }
        assert(digits.take(i - start + 1).drop_last() =~= digits.take(i - start));
        value = 10 * value + (byte - ZERO) as u64;
        if value > 0xffff_ffff {
            proof {
                if all_digits(digits) {
                    lemma_digits_grow(digits, i - start + 1);
                }
            }
            return None;
        }
        i = i + 1;
    }
    assert(digits.take(i - start) =~= digits);
    Some(value as u32)
}

/// Finds the first `separator`, and returns what stands before and what stands behind it.
pub(crate) fn split_at_first(bytes: &[u8], separator: u8) -> (r: Option<(&[u8], &[u8])>)
    ensures
        match r {
            Some((before, after)) => split_once(bytes@, separator) == Some((before@, after@)),
            None => split_once(bytes@, separator) is None,
        },
{
    let mut i: usize = 0;
    while i < bytes.len()
        invariant
            i <= bytes.len(),
            forall|j: int| 0 <= j < i ==> bytes@[j] != separator,
        decreases bytes.len() - i,
    {
        if bytes[i] == separator {
            proof {
                lemma_split_at(bytes@, separator, i as int);
            }
            return Some((slice_subrange(bytes, 0, i), slice_subrange(bytes, i + 1, bytes.len())));
        }
        i = i + 1;
    }
    proof {
        lemma_no_split(bytes@, separator);
    }
    None
}

/// Further digits never make a number smaller.
proof fn lemma_digits_grow(digits: Seq<u8>, n: int)
    requires
        all_digits(digits),
        0 <= n <= digits.len(),
    ensures
        0 <= digits_value(digits.take(n)) <= digits_value(digits),
    decreases digits.len(),
{
    if n == digits.len() {
        assert(digits.take(n) =~= digits);
        if n > 0 {
            lemma_digits_grow(digits.drop_last(), n - 1);
        }
    } else {
        lemma_digits_grow(digits.drop_last(), n);
        assert(digits.drop_last().take(n) =~= digits.take(n));
    }
}

/// The first separator is where a text is split.
proof fn lemma_split_at(bytes: Seq<u8>, separator: u8, i: int)
    requires
        0 <= i < bytes.len(),
        bytes[i] == separator,
        forall|j: int| 0 <= j < i ==> bytes[j] != separator,
    ensures
        split_once(bytes, separator) == Some(
            (bytes.subrange(0, i), bytes.subrange(i + 1, bytes.len() as int)),
        ),
    decreases i,
{
    if i == 0 {
        assert(bytes.subrange(0, 0) =~= Seq::empty());
    } else {
        let tail = bytes.skip(1);
        assert forall|j: int| 0 <= j < i - 1 implies tail[j] != separator by {
            assert(tail[j] == bytes[j + 1]);
        }
        lemma_split_at(tail, separator, i - 1);
        assert(bytes.subrange(0, i) =~= seq![bytes[0]] + tail.subrange(0, i - 1));
        assert(bytes.subrange(i + 1, bytes.len() as int) =~= tail.subrange(i, tail.len() as int));
    }
}

/// A text without the separator is not split.
proof fn lemma_no_split(bytes: Seq<u8>, separator: u8)
    requires
        forall|j: int| 0 <= j < bytes.len() ==> bytes[j] != separator,
    ensures
        split_once(bytes, separator) is None,
    decreases bytes.len(),
{
    if bytes.len() > 0 {
        let tail = bytes.skip(1);
        assert forall|j: int| 0 <= j < tail.len() implies tail[j] != separator by {
            assert(tail[j] == bytes[j + 1]);
        }
        lemma_no_split(tail, separator);
    }
}

/// `decimal` writes digits, at least one, that stand for the number.
pub proof fn lemma_decimal(number: nat)
    ensures
        decimal(number).len() > 0,
        all_digits(decimal(number)),
        digits_value(decimal(number)) == number,
    decreases number,
{
    if number < 10 {
        assert(decimal(number).drop_last() =~= Seq::empty());
        assert(digits_value(Seq::empty()) == 0);
    } else {
        lemma_decimal(number / 10);
        assert(decimal(number).drop_last() =~= decimal(number / 10));
    }
}

/// Reading a number back from its decimal digits gives the number.
pub proof fn law_parsing_undoes_printing(number: u32)
    ensures
        parsed_u32(decimal(number as nat)) == Some(number),
{
    lemma_decimal(number as nat);
}

/// Joining two texts by a separator that the first does not hold, and splitting the result, gives
/// the two texts back.
pub proof fn lemma_split_undoes_joining(before: Seq<u8>, separator: u8, after: Seq<u8>)
    requires
        forall|j: int| 0 <= j < before.len() ==> before[j] != separator,
    ensures
        split_once(before.push(separator) + after, separator) == Some((before, after)),
{
    let joined = before.push(separator) + after;
    let i = before.len() as int;
    assert forall|j: int| 0 <= j < i implies joined[j] != separator by {
        assert(joined[j] == before[j]);
    }
    lemma_split_at(joined, separator, i);
    assert(joined.subrange(0, i) =~= before);
    assert(joined.subrange(i + 1, joined.len() as int) =~= after);
}

/// A number below ten is one digit, and a digit behind a number makes it that digit more than ten
/// times as large, both where it is written and where it is read.
pub proof fn law_decimal_notation(number: nat, digit: nat, digits: Seq<u8>, byte: u8)
    requires
        digit < 10,
    ensures
        decimal(digit) == seq![(48 + digit) as u8],
        number > 0 ==> decimal(10 * number + digit) == decimal(number).push((48 + digit) as u8),
        digits_value(Seq::empty()) == 0,
        digits_value(digits.push(byte)) == 10 * digits_value(digits) + (byte - 48),
{
    assert(digits.push(byte).drop_last() =~= digits);
}

/// What is read as a number is one decimal digit or more, of a number that takes no more than 32
/// bits. One plus sign may stand in front.
pub proof fn law_numbers_that_are_read(bytes: Seq<u8>)
    requires
        bytes.len() > 0 ==> bytes[0] != 43,
    ensures
        parsed_u32(bytes) is Some <==> bytes.len() > 0 && digits_value(bytes) <= 0xffff_ffff && (
        forall|i: int| 0 <= i < bytes.len() ==> 48 <= #[trigger] bytes[i] <= 57),
        parsed_u32(bytes) matches Some(number) ==> number == digits_value(bytes),
        parsed_u32(seq![43u8] + bytes) == parsed_u32(bytes),
{
    assert((seq![43u8] + bytes).skip(1) =~= bytes);
    assert(without_sign(bytes) == bytes);
    if parsed_u32(bytes) is Some {
        assert forall|i: int| 0 <= i < bytes.len() implies 48 <= #[trigger] bytes[i] <= 57 by {
            assert(is_digit(bytes[i]));
        }
        assert(bytes.take(0) =~= Seq::empty());
        lemma_digits_grow(bytes, 0);
    }
}

/// A second plus sign in front of a number is none.
pub proof fn law_one_sign_is_enough(bytes: Seq<u8>)
    ensures
        parsed_u32(seq![43u8, 43u8] + bytes) is None,
{
    let signed = seq![43u8, 43u8] + bytes;
    assert(without_sign(signed)[0] == 43u8);
}

/// Splitting a text leads to what stands before and behind the first separator, and a text without
/// the separator is not split.
pub proof fn law_splitting(before: Seq<u8>, separator: u8, after: Seq<u8>)
    requires
        forall|j: int| 0 <= j < before.len() ==> before[j] != separator,
    ensures
        split_once(before + seq![separator] + after, separator) == Some((before, after)),
        split_once(before, separator) is None,
{
    lemma_split_undoes_joining(before, separator, after);
    assert(before + seq![separator] + after =~= before.push(separator) + after);
    lemma_no_split(before, separator);
}

} // verus!
