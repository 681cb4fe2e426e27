//! What the answer to an HTTP range request must look like.

use vstd::prelude::*;

use crate::error::{Error, Fault, Result};

verus! {

pub open spec fn is_digit(byte: u8) -> bool {
    0x30 <= byte <= 0x39
}

/// The value of decimal digits.
pub open spec fn digits_value(s: Seq<u8>) -> nat
    decreases s.len(),
{
    if s.len() == 0 {
        0
    } else {
        10 * digits_value(s.drop_last()) + (s.last() - 0x30) as nat
    }
}

/// The digits of a number, which may have a plus sign in front.
pub open spec fn unsigned_part(s: Seq<u8>) -> Seq<u8> {
    if s.len() > 0 && s[0] == 0x2B {
        s.drop_first()
    } else {
        s
    }
}

/// The 64-bit number that `s` is the decimal text of.
pub open spec fn number_of(s: Seq<u8>) -> Option<u64> {
    let digits = unsigned_part(s);
    if digits.len() > 0 && (forall|i: int| 0 <= i < digits.len() ==> is_digit(#[trigger] digits[i]))
        && digits_value(digits) <= u64::MAX {
        Some(digits_value(digits) as u64)
    } else {
        None
    }
}

/// Whether `i` is the first place of a byte.
pub open spec fn first_at(s: Seq<u8>, byte: u8, i: int) -> bool {
    0 <= i < s.len() && s[i] == byte && forall|k: int| 0 <= k < i ==> #[trigger] s[k] != byte
}

/// The parts in front of and behind the first occurrence of a byte.
pub open spec fn split_once(s: Seq<u8>, byte: u8) -> Option<(Seq<u8>, Seq<u8>)> {
    if exists|i: int| first_at(s, byte, i) {
        let i = choose|i: int| first_at(s, byte, i);
        Some((s.subrange(0, i), s.subrange(i + 1, s.len() as int)))
    } else {
        None
    }
}

/// The text that a byte content range starts with.
pub open spec fn unit_prefix() -> Seq<u8> {
    seq![0x62u8, 0x79u8, 0x74u8, 0x65u8, 0x73u8, 0x20u8]
}

/// The first and the last byte and the total length that a content range states: the text
/// `bytes`, a space, and then `first-last/total`, with the numbers in order.
pub open spec fn content_range_of(s: Seq<u8>) -> Option<(u64, u64, u64)> {
    if s.len() < 6 || s.subrange(0, 6) != unit_prefix() {
        None
    } else {
        match split_once(s.subrange(6, s.len() as int), 0x2F) {
            None => None,
            Some((range, total)) => match split_once(range, 0x2D) {
                None => None,
                Some((first, last)) => match (
                    number_of(first),
                    number_of(last),
                    number_of(total),
                ) {
                    (Some(a), Some(b), Some(n)) => if a <= b && b < n {
                        Some((a, b, n))
                    } else {
                        None
                    },
                    _ => None,
                },
            },
        }
    }
}

proof fn lemma_prefix_value(s: Seq<u8>, n: int)
    requires
        0 <= n <= s.len(),
        forall|i: int| 0 <= i < s.len() ==> is_digit(#[trigger] s[i]),
    ensures
        digits_value(s.subrange(0, n)) <= digits_value(s),
    decreases s.len(),
{
    if n == s.len() {
        assert(s.subrange(0, n) =~= s);
    } else {
        let rest = s.drop_last();
        assert(rest.subrange(0, n) =~= s.subrange(0, n));
        assert forall|i: int| 0 <= i < rest.len() implies is_digit(#[trigger] rest[i]) by {
            assert(rest[i] == s[i]);
        }
        lemma_prefix_value(rest, n);
    }
}

fn parse_number(s: &[u8]) -> (r: Option<u64>)
    ensures
        r == number_of(s@),
{
    let len: usize = s.len();
    let start: usize = if len > 0 && s[0] == 0x2B {
        1
    } else {
        0
    };
    let ghost digits = unsigned_part(s@);
    proof {
        assert(digits =~= s@.subrange(start as int, len as int));
    }
    if start == len {
        return None;
    }
    let mut value: u64 = 0;
    let mut i: usize = start;
    proof {
        assert(digits.subrange(0, 0) =~= Seq::empty());
    }
    while i < len
        invariant
            start <= i <= len,
            start <= 1,
            len == s@.len(),
            start < len,
            digits == s@.subrange(start as int, len as int),
            digits == unsigned_part(s@),
            value == digits_value(digits.subrange(0, i - start)),
            forall|k: int| 0 <= k < i - start ==> is_digit(#[trigger] digits[k]),
        decreases len - i,
    {
        let byte: u8 = s[i];
        proof {
            assert(digits[i - start] == byte);
            let longer = digits.subrange(0, i - start + 1);
            assert(longer.drop_last() =~= digits.subrange(0, i - start));
            assert(longer.last() == byte);
        }
        if byte < 0x30 || byte > 0x39 {
            return None;
        }
        let digit: u64 = (byte - 0x30) as u64;
        if value > (u64::MAX - digit) / 10 {
            proof {
                if forall|k: int| 0 <= k < digits.len() ==> is_digit(#[trigger] digits[k]) {
                    lemma_prefix_value(digits, i - start + 1);
                }
            }
            return None;
        }
        value = value * 10 + digit;
        i = i + 1;
    }
    proof {
        assert(digits.subrange(0, digits.len() as int) =~= digits);
    }
    Some(value)
}

fn find_byte(s: &[u8], byte: u8) -> (r: Option<usize>)
    ensures
        match r {
            Some(i) => first_at(s@, byte, i as int) && split_once(s@, byte) == Some(
                (s@.subrange(0, i as int), s@.subrange(i + 1, s@.len() as int)),
            ),
            None => split_once(s@, byte) is None,
        },
{
    let mut i: usize = 0;
    while i < s.len()
        invariant
            i <= s@.len(),
            forall|k: int| 0 <= k < i ==> #[trigger] s@[k] != byte,
        decreases s@.len() - i,
    {
        if s[i] == byte {
            proof {
                assert(first_at(s@, byte, i as int));
                let j = choose|j: int| first_at(s@, byte, j);
                assert(first_at(s@, byte, j));
                assert(s@[j] == byte);
            }
            return Some(i);
        }
        i = i + 1;
    }
    None
}

/// Reads a `Content-Range` value: the first and the last byte, and the total length.
pub fn parse_content_range(value: &str) -> (r: Option<(u64, u64, u64)>)
    ensures
        r == content_range_of(vstd::utf8::encode_utf8(value@)),
{
    let s = value.as_bytes();
    let len: usize = s.len();
    if len < 6 {
        return None;
    }
    let bytes_unit = s[0] == 0x62 && s[1] == 0x79 && s[2] == 0x74 && s[3] == 0x65 && s[4] == 0x73
        && s[5] == 0x20;
    proof {
        let head = s@.subrange(0, 6);
        assert(head[0] == s@[0] && head[1] == s@[1] && head[2] == s@[2] && head[3] == s@[3]
            && head[4] == s@[4] && head[5] == s@[5]);
        assert(bytes_unit <==> head =~= unit_prefix());
    }
    if !bytes_unit {
        return None;
    }
    let rest = vstd::slice::slice_subrange(s, 6, len);
    let slash: usize = match find_byte(rest, 0x2F) {
        Some(i) => i,
        None => {
            return None;
        },
    };
    let range = vstd::slice::slice_subrange(rest, 0, slash);
    let total = vstd::slice::slice_subrange(rest, slash + 1, rest.len());
    let dash: usize = match find_byte(range, 0x2D) {
        Some(i) => i,
        None => {
            return None;
        },
    };
    let first = parse_number(vstd::slice::slice_subrange(range, 0, dash));
    let last = parse_number(vstd::slice::slice_subrange(range, dash + 1, range.len()));
    let total = parse_number(total);
    match (first, last, total) {
        (Some(a), Some(b), Some(n)) => {
            if a <= b && b < n {
                Some((a, b, n))
            } else {
                None
            }
        },
        _ => None,
    }
}

/// What [`range_of`] answers.
pub open spec fn last_byte(offset: u64, len: u64) -> Result<u64> {
    if offset + len - 1 > u64::MAX {
        Err(Error::InvalidInput(Fault::HttpRangeOverflow))
    } else {
        Ok((offset + len - 1) as u64)
    }
}

/// The last byte of a range of `len` bytes, which is not empty.
pub fn range_of(offset: u64, len: u64) -> (r: Result<u64>)
    requires
        len > 0,
    ensures
        r == last_byte(offset, len),
{
    match offset.checked_add(len - 1) {
        Some(last) => Ok(last),
        None => Err(Error::InvalidInput(Fault::HttpRangeOverflow)),
    }
}

/// What [`check_length_answer`] answers.
pub open spec fn length_answer(status: u16, range: Option<(u64, u64, u64)>) -> Result<u64> {
    if status != 206 {
        Err(Error::Unsupported(Fault::HttpStatus { status }))
    } else {
        match range {
            None => Err(Error::InvalidData(Fault::HttpNoContentRange)),
            Some((first, last, total)) => if first != 0 || last != 0 {
                Err(
                    Error::InvalidData(
                        Fault::HttpRangeMismatch {
                            first,
                            last,
                            expected_first: 0,
                            expected_last: 0,
                        },
                    ),
                )
            } else if total == 0 {
                Err(Error::InvalidData(Fault::HttpZeroTotal))
            } else {
                Ok(total)
            },
        }
    }
}

/// The length of a file, from the answer to a request for its first byte.
pub fn check_length_answer(status: u16, range: Option<(u64, u64, u64)>) -> (r: Result<u64>)
    ensures
        r == length_answer(status, range),
{
    if status != 206 {
        return Err(Error::Unsupported(Fault::HttpStatus { status }));
    }
    match range {
        None => Err(Error::InvalidData(Fault::HttpNoContentRange)),
        Some((first, last, total)) => {
            if first != 0 || last != 0 {
                return Err(
                    Error::InvalidData(
                        Fault::HttpRangeMismatch {
                            first,
                            last,
                            expected_first: 0,
                            expected_last: 0,
                        },
                    ),
                );
            }
            if total == 0 {
                return Err(Error::InvalidData(Fault::HttpZeroTotal));
            }
            Ok(total)
        },
    }
}

/// What [`check_range_answer`] answers.
pub open spec fn range_answer(
    status: u16,
    range: Option<(u64, u64, u64)>,
    expected: (u64, u64),
    known_len: Option<u64>,
) -> Result<u64> {
    if status != 206 {
        Err(Error::Unsupported(Fault::HttpStatus { status }))
    } else {
        match range {
            None => Err(Error::InvalidData(Fault::HttpNoContentRange)),
            Some((first, last, total)) => if (first, last) != expected {
                Err(
                    Error::InvalidData(
                        Fault::HttpRangeMismatch {
                            first,
                            last,
                            expected_first: expected.0,
                            expected_last: expected.1,
                        },
                    ),
                )
            } else if known_len is Some && known_len != Some(total) {
                Err(
                    Error::InvalidData(
                        Fault::HttpTotalChanged { expected: known_len->Some_0, found: total },
                    ),
                )
            } else {
                Ok(total)
            },
        }
    }
}

/// The length of a file, from the answer to a request for the bytes `expected`. A length
/// that was known before must not have changed.
pub fn check_range_answer(
    status: u16,
    range: Option<(u64, u64, u64)>,
    expected: (u64, u64),
    known_len: Option<u64>,
) -> (r: Result<u64>)
    ensures
        r == range_answer(status, range, expected, known_len),
{
    if status != 206 {
        return Err(Error::Unsupported(Fault::HttpStatus { status }));
    }
    match range {
        None => Err(Error::InvalidData(Fault::HttpNoContentRange)),
        Some((first, last, total)) => {
            if first != expected.0 || last != expected.1 {
                return Err(
                    Error::InvalidData(
                        Fault::HttpRangeMismatch {
                            first,
                            last,
                            expected_first: expected.0,
                            expected_last: expected.1,
                        },
                    ),
                );
            }
            match known_len {
                Some(len) => {
                    if total != len {
                        return Err(
                            Error::InvalidData(
                                Fault::HttpTotalChanged { expected: len, found: total },
                            ),
                        );
                    }
                },
                None => {},
            }
            Ok(total)
        },
    }
}

/// A body that goes on behind the range it was announced for is refused.
pub fn check_body_end(trailing: usize) -> (r: Result<()>)
    ensures
        r == (if trailing != 0 {
            Err(Error::InvalidData(Fault::HttpBodyTooLong))
        } else {
            Ok(())
        }),
{
    if trailing != 0 {
        return Err(Error::InvalidData(Fault::HttpBodyTooLong));
    }
    Ok(())
}

/// A single digit counts for itself, and each digit behind a number multiplies it by ten.
pub proof fn law_digits(s: Seq<u8>, digit: u8)
    requires
        is_digit(digit),
    ensures
        digits_value(seq![digit]) == digit - 48,
        digits_value(s.push(digit)) == 10 * digits_value(s) + digits_value(seq![digit]),
        0x30 <= digit < 0x3A,
{
    assert(seq![digit].drop_last() =~= Seq::empty());
    assert(digits_value(seq![digit].drop_last()) == 0);
    assert(s.push(digit).drop_last() =~= s);
}

/// Whether all bytes are digits, and there are some.
pub open spec fn all_digits(s: Seq<u8>) -> bool {
    s.len() > 0 && forall|i: int| 0 <= i < s.len() ==> 0x30 <= #[trigger] s[i] <= 0x39
}

/// Digits are read as the number that they write, where it has room.
pub proof fn law_number(s: Seq<u8>)
    requires
        all_digits(s),
    ensures
        number_of(s) == if digits_value(s) <= u64::MAX {
            Some(digits_value(s) as u64)
        } else {
            None
        },
{
    assert(s[0] != 0x2B);
    assert forall|i: int| 0 <= i < s.len() implies is_digit(#[trigger] s[i]) by {}
}

/// A split gives what stands before and behind the first such byte.
pub proof fn law_split(s: Seq<u8>, byte: u8)
    ensures
        split_once(s, byte) is None <==> !s.contains(byte),
        split_once(s, byte) is Some ==> {
            let (before, behind) = split_once(s, byte)->Some_0;
            &&& s == before + seq![byte] + behind
            &&& !before.contains(byte)
        },
{
    if split_once(s, byte) is Some {
        let i = choose|i: int| first_at(s, byte, i);
        let (before, behind) = split_once(s, byte)->Some_0;
        assert(s[i] == byte);
        assert(s =~= before + seq![byte] + behind);
        if before.contains(byte) {
            let k = choose|k: int| 0 <= k < before.len() && before[k] == byte;
            assert(s[k] == byte);
        }
    } else if s.contains(byte) {
        let i = choose|i: int| 0 <= i < s.len() && s[i] == byte;
        lemma_some_first(s, byte, i);
    }
}

proof fn lemma_some_first(s: Seq<u8>, byte: u8, i: int)
    requires
        0 <= i < s.len(),
        s[i] == byte,
    ensures
        exists|k: int| first_at(s, byte, k),
    decreases i,
{
    if exists|k: int| 0 <= k < i && #[trigger] s[k] == byte {
        let k = choose|k: int| 0 <= k < i && #[trigger] s[k] == byte;
        lemma_some_first(s, byte, k);
    } else {
        assert(first_at(s, byte, i));
    }
}

/// Bytes before the first such byte, and what is behind it, are what a split gives.
proof fn lemma_split_of(before: Seq<u8>, byte: u8, behind: Seq<u8>)
    requires
        !before.contains(byte),
    ensures
        split_once(before + seq![byte] + behind, byte) == Some((before, behind)),
{
    let s = before + seq![byte] + behind;
    let n = before.len() as int;
    assert forall|k: int| 0 <= k < n implies #[trigger] s[k] != byte by {
        assert(before.contains(before[k]));
    }
    assert(first_at(s, byte, n));
    let i = choose|i: int| first_at(s, byte, i);
    assert(s[i] == byte && s[n] == byte);
    assert(i == n) by {
        if i < n {
            assert(s[i] != byte);
        } else if n < i {
            assert(s[n] != byte);
        }
    }
    assert(s.subrange(0, n) =~= before);
    assert(s.subrange(n + 1, s.len() as int) =~= behind);
}

/// The text `bytes first-last/total`.
pub open spec fn range_text(first: Seq<u8>, last: Seq<u8>, total: Seq<u8>) -> Seq<u8> {
    seq![0x62u8, 0x79u8, 0x74u8, 0x65u8, 0x73u8, 0x20u8] + (first + seq![0x2Du8] + last + seq![
        0x2Fu8,
    ] + total)
}

/// A range of a length is read from the text `bytes first-last/total`, for all numbers in order.
pub proof fn law_content_range(first: Seq<u8>, last: Seq<u8>, total: Seq<u8>)
    requires
        all_digits(first),
        all_digits(last),
        all_digits(total),
        digits_value(first) <= digits_value(last) < digits_value(total) <= u64::MAX,
    ensures
        content_range_of(range_text(first, last, total)) == Some(
            (
                digits_value(first) as u64,
                digits_value(last) as u64,
                digits_value(total) as u64,
            ),
        ),
{
    let range = first + seq![0x2Du8] + last;
    let text = range + seq![0x2Fu8] + total;
    let s = range_text(first, last, total);
    assert(s =~= unit_prefix() + text);
    assert(s.subrange(0, 6) =~= unit_prefix());
    assert(s.subrange(6, s.len() as int) =~= text);
    assert(!range.contains(0x2Fu8)) by {
        if range.contains(0x2Fu8) {
            let k = choose|k: int| 0 <= k < range.len() && range[k] == 0x2Fu8;
            if k < first.len() {
                assert(first[k] == 0x2Fu8);
            } else if k > first.len() {
                assert(last[k - first.len() - 1] == 0x2Fu8);
            }
        }
    }
    assert(!first.contains(0x2Du8));
    lemma_split_of(range, 0x2F, total);
    lemma_split_of(first, 0x2D, last);
    law_number(first);
    law_number(last);
    law_number(total);
}

/// What is read as a range is written so, with an optional plus before each number: no other
/// text is a range.
pub proof fn law_only_content_ranges(s: Seq<u8>)
    requires
        content_range_of(s) is Some,
    ensures
        ({
            let (a, b, n) = content_range_of(s)->Some_0;
            &&& a <= b < n
            &&& exists|first: Seq<u8>, last: Seq<u8>, total: Seq<u8>|
                {
                    &&& s == #[trigger] range_text(first, last, total)
                    &&& number_of(first) == Some(a)
                    &&& number_of(last) == Some(b)
                    &&& number_of(total) == Some(n)
                }
        }),
{
    let text = s.subrange(6, s.len() as int);
    law_split(text, 0x2F);
    let (range, total) = split_once(text, 0x2F)->Some_0;
    law_split(range, 0x2D);
    let (first, last) = split_once(range, 0x2D)->Some_0;
    assert(s =~= s.subrange(0, 6) + text);
    assert(s == range_text(first, last, total));
}

/// A request for bytes ends with the last of them.
pub proof fn law_last_byte(offset: u64, len: u64)
    requires
        len > 0,
    ensures
        last_byte(offset, len) is Ok <==> offset + len <= 0x1_0000_0000_0000_0000,
        last_byte(offset, len) is Ok ==> last_byte(offset, len)->Ok_0 - offset + 1 == len,
{
}

/// The length of a file is the total that a server states with its first byte.
pub proof fn law_length_answer(status: u16, range: Option<(u64, u64, u64)>, total: u64)
    ensures
        length_answer(status, range) == Ok::<u64, Error>(total) <==> status == 206 && range
            == Some((0u64, 0u64, total)) && total > 0,
{
}

/// An answer is taken just where the server sends the part that was asked for, of a file that
/// has the length that it had before.
pub proof fn law_range_answer(
    status: u16,
    range: Option<(u64, u64, u64)>,
    expected: (u64, u64),
    known_len: Option<u64>,
    total: u64,
)
    ensures
        range_answer(status, range, expected, known_len) == Ok::<u64, Error>(total) <==> {
            &&& status == 206
            &&& range == Some((expected.0, expected.1, total))
            &&& known_len is None || known_len == Some(total)
        },
{
}

/// A plus before a number changes nothing; an empty text and one with any other character are no
/// number.
pub proof fn law_no_number(s: Seq<u8>, i: int)
    ensures
        all_digits(s) ==> number_of(seq![0x2Bu8] + s) == number_of(s),
        number_of(Seq::empty()) is None,
        0 < i < s.len() && !(0x30 <= s[i] <= 0x39) ==> number_of(s) is None,
        s.len() > 0 && s[0] != 0x2B && !(0x30 <= s[0] <= 0x39) ==> number_of(s) is None,
{
    if all_digits(s) {
        let text = seq![0x2Bu8] + s;
        assert(text.drop_first() =~= s);
        assert(s[0] != 0x2B);
    }
    if 0 < i < s.len() {
        let digits = unsigned_part(s);
        if s[0] == 0x2B {
            assert(digits[i - 1] == s[i]);
        } else {
            assert(digits[i] == s[i]);
        }
    }
    if s.len() > 0 && s[0] != 0x2B {
        assert(unsigned_part(s)[0] == s[0]);
    }
}

} // verus!
