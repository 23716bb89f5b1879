//! Identifiers as decimal text: an optional sign, then digits.

use vstd::prelude::*;
use vstd::string::*;
use vstd::utf8::*;

use crate::cipher::string_from_utf8;

verus! {

/// Whether a byte is one of the digits `0` to `9`.
pub open spec fn is_digit(b: u8) -> bool {
    48 <= b <= 57
}

/// Whether every byte is a digit.
pub open spec fn all_digits(s: Seq<u8>) -> bool {
    forall|i: int| 0 <= i < s.len() ==> is_digit(#[trigger] s[i])
}

/// The number that a run of digits writes, most significant digit first.
pub open spec fn digits_value(s: Seq<u8>) -> int
    decreases s.len(),
{
    if s.len() == 0 {
        0
    } else {
        digits_value(s.drop_last()) * 10 + (s.last() - 48)
    }
}

/// Whether the text starts with a minus sign.
pub open spec fn has_minus(bytes: Seq<u8>) -> bool {
    bytes.len() > 0 && bytes[0] == 45
}

/// The text behind its sign, if it has one.
pub open spec fn behind_sign(bytes: Seq<u8>) -> Seq<u8> {
    if bytes.len() > 0 && (bytes[0] == 43 || bytes[0] == 45) {
        bytes.skip(1)
    } else {
        bytes
    }
}

/// The 32-bit number that the bytes write in decimal: an optional `+` or
/// `-`, then at least one digit and nothing else; `None` for anything else
/// and for a number out of range.
pub open spec fn decimal_value(bytes: Seq<u8>) -> Option<i32> {
    let digits = behind_sign(bytes);
    if digits.len() == 0 || !all_digits(digits) {
        None
    } else {
        let magnitude = digits_value(digits);
        let value = if has_minus(bytes) {
            -magnitude
        } else {
            magnitude
        };
        if i32::MIN <= value <= i32::MAX {
            Some(value as i32)
        } else {
            None
        }
    }
}

/// The 32-bit number that a text writes in decimal.
pub open spec fn decimal_i32(text: Seq<char>) -> Option<i32> {
    decimal_value(encode_utf8(text))
}

/// The digits of a number that is not negative, without leading zeros.
pub open spec fn digits_of(v: int) -> Seq<u8>
    decreases v,
{
    if v < 10 {
        seq![(48 + v) as u8]
    } else {
        digits_of(v / 10).push((48 + v % 10) as u8)
    }
}

/// A number in decimal: a minus sign where it is negative, then its digits.
pub open spec fn decimal_bytes(n: int) -> Seq<u8> {
    if n < 0 {
        seq![45u8] + digits_of(-n)
    } else {
        digits_of(n)
    }
}

/// A 32-bit number as decimal text.
pub open spec fn decimal_text(n: i32) -> Seq<char> {
    decimal_bytes(n as int).map_values(|b: u8| b as char)
}

/// The digits of a number are digits, and they write the number.
pub proof fn lemma_digits_write_the_number(v: int)
    requires
        v >= 0,
    ensures
        digits_of(v).len() >= 1,
        all_digits(digits_of(v)),
        digits_value(digits_of(v)) == v,
    decreases v,
{
    if v < 10 {
        let s = digits_of(v);
        assert(s.len() == 1);
        assert(s.drop_last().len() == 0);
        assert(digits_value(s.drop_last()) == 0);
        assert(s.last() == (48 + v) as u8);
    } else {
        lemma_digits_write_the_number(v / 10);
        let front = digits_of(v / 10);
        let s = digits_of(v);
        assert(s.drop_last() =~= front);
        assert(s.last() == (48 + v % 10) as u8);
        assert forall|i: int| 0 <= i < s.len() implies is_digit(#[trigger] s[i]) by {
            if i < front.len() {
                assert(s[i] == front[i]);
            }
        }
    }
}

/// Reading the decimal form of a 32-bit number gives the number back.
pub proof fn lemma_decimal_round_trip(n: i32)
    ensures
        decimal_value(decimal_bytes(n as int)) == Some(n),
{
    let bytes = decimal_bytes(n as int);
    if n < 0 {
        lemma_digits_write_the_number(-(n as int));
        assert(bytes[0] == 45);
        assert(bytes.skip(1) =~= digits_of(-(n as int)));
    } else {
        lemma_digits_write_the_number(n as int);
        assert(is_digit(bytes[0]));
    }
}

/// Decimal text is plain ASCII: its UTF-8 form is the decimal bytes.
pub proof fn lemma_decimal_text_bytes(n: i32)
    ensures
        encode_utf8(decimal_text(n)) == decimal_bytes(n as int),
        decimal_i32(decimal_text(n)) == Some(n),
{
    let bytes = decimal_bytes(n as int);
    let chars = decimal_text(n);
    if n < 0 {
        lemma_digits_write_the_number(-(n as int));
    } else {
        lemma_digits_write_the_number(n as int);
    }
    assert forall|i: int| 0 <= i < bytes.len() implies #[trigger] bytes[i] <= 57 by {
        if n < 0 {
            if i > 0 {
                assert(bytes[i] == digits_of(-(n as int))[i - 1]);
                assert(is_digit(digits_of(-(n as int))[i - 1]));
            }
        } else {
            assert(is_digit(digits_of(n as int)[i]));
        }
    }
    assert forall|i: int| 0 <= i < chars.len() implies '\0' <= #[trigger] chars[i] <= '\u{7f}'
        && chars[i] as u8 == bytes[i] by {
        let b = bytes[i];
        assert(b <= 57);
        assert(chars[i] == b as char);
    }
    is_ascii_chars_encode_utf8(chars);
    assert(encode_utf8(chars) =~= bytes);
    lemma_decimal_round_trip(n);
}

/// Appends the digits of `v`.
fn push_digits(v: u32, out: &mut Vec<u8>)
    ensures
        final(out)@ == old(out)@ + digits_of(v as int),
    decreases v,
{
    if v >= 10 {
        push_digits(v / 10, out);
    }
    let digit: u8 = (48 + v % 10) as u8;
    out.push(digit);
    assert(out@ =~= old(out)@ + digits_of(v as int));
}

/// Writes a number in decimal. Reading the text gives the number back.
pub fn i32_to_text(n: i32) -> (text: String)
    ensures
        text@ == decimal_text(n),
        decimal_i32(text@) == Some(n),
{
    let mut bytes: Vec<u8> = Vec::new();
    let magnitude: u32 = if n < 0 {
        bytes.push(45u8);
        (-(n as i64)) as u32
    } else {
        n as u32
    };
    push_digits(magnitude, &mut bytes);
    proof {
        assert(bytes@ =~= decimal_bytes(n as int));
        lemma_decimal_text_bytes(n);
        encode_utf8_valid_utf8(decimal_text(n));
        encode_utf8_decode_utf8(decimal_text(n));
    }
    match string_from_utf8(bytes) {
        Some(text) => text,
        None => String::new(),
    }
}

/// Reads a number in decimal: an optional sign, then digits.
pub fn parse_i32(text: &str) -> (res: Option<i32>)
    ensures
        res == decimal_i32(text@),
{
    let bytes = text.as_bytes();
    if bytes.len() == 0 {
        return None;
    }
    let negative = bytes[0] == 45u8;
    let start: usize = if bytes[0] == 45u8 || bytes[0] == 43u8 {
        1
    } else {
        0
    };
    let ghost digits = behind_sign(bytes@);
    assert(digits =~= bytes@.skip(start as int));
    if start == bytes.len() {
        return None;
    }
    let mut magnitude: i64 = 0;
    let mut too_large = false;
    let mut i: usize = start;
    assert(digits.take(0) =~= Seq::<u8>::empty());
    while i < bytes.len()
        invariant
            start <= i <= bytes@.len(),
            start <= 1,
            bytes@.len() == bytes.len(),
            bytes@ == encode_utf8(text@),
            digits == bytes@.skip(start as int),
            digits == behind_sign(bytes@),
            all_digits(digits.take(i - start)),
            !too_large ==> magnitude == digits_value(digits.take(i - start)) && 0 <= magnitude
                <= 2147483648,
            too_large ==> digits_value(digits.take(i - start)) > 2147483648,
        decreases bytes@.len() - i,
    {
        let b = bytes[i];
        let ghost seen = digits.take(i - start);
        let ghost next = digits.take(i - start + 1);
        proof {
            assert(next.drop_last() =~= seen);
            assert(next.last() == b);
        }
        if b < 48u8 || b > 57u8 {
            assert(digits[i - start] == b);
            assert(!all_digits(digits));
            return None;
        }
        proof {
            assert forall|j: int| 0 <= j < next.len() implies is_digit(#[trigger] next[j]) by {
                if j < seen.len() {
                    assert(next[j] == seen[j]);
                }
            }
        }
        if !too_large {
            magnitude = magnitude * 10 + (b - 48u8) as i64;
            if magnitude > 2147483648 {
                too_large = true;
            }
        }
        i += 1;
    }
    proof {
        assert(digits.take(i - start) =~= digits);
    }
    if too_large {
        return None;
    }
    let value: i64 = if negative {
        -magnitude
    } else {
        magnitude
    };
    if value < -2147483648 || value > 2147483647 {
        None
    } else {
        Some(value as i32)
    }
}

} // verus!
