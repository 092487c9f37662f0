//! What the remote artifact cache reads out of a response.

use vstd::prelude::*;

verus! {

/// What can go wrong with a response of the remote cache.
#[derive(Debug, Clone, Copy, PartialEq, Eq, Structural)]
pub enum CacheError {
    /// The duration header does not hold a number.
    InvalidDuration,
    /// A signed artifact came without its tag.
    ArtifactTagMissing,
    /// The tag of an artifact cannot be read or does not match.
    InvalidTag,
}

/// Whether `byte` is an ASCII digit.
pub open spec fn is_digit(byte: u8) -> bool {
    0x30 <= byte <= 0x39
}

/// The number that a string of digits denotes in base ten.
pub open spec fn decimal_value(digits: Seq<u8>) -> nat
    decreases digits.len(),
{
    if digits.len() == 0 {
        0
    } else {
        decimal_value(digits.drop_last()) * 10 + (digits.last() - 0x30) as nat
    }
}

/// The digits of a number text: the text without a plus sign in front.
pub open spec fn digits_of(text: Seq<u8>) -> Seq<u8> {
    if text.len() > 0 && text[0] == 0x2b {
        text.drop_first()
    } else {
        text
    }
}

/// The duration that a header value denotes: its digits in base ten, where it
/// holds at least one digit, nothing but digits after an optional plus sign,
/// and a number that fits into 32 bits.
pub open spec fn duration_of(text: Seq<u8>) -> Option<u32> {
    let digits = digits_of(text);
    if digits.len() > 0 && (forall|i: int| 0 <= i < digits.len() ==> is_digit(#[trigger] digits[i]))
        && decimal_value(digits) <= u32::MAX {
        Some(decimal_value(digits) as u32)
    } else {
        None
    }
}

/// A digit string denotes at least what its beginning denotes.
pub proof fn lemma_decimal_value_grows(digits: Seq<u8>, count: int)
    requires
        0 <= count <= digits.len(),
        forall|i: int| 0 <= i < digits.len() ==> is_digit(#[trigger] digits[i]),
    ensures
        decimal_value(digits.take(count)) <= decimal_value(digits),
    decreases digits.len() - count,
{
    if count < digits.len() {
        let longer = digits.take(count + 1);
        assert(longer.drop_last() =~= digits.take(count));
        assert(longer.last() == digits[count]);
        lemma_decimal_value_grows(digits, count + 1);
    } else {
        assert(digits.take(count) =~= digits);
    }
}

/// The time that an artifact saved, as the duration header of a response
/// states it: 0 where the header is absent, and an error where it does not
/// hold a number.
pub fn get_duration_from_response(header: Option<&[u8]>) -> (result: Result<u32, CacheError>)
    ensures
        result == match header {
            None => Ok::<u32, CacheError>(0),
            Some(text) => match duration_of(text@) {
                Some(duration) => Ok(duration),
                None => Err(CacheError::InvalidDuration),
            },
        },
{
    let text = match header {
        Some(text) => text,
        None => {
            return Ok(0);
        },
    };
    let start: usize = if text.len() > 0 && text[0] == 0x2b {
        1
    } else {
        0
    };
    let ghost digits = digits_of(text@);
    assert(digits =~= text@.skip(start as int));
    if start == text.len() {
        return Err(CacheError::InvalidDuration);
    }
    let mut value: u64 = 0;
    let mut at: usize = start;
    while at < text.len()
        invariant
            start <= at <= text.len(),
            header == Some(text),
            digits == digits_of(text@),
            digits == text@.skip(start as int),
            forall|i: int| 0 <= i < at - start ==> is_digit(#[trigger] digits[i]),
            value == decimal_value(digits.take(at - start)),
            value <= u32::MAX,
        decreases text.len() - at,
    {
        let byte = text[at];
        assert(byte == digits[at - start]);
        if byte < 0x30 || byte > 0x39 {
            assert(!is_digit(digits[at - start]));
            return Err(CacheError::InvalidDuration);
        }
        let ghost longer = digits.take(at - start + 1);
        assert(longer.drop_last() =~= digits.take(at - start));
        assert(longer.last() == byte);
        value = value * 10 + (byte - 0x30) as u64;
        if value > u32::MAX as u64 {
            proof {
                if forall|i: int| 0 <= i < digits.len() ==> is_digit(#[trigger] digits[i]) {
                    lemma_decimal_value_grows(digits, at - start + 1);
                }
            }
            return Err(CacheError::InvalidDuration);
        }
        at += 1;
    }
    assert(digits.take(at - start) =~= digits);
    Ok(value as u32)
}

} // verus!
