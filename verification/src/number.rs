//! Reading a signed 16-bit sample from its decimal text.

use crate::text::{chars_of, is_digit, lemma_run_bounds, lemma_run_is, run, Class};
use vstd::prelude::*;

verus! {

/// Why a text is not a sample.
#[derive(Clone, Copy, Debug, PartialEq, Eq, Structural)]
pub enum ParseError {
    /// The text is empty.
    Empty,
    /// The text holds something other than an optional sign followed by
    /// decimal digits, or is a sign alone.
    InvalidDigit,
    /// The number is above `i16::MAX`.
    PosOverflow,
    /// The number is below `i16::MIN`.
    NegOverflow,
}

impl ParseError {
    /// What went wrong, in words.
    pub open spec fn spec_reason(self) -> Seq<char> {
        match self {
            ParseError::Empty => "cannot parse integer from empty string"@,
            ParseError::InvalidDigit => "invalid digit found in string"@,
            ParseError::PosOverflow => "number too large to fit in target type"@,
            ParseError::NegOverflow => "number too small to fit in target type"@,
        }
    }

    /// The text that reports this failure.
    pub open spec fn spec_message(self) -> Seq<char> {
        "Failed to parse as uint: "@ + self.spec_reason()
    }

    /// What went wrong, in words.
    pub fn reason(&self) -> (words: &'static str)
        ensures
            words@ == self.spec_reason(),
    {
        match self {
            ParseError::Empty => "cannot parse integer from empty string",
            ParseError::InvalidDigit => "invalid digit found in string",
            ParseError::PosOverflow => "number too large to fit in target type",
            ParseError::NegOverflow => "number too small to fit in target type",
        }
    }

    /// The text that reports this failure.
    pub fn message(&self) -> (text: String)
        ensures
            text@ == self.spec_message(),
    {
        "Failed to parse as uint: ".to_owned().concat(self.reason())
    }
}

/// The number that the digit `c` stands for.
pub open spec fn digit_value(c: char) -> int {
    c as int - '0' as int
}

/// The number that a sequence of digits denotes in base ten (0 when empty).
pub open spec fn decimal(digits: Seq<char>) -> int
    decreases digits.len(),
{
    if digits.len() == 0 {
        0
    } else {
        10 * decimal(digits.drop_last()) + digit_value(digits.last())
    }
}

/// What a text means as a sample.
///
/// A sample is written as an optional `+` or `-` followed by one or more
/// decimal digits, and nothing else. The text is read from the left: digits
/// that already leave the range of `i16` are reported as an overflow even
/// when something that is not a digit follows them.
pub open spec fn spec_parse_i16(s: Seq<char>) -> Result<i16, ParseError> {
    if s.len() == 0 {
        Err(ParseError::Empty)
    } else {
        let negative = s[0] == '-';
        let body = if s[0] == '-' || s[0] == '+' {
            s.skip(1)
        } else {
            s
        };
        let n = run(body, Class::Digit);
        let magnitude = decimal(body.take(n));
        let value = if negative {
            -magnitude
        } else {
            magnitude
        };
        if body.len() == 0 {
            Err(ParseError::InvalidDigit)
        } else if value > i16::MAX {
            Err(ParseError::PosOverflow)
        } else if value < i16::MIN {
            Err(ParseError::NegOverflow)
        } else if n < body.len() {
            Err(ParseError::InvalidDigit)
        } else {
            Ok(value as i16)
        }
    }
}

/// A longer prefix of a run of digits never denotes a smaller number.
proof fn lemma_decimal_grows(digits: Seq<char>, i: int, k: int)
    requires
        0 <= i <= k <= digits.len(),
        forall|j: int| 0 <= j < k ==> is_digit(#[trigger] digits[j]),
    ensures
        0 <= decimal(digits.take(i)) <= decimal(digits.take(k)),
    decreases k - i,
{
    lemma_decimal_nonnegative(digits.take(i));
    if i < k {
        lemma_decimal_step(digits, i);
        lemma_decimal_grows(digits, i + 1, k);
    }
}

/// A sequence of digits denotes no negative number.
proof fn lemma_decimal_nonnegative(digits: Seq<char>)
    requires
        forall|j: int| 0 <= j < digits.len() ==> is_digit(#[trigger] digits[j]),
    ensures
        0 <= decimal(digits),
    decreases digits.len(),
{
    if digits.len() > 0 {
        lemma_decimal_nonnegative(digits.drop_last());
    }
}

/// Reading one more digit multiplies by ten and adds the digit.
proof fn lemma_decimal_step(digits: Seq<char>, i: int)
    requires
        0 <= i < digits.len(),
    ensures
        decimal(digits.take(i + 1)) == 10 * decimal(digits.take(i)) + digit_value(digits[i]),
{
    assert(digits.take(i + 1).drop_last() =~= digits.take(i));
}

/// Reads a sample from its decimal text.
pub fn parse_i16(text: &str) -> (r: Result<i16, ParseError>)
    ensures
        r == spec_parse_i16(text@),
{
    let chars = chars_of(text);
    let len = chars.len();
    if len == 0 {
        return Err(ParseError::Empty);
    }
    let negative = chars[0] == '-';
    let start: usize = if chars[0] == '-' || chars[0] == '+' {
        1
    } else {
        0
    };
    let ghost body = chars@.skip(start as int);
    assert(start == 0 ==> body =~= chars@);
    if start == len {
        return Err(ParseError::InvalidDigit);
    }
    let bound: i32 = if negative {
        32768
    } else {
        32767
    };
    let mut magnitude: i32 = 0;
    let mut i: usize = start;
    while i < len
        invariant
            start <= i <= len,
            0 < len == chars@.len(),
            chars@ == text@,
            negative == (chars@[0] == '-'),
            start == if chars@[0] == '-' || chars@[0] == '+' { 1usize } else { 0usize },
            bound == if negative { 32768i32 } else { 32767i32 },
            body == chars@.skip(start as int),
            start == 0 ==> body == chars@,
            forall|j: int| 0 <= j < i - start ==> is_digit(#[trigger] body[j]),
            magnitude == decimal(body.take(i - start)),
            0 <= magnitude <= bound <= 32768,
        decreases len - i,
    {
        let c = chars[i];
        assert(body[i - start] == c);
        if !('0' <= c && c <= '9') {
            proof {
                lemma_run_is(body, Class::Digit, i - start);
            }
            return Err(ParseError::InvalidDigit);
        }
        proof {
            lemma_decimal_step(body, i - start);
        }
        let digit: i32 = (c as u32 - '0' as u32) as i32;
        magnitude = magnitude * 10 + digit;
        if magnitude > bound {
            proof {
                lemma_run_bounds(body, Class::Digit);
                let n = run(body, Class::Digit);
                assert(n >= i - start + 1) by {
                    if n < i - start + 1 {
                        assert(is_digit(body[n]));
                    }
                }
                lemma_decimal_grows(body, i - start + 1, n);
            }
            return Err(
                if negative {
                    ParseError::NegOverflow
                } else {
                    ParseError::PosOverflow
                },
            );
        }
        i += 1;
    }
    proof {
        lemma_run_is(body, Class::Digit, len - start);
        assert(body.take(len - start) =~= body);
    }
    if negative {
        Ok((-magnitude) as i16)
    } else {
        Ok(magnitude as i16)
    }
}

} // verus!
