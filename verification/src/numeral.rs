//! Decimal numerals: the text of a number token and the integer it denotes.

use crate::lexer::char_is_digit;
use crate::lexicon::is_digit;
use crate::text::chars_of;
use vstd::prelude::*;

verus! {

/// The value of the digit `c`.
pub open spec fn digit_value(c: char) -> int {
    c as int - '0' as int
}

/// Every character of `s` is an ASCII digit.
pub open spec fn all_digits(s: Seq<char>) -> bool {
    forall|k: int| 0 <= k < s.len() ==> is_digit(#[trigger] s[k])
}

/// The number that a string of digits denotes in base ten.
pub open spec fn decimal(digits: Seq<char>) -> int
    decreases digits.len(),
{
    if digits.len() == 0 {
        0
    } else {
        10 * decimal(digits.drop_last()) + digit_value(digits.last())
    }
}

/// Whether `text` opens with a sign.
pub open spec fn has_sign(text: Seq<char>) -> bool {
    text.len() > 0 && (text[0] == '-' || text[0] == '+')
}

/// The digits of `text`: all of it but a leading sign.
pub open spec fn magnitude(text: Seq<char>) -> Seq<char> {
    if has_sign(text) {
        text.drop_first()
    } else {
        text
    }
}

/// The 32-bit integer that `text` denotes: an optional `+` or `-`, then one
/// or more ASCII digits and nothing else, with a value that fits the type.
/// Any other text denotes none.
pub open spec fn numeral_value(text: Seq<char>) -> Option<i32> {
    let digits = magnitude(text);
    let value = if has_sign(text) && text[0] == '-' {
        -decimal(digits)
    } else {
        decimal(digits)
    };
    if digits.len() > 0 && all_digits(digits) && i32::MIN <= value <= i32::MAX {
        Some(value as i32)
    } else {
        None
    }
}

/// A string of digits denotes no negative number.
pub proof fn lemma_decimal_nonnegative(digits: Seq<char>)
    requires
        all_digits(digits),
    ensures
        decimal(digits) >= 0,
    decreases digits.len(),
{
    if digits.len() > 0 {
        assert(is_digit(digits[digits.len() - 1]));
        let front = digits.drop_last();
        assert forall|k: int| 0 <= k < front.len() implies is_digit(#[trigger] front[k]) by {
            assert(front[k] == digits[k]);
        }
        lemma_decimal_nonnegative(front);
    }
}

/// A string of digits denotes at least what any of its prefixes denotes.
pub proof fn lemma_decimal_prefix(digits: Seq<char>, n: int)
    requires
        all_digits(digits),
        0 <= n <= digits.len(),
    ensures
        0 <= decimal(digits.take(n)) <= decimal(digits),
    decreases digits.len(),
{
    if n == digits.len() {
        assert(digits.take(n) =~= digits);
        lemma_decimal_nonnegative(digits);
    } else {
        let front = digits.drop_last();
        assert(is_digit(digits[digits.len() - 1]));
        assert forall|k: int| 0 <= k < front.len() implies is_digit(#[trigger] front[k]) by {
            assert(front[k] == digits[k]);
        }
        lemma_decimal_prefix(front, n);
        assert(front.take(n) =~= digits.take(n));
    }
}

/// Reads `text` as a decimal numeral of 32 bits.
pub fn parse_integer(text: &str) -> (value: Option<i32>)
    ensures
        value == numeral_value(text@),
{
    let chars = chars_of(text);
    let n: usize = chars.len();
    let negative = n > 0 && chars[0] == '-';
    let start: usize = if n > 0 && (chars[0] == '-' || chars[0] == '+') {
        1
    } else {
        0
    };
    let ghost digits = magnitude(text@);
    assert(digits =~= chars@.subrange(start as int, n as int));
    if start == n {
        return None;
    }
    let limit: i64 = 2147483648;
    let mut total: i64 = 0;
    let mut i: usize = start;
    while i < n
        invariant
            chars@ == text@,
            n == chars.len(),
            start <= i <= n,
            start < n,
            digits == magnitude(text@),
            digits == chars@.subrange(start as int, n as int),
            negative == (has_sign(text@) && text@[0] == '-'),
            limit == 2147483648,
            0 <= total <= limit,
            total == decimal(digits.take(i - start)),
            all_digits(digits.take(i - start)),
        decreases n - i,
    {
        let c = chars[i];
        let ghost seen = digits.take(i - start);
        let ghost next = digits.take(i - start + 1);
        assert(next.drop_last() =~= seen);
        assert(next.last() == c);
        if !char_is_digit(c) {
            assert(!is_digit(digits[i - start]));
            return None;
        }
        let d: i64 = (c as u32 - '0' as u32) as i64;
        total = 10 * total + d;
        assert(total == decimal(next));
        assert(all_digits(next)) by {
            assert forall|k: int| 0 <= k < next.len() implies is_digit(#[trigger] next[k]) by {
                if k < seen.len() {
                    assert(next[k] == seen[k]);
                }
            }
        }
        if total > limit {
            proof {
                if all_digits(digits) {
                    lemma_decimal_prefix(digits, i - start + 1);
                }
            }
            return None;
        }
        i = i + 1;
    }
    assert(digits.take(n - start) =~= digits);
    if negative {
        Some((0 - total) as i32)
    } else if total == limit {
        None
    } else {
        Some(total as i32)
    }
}

} // verus!
