//! Numbers written in decimal.

use vstd::prelude::*;
use vstd::string::*;

use crate::text::chars_of;

verus! {

/// Whether `c` is a decimal digit.
pub open spec fn is_digit(c: char) -> bool {
    '0' <= c <= '9'
}

/// Whether `text` is one or more decimal digits.
pub open spec fn all_digits(text: Seq<char>) -> bool {
    text.len() > 0 && forall|i: int| 0 <= i < text.len() ==> is_digit(#[trigger] text[i])
}

/// The number that decimal digits stand for.
pub open spec fn digits_value(text: Seq<char>) -> nat
    decreases text.len(),
{
    if text.len() == 0 {
        0
    } else {
        10 * digits_value(text.drop_last()) + (text.last() as nat - '0' as nat) as nat
    }
}

/// The whole number that a text stands for: decimal digits, behind a plus sign or
/// without one.
pub open spec fn whole_number(text: Seq<char>) -> Option<nat> {
    let digits = if text.len() > 0 && text[0] == '+' {
        text.drop_first()
    } else {
        text
    };
    if all_digits(digits) {
        Some(digits_value(digits))
    } else {
        None
    }
}

/// The number that a text stands for: a whole number, or decimal digits behind a
/// minus sign.
pub open spec fn signed_number(text: Seq<char>) -> Option<int> {
    if text.len() > 0 && text[0] == '-' {
        if all_digits(text.drop_first()) {
            Some(-digits_value(text.drop_first()))
        } else {
            None
        }
    } else {
        match whole_number(text) {
            Some(n) => Some(n as int),
            None => None,
        }
    }
}

proof fn lemma_digits_grow(text: Seq<char>, n: int)
    requires
        0 <= n <= text.len(),
    ensures
        digits_value(text.take(n)) <= digits_value(text),
    decreases text.len() - n,
{
    if n < text.len() {
        lemma_digits_grow(text, n + 1);
        assert(text.take(n + 1).drop_last() =~= text.take(n));
    } else {
        assert(text.take(n) =~= text);
    }
}

fn digit_of(c: char) -> (digit: u64)
    requires
        is_digit(c),
    ensures
        digit == c as u64 - '0' as u64,
        digit < 10,
{
    (c as u32 - '0' as u32) as u64
}

/// The number that the digits from `from` on stand for, where it is at most `max`.
fn digits_from(chars: &Vec<char>, from: usize, max: u64) -> (value: Option<u64>)
    requires
        from <= chars@.len(),
    ensures
        match value {
            Some(n) => all_digits(chars@.skip(from as int)) && n <= max && n == digits_value(
                chars@.skip(from as int),
            ),
            None => !all_digits(chars@.skip(from as int)) || digits_value(
                chars@.skip(from as int),
            ) > max,
        },
{
    let ghost text = chars@.skip(from as int);
    if from == chars.len() {
        return None;
    }
    let mut at = from;
    let mut value: u64 = 0;
    while at < chars.len()
        invariant
            from <= at <= chars@.len(),
            text == chars@.skip(from as int),
            value <= max,
            value == digits_value(text.take(at - from)),
            forall|i: int| 0 <= i < at - from ==> is_digit(#[trigger] text[i]),
        decreases chars@.len() - at,
    {
        let c = chars[at];
        assert(text[at - from] == c);
        if c < '0' || c > '9' {
            return None;
        }
        let digit = digit_of(c);
        proof {
            lemma_digits_grow(text, at - from + 1);
            assert(text.take(at - from + 1).drop_last() =~= text.take(at - from));
            assert(text.take(at - from + 1).last() == c);
        }
        let wide: u128 = 10 * (value as u128) + digit as u128;
        if wide > max as u128 {
            return None;
        }
        value = wide as u64;
        at = at + 1;
    }
    assert(text.take(at - from) =~= text);
    Some(value)
}

/// The number that a text stands for, where it fits.
pub fn parse_u64(text: &str) -> (value: Option<u64>)
    ensures
        match value {
            Some(n) => whole_number(text@) == Some(n as nat),
            None => match whole_number(text@) {
                Some(n) => n > u64::MAX,
                None => true,
            },
        },
{
    let chars = chars_of(text);
    assert(chars@.skip(0) =~= text@);
    if chars.len() > 0 && chars[0] == '+' {
        assert(chars@.skip(1) =~= text@.drop_first());
        digits_from(&chars, 1, u64::MAX)
    } else {
        digits_from(&chars, 0, u64::MAX)
    }
}

/// The number that a text stands for, where it fits.
pub fn parse_i32(text: &str) -> (value: Option<i32>)
    ensures
        match value {
            Some(n) => signed_number(text@) == Some(n as int),
            None => match signed_number(text@) {
                Some(n) => n < i32::MIN || n > i32::MAX,
                None => true,
            },
        },
{
    let chars = chars_of(text);
    assert(chars@.skip(0) =~= text@);
    if chars.len() > 0 && chars[0] == '-' {
        assert(chars@.skip(1) =~= text@.drop_first());
        match digits_from(&chars, 1, 0x8000_0000) {
            Some(n) => Some((-(n as i64)) as i32),
            None => None,
        }
    } else {
        let from: usize = if chars.len() > 0 && chars[0] == '+' {
            1
        } else {
            0
        };
        assert(from == 1 ==> chars@.skip(1) =~= text@.drop_first());
        match digits_from(&chars, from, 0x7fff_ffff) {
            Some(n) => Some(n as i32),
            None => None,
        }
    }
}

} // verus!
