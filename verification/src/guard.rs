//! The functions that expressions have in place of those of `evalexpr` that have
//! no result for some arguments, and come to the same for all others.
//!
//! Where a shift is by a number of bits that an integer does not have, and where
//! the absolute value is of the smallest integer, `evalexpr` panics if it is
//! built with overflow checks and wraps around if it is not. Where a part of a
//! text starts or ends within a character, it panics. The functions here say that
//! there is no result.

use vstd::prelude::*;

use crate::text::chars_of;

verus! {

/// The number of bytes that a character takes in UTF-8.
pub open spec fn utf8_width(c: char) -> int {
    if (c as int) < 0x80 {
        1
    } else if (c as int) < 0x800 {
        2
    } else if (c as int) < 0x1_0000 {
        3
    } else {
        4
    }
}

/// The number of characters in the first `n` bytes of a text; nothing where
/// they are more than the text has, or end within a character.
pub open spec fn chars_within(text: Seq<char>, n: int) -> Option<int>
    decreases text.len(),
{
    if n == 0 {
        Some(0)
    } else if text.len() == 0 || n < utf8_width(text[0]) {
        None
    } else {
        match chars_within(text.skip(1), n - utf8_width(text[0])) {
            Some(k) => Some(k + 1),
            None => None,
        }
    }
}

/// The part of a text from byte `start` to byte `end`, or to its end; nothing
/// where there is no such part.
pub open spec fn part_of_text(text: Seq<char>, start: usize, end: Option<usize>) -> Option<
    Seq<char>,
> {
    match (chars_within(text, start as int), end) {
        (Some(i), None) => Some(text.skip(i)),
        (Some(i), Some(end)) => match chars_within(text, end as int) {
            Some(j) => if start <= end {
                Some(text.subrange(i, j))
            } else {
                None
            },
            None => None,
        },
        (None, _) => None,
    }
}

/// A number of characters is within the text, and grows with the bytes.
proof fn lemma_chars_within(text: Seq<char>, m: int, n: int)
    requires
        0 <= m <= n,
    ensures
        chars_within(text, n) matches Some(j) ==> 0 <= j <= text.len() && (chars_within(
            text,
            m,
        ) matches Some(i) ==> 0 <= i <= j),
    decreases text.len(),
{
    if n > 0 && text.len() > 0 && n >= utf8_width(text[0]) {
        let width = utf8_width(text[0]);
        if m >= width {
            lemma_chars_within(text.skip(1), m - width, n - width);
        } else {
            lemma_chars_within(text.skip(1), 0, n - width);
        }
    }
}

/// The number of bytes that a character takes in UTF-8.
fn char_bytes(c: char) -> (r: usize)
    ensures
        r == utf8_width(c),
{
    let code: u32 = c as u32;
    if code < 0x80 {
        1
    } else if code < 0x800 {
        2
    } else if code < 0x1_0000 {
        3
    } else {
        4
    }
}

/// The number of characters in the first `n` bytes of a text.
fn count_chars(text: &Vec<char>, n: usize) -> (r: Option<usize>)
    ensures
        match r {
            Some(k) => chars_within(text@, n as int) == Some(k as int),
            None => chars_within(text@, n as int) is None,
        },
{
    let mut left: usize = n;
    let mut k: usize = 0;
    assert(text@.skip(0) =~= text@);
    while left > 0
        invariant
            k <= text.len(),
            chars_within(text@, n as int) == match chars_within(
                text@.skip(k as int),
                left as int,
            ) {
                Some(more) => Some(k + more),
                None => None,
            },
        decreases left,
    {
        if k == text.len() {
            return None;
        }
        assert(text@.skip(k as int)[0] == text@[k as int]);
        assert(text@.skip(k as int).skip(1) =~= text@.skip(k + 1));
        let width = char_bytes(text[k]);
        if left < width {
            return None;
        }
        left = left - width;
        k = k + 1;
    }
    Some(k)
}

/// An integer as the number of a byte of a text.
pub fn byte_index(i: i64) -> (r: Option<usize>)
    ensures
        r == (if 0 <= i <= usize::MAX {
            Some(i as usize)
        } else {
            None
        }),
{
    if i < 0 || i as u64 > usize::MAX as u64 {
        None
    } else {
        Some(i as usize)
    }
}

/// The part of a text from byte `start` to byte `end`, or to its end.
pub fn substring(text: &str, start: usize, end: Option<usize>) -> (r: Option<String>)
    ensures
        match r {
            Some(part) => part_of_text(text@, start, end) == Some(part@),
            None => part_of_text(text@, start, end) is None,
        },
{
    let chars = chars_of(text);
    let i = match count_chars(&chars, start) {
        Some(i) => i,
        None => {
            return None;
        },
    };
    proof {
        lemma_chars_within(text@, start as int, start as int);
    }
    let j = match end {
        None => chars.len(),
        Some(end) => match count_chars(&chars, end) {
            Some(j) => {
                if start > end {
                    return None;
                }
                proof {
                    lemma_chars_within(text@, start as int, end as int);
                }
                j
            },
            None => {
                return None;
            },
        },
    };
    assert(text@.skip(i as int) =~= text@.subrange(i as int, text@.len() as int));
    Some(String::from_str(text.substring_char(i, j)))
}

/// The message for a shift by a number of bits that an integer does not have.
pub open spec fn shift_failure() -> Seq<char> {
    "shift by a number of bits out of range"@
}

/// The message for the absolute value of the smallest integer.
pub open spec fn absolute_failure() -> Seq<char> {
    "absolute value out of range"@
}

/// An integer shifted to the left, or else to the right.
pub fn shifted(left: bool, a: i64, b: i64) -> (r: Result<i64, String>)
    ensures
        match r {
            Ok(i) => 0 <= b < 64 && i == (if left {
                a << b
            } else {
                a >> b
            }),
            Err(message) => !(0 <= b < 64) && message@ == shift_failure(),
        },
{
    if b < 0 || b >= 64 {
        Err(String::from_str("shift by a number of bits out of range"))
    } else if left {
        Ok(a << b)
    } else {
        Ok(a >> b)
    }
}

/// The absolute value of an integer.
pub fn absolute(a: i64) -> (r: Result<i64, String>)
    ensures
        match r {
            Ok(i) => i == (if a < 0 {
                -a
            } else {
                a as int
            }),
            Err(message) => a == i64::MIN && message@ == absolute_failure(),
        },
{
    if a >= 0 {
        Ok(a)
    } else if a == i64::MIN {
        Err(String::from_str("absolute value out of range"))
    } else {
        Ok(-a)
    }
}

/// The bit pattern of the absolute value of a binary64 number: that of the
/// number without the sign.
pub fn absolute_bits(bits: u64) -> (r: u64)
    ensures
        r == bits % 0x8000_0000_0000_0000,
{
    bits % 0x8000_0000_0000_0000
}

} // verus!
