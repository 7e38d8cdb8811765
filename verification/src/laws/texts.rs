//! Laws of texts and of the integers in them.

use vstd::prelude::*;

use crate::text::{
    begins_with, decimal, digits_value, is_digits, occurs_at, occurs_in, parsed_i64, parsed_u32,
    precedes,
};

verus! {

/// A digit behind other digits makes their number ten times as great, and adds
/// its own.
pub proof fn each_digit_has_its_place(digits: Seq<char>, c: char)
    ensures
        digits_value(Seq::empty()) == 0,
        digits_value(digits.push(c)) == 10 * digits_value(digits) + (c as int - 48),
{
    assert(digits.push(c).drop_last() =~= digits);
}

/// A text is read as an `i64` where it is digits, at least one, with or without a
/// sign before them, and their number is one.
pub proof fn which_texts_are_an_i64(s: Seq<char>, i: i64)
    ensures
        parsed_i64(s) == Some(i) <==> exists|digits: Seq<char>|
            {
                &&& digits.len() > 0
                &&& forall|k: int| 0 <= k < digits.len() ==> '0' <= #[trigger] digits[k] <= '9'
                &&& {
                    ||| (s == digits || s == seq!['+'] + digits) && #[trigger] digits_value(digits)
                        == i
                    ||| s == seq!['-'] + digits && -digits_value(digits) == i
                }
            },
{
    let own = if s.len() > 0 && (s[0] == '+' || s[0] == '-') {
        s.skip(1)
    } else {
        s
    };
    assert(s.len() > 0 ==> s =~= seq![s[0]] + s.skip(1));
    if parsed_i64(s) == Some(i) {
        assert(is_digits(own));
        assert(digits_value(own) == digits_value(own));
    }
    assert forall|digits: Seq<char>|
        {
            &&& digits.len() > 0
            &&& forall|k: int| 0 <= k < digits.len() ==> '0' <= #[trigger] digits[k] <= '9'
            &&& {
                ||| (s == digits || s == seq!['+'] + digits) && #[trigger] digits_value(digits) == i
                ||| s == seq!['-'] + digits && -digits_value(digits) == i
            }
        } implies parsed_i64(s) == Some(i) by {
        assert('0' <= digits[0] <= '9');
        assert((seq!['+'] + digits).skip(1) =~= digits);
        assert((seq!['-'] + digits).skip(1) =~= digits);
        assert((seq!['+'] + digits)[0] == '+');
        assert((seq!['-'] + digits)[0] == '-');
        assert(own == digits);
    }
}

/// A text is read as a `u32` where it is digits, at least one, with or without a
/// plus sign before them, and their number is one.
pub proof fn which_texts_are_a_u32(s: Seq<char>, n: u32)
    ensures
        parsed_u32(s) == Some(n) <==> exists|digits: Seq<char>|
            {
                &&& digits.len() > 0
                &&& forall|k: int| 0 <= k < digits.len() ==> '0' <= #[trigger] digits[k] <= '9'
                &&& s == digits || s == seq!['+'] + digits
                &&& #[trigger] digits_value(digits) == n
            },
{
    let own = if s.len() > 0 && s[0] == '+' {
        s.skip(1)
    } else {
        s
    };
    assert(s.len() > 0 ==> s =~= seq![s[0]] + s.skip(1));
    if parsed_u32(s) == Some(n) {
        assert(is_digits(own));
        lemma_not_negative(own);
        assert(digits_value(own) == n);
    }
    assert forall|digits: Seq<char>|
        {
            &&& digits.len() > 0
            &&& forall|k: int| 0 <= k < digits.len() ==> '0' <= #[trigger] digits[k] <= '9'
            &&& s == digits || s == seq!['+'] + digits
            &&& #[trigger] digits_value(digits) == n
        } implies parsed_u32(s) == Some(n) by {
        assert('0' <= digits[0] <= '9');
        assert((seq!['+'] + digits).skip(1) =~= digits);
        assert((seq!['+'] + digits)[0] == '+');
        assert(own == digits);
    }
}

proof fn lemma_not_negative(digits: Seq<char>)
    requires
        forall|k: int| 0 <= k < digits.len() ==> '0' <= #[trigger] digits[k] <= '9',
    ensures
        digits_value(digits) >= 0,
    decreases digits.len(),
{
    if digits.len() > 0 {
        lemma_not_negative(digits.drop_last());
        assert(digits.last() == digits[digits.len() - 1]);
    }
}

/// Decimal notation has no leading zeros: only that of zero starts with one.
pub proof fn decimal_has_no_leading_zeros(n: nat)
    ensures
        decimal(n).len() > 0,
        decimal(n)[0] == '0' ==> n == 0,
        decimal(0) == seq!['0'],
    decreases n,
{
    if n >= 10 {
        decimal_has_no_leading_zeros(n / 10);
        assert(decimal(n)[0] == decimal(n / 10)[0]);
    }
    assert(decimal(0) =~= seq!['0']);
}

/// The order of texts goes by the first character in which they differ, and a
/// text comes before all that go on from it.
pub proof fn texts_are_in_the_order_of_their_characters(
    common: Seq<char>,
    a: Seq<char>,
    b: Seq<char>,
)
    ensures
        precedes(common + a, common + b) == precedes(a, b),
        a.len() > 0 && b.len() > 0 && a[0] != b[0] ==> precedes(a, b) == (a[0] < b[0]),
        precedes(Seq::empty(), b) == (b.len() > 0),
        !precedes(a, Seq::empty()),
    decreases common.len(),
{
    if common.len() == 0 {
        assert(common + a =~= a);
        assert(common + b =~= b);
    } else {
        texts_are_in_the_order_of_their_characters(common.skip(1), a, b);
        assert((common + a).skip(1) =~= common.skip(1) + a);
        assert((common + b).skip(1) =~= common.skip(1) + b);
        assert((common + a)[0] == common[0] && (common + b)[0] == common[0]);
    }
}

/// A text begins with another where it is that text with something behind it.
pub proof fn what_a_text_begins_with(s: Seq<char>, prefix: Seq<char>)
    ensures
        begins_with(s, prefix) <==> exists|rest: Seq<char>| s == #[trigger] (prefix + rest),
{
    if begins_with(s, prefix) {
        let rest = s.skip(prefix.len() as int);
        assert(s =~= prefix + rest);
    }
    assert forall|rest: Seq<char>| s == #[trigger] (prefix + rest) implies begins_with(
        s,
        prefix,
    ) by {
        assert(s.take(prefix.len() as int) =~= prefix);
    }
}

/// A text occurs in another where that is the text with something before and
/// behind it.
pub proof fn what_occurs_in_a_text(before: Seq<char>, part: Seq<char>, after: Seq<char>)
    ensures
        occurs_at(before + part + after, part, before.len() as int),
        occurs_in(before + part + after, part),
{
    let s = before + part + after;
    assert(s.subrange(before.len() as int, (before.len() + part.len()) as int) =~= part);
    assert(occurs_at(s, part, before.len() as int));
}

/// Where a text occurs in another, that is the text with something before and
/// behind it.
pub proof fn a_text_around_what_occurs_in_it(s: Seq<char>, part: Seq<char>)
    requires
        occurs_in(s, part),
    ensures
        exists|before: Seq<char>, after: Seq<char>| s == #[trigger] (before + part + after),
{
    let at = choose|at: int| occurs_at(s, part, at);
    let before = s.take(at);
    let after = s.skip(at + part.len());
    assert(s =~= before + part + after) by {
        assert forall|i: int| at <= i < at + part.len() implies s[i] == part[i - at] by {
            assert(s.subrange(at, at + part.len())[i - at] == s[i]);
        }
    }
}

} // verus!
