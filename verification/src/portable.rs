//! Expressions whose outcome is the same on every machine.

use vstd::prelude::*;

use crate::eval::{number_variables, BindingView, Variables};
use crate::number::{Number, NumberView};
use crate::text::{chars_of, occurs_in, stands_in};

verus! {

/// Whether a comment stands in the text behind the first `k` characters of a
/// name.
pub open spec fn breaks_off_at(expression: Seq<char>, name: Seq<char>, k: int) -> bool {
    occurs_in(expression, name.take(k) + "//"@) || occurs_in(expression, name.take(k) + "/*"@)
}

/// Whether a name begins in the text before a comment.
pub open spec fn breaks_off(expression: Seq<char>, name: Seq<char>) -> bool {
    exists|k: int| 0 < k < name.len() && breaks_off_at(expression, name, k)
}

/// Whether an expression may use a name: the name is in its text, or begins
/// there before a comment. `evalexpr` joins what stands before and behind a
/// comment.
pub open spec fn may_use(expression: Seq<char>, name: Seq<char>) -> bool {
    occurs_in(expression, name) || breaks_off(expression, name)
}

/// Whether a decimal digit stands at a place of the text.
pub open spec fn digit_at(text: Seq<char>, at: int) -> bool {
    0 <= at < text.len() && '0' <= text[at] <= '9'
}

/// Whether an exponent may stand behind a digit at a place of the text.
pub open spec fn exponent_at(text: Seq<char>, at: int) -> bool {
    digit_at(text, at) && at + 1 < text.len() && (text[at + 1] == 'e' || text[at + 1] == 'E')
}

/// Whether more digits start at a place of the text than are sure to be an `i64`.
pub open spec fn long_number_at(text: Seq<char>, at: int) -> bool {
    forall|i: int| at <= i < at + 19 ==> #[trigger] digit_at(text, i)
}

/// A letter in lower case, any other character as it is.
pub open spec fn lower(c: char) -> char {
    if 'A' <= c <= 'Z' {
        (c as int + 32) as char
    } else {
        c
    }
}

/// The text in lower case.
pub open spec fn lowered(text: Seq<char>) -> Seq<char> {
    Seq::new(text.len(), |i: int| lower(text[i]))
}

/// Whether a binary64 number may be written in the text: one with a point or an
/// exponent, one too great for an integer, an infinity, or what is no number.
pub open spec fn may_write_double(text: Seq<char>) -> bool {
    ||| occurs_in(text, "."@)
    ||| exists|at: int| exponent_at(text, at)
    ||| exists|at: int| 0 <= at && #[trigger] long_number_at(text, at)
    ||| occurs_in(lowered(text), "inf"@)
    ||| occurs_in(lowered(text), "nan"@)
}

/// Whether no binary64 number comes up in an expression: none is written, no
/// variable is one, and no function makes one of integers. The expression holds
/// no comment, which could join what stands before and behind it.
pub open spec fn free_of_doubles(expression: Seq<char>, variables: Variables) -> bool {
    &&& !occurs_in(expression, "//"@)
    &&& !occurs_in(expression, "/*"@)
    &&& !may_write_double(expression)
    &&& !occurs_in(expression, "floor"@)
    &&& !occurs_in(expression, "round"@)
    &&& !occurs_in(expression, "ceil"@)
    &&& !occurs_in(expression, "math::s"@)
    &&& forall|name: Seq<char>| #[trigger]
        variables.contains_key(name) ==> variables[name] is Float ==> !occurs_in(expression, name)
}

/// Whether no negative zero comes up in an expression: no variable is one, and
/// nothing in it makes one of other numbers. Without slashes it holds no comment.
pub open spec fn free_of_negative_zeros(expression: Seq<char>, variables: Variables) -> bool {
    &&& !occurs_in(expression, "-"@)
    &&& !occurs_in(expression, "*"@)
    &&& !occurs_in(expression, "/"@)
    &&& !occurs_in(expression, "%"@)
    &&& !occurs_in(expression, "round"@)
    &&& !occurs_in(expression, "ceil"@)
    &&& forall|name: Seq<char>| #[trigger]
        variables.contains_key(name) ==> variables[name] != BindingView::Float(
            0x8000_0000_0000_0000,
        )
}

/// Whether the least and the greatest of numbers in an expression are the same
/// on every machine: the standard library leaves open which of two zeros of
/// different sign is taken.
pub open spec fn portable_extremes(expression: Seq<char>, variables: Variables) -> bool {
    ||| !may_use(expression, "min"@) && !may_use(expression, "max"@)
    ||| free_of_doubles(expression, variables)
    ||| free_of_negative_zeros(expression, variables)
}

/// Whether the outcome is the same on every machine and each time. The standard
/// library leaves open the last digits of powers, exponentials, logarithms, cube
/// roots, hypotenuses and trigonometric functions, and some of the least and
/// greatest; a random number is another one each time.
pub open spec fn portable(expression: Seq<char>, variables: Variables) -> bool {
    &&& !may_use(expression, "^"@)
    &&& !may_use(expression, "math::l"@)
    &&& !may_use(expression, "math::exp"@)
    &&& !may_use(expression, "math::pow"@)
    &&& !may_use(expression, "math::c"@)
    &&& !may_use(expression, "math::ac"@)
    &&& !may_use(expression, "math::sin"@)
    &&& !may_use(expression, "math::as"@)
    &&& !may_use(expression, "math::t"@)
    &&& !may_use(expression, "math::at"@)
    &&& !may_use(expression, "math::h"@)
    &&& !may_use(expression, "random"@)
    &&& portable_extremes(expression, variables)
}

/// Whether a name begins in the text before a comment.
fn is_broken_off(text: &Vec<char>, name: &Vec<char>) -> (r: bool)
    ensures
        r == breaks_off(text@, name@),
{
    let mut begin: Vec<char> = Vec::new();
    let mut k: usize = 0;
    proof {
        reveal_strlit("//");
        reveal_strlit("/*");
    }
    while k + 1 < name.len()
        invariant
            k < name.len() || k == 0,
            begin@ == name@.take(k as int),
            "//"@ =~= seq!['/', '/'],
            "/*"@ =~= seq!['/', '*'],
            forall|j: int| 0 < j <= k ==> !breaks_off_at(text@, name@, j),
        decreases name.len() - k,
    {
        begin.push(name[k]);
        k = k + 1;
        assert(begin@ =~= name@.take(k as int));
        let mut line: Vec<char> = begin.clone();
        line.push('/');
        let mut block: Vec<char> = line.clone();
        line.push('/');
        block.push('*');
        assert(line@ =~= name@.take(k as int) + "//"@);
        assert(block@ =~= name@.take(k as int) + "/*"@);
        if stands_in(text, &line) || stands_in(text, &block) {
            assert(breaks_off_at(text@, name@, k as int));
            return true;
        }
    }
    false
}

/// Whether an expression may use a name.
pub fn could_use(expression: &str, name: &str) -> (r: bool)
    ensures
        r == may_use(expression@, name@),
{
    let text = chars_of(expression);
    let name = chars_of(name);
    stands_in(&text, &name) || is_broken_off(&text, &name)
}

/// Whether an expression holds a text.
fn holds(expression: &Vec<char>, part: &str) -> (r: bool)
    ensures
        r == occurs_in(expression@, part@),
{
    stands_in(expression, &chars_of(part))
}

/// The text in lower case.
fn lower_case(text: &Vec<char>) -> (r: Vec<char>)
    ensures
        r@ == lowered(text@),
{
    let mut r: Vec<char> = Vec::new();
    for i in 0..text.len()
        invariant
            r.len() == i,
            forall|j: int| 0 <= j < i ==> #[trigger] r@[j] == lower(text@[j]),
    {
        let c = text[i];
        let small = if 'A' <= c && c <= 'Z' {
            (c as u8 + 32) as char
        } else {
            c
        };
        r.push(small);
    }
    assert(r@ =~= lowered(text@));
    r
}

/// Whether a binary64 number with an exponent, or too great for an integer, may
/// be written in the text.
fn has_great_number(text: &Vec<char>) -> (r: bool)
    ensures
        r == ((exists|at: int| exponent_at(text@, at)) || (exists|at: int|
            0 <= at && #[trigger] long_number_at(text@, at))),
{
    let mut digits: usize = 0;
    let mut i: usize = 0;
    while i < text.len()
        invariant
            digits <= i <= text.len(),
            digits < 19,
            forall|j: int| i - digits <= j < i ==> #[trigger] digit_at(text@, j),
            digits < i ==> !digit_at(text@, i - digits - 1),
            forall|at: int| at < i - 1 ==> !#[trigger] exponent_at(text@, at),
            forall|at: int| 0 <= at && at + 19 <= i ==> !#[trigger] long_number_at(text@, at),
        decreases text.len() - i,
    {
        let c = text[i];
        if digits > 0 && (c == 'e' || c == 'E') {
            assert(digit_at(text@, i - 1));
            assert(exponent_at(text@, i - 1));
            return true;
        }
        let ghost before = digits;
        if '0' <= c && c <= '9' {
            digits = digits + 1;
            if digits == 19 {
                assert(long_number_at(text@, i - 18));
                return true;
            }
        } else {
            digits = 0;
        }
        proof {
            if before == 0 && i > 0 {
                assert(!digit_at(text@, i - 1));
            }
            let at = i - 18;
            if 0 <= at && long_number_at(text@, at) {
                assert(digit_at(text@, i as int));
                assert(digit_at(text@, i - before - 1));
            }
        }
        i = i + 1;
    }
    proof {
        assert forall|at: int| 0 <= at implies !#[trigger] long_number_at(text@, at) by {
            if at + 19 > text.len() {
                assert(!digit_at(text@, at + 18));
            }
        }
        assert forall|at: int| !#[trigger] exponent_at(text@, at) by {}
    }
    false
}

/// Whether no binary64 number comes up in an expression over a number.
fn is_free_of_doubles(text: &Vec<char>, number: &Number) -> (r: bool)
    ensures
        r == free_of_doubles(text@, number_variables(number@)),
{
    if holds(text, "//") || holds(text, "/*") || holds(text, ".") || has_great_number(text)
        || holds(text, "floor") || holds(text, "round") || holds(text, "ceil") || holds(
        text,
        "math::s",
    ) {
        return false;
    }
    let small = lower_case(text);
    if holds(&small, "inf") || holds(&small, "nan") {
        return false;
    }
    proof {
        lemma_names();
    }
    match number.shape() {
        NumberView::Float(bits) => {
            assert(number_variables(number@).contains_key("value_float"@));
            assert(number_variables(number@)["value_float"@] is Float);
            !holds(text, "value_float")
        },
        _ => true,
    }
}

/// The names of the variables are different.
proof fn lemma_names()
    ensures
        "value_float"@ != "value_string"@,
        "value_int"@ != "value_string"@,
        "value_int"@ != "value_float"@,
{
    reveal_strlit("value_float");
    reveal_strlit("value_int");
    reveal_strlit("value_string");
    assert("value_float"@.len() == 11);
    assert("value_int"@.len() == 9);
    assert("value_string"@.len() == 12);
}

/// Whether no negative zero comes up in an expression over a number.
fn is_free_of_negative_zeros(text: &Vec<char>, number: &Number) -> (r: bool)
    ensures
        r == free_of_negative_zeros(text@, number_variables(number@)),
{
    if holds(text, "-") || holds(text, "*") || holds(text, "/") || holds(text, "%") || holds(
        text,
        "round",
    ) || holds(text, "ceil") {
        return false;
    }
    proof {
        lemma_names();
    }
    match number.shape() {
        NumberView::Float(bits) => {
            assert(number_variables(number@).contains_key("value_float"@));
            assert(number_variables(number@)["value_float"@] == BindingView::Float(bits));
            bits != 0x8000_0000_0000_0000
        },
        _ => true,
    }
}

/// Whether the outcome of an expression over a number is the same on every
/// machine and each time.
pub fn is_portable_expression(expression: &str, number: &Number) -> (r: bool)
    ensures
        r == portable(expression@, number_variables(number@)),
{
    if could_use(expression, "^") || could_use(expression, "math::l")
        || could_use(expression, "math::exp") || could_use(expression, "math::pow")
        || could_use(expression, "math::c") || could_use(expression, "math::ac")
        || could_use(expression, "math::sin") || could_use(expression, "math::as")
        || could_use(expression, "math::t") || could_use(expression, "math::at")
        || could_use(expression, "math::h") || could_use(expression, "random") {
        return false;
    }
    if !could_use(expression, "min") && !could_use(expression, "max") {
        return true;
    }
    let text = chars_of(expression);
    is_free_of_doubles(&text, number) || is_free_of_negative_zeros(&text, number)
}

} // verus!
