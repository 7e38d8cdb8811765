//! Laws of expressions over a number.

use vstd::prelude::*;
use vstd::utf8::{char_is_scalar, encode_scalar, encode_utf8};

use crate::eval::{
    cache_after_evaluation, evaluated, faithful, fields_after_evaluation, guards, number_variables,
    Binding, BindingView, Evaluation, EvaluationView, Oracle, OwnFunction, Variables,
};
use crate::float::finite_double;
use crate::guard::{chars_within, part_of_text, utf8_width};
use crate::json::{inserted, Entries, JsonView};
use crate::laws::texts::{a_text_around_what_occurs_in_it, what_occurs_in_a_text};
use crate::number::NumberView;
use crate::portable::{
    breaks_off_at, digit_at, exponent_at, free_of_doubles, long_number_at, lower, lowered, may_use,
    portable,
};
use crate::text::{occurs_at, occurs_in};

verus! {

/// An expression over a number has `value_int` for it where it is an integer in
/// the range of `i64`, `value_float` where it is a binary64 number, and its text
/// as `value_string`; there is no other variable.
pub proof fn variables_of_a_number(number: NumberView, name: Seq<char>)
    ensures
        number_variables(number).contains_key(name) <==> {
            ||| name == "value_int"@ && number.as_i64() is Some
            ||| name == "value_float"@ && number is Float
            ||| name == "value_string"@
        },
        number.as_i64() matches Some(i) ==> number_variables(number)["value_int"@]
            == BindingView::Int(i),
        number matches NumberView::Float(bits) ==> number_variables(number)["value_float"@]
            == BindingView::Float(bits),
        number_variables(number)["value_string"@] == BindingView::Text(number.text()),
{
    reveal_strlit("value_float");
    reveal_strlit("value_int");
    reveal_strlit("value_string");
    assert("value_float"@.len() == 11);
    assert("value_int"@.len() == 9);
    assert("value_string"@.len() == 12);
}

/// The JSON value of an outcome: an integer is the number with that value, a
/// finite binary64 number is itself, one that is not finite is null, a boolean is
/// itself, and another value the text it is written as. A failure has none.
pub proof fn json_of_an_outcome(i: i64, bits: u64, b: bool, text: Seq<char>)
    ensures
        EvaluationView::Int(i).json() matches Some(JsonView::Number(number)) && number.as_i64()
            == Some(i) && number.well_formed(),
        EvaluationView::Float(Some(bits)).json() == Some(
            JsonView::Number(NumberView::Float(bits)),
        ),
        EvaluationView::Float(None).json() == Some(JsonView::Null),
        EvaluationView::Boolean(b).json() == Some(JsonView::Bool(b)),
        EvaluationView::Other(text).json() == Some(JsonView::String(text)),
        EvaluationView::Failure(text).json() is None,
{
}

/// What an evaluation came to: all binary64 numbers that are not finite are one.
pub proof fn values_of_evaluations(i: i64, bits: u64, b: bool, text: String)
    ensures
        Evaluation::Int(i)@ == EvaluationView::Int(i),
        finite_double(bits) ==> Evaluation::Float(bits)@ == EvaluationView::Float(Some(bits)),
        !finite_double(bits) ==> Evaluation::Float(bits)@ == EvaluationView::Float(None),
        Evaluation::Boolean(b)@ == EvaluationView::Boolean(b),
        Evaluation::Other(text)@ == EvaluationView::Other(text@),
        Evaluation::Failure(text)@ == EvaluationView::Failure(text@),
{
}

/// The value of an outcome is put under the name, among the fields and among what
/// is known; the message of a failure under the name of the error, among the
/// fields alone.
pub proof fn what_an_evaluation_adds(
    fields: Entries,
    cache: Entries,
    name: Seq<char>,
    outcome: EvaluationView,
)
    ensures
        match (outcome, outcome.json()) {
            (EvaluationView::Failure(message), _) => {
                &&& fields_after_evaluation(fields, name, outcome) == inserted(
                    fields,
                    name + "_eval_error"@,
                    JsonView::String("eval error: "@ + message),
                )
                &&& cache_after_evaluation(cache, name, outcome) == cache
            },
            (_, Some(value)) => {
                &&& fields_after_evaluation(fields, name, outcome) == inserted(
                    fields,
                    name,
                    value,
                )
                &&& cache_after_evaluation(cache, name, outcome) == inserted(cache, name, value)
            },
            (_, None) => false,
        },
{
}

/// The functions of expressions that stand in place of built-in ones are these
/// four.
pub proof fn which_functions_are_guarded(name: Seq<char>)
    ensures
        guards().contains_key(name) <==> {
            ||| name == "shl"@
            ||| name == "shr"@
            ||| name == "math::abs"@
            ||| name == "str::substring"@
        },
        guards()["shl"@] == OwnFunction::ShiftLeft,
        guards()["shr"@] == OwnFunction::ShiftRight,
        guards()["math::abs"@] == OwnFunction::Absolute,
        guards()["str::substring"@] == OwnFunction::Substring,
{
    reveal_strlit("shl");
    reveal_strlit("shr");
    reveal_strlit("math::abs");
    reveal_strlit("str::substring");
    assert("shl"@[2] == 'l' && "shr"@[2] == 'r');
    assert("shl"@.len() == 3 && "shr"@.len() == 3);
    assert("math::abs"@.len() == 9 && "str::substring"@.len() == 14);
}

/// Where an expression is portable, each run gives it the outcome that it has,
/// whenever it comes up.
pub proof fn portable_expressions_have_one_outcome(
    oracle: Oracle,
    n: nat,
    expression: Seq<char>,
    variables: Variables,
)
    requires
        faithful(oracle),
        portable(expression, variables),
    ensures
        oracle(n, expression, variables) == evaluated(expression, variables),
{
}

/// An expression without a comment in which none of these names and signs occurs
/// is portable.
pub proof fn plain_expressions_are_portable(expression: Seq<char>, variables: Variables)
    requires
        !occurs_in(expression, "/"@),
        !occurs_in(expression, "^"@),
        !occurs_in(expression, "math::"@),
        !occurs_in(expression, "random"@),
        !occurs_in(expression, "min"@),
        !occurs_in(expression, "max"@),
    ensures
        portable(expression, variables),
{
    lemma_no_comment(expression, "^"@);
    lemma_no_comment(expression, "random"@);
    lemma_no_comment(expression, "min"@);
    lemma_no_comment(expression, "max"@);
    lemma_names_under_math(expression);
}

/// An expression without `math::` uses no name under it.
proof fn lemma_names_under_math(expression: Seq<char>)
    requires
        !occurs_in(expression, "/"@),
        !occurs_in(expression, "math::"@),
    ensures
        !may_use(expression, "math::l"@),
        !may_use(expression, "math::exp"@),
        !may_use(expression, "math::pow"@),
        !may_use(expression, "math::c"@),
        !may_use(expression, "math::ac"@),
        !may_use(expression, "math::sin"@),
        !may_use(expression, "math::as"@),
        !may_use(expression, "math::t"@),
        !may_use(expression, "math::at"@),
        !may_use(expression, "math::h"@),
{
    lemma_longer_name(expression, "l"@);
    lemma_longer_name(expression, "exp"@);
    lemma_longer_name(expression, "pow"@);
    lemma_longer_name(expression, "c"@);
    lemma_longer_name(expression, "ac"@);
    lemma_longer_name(expression, "sin"@);
    lemma_longer_name(expression, "as"@);
    lemma_longer_name(expression, "t"@);
    lemma_longer_name(expression, "at"@);
    lemma_longer_name(expression, "h"@);
    reveal_strlit("math::");
    reveal_strlit("math::l");
    reveal_strlit("math::exp");
    reveal_strlit("math::pow");
    reveal_strlit("math::c");
    reveal_strlit("math::ac");
    reveal_strlit("math::sin");
    reveal_strlit("math::as");
    reveal_strlit("math::t");
    reveal_strlit("math::at");
    reveal_strlit("math::h");
    reveal_strlit("l");
    reveal_strlit("exp");
    reveal_strlit("pow");
    reveal_strlit("c");
    reveal_strlit("ac");
    reveal_strlit("sin");
    reveal_strlit("as");
    reveal_strlit("t");
    reveal_strlit("at");
    reveal_strlit("h");
    assert("math::l"@ =~= "math::"@ + "l"@);
    assert("math::exp"@ =~= "math::"@ + "exp"@);
    assert("math::pow"@ =~= "math::"@ + "pow"@);
    assert("math::c"@ =~= "math::"@ + "c"@);
    assert("math::ac"@ =~= "math::"@ + "ac"@);
    assert("math::sin"@ =~= "math::"@ + "sin"@);
    assert("math::as"@ =~= "math::"@ + "as"@);
    assert("math::t"@ =~= "math::"@ + "t"@);
    assert("math::at"@ =~= "math::"@ + "at"@);
    assert("math::h"@ =~= "math::"@ + "h"@);
}

/// Without a slash no name breaks off.
proof fn lemma_no_comment(expression: Seq<char>, name: Seq<char>)
    requires
        !occurs_in(expression, "/"@),
    ensures
        may_use(expression, name) == occurs_in(expression, name),
{
    reveal_strlit("/");
    reveal_strlit("//");
    reveal_strlit("/*");
    assert forall|k: int| 0 < k < name.len() implies !#[trigger] breaks_off_at(
        expression,
        name,
        k,
    ) by {
        assert forall|behind: Seq<char>| behind.len() == 2 && behind[0] == '/' implies !occurs_in(
            expression,
            #[trigger] (name.take(k) + behind),
        ) by {
            let part = name.take(k) + behind;
            if occurs_in(expression, part) {
                let at = choose|at: int| occurs_at(expression, part, at);
                assert(expression.subrange(at, at + part.len())[k] == expression[at + k]);
                assert(part[k] == '/');
                assert(expression.subrange(at + k, at + k + 1) =~= "/"@);
                assert(occurs_at(expression, "/"@, at + k));
            }
        }
        assert("//"@.len() == 2 && "//"@[0] == '/');
        assert("/*"@.len() == 2 && "/*"@[0] == '/');
    }
}

/// A name under `math::` does not occur where that does not.
proof fn lemma_longer_name(expression: Seq<char>, rest: Seq<char>)
    requires
        !occurs_in(expression, "/"@),
        !occurs_in(expression, "math::"@),
    ensures
        !may_use(expression, "math::"@ + rest),
{
    let name = "math::"@ + rest;
    lemma_no_comment(expression, name);
    if occurs_in(expression, name) {
        let at = choose|at: int| occurs_at(expression, name, at);
        let whole = expression.subrange(at, at + name.len());
        assert(expression.subrange(at, at + "math::"@.len()) =~= whole.take(
            "math::"@.len() as int,
        ));
        assert(name.take("math::"@.len() as int) =~= "math::"@);
        assert(occurs_at(expression, "math::"@, at));
    }
}

/// A character takes as many bytes in UTF-8 as its encoding has.
proof fn lemma_encoded_width(c: char)
    ensures
        encode_scalar(c as u32).len() == utf8_width(c),
{
    char_is_scalar(c);
}

/// A text takes as many bytes in UTF-8 as its first character and the rest do.
proof fn lemma_encoded_length(text: Seq<char>)
    requires
        text.len() > 0,
    ensures
        encode_utf8(text).len() == utf8_width(text[0]) + encode_utf8(text.skip(1)).len(),
{
    assert(text.drop_first() =~= text.skip(1));
    lemma_encoded_width(text[0]);
}

/// A text with another behind it takes as many bytes as the two.
proof fn lemma_encoded_sum(text: Seq<char>, more: Seq<char>)
    ensures
        encode_utf8(text + more).len() == encode_utf8(text).len() + encode_utf8(more).len(),
    decreases text.len(),
{
    if text.len() == 0 {
        assert(text + more =~= more);
    } else {
        lemma_encoded_length(text);
        lemma_encoded_length(text + more);
        lemma_encoded_sum(text.skip(1), more);
        assert((text + more).skip(1) =~= text.skip(1) + more);
    }
}

/// A text with something behind it has the same characters in the bytes it takes.
proof fn lemma_chars_of_a_prefix(text: Seq<char>, more: Seq<char>)
    ensures
        chars_within(text + more, encode_utf8(text).len() as int) == Some(text.len() as int),
    decreases text.len(),
{
    if text.len() > 0 {
        lemma_encoded_length(text);
        lemma_chars_of_a_prefix(text.skip(1), more);
        assert((text + more).skip(1) =~= text.skip(1) + more);
        assert((text + more)[0] == text[0]);
    }
}

/// The characters in the first `n` bytes of a text take these bytes.
proof fn lemma_bytes_of_chars(text: Seq<char>, n: int)
    requires
        n >= 0,
    ensures
        chars_within(text, n) matches Some(k) ==> 0 <= k <= text.len() && encode_utf8(
            text.take(k),
        ).len() == n,
    decreases text.len(),
{
    if n == 0 {
        assert(text.take(0) =~= Seq::<char>::empty());
    } else if text.len() > 0 && n >= utf8_width(text[0]) {
        lemma_bytes_of_chars(text.skip(1), n - utf8_width(text[0]));
        if let Some(k) = chars_within(text, n) {
            lemma_encoded_length(text.take(k));
            assert(text.take(k).skip(1) =~= text.skip(1).take(k - 1));
        }
    }
}

/// The part of a text between the bytes at which it starts and ends is that part.
/// Without an end it is the rest.
pub proof fn parts_of_texts(
    before: Seq<char>,
    part: Seq<char>,
    after: Seq<char>,
    start: usize,
    end: usize,
)
    requires
        start == encode_utf8(before).len(),
        end == encode_utf8(before + part).len(),
    ensures
        part_of_text(before + part + after, start, Some(end)) == Some(part),
        part_of_text(before + part + after, start, None) == Some(part + after),
{
    let text = before + part + after;
    lemma_encoded_sum(before, part);
    lemma_chars_of_a_prefix(before, part + after);
    lemma_chars_of_a_prefix(before + part, after);
    assert(text =~= before + (part + after));
    assert(text.subrange(before.len() as int, (before + part).len() as int) =~= part);
    assert(text.skip(before.len() as int) =~= part + after);
}

/// There is a part of a text only where characters start and end at these bytes.
pub proof fn where_parts_of_texts_are(text: Seq<char>, start: usize, end: usize, part: Seq<char>)
    requires
        part_of_text(text, start, Some(end)) == Some(part),
    ensures
        exists|before: Seq<char>, after: Seq<char>|
            {
                &&& text == #[trigger] (before + part + after)
                &&& start == encode_utf8(before).len()
                &&& end == encode_utf8(before + part).len()
            },
{
    lemma_bytes_of_chars(text, start as int);
    lemma_bytes_of_chars(text, end as int);
    let i = chars_within(text, start as int)->0;
    let j = chars_within(text, end as int)->0;
    if j < i {
        lemma_encoded_sum(text.take(j), text.subrange(j, i));
        assert(text.take(i) =~= text.take(j) + text.subrange(j, i));
        lemma_encoded_length(text.subrange(j, i));
    }
    let before = text.take(i);
    let after = text.skip(j);
    assert(text =~= before + part + after);
    assert(before + part =~= text.take(j));
}

/// Whether a name is the start of functions whose outcome may differ from machine
/// to machine, or each time.
pub open spec fn differs_by_machine(name: Seq<char>) -> bool {
    ||| name == "math::l"@
    ||| name == "math::exp"@
    ||| name == "math::pow"@
    ||| name == "math::c"@
    ||| name == "math::ac"@
    ||| name == "math::sin"@
    ||| name == "math::as"@
    ||| name == "math::t"@
    ||| name == "math::at"@
    ||| name == "math::h"@
    ||| name == "random"@
}

/// An expression with such a name in it is not portable, also where a comment
/// stands in the name.
pub proof fn names_that_are_not_portable(
    before: Seq<char>,
    name: Seq<char>,
    k: int,
    after: Seq<char>,
    variables: Variables,
)
    requires
        differs_by_machine(name),
        0 < k < name.len(),
    ensures
        !portable(before + name + after, variables),
        !portable(before + (name.take(k) + "//"@) + after, variables),
        !portable(before + (name.take(k) + "/*"@) + after, variables),
{
    texts_that_may_use_a_name(before, name, k, after);
}

/// A power is not portable.
pub proof fn powers_are_not_portable(before: Seq<char>, after: Seq<char>, variables: Variables)
    ensures
        !portable(before + "^"@ + after, variables),
{
    what_occurs_in_a_text(before, "^"@, after);
}

/// Whether a letter is this one in lower or upper case.
pub open spec fn is_letter(c: char, small: char, great: char) -> bool {
    c == small || c == great
}

/// Whether not all of `n` characters from a place on are digits.
pub open spec fn has_other_than_digits(text: Seq<char>, at: int, n: int) -> bool {
    exists|i: int| at <= i < at + n && !('0' <= #[trigger] text[i] <= '9')
}

/// The least or the greatest of integers is portable: no binary64 number is
/// written in the expression, the number is not one, and no function makes one.
pub proof fn extremes_of_integers_are_portable(expression: Seq<char>, number: NumberView)
    requires
        !(number is Float),
        !occurs_in(expression, "/"@),
        !occurs_in(expression, "^"@),
        !occurs_in(expression, "math::"@),
        !occurs_in(expression, "random"@),
        !occurs_in(expression, "floor"@),
        !occurs_in(expression, "round"@),
        !occurs_in(expression, "ceil"@),
        !occurs_in(expression, "."@),
        forall|i: int|
            0 <= i && i + 1 < expression.len() && '0' <= #[trigger] expression[i] <= '9'
                ==> !is_letter(expression[i + 1], 'e', 'E'),
        forall|i: int|
            0 <= i && i + 19 <= expression.len() ==> #[trigger] has_other_than_digits(
                expression,
                i,
                19,
            ),
        forall|i: int|
            0 <= i && i + 3 <= expression.len() ==> !(is_letter(
                #[trigger] expression[i],
                'i',
                'I',
            ) && is_letter(expression[i + 1], 'n', 'N') && is_letter(expression[i + 2], 'f', 'F')),
        forall|i: int|
            0 <= i && i + 3 <= expression.len() ==> !(is_letter(
                #[trigger] expression[i],
                'n',
                'N',
            ) && is_letter(expression[i + 1], 'a', 'A') && is_letter(expression[i + 2], 'n', 'N')),
    ensures
        portable(expression, number_variables(number)),
{
    let variables = number_variables(number);
    lemma_names_under_math(expression);
    lemma_no_comment(expression, "^"@);
    lemma_no_comment(expression, "random"@);
    lemma_longer_name(expression, "s"@);
    reveal_strlit("math::");
    reveal_strlit("math::s");
    reveal_strlit("s");
    assert("math::s"@ =~= "math::"@ + "s"@);
    lemma_no_comment(expression, "math::s"@);
    lemma_no_slash(expression, "//"@);
    lemma_no_slash(expression, "/*"@);
    assert(!(exists|at: int| exponent_at(expression, at)));
    assert forall|at: int| 0 <= at implies !#[trigger] long_number_at(expression, at) by {
        if at + 19 <= expression.len() {
            assert(has_other_than_digits(expression, at, 19));
            let j = choose|j: int|
                at <= j < at + 19 && !('0' <= #[trigger] expression[j] <= '9');
            assert(!digit_at(expression, j));
        } else {
            assert(!digit_at(expression, at + 18));
        }
    }
    reveal_strlit("inf");
    reveal_strlit("nan");
    let small = lowered(expression);
    if occurs_in(small, "inf"@) {
        let at = choose|at: int| occurs_at(small, "inf"@, at);
        lemma_three_letters(expression, "inf"@, at);
    }
    if occurs_in(small, "nan"@) {
        let at = choose|at: int| occurs_at(small, "nan"@, at);
        lemma_three_letters(expression, "nan"@, at);
    }
    assert forall|name: Seq<char>| #[trigger]
        variables.contains_key(name) implies !(variables[name] is Float) by {
        variables_of_a_number(number, name);
    }
    assert(free_of_doubles(expression, variables));
}

/// The letters of a text whose lower case has three letters at a place.
proof fn lemma_three_letters(text: Seq<char>, part: Seq<char>, at: int)
    requires
        part.len() == 3,
        occurs_at(lowered(text), part, at),
    ensures
        0 <= at,
        at + 3 <= text.len(),
        lower(text[at]) == part[0],
        lower(text[at + 1]) == part[1],
        lower(text[at + 2]) == part[2],
{
    let found = lowered(text).subrange(at, at + 3);
    assert(found[0] == lower(text[at]));
    assert(found[1] == lower(text[at + 1]));
    assert(found[2] == lower(text[at + 2]));
}

/// Where there is no slash no text with one occurs.
proof fn lemma_no_slash(expression: Seq<char>, part: Seq<char>)
    requires
        !occurs_in(expression, "/"@),
        part == "//"@ || part == "/*"@,
    ensures
        !occurs_in(expression, part),
{
    reveal_strlit("/");
    reveal_strlit("//");
    reveal_strlit("/*");
    if occurs_in(expression, part) {
        let at = choose|at: int| occurs_at(expression, part, at);
        assert(expression.subrange(at, at + 2)[0] == expression[at]);
        assert(expression.subrange(at, at + 1) =~= "/"@);
        assert(occurs_at(expression, "/"@, at));
    }
}

/// The least or the greatest of numbers is not portable where a binary64 number is
/// written with a point and a minus sign makes a negative zero possible.
pub proof fn extremes_of_signed_doubles_are_not_portable(
    expression: Seq<char>,
    variables: Variables,
)
    requires
        occurs_in(expression, "min"@) || occurs_in(expression, "max"@),
        occurs_in(expression, "."@),
        occurs_in(expression, "-"@),
    ensures
        !portable(expression, variables),
{
}

/// What a variable stands for is the value that it is bound to.
pub proof fn values_of_bindings(i: i64, bits: u64, text: String)
    ensures
        Binding::Int(i)@ == BindingView::Int(i),
        Binding::Float(bits)@ == BindingView::Float(bits),
        Binding::Text(text)@ == BindingView::Text(text@),
{
}

/// A name may be used where it stands in the text, or begins there before a
/// comment.
pub proof fn texts_that_may_use_a_name(
    before: Seq<char>,
    name: Seq<char>,
    k: int,
    after: Seq<char>,
)
    requires
        0 < k < name.len(),
    ensures
        may_use(before + name + after, name),
        may_use(before + (name.take(k) + "//"@) + after, name),
        may_use(before + (name.take(k) + "/*"@) + after, name),
{
    what_occurs_in_a_text(before, name, after);
    what_occurs_in_a_text(before, name.take(k) + "//"@, after);
    what_occurs_in_a_text(before, name.take(k) + "/*"@, after);
    assert(breaks_off_at(before + (name.take(k) + "//"@) + after, name, k));
    assert(breaks_off_at(before + (name.take(k) + "/*"@) + after, name, k));
}

/// A name may be used nowhere else.
pub proof fn what_a_name_may_be_used_in(expression: Seq<char>, name: Seq<char>)
    requires
        may_use(expression, name),
    ensures
        exists|part: Seq<char>, before: Seq<char>, after: Seq<char>|
            {
                &&& expression == #[trigger] (before + part + after)
                &&& part == name || exists|k: int|
                    0 < k < name.len() && (part == #[trigger] name.take(k) + "//"@ || part
                        == name.take(k) + "/*"@)
            },
{
    let part = if occurs_in(expression, name) {
        name
    } else {
        let k = choose|k: int| 0 < k < name.len() && breaks_off_at(expression, name, k);
        assert(name.take(k) == name.take(k));
        if occurs_in(expression, name.take(k) + "//"@) {
            name.take(k) + "//"@
        } else {
            name.take(k) + "/*"@
        }
    };
    a_text_around_what_occurs_in_it(expression, part);
    let (before, after) = choose|before: Seq<char>, after: Seq<char>|
        expression == #[trigger] (before + part + after);
    assert(expression == before + part + after);
}

} // verus!
