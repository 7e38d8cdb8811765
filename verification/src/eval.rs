//! Expressions over the value of a field, as the `evalexpr` crate evaluates
//! them.

use vstd::prelude::*;

use evalexpr::{ContextWithMutableFunctions, ContextWithMutableVariables};

use crate::float::finite_double;
use crate::guard::{absolute, absolute_bits, byte_index, shifted, substring};
use crate::json::{inserted, Entries, Json, JsonMap, JsonView};
use crate::number::{Number, NumberView};
use crate::portable::{is_portable_expression, portable};

verus! {

/// The value of a variable.
pub enum Binding {
    /// A binary64 number, by its bit pattern.
    Float(u64),
    Int(i64),
    Text(String),
}

/// The value of a variable as a mathematical value.
pub enum BindingView {
    Float(u64),
    Int(i64),
    Text(Seq<char>),
}

/// What variables stand for.
pub type Variables = Map<Seq<char>, BindingView>;

/// What an expression evaluates to.
#[derive(Debug, PartialEq, Eq)]
pub enum Evaluation {
    /// A binary64 number, by its bit pattern.
    Float(u64),
    Int(i64),
    Boolean(bool),
    /// A value of another type, as it is written.
    Other(String),
    /// The message of a failure.
    Failure(String),
}

/// What an expression evaluates to, as a mathematical value. The numbers that
/// are not finite are one.
pub enum EvaluationView {
    Float(Option<u64>),
    Int(i64),
    Boolean(bool),
    Other(Seq<char>),
    Failure(Seq<char>),
}

impl Binding {
    pub open spec fn view(&self) -> BindingView {
        match self {
            Binding::Float(bits) => BindingView::Float(*bits),
            Binding::Int(i) => BindingView::Int(*i),
            Binding::Text(s) => BindingView::Text(s@),
        }
    }
}

impl Evaluation {
    pub open spec fn view(&self) -> EvaluationView {
        match self {
            Evaluation::Float(bits) => EvaluationView::Float(
                if finite_double(*bits) {
                    Some(*bits)
                } else {
                    None
                },
            ),
            Evaluation::Int(i) => EvaluationView::Int(*i),
            Evaluation::Boolean(b) => EvaluationView::Boolean(*b),
            Evaluation::Other(s) => EvaluationView::Other(s@),
            Evaluation::Failure(s) => EvaluationView::Failure(s@),
        }
    }
}

impl EvaluationView {
    /// The JSON value of the outcome, a number that is not finite as null;
    /// nothing of a failure.
    pub open spec fn json(self) -> Option<JsonView> {
        match self {
            EvaluationView::Float(Some(bits)) => Some(JsonView::Number(NumberView::Float(bits))),
            EvaluationView::Float(None) => Some(JsonView::Null),
            EvaluationView::Int(i) => Some(JsonView::Number(NumberView::of_int(i))),
            EvaluationView::Boolean(b) => Some(JsonView::Bool(b)),
            EvaluationView::Other(s) => Some(JsonView::String(s)),
            EvaluationView::Failure(_) => None,
        }
    }
}

/// The variables of `evalexpr`.
#[verifier::external_type_specification]
#[verifier::external_body]
pub struct ExHashMapContext(evalexpr::HashMapContext);

/// What the variables of a context stand for.
pub uninterp spec fn variables(context: evalexpr::HashMapContext) -> Map<Seq<char>, BindingView>;

/// A function that a context has of its own.
pub enum OwnFunction {
    /// `guard::shifted` to the left, on two integers.
    ShiftLeft,
    /// `guard::shifted` to the right, on two integers.
    ShiftRight,
    /// `guard::absolute` on an integer, `guard::absolute_bits` on a binary64
    /// number.
    Absolute,
    /// `guard::substring` on a text and one or two integers by
    /// `guard::byte_index`.
    Substring,
    /// Another function.
    Other,
}

/// The functions that a context has of its own, by name. They stand in place of
/// the built-in ones.
pub uninterp spec fn own_functions(context: evalexpr::HashMapContext) -> Map<
    Seq<char>,
    OwnFunction,
>;

/// Whether a context has the built-in functions of `evalexpr`.
pub uninterp spec fn has_builtins(context: evalexpr::HashMapContext) -> bool;

/// What functions stand for.
pub type OwnFunctions = Map<Seq<char>, OwnFunction>;

/// The functions that stand in place of built-in ones which have no result for
/// some arguments: there `evalexpr` panics, or comes to a number that has
/// wrapped around where it is built without overflow checks. The guards fail.
pub open spec fn guards() -> OwnFunctions {
    OwnFunctions::empty().insert("shl"@, OwnFunction::ShiftLeft).insert(
        "shr"@,
        OwnFunction::ShiftRight,
    ).insert("math::abs"@, OwnFunction::Absolute).insert(
        "str::substring"@,
        OwnFunction::Substring,
    )
}

/// What a portable expression evaluates to with the built-in functions and the
/// guards.
pub uninterp spec fn evaluated(
    expression: Seq<char>,
    variables: Map<Seq<char>, BindingView>,
) -> EvaluationView;

/// `evalexpr::HashMapContext::new`: no variable stands for anything, and the
/// functions are the built-in ones.
#[verifier::external_body]
fn empty_context() -> (r: evalexpr::HashMapContext)
    ensures
        variables(r) == Variables::empty(),
        own_functions(r) == OwnFunctions::empty(),
        has_builtins(r),
{
    evalexpr::HashMapContext::new()
}

/// `evalexpr::ContextWithMutableVariables::set_value`: lets a new variable stand
/// for a value and leaves the functions as they are. A variable that is there
/// already may refuse a value of another type.
#[verifier::external_body]
fn bind(context: &mut evalexpr::HashMapContext, name: &str, value: Binding)
    requires
        !variables(*old(context)).contains_key(name@),
    ensures
        variables(*final(context)) == variables(*old(context)).insert(name@, value@),
        own_functions(*final(context)) == own_functions(*old(context)),
        has_builtins(*final(context)) == has_builtins(*old(context)),
{
    let value = match value {
        Binding::Float(bits) => evalexpr::Value::Float(evalexpr::FloatType::from_bits(bits)),
        Binding::Int(i) => evalexpr::Value::Int(i),
        Binding::Text(s) => evalexpr::Value::String(s),
    };
    context.set_value(name.to_string(), value).unwrap();
}

/// `evalexpr::ContextWithMutableFunctions::set_function` with a shift: on two
/// integers `guard::shifted`. Other arguments are refused as the built-in shifts
/// refuse them.
#[verifier::external_body]
fn guard_shift(context: &mut evalexpr::HashMapContext, name: &str, left: bool)
    ensures
        variables(*final(context)) == variables(*old(context)),
        own_functions(*final(context)) == own_functions(*old(context)).insert(
            name@,
            if left {
                OwnFunction::ShiftLeft
            } else {
                OwnFunction::ShiftRight
            },
        ),
        has_builtins(*final(context)) == has_builtins(*old(context)),
{
    let function = evalexpr::Function::new(move |argument| {
        let pair = argument.as_fixed_len_tuple(2)?;
        let (a, b) = (pair[0].as_int()?, pair[1].as_int()?);
        let result = shifted(left, a, b).map(evalexpr::Value::Int);
        result.map_err(evalexpr::EvalexprError::CustomMessage)
    });
    context.set_function(name.to_string(), function).unwrap();
}

/// `evalexpr::ContextWithMutableFunctions::set_function` with the absolute value:
/// on an integer `guard::absolute`, on a binary64 number `guard::absolute_bits`.
/// Other arguments are refused as the built-in function refuses them.
#[verifier::external_body]
fn guard_absolute(context: &mut evalexpr::HashMapContext, name: &str)
    ensures
        variables(*final(context)) == variables(*old(context)),
        own_functions(*final(context)) == own_functions(*old(context)).insert(
            name@,
            OwnFunction::Absolute,
        ),
        has_builtins(*final(context)) == has_builtins(*old(context)),
{
    let function = evalexpr::Function::new(|argument| match argument {
        evalexpr::Value::Float(x) => {
            let bits = absolute_bits(x.to_bits());
            Ok(evalexpr::Value::Float(evalexpr::FloatType::from_bits(bits)))
        },
        evalexpr::Value::Int(i) => absolute(*i).map(evalexpr::Value::Int).map_err(
            evalexpr::EvalexprError::CustomMessage,
        ),
        other => Err(evalexpr::EvalexprError::expected_number(other.clone())),
    });
    context.set_function(name.to_string(), function).unwrap();
}

/// `evalexpr::ContextWithMutableFunctions::set_function` with the part of a text:
/// on a text and one or two integers `guard::substring`, the integers by
/// `guard::byte_index`. Other arguments are refused as the built-in function
/// refuses them.
#[verifier::external_body]
fn guard_substring(context: &mut evalexpr::HashMapContext, name: &str)
    ensures
        variables(*final(context)) == variables(*old(context)),
        own_functions(*final(context)) == own_functions(*old(context)).insert(
            name@,
            OwnFunction::Substring,
        ),
        has_builtins(*final(context)) == has_builtins(*old(context)),
{
    let function = evalexpr::Function::new(|argument| {
        let parts = argument.as_ranged_len_tuple(2..=3)?;
        let text = parts[0].as_string()?;
        let index = |value: &evalexpr::Value| {
            byte_index(value.as_int()?).ok_or(evalexpr::EvalexprError::OutOfBoundsAccess)
        };
        let start = index(&parts[1])?;
        let end = parts.get(2).map(index).transpose()?;
        let part = substring(&text, start, end).map(evalexpr::Value::String);
        part.ok_or(evalexpr::EvalexprError::OutOfBoundsAccess)
    });
    context.set_function(name.to_string(), function).unwrap();
}

/// `evalexpr::eval_with_context_mut`: the outcome of a portable expression is the
/// one that `evaluated` names. Of another expression nothing is said, since its
/// outcome may differ from machine to machine.
#[verifier::external_body]
fn evaluate(expression: &str, mut context: evalexpr::HashMapContext) -> (r: Evaluation)
    requires
        own_functions(context) == guards(),
        has_builtins(context),
    ensures
        portable(expression@, variables(context)) ==> r@ == evaluated(expression@, variables(context)),
{
    match evalexpr::eval_with_context_mut(expression, &mut context) {
        Ok(evalexpr::Value::Float(x)) => Evaluation::Float(x.to_bits()),
        Ok(evalexpr::Value::Int(i)) => Evaluation::Int(i),
        Ok(evalexpr::Value::Boolean(b)) => Evaluation::Boolean(b),
        Ok(other) => Evaluation::Other(other.to_string()),
        Err(failure) => Evaluation::Failure(failure.to_string()),
    }
}

/// The variables that an expression over a number can use: `value_float` or
/// `value_int` after its kind, where it has one of the two, and `value_string`.
pub open spec fn number_variables(number: NumberView) -> Variables {
    let typed = match number {
        NumberView::Float(bits) => Map::empty().insert(
            "value_float"@,
            BindingView::Float(bits),
        ),
        _ => match number.as_i64() {
            Some(i) => Map::empty().insert("value_int"@, BindingView::Int(i)),
            None => Map::empty(),
        },
    };
    typed.insert("value_string"@, BindingView::Text(number.text()))
}

/// The context in which expressions over a number are evaluated.
fn context_of(number: &Number) -> (context: evalexpr::HashMapContext)
    ensures
        variables(context) == number_variables(number@),
        own_functions(context) == guards(),
        has_builtins(context),
{
    proof {
        reveal_strlit("value_float");
        reveal_strlit("value_int");
        reveal_strlit("value_string");
    }
    let mut context = empty_context();
    match number.shape() {
        NumberView::Float(bits) => {
            bind(&mut context, "value_float", Binding::Float(bits));
        },
        _ => {
            if let Some(i) = number.as_i64() {
                bind(&mut context, "value_int", Binding::Int(i));
            }
        },
    }
    assert("value_float"@.len() == 11);
    assert("value_int"@.len() == 9);
    assert("value_string"@.len() == 12);
    bind(&mut context, "value_string", Binding::Text(number.text()));
    assert(variables(context) =~= number_variables(number@));
    guard_shift(&mut context, "shl", true);
    guard_shift(&mut context, "shr", false);
    guard_absolute(&mut context, "math::abs");
    guard_substring(&mut context, "str::substring");
    context
}

/// An evaluation that was made.
pub struct EvalCall {
    pub expression: Seq<char>,
    pub variables: Variables,
    pub outcome: EvaluationView,
}

/// What evaluations come to: the outcome of an expression over variables, for
/// each evaluation of a run by its number.
pub type Oracle = spec_fn(nat, Seq<char>, Variables) -> EvaluationView;

/// Whether an oracle gives every portable expression the outcome it has.
pub open spec fn faithful(oracle: Oracle) -> bool {
    forall|n: nat, expression: Seq<char>, variables: Variables|
        portable(expression, variables) ==> #[trigger] oracle(n, expression, variables) == evaluated(
            expression,
            variables,
        )
}

/// Whether an oracle gives the evaluations that were made their outcomes.
pub open spec fn agrees(oracle: Oracle, calls: Seq<EvalCall>) -> bool {
    forall|i: int|
        0 <= i < calls.len() ==> oracle(
            i as nat,
            (#[trigger] calls[i]).expression,
            calls[i].variables,
        ) == calls[i].outcome
}

/// Whether the evaluations that were made gave every portable expression the
/// outcome it has.
pub open spec fn faithful_calls(calls: Seq<EvalCall>) -> bool {
    forall|i: int|
        0 <= i < calls.len() && portable((#[trigger] calls[i]).expression, calls[i].variables)
            ==> calls[i].outcome == evaluated(calls[i].expression, calls[i].variables)
}

/// Whether all expressions that were evaluated are portable.
pub open spec fn portable_calls(calls: Seq<EvalCall>) -> bool {
    forall|i: int|
        0 <= i < calls.len() ==> portable((#[trigger] calls[i]).expression, calls[i].variables)
}

/// An oracle for the evaluations that were made.
pub open spec fn replay(calls: Seq<EvalCall>) -> Oracle {
    |n: nat, expression: Seq<char>, variables: Variables|
        if n < calls.len() && calls[n as int].expression == expression && calls[n as int].variables
            == variables {
            calls[n as int].outcome
        } else {
            evaluated(expression, variables)
        }
}

pub proof fn lemma_replay(calls: Seq<EvalCall>)
    requires
        faithful_calls(calls),
    ensures
        faithful(replay(calls)),
        agrees(replay(calls), calls),
{
}

/// Evaluations of portable expressions leave an oracle no choice.
pub proof fn lemma_portable_calls_agree(oracle: Oracle, calls: Seq<EvalCall>)
    requires
        faithful(oracle),
        faithful_calls(calls),
        portable_calls(calls),
    ensures
        agrees(oracle, calls),
{
}

/// A record of the evaluations of a run.
pub struct Tape {
    portable: bool,
    calls: Ghost<Seq<EvalCall>>,
}

impl Tape {
    #[verifier::type_invariant]
    pub closed spec fn is_record(self) -> bool {
        &&& faithful_calls(self.calls@)
        &&& self.portable == portable_calls(self.calls@)
    }

    /// The evaluations in order.
    pub closed spec fn view(&self) -> Seq<EvalCall> {
        self.calls@
    }

    /// What a record holds is what the evaluations came to.
    pub proof fn lemma_record(self)
        requires
            self.is_record(),
        ensures
            faithful_calls(self@),
    {
    }

    /// A record of no evaluations.
    pub fn new() -> (r: Tape)
        ensures
            r@ == Seq::<EvalCall>::empty(),
    {
        Tape { portable: true, calls: Ghost(Seq::empty()) }
    }

    /// Whether all expressions that were evaluated are portable.
    pub fn is_portable(&self) -> (r: bool)
        ensures
            r == portable_calls(self@),
    {
        proof {
            use_type_invariant(self);
        }
        self.portable
    }

    /// Evaluates an expression over a number.
    pub fn run(&mut self, expression: &str, number: &Number) -> (r: Evaluation)
        ensures
            final(self)@ == old(self)@.push(
                EvalCall {
                    expression: expression@,
                    variables: number_variables(number@),
                    outcome: r@,
                },
            ),
    {
        proof {
            use_type_invariant(&*self);
        }
        let outcome = evaluate(expression, context_of(number));
        let still_portable = self.portable && is_portable_expression(
            expression,
            number,
        );
        let ghost call = EvalCall {
            expression: expression@,
            variables: number_variables(number@),
            outcome: outcome@,
        };
        let ghost before = self.calls@;
        let ghost after = before.push(call);
        proof {
            if still_portable {
                assert forall|i: int| 0 <= i < after.len() implies portable(
                    (#[trigger] after[i]).expression,
                    after[i].variables,
                ) by {
                    if i < before.len() {
                        assert(after[i] == before[i]);
                    }
                }
            } else if !portable(expression@, number_variables(number@)) {
                assert(after[before.len() as int] == call);
            } else {
                let i = choose|i: int|
                    0 <= i < before.len() && !portable(
                        (#[trigger] before[i]).expression,
                        before[i].variables,
                    );
                assert(after[i] == before[i]);
            }
            assert forall|i: int|
                0 <= i < after.len() && portable(
                    (#[trigger] after[i]).expression,
                    after[i].variables,
                ) implies after[i].outcome == evaluated(
                after[i].expression,
                after[i].variables,
            ) by {
                if i < before.len() {
                    assert(after[i] == before[i]);
                }
            }
        }
        *self = Tape { portable: still_portable, calls: Ghost(after) };
        outcome
    }
}

/// The JSON value of an outcome.
pub fn evaluation_json(evaluation: Evaluation) -> (r: Result<Json, String>)
    ensures
        match r {
            Ok(json) => evaluation@.json() == Some(json@),
            Err(message) => evaluation@ == EvaluationView::Failure(message@),
        },
{
    match evaluation {
        Evaluation::Float(bits) => match Number::from_double_bits(bits) {
            Some(number) => Ok(Json::Number(number)),
            None => Ok(Json::Null),
        },
        Evaluation::Int(i) => Ok(Json::Number(Number::from_i64(i))),
        Evaluation::Boolean(b) => Ok(Json::Bool(b)),
        Evaluation::Other(s) => Ok(Json::String(s)),
        Evaluation::Failure(message) => Err(message),
    }
}

/// The fields of a packet after an evaluation for the field `name`: its value
/// under the name, or the message of the failure under the name of the error.
pub open spec fn fields_after_evaluation(
    fields: Entries,
    name: Seq<char>,
    outcome: EvaluationView,
) -> Entries {
    match outcome {
        EvaluationView::Failure(message) => inserted(
            fields,
            name + "_eval_error"@,
            JsonView::String("eval error: "@ + message),
        ),
        _ => inserted(fields, name, outcome.json()->0),
    }
}

/// The values known by name after an evaluation for the field `name`: a
/// failure adds none.
pub open spec fn cache_after_evaluation(
    cache: Entries,
    name: Seq<char>,
    outcome: EvaluationView,
) -> Entries {
    match outcome {
        EvaluationView::Failure(_) => cache,
        _ => inserted(cache, name, outcome.json()->0),
    }
}

/// Enters the outcome of an evaluation for the field `name`.
pub fn store_evaluation(
    name: &String,
    evaluation: Evaluation,
    prev_val_cache: &mut JsonMap,
    parsed_data: &mut JsonMap,
)
    ensures
        final(parsed_data)@ == fields_after_evaluation(old(parsed_data)@, name@, evaluation@),
        final(prev_val_cache)@ == cache_after_evaluation(
            old(prev_val_cache)@,
            name@,
            evaluation@,
        ),
{
    match evaluation_json(evaluation) {
        Ok(json) => {
            prev_val_cache.insert(name.clone(), json.duplicate());
            parsed_data.insert(name.clone(), json);
        },
        Err(message) => {
            let key = name.clone().concat("_eval_error");
            let text = String::from_str("eval error: ").concat(message.as_str());
            parsed_data.insert(key, Json::String(text));
        },
    }
}

} // verus!
