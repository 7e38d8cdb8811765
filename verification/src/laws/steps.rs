//! Laws of the steps in which a packet is taken in.

use vstd::prelude::*;

use crate::bits::field_value;
use crate::eval::{faithful, number_variables, EvaluationView, Oracle};
use crate::field::{kind_of, loop_count_of, reading, selected, Reading, Selection};
use crate::json::{ascending, inserted, lemma_inserted_ascending, lookup, Entries, Json, JsonView};
use crate::laws::depth::everywhere;
use crate::laws::fields::{first_case_wins, unsigned_field_is_its_bits, width_is_as_written};
use crate::laws::maps::lookup_after_insertion;
use crate::laws::runs::{portable_field, portable_schemas_have_one_outcome};
use crate::number::NumberView;
use crate::packet::{
    case_body, named, parse, parse_field, parse_from, parse_loop, process, CaseBody, Gathered,
    Outcome, Progress,
};
use crate::schema::{branches_of, BranchView};
use crate::text::decimal;
use crate::tree::{gathered, initially, is_parsed, is_processed};

verus! {

/// The fields of a schema in two parts are taken in one part after the other.
pub proof fn fields_in_two_parts(
    data: Seq<u8>,
    first: Seq<BranchView>,
    second: Seq<BranchView>,
    dry_run: bool,
    oracle: Oracle,
    progress: Progress,
)
    ensures
        parse(data, first + second, dry_run, oracle, progress) == match parse(
            data,
            first,
            dry_run,
            oracle,
            progress,
        ) {
            Outcome::Done(mid) => parse_from(data, second, dry_run, oracle, 0, mid),
            other => other,
        },
{
    let s = Gathered { fields: Seq::empty(), offset: 0, progress };
    lemma_two_parts(data, first, second, dry_run, oracle, 0, s);
}

proof fn lemma_two_parts(
    data: Seq<u8>,
    first: Seq<BranchView>,
    second: Seq<BranchView>,
    dry_run: bool,
    oracle: Oracle,
    i: nat,
    s: Gathered,
)
    requires
        i <= first.len(),
    ensures
        parse_from(data, first + second, dry_run, oracle, i, s) == match parse_from(
            data,
            first,
            dry_run,
            oracle,
            i,
            s,
        ) {
            Outcome::Done(mid) => parse_from(data, second, dry_run, oracle, 0, mid),
            other => other,
        },
    decreases first.len() - i,
{
    if i < first.len() {
        assert((first + second)[i as int] == first[i as int]);
        if let Outcome::Done(next) = parse_field(data, first[i as int], dry_run, oracle, s) {
            lemma_two_parts(data, first, second, dry_run, oracle, i + 1, next);
        }
    } else {
        lemma_second_part(data, first, second, dry_run, oracle, 0, s);
    }
}

proof fn lemma_second_part(
    data: Seq<u8>,
    first: Seq<BranchView>,
    second: Seq<BranchView>,
    dry_run: bool,
    oracle: Oracle,
    i: nat,
    s: Gathered,
)
    ensures
        parse_from(data, first + second, dry_run, oracle, first.len() + i, s) == parse_from(
            data,
            second,
            dry_run,
            oracle,
            i,
            s,
        ),
    decreases second.len() - i,
{
    if i < second.len() {
        assert((first + second)[(first.len() + i) as int] == second[i as int]);
        if let Outcome::Done(next) = parse_field(data, second[i as int], dry_run, oracle, s) {
            lemma_second_part(data, first, second, dry_run, oracle, i + 1, next);
        }
    }
}

/// Where a packet fails, it fails in one of its fields, and the fields before
/// that one are taken in.
pub proof fn failure_is_of_one_field(
    data: Seq<u8>,
    schema: Seq<BranchView>,
    dry_run: bool,
    oracle: Oracle,
    progress: Progress,
)
    requires
        parse(data, schema, dry_run, oracle, progress) is Failed,
    ensures
        exists|k: int|
            0 <= k < schema.len() && (#[trigger] parse(
                data,
                schema.take(k),
                dry_run,
                oracle,
                progress,
            ) matches Outcome::Done(mid) && parse_field(data, schema[k], dry_run, oracle, mid)
                == parse(data, schema, dry_run, oracle, progress)),
{
    let s = Gathered { fields: Seq::empty(), offset: 0, progress };
    let k = lemma_failing_field(data, schema, dry_run, oracle, 0, s);
    assert(parse(data, schema.take(k), dry_run, oracle, progress) is Done);
}

proof fn lemma_failing_field(
    data: Seq<u8>,
    schema: Seq<BranchView>,
    dry_run: bool,
    oracle: Oracle,
    i: nat,
    s: Gathered,
) -> (k: int)
    requires
        parse_from(data, schema, dry_run, oracle, i, s) is Failed,
    ensures
        i <= k < schema.len(),
        parse_from(data, schema.take(k), dry_run, oracle, i, s) matches Outcome::Done(mid)
            && parse_field(data, schema[k], dry_run, oracle, mid) == parse_from(
            data,
            schema,
            dry_run,
            oracle,
            i,
            s,
        ),
    decreases schema.len() - i,
{
    match parse_field(data, schema[i as int], dry_run, oracle, s) {
        Outcome::Done(next) => {
            let k = lemma_failing_field(data, schema, dry_run, oracle, i + 1, next);
            assert(schema.take(k)[i as int] == schema[i as int]);
            k
        },
        _ => i as int,
    }
}

/// Where the data ends within a number, what the fields before it gave is not
/// thrown away: it is what can be given of the packet.
pub proof fn short_number_keeps_what_came_before(
    data: Seq<u8>,
    before: Seq<BranchView>,
    field: BranchView,
    after: Seq<BranchView>,
    dry_run: bool,
    oracle: Oracle,
    progress: Progress,
)
    requires
        field.loop_count is None,
        field.field_type is Some,
        kind_of(field.field_type->0).width() > 0,
        parse(data, before, dry_run, oracle, progress) is Done,
        reading(
            data,
            kind_of(field.field_type->0),
            dry_run,
            parse(data, before, dry_run, oracle, progress)->Done_0.offset,
        ) is Short,
    ensures
        ({
            let mid = parse(data, before, dry_run, oracle, progress)->Done_0;
            &&& parse(
                data,
                before + seq![field] + after,
                dry_run,
                oracle,
                progress,
            ) matches Outcome::Failed { partial, message, progress: known, .. }
            &&& partial == JsonView::Object(mid.fields)
            &&& known == mid.progress
            &&& reading(data, kind_of(field.field_type->0), dry_run, mid.offset) == Reading::Short(
                message,
            )
        }),
{
    let mid = parse(data, before, dry_run, oracle, progress)->Done_0;
    fields_in_two_parts(data, before + seq![field], after, dry_run, oracle, progress);
    fields_in_two_parts(data, before, seq![field], dry_run, oracle, progress);
    assert(parse_from(data, seq![field], dry_run, oracle, 0, mid) == parse_field(
        data,
        field,
        dry_run,
        oracle,
        mid,
    ));
}

/// A field with cases keeps its number under its own name; what it matched
/// stands under another. Where no case holds that is the text `unknown`, and
/// nothing where the case is an object that describes no fields.
pub proof fn number_stays_beside_its_case(
    data: Seq<u8>,
    field: BranchView,
    dry_run: bool,
    oracle: Oracle,
    number: NumberView,
    s: Gathered,
)
    requires
        field.match_cases is Some,
    ensures
        process(data, field, dry_run, oracle, number, s) matches Outcome::Done(after) ==> {
            let cases = field.match_cases->0;
            let matched = lookup(after.fields, field.name + "_matched"@);
            &&& lookup(after.fields, field.name) == Some(JsonView::Number(number))
            &&& match selected(cases, number, number.text(), 0) {
                Selection::Case(k) => match case_body(cases[k as int].0, cases[k as int].1) {
                    CaseBody::Value(value) => matched == Some(value),
                    CaseBody::Fields(..) => matched is Some && matched->0 is Object,
                    CaseBody::Nothing => matched == lookup(s.fields, field.name + "_matched"@),
                },
                _ => matched == Some(JsonView::String("unknown"@)),
            }
        },
{
    let matched_name = field.name + "_matched"@;
    reveal_strlit("_matched");
    assert(matched_name.len() > field.name.len());
    let fields = inserted(s.fields, field.name, JsonView::Number(number));
    lookup_after_insertion(s.fields, field.name, JsonView::Number(number), field.name);
    lookup_after_insertion(s.fields, field.name, JsonView::Number(number), matched_name);
    assert forall|value: JsonView|
        lookup(#[trigger] inserted(fields, matched_name, value), field.name) == Some(
            JsonView::Number(number),
        ) && lookup(inserted(fields, matched_name, value), matched_name) == Some(value) by {
        lookup_after_insertion(fields, matched_name, value, field.name);
        lookup_after_insertion(fields, matched_name, value, matched_name);
    }
}

/// A field with cases, where the case it falls under describes no fields, takes
/// no bits beyond its number and leaves what is known by name as it is.
pub proof fn plain_case_takes_nothing(
    data: Seq<u8>,
    field: BranchView,
    dry_run: bool,
    oracle: Oracle,
    number: NumberView,
    s: Gathered,
)
    requires
        field.match_cases is Some,
        selected(field.match_cases->0, number, number.text(), 0) matches Selection::Case(k) ==> k
            < field.match_cases->0.len() && !(case_body(
            field.match_cases->0[k as int].0,
            field.match_cases->0[k as int].1,
        ) is Fields),
    ensures
        match process(data, field, dry_run, oracle, number, s) {
            Outcome::Done(after) => after.offset == s.offset && after.progress == s.progress,
            Outcome::Failed { .. } => false,
            Outcome::Unsupported => selected(
                field.match_cases->0,
                number,
                number.text(),
                0,
            ) is Unsupported,
        },
{
}

/// A case of a match that describes further fields: its place in the order of
/// the keys, its object, the array of branches in it, and the fields.
pub struct DescribedCase {
    pub place: usize,
    pub description: Entries,
    pub items: Seq<JsonView>,
    pub nested: Seq<BranchView>,
}

/// Whether a number falls under this case of a field.
pub open spec fn falls_under(field: BranchView, number: NumberView, case: DescribedCase) -> bool {
    &&& field.match_cases matches Some(cases)
    &&& selected(cases, number, number.text(), 0) == Selection::Case(case.place)
    &&& case.place < cases.len()
    &&& case_body(cases[case.place as int].0, cases[case.place as int].1) == CaseBody::Fields(
        case.description,
        case.items,
    )
    &&& branches_of(case.items) == Some(case.nested)
}

/// A case that describes further fields is parsed as they are by themselves, on
/// the rest of the data from the byte in which the number ends: what they come
/// to, and what is known then, is what the case comes to. Where they fail, the
/// number alone is added.
pub proof fn case_is_parsed_by_itself(
    data: Seq<u8>,
    field: BranchView,
    dry_run: bool,
    oracle: Oracle,
    number: NumberView,
    s: Gathered,
    case: DescribedCase,
)
    requires
        falls_under(field, number, case),
        0 <= s.offset / 8 <= data.len(),
    ensures
        ({
            let fields = inserted(s.fields, field.name, JsonView::Number(number));
            process(data, field, dry_run, oracle, number, s) == match parse(
                data.skip(s.offset / 8),
                case.nested,
                dry_run,
                oracle,
                s.progress,
            ) {
                Outcome::Done(inner) => if s.offset + inner.offset <= usize::MAX {
                    Outcome::Done(
                        Gathered {
                            fields: inserted(
                                fields,
                                field.name + "_matched"@,
                                JsonView::Object(named(inner.fields, case.description)),
                            ),
                            offset: s.offset + inner.offset,
                            progress: inner.progress,
                        },
                    )
                } else {
                    Outcome::Unsupported
                },
                Outcome::Failed { partial, message, progress, .. } => Outcome::Failed {
                    partial,
                    message,
                    fields,
                    progress,
                },
                Outcome::Unsupported => Outcome::Unsupported,
            }
        }),
{
}

/// What a call of `process_field` gives for a number that falls under a case
/// with further fields is what a call of `parse_schema` gives for these fields,
/// on the rest of the data and with the same known values: its bits are added to
/// the offset, its object stands beside the number, its failure is the failure,
/// and it leaves the same known values. Where an expression among the fields is
/// not portable, the two calls have to evaluate it alike.
pub proof fn process_field_calls_parse_schema(
    data: Seq<u8>,
    field: BranchView,
    dry_run: bool,
    number: NumberView,
    offset: usize,
    fields: Entries,
    cache: Entries,
    case: DescribedCase,
    oracle: Oracle,
    result: Result<usize, (Json, String)>,
    fields_after: Entries,
    cache_after: Entries,
    nested_oracle: Oracle,
    nested_result: Result<(Json, usize), (Json, String)>,
    nested_cache: Entries,
)
    requires
        falls_under(field, number, case),
        offset / 8 <= data.len(),
        faithful(oracle),
        is_processed(
            result,
            fields_after,
            cache_after,
            process(data, field, dry_run, oracle, number, gathered(fields, offset, cache)),
        ),
        faithful(nested_oracle),
        is_parsed(
            nested_result,
            nested_cache,
            parse(
                data.skip(offset as int / 8),
                case.nested,
                dry_run,
                nested_oracle,
                initially(cache),
            ),
        ),
        oracle == nested_oracle || everywhere(
            |field: BranchView| portable_field(field),
            case.nested,
        ),
    ensures
        cache_after == nested_cache,
        ({
            let with_number = inserted(fields, field.name, JsonView::Number(number));
            match nested_result {
                Ok((json, bits)) => {
                    &&& json@ matches JsonView::Object(object)
                    &&& result matches Ok(end)
                    &&& end == offset + bits
                    &&& fields_after == inserted(
                        with_number,
                        field.name + "_matched"@,
                        JsonView::Object(named(object, case.description)),
                    )
                },
                Err((partial, message)) => {
                    &&& result matches Err((own_partial, own_message))
                    &&& own_partial@ == partial@
                    &&& own_message@ == message@
                    &&& fields_after == with_number
                },
            }
        }),
{
    let s = gathered(fields, offset, cache);
    case_is_parsed_by_itself(data, field, dry_run, oracle, number, s, case);
    if oracle != nested_oracle {
        portable_schemas_have_one_outcome(
            data.skip(offset as int / 8),
            case.nested,
            dry_run,
            oracle,
            nested_oracle,
            initially(cache),
        );
    }
}

/// Taking in the number of a field changes only what stands under its name,
/// under its name with `_matched` added where it has cases, and under its name
/// with `_eval_error` added where it has an expression and no cases.
pub proof fn only_names_of_the_field_change(
    data: Seq<u8>,
    field: BranchView,
    dry_run: bool,
    oracle: Oracle,
    number: NumberView,
    s: Gathered,
    key: Seq<char>,
)
    requires
        key != field.name,
        field.match_cases is Some ==> key != field.name + "_matched"@,
        field.match_cases is None && field.eval is Some ==> key != field.name + "_eval_error"@,
    ensures
        match process(data, field, dry_run, oracle, number, s) {
            Outcome::Done(after) => lookup(after.fields, key) == lookup(s.fields, key),
            Outcome::Failed { fields, .. } => lookup(fields, key) == lookup(s.fields, key),
            Outcome::Unsupported => true,
        },
{
    let fields = inserted(s.fields, field.name, JsonView::Number(number));
    lookup_after_insertion(s.fields, field.name, JsonView::Number(number), key);
    if field.match_cases is Some {
        let matched_name = field.name + "_matched"@;
        assert forall|value: JsonView|
            lookup(#[trigger] inserted(fields, matched_name, value), key) == lookup(
                s.fields,
                key,
            ) by {
            lookup_after_insertion(fields, matched_name, value, key);
        }
    } else if let Some(expression) = field.eval {
        let outcome = oracle(s.progress.evals, expression, number_variables(number));
        match outcome {
            EvaluationView::Failure(message) => {
                lookup_after_insertion(
                    s.fields,
                    field.name + "_eval_error"@,
                    JsonView::String("eval error: "@ + message),
                    key,
                );
            },
            _ => {
                lookup_after_insertion(s.fields, field.name, outcome.json()->0, key);
            },
        }
    }
}

/// An evaluation that fails adds its message, under the name of the field with
/// `_eval_error` behind it. It takes no bits, changes nothing that is known by
/// name, and leaves what stands under the name of the field as it is.
pub proof fn failed_evaluation_adds_its_message(
    data: Seq<u8>,
    field: BranchView,
    dry_run: bool,
    oracle: Oracle,
    number: NumberView,
    s: Gathered,
    message: Seq<char>,
)
    requires
        field.match_cases is None,
        field.eval is Some,
        oracle(s.progress.evals, field.eval->0, number_variables(number))
            == EvaluationView::Failure(message),
    ensures
        process(data, field, dry_run, oracle, number, s) matches Outcome::Done(after) && {
            &&& after.offset == s.offset
            &&& after.progress.cache == s.progress.cache
            &&& after.fields == inserted(
                s.fields,
                field.name + "_eval_error"@,
                JsonView::String("eval error: "@ + message),
            )
            &&& lookup(after.fields, field.name) == lookup(s.fields, field.name)
        },
{
    reveal_strlit("_eval_error");
    assert((field.name + "_eval_error"@).len() > field.name.len());
    lookup_after_insertion(
        s.fields,
        field.name + "_eval_error"@,
        JsonView::String("eval error: "@ + message),
        field.name,
    );
}

/// An evaluation that succeeds puts its value in the place of the number, among
/// the fields and among what is known by name, and takes no bits.
pub proof fn evaluation_takes_the_place_of_the_number(
    data: Seq<u8>,
    field: BranchView,
    dry_run: bool,
    oracle: Oracle,
    number: NumberView,
    s: Gathered,
    value: JsonView,
)
    requires
        field.match_cases is None,
        field.eval is Some,
        oracle(s.progress.evals, field.eval->0, number_variables(number)).json() == Some(value),
    ensures
        process(data, field, dry_run, oracle, number, s) matches Outcome::Done(after) && {
            &&& after.offset == s.offset
            &&& after.fields == inserted(s.fields, field.name, value)
            &&& after.progress.cache == inserted(s.progress.cache, field.name, value)
        },
{
}

/// A number without cases and without an expression stands under its name, and
/// is known by it from then on: a loop that is counted by the name runs that
/// many times.
pub proof fn plain_number_is_known_by_name(
    data: Seq<u8>,
    field: BranchView,
    dry_run: bool,
    oracle: Oracle,
    number: NumberView,
    s: Gathered,
)
    requires
        field.match_cases is None,
        field.eval is None,
    ensures
        process(data, field, dry_run, oracle, number, s) matches Outcome::Done(after) && {
            &&& lookup(after.fields, field.name) == Some(JsonView::Number(number))
            &&& lookup(after.progress.cache, field.name) == Some(JsonView::Number(number))
            &&& loop_count_of(JsonView::String(field.name), after.progress.cache)
                == number.as_u64()
            &&& after.offset == s.offset
        },
{
    lookup_after_insertion(s.fields, field.name, JsonView::Number(number), field.name);
    lookup_after_insertion(s.progress.cache, field.name, JsonView::Number(number), field.name);
}

/// A field of type `u0` reads nothing: it takes up the number known by its
/// name, and where none is known it adds nothing.
pub proof fn type_u0_takes_up_a_number(
    data: Seq<u8>,
    field: BranchView,
    dry_run: bool,
    oracle: Oracle,
    s: Gathered,
)
    requires
        field.loop_count is None,
        field.field_type == Some("u0"@),
    ensures
        parse_field(data, field, dry_run, oracle, s) == match lookup(
            s.progress.cache,
            field.name,
        ) {
            Some(JsonView::Number(number)) => process(data, field, dry_run, oracle, number, s),
            Some(_) => Outcome::Unsupported,
            None => Outcome::Done(s),
        },
{
    width_is_as_written(0);
    reveal_strlit("u0");
    reveal_strlit("u");
    assert("u"@ + decimal(0) =~= "u0"@);
}

/// A field of another type without a width adds nothing.
pub proof fn field_without_width_adds_nothing(
    data: Seq<u8>,
    field: BranchView,
    dry_run: bool,
    oracle: Oracle,
    s: Gathered,
)
    requires
        field.loop_count is None,
        field.field_type matches Some(name) && name != "u0"@ && kind_of(name).width() == 0,
    ensures
        parse_field(data, field, dry_run, oracle, s) == Outcome::Done(s),
{
}

/// A group of fields starts at the byte in which the fields before it end, and
/// takes as many bits as its fields do.
pub proof fn group_takes_the_bits_of_its_fields(
    data: Seq<u8>,
    field: BranchView,
    dry_run: bool,
    oracle: Oracle,
    s: Gathered,
)
    requires
        field.loop_count is None,
        field.field_type is None,
    ensures
        parse_field(data, field, dry_run, oracle, s) matches Outcome::Done(after) ==> {
            &&& field.branches matches Some(nested)
            &&& parse(
                data.skip(s.offset / 8),
                nested,
                dry_run,
                oracle,
                s.progress,
            ) matches Outcome::Done(inner)
            &&& after.offset == s.offset + inner.offset
            &&& lookup(after.fields, field.name) == Some(JsonView::Object(inner.fields))
        },
{
    if let Outcome::Done(after) = parse_field(data, field, dry_run, oracle, s) {
        let nested = field.branches->0;
        let inner = parse(data.skip(s.offset / 8), nested, dry_run, oracle, s.progress)->Done_0;
        lookup_after_insertion(
            s.fields,
            field.name,
            JsonView::Object(inner.fields),
            field.name,
        );
    }
}

/// A loop does not fail where the data ends: it gives an array of what there is.
pub proof fn loops_do_not_fail(
    data: Seq<u8>,
    field: BranchView,
    dry_run: bool,
    oracle: Oracle,
    s: Gathered,
)
    requires
        field.loop_count is Some,
    ensures
        match parse_field(data, field, dry_run, oracle, s) {
            Outcome::Done(after) => lookup(after.fields, field.name) is Some && lookup(
                after.fields,
                field.name,
            )->0 is Array,
            Outcome::Failed { .. } => false,
            Outcome::Unsupported => true,
        },
{
    assert forall|items: Seq<JsonView>|
        lookup(#[trigger] inserted(s.fields, field.name, JsonView::Array(items)), field.name)
            == Some(JsonView::Array(items)) by {
        lookup_after_insertion(s.fields, field.name, JsonView::Array(items), field.name);
    }
}

/// Whether an item of a loop at this offset fails, `before` and `after` being
/// what is known by name before and after it.
pub open spec fn item_fails(
    data: Seq<u8>,
    schema: Seq<BranchView>,
    dry_run: bool,
    oracle: Oracle,
    offset: int,
    before: Progress,
    after: Progress,
) -> bool {
    match parse(data.skip(offset / 8), schema, dry_run, oracle, before) {
        Outcome::Failed { progress, .. } => progress == after,
        _ => false,
    }
}

/// Whether a loop came to `count` items, or else ended where one more fails.
pub open spec fn complete_or_cut_short(
    data: Seq<u8>,
    schema: Seq<BranchView>,
    dry_run: bool,
    oracle: Oracle,
    count: nat,
    looped: Option<(Seq<JsonView>, int, Progress)>,
) -> bool {
    match looped {
        Some((items, end, after)) => {
            ||| items.len() == count
            ||| exists|before: Progress|
                item_fails(data, schema, dry_run, oracle, end, before, after)
        },
        None => true,
    }
}

/// A loop ends before its count only where one more item fails.
pub proof fn loop_ends_where_an_item_fails(
    data: Seq<u8>,
    schema: Seq<BranchView>,
    dry_run: bool,
    oracle: Oracle,
    n: nat,
    items: Seq<JsonView>,
    offset: int,
    progress: Progress,
)
    ensures
        complete_or_cut_short(
            data,
            schema,
            dry_run,
            oracle,
            items.len() + n,
            parse_loop(data, schema, dry_run, oracle, n, items, offset, progress),
        ),
    decreases n,
{
    let looped = parse_loop(data, schema, dry_run, oracle, n, items, offset, progress);
    if n > 0 && offset / 8 <= data.len() {
        match parse(data.skip(offset / 8), schema, dry_run, oracle, progress) {
            Outcome::Done(inner) => {
                loop_ends_where_an_item_fails(
                    data,
                    schema,
                    dry_run,
                    oracle,
                    (n - 1) as nat,
                    items.push(JsonView::Object(inner.fields)),
                    offset + inner.offset,
                    inner.progress,
                );
            },
            Outcome::Failed { .. } => {
                if let Some((_, end, after)) = looped {
                    assert(item_fails(data, schema, dry_run, oracle, end, progress, after));
                }
            },
            Outcome::Unsupported => {},
        }
    }
}

/// Whether a field is a whole number of bytes that stand for an integer,
/// without cases or an expression.
pub open spec fn plain_integer(field: BranchView) -> bool {
    &&& field.loop_count is None
    &&& field.match_cases is None
    &&& field.eval is None
    &&& field.field_type matches Some(name) && {
        let kind = kind_of(name);
        &&& 0 < kind.width() <= 64
        &&& kind.width() % 8 == 0
        &&& !(kind is F32 || kind is F64)
    }
}

/// A loop over a plain integer runs until its count is reached or no more data
/// is left for another item.
pub proof fn loop_until_no_more_data(
    data: Seq<u8>,
    field: BranchView,
    oracle: Oracle,
    n: nat,
    items: Seq<JsonView>,
    offset: int,
    progress: Progress,
)
    requires
        plain_integer(field),
        0 <= offset <= 8 * data.len() <= usize::MAX,
        offset % 8 == 0,
    ensures
        ({
            let width = kind_of(field.field_type->0).width() as int;
            &&& parse_loop(
                data,
                seq![field],
                false,
                oracle,
                n,
                items,
                offset,
                progress,
            ) matches Some((all, end, _))
            &&& all.len() <= items.len() + n
            &&& end == offset + (all.len() - items.len()) * width
            &&& end <= 8 * data.len()
            &&& all.len() == items.len() + n || end + width > 8 * data.len()
        }),
    decreases n,
{
    let kind = kind_of(field.field_type->0);
    let width = kind.width() as int;
    if n > 0 {
        let rest = data.skip(offset / 8);
        let s = Gathered { fields: Seq::empty(), offset: 0, progress };
        let schema = seq![field];
        reveal_with_fuel(parse_from, 2);
        assert(parse(rest, schema, false, oracle, progress) == match parse_field(
            rest,
            field,
            false,
            oracle,
            s,
        ) {
            Outcome::Done(next) => Outcome::Done(next),
            other => other,
        });
        if let Outcome::Done(inner) = parse(rest, schema, false, oracle, progress) {
            assert(inner.offset == width);
            let more = items.push(JsonView::Object(inner.fields));
            loop_until_no_more_data(
                data,
                field,
                oracle,
                (n - 1) as nat,
                more,
                offset + width,
                inner.progress,
            );
            if let Some((all, _, _)) = parse_loop(
                data,
                schema,
                false,
                oracle,
                (n - 1) as nat,
                more,
                offset + width,
                inner.progress,
            ) {
                let c = all.len() - more.len();
                assert((c + 1) * width == c * width + width) by (nonlinear_arith);
            }
        }
    }
    assert(0 * width == 0) by (nonlinear_arith);
}

/// A schema with one field more takes in the fields before it, and then that
/// field where they leave off.
pub proof fn fields_are_taken_in_one_by_one(
    data: Seq<u8>,
    schema: Seq<BranchView>,
    field: BranchView,
    dry_run: bool,
    oracle: Oracle,
    progress: Progress,
)
    ensures
        parse(data, schema.push(field), dry_run, oracle, progress) == match parse(
            data,
            schema,
            dry_run,
            oracle,
            progress,
        ) {
            Outcome::Done(mid) => parse_field(data, field, dry_run, oracle, mid),
            other => other,
        },
{
    fields_in_two_parts(data, schema, seq![field], dry_run, oracle, progress);
    assert(schema + seq![field] =~= schema.push(field));
    if let Outcome::Done(mid) = parse(data, schema, dry_run, oracle, progress) {
        reveal_with_fuel(parse_from, 2);
        assert(seq![field][0] == field);
        assert(parse_from(data, seq![field], dry_run, oracle, 0, mid) == parse_field(
            data,
            field,
            dry_run,
            oracle,
            mid,
        ));
    }
}

/// A number is taken in as it is read, behind the bits that it takes. Where the
/// data ends within it, what was gathered before is what can be given.
pub proof fn number_is_taken_in_as_it_is_read(
    data: Seq<u8>,
    field: BranchView,
    name: Seq<char>,
    dry_run: bool,
    oracle: Oracle,
    s: Gathered,
)
    requires
        field.loop_count is None,
        field.field_type == Some(name),
        kind_of(name).width() > 0,
    ensures
        match reading(data, kind_of(name), dry_run, s.offset) {
            Reading::Value(number, end) => parse_field(data, field, dry_run, oracle, s)
                == process(
                data,
                field,
                dry_run,
                oracle,
                number,
                Gathered { fields: s.fields, offset: end, progress: s.progress },
            ),
            Reading::Short(text) => parse_field(data, field, dry_run, oracle, s)
                == Outcome::Failed {
                partial: JsonView::Object(s.fields),
                message: text,
                fields: s.fields,
                progress: s.progress,
            },
            Reading::Unsupported => parse_field(data, field, dry_run, oracle, s) is Unsupported,
        },
{
}

/// A plain field of `w` bits, whose type is `u` with the width behind it, gives
/// the number that these bits stand for: it is under the name of the field, is
/// known by it, and nothing else has changed.
pub proof fn unsigned_number_is_its_bits(
    data: Seq<u8>,
    field: BranchView,
    w: u32,
    oracle: Oracle,
    s: Gathered,
)
    requires
        field.loop_count is None,
        field.match_cases is None,
        field.eval is None,
        field.field_type == Some("u"@ + decimal(w as nat)),
        0 < w <= 64,
        0 <= s.offset,
        s.offset + w <= 8 * data.len() <= usize::MAX,
    ensures
        ({
            let number = JsonView::Number(
                NumberView::PosInt(field_value(data, s.offset, w as int) as u64),
            );
            parse_field(data, field, false, oracle, s) == Outcome::Done(
                Gathered {
                    fields: inserted(s.fields, field.name, number),
                    offset: s.offset + w,
                    progress: Progress {
                        cache: inserted(s.progress.cache, field.name, number),
                        evals: s.progress.evals,
                    },
                },
            )
        }),
{
    width_is_as_written(w);
    unsigned_field_is_its_bits(data, kind_of("u"@ + decimal(w as nat)), s.offset);
}

/// A group of fields comes to what its fields come to by themselves, from the
/// byte on in which the fields before it end: their object is under its name,
/// their bits are added, their failure is its failure, and they leave what is
/// known then. It has to have fields, and to start within the data or at its end.
pub proof fn group_is_parsed_by_itself(
    data: Seq<u8>,
    field: BranchView,
    dry_run: bool,
    oracle: Oracle,
    s: Gathered,
)
    requires
        field.loop_count is None,
        field.field_type is None,
    ensures
        match field.branches {
            None => parse_field(data, field, dry_run, oracle, s) is Unsupported,
            Some(nested) => if s.offset / 8 > data.len() {
                parse_field(data, field, dry_run, oracle, s) is Unsupported
            } else {
                parse_field(data, field, dry_run, oracle, s) == match parse(
                    data.skip(s.offset / 8),
                    nested,
                    dry_run,
                    oracle,
                    s.progress,
                ) {
                    Outcome::Done(inner) => if s.offset + inner.offset > usize::MAX {
                        Outcome::Unsupported
                    } else {
                        Outcome::Done(
                            Gathered {
                                fields: inserted(
                                    s.fields,
                                    field.name,
                                    JsonView::Object(inner.fields),
                                ),
                                offset: s.offset + inner.offset,
                                progress: inner.progress,
                            },
                        )
                    },
                    Outcome::Failed { partial, message, progress, .. } => Outcome::Failed {
                        partial,
                        message,
                        fields: s.fields,
                        progress,
                    },
                    Outcome::Unsupported => Outcome::Unsupported,
                }
            },
        },
{
}

/// A number without cases and without an expression is put under its name, among
/// the fields and among what is known, and that is all.
pub proof fn plain_number_is_put_under_its_name(
    data: Seq<u8>,
    field: BranchView,
    dry_run: bool,
    oracle: Oracle,
    number: NumberView,
    s: Gathered,
)
    requires
        field.match_cases is None,
        field.eval is None,
    ensures
        process(data, field, dry_run, oracle, number, s) == Outcome::Done(
            Gathered {
                fields: inserted(s.fields, field.name, JsonView::Number(number)),
                offset: s.offset,
                progress: Progress {
                    cache: inserted(s.progress.cache, field.name, JsonView::Number(number)),
                    evals: s.progress.evals,
                },
            },
        ),
{
}

/// A number with cases is put under its name. Where it falls under the case with
/// place `k`, which describes a value, that value is put under the matched name;
/// where under none, the text `unknown`; and nothing where the case is an object
/// that describes no fields. Nothing else changes.
pub proof fn case_is_put_under_the_matched_name(
    data: Seq<u8>,
    field: BranchView,
    cases: Entries,
    dry_run: bool,
    oracle: Oracle,
    number: NumberView,
    s: Gathered,
)
    requires
        field.match_cases == Some(cases),
        cases.len() <= usize::MAX,
    ensures
        ({
            let fields = inserted(s.fields, field.name, JsonView::Number(number));
            let outcome = process(data, field, dry_run, oracle, number, s);
            match selected(cases, number, number.text(), 0) {
                Selection::Unsupported => outcome is Unsupported,
                Selection::NoCase => outcome == Outcome::Done(
                    Gathered {
                        fields: inserted(
                            fields,
                            field.name + "_matched"@,
                            JsonView::String("unknown"@),
                        ),
                        offset: s.offset,
                        progress: s.progress,
                    },
                ),
                Selection::Case(k) => match case_body(cases[k as int].0, cases[k as int].1) {
                    CaseBody::Value(value) => outcome == Outcome::Done(
                        Gathered {
                            fields: inserted(fields, field.name + "_matched"@, value),
                            offset: s.offset,
                            progress: s.progress,
                        },
                    ),
                    CaseBody::Nothing => outcome == Outcome::Done(
                        Gathered { fields, offset: s.offset, progress: s.progress },
                    ),
                    CaseBody::Fields(_, items) => branches_of(items) is None || s.offset / 8
                        > data.len() ==> outcome is Unsupported,
                },
            }
        }),
{
    first_case_wins(cases, number, number.text());
}

/// The object of a case keeps every field that was parsed for it. Where the case
/// has a name, that stands under `name`.
pub proof fn a_case_keeps_its_fields(fields: Entries, description: Entries, key: Seq<char>)
    ensures
        lookup(named(fields, description), key) == if key == "name"@ && lookup(
            description,
            "name"@,
        ) is Some {
            lookup(description, "name"@)
        } else {
            lookup(fields, key)
        },
        lookup(description, "name"@) is None ==> named(fields, description) == fields,
        ascending(fields) ==> ascending(named(fields, description)),
{
    if let Some(name) = lookup(description, "name"@) {
        lookup_after_insertion(fields, "name"@, name, key);
        if ascending(fields) {
            lemma_inserted_ascending(fields, "name"@, name);
        }
    }
}

/// Each evaluation is counted, whether it succeeds or fails.
pub proof fn evaluations_are_counted(
    data: Seq<u8>,
    field: BranchView,
    dry_run: bool,
    oracle: Oracle,
    number: NumberView,
    s: Gathered,
)
    requires
        field.match_cases is None,
        field.eval is Some,
    ensures
        process(data, field, dry_run, oracle, number, s) matches Outcome::Done(after)
            && after.progress.evals == s.progress.evals + 1 && after.offset == s.offset,
{
}

} // verus!
