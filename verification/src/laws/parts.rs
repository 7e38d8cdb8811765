//! Laws of schemas in two parts, the second of which starts at a byte.

use vstd::prelude::*;

use crate::bits::{bits_of, field_value, has_field, lemma_bits_of_skip};
use crate::eval::{faithful, number_variables, EvaluationView, Oracle};
use crate::field::{kind_of, loop_count_of, reading, selected, FieldKind, Reading, Selection};
use crate::json::{ascending, inserted, lemma_inserted_ascending, lookup, Entries, JsonView};
use crate::laws::depth::everywhere;
use crate::laws::maps::{insertion_goes_into_the_upper_object, overlaid};
use crate::laws::packets::{
    field_goes_on, fields_go_on, loop_goes_on, number_goes_on, packets_go_on,
};
use crate::laws::runs::{
    earlier_evaluations_make_no_difference, portable_field, portable_schemas_have_one_outcome,
};
use crate::laws::steps::fields_in_two_parts;
use crate::number::NumberView;
use crate::packet::{
    case_body, named, parse, parse_field, parse_from, parse_loop, process, CaseBody, Gathered,
    Outcome, Progress,
};
use crate::schema::{branches_of, BranchView};
use crate::tree::initially;

verus! {

/// What has been gathered on the rest of the data, from bit `base` on, together
/// with the fields before it.
pub open spec fn together(fields: Entries, base: int, s: Gathered) -> Gathered {
    Gathered {
        fields: overlaid(fields, s.fields),
        offset: base + s.offset,
        progress: s.progress,
    }
}

/// Whether `base` is the start of a byte of the data, or its end, and bits of
/// the data can be counted where they are read.
pub open spec fn splits(data: Seq<u8>, dry_run: bool, base: int) -> bool {
    &&& 0 <= base <= 8 * data.len()
    &&& base % 8 == 0
    &&& dry_run || 8 * data.len() <= usize::MAX
}

/// An empty schema takes nothing and leaves all as it is.
pub proof fn no_fields_take_nothing(
    data: Seq<u8>,
    dry_run: bool,
    oracle: Oracle,
    progress: Progress,
)
    ensures
        parse(data, Seq::empty(), dry_run, oracle, progress) == Outcome::Done(
            Gathered { fields: Seq::empty(), offset: 0, progress },
        ),
{
}

/// Where the first part of a schema ends at a byte, the second part can be
/// parsed afresh on the rest of the data: the bits add up, and the fields of the
/// second part are laid over those of the first.
pub proof fn second_part_is_parsed_afresh(
    data: Seq<u8>,
    first: Seq<BranchView>,
    second: Seq<BranchView>,
    dry_run: bool,
    oracle: Oracle,
    progress: Progress,
    mid: Gathered,
    end: Gathered,
)
    requires
        parse(data, first, dry_run, oracle, progress) == Outcome::Done(mid),
        splits(data, dry_run, mid.offset),
        parse(data.skip(mid.offset / 8), second, dry_run, oracle, mid.progress)
            == Outcome::Done(end),
        mid.offset + end.offset <= usize::MAX,
    ensures
        parse(data, first + second, dry_run, oracle, progress) == Outcome::Done(
            together(mid.fields, mid.offset, end),
        ),
{
    packets_go_on(data, first, dry_run, oracle, progress);
    fields_in_two_parts(data, first, second, dry_run, oracle, progress);
    let start = Gathered { fields: Seq::empty(), offset: 0, progress: mid.progress };
    lemma_fields(data, second, dry_run, oracle, mid.fields, mid.offset, 0, start);
}

/// Two calls of `parse_schema` make one: where the expressions are portable, a
/// call on the first part of a schema that ends at a byte, and a call on the
/// second part with the rest of the data and the values known then, come
/// together to a call on both parts.
pub proof fn two_calls_make_one(
    data: Seq<u8>,
    first: Seq<BranchView>,
    second: Seq<BranchView>,
    dry_run: bool,
    cache: Entries,
    first_oracle: Oracle,
    mid: Gathered,
    second_oracle: Oracle,
    end: Gathered,
    oracle: Oracle,
)
    requires
        everywhere(|field: BranchView| portable_field(field), first),
        everywhere(|field: BranchView| portable_field(field), second),
        faithful(first_oracle),
        faithful(second_oracle),
        faithful(oracle),
        parse(data, first, dry_run, first_oracle, initially(cache)) == Outcome::Done(mid),
        splits(data, dry_run, mid.offset),
        parse(
            data.skip(mid.offset / 8),
            second,
            dry_run,
            second_oracle,
            initially(mid.progress.cache),
        ) == Outcome::Done(end),
        mid.offset + end.offset <= usize::MAX,
    ensures
        parse(data, first + second, dry_run, oracle, initially(cache)) matches Outcome::Done(all)
            && {
            &&& all.fields == overlaid(mid.fields, end.fields)
            &&& all.offset == mid.offset + end.offset
            &&& all.progress.cache == end.progress.cache
        },
{
    let rest = data.skip(mid.offset / 8);
    portable_schemas_have_one_outcome(
        data,
        first,
        dry_run,
        first_oracle,
        oracle,
        initially(cache),
    );
    earlier_evaluations_make_no_difference(
        rest,
        second,
        dry_run,
        second_oracle,
        oracle,
        initially(mid.progress.cache),
        mid.progress,
    );
    if let Outcome::Done(later) = parse(rest, second, dry_run, oracle, mid.progress) {
        second_part_is_parsed_afresh(
            data,
            first,
            second,
            dry_run,
            oracle,
            initially(cache),
            mid,
            later,
        );
    }
}

/// The rest of the data behind a later bit.
proof fn lemma_rest(data: Seq<u8>, base: int, offset: int)
    requires
        0 <= base <= 8 * data.len(),
        base % 8 == 0,
        0 <= offset,
    ensures
        (base + offset) / 8 > data.len() <==> offset / 8 > data.skip(base / 8).len(),
        offset / 8 <= data.skip(base / 8).len() ==> data.skip((base + offset) / 8) == data.skip(
            base / 8,
        ).skip(offset / 8),
{
    assert((base + offset) / 8 == base / 8 + offset / 8);
    assert(data.skip(base / 8).len() == data.len() - base / 8);
    if offset / 8 <= data.skip(base / 8).len() {
        assert(data.skip((base + offset) / 8) =~= data.skip(base / 8).skip(offset / 8));
    }
}

/// A number is the same on the rest of the data.
proof fn lemma_reading(
    data: Seq<u8>,
    kind: FieldKind,
    dry_run: bool,
    base: int,
    offset: int,
)
    requires
        splits(data, dry_run, base),
        0 <= offset,
        0 < kind.width(),
        base + offset + kind.width() <= usize::MAX,
    ensures
        reading(data.skip(base / 8), kind, dry_run, offset) matches Reading::Value(number, end)
            ==> reading(data, kind, dry_run, base + offset) == Reading::Value(number, base + end),
{
    let rest = data.skip(base / 8);
    let width = kind.width() as int;
    if !dry_run && reading(rest, kind, dry_run, offset) is Value {
        lemma_rest(data, base, offset);
        lemma_bits_of_skip(data, base / 8);
        assert(8 * (base / 8) == base);
        assert(has_field(data, base + offset, width));
        assert(bits_of(rest).subrange(offset, offset + width)
            =~= bits_of(data).subrange(base + offset, base + offset + width));
        assert(field_value(rest, offset, width) == field_value(data, base + offset, width));
    }
}

/// Taking in the number of a field is the same on the rest of the data.
proof fn lemma_number(
    data: Seq<u8>,
    field: BranchView,
    dry_run: bool,
    oracle: Oracle,
    number: NumberView,
    under: Entries,
    base: int,
    s: Gathered,
)
    requires
        splits(data, dry_run, base),
        ascending(under),
        ascending(s.fields),
        0 <= s.offset,
    ensures
        process(data.skip(base / 8), field, dry_run, oracle, number, s) matches Outcome::Done(end)
            ==> base + end.offset <= usize::MAX ==> process(
            data,
            field,
            dry_run,
            oracle,
            number,
            together(under, base, s),
        ) == Outcome::Done(together(under, base, end)),
{
    let value = JsonView::Number(number);
    let fields = inserted(s.fields, field.name, value);
    let matched_name = field.name + "_matched"@;
    insertion_goes_into_the_upper_object(under, s.fields, field.name, value);
    lemma_inserted_ascending(s.fields, field.name, value);
    lemma_rest(data, base, s.offset);
    match (field.match_cases, field.eval) {
        (Some(cases), _) => match selected(cases, number, number.text(), 0) {
            Selection::Unsupported => {},
            Selection::NoCase => {
                insertion_goes_into_the_upper_object(
                    under,
                    fields,
                    matched_name,
                    JsonView::String("unknown"@),
                );
            },
            Selection::Case(k) => if k < cases.len() {
                match case_body(cases[k as int].0, cases[k as int].1) {
                    CaseBody::Value(described) => {
                        insertion_goes_into_the_upper_object(
                            under,
                            fields,
                            matched_name,
                            described,
                        );
                    },
                    CaseBody::Nothing => {},
                    CaseBody::Fields(description, items) => {
                        if let Some(nested) = branches_of(items) {
                            if let Outcome::Done(inner) = parse(
                                data.skip(base / 8).skip(s.offset / 8),
                                nested,
                                dry_run,
                                oracle,
                                s.progress,
                            ) {
                                insertion_goes_into_the_upper_object(
                                    under,
                                    fields,
                                    matched_name,
                                    JsonView::Object(named(inner.fields, description)),
                                );
                            }
                        }
                    },
                }
            },
        },
        (None, None) => {},
        (None, Some(expression)) => {
            let outcome = oracle(s.progress.evals, expression, number_variables(number));
            match outcome {
                EvaluationView::Failure(message) => {
                    insertion_goes_into_the_upper_object(
                        under,
                        s.fields,
                        field.name + "_eval_error"@,
                        JsonView::String("eval error: "@ + message),
                    );
                },
                _ => {
                    insertion_goes_into_the_upper_object(
                        under,
                        s.fields,
                        field.name,
                        outcome.json()->0,
                    );
                },
            }
        },
    }
}

/// A loop is the same on the rest of the data.
proof fn lemma_loop(
    data: Seq<u8>,
    schema: Seq<BranchView>,
    dry_run: bool,
    oracle: Oracle,
    n: nat,
    items: Seq<JsonView>,
    base: int,
    offset: int,
    progress: Progress,
)
    requires
        splits(data, dry_run, base),
        0 <= offset,
    ensures
        parse_loop(
            data.skip(base / 8),
            schema,
            dry_run,
            oracle,
            n,
            items,
            offset,
            progress,
        ) matches Some((all, end, after)) ==> base + end <= usize::MAX ==> parse_loop(
            data,
            schema,
            dry_run,
            oracle,
            n,
            items,
            base + offset,
            progress,
        ) == Some((all, base + end, after)),
    decreases n,
{
    let rest = data.skip(base / 8);
    lemma_rest(data, base, offset);
    if n > 0 && offset / 8 <= rest.len() {
        packets_go_on(rest.skip(offset / 8), schema, dry_run, oracle, progress);
        if let Outcome::Done(inner) = parse(
            rest.skip(offset / 8),
            schema,
            dry_run,
            oracle,
            progress,
        ) {
            let more = items.push(JsonView::Object(inner.fields));
            let left = (n - 1) as nat;
            let next = offset + inner.offset;
            lemma_loop(data, schema, dry_run, oracle, left, more, base, next, inner.progress);
            loop_goes_on(rest, schema, dry_run, oracle, left, more, next, inner.progress);
        }
    }
}

/// Taking in a field is the same on the rest of the data.
proof fn lemma_field(
    data: Seq<u8>,
    field: BranchView,
    dry_run: bool,
    oracle: Oracle,
    under: Entries,
    base: int,
    s: Gathered,
)
    requires
        splits(data, dry_run, base),
        ascending(under),
        ascending(s.fields),
        0 <= s.offset,
    ensures
        parse_field(data.skip(base / 8), field, dry_run, oracle, s) matches Outcome::Done(end)
            ==> base + end.offset <= usize::MAX ==> parse_field(
            data,
            field,
            dry_run,
            oracle,
            together(under, base, s),
        ) == Outcome::Done(together(under, base, end)),
{
    let rest = data.skip(base / 8);
    let t = together(under, base, s);
    lemma_rest(data, base, s.offset);
    match (field.loop_count, field.field_type) {
        (Some(count), _) => {
            if let Some(n) = loop_count_of(count, s.progress.cache) {
                let empty = Seq::<JsonView>::empty();
                if n == 0 {
                    insertion_goes_into_the_upper_object(
                        under,
                        s.fields,
                        field.name,
                        JsonView::Array(empty),
                    );
                } else if let Some(nested) = field.branches {
                    lemma_loop(
                        data,
                        nested,
                        dry_run,
                        oracle,
                        n as nat,
                        empty,
                        base,
                        s.offset,
                        s.progress,
                    );
                    if let Some((items, _, _)) = parse_loop(
                        rest,
                        nested,
                        dry_run,
                        oracle,
                        n as nat,
                        empty,
                        s.offset,
                        s.progress,
                    ) {
                        insertion_goes_into_the_upper_object(
                            under,
                            s.fields,
                            field.name,
                            JsonView::Array(items),
                        );
                    }
                }
            }
        },
        (None, Some(name)) => {
            if kind_of(name).width() == 0 {
                if let Some(JsonView::Number(number)) = lookup(s.progress.cache, field.name) {
                    lemma_number(data, field, dry_run, oracle, number, under, base, s);
                }
            } else if let Reading::Value(number, offset) = reading(
                rest,
                kind_of(name),
                dry_run,
                s.offset,
            ) {
                let read = Gathered { offset, ..s };
                number_goes_on(rest, field, dry_run, oracle, number, read);
                if let Outcome::Done(end) = process(rest, field, dry_run, oracle, number, read) {
                    if base + end.offset <= usize::MAX {
                        lemma_reading(data, kind_of(name), dry_run, base, s.offset);
                        lemma_number(data, field, dry_run, oracle, number, under, base, read);
                        assert(together(under, base, read) == (Gathered {
                            offset: base + offset,
                            ..t
                        }));
                    }
                }
            }
        },
        (None, None) => {
            if let Some(nested) = field.branches {
                if let Outcome::Done(inner) = parse(
                    rest.skip(s.offset / 8),
                    nested,
                    dry_run,
                    oracle,
                    s.progress,
                ) {
                    insertion_goes_into_the_upper_object(
                        under,
                        s.fields,
                        field.name,
                        JsonView::Object(inner.fields),
                    );
                }
            }
        },
    }
}

/// Taking in fields is the same on the rest of the data.
proof fn lemma_fields(
    data: Seq<u8>,
    schema: Seq<BranchView>,
    dry_run: bool,
    oracle: Oracle,
    under: Entries,
    base: int,
    i: nat,
    s: Gathered,
)
    requires
        splits(data, dry_run, base),
        ascending(under),
        ascending(s.fields),
        0 <= s.offset,
    ensures
        parse_from(data.skip(base / 8), schema, dry_run, oracle, i, s) matches Outcome::Done(end)
            ==> base + end.offset <= usize::MAX ==> parse_from(
            data,
            schema,
            dry_run,
            oracle,
            i,
            together(under, base, s),
        ) == Outcome::Done(together(under, base, end)),
    decreases schema.len() - i,
{
    let rest = data.skip(base / 8);
    if i < schema.len() {
        let field = schema[i as int];
        field_goes_on(rest, field, dry_run, oracle, s);
        if let Outcome::Done(next) = parse_field(rest, field, dry_run, oracle, s) {
            fields_go_on(rest, schema, dry_run, oracle, i + 1, next);
            lemma_field(data, field, dry_run, oracle, under, base, s);
            lemma_fields(data, schema, dry_run, oracle, under, base, i + 1, next);
        }
    }
}

} // verus!
