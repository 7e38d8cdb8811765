//! Laws of whole packets.

use vstd::prelude::*;

use crate::eval::{number_variables, EvaluationView, Oracle};
use crate::field::{kind_of, loop_count_of, reading, selected, Reading, Selection};
use crate::json::{ascending, inserted, lemma_inserted_ascending, lookup, Entries, JsonView};
use crate::laws::maps::lookup_after_insertion;
use crate::number::NumberView;
use crate::packet::{
    case_body, lemma_case_height, named, parse, parse_field, parse_from, parse_loop, process,
    CaseBody, Gathered, Outcome, Progress,
};
use crate::schema::{branch_height, branches_of, lemma_schema_height, schema_height, BranchView};

verus! {

/// Whether `after` goes on from `before`: the offset is no smaller, no name was
/// lost, and keys that were in order still are.
pub open spec fn goes_on(before: Gathered, after: Gathered) -> bool {
    &&& before.offset <= after.offset
    &&& keeps_names(before.fields, after.fields)
    &&& knows_more(before.progress, after.progress)
}

/// Whether `after` goes on from `before`: no value known by name was lost, and
/// there are no fewer evaluations.
pub open spec fn knows_more(before: Progress, after: Progress) -> bool {
    &&& before.evals <= after.evals
    &&& keeps_names(before.cache, after.cache)
}

/// Whether there is a value under every key that had one, and keys that were in
/// order still are.
pub open spec fn keeps_names(before: Entries, after: Entries) -> bool {
    &&& ascending(before) ==> ascending(after)
    &&& forall|key: Seq<char>|
        lookup(before, key) is Some ==> #[trigger] lookup(after, key) is Some
}

proof fn lemma_keeps_names(a: Entries, b: Entries, c: Entries)
    requires
        keeps_names(a, b),
        keeps_names(b, c),
    ensures
        keeps_names(a, c),
{
    assert forall|key: Seq<char>| lookup(a, key) is Some implies #[trigger] lookup(
        c,
        key,
    ) is Some by {
        assert(lookup(b, key) is Some);
    }
}

proof fn lemma_insertion_keeps_names(entries: Entries, key: Seq<char>, value: JsonView)
    ensures
        keeps_names(entries, inserted(entries, key, value)),
{
    if ascending(entries) {
        lemma_inserted_ascending(entries, key, value);
    }
    assert forall|k: Seq<char>| lookup(entries, k) is Some implies #[trigger] lookup(
        inserted(entries, key, value),
        k,
    ) is Some by {
        lookup_after_insertion(entries, key, value, k);
    }
}

proof fn lemma_goes_on(a: Gathered, b: Gathered, c: Gathered)
    requires
        goes_on(a, b),
        goes_on(b, c),
    ensures
        goes_on(a, c),
{
    lemma_keeps_names(a.fields, b.fields, c.fields);
    lemma_keeps_names(a.progress.cache, b.progress.cache, c.progress.cache);
}

/// A packet takes no negative number of bits, its keys are in order, and no
/// value known by name is lost, also where the data ends too soon; what can be
/// given of the packet then is an object.
pub proof fn packets_go_on(
    data: Seq<u8>,
    schema: Seq<BranchView>,
    dry_run: bool,
    oracle: Oracle,
    progress: Progress,
)
    ensures
        match parse(data, schema, dry_run, oracle, progress) {
            Outcome::Done(after) => {
                &&& 0 <= after.offset
                &&& ascending(after.fields)
                &&& knows_more(progress, after.progress)
            },
            Outcome::Failed { partial, progress: after, .. } => {
                &&& partial is Object
                &&& knows_more(progress, after)
            },
            Outcome::Unsupported => true,
        },
    decreases schema_height(schema), 2nat, 0nat,
{
    let s = Gathered { fields: Seq::empty(), offset: 0, progress };
    fields_go_on(data, schema, dry_run, oracle, 0, s);
}

/// Taking in fields only adds to what has been gathered.
pub proof fn fields_go_on(
    data: Seq<u8>,
    schema: Seq<BranchView>,
    dry_run: bool,
    oracle: Oracle,
    i: nat,
    s: Gathered,
)
    ensures
        match parse_from(data, schema, dry_run, oracle, i, s) {
            Outcome::Done(after) => goes_on(s, after),
            Outcome::Failed { partial, fields, progress, .. } => {
                &&& partial is Object
                &&& keeps_names(s.fields, fields)
                &&& knows_more(s.progress, progress)
            },
            Outcome::Unsupported => true,
        },
    decreases schema_height(schema), 1nat, schema.len() - i,
{
    if i < schema.len() {
        lemma_schema_height(schema, i as int);
        field_goes_on(data, schema[i as int], dry_run, oracle, s);
        if let Outcome::Done(next) = parse_field(data, schema[i as int], dry_run, oracle, s) {
            fields_go_on(data, schema, dry_run, oracle, i + 1, next);
            match parse_from(data, schema, dry_run, oracle, i + 1, next) {
                Outcome::Done(after) => lemma_goes_on(s, next, after),
                Outcome::Failed { fields, progress, .. } => {
                    lemma_keeps_names(s.fields, next.fields, fields);
                    lemma_keeps_names(s.progress.cache, next.progress.cache, progress.cache);
                },
                Outcome::Unsupported => {},
            }
        }
    }
}

/// Taking in a field only adds to what has been gathered.
pub proof fn field_goes_on(
    data: Seq<u8>,
    field: BranchView,
    dry_run: bool,
    oracle: Oracle,
    s: Gathered,
)
    ensures
        match parse_field(data, field, dry_run, oracle, s) {
            Outcome::Done(after) => goes_on(s, after),
            Outcome::Failed { partial, fields, progress, .. } => {
                &&& partial is Object
                &&& keeps_names(s.fields, fields)
                &&& knows_more(s.progress, progress)
            },
            Outcome::Unsupported => true,
        },
    decreases branch_height(field), 0nat, 1nat,
{
    match (field.loop_count, field.field_type) {
        (Some(count), _) => {
            if let Some(n) = loop_count_of(count, s.progress.cache) {
                if n == 0 {
                    lemma_insertion_keeps_names(
                        s.fields,
                        field.name,
                        JsonView::Array(Seq::empty()),
                    );
                } else if let Some(nested) = field.branches {
                    let empty = Seq::<JsonView>::empty();
                    loop_goes_on(
                        data,
                        nested,
                        dry_run,
                        oracle,
                        n as nat,
                        empty,
                        s.offset,
                        s.progress,
                    );
                    if let Some((items, _, _)) = parse_loop(
                        data,
                        nested,
                        dry_run,
                        oracle,
                        n as nat,
                        empty,
                        s.offset,
                        s.progress,
                    ) {
                        lemma_insertion_keeps_names(s.fields, field.name, JsonView::Array(items));
                    }
                }
            }
        },
        (None, Some(name)) => {
            if kind_of(name).width() == 0 {
                if let Some(JsonView::Number(number)) = lookup(s.progress.cache, field.name) {
                    number_goes_on(data, field, dry_run, oracle, number, s);
                }
            } else if let Reading::Value(number, offset) = reading(
                data,
                kind_of(name),
                dry_run,
                s.offset,
            ) {
                number_goes_on(data, field, dry_run, oracle, number, Gathered { offset, ..s });
            }
        },
        (None, None) => {
            if let Some(nested) = field.branches {
                let rest = data.skip(s.offset / 8);
                packets_go_on(rest, nested, dry_run, oracle, s.progress);
                if let Outcome::Done(inner) = parse(rest, nested, dry_run, oracle, s.progress) {
                    lemma_insertion_keeps_names(
                        s.fields,
                        field.name,
                        JsonView::Object(inner.fields),
                    );
                }
            }
        },
    }
}

/// Going round a loop only adds items, at most one each time, each an object
/// with its keys in order.
pub proof fn loop_goes_on(
    data: Seq<u8>,
    schema: Seq<BranchView>,
    dry_run: bool,
    oracle: Oracle,
    n: nat,
    items: Seq<JsonView>,
    offset: int,
    progress: Progress,
)
    ensures
        parse_loop(data, schema, dry_run, oracle, n, items, offset, progress) matches Some(
            (all, end, after),
        ) ==> {
            &&& offset <= end
            &&& knows_more(progress, after)
            &&& items.is_prefix_of(all)
            &&& all.len() <= items.len() + n
            &&& forall|i: int|
                items.len() <= i < all.len() ==> (#[trigger] all[i] matches JsonView::Object(item)
                    && ascending(item))
        },
    decreases schema_height(schema), 3nat, n,
{
    if n > 0 {
        let rest = data.skip(offset / 8);
        packets_go_on(rest, schema, dry_run, oracle, progress);
        if let Outcome::Done(inner) = parse(rest, schema, dry_run, oracle, progress) {
            let more = items.push(JsonView::Object(inner.fields));
            let next = offset + inner.offset;
            loop_goes_on(
                data,
                schema,
                dry_run,
                oracle,
                (n - 1) as nat,
                more,
                next,
                inner.progress,
            );
            if let Some((all, _, after)) = parse_loop(
                data,
                schema,
                dry_run,
                oracle,
                (n - 1) as nat,
                more,
                next,
                inner.progress,
            ) {
                lemma_keeps_names(progress.cache, inner.progress.cache, after.cache);
                if next <= usize::MAX {
                    assert(items.is_prefix_of(all)) by {
                        assert forall|i: int| 0 <= i < items.len() implies items[i] == all[i] by {
                            assert(more[i] == all[i]);
                        }
                    }
                    assert(all[items.len() as int] == more[items.len() as int]);
                }
            }
        }
    }
}

/// Taking in the number of a field only adds to what has been gathered.
pub proof fn number_goes_on(
    data: Seq<u8>,
    field: BranchView,
    dry_run: bool,
    oracle: Oracle,
    number: NumberView,
    s: Gathered,
)
    ensures
        match process(data, field, dry_run, oracle, number, s) {
            Outcome::Done(after) => goes_on(s, after),
            Outcome::Failed { partial, fields, progress, .. } => {
                &&& partial is Object
                &&& keeps_names(s.fields, fields)
                &&& knows_more(s.progress, progress)
            },
            Outcome::Unsupported => true,
        },
    decreases branch_height(field), 0nat, 0nat,
{
    let fields = inserted(s.fields, field.name, JsonView::Number(number));
    lemma_insertion_keeps_names(s.fields, field.name, JsonView::Number(number));
    match (field.match_cases, field.eval) {
        (Some(cases), _) => {
            let matched_name = field.name + "_matched"@;
            match selected(cases, number, number.text(), 0) {
                Selection::Unsupported => {},
                Selection::NoCase => {
                    let value = JsonView::String("unknown"@);
                    lemma_insertion_keeps_names(fields, matched_name, value);
                    lemma_keeps_names(s.fields, fields, inserted(fields, matched_name, value));
                },
                Selection::Case(k) => if k < cases.len() {
                    lemma_case_height(field, k as int);
                    match case_body(cases[k as int].0, cases[k as int].1) {
                        CaseBody::Value(value) => {
                            lemma_insertion_keeps_names(fields, matched_name, value);
                            lemma_keeps_names(
                                s.fields,
                                fields,
                                inserted(fields, matched_name, value),
                            );
                        },
                        CaseBody::Nothing => {},
                        CaseBody::Fields(description, items) => {
                            if let Some(nested) = branches_of(items) {
                                let rest = data.skip(s.offset / 8);
                                packets_go_on(rest, nested, dry_run, oracle, s.progress);
                                if let Outcome::Done(inner) = parse(
                                    rest,
                                    nested,
                                    dry_run,
                                    oracle,
                                    s.progress,
                                ) {
                                    let value = JsonView::Object(named(inner.fields, description));
                                    lemma_insertion_keeps_names(fields, matched_name, value);
                                    lemma_keeps_names(
                                        s.fields,
                                        fields,
                                        inserted(fields, matched_name, value),
                                    );
                                }
                            }
                        },
                    }
                },
            }
        },
        (None, None) => {
            lemma_insertion_keeps_names(s.progress.cache, field.name, JsonView::Number(number));
        },
        (None, Some(expression)) => {
            let outcome = oracle(s.progress.evals, expression, number_variables(number));
            match outcome {
                EvaluationView::Failure(message) => {
                    lemma_insertion_keeps_names(
                        s.fields,
                        field.name + "_eval_error"@,
                        JsonView::String("eval error: "@ + message),
                    );
                },
                _ => {
                    let value = outcome.json()->0;
                    lemma_insertion_keeps_names(s.fields, field.name, value);
                    lemma_insertion_keeps_names(s.progress.cache, field.name, value);
                },
            }
        },
    }
}

} // verus!
