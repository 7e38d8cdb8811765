//! Laws of the values that are known by name.

use vstd::prelude::*;

use crate::eval::{number_variables, Oracle};
use crate::field::{kind_of, loop_count_of, reading, selected, Reading, Selection};
use crate::json::{lookup, JsonView};
use crate::laws::depth::{
    everywhere, everywhere_from, everywhere_in, everywhere_in_cases, lemma_everywhere_in_case,
};
use crate::laws::maps::lookup_after_insertion;
use crate::number::NumberView;
use crate::packet::{
    case_body, lemma_case_height, parse, parse_field, parse_from, parse_loop, process, CaseBody,
    Gathered, Outcome, Progress,
};
use crate::schema::{branch_height, branches_of, lemma_schema_height, schema_height, BranchView};

verus! {

/// Whether a field, where it has no cases, has another name.
pub open spec fn named_otherwise(field: BranchView, key: Seq<char>) -> bool {
    field.match_cases is None ==> field.name != key
}

/// Whether the same is known by a name.
pub open spec fn same_known(before: Progress, after: Progress, key: Seq<char>) -> bool {
    lookup(before.cache, key) == lookup(after.cache, key)
}

/// Whether the same is known by a name after an outcome, if it is one.
pub open spec fn still_known(before: Progress, outcome: Outcome, key: Seq<char>) -> bool {
    match outcome {
        Outcome::Done(after) => same_known(before, after.progress, key),
        Outcome::Failed { progress, .. } => same_known(before, progress, key),
        Outcome::Unsupported => true,
    }
}

/// What is known by a name changes only where a field without cases has that
/// name, at whatever depth; all else that is known stays, also where the data
/// ends too soon.
pub proof fn only_names_of_fields_change(
    data: Seq<u8>,
    schema: Seq<BranchView>,
    dry_run: bool,
    oracle: Oracle,
    progress: Progress,
    key: Seq<char>,
)
    requires
        everywhere(|field: BranchView| named_otherwise(field, key), schema),
    ensures
        still_known(progress, parse(data, schema, dry_run, oracle, progress), key),
{
    lemma_packet(
        |field: BranchView| named_otherwise(field, key),
        data,
        schema,
        dry_run,
        oracle,
        progress,
        key,
    );
}

proof fn lemma_packet(
    holds: spec_fn(BranchView) -> bool,
    data: Seq<u8>,
    schema: Seq<BranchView>,
    dry_run: bool,
    oracle: Oracle,
    progress: Progress,
    key: Seq<char>,
)
    requires
        everywhere(holds, schema),
        forall|field: BranchView| #[trigger] holds(field) ==> named_otherwise(field, key),
    ensures
        still_known(progress, parse(data, schema, dry_run, oracle, progress), key),
    decreases schema_height(schema), 2nat, 0nat,
{
    let s = Gathered { fields: Seq::empty(), offset: 0, progress };
    lemma_fields(holds, data, schema, dry_run, oracle, 0, s, key);
}

proof fn lemma_fields(
    holds: spec_fn(BranchView) -> bool,
    data: Seq<u8>,
    schema: Seq<BranchView>,
    dry_run: bool,
    oracle: Oracle,
    i: nat,
    s: Gathered,
    key: Seq<char>,
)
    requires
        everywhere_from(holds, schema, i),
        forall|field: BranchView| #[trigger] holds(field) ==> named_otherwise(field, key),
    ensures
        still_known(s.progress, parse_from(data, schema, dry_run, oracle, i, s), key),
    decreases schema_height(schema), 1nat, schema.len() - i,
{
    if i < schema.len() {
        lemma_schema_height(schema, i as int);
        lemma_field(holds, data, schema[i as int], dry_run, oracle, s, key);
        if let Outcome::Done(next) = parse_field(data, schema[i as int], dry_run, oracle, s) {
            lemma_fields(holds, data, schema, dry_run, oracle, i + 1, next, key);
        }
    }
}

proof fn lemma_field(
    holds: spec_fn(BranchView) -> bool,
    data: Seq<u8>,
    field: BranchView,
    dry_run: bool,
    oracle: Oracle,
    s: Gathered,
    key: Seq<char>,
)
    requires
        everywhere_in(holds, field),
        forall|f: BranchView| #[trigger] holds(f) ==> named_otherwise(f, key),
    ensures
        still_known(s.progress, parse_field(data, field, dry_run, oracle, s), key),
    decreases branch_height(field), 0nat, 1nat,
{
    match (field.loop_count, field.field_type) {
        (Some(count), _) => {
            if let (Some(n), Some(nested)) = (
                loop_count_of(count, s.progress.cache),
                field.branches,
            ) {
                lemma_loop(
                    holds,
                    data,
                    nested,
                    dry_run,
                    oracle,
                    n as nat,
                    Seq::empty(),
                    s.offset,
                    s.progress,
                    key,
                );
            }
        },
        (None, Some(name)) => {
            if kind_of(name).width() == 0 {
                if let Some(JsonView::Number(number)) = lookup(s.progress.cache, field.name) {
                    lemma_number(holds, data, field, dry_run, oracle, number, s, key);
                }
            } else if let Reading::Value(number, offset) = reading(
                data,
                kind_of(name),
                dry_run,
                s.offset,
            ) {
                let t = Gathered { offset, ..s };
                lemma_number(holds, data, field, dry_run, oracle, number, t, key);
            }
        },
        (None, None) => {
            if let Some(nested) = field.branches {
                let rest = data.skip(s.offset / 8);
                lemma_packet(holds, rest, nested, dry_run, oracle, s.progress, key);
            }
        },
    }
}

proof fn lemma_loop(
    holds: spec_fn(BranchView) -> bool,
    data: Seq<u8>,
    schema: Seq<BranchView>,
    dry_run: bool,
    oracle: Oracle,
    n: nat,
    items: Seq<JsonView>,
    offset: int,
    progress: Progress,
    key: Seq<char>,
)
    requires
        everywhere(holds, schema),
        forall|field: BranchView| #[trigger] holds(field) ==> named_otherwise(field, key),
    ensures
        parse_loop(data, schema, dry_run, oracle, n, items, offset, progress) matches Some(
            (_, _, after),
        ) ==> same_known(progress, after, key),
    decreases schema_height(schema), 3nat, n,
{
    if n > 0 {
        let rest = data.skip(offset / 8);
        lemma_packet(holds, rest, schema, dry_run, oracle, progress, key);
        if let Outcome::Done(inner) = parse(rest, schema, dry_run, oracle, progress) {
            lemma_loop(
                holds,
                data,
                schema,
                dry_run,
                oracle,
                (n - 1) as nat,
                items.push(JsonView::Object(inner.fields)),
                offset + inner.offset,
                inner.progress,
                key,
            );
        }
    }
}

proof fn lemma_number(
    holds: spec_fn(BranchView) -> bool,
    data: Seq<u8>,
    field: BranchView,
    dry_run: bool,
    oracle: Oracle,
    number: NumberView,
    s: Gathered,
    key: Seq<char>,
)
    requires
        holds(field),
        everywhere_in_cases(holds, field, 0),
        forall|f: BranchView| #[trigger] holds(f) ==> named_otherwise(f, key),
    ensures
        still_known(s.progress, process(data, field, dry_run, oracle, number, s), key),
    decreases branch_height(field), 0nat, 0nat,
{
    match (field.match_cases, field.eval) {
        (Some(cases), _) => {
            if let Selection::Case(k) = selected(cases, number, number.text(), 0) {
                if k < cases.len() {
                    lemma_case_height(field, k as int);
                    lemma_everywhere_in_case(holds, field, 0, k as nat);
                    if let CaseBody::Fields(_, items) = case_body(
                        cases[k as int].0,
                        cases[k as int].1,
                    ) {
                        if let Some(nested) = branches_of(items) {
                            let rest = data.skip(s.offset / 8);
                            lemma_packet(holds, rest, nested, dry_run, oracle, s.progress, key);
                        }
                    }
                }
            }
        },
        (None, None) => {
            lookup_after_insertion(
                s.progress.cache,
                field.name,
                JsonView::Number(number),
                key,
            );
        },
        (None, Some(expression)) => {
            let outcome = oracle(s.progress.evals, expression, number_variables(number));
            if !(outcome is Failure) {
                lookup_after_insertion(s.progress.cache, field.name, outcome.json()->0, key);
            }
        },
    }
}

} // verus!
