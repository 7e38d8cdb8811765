//! Laws of two runs on one schema: what the outcome does not depend on.

use vstd::prelude::*;

use crate::eval::{faithful, number_variables, Oracle};
use crate::field::{kind_of, loop_count_of, reading, selected, Reading, Selection};
use crate::json::{lookup, JsonView};
use crate::laws::depth::{
    everywhere, everywhere_from, everywhere_in, everywhere_in_cases, lemma_everywhere_in_case,
};
use crate::laws::packets::{field_goes_on, packets_go_on};
use crate::number::NumberView;
use crate::packet::{
    case_body, lemma_case_height, parse, parse_field, parse_from, parse_loop, process, CaseBody,
    Gathered, Outcome, Progress,
};
use crate::portable::portable;
use crate::schema::{branch_height, branches_of, lemma_schema_height, schema_height, BranchView};

verus! {

/// A dry run does not fail for want of data: it depends on the data only in how
/// much of it there is.
pub proof fn dry_runs_do_not_fail(
    data: Seq<u8>,
    other: Seq<u8>,
    schema: Seq<BranchView>,
    oracle: Oracle,
    progress: Progress,
)
    requires
        data.len() == other.len(),
    ensures
        !(parse(data, schema, true, oracle, progress) is Failed),
        parse(data, schema, true, oracle, progress) == parse(
            other,
            schema,
            true,
            oracle,
            progress,
        ),
    decreases schema_height(schema), 2nat, 0nat,
{
    let s = Gathered { fields: Seq::empty(), offset: 0, progress };
    lemma_dry_fields(data, other, schema, oracle, 0, s);
}

proof fn lemma_dry_fields(
    data: Seq<u8>,
    other: Seq<u8>,
    schema: Seq<BranchView>,
    oracle: Oracle,
    i: nat,
    s: Gathered,
)
    requires
        data.len() == other.len(),
        0 <= s.offset,
    ensures
        !(parse_from(data, schema, true, oracle, i, s) is Failed),
        parse_from(data, schema, true, oracle, i, s) == parse_from(
            other,
            schema,
            true,
            oracle,
            i,
            s,
        ),
    decreases schema_height(schema), 1nat, schema.len() - i,
{
    if i < schema.len() {
        lemma_schema_height(schema, i as int);
        lemma_dry_field(data, other, schema[i as int], oracle, s);
        field_goes_on(data, schema[i as int], true, oracle, s);
        if let Outcome::Done(next) = parse_field(data, schema[i as int], true, oracle, s) {
            lemma_dry_fields(data, other, schema, oracle, i + 1, next);
        }
    }
}

proof fn lemma_dry_field(
    data: Seq<u8>,
    other: Seq<u8>,
    field: BranchView,
    oracle: Oracle,
    s: Gathered,
)
    requires
        data.len() == other.len(),
        0 <= s.offset,
    ensures
        !(parse_field(data, field, true, oracle, s) is Failed),
        parse_field(data, field, true, oracle, s) == parse_field(other, field, true, oracle, s),
    decreases branch_height(field), 0nat, 1nat,
{
    match (field.loop_count, field.field_type) {
        (Some(count), _) => {
            if let (Some(n), Some(nested)) = (
                loop_count_of(count, s.progress.cache),
                field.branches,
            ) {
                lemma_dry_loop(
                    data,
                    other,
                    nested,
                    oracle,
                    n as nat,
                    Seq::empty(),
                    s.offset,
                    s.progress,
                );
            }
        },
        (None, Some(name)) => {
            if kind_of(name).width() == 0 {
                if let Some(JsonView::Number(number)) = lookup(s.progress.cache, field.name) {
                    lemma_dry_number(data, other, field, oracle, number, s);
                }
            } else if let Reading::Value(number, offset) = reading(
                data,
                kind_of(name),
                true,
                s.offset,
            ) {
                lemma_dry_number(data, other, field, oracle, number, Gathered { offset, ..s });
            }
        },
        (None, None) => {
            if let Some(nested) = field.branches {
                if s.offset / 8 <= data.len() {
                    dry_runs_do_not_fail(
                        data.skip(s.offset / 8),
                        other.skip(s.offset / 8),
                        nested,
                        oracle,
                        s.progress,
                    );
                }
            }
        },
    }
}

proof fn lemma_dry_loop(
    data: Seq<u8>,
    other: Seq<u8>,
    schema: Seq<BranchView>,
    oracle: Oracle,
    n: nat,
    items: Seq<JsonView>,
    offset: int,
    progress: Progress,
)
    requires
        data.len() == other.len(),
        0 <= offset,
    ensures
        parse_loop(data, schema, true, oracle, n, items, offset, progress) == parse_loop(
            other,
            schema,
            true,
            oracle,
            n,
            items,
            offset,
            progress,
        ),
        parse_loop(data, schema, true, oracle, n, items, offset, progress) matches Some(
            (all, _, _),
        ) ==> all.len() == items.len() + n,
    decreases schema_height(schema), 3nat, n,
{
    if n > 0 && offset / 8 <= data.len() {
        let rest = data.skip(offset / 8);
        dry_runs_do_not_fail(rest, other.skip(offset / 8), schema, oracle, progress);
        packets_go_on(rest, schema, true, oracle, progress);
        if let Outcome::Done(inner) = parse(rest, schema, true, oracle, progress) {
            lemma_dry_loop(
                data,
                other,
                schema,
                oracle,
                (n - 1) as nat,
                items.push(JsonView::Object(inner.fields)),
                offset + inner.offset,
                inner.progress,
            );
        }
    }
}

proof fn lemma_dry_number(
    data: Seq<u8>,
    other: Seq<u8>,
    field: BranchView,
    oracle: Oracle,
    number: NumberView,
    s: Gathered,
)
    requires
        data.len() == other.len(),
        0 <= s.offset,
    ensures
        !(process(data, field, true, oracle, number, s) is Failed),
        process(data, field, true, oracle, number, s) == process(
            other,
            field,
            true,
            oracle,
            number,
            s,
        ),
    decreases branch_height(field), 0nat, 0nat,
{
    if let Some(cases) = field.match_cases {
        if let Selection::Case(k) = selected(cases, number, number.text(), 0) {
            if k < cases.len() {
                lemma_case_height(field, k as int);
                if let CaseBody::Fields(_, items) = case_body(
                    cases[k as int].0,
                    cases[k as int].1,
                ) {
                    if let Some(nested) = branches_of(items) {
                        if s.offset / 8 <= data.len() {
                            dry_runs_do_not_fail(
                                data.skip(s.offset / 8),
                                other.skip(s.offset / 8),
                                nested,
                                oracle,
                                s.progress,
                            );
                        }
                    }
                }
            }
        }
    }
}

/// Whether a field evaluates no expression, or one that is portable over every
/// number.
pub open spec fn portable_field(field: BranchView) -> bool {
    field.eval matches Some(expression) ==> forall|number: NumberView| #[trigger]
        portable(expression, number_variables(number))
}

/// Whether two runs know the same, the second one being `ahead` by so many
/// evaluations.
pub open spec fn same_progress(a: Progress, b: Progress, ahead: int) -> bool {
    a.cache == b.cache && a.evals + ahead == b.evals
}

/// Whether two runs have gathered the same, the second one being `ahead` by so
/// many evaluations.
pub open spec fn same_gathered(a: Gathered, b: Gathered, ahead: int) -> bool {
    a.fields == b.fields && a.offset == b.offset && same_progress(a.progress, b.progress, ahead)
}

/// Whether two runs come to the same, the second one being `ahead` by so many
/// evaluations.
pub open spec fn same_outcome(a: Outcome, b: Outcome, ahead: int) -> bool {
    match (a, b) {
        (Outcome::Done(x), Outcome::Done(y)) => same_gathered(x, y, ahead),
        (
            Outcome::Failed { partial: p, message: m, fields: f, progress: x },
            Outcome::Failed { partial: q, message: n, fields: g, progress: y },
        ) => p == q && m == n && f == g && same_progress(x, y, ahead),
        (Outcome::Unsupported, Outcome::Unsupported) => true,
        _ => false,
    }
}

/// Where all expressions are portable, there is one outcome only.
pub proof fn portable_schemas_have_one_outcome(
    data: Seq<u8>,
    schema: Seq<BranchView>,
    dry_run: bool,
    oracle: Oracle,
    other: Oracle,
    progress: Progress,
)
    requires
        everywhere(|field: BranchView| portable_field(field), schema),
        faithful(oracle),
        faithful(other),
    ensures
        parse(data, schema, dry_run, oracle, progress) == parse(
            data,
            schema,
            dry_run,
            other,
            progress,
        ),
{
    earlier_evaluations_make_no_difference(
        data,
        schema,
        dry_run,
        oracle,
        other,
        progress,
        progress,
    );
}

/// Where all expressions are portable, the outcome does not depend on how many
/// expressions have been evaluated before.
pub proof fn earlier_evaluations_make_no_difference(
    data: Seq<u8>,
    schema: Seq<BranchView>,
    dry_run: bool,
    oracle: Oracle,
    other: Oracle,
    progress: Progress,
    later: Progress,
)
    requires
        everywhere(|field: BranchView| portable_field(field), schema),
        faithful(oracle),
        faithful(other),
        progress.cache == later.cache,
    ensures
        same_outcome(
            parse(data, schema, dry_run, oracle, progress),
            parse(data, schema, dry_run, other, later),
            later.evals - progress.evals,
        ),
{
    lemma_one_packet(
        |field: BranchView| portable_field(field),
        data,
        schema,
        dry_run,
        oracle,
        other,
        progress,
        later,
    );
}

proof fn lemma_one_packet(
    holds: spec_fn(BranchView) -> bool,
    data: Seq<u8>,
    schema: Seq<BranchView>,
    dry_run: bool,
    oracle: Oracle,
    other: Oracle,
    progress: Progress,
    later: Progress,
)
    requires
        everywhere(holds, schema),
        forall|field: BranchView| #[trigger] holds(field) ==> portable_field(field),
        faithful(oracle),
        faithful(other),
        progress.cache == later.cache,
    ensures
        same_outcome(
            parse(data, schema, dry_run, oracle, progress),
            parse(data, schema, dry_run, other, later),
            later.evals - progress.evals,
        ),
    decreases schema_height(schema), 2nat, 0nat,
{
    let s = Gathered { fields: Seq::empty(), offset: 0, progress };
    let t = Gathered { fields: Seq::empty(), offset: 0, progress: later };
    lemma_one_from(holds, data, schema, dry_run, oracle, other, 0, s, t);
}

proof fn lemma_one_from(
    holds: spec_fn(BranchView) -> bool,
    data: Seq<u8>,
    schema: Seq<BranchView>,
    dry_run: bool,
    oracle: Oracle,
    other: Oracle,
    i: nat,
    s: Gathered,
    t: Gathered,
)
    requires
        everywhere_from(holds, schema, i),
        forall|field: BranchView| #[trigger] holds(field) ==> portable_field(field),
        faithful(oracle),
        faithful(other),
        same_gathered(s, t, t.progress.evals - s.progress.evals),
    ensures
        same_outcome(
            parse_from(data, schema, dry_run, oracle, i, s),
            parse_from(data, schema, dry_run, other, i, t),
            t.progress.evals - s.progress.evals,
        ),
    decreases schema_height(schema), 1nat, schema.len() - i,
{
    if i < schema.len() {
        lemma_schema_height(schema, i as int);
        lemma_one_field(holds, data, schema[i as int], dry_run, oracle, other, s, t);
        if let (Outcome::Done(a), Outcome::Done(b)) = (
            parse_field(data, schema[i as int], dry_run, oracle, s),
            parse_field(data, schema[i as int], dry_run, other, t),
        ) {
            lemma_one_from(holds, data, schema, dry_run, oracle, other, i + 1, a, b);
        }
    }
}

proof fn lemma_one_field(
    holds: spec_fn(BranchView) -> bool,
    data: Seq<u8>,
    field: BranchView,
    dry_run: bool,
    oracle: Oracle,
    other: Oracle,
    s: Gathered,
    t: Gathered,
)
    requires
        everywhere_in(holds, field),
        forall|f: BranchView| #[trigger] holds(f) ==> portable_field(f),
        faithful(oracle),
        faithful(other),
        same_gathered(s, t, t.progress.evals - s.progress.evals),
    ensures
        same_outcome(
            parse_field(data, field, dry_run, oracle, s),
            parse_field(data, field, dry_run, other, t),
            t.progress.evals - s.progress.evals,
        ),
    decreases branch_height(field), 0nat, 1nat,
{
    match (field.loop_count, field.field_type) {
        (Some(count), _) => {
            if let (Some(n), Some(nested)) = (
                loop_count_of(count, s.progress.cache),
                field.branches,
            ) {
                lemma_one_loop(
                    holds,
                    data,
                    nested,
                    dry_run,
                    oracle,
                    other,
                    n as nat,
                    Seq::empty(),
                    s.offset,
                    s.progress,
                    t.progress,
                );
            }
        },
        (None, Some(name)) => {
            if kind_of(name).width() == 0 {
                if let Some(JsonView::Number(number)) = lookup(s.progress.cache, field.name) {
                    lemma_one_number(holds, data, field, dry_run, oracle, other, number, s, t);
                }
            } else if let Reading::Value(number, offset) = reading(
                data,
                kind_of(name),
                dry_run,
                s.offset,
            ) {
                let a = Gathered { offset, ..s };
                let b = Gathered { offset, ..t };
                lemma_one_number(holds, data, field, dry_run, oracle, other, number, a, b);
            }
        },
        (None, None) => {
            if let Some(nested) = field.branches {
                lemma_one_packet(
                    holds,
                    data.skip(s.offset / 8),
                    nested,
                    dry_run,
                    oracle,
                    other,
                    s.progress,
                    t.progress,
                );
            }
        },
    }
}

/// Whether two loops come to the same, the second one being `ahead` by so many
/// evaluations.
pub open spec fn same_loop(
    a: Option<(Seq<JsonView>, int, Progress)>,
    b: Option<(Seq<JsonView>, int, Progress)>,
    ahead: int,
) -> bool {
    match (a, b) {
        (Some((items, end, x)), Some((others, other_end, y))) => {
            items == others && end == other_end && same_progress(x, y, ahead)
        },
        (None, None) => true,
        _ => false,
    }
}

proof fn lemma_one_loop(
    holds: spec_fn(BranchView) -> bool,
    data: Seq<u8>,
    schema: Seq<BranchView>,
    dry_run: bool,
    oracle: Oracle,
    other: Oracle,
    n: nat,
    items: Seq<JsonView>,
    offset: int,
    progress: Progress,
    later: Progress,
)
    requires
        everywhere(holds, schema),
        forall|field: BranchView| #[trigger] holds(field) ==> portable_field(field),
        faithful(oracle),
        faithful(other),
        progress.cache == later.cache,
    ensures
        same_loop(
            parse_loop(data, schema, dry_run, oracle, n, items, offset, progress),
            parse_loop(data, schema, dry_run, other, n, items, offset, later),
            later.evals - progress.evals,
        ),
    decreases schema_height(schema), 3nat, n,
{
    if n > 0 {
        let rest = data.skip(offset / 8);
        lemma_one_packet(holds, rest, schema, dry_run, oracle, other, progress, later);
        if let (Outcome::Done(a), Outcome::Done(b)) = (
            parse(rest, schema, dry_run, oracle, progress),
            parse(rest, schema, dry_run, other, later),
        ) {
            lemma_one_loop(
                holds,
                data,
                schema,
                dry_run,
                oracle,
                other,
                (n - 1) as nat,
                items.push(JsonView::Object(a.fields)),
                offset + a.offset,
                a.progress,
                b.progress,
            );
        }
    }
}

proof fn lemma_one_number(
    holds: spec_fn(BranchView) -> bool,
    data: Seq<u8>,
    field: BranchView,
    dry_run: bool,
    oracle: Oracle,
    other: Oracle,
    number: NumberView,
    s: Gathered,
    t: Gathered,
)
    requires
        holds(field),
        everywhere_in_cases(holds, field, 0),
        forall|f: BranchView| #[trigger] holds(f) ==> portable_field(f),
        faithful(oracle),
        faithful(other),
        same_gathered(s, t, t.progress.evals - s.progress.evals),
    ensures
        same_outcome(
            process(data, field, dry_run, oracle, number, s),
            process(data, field, dry_run, other, number, t),
            t.progress.evals - s.progress.evals,
        ),
    decreases branch_height(field), 0nat, 0nat,
{
    if let Some(cases) = field.match_cases {
        if let Selection::Case(k) = selected(cases, number, number.text(), 0) {
            if k < cases.len() {
                lemma_case_height(field, k as int);
                lemma_everywhere_in_case(holds, field, 0, k as nat);
                if let CaseBody::Fields(_, items) = case_body(
                    cases[k as int].0,
                    cases[k as int].1,
                ) {
                    if let Some(nested) = branches_of(items) {
                        lemma_one_packet(
                            holds,
                            data.skip(s.offset / 8),
                            nested,
                            dry_run,
                            oracle,
                            other,
                            s.progress,
                            t.progress,
                        );
                    }
                }
            }
        }
    }
}

} // verus!
