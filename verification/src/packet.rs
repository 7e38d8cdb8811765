//! What a schema makes of a packet.

use vstd::prelude::*;

use crate::eval::{
    cache_after_evaluation, fields_after_evaluation, number_variables, Oracle,
};
use crate::field::{is_comparison, kind_of, loop_count_of, reading, selected, Reading, Selection};
use crate::json::{inserted, lookup, Entries, JsonView};
use crate::number::NumberView;
use crate::schema::{
    branch_height, branches_of, entries_height, json_height, lemma_branches_of_height,
    lemma_entries_height, lemma_lookup_height, lemma_schema_height, schema_height, values_height,
    BranchView,
};

verus! {

/// What is known beside the fields: values by name, and how many expressions
/// have been evaluated.
pub struct Progress {
    pub cache: Entries,
    pub evals: nat,
}

/// What has been gathered of a packet: its fields so far, the bit behind the
/// last of them, and what is known beside them.
pub struct Gathered {
    pub fields: Entries,
    pub offset: int,
    pub progress: Progress,
}

/// What taking in fields comes to.
pub enum Outcome {
    /// They were taken in.
    Done(Gathered),
    /// The data ends too soon.
    Failed {
        /// What can be given of the packet.
        partial: JsonView,
        message: Seq<char>,
        /// The fields gathered before the failure.
        fields: Entries,
        progress: Progress,
    },
    /// The schema does not fit the data: it asks for what is not there.
    Unsupported,
}

/// What a case of a match describes.
pub enum CaseBody {
    /// A value.
    Value(JsonView),
    /// Further fields, as the array of `branches` of an object.
    Fields(Entries, Seq<JsonView>),
    /// An object without such an array: nothing.
    Nothing,
}

/// What a case of a match describes. Under a comparison it is a value.
pub open spec fn case_body(key: Seq<char>, description: JsonView) -> CaseBody {
    if is_comparison(key) {
        CaseBody::Value(description)
    } else {
        match description {
            JsonView::Object(entries) => match lookup(entries, "branches"@) {
                Some(JsonView::Array(items)) => CaseBody::Fields(entries, items),
                _ => CaseBody::Nothing,
            },
            _ => CaseBody::Value(description),
        }
    }
}

/// The fields of a case under the name that the case has, if it has one.
pub open spec fn named(fields: Entries, description: Entries) -> Entries {
    match lookup(description, "name"@) {
        Some(name) => inserted(fields, "name"@, name),
        None => fields,
    }
}

/// The fields of a case are nested less deep than the field.
pub proof fn lemma_case_height(field: BranchView, i: int)
    requires
        field.match_cases is Some,
        0 <= i < field.match_cases->0.len(),
    ensures
        case_body(field.match_cases->0[i].0, field.match_cases->0[i].1) matches CaseBody::Fields(
            _,
            items,
        ) ==> (branches_of(items) matches Some(nested) ==> schema_height(nested) < branch_height(
            field,
        )),
{
    let cases = field.match_cases->0;
    lemma_entries_height(cases, i);
    if let JsonView::Object(entries) = cases[i].1 {
        lemma_lookup_height(entries, "branches"@);
        if let Some(JsonView::Array(items)) = lookup(entries, "branches"@) {
            lemma_branches_of_height(items);
            assert(json_height(JsonView::Array(items)) == 1 + values_height(items));
            assert(json_height(cases[i].1) == 1 + entries_height(entries));
        }
    }
}

/// What a schema makes of a packet.
pub open spec fn parse(
    data: Seq<u8>,
    schema: Seq<BranchView>,
    dry_run: bool,
    oracle: Oracle,
    progress: Progress,
) -> Outcome
    decreases schema_height(schema), 2nat, 0nat,
{
    parse_from(
        data,
        schema,
        dry_run,
        oracle,
        0,
        Gathered { fields: Seq::empty(), offset: 0, progress },
    )
}

/// Taking in the fields of a schema from field `i` on.
pub open spec fn parse_from(
    data: Seq<u8>,
    schema: Seq<BranchView>,
    dry_run: bool,
    oracle: Oracle,
    i: nat,
    s: Gathered,
) -> Outcome
    decreases schema_height(schema), 1nat, schema.len() - i,
{
    if i >= schema.len() {
        Outcome::Done(s)
    } else {
        proof {
            lemma_schema_height(schema, i as int);
        }
        match parse_field(data, schema[i as int], dry_run, oracle, s) {
            Outcome::Done(next) => parse_from(data, schema, dry_run, oracle, i + 1, next),
            other => other,
        }
    }
}

/// Taking in one field: a loop, a number, or a group of fields.
pub open spec fn parse_field(
    data: Seq<u8>,
    field: BranchView,
    dry_run: bool,
    oracle: Oracle,
    s: Gathered,
) -> Outcome
    decreases branch_height(field), 0nat, 1nat,
{
    match (field.loop_count, field.field_type) {
        (Some(count), _) => match loop_count_of(count, s.progress.cache) {
            None => Outcome::Unsupported,
            Some(n) => if n == 0 {
                Outcome::Done(
                    Gathered {
                        fields: inserted(s.fields, field.name, JsonView::Array(Seq::empty())),
                        ..s
                    },
                )
            } else {
                match field.branches {
                    None => Outcome::Unsupported,
                    Some(nested) => match parse_loop(
                        data,
                        nested,
                        dry_run,
                        oracle,
                        n as nat,
                        Seq::empty(),
                        s.offset,
                        s.progress,
                    ) {
                        None => Outcome::Unsupported,
                        Some((items, offset, progress)) => Outcome::Done(
                            Gathered {
                                fields: inserted(s.fields, field.name, JsonView::Array(items)),
                                offset,
                                progress,
                            },
                        ),
                    },
                }
            },
        },
        (None, Some(name)) => if kind_of(name).width() == 0 {
            if name == "u0"@ && lookup(s.progress.cache, field.name) is Some {
                match lookup(s.progress.cache, field.name) {
                    Some(JsonView::Number(number)) => process(
                        data,
                        field,
                        dry_run,
                        oracle,
                        number,
                        s,
                    ),
                    _ => Outcome::Unsupported,
                }
            } else {
                Outcome::Done(s)
            }
        } else {
            match reading(data, kind_of(name), dry_run, s.offset) {
                Reading::Value(number, offset) => process(
                    data,
                    field,
                    dry_run,
                    oracle,
                    number,
                    Gathered { offset, ..s },
                ),
                Reading::Short(message) => Outcome::Failed {
                    partial: JsonView::Object(s.fields),
                    message,
                    fields: s.fields,
                    progress: s.progress,
                },
                Reading::Unsupported => Outcome::Unsupported,
            }
        },
        (None, None) => match field.branches {
            None => Outcome::Unsupported,
            Some(nested) => if s.offset / 8 > data.len() {
                Outcome::Unsupported
            } else {
                match parse(data.skip(s.offset / 8), nested, dry_run, oracle, s.progress) {
                    Outcome::Done(inner) => if s.offset + inner.offset <= usize::MAX {
                        Outcome::Done(
                            Gathered {
                                fields: inserted(
                                    s.fields,
                                    field.name,
                                    JsonView::Object(inner.fields),
                                ),
                                offset: s.offset + inner.offset,
                                progress: inner.progress,
                            },
                        )
                    } else {
                        Outcome::Unsupported
                    },
                    Outcome::Failed { partial, message, progress, .. } => Outcome::Failed {
                        partial,
                        message,
                        fields: s.fields,
                        progress,
                    },
                    Outcome::Unsupported => Outcome::Unsupported,
                }
            },
        },
    }
}

/// Going round a loop `n` times more: the items, the offset behind them, and
/// what is known then. The loop ends early where the data does, without the
/// item that it ends in.
pub open spec fn parse_loop(
    data: Seq<u8>,
    schema: Seq<BranchView>,
    dry_run: bool,
    oracle: Oracle,
    n: nat,
    items: Seq<JsonView>,
    offset: int,
    progress: Progress,
) -> Option<(Seq<JsonView>, int, Progress)>
    decreases schema_height(schema), 3nat, n,
{
    if n == 0 {
        Some((items, offset, progress))
    } else if offset / 8 > data.len() {
        None
    } else {
        match parse(data.skip(offset / 8), schema, dry_run, oracle, progress) {
            Outcome::Done(inner) => if offset + inner.offset <= usize::MAX {
                parse_loop(
                    data,
                    schema,
                    dry_run,
                    oracle,
                    (n - 1) as nat,
                    items.push(JsonView::Object(inner.fields)),
                    offset + inner.offset,
                    inner.progress,
                )
            } else {
                None
            },
            Outcome::Failed { progress, .. } => Some((items, offset, progress)),
            Outcome::Unsupported => None,
        }
    }
}

/// Taking in the number of a field: as the case it falls under, as what an
/// expression makes of it, or as it is.
pub open spec fn process(
    data: Seq<u8>,
    field: BranchView,
    dry_run: bool,
    oracle: Oracle,
    number: NumberView,
    s: Gathered,
) -> Outcome
    decreases branch_height(field), 0nat, 0nat,
{
    match (field.match_cases, field.eval) {
        (Some(cases), _) => {
            let fields = inserted(s.fields, field.name, JsonView::Number(number));
            let matched_name = field.name + "_matched"@;
            match selected(cases, number, number.text(), 0) {
                Selection::Unsupported => Outcome::Unsupported,
                Selection::NoCase => Outcome::Done(
                    Gathered {
                        fields: inserted(fields, matched_name, JsonView::String("unknown"@)),
                        ..s
                    },
                ),
                Selection::Case(k) => if k >= cases.len() {
                    Outcome::Unsupported
                } else {
                    proof {
                        lemma_case_height(field, k as int);
                    }
                    match case_body(cases[k as int].0, cases[k as int].1) {
                        CaseBody::Value(value) => Outcome::Done(
                            Gathered { fields: inserted(fields, matched_name, value), ..s },
                        ),
                        CaseBody::Nothing => Outcome::Done(Gathered { fields, ..s }),
                        CaseBody::Fields(description, items) => match branches_of(items) {
                            None => Outcome::Unsupported,
                            Some(nested) => if s.offset / 8 > data.len() {
                                Outcome::Unsupported
                            } else {
                                match parse(
                                    data.skip(s.offset / 8),
                                    nested,
                                    dry_run,
                                    oracle,
                                    s.progress,
                                ) {
                                    Outcome::Done(inner) => if s.offset + inner.offset
                                        <= usize::MAX {
                                        Outcome::Done(
                                            Gathered {
                                                fields: inserted(
                                                    fields,
                                                    matched_name,
                                                    JsonView::Object(
                                                        named(inner.fields, description),
                                                    ),
                                                ),
                                                offset: s.offset + inner.offset,
                                                progress: inner.progress,
                                            },
                                        )
                                    } else {
                                        Outcome::Unsupported
                                    },
                                    Outcome::Failed { partial, message, progress, .. } => {
                                        Outcome::Failed { partial, message, fields, progress }
                                    },
                                    Outcome::Unsupported => Outcome::Unsupported,
                                }
                            },
                        },
                    }
                },
            }
        },
        (None, None) => Outcome::Done(
            Gathered {
                fields: inserted(s.fields, field.name, JsonView::Number(number)),
                offset: s.offset,
                progress: Progress {
                    cache: inserted(s.progress.cache, field.name, JsonView::Number(number)),
                    evals: s.progress.evals,
                },
            },
        ),
        (None, Some(expression)) => {
            let outcome = oracle(s.progress.evals, expression, number_variables(number));
            Outcome::Done(
                Gathered {
                    fields: fields_after_evaluation(s.fields, field.name, outcome),
                    offset: s.offset,
                    progress: Progress {
                        cache: cache_after_evaluation(s.progress.cache, field.name, outcome),
                        evals: s.progress.evals + 1,
                    },
                },
            )
        },
    }
}

} // verus!
