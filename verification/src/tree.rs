//! Parsing a packet by its schema.

use vstd::pervasive::unreached;
use vstd::prelude::*;
use vstd::slice::slice_subrange;

use crate::eval::{
    agrees, faithful, lemma_portable_calls_agree, lemma_replay, replay, store_evaluation, EvalCall,
    Oracle, Tape,
};
use crate::field::{
    field_kind, find_loop_count, read_field, select_case, FieldRead, Selection,
};
use crate::json::{lemma_array_view, values_of, Entries, Json, JsonMap, JsonView};
use crate::number::{Number, NumberView};
use crate::packet::{
    lemma_case_height, parse, parse_field, parse_from, parse_loop, process, Gathered, Outcome,
    Progress,
};
use crate::schema::{
    branch_height, decode_branches, lemma_branches_view, lemma_schema_height, schema_height,
    schema_view, Branch, BranchView,
};
use crate::text::{same_text, starts_with};

verus! {

/// What walking over the fields of a schema comes to.
enum Walked {
    Done(JsonMap, usize),
    Failed(Json, String),
    Unsupported,
}

/// What walking over one field comes to.
enum Stepped {
    Done(usize),
    Failed(Json, String),
    Unsupported,
}

impl Walked {
    /// Whether this is the outcome, what is known beside the fields being
    /// `progress`.
    spec fn is(&self, progress: Progress, outcome: Outcome) -> bool {
        match (self, outcome) {
            (Walked::Done(fields, offset), Outcome::Done(after)) => {
                &&& after.fields == fields@
                &&& after.offset == offset
                &&& after.progress == progress
            },
            (
                Walked::Failed(data, text),
                Outcome::Failed { partial, message, progress: after, .. },
            ) => {
                &&& partial == data@
                &&& message == text@
                &&& after == progress
            },
            (Walked::Unsupported, Outcome::Unsupported) => true,
            _ => false,
        }
    }
}

impl Stepped {
    /// Whether this is the outcome, the fields being `fields` and what is known
    /// beside them being `progress`.
    spec fn is(&self, fields: Entries, progress: Progress, outcome: Outcome) -> bool {
        match (self, outcome) {
            (Stepped::Done(offset), Outcome::Done(after)) => {
                &&& after.fields == fields
                &&& after.offset == offset
                &&& after.progress == progress
            },
            (
                Stepped::Failed(data, text),
                Outcome::Failed { partial, message, fields: gathered, progress: after },
            ) => {
                &&& partial == data@
                &&& message == text@
                &&& gathered == fields
                &&& after == progress
            },
            (Stepped::Unsupported, Outcome::Unsupported) => true,
            _ => false,
        }
    }
}

/// What is known beside the fields.
spec fn known(cache: JsonMap, tape: Tape) -> Progress {
    Progress { cache: cache@, evals: tape@.len() }
}

/// Agreement on the evaluations of a run is agreement on those before.
proof fn lemma_agrees_before(oracle: Oracle, before: Seq<EvalCall>, after: Seq<EvalCall>)
    requires
        before.is_prefix_of(after),
        agrees(oracle, after),
    ensures
        agrees(oracle, before),
{
    assert forall|i: int| 0 <= i < before.len() implies oracle(
        i as nat,
        (#[trigger] before[i]).expression,
        before[i].variables,
    ) == before[i].outcome by {
        assert(before[i] == after[i]);
    }
}

/// Walks over the fields of a schema.
fn walk(
    data: &[u8],
    schema: &[Branch],
    dry_run: bool,
    cache: &mut JsonMap,
    tape: &mut Tape,
) -> (r: Walked)
    ensures
        old(tape)@.is_prefix_of(final(tape)@),
        forall|oracle: Oracle| #[trigger]
            agrees(oracle, final(tape)@) ==> r.is(
                known(*final(cache), *final(tape)),
                parse(
                    data@,
                    schema_view(schema@),
                    dry_run,
                    oracle,
                    known(*old(cache), *old(tape)),
                ),
            ),
    decreases schema_height(schema_view(schema@)), 2nat, 0nat,
{
    let ghost view = schema_view(schema@);
    let ghost start = Gathered {
        fields: Seq::empty(),
        offset: 0,
        progress: known(*cache, *tape),
    };
    let mut fields = JsonMap::new();
    let mut offset: usize = 0;
    for i in 0..schema.len()
        invariant
            view == schema_view(schema@),
            old(tape)@.is_prefix_of(tape@),
            start == (Gathered {
                fields: Seq::empty(),
                offset: 0,
                progress: known(*old(cache), *old(tape)),
            }),
            forall|oracle: Oracle| #[trigger]
                agrees(oracle, tape@) ==> parse_from(data@, view, dry_run, oracle, 0, start)
                    == parse_from(
                    data@,
                    view,
                    dry_run,
                    oracle,
                    i as nat,
                    Gathered {
                        fields: fields@,
                        offset: offset as int,
                        progress: known(*cache, *tape),
                    },
                ),
    {
        let ghost s = Gathered {
            fields: fields@,
            offset: offset as int,
            progress: known(*cache, *tape),
        };
        let ghost before = tape@;
        proof {
            lemma_schema_height(view, i as int);
            assert(view[i as int] == schema@[i as int]@);
        }
        let stepped = walk_field(data, &schema[i], dry_run, cache, tape, &mut fields, offset);
        proof {
            assert forall|oracle: Oracle| #[trigger] agrees(oracle, tape@) implies parse_from(
                data@,
                view,
                dry_run,
                oracle,
                0,
                start,
            ) == parse_from(data@, view, dry_run, oracle, i as nat, s) && stepped.is(
                fields@,
                known(*cache, *tape),
                parse_field(data@, view[i as int], dry_run, oracle, s),
            ) by {
                lemma_agrees_before(oracle, before, tape@);
            }
        }
        match stepped {
            Stepped::Done(next) => {
                offset = next;
            },
            Stepped::Failed(partial, message) => {
                return Walked::Failed(partial, message);
            },
            Stepped::Unsupported => {
                return Walked::Unsupported;
            },
        }
    }
    Walked::Done(fields, offset)
}

/// Walks over one field.
fn walk_field(
    data: &[u8],
    field: &Branch,
    dry_run: bool,
    cache: &mut JsonMap,
    tape: &mut Tape,
    fields: &mut JsonMap,
    offset: usize,
) -> (r: Stepped)
    ensures
        old(tape)@.is_prefix_of(final(tape)@),
        forall|oracle: Oracle| #[trigger]
            agrees(oracle, final(tape)@) ==> r.is(
                final(fields)@,
                known(*final(cache), *final(tape)),
                parse_field(
                    data@,
                    field@,
                    dry_run,
                    oracle,
                    Gathered {
                        fields: old(fields)@,
                        offset: offset as int,
                        progress: known(*old(cache), *old(tape)),
                    },
                ),
            ),
    decreases branch_height(field@), 0nat, 1nat,
{
    proof {
        lemma_branches_view(*field);
    }
    if let Some(count) = &field.loop_count {
        let n = match find_loop_count(count, cache) {
            Some(n) => n,
            None => {
                return Stepped::Unsupported;
            },
        };
        if n == 0 {
            let items: Vec<Json> = Vec::new();
            proof {
                lemma_array_view(items);
                assert(values_of(items@) =~= Seq::<JsonView>::empty());
            }
            fields.insert(field.name.clone(), Json::Array(items));
            return Stepped::Done(offset);
        }
        return match &field.branches {
            None => Stepped::Unsupported,
            Some(nested) => match walk_loop(
                data,
                nested.as_slice(),
                dry_run,
                cache,
                tape,
                n,
                offset,
            ) {
                None => Stepped::Unsupported,
                Some((items, next)) => {
                    proof {
                        lemma_array_view(items);
                    }
                    fields.insert(field.name.clone(), Json::Array(items));
                    Stepped::Done(next)
                },
            },
        };
    }
    if let Some(name) = &field.field_type {
        let kind = field_kind(name.as_str());
        if kind.bits() == 0 {
            if !same_text(name.as_str(), "u0") {
                return Stepped::Done(offset);
            }
            let number = match cache.get(field.name.as_str()) {
                None => {
                    return Stepped::Done(offset);
                },
                Some(Json::Number(number)) => *number,
                Some(_) => {
                    return Stepped::Unsupported;
                },
            };
            return walk_number(data, field, dry_run, number, offset, cache, tape, fields);
        }
        return match read_field(data, kind, dry_run, offset) {
            FieldRead::Value(number, next) => {
                walk_number(data, field, dry_run, number, next, cache, tape, fields)
            },
            FieldRead::Short(message) => {
                Stepped::Failed(Json::Object(fields.duplicate()), message)
            },
            FieldRead::Unsupported => Stepped::Unsupported,
        };
    }
    match &field.branches {
        None => Stepped::Unsupported,
        Some(nested) => {
            if offset / 8 > data.len() {
                return Stepped::Unsupported;
            }
            let rest = slice_subrange(data, offset / 8, data.len());
            assert(rest@ =~= data@.skip(offset as int / 8));
            match walk(rest, nested.as_slice(), dry_run, cache, tape) {
                Walked::Done(inner, bits) => {
                    if bits > usize::MAX - offset {
                        return Stepped::Unsupported;
                    }
                    fields.insert(field.name.clone(), Json::Object(inner));
                    Stepped::Done(offset + bits)
                },
                Walked::Failed(partial, message) => Stepped::Failed(partial, message),
                Walked::Unsupported => Stepped::Unsupported,
            }
        },
    }
}

/// Walks `n` times over the fields of a loop.
fn walk_loop(
    data: &[u8],
    schema: &[Branch],
    dry_run: bool,
    cache: &mut JsonMap,
    tape: &mut Tape,
    n: u64,
    offset: usize,
) -> (r: Option<(Vec<Json>, usize)>)
    ensures
        old(tape)@.is_prefix_of(final(tape)@),
        forall|oracle: Oracle| #[trigger]
            agrees(oracle, final(tape)@) ==> ({
                let looped = parse_loop(
                    data@,
                    schema_view(schema@),
                    dry_run,
                    oracle,
                    n as nat,
                    Seq::empty(),
                    offset as int,
                    known(*old(cache), *old(tape)),
                );
                match r {
                    Some((items, next)) => looped == Some(
                        (values_of(items@), next as int, known(*final(cache), *final(tape))),
                    ),
                    None => looped is None,
                }
            }),
    decreases schema_height(schema_view(schema@)), 3nat, n,
{
    let ghost view = schema_view(schema@);
    let ghost start = known(*cache, *tape);
    let mut items: Vec<Json> = Vec::new();
    let mut next: usize = offset;
    let mut left: u64 = n;
    assert(values_of(items@) =~= Seq::<JsonView>::empty());
    while left > 0
        invariant
            view == schema_view(schema@),
            start == known(*old(cache), *old(tape)),
            old(tape)@.is_prefix_of(tape@),
            left <= n,
            forall|oracle: Oracle| #[trigger]
                agrees(oracle, tape@) ==> parse_loop(
                    data@,
                    view,
                    dry_run,
                    oracle,
                    n as nat,
                    Seq::empty(),
                    offset as int,
                    start,
                ) == parse_loop(
                    data@,
                    view,
                    dry_run,
                    oracle,
                    left as nat,
                    values_of(items@),
                    next as int,
                    known(*cache, *tape),
                ),
        decreases left,
    {
        if next / 8 > data.len() {
            return None;
        }
        let ghost before = tape@;
        let ghost known_before = known(*cache, *tape);
        let rest = slice_subrange(data, next / 8, data.len());
        assert(rest@ =~= data@.skip(next as int / 8));
        let walked = walk(rest, schema, dry_run, cache, tape);
        proof {
            assert forall|oracle: Oracle| #[trigger] agrees(oracle, tape@) implies parse_loop(
                data@,
                view,
                dry_run,
                oracle,
                n as nat,
                Seq::empty(),
                offset as int,
                start,
            ) == parse_loop(
                data@,
                view,
                dry_run,
                oracle,
                left as nat,
                values_of(items@),
                next as int,
                known_before,
            ) && walked.is(
                known(*cache, *tape),
                parse(data@.skip(next as int / 8), view, dry_run, oracle, known_before),
            ) by {
                lemma_agrees_before(oracle, before, tape@);
            }
        }
        match walked {
            Walked::Done(inner, bits) => {
                if bits > usize::MAX - next {
                    return None;
                }
                let ghost items_before = values_of(items@);
                let ghost item = JsonView::Object(inner@);
                items.push(Json::Object(inner));
                assert(values_of(items@) =~= items_before.push(item));
                next = next + bits;
                left = left - 1;
            },
            Walked::Failed(_, _) => {
                return Some((items, next));
            },
            Walked::Unsupported => {
                return None;
            },
        }
    }
    Some((items, next))
}

/// Takes in the number of a field.
fn walk_number(
    data: &[u8],
    field: &Branch,
    dry_run: bool,
    number: Number,
    offset: usize,
    cache: &mut JsonMap,
    tape: &mut Tape,
    fields: &mut JsonMap,
) -> (r: Stepped)
    ensures
        old(tape)@.is_prefix_of(final(tape)@),
        forall|oracle: Oracle| #[trigger]
            agrees(oracle, final(tape)@) ==> r.is(
                final(fields)@,
                known(*final(cache), *final(tape)),
                process(
                    data@,
                    field@,
                    dry_run,
                    oracle,
                    number@,
                    Gathered {
                        fields: old(fields)@,
                        offset: offset as int,
                        progress: known(*old(cache), *old(tape)),
                    },
                ),
            ),
    decreases branch_height(field@), 0nat, 0nat,
{
    if let Some(cases) = &field.match_cases {
        let matched_name = field.name.clone().concat("_matched");
        fields.insert(field.name.clone(), Json::Number(number));
        let text = number.text();
        let k = match select_case(cases, &number, text.as_str()) {
            Selection::Unsupported => {
                return Stepped::Unsupported;
            },
            Selection::NoCase => {
                fields.insert(matched_name, Json::String(String::from_str("unknown")));
                return Stepped::Done(offset);
            },
            Selection::Case(k) => k,
        };
        let key = cases.key_at(k);
        let description = cases.value_at(k);
        let comparison = starts_with(key.as_str(), "gt_") || starts_with(key.as_str(), "ge_")
            || starts_with(key.as_str(), "lt_") || starts_with(key.as_str(), "le_");
        proof {
            lemma_case_height(field@, k as int);
        }
        if !comparison {
            if let Json::Object(object) = description {
                let items = match object.get("branches") {
                    Some(Json::Array(items)) => items,
                    _ => {
                        return Stepped::Done(offset);
                    },
                };
                proof {
                    lemma_array_view(*items);
                }
                let nested = match decode_branches(items) {
                    Some(nested) => nested,
                    None => {
                        return Stepped::Unsupported;
                    },
                };
                if offset / 8 > data.len() {
                    return Stepped::Unsupported;
                }
                let rest = slice_subrange(data, offset / 8, data.len());
                assert(rest@ =~= data@.skip(offset as int / 8));
                return match walk(rest, nested.as_slice(), dry_run, cache, tape) {
                    Walked::Done(mut inner, bits) => {
                        if bits > usize::MAX - offset {
                            return Stepped::Unsupported;
                        }
                        if let Some(name) = object.get("name") {
                            inner.insert(String::from_str("name"), name.duplicate());
                        }
                        fields.insert(matched_name, Json::Object(inner));
                        Stepped::Done(offset + bits)
                    },
                    Walked::Failed(partial, message) => Stepped::Failed(partial, message),
                    Walked::Unsupported => Stepped::Unsupported,
                };
            }
        }
        fields.insert(matched_name, description.duplicate());
        return Stepped::Done(offset);
    }
    match &field.eval {
        Some(expression) => {
            let ghost before = tape@;
            let evaluation = tape.run(expression.as_str(), &number);
            let ghost outcome = evaluation@;
            assert(tape@[before.len() as int].outcome == outcome);
            store_evaluation(&field.name, evaluation, cache, fields);
        },
        None => {
            fields.insert(field.name.clone(), Json::Number(number));
            cache.insert(field.name.clone(), Json::Number(number));
        },
    }
    Stepped::Done(offset)
}

/// Whether a result is the outcome of parsing a packet, `cache` holding the
/// values known then.
pub open spec fn is_parsed(
    result: Result<(Json, usize), (Json, String)>,
    cache: Entries,
    outcome: Outcome,
) -> bool {
    match (result, outcome) {
        (Ok((json, bits)), Outcome::Done(after)) => {
            &&& json@ == JsonView::Object(after.fields)
            &&& bits == after.offset
            &&& cache == after.progress.cache
        },
        (Err((data, text)), Outcome::Failed { partial, message, progress, .. }) => {
            &&& data@ == partial
            &&& text@ == message
            &&& cache == progress.cache
        },
        _ => false,
    }
}

/// Whether a result is the outcome of taking in the number of a field, `fields`
/// and `cache` holding the fields and the values known then.
pub open spec fn is_processed(
    result: Result<usize, (Json, String)>,
    fields: Entries,
    cache: Entries,
    outcome: Outcome,
) -> bool {
    match (result, outcome) {
        (Ok(offset), Outcome::Done(after)) => {
            &&& offset == after.offset
            &&& fields == after.fields
            &&& cache == after.progress.cache
        },
        (
            Err((data, text)),
            Outcome::Failed { partial, message, fields: gathered, progress },
        ) => {
            &&& data@ == partial
            &&& text@ == message
            &&& fields == gathered
            &&& cache == progress.cache
        },
        _ => false,
    }
}

/// What is known at the start: values by name.
pub open spec fn initially(cache: Entries) -> Progress {
    Progress { cache, evals: 0 }
}

/// What has been gathered before the number of a field.
pub open spec fn gathered(fields: Entries, offset: usize, cache: Entries) -> Gathered {
    Gathered { fields, offset: offset as int, progress: initially(cache) }
}

/// Whether a schema fits the data, whatever its expressions come to.
pub open spec fn fits(
    data: Seq<u8>,
    schema: Seq<BranchView>,
    dry_run: bool,
    cache: Entries,
) -> bool {
    forall|oracle: Oracle| #[trigger]
        faithful(oracle) ==> !(parse(
            data,
            schema,
            dry_run,
            oracle,
            initially(cache),
        ) is Unsupported)
}

/// Whether a field fits the data and its number, whatever its expressions come
/// to.
pub open spec fn field_fits(
    data: Seq<u8>,
    field: BranchView,
    dry_run: bool,
    number: NumberView,
    before: Gathered,
) -> bool {
    forall|oracle: Oracle| #[trigger]
        faithful(oracle) ==> !(process(
            data,
            field,
            dry_run,
            oracle,
            number,
            before,
        ) is Unsupported)
}

/// Parses a packet by its schema into a JSON object and the number of bits it
/// takes. Where the data ends too soon, what could be parsed comes with the
/// message. The schema has to fit the data.
///
/// Fields are read from the least significant bit of a byte on; nested fields
/// start with the byte in which the fields before them end. In a dry run
/// nothing is read and every number is zero. `prev_val_cache` holds the values
/// known by name, for loops and for fields that take up an earlier value.
pub fn parse_schema(
    data: &[u8],
    schema_fields: &[Branch],
    dry_run: bool,
    prev_val_cache: &mut JsonMap,
) -> (r: Result<(Json, usize), (Json, String)>)
    requires
        fits(data@, schema_view(schema_fields@), dry_run, old(prev_val_cache)@),
    ensures
        exists|oracle: Oracle| #[trigger]
            faithful(oracle) && is_parsed(
                r,
                final(prev_val_cache)@,
                parse(
                    data@,
                    schema_view(schema_fields@),
                    dry_run,
                    oracle,
                    initially(old(prev_val_cache)@),
                ),
            ),
{
    let mut tape = Tape::new();
    let walked = walk(data, schema_fields, dry_run, prev_val_cache, &mut tape);
    proof {
        use_type_invariant(&tape);
        tape.lemma_record();
        lemma_replay(tape@);
        assert(faithful(replay(tape@)));
    }
    match walked {
        Walked::Done(fields, bits) => Ok((Json::Object(fields), bits)),
        Walked::Failed(partial, message) => Err((partial, message)),
        Walked::Unsupported => unreached(),
    }
}

/// Parses a packet by its schema, or gives nothing where the schema does not
/// fit the data; the values known by name are the same then.
///
/// A trial on a copy of the known values comes first. Where its outcome is the
/// only one there can be, the packet is parsed; where an expression may come
/// out otherwise the next time, the trial is kept.
pub fn try_parse_schema(
    data: &[u8],
    schema_fields: &[Branch],
    dry_run: bool,
    prev_val_cache: &mut JsonMap,
) -> (r: Option<Result<(Json, usize), (Json, String)>>)
    ensures
        exists|oracle: Oracle| #[trigger]
            faithful(oracle) && ({
                let outcome = parse(
                    data@,
                    schema_view(schema_fields@),
                    dry_run,
                    oracle,
                    initially(old(prev_val_cache)@),
                );
                match r {
                    Some(result) => is_parsed(result, final(prev_val_cache)@, outcome),
                    None => outcome is Unsupported && *final(prev_val_cache) == *old(
                        prev_val_cache,
                    ),
                }
            }),
{
    let mut trial = prev_val_cache.duplicate();
    let mut tape = Tape::new();
    let walked = walk(data, schema_fields, dry_run, &mut trial, &mut tape);
    proof {
        use_type_invariant(&tape);
        tape.lemma_record();
        lemma_replay(tape@);
        assert(faithful(replay(tape@)));
    }
    let result = match walked {
        Walked::Done(fields, bits) => Ok((Json::Object(fields), bits)),
        Walked::Failed(partial, message) => Err((partial, message)),
        Walked::Unsupported => {
            return None;
        },
    };
    if tape.is_portable() {
        proof {
            assert forall|oracle: Oracle| #[trigger] faithful(oracle) implies !(parse(
                data@,
                schema_view(schema_fields@),
                dry_run,
                oracle,
                initially(prev_val_cache@),
            ) is Unsupported) by {
                lemma_portable_calls_agree(oracle, tape@);
            }
        }
        return Some(parse_schema(data, schema_fields, dry_run, prev_val_cache));
    }
    *prev_val_cache = trial;
    Some(result)
}

/// Takes in the number of a field and returns the offset behind the field, or
/// what could be parsed and the message where the data ends too soon. The field
/// has to fit the data and the number.
///
/// Where the field has cases, the first one that the number falls under stands
/// beside the number, under the name of the field with `_matched` added; a case
/// that describes further fields is parsed. Where the field has an expression,
/// its value takes the place of the number.
pub fn process_field(
    data: &[u8],
    field: &Branch,
    dry_run: bool,
    value: Number,
    bit_offset: usize,
    prev_val_cache: &mut JsonMap,
    parsed_data: &mut JsonMap,
) -> (r: Result<usize, (Json, String)>)
    requires
        field_fits(
            data@,
            field@,
            dry_run,
            value@,
            gathered(old(parsed_data)@, bit_offset, old(prev_val_cache)@),
        ),
    ensures
        exists|oracle: Oracle| #[trigger]
            faithful(oracle) && is_processed(
                r,
                final(parsed_data)@,
                final(prev_val_cache)@,
                process(
                    data@,
                    field@,
                    dry_run,
                    oracle,
                    value@,
                    gathered(old(parsed_data)@, bit_offset, old(prev_val_cache)@),
                ),
            ),
{
    let mut tape = Tape::new();
    let stepped = walk_number(
        data,
        field,
        dry_run,
        value,
        bit_offset,
        prev_val_cache,
        &mut tape,
        parsed_data,
    );
    proof {
        use_type_invariant(&tape);
        tape.lemma_record();
        lemma_replay(tape@);
        assert(faithful(replay(tape@)));
    }
    match stepped {
        Stepped::Done(offset) => Ok(offset),
        Stepped::Failed(partial, message) => Err((partial, message)),
        Stepped::Unsupported => unreached(),
    }
}

/// Takes in the number of a field, or gives nothing where the field does not
/// fit the data and the number; the fields and the values known by name are the
/// same then. A trial on copies of them comes first, as in `try_parse_schema`.
pub fn try_process_field(
    data: &[u8],
    field: &Branch,
    dry_run: bool,
    value: Number,
    bit_offset: usize,
    prev_val_cache: &mut JsonMap,
    parsed_data: &mut JsonMap,
) -> (r: Option<Result<usize, (Json, String)>>)
    ensures
        exists|oracle: Oracle| #[trigger]
            faithful(oracle) && ({
                let outcome = process(
                    data@,
                    field@,
                    dry_run,
                    oracle,
                    value@,
                    gathered(old(parsed_data)@, bit_offset, old(prev_val_cache)@),
                );
                match r {
                    Some(result) => is_processed(
                        result,
                        final(parsed_data)@,
                        final(prev_val_cache)@,
                        outcome,
                    ),
                    None => outcome is Unsupported && *final(prev_val_cache) == *old(
                        prev_val_cache,
                    ) && *final(parsed_data) == *old(parsed_data),
                }
            }),
{
    let mut trial_cache = prev_val_cache.duplicate();
    let mut trial_data = parsed_data.duplicate();
    let mut tape = Tape::new();
    let stepped = walk_number(
        data,
        field,
        dry_run,
        value,
        bit_offset,
        &mut trial_cache,
        &mut tape,
        &mut trial_data,
    );
    proof {
        use_type_invariant(&tape);
        tape.lemma_record();
        lemma_replay(tape@);
        assert(faithful(replay(tape@)));
    }
    let result = match stepped {
        Stepped::Done(offset) => Ok(offset),
        Stepped::Failed(partial, message) => Err((partial, message)),
        Stepped::Unsupported => {
            return None;
        },
    };
    if tape.is_portable() {
        proof {
            let before = gathered(parsed_data@, bit_offset, prev_val_cache@);
            assert forall|oracle: Oracle| #[trigger] faithful(oracle) implies !(process(
                data@,
                field@,
                dry_run,
                oracle,
                value@,
                before,
            ) is Unsupported) by {
                lemma_portable_calls_agree(oracle, tape@);
            }
        }
        return Some(
            process_field(data, field, dry_run, value, bit_offset, prev_val_cache, parsed_data),
        );
    }
    *prev_val_cache = trial_cache;
    *parsed_data = trial_data;
    Some(result)
}

} // verus!
