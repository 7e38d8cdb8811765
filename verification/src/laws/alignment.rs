//! Laws of schemas in whole bytes.

use vstd::prelude::*;

use crate::eval::{faithful, Oracle};
use crate::field::{kind_of, loop_count_of, reading, selected, Reading, Selection};
use crate::json::{lookup, Entries, JsonView};
use crate::laws::depth::{
    everywhere, everywhere_from, everywhere_in, everywhere_in_cases, lemma_everywhere_in_case,
};
use crate::number::NumberView;
use crate::packet::{
    case_body, lemma_case_height, parse, parse_field, parse_from, parse_loop, process, CaseBody,
    Gathered, Outcome, Progress,
};
use crate::schema::{branch_height, branches_of, lemma_schema_height, schema_height, BranchView};
use crate::tree::{fits, initially};

verus! {

/// Whether a field, where it is a number, is a number of whole bytes.
pub open spec fn whole_bytes(field: BranchView) -> bool {
    field.field_type matches Some(name) ==> kind_of(name).width() % 8 == 0
}

/// Whether a bit offset is the start of a byte of the data, or its end.
pub open spec fn at_byte(data: Seq<u8>, offset: int) -> bool {
    0 <= offset <= 8 * data.len() && offset % 8 == 0
}

/// Where all fields are of whole bytes, a packet takes whole bytes, and no more
/// than the data has.
pub proof fn whole_bytes_add_up(
    data: Seq<u8>,
    schema: Seq<BranchView>,
    oracle: Oracle,
    progress: Progress,
)
    requires
        everywhere(|field: BranchView| whole_bytes(field), schema),
    ensures
        parse(data, schema, false, oracle, progress) matches Outcome::Done(after) ==> at_byte(
            data,
            after.offset,
        ),
{
    lemma_packet(|field: BranchView| whole_bytes(field), data, schema, oracle, progress);
}

/// A field of whole bytes that starts at a byte ends at one.
proof fn lemma_reading(data: Seq<u8>, name: Seq<char>, offset: int)
    requires
        at_byte(data, offset),
        kind_of(name).width() % 8 == 0,
    ensures
        reading(data, kind_of(name), false, offset) matches Reading::Value(_, end) ==> at_byte(
            data,
            end,
        ),
{
}

/// Bytes of the rest of the data are bytes of the data.
proof fn lemma_rest(data: Seq<u8>, offset: int, bits: int)
    requires
        at_byte(data, offset),
    ensures
        at_byte(data.skip(offset / 8), bits) ==> at_byte(data, offset + bits),
{
    assert(data.skip(offset / 8).len() == data.len() - offset / 8);
}

proof fn lemma_packet(
    holds: spec_fn(BranchView) -> bool,
    data: Seq<u8>,
    schema: Seq<BranchView>,
    oracle: Oracle,
    progress: Progress,
)
    requires
        everywhere(holds, schema),
        forall|field: BranchView| #[trigger] holds(field) ==> whole_bytes(field),
    ensures
        parse(data, schema, false, oracle, progress) matches Outcome::Done(after) ==> at_byte(
            data,
            after.offset,
        ),
    decreases schema_height(schema), 2nat, 0nat,
{
    let s = Gathered { fields: Seq::empty(), offset: 0, progress };
    lemma_fields(holds, data, schema, oracle, 0, s);
}

proof fn lemma_fields(
    holds: spec_fn(BranchView) -> bool,
    data: Seq<u8>,
    schema: Seq<BranchView>,
    oracle: Oracle,
    i: nat,
    s: Gathered,
)
    requires
        everywhere_from(holds, schema, i),
        forall|field: BranchView| #[trigger] holds(field) ==> whole_bytes(field),
        at_byte(data, s.offset),
    ensures
        parse_from(data, schema, false, oracle, i, s) matches Outcome::Done(after) ==> at_byte(
            data,
            after.offset,
        ),
    decreases schema_height(schema), 1nat, schema.len() - i,
{
    if i < schema.len() {
        lemma_schema_height(schema, i as int);
        lemma_field(holds, data, schema[i as int], oracle, s);
        if let Outcome::Done(next) = parse_field(data, schema[i as int], false, oracle, s) {
            lemma_fields(holds, data, schema, oracle, i + 1, next);
        }
    }
}

proof fn lemma_field(
    holds: spec_fn(BranchView) -> bool,
    data: Seq<u8>,
    field: BranchView,
    oracle: Oracle,
    s: Gathered,
)
    requires
        everywhere_in(holds, field),
        forall|f: BranchView| #[trigger] holds(f) ==> whole_bytes(f),
        at_byte(data, s.offset),
    ensures
        parse_field(data, field, false, oracle, s) matches Outcome::Done(after) ==> at_byte(
            data,
            after.offset,
        ),
    decreases branch_height(field), 0nat, 1nat,
{
    match (field.loop_count, field.field_type) {
        (Some(count), _) => {
            if let (Some(n), Some(nested)) = (
                loop_count_of(count, s.progress.cache),
                field.branches,
            ) {
                lemma_loop(
                    holds,
                    data,
                    nested,
                    oracle,
                    n as nat,
                    Seq::empty(),
                    s.offset,
                    s.progress,
                );
            }
        },
        (None, Some(name)) => {
            if kind_of(name).width() == 0 {
                if let Some(JsonView::Number(number)) = lookup(s.progress.cache, field.name) {
                    lemma_number(holds, data, field, oracle, number, s);
                }
            } else if let Reading::Value(number, offset) = reading(
                data,
                kind_of(name),
                false,
                s.offset,
            ) {
                assert(whole_bytes(field));
                lemma_reading(data, name, s.offset);
                lemma_number(holds, data, field, oracle, number, Gathered { offset, ..s });
            }
        },
        (None, None) => {
            if let Some(nested) = field.branches {
                let rest = data.skip(s.offset / 8);
                lemma_packet(holds, rest, nested, oracle, s.progress);
                if let Outcome::Done(inner) = parse(rest, nested, false, oracle, s.progress) {
                    lemma_rest(data, s.offset, inner.offset);
                }
            }
        },
    }
}

proof fn lemma_loop(
    holds: spec_fn(BranchView) -> bool,
    data: Seq<u8>,
    schema: Seq<BranchView>,
    oracle: Oracle,
    n: nat,
    items: Seq<JsonView>,
    offset: int,
    progress: Progress,
)
    requires
        everywhere(holds, schema),
        forall|field: BranchView| #[trigger] holds(field) ==> whole_bytes(field),
        at_byte(data, offset),
    ensures
        parse_loop(data, schema, false, oracle, n, items, offset, progress) matches Some(
            (_, end, _),
        ) ==> at_byte(data, end),
    decreases schema_height(schema), 3nat, n,
{
    if n > 0 {
        let rest = data.skip(offset / 8);
        lemma_packet(holds, rest, schema, oracle, progress);
        if let Outcome::Done(inner) = parse(rest, schema, false, oracle, progress) {
            lemma_rest(data, offset, inner.offset);
            lemma_loop(
                holds,
                data,
                schema,
                oracle,
                (n - 1) as nat,
                items.push(JsonView::Object(inner.fields)),
                offset + inner.offset,
                inner.progress,
            );
        }
    }
}

proof fn lemma_number(
    holds: spec_fn(BranchView) -> bool,
    data: Seq<u8>,
    field: BranchView,
    oracle: Oracle,
    number: NumberView,
    s: Gathered,
)
    requires
        everywhere_in_cases(holds, field, 0),
        forall|f: BranchView| #[trigger] holds(f) ==> whole_bytes(f),
        at_byte(data, s.offset),
    ensures
        process(data, field, false, oracle, number, s) matches Outcome::Done(after) ==> at_byte(
            data,
            after.offset,
        ),
    decreases branch_height(field), 0nat, 0nat,
{
    if let Some(cases) = field.match_cases {
        if let Selection::Case(k) = selected(cases, number, number.text(), 0) {
            if k < cases.len() {
                lemma_case_height(field, k as int);
                lemma_everywhere_in_case(holds, field, 0, k as nat);
                if let CaseBody::Fields(_, items) = case_body(
                    cases[k as int].0,
                    cases[k as int].1,
                ) {
                    if let Some(nested) = branches_of(items) {
                        let rest = data.skip(s.offset / 8);
                        lemma_packet(holds, rest, nested, oracle, s.progress);
                        if let Outcome::Done(inner) = parse(
                            rest,
                            nested,
                            false,
                            oracle,
                            s.progress,
                        ) {
                            lemma_rest(data, s.offset, inner.offset);
                        }
                    }
                }
            }
        }
    }
}

/// Whether a field is a plain integer of whole bytes, or a group.
pub open spec fn plain_field(field: BranchView) -> bool {
    &&& field.loop_count is None
    &&& field.match_cases is None
    &&& field.eval is None
    &&& match field.field_type {
        Some(name) => {
            let kind = kind_of(name);
            &&& name != "u0"@
            &&& kind.width() <= 64
            &&& kind.width() % 8 == 0
            &&& !(kind is F32 || kind is F64)
        },
        None => field.branches is Some,
    }
}

/// A schema of plain integers of whole bytes, in groups or not, fits all data
/// whose bits can be counted.
pub proof fn plain_schemas_fit(data: Seq<u8>, schema: Seq<BranchView>, cache: Entries)
    requires
        everywhere(|field: BranchView| plain_field(field), schema),
        8 * data.len() <= usize::MAX,
    ensures
        fits(data, schema, false, cache),
{
    assert forall|oracle: Oracle| #[trigger] faithful(oracle) implies !(parse(
        data,
        schema,
        false,
        oracle,
        initially(cache),
    ) is Unsupported) by {
        lemma_plain_packet(
            |field: BranchView| plain_field(field),
            data,
            schema,
            oracle,
            initially(cache),
        );
    }
}

proof fn lemma_plain_packet(
    holds: spec_fn(BranchView) -> bool,
    data: Seq<u8>,
    schema: Seq<BranchView>,
    oracle: Oracle,
    progress: Progress,
)
    requires
        everywhere(holds, schema),
        forall|field: BranchView| #[trigger] holds(field) ==> plain_field(field),
        8 * data.len() <= usize::MAX,
    ensures
        !(parse(data, schema, false, oracle, progress) is Unsupported),
    decreases schema_height(schema), 2nat, 0nat,
{
    let s = Gathered { fields: Seq::empty(), offset: 0, progress };
    lemma_plain_fields(holds, data, schema, oracle, 0, s);
}

proof fn lemma_plain_fields(
    holds: spec_fn(BranchView) -> bool,
    data: Seq<u8>,
    schema: Seq<BranchView>,
    oracle: Oracle,
    i: nat,
    s: Gathered,
)
    requires
        everywhere_from(holds, schema, i),
        forall|field: BranchView| #[trigger] holds(field) ==> plain_field(field),
        8 * data.len() <= usize::MAX,
        at_byte(data, s.offset),
    ensures
        !(parse_from(data, schema, false, oracle, i, s) is Unsupported),
    decreases schema_height(schema), 1nat, schema.len() - i,
{
    if i < schema.len() {
        lemma_schema_height(schema, i as int);
        lemma_plain_field(holds, data, schema[i as int], oracle, s);
        if let Outcome::Done(next) = parse_field(data, schema[i as int], false, oracle, s) {
            lemma_field(holds, data, schema[i as int], oracle, s);
            lemma_plain_fields(holds, data, schema, oracle, i + 1, next);
        }
    }
}

proof fn lemma_plain_field(
    holds: spec_fn(BranchView) -> bool,
    data: Seq<u8>,
    field: BranchView,
    oracle: Oracle,
    s: Gathered,
)
    requires
        everywhere_in(holds, field),
        forall|f: BranchView| #[trigger] holds(f) ==> plain_field(f),
        8 * data.len() <= usize::MAX,
        at_byte(data, s.offset),
    ensures
        !(parse_field(data, field, false, oracle, s) is Unsupported),
    decreases branch_height(field), 0nat, 1nat,
{
    if field.field_type is None {
        let rest = data.skip(s.offset / 8);
        lemma_plain_packet(holds, rest, field.branches->0, oracle, s.progress);
        lemma_packet(holds, rest, field.branches->0, oracle, s.progress);
    }
}

} // verus!
