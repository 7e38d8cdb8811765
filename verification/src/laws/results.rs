//! Laws of what calls give back.

use vstd::prelude::*;

use crate::eval::{faithful, Oracle};
use crate::json::{Entries, Json, JsonView};
use crate::number::NumberView;
use crate::packet::{parse, process, Gathered, Outcome};
use crate::schema::BranchView;
use crate::tree::{field_fits, fits, gathered, initially, is_parsed, is_processed};

verus! {

/// A call of `parse_schema` gives the fields of a packet as an object, with the
/// bits it takes, exactly where it is done; and where it fails, what can be given
/// of it with the message. It leaves what is known then.
pub proof fn what_parsing_gives(
    result: Result<(Json, usize), (Json, String)>,
    cache: Entries,
    outcome: Outcome,
)
    ensures
        is_parsed(result, cache, outcome) <==> match outcome {
            Outcome::Done(after) => {
                &&& result matches Ok((json, bits))
                &&& json@ == JsonView::Object(after.fields)
                &&& bits == after.offset
                &&& cache == after.progress.cache
            },
            Outcome::Failed { partial, message, progress, .. } => {
                &&& result matches Err((data, text))
                &&& data@ == partial
                &&& text@ == message
                &&& cache == progress.cache
            },
            Outcome::Unsupported => false,
        },
{
}

/// A call of `process_field` gives the offset behind the field exactly where the
/// number is taken in, and what can be given of the packet with the message where
/// that fails. It leaves the fields and what is known then.
pub proof fn what_taking_in_a_number_gives(
    result: Result<usize, (Json, String)>,
    fields: Entries,
    cache: Entries,
    outcome: Outcome,
)
    ensures
        is_processed(result, fields, cache, outcome) <==> match outcome {
            Outcome::Done(after) => {
                &&& result matches Ok(offset)
                &&& offset == after.offset
                &&& fields == after.fields
                &&& cache == after.progress.cache
            },
            Outcome::Failed { partial, message, fields: kept, progress } => {
                &&& result matches Err((data, text))
                &&& data@ == partial
                &&& text@ == message
                &&& fields == kept
                &&& cache == progress.cache
            },
            Outcome::Unsupported => false,
        },
{
}

/// A call starts with what it is given.
pub proof fn what_a_call_starts_with(fields: Entries, offset: usize, cache: Entries)
    ensures
        initially(cache).cache == cache,
        initially(cache).evals == 0,
        gathered(fields, offset, cache) == (Gathered {
            fields,
            offset: offset as int,
            progress: initially(cache),
        }),
{
}

/// A schema fits the data, and a field its number, where parsing comes to
/// something whatever expressions come to.
pub proof fn what_fits(
    data: Seq<u8>,
    schema: Seq<BranchView>,
    field: BranchView,
    number: NumberView,
    dry_run: bool,
    cache: Entries,
    before: Gathered,
)
    ensures
        fits(data, schema, dry_run, cache) <==> forall|oracle: Oracle|
            faithful(oracle) ==> !(#[trigger] parse(
                data,
                schema,
                dry_run,
                oracle,
                initially(cache),
            ) is Unsupported),
        field_fits(data, field, dry_run, number, before) <==> forall|oracle: Oracle|
            faithful(oracle) ==> !(#[trigger] process(
                data,
                field,
                dry_run,
                oracle,
                number,
                before,
            ) is Unsupported),
{
    assert forall|oracle: Oracle|
        fits(data, schema, dry_run, cache) && faithful(oracle) implies !(#[trigger] parse(
        data,
        schema,
        dry_run,
        oracle,
        initially(cache),
    ) is Unsupported) by {}
    assert forall|oracle: Oracle|
        field_fits(data, field, dry_run, number, before) && faithful(
            oracle,
        ) implies !(#[trigger] process(data, field, dry_run, oracle, number, before) is Unsupported)
        by {}
}

} // verus!
