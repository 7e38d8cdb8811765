//! Laws of dry runs over plain numbers.

use vstd::prelude::*;

use crate::eval::{faithful, Oracle};
use crate::field::kind_of;
use crate::json::{inserted, lookup, Entries, JsonView};
use crate::laws::fields::{dry_run_reads_zero, zero_of};
use crate::laws::maps::lookup_after_insertion;
use crate::packet::{parse, parse_field, parse_from, Gathered, Outcome, Progress};
use crate::schema::BranchView;
use crate::tree::{fits, initially};

verus! {

/// Whether a field is a number of a known width, without cases or an
/// expression.
pub open spec fn plain_number(field: BranchView) -> bool {
    &&& field.loop_count is None
    &&& field.match_cases is None
    &&& field.eval is None
    &&& field.field_type matches Some(name) && kind_of(name).width() > 0
}

/// Whether all fields of a schema are plain numbers.
pub open spec fn plain_numbers(schema: Seq<BranchView>) -> bool {
    forall|i: int| 0 <= i < schema.len() ==> plain_number(#[trigger] schema[i])
}

/// Whether no two fields of a schema have the same name.
pub open spec fn distinct_names(schema: Seq<BranchView>) -> bool {
    forall|i: int, j: int|
        0 <= i < j < schema.len() ==> (#[trigger] schema[i]).name != (#[trigger] schema[j]).name
}

/// The sum of the widths of the fields.
pub open spec fn total_width(schema: Seq<BranchView>) -> int
    decreases schema.len(),
{
    if schema.len() == 0 {
        0
    } else {
        total_width(schema.drop_last()) + kind_of(schema.last().field_type->0).width()
    }
}

/// The zero of a field.
pub open spec fn field_zero(field: BranchView) -> JsonView {
    JsonView::Number(zero_of(kind_of(field.field_type->0)))
}

/// The entries with the zero of each field under its name.
pub open spec fn with_zeros(entries: Entries, schema: Seq<BranchView>) -> Entries
    decreases schema.len(),
{
    if schema.len() == 0 {
        entries
    } else {
        inserted(
            with_zeros(entries, schema.drop_last()),
            schema.last().name,
            field_zero(schema.last()),
        )
    }
}

/// A dry run over plain numbers reads no data, whatever its length: it takes the
/// sum of the widths, and gives each field, and what is known by its name, its
/// zero. Only counts of bits in the range of `usize` can be given.
pub proof fn dry_run_of_plain_numbers(
    data: Seq<u8>,
    schema: Seq<BranchView>,
    oracle: Oracle,
    progress: Progress,
)
    requires
        plain_numbers(schema),
        total_width(schema) <= usize::MAX,
    ensures
        parse(data, schema, true, oracle, progress) == Outcome::Done(
            Gathered {
                fields: with_zeros(Seq::empty(), schema),
                offset: total_width(schema),
                progress: Progress {
                    cache: with_zeros(progress.cache, schema),
                    evals: progress.evals,
                },
            },
        ),
{
    assert(schema.take(0) =~= Seq::<BranchView>::empty());
    lemma_rest(data, schema, oracle, progress, 0);
}

/// What a dry run over the first `i` fields comes to.
spec fn zeros_so_far(schema: Seq<BranchView>, progress: Progress, i: nat) -> Gathered {
    Gathered {
        fields: with_zeros(Seq::empty(), schema.take(i as int)),
        offset: total_width(schema.take(i as int)),
        progress: Progress {
            cache: with_zeros(progress.cache, schema.take(i as int)),
            evals: progress.evals,
        },
    }
}

proof fn lemma_width_grows(schema: Seq<BranchView>, i: int)
    requires
        0 <= i <= schema.len(),
    ensures
        0 <= total_width(schema.take(i)) <= total_width(schema),
    decreases schema.len(),
{
    if i == schema.len() {
        assert(schema.take(i) =~= schema);
        if i > 0 {
            lemma_width_grows(schema.drop_last(), i - 1);
        }
    } else {
        lemma_width_grows(schema.drop_last(), i);
        assert(schema.drop_last().take(i) =~= schema.take(i));
    }
}

proof fn lemma_rest(
    data: Seq<u8>,
    schema: Seq<BranchView>,
    oracle: Oracle,
    progress: Progress,
    i: nat,
)
    requires
        plain_numbers(schema),
        total_width(schema) <= usize::MAX,
        i <= schema.len(),
    ensures
        parse_from(data, schema, true, oracle, i, zeros_so_far(schema, progress, i))
            == Outcome::Done(zeros_so_far(schema, progress, schema.len())),
        zeros_so_far(schema, progress, schema.len()) == (Gathered {
            fields: with_zeros(Seq::empty(), schema),
            offset: total_width(schema),
            progress: Progress {
                cache: with_zeros(progress.cache, schema),
                evals: progress.evals,
            },
        }),
    decreases schema.len() - i,
{
    assert(schema.take(schema.len() as int) =~= schema);
    if i < schema.len() {
        let field = schema[i as int];
        let s = zeros_so_far(schema, progress, i);
        let more = schema.take((i + 1) as int);
        assert(plain_number(field));
        assert(more.drop_last() =~= schema.take(i as int));
        assert(more.last() == field);
        lemma_width_grows(schema, (i + 1) as int);
        dry_run_reads_zero(data, kind_of(field.field_type->0), s.offset);
        assert(parse_field(data, field, true, oracle, s) == Outcome::Done(
            zeros_so_far(schema, progress, i + 1),
        ));
        lemma_rest(data, schema, oracle, progress, i + 1);
    }
}

/// Two dry runs over plain numbers are the same, whatever the data.
pub proof fn dry_runs_of_plain_numbers_agree(
    data: Seq<u8>,
    other: Seq<u8>,
    schema: Seq<BranchView>,
    oracle: Oracle,
    other_oracle: Oracle,
    progress: Progress,
)
    requires
        plain_numbers(schema),
        total_width(schema) <= usize::MAX,
    ensures
        parse(data, schema, true, oracle, progress) == parse(
            other,
            schema,
            true,
            other_oracle,
            progress,
        ),
{
    dry_run_of_plain_numbers(data, schema, oracle, progress);
    dry_run_of_plain_numbers(other, schema, other_oracle, progress);
}

/// Where the names of the fields are distinct, each has its zero under its name,
/// and nothing else has changed.
pub proof fn zeros_are_under_the_names(entries: Entries, schema: Seq<BranchView>, key: Seq<char>)
    requires
        distinct_names(schema),
    ensures
        forall|i: int|
            0 <= i < schema.len() ==> lookup(
                with_zeros(entries, schema),
                (#[trigger] schema[i]).name,
            ) == Some(field_zero(schema[i])),
        (forall|i: int| 0 <= i < schema.len() ==> (#[trigger] schema[i]).name != key) ==> lookup(
            with_zeros(entries, schema),
            key,
        ) == lookup(entries, key),
    decreases schema.len(),
{
    if schema.len() > 0 {
        let front = schema.drop_last();
        let before = with_zeros(entries, front);
        let last = schema.last();
        assert(forall|i: int| 0 <= i < front.len() ==> #[trigger] front[i] == schema[i]);
        zeros_are_under_the_names(entries, front, key);
        lookup_after_insertion(before, last.name, field_zero(last), key);
        assert(schema[schema.len() - 1] == last);
        assert forall|i: int| 0 <= i < schema.len() implies lookup(
            with_zeros(entries, schema),
            (#[trigger] schema[i]).name,
        ) == Some(field_zero(schema[i])) by {
            lookup_after_insertion(before, last.name, field_zero(last), schema[i].name);
            if i < front.len() {
                assert(front[i] == schema[i]);
            }
        }
    }
}

/// A schema of plain numbers fits a dry run, whatever the data.
pub proof fn plain_numbers_fit_a_dry_run(
    data: Seq<u8>,
    schema: Seq<BranchView>,
    cache: Entries,
)
    requires
        plain_numbers(schema),
        total_width(schema) <= usize::MAX,
    ensures
        fits(data, schema, true, cache),
{
    assert forall|oracle: Oracle| #[trigger] faithful(oracle) implies !(parse(
        data,
        schema,
        true,
        oracle,
        initially(cache),
    ) is Unsupported) by {
        dry_run_of_plain_numbers(data, schema, oracle, initially(cache));
    }
}

} // verus!
