//! Laws of packets that are a row of unsigned numbers.

use vstd::prelude::*;

use crate::bits::field_value;
use crate::eval::Oracle;
use crate::json::{lookup, JsonView};
use crate::laws::maps::lookup_after_insertion;
use crate::laws::steps::{fields_are_taken_in_one_by_one, unsigned_number_is_its_bits};
use crate::number::NumberView;
use crate::packet::{parse, Outcome, Progress};
use crate::schema::BranchView;
use crate::text::decimal;

verus! {

/// The sum of the first `i` widths.
pub open spec fn bits_before(widths: Seq<u32>, i: int) -> int
    decreases i,
{
    if i <= 0 {
        0
    } else {
        bits_before(widths, i - 1) + widths[i - 1]
    }
}

/// Whether a field is an unsigned number of so many bits, without cases or an
/// expression.
pub open spec fn is_unsigned(field: BranchView, width: u32) -> bool {
    &&& field.loop_count is None
    &&& field.match_cases is None
    &&& field.eval is None
    &&& field.field_type == Some("u"@ + decimal(width as nat))
    &&& 0 < width <= 64
}

/// Whether a schema is a row of unsigned numbers of these widths, each with a
/// name of its own.
pub open spec fn is_row(schema: Seq<BranchView>, widths: Seq<u32>) -> bool {
    &&& schema.len() == widths.len()
    &&& forall|i: int| 0 <= i < schema.len() ==> is_unsigned(#[trigger] schema[i], widths[i])
    &&& forall|i: int, j: int|
        0 <= i < j < schema.len() ==> (#[trigger] schema[i]).name != (#[trigger] schema[j]).name
}

/// A packet of unsigned numbers that lies within the data takes the sum of their
/// widths, and has each number under the name of its field: the one that the bits
/// stand for which are behind those of all fields before it. There is nothing
/// else in it.
pub proof fn numbers_lie_one_behind_the_other(
    data: Seq<u8>,
    schema: Seq<BranchView>,
    widths: Seq<u32>,
    oracle: Oracle,
    progress: Progress,
    key: Seq<char>,
)
    requires
        is_row(schema, widths),
        bits_before(widths, widths.len() as int) <= 8 * data.len() <= usize::MAX,
    ensures
        parse(data, schema, false, oracle, progress) matches Outcome::Done(after) && {
            &&& after.offset == bits_before(widths, widths.len() as int)
            &&& forall|i: int|
                0 <= i < schema.len() && (#[trigger] schema[i]).name == key ==> lookup(
                    after.fields,
                    key,
                ) == Some(
                    JsonView::Number(
                        NumberView::PosInt(
                            field_value(data, bits_before(widths, i), widths[i] as int) as u64,
                        ),
                    ),
                ) && lookup(after.progress.cache, key) == lookup(after.fields, key)
            &&& (forall|i: int| 0 <= i < schema.len() ==> (#[trigger] schema[i]).name != key)
                ==> lookup(after.fields, key) is None && lookup(after.progress.cache, key)
                == lookup(progress.cache, key)
        },
    decreases schema.len(),
{
    if schema.len() > 0 {
        let last = schema.len() - 1;
        let front = schema.drop_last();
        let fewer = widths.drop_last();
        assert(forall|i: int| 0 <= i < last ==> #[trigger] front[i] == schema[i]);
        assert forall|i: int| 0 <= i < front.len() implies is_unsigned(
            #[trigger] front[i],
            fewer[i],
        ) by {
            assert(is_unsigned(schema[i], widths[i]));
        }
        assert forall|i: int, j: int| 0 <= i < j < front.len() implies (#[trigger] front[i]).name
            != (#[trigger] front[j]).name by {
            assert(schema[i].name != schema[j].name);
        }
        lemma_fewer(widths, last);
        assert(bits_before(widths, last + 1) == bits_before(widths, last) + widths[last]);
        numbers_lie_one_behind_the_other(data, front, fewer, oracle, progress, key);
        let field = schema[last];
        assert(is_unsigned(field, widths[last]));
        assert(front.push(field) =~= schema);
        fields_are_taken_in_one_by_one(data, front, field, false, oracle, progress);
        let mid = parse(data, front, false, oracle, progress)->Done_0;
        lemma_not_negative(widths, last);
        unsigned_number_is_its_bits(data, field, widths[last], oracle, mid);
        let number = JsonView::Number(
            NumberView::PosInt(
                field_value(data, bits_before(widths, last), widths[last] as int) as u64,
            ),
        );
        lookup_after_insertion(mid.fields, field.name, number, key);
        lookup_after_insertion(mid.progress.cache, field.name, number, key);
        assert forall|i: int| 0 <= i < last implies bits_before(widths, i) == #[trigger] bits_before(
            fewer,
            i,
        ) by {
            lemma_fewer(widths, i);
        }
        if field.name == key {
            assert forall|i: int| 0 <= i < schema.len() && (#[trigger] schema[i]).name
                == key implies i == last by {
                if i < last {
                    assert(schema[i].name != schema[last].name);
                }
            }
        } else {
            assert forall|i: int| 0 <= i < schema.len() && (#[trigger] schema[i]).name
                == key implies lookup(mid.fields, key) == Some(
                JsonView::Number(
                    NumberView::PosInt(
                        field_value(data, bits_before(widths, i), widths[i] as int) as u64,
                    ),
                ),
            ) && lookup(mid.progress.cache, key) == lookup(mid.fields, key) by {
                assert(front[i].name == key);
                assert(bits_before(widths, i) == bits_before(fewer, i));
            }
        }
    }
}

/// The sum of some widths does not depend on those behind them.
proof fn lemma_fewer(widths: Seq<u32>, i: int)
    requires
        0 <= i < widths.len(),
    ensures
        bits_before(widths.drop_last(), i) == bits_before(widths, i),
    decreases i,
{
    if i > 0 {
        lemma_fewer(widths, i - 1);
    }
}

proof fn lemma_not_negative(widths: Seq<u32>, i: int)
    ensures
        bits_before(widths, i) >= 0,
    decreases i,
{
    if i > 0 {
        lemma_not_negative(widths, i - 1);
    }
}

} // verus!
