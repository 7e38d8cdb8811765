//! Laws of single fields, of cases, and of descriptions of fields.

use vstd::prelude::*;
use vstd::arithmetic::power2::{lemma2_to64, lemma2_to64_rest, lemma_pow2_strictly_increases, pow2};

use crate::bits::field_value;
use crate::field::{
    case_holds, comparison_holds, is_comparison, kind_of, reading, selected, widened, FieldKind,
    FieldRead, Reading, Selection,
};
use crate::float::{
    finite_double, finite_single, lemma_same_number_unique, lemma_widened_exists, same_number,
};
use crate::json::{inserted, lookup, Entries, JsonView};
use crate::laws::maps::lookup_after_insertion;
use crate::laws::numbers::{
    decimal_is_read_back, field_value_bound, integer_text_is_read_back, integer_texts_differ,
    little_endian, little_endian_bytes_stand_for_their_number,
};
use crate::number::{Number, NumberView};
use crate::packet::{case_body, CaseBody};
use crate::schema::{branch_of, part, tree_of};
use crate::text::{begins_with, decimal, digits_value, parsed_i64, parsed_u32};

verus! {

/// Whether a field lies within the data and can be read.
pub open spec fn readable(data: Seq<u8>, kind: FieldKind, offset: int) -> bool {
    &&& 0 <= offset
    &&& offset + kind.width() <= 8 * data.len() <= usize::MAX
    &&& kind.width() <= 64
}

proof fn lemma_value_fits(data: Seq<u8>, kind: FieldKind, offset: int)
    requires
        readable(data, kind, offset),
    ensures
        field_value(data, offset, kind.width() as int) < pow2(kind.width() as nat) <= pow2(64),
        pow2(64) == 0x1_0000_0000_0000_0000,
{
    lemma2_to64();
    lemma2_to64_rest();
    field_value_bound(data, offset, kind.width() as int);
    if kind.width() < 64 {
        lemma_pow2_strictly_increases(kind.width() as nat, 64);
    }
}

/// An unsigned field is read as the number that its bits stand for, and as no
/// other.
pub proof fn unsigned_field_is_its_bits(data: Seq<u8>, kind: FieldKind, offset: int)
    requires
        0 <= offset,
        offset + kind.width() <= 8 * data.len() <= usize::MAX,
        kind.width() <= 64,
        !(kind is F32 || kind is F64 || kind is I16 || kind is Unknown),
    ensures
        reading(data, kind, false, offset) == Reading::Value(
            NumberView::PosInt(field_value(data, offset, kind.width() as int) as u64),
            offset + kind.width(),
        ),
{
    lemma2_to64();
    lemma_value_fits(data, kind, offset);
}

/// A number that was written in little-endian bytes is read back by an unsigned
/// field of as many bytes, wherever the bytes stand.
pub proof fn little_endian_number_is_read_back(
    before: Seq<u8>,
    number: u64,
    bytes: nat,
    after: Seq<u8>,
    kind: FieldKind,
)
    requires
        number < pow2(8 * bytes),
        kind.width() == 8 * bytes,
        kind.width() <= 64,
        !(kind is F32 || kind is F64 || kind is I16 || kind is Unknown),
        8 * (before.len() + bytes + after.len()) <= usize::MAX,
    ensures
        reading(
            before + little_endian(number as nat, bytes) + after,
            kind,
            false,
            8 * before.len() as int,
        ) == Reading::Value(NumberView::PosInt(number), 8 * before.len() + kind.width()),
{
    let data = before + little_endian(number as nat, bytes) + after;
    little_endian_bytes_stand_for_their_number(before, number as nat, bytes, after);
    unsigned_field_is_its_bits(data, kind, 8 * before.len() as int);
}

/// A signed field is read as the two's complement number of its bits.
pub proof fn signed_field_is_twos_complement(data: Seq<u8>, offset: int)
    requires
        0 <= offset,
        offset + 16 <= 8 * data.len() <= usize::MAX,
    ensures
        ({
            let value = field_value(data, offset, 16) as int;
            let signed = if value < 0x8000 {
                value
            } else {
                value - 0x1_0000
            };
            reading(data, FieldKind::I16, false, offset) == Reading::Value(
                NumberView::of_int(signed as i64),
                offset + 16,
            )
        }),
{
    lemma2_to64();
    lemma_value_fits(data, FieldKind::I16, offset);
}

/// A binary64 field is read as the number that has its bits as bit pattern.
pub proof fn double_field_is_its_bits(data: Seq<u8>, offset: int)
    requires
        0 <= offset,
        offset + 64 <= 8 * data.len() <= usize::MAX,
        finite_double(field_value(data, offset, 64) as u64),
    ensures
        reading(data, FieldKind::F64, false, offset) == Reading::Value(
            NumberView::Float(field_value(data, offset, 64) as u64),
            offset + 64,
        ),
{
}

/// A binary32 field is read as the binary64 number that is the same number.
pub proof fn single_field_keeps_its_number(data: Seq<u8>, offset: int)
    requires
        0 <= offset,
        offset + 32 <= 8 * data.len() <= usize::MAX,
        finite_single(field_value(data, offset, 32) as u32),
    ensures
        ({
            let single = field_value(data, offset, 32) as u32;
            &&& same_number(single, widened(single))
            &&& reading(data, FieldKind::F32, false, offset) == Reading::Value(
                NumberView::Float(widened(single)),
                offset + 32,
            )
        }),
{
    lemma2_to64();
    lemma_value_fits(data, FieldKind::F32, offset);
    lemma_widened_exists(field_value(data, offset, 32) as u32);
}

/// A field that does not lie within the data gives a message and no number.
pub proof fn field_past_the_end(data: Seq<u8>, kind: FieldKind, offset: int)
    requires
        0 <= offset <= 8 * data.len() <= usize::MAX,
        0 < kind.width() <= 64,
    ensures
        reading(data, kind, false, offset) is Short <==> offset + kind.width() > 8 * data.len(),
{
}

/// The zero of a kind of field.
pub open spec fn zero_of(kind: FieldKind) -> NumberView {
    match kind {
        FieldKind::F32 => NumberView::Float(0),
        FieldKind::F64 => NumberView::Float(0),
        _ => NumberView::PosInt(0),
    }
}

/// In a dry run every field of a known type is zero, whatever the data.
pub proof fn dry_run_reads_zero(data: Seq<u8>, kind: FieldKind, offset: int)
    requires
        !(kind is Unknown),
        offset + kind.width() <= usize::MAX,
    ensures
        reading(data, kind, true, offset) == Reading::Value(
            zero_of(kind),
            offset + kind.width(),
        ),
{
    if kind is F32 {
        assert(same_number(0, 0)) by {
            assert(0 * pow2(925) == 0) by (nonlinear_arith);
        }
        lemma_same_number_unique(0, widened(0), 0);
    }
}

/// A text of a `u` and digits is none of the types that hold something else.
proof fn lemma_other_names(name: Seq<char>)
    requires
        name.len() > 1,
        name[0] == 'u',
        forall|i: int| 1 <= i < name.len() ==> '0' <= #[trigger] name[i] <= '9',
    ensures
        name != "u8_le"@ && name != "u8_be"@ && name != "u16_le"@ && name != "u16_be"@,
        name != "u32_le"@ && name != "u32_be"@ && name != "u64_le"@ && name != "u64_be"@,
        name != "f32"@ && name != "f32_le"@ && name != "f32_be"@,
        name != "f64"@ && name != "f64_le"@ && name != "f64_be"@,
        name != "i16"@ && name != "i16_le"@ && name != "i16_be"@,
{
    reveal_strlit("u8_le");
    reveal_strlit("u8_be");
    reveal_strlit("u16_le");
    reveal_strlit("u16_be");
    reveal_strlit("u32_le");
    reveal_strlit("u32_be");
    reveal_strlit("u64_le");
    reveal_strlit("u64_be");
    reveal_strlit("f32");
    reveal_strlit("f32_le");
    reveal_strlit("f32_be");
    reveal_strlit("f64");
    reveal_strlit("f64_le");
    reveal_strlit("f64_be");
    reveal_strlit("i16");
    reveal_strlit("i16_le");
    reveal_strlit("i16_be");
    assert("u8_le"@[2] == '_' && "u8_be"@[2] == '_');
    assert("u16_le"@[3] == '_' && "u16_be"@[3] == '_');
    assert("u32_le"@[3] == '_' && "u32_be"@[3] == '_');
    assert("u64_le"@[3] == '_' && "u64_be"@[3] == '_');
    assert("f32"@[0] == 'f' && "f32_le"@[0] == 'f' && "f32_be"@[0] == 'f');
    assert("f64"@[0] == 'f' && "f64_le"@[0] == 'f' && "f64_be"@[0] == 'f');
    assert("i16"@[0] == 'i' && "i16_le"@[0] == 'i' && "i16_be"@[0] == 'i');
}

/// A type that is a `u` with a number of bits behind it has that width.
pub proof fn width_is_as_written(n: u32)
    ensures
        kind_of("u"@ + decimal(n as nat)).width() == n,
        !(kind_of("u"@ + decimal(n as nat)) is F32),
        !(kind_of("u"@ + decimal(n as nat)) is F64),
        !(kind_of("u"@ + decimal(n as nat)) is I16),
        !(kind_of("u"@ + decimal(n as nat)) is Unknown),
{
    let digits = decimal(n as nat);
    let name = "u"@ + digits;
    decimal_is_read_back(n as nat);
    reveal_strlit("u");
    assert(name.skip(1) =~= digits);
    assert(name[0] == 'u');
    assert forall|i: int| 1 <= i < name.len() implies '0' <= #[trigger] name[i] <= '9' by {
        assert(name[i] == digits[i - 1]);
    }
    lemma_other_names(name);
    reveal_strlit("u8");
    reveal_strlit("u16");
    reveal_strlit("u32");
    reveal_strlit("u64");
    assert("u8"@.skip(1) =~= seq!['8']);
    assert("u16"@.skip(1) =~= seq!['1', '6']);
    assert("u32"@.skip(1) =~= seq!['3', '2']);
    assert("u64"@.skip(1) =~= seq!['6', '4']);
    reveal_with_fuel(digits_value, 3);
    assert(seq!['8'].drop_last() =~= Seq::<char>::empty());
    assert(seq!['1', '6'].drop_last() =~= seq!['1']);
    assert(seq!['3', '2'].drop_last() =~= seq!['3']);
    assert(seq!['6', '4'].drop_last() =~= seq!['6']);
    assert(seq!['1'].drop_last() =~= Seq::<char>::empty());
    assert(seq!['3'].drop_last() =~= Seq::<char>::empty());
    assert(seq!['6'].drop_last() =~= Seq::<char>::empty());
    assert(digits_value(seq!['8']) == 8);
    assert(digits_value(seq!['1', '6']) == 16);
    assert(digits_value(seq!['3', '2']) == 32);
    assert(digits_value(seq!['6', '4']) == 64);
    assert(digits[0] != '+');
}

/// Where a number is an `i64` and a threshold follows, `gt_` holds exactly where
/// `le_` does not, and `ge_` exactly where `lt_` does not; elsewhere the two
/// agree.
pub proof fn opposite_comparisons(number: NumberView, threshold: Seq<char>)
    ensures
        ({
            let gt = comparison_holds(number, "gt_"@ + threshold);
            let ge = comparison_holds(number, "ge_"@ + threshold);
            let lt = comparison_holds(number, "lt_"@ + threshold);
            let le = comparison_holds(number, "le_"@ + threshold);
            if number.as_i64() is Some && parsed_i64(threshold) is Some {
                &&& gt is Some && ge is Some && lt is Some && le is Some
                &&& gt->0 == !le->0
                &&& ge->0 == !lt->0
            } else {
                gt == le && ge == lt && gt == ge
            }
        }),
{
    lemma_comparison_keys(threshold);
}

/// What is greater than a threshold, or at least that, stays so for greater
/// numbers; what is less than it, or at most that, stays so for smaller ones.
pub proof fn comparisons_are_monotone(
    smaller: NumberView,
    greater: NumberView,
    threshold: Seq<char>,
)
    requires
        smaller.as_i64() is Some,
        greater.as_i64() is Some,
        smaller.as_i64()->0 <= greater.as_i64()->0,
    ensures
        comparison_holds(smaller, "gt_"@ + threshold) == Some(true) ==> comparison_holds(
            greater,
            "gt_"@ + threshold,
        ) == Some(true),
        comparison_holds(smaller, "ge_"@ + threshold) == Some(true) ==> comparison_holds(
            greater,
            "ge_"@ + threshold,
        ) == Some(true),
        comparison_holds(greater, "lt_"@ + threshold) == Some(true) ==> comparison_holds(
            smaller,
            "lt_"@ + threshold,
        ) == Some(true),
        comparison_holds(greater, "le_"@ + threshold) == Some(true) ==> comparison_holds(
            smaller,
            "le_"@ + threshold,
        ) == Some(true),
{
    lemma_comparison_keys(threshold);
}

/// A comparison with an integer, written in decimal, is the comparison of the
/// numbers.
pub proof fn comparisons_mean_what_they_say(number: NumberView, threshold: i64)
    requires
        number.as_i64() is Some,
    ensures
        ({
            let value = number.as_i64()->0;
            let written = NumberView::of_int(threshold).text();
            &&& comparison_holds(number, "gt_"@ + written) == Some(value > threshold)
            &&& comparison_holds(number, "ge_"@ + written) == Some(value >= threshold)
            &&& comparison_holds(number, "lt_"@ + written) == Some(value < threshold)
            &&& comparison_holds(number, "le_"@ + written) == Some(value <= threshold)
        }),
{
    let written = NumberView::of_int(threshold).text();
    integer_text_is_read_back(NumberView::of_int(threshold));
    lemma_comparison_keys(written);
}

/// What the keys of the four comparisons with a threshold begin with.
proof fn lemma_comparison_keys(threshold: Seq<char>)
    ensures
        ("gt_"@ + threshold).skip(3) == threshold,
        ("ge_"@ + threshold).skip(3) == threshold,
        ("lt_"@ + threshold).skip(3) == threshold,
        ("le_"@ + threshold).skip(3) == threshold,
        begins_with("gt_"@ + threshold, "gt_"@),
        begins_with("ge_"@ + threshold, "ge_"@),
        begins_with("lt_"@ + threshold, "lt_"@),
        begins_with("le_"@ + threshold, "le_"@),
        !begins_with("ge_"@ + threshold, "gt_"@),
        !begins_with("lt_"@ + threshold, "gt_"@),
        !begins_with("lt_"@ + threshold, "ge_"@),
        !begins_with("le_"@ + threshold, "gt_"@),
        !begins_with("le_"@ + threshold, "ge_"@),
        !begins_with("le_"@ + threshold, "lt_"@),
{
    reveal_strlit("gt_");
    reveal_strlit("ge_");
    reveal_strlit("lt_");
    reveal_strlit("le_");
    let gt = "gt_"@ + threshold;
    let ge = "ge_"@ + threshold;
    let lt = "lt_"@ + threshold;
    let le = "le_"@ + threshold;
    assert(gt.skip(3) =~= threshold);
    assert(ge.skip(3) =~= threshold);
    assert(lt.skip(3) =~= threshold);
    assert(le.skip(3) =~= threshold);
    assert(gt.take(3) =~= "gt_"@);
    assert(ge.take(3) =~= "ge_"@);
    assert(lt.take(3) =~= "lt_"@);
    assert(le.take(3) =~= "le_"@);
    assert("gt_"@[0] == 'g' && "gt_"@[1] == 't');
    assert("ge_"@[0] == 'g' && "ge_"@[1] == 'e');
    assert("lt_"@[0] == 'l' && "lt_"@[1] == 't');
    assert("le_"@[0] == 'l' && "le_"@[1] == 'e');
}

/// An integer falls under the case whose key is an integer in decimal exactly
/// where the two are the same.
pub proof fn integer_case_is_equality(number: NumberView, key: NumberView)
    requires
        number.well_formed(),
        key.well_formed(),
        !(number is Float),
        !(key is Float),
    ensures
        case_holds(number, number.text(), key.text()) == Some(number == key),
{
    let text = key.text();
    match key {
        NumberView::PosInt(u) => {
            decimal_is_read_back(u as nat);
            assert('0' <= text[0] <= '9');
        },
        NumberView::NegInt(i) => {
            assert(text[0] == '-');
        },
        NumberView::Float(_) => {},
    }
    reveal_strlit("gt_");
    reveal_strlit("ge_");
    reveal_strlit("lt_");
    reveal_strlit("le_");
    assert(text.len() >= 3 ==> text.take(3)[0] == text[0]);
    assert("gt_"@[0] == 'g' && "ge_"@[0] == 'g' && "lt_"@[0] == 'l' && "le_"@[0] == 'l');
    assert(!is_comparison(text));
    if number.text() == text {
        integer_texts_differ(number, key);
    }
}

/// The case that a number falls under is the first one, in key order, that
/// holds of it: none of the cases before holds, and where none holds at all it
/// falls under none. A comparison that cannot be made stops the search.
pub proof fn first_case_wins(cases: Entries, number: NumberView, text: Seq<char>)
    requires
        cases.len() <= usize::MAX,
    ensures
        match selected(cases, number, text, 0) {
            Selection::Case(k) => {
                &&& k < cases.len()
                &&& case_holds(number, text, cases[k as int].0) == Some(true)
                &&& forall|j: int|
                    0 <= j < k ==> case_holds(number, text, (#[trigger] cases[j]).0) == Some(false)
            },
            Selection::NoCase => forall|j: int|
                0 <= j < cases.len() ==> case_holds(number, text, (#[trigger] cases[j]).0) == Some(
                    false,
                ),
            Selection::Unsupported => exists|k: int|
                0 <= k < cases.len() && case_holds(number, text, (#[trigger] cases[k]).0) is None
                    && forall|j: int|
                    0 <= j < k ==> case_holds(number, text, (#[trigger] cases[j]).0) == Some(false),
        },
{
    lemma_search(cases, number, text, 0);
}

proof fn lemma_search(cases: Entries, number: NumberView, text: Seq<char>, i: int)
    requires
        cases.len() <= usize::MAX,
        0 <= i <= cases.len(),
        forall|j: int|
            0 <= j < i ==> case_holds(number, text, (#[trigger] cases[j]).0) == Some(false),
    ensures
        match selected(cases, number, text, i) {
            Selection::Case(k) => {
                &&& k < cases.len()
                &&& case_holds(number, text, cases[k as int].0) == Some(true)
                &&& forall|j: int|
                    0 <= j < k ==> case_holds(number, text, (#[trigger] cases[j]).0) == Some(false)
            },
            Selection::NoCase => forall|j: int|
                0 <= j < cases.len() ==> case_holds(number, text, (#[trigger] cases[j]).0) == Some(
                    false,
                ),
            Selection::Unsupported => exists|k: int|
                0 <= k < cases.len() && case_holds(number, text, (#[trigger] cases[k]).0) is None
                    && forall|j: int|
                    0 <= j < k ==> case_holds(number, text, (#[trigger] cases[j]).0) == Some(false),
        },
    decreases cases.len() - i,
{
    if i < cases.len() && case_holds(number, text, cases[i].0) == Some(false) {
        lemma_search(cases, number, text, i + 1);
    }
}

/// Whether a key names a part of the description of a field.
pub open spec fn is_part_key(key: Seq<char>) -> bool {
    ||| key == "name"@
    ||| is_optional_part_key(key)
}

/// Whether a key names a part of the description of a field that may be missing.
pub open spec fn is_optional_part_key(key: Seq<char>) -> bool {
    ||| key == "type"@
    ||| key == "match"@
    ||| key == "loop_count"@
    ||| key == "branches"@
    ||| key == "optional"@
    ||| key == "eval"@
}

/// Other keys in the description of a field make no difference.
pub proof fn other_keys_are_ignored(entries: Entries, key: Seq<char>, value: JsonView)
    requires
        !is_part_key(key),
    ensures
        branch_of(JsonView::Object(inserted(entries, key, value))) == branch_of(
            JsonView::Object(entries),
        ),
        tree_of(JsonView::Object(inserted(entries, key, value))) == tree_of(
            JsonView::Object(entries),
        ),
{
    lookup_after_insertion(entries, key, value, "name"@);
    lookup_after_insertion(entries, key, value, "type"@);
    lookup_after_insertion(entries, key, value, "match"@);
    lookup_after_insertion(entries, key, value, "loop_count"@);
    lookup_after_insertion(entries, key, value, "branches"@);
    lookup_after_insertion(entries, key, value, "optional"@);
    lookup_after_insertion(entries, key, value, "eval"@);
}

/// A part of the description of a field that is null is as if it were missing.
pub proof fn null_is_missing(entries: Entries, key: Seq<char>)
    requires
        is_optional_part_key(key),
        lookup(entries, key) is None,
    ensures
        branch_of(JsonView::Object(inserted(entries, key, JsonView::Null))) == branch_of(
            JsonView::Object(entries),
        ),
{
    lookup_after_insertion(entries, key, JsonView::Null, "name"@);
    lookup_after_insertion(entries, key, JsonView::Null, "type"@);
    lookup_after_insertion(entries, key, JsonView::Null, "match"@);
    lookup_after_insertion(entries, key, JsonView::Null, "loop_count"@);
    lookup_after_insertion(entries, key, JsonView::Null, "branches"@);
    lookup_after_insertion(entries, key, JsonView::Null, "optional"@);
    lookup_after_insertion(entries, key, JsonView::Null, "eval"@);
    reveal_strlit("name");
    reveal_strlit("type");
    reveal_strlit("match");
    reveal_strlit("loop_count");
    reveal_strlit("branches");
    reveal_strlit("optional");
    reveal_strlit("eval");
    assert("name"@[0] == 'n');
    assert("type"@[0] == 't');
    assert("match"@[0] == 'm');
    assert("loop_count"@[0] == 'l');
    assert("branches"@[0] == 'b');
    assert("optional"@[0] == 'o');
    assert("eval"@[0] == 'e');
}

/// A field without a name, or with one that is not a string, is not described.
pub proof fn a_field_has_a_name(json: JsonView)
    ensures
        branch_of(json) matches Some(field) ==> part(json, "name"@, 0) == Some(
            JsonView::String(field.name),
        ),
{
}

/// What the types by name are. An order of bytes makes no difference.
#[verifier::rlimit(60)]
pub proof fn types_by_name()
    ensures
        kind_of("u8"@) == FieldKind::U8,
        kind_of("u8_le"@) == FieldKind::U8,
        kind_of("u8_be"@) == FieldKind::U8,
        kind_of("u16"@) == FieldKind::U16,
        kind_of("u16_le"@) == FieldKind::U16,
        kind_of("u16_be"@) == FieldKind::U16,
        kind_of("u32"@) == FieldKind::U32,
        kind_of("u32_le"@) == FieldKind::U32,
        kind_of("u32_be"@) == FieldKind::U32,
        kind_of("u64"@) == FieldKind::U64,
        kind_of("u64_le"@) == FieldKind::U64,
        kind_of("u64_be"@) == FieldKind::U64,
        kind_of("f32"@) == FieldKind::F32,
        kind_of("f32_le"@) == FieldKind::F32,
        kind_of("f32_be"@) == FieldKind::F32,
        kind_of("f64"@) == FieldKind::F64,
        kind_of("f64_le"@) == FieldKind::F64,
        kind_of("f64_be"@) == FieldKind::F64,
        kind_of("i16"@) == FieldKind::I16,
        kind_of("i16_le"@) == FieldKind::I16,
        kind_of("i16_be"@) == FieldKind::I16,
        FieldKind::U8.width() == 8,
        FieldKind::U16.width() == 16,
        FieldKind::U32.width() == 32,
        FieldKind::U64.width() == 64,
        FieldKind::F32.width() == 32,
        FieldKind::F64.width() == 64,
        FieldKind::I16.width() == 16,
{
    reveal_strlit("u8");
    reveal_strlit("u8_le");
    reveal_strlit("u8_be");
    reveal_strlit("u16");
    reveal_strlit("u16_le");
    reveal_strlit("u16_be");
    reveal_strlit("u32");
    reveal_strlit("u32_le");
    reveal_strlit("u32_be");
    reveal_strlit("u64");
    reveal_strlit("u64_le");
    reveal_strlit("u64_be");
    reveal_strlit("f32");
    reveal_strlit("f32_le");
    reveal_strlit("f32_be");
    reveal_strlit("f64");
    reveal_strlit("f64_le");
    reveal_strlit("f64_be");
    reveal_strlit("i16");
    reveal_strlit("i16_le");
    reveal_strlit("i16_be");
    assert("u8"@ =~= seq!['u', '8']);
    assert("u8_le"@ =~= seq!['u', '8', '_', 'l', 'e']);
    assert("u8_be"@ =~= seq!['u', '8', '_', 'b', 'e']);
    assert("u16"@ =~= seq!['u', '1', '6']);
    assert("u16_le"@ =~= seq!['u', '1', '6', '_', 'l', 'e']);
    assert("u16_be"@ =~= seq!['u', '1', '6', '_', 'b', 'e']);
    assert("u32"@ =~= seq!['u', '3', '2']);
    assert("u32_le"@ =~= seq!['u', '3', '2', '_', 'l', 'e']);
    assert("u32_be"@ =~= seq!['u', '3', '2', '_', 'b', 'e']);
    assert("u64"@ =~= seq!['u', '6', '4']);
    assert("u64_le"@ =~= seq!['u', '6', '4', '_', 'l', 'e']);
    assert("u64_be"@ =~= seq!['u', '6', '4', '_', 'b', 'e']);
    assert("f32"@ =~= seq!['f', '3', '2']);
    assert("f32_le"@ =~= seq!['f', '3', '2', '_', 'l', 'e']);
    assert("f32_be"@ =~= seq!['f', '3', '2', '_', 'b', 'e']);
    assert("f64"@ =~= seq!['f', '6', '4']);
    assert("f64_le"@ =~= seq!['f', '6', '4', '_', 'l', 'e']);
    assert("f64_be"@ =~= seq!['f', '6', '4', '_', 'b', 'e']);
    assert("i16"@ =~= seq!['i', '1', '6']);
    assert("i16_le"@ =~= seq!['i', '1', '6', '_', 'l', 'e']);
    assert("i16_be"@ =~= seq!['i', '1', '6', '_', 'b', 'e']);
}

/// A name that is no type by name is a `u` with a number of bits behind it, or
/// no type.
pub proof fn other_types(name: Seq<char>)
    requires
        name != "u8"@,
        name != "u8_le"@,
        name != "u8_be"@,
        name != "u16"@,
        name != "u16_le"@,
        name != "u16_be"@,
        name != "u32"@,
        name != "u32_le"@,
        name != "u32_be"@,
        name != "u64"@,
        name != "u64_le"@,
        name != "u64_be"@,
        name != "f32"@,
        name != "f32_le"@,
        name != "f32_be"@,
        name != "f64"@,
        name != "f64_le"@,
        name != "f64_be"@,
        name != "i16"@,
        name != "i16_le"@,
        name != "i16_be"@,
    ensures
        kind_of(name) == match (name.len() > 1 && name[0] == 'u', parsed_u32(name.skip(1))) {
            (true, Some(width)) => FieldKind::Unsigned(width),
            _ => FieldKind::Unknown,
        },
        forall|width: u32| #[trigger] FieldKind::Unsigned(width).width() == width,
        FieldKind::Unknown.width() == 0,
{
}

/// A field that can be read is read where it lies within the data. Its message
/// says how many bits the data has, and which bits were asked for.
pub proof fn message_of_a_short_read(data: Seq<u8>, kind: FieldKind, offset: int)
    requires
        0 <= offset,
        offset / 8 <= data.len(),
        8 * data.len() <= usize::MAX,
        0 < kind.width() <= 64,
        offset + kind.width() > 8 * data.len(),
    ensures
        reading(data, kind, false, offset) == Reading::Short(
            "Read failed: data len bits "@ + decimal((8 * data.len()) as nat)
                + " bit_offset "@ + decimal(offset as nat) + " attempt read num_bits: "@ + decimal(
                kind.width() as nat,
            ),
        ),
{
}

/// What cannot be read: a field of more than 64 bits, one that starts past the
/// byte at the end of the data, one whose bits are no finite number, and in a dry
/// run one that ends where no `usize` goes.
pub proof fn what_cannot_be_read(data: Seq<u8>, kind: FieldKind, offset: int)
    requires
        0 <= offset,
    ensures
        kind.width() > 64 || offset / 8 > data.len() ==> reading(
            data,
            kind,
            false,
            offset,
        ) is Unsupported,
        offset + kind.width() > usize::MAX ==> reading(data, kind, true, offset) is Unsupported,
        offset + 64 <= 8 * data.len() && !finite_double(field_value(data, offset, 64) as u64)
            ==> reading(data, FieldKind::F64, false, offset) is Unsupported,
        offset + 32 <= 8 * data.len() && !finite_single(field_value(data, offset, 32) as u32)
            ==> reading(data, FieldKind::F32, false, offset) is Unsupported,
        reading(data, FieldKind::Unknown, false, offset) is Unsupported,
        reading(data, FieldKind::Unknown, true, offset) is Unsupported,
{
    lemma2_to64();
    if offset + 32 <= 8 * data.len() {
        field_value_bound(data, offset, 32);
    }
}

/// A key is a comparison where it is one of the four prefixes with a text behind
/// it.
pub proof fn which_keys_are_comparisons(key: Seq<char>)
    ensures
        is_comparison(key) <==> exists|text: Seq<char>|
            key == #[trigger] ("gt_"@ + text) || key == "ge_"@ + text || key == "lt_"@ + text || key
                == "le_"@ + text,
{
    reveal_strlit("gt_");
    reveal_strlit("ge_");
    reveal_strlit("lt_");
    reveal_strlit("le_");
    if is_comparison(key) {
        let text = key.skip(3);
        assert(key =~= key.take(3) + text);
        assert("gt_"@ + text == "gt_"@ + text);
    } else {
        assert forall|text: Seq<char>| key != #[trigger] ("gt_"@ + text) && key != "ge_"@ + text
            && key != "lt_"@ + text && key != "le_"@ + text by {
            lemma_comparison_keys(text);
        }
    }
}

/// A number falls under a key that is a comparison where that holds, and under
/// any other key where it is its text.
pub proof fn what_falls_under_a_key(number: NumberView, text: Seq<char>, key: Seq<char>)
    ensures
        is_comparison(key) ==> case_holds(number, text, key) == comparison_holds(number, key),
        !is_comparison(key) ==> case_holds(number, text, key) == Some(key == text),
        !is_comparison(key) ==> comparison_holds(number, key) == Some(false),
{
}

/// A comparison is one with the integer that its threshold is read as. Where the
/// threshold is no integer it never holds; where the number is none it cannot be
/// made.
pub proof fn comparisons_by_their_threshold(number: NumberView, threshold: Seq<char>)
    ensures
        ({
            let gt = comparison_holds(number, "gt_"@ + threshold);
            let ge = comparison_holds(number, "ge_"@ + threshold);
            let lt = comparison_holds(number, "lt_"@ + threshold);
            let le = comparison_holds(number, "le_"@ + threshold);
            match (parsed_i64(threshold), number.as_i64()) {
                (Some(i), Some(value)) => gt == Some(value > i) && ge == Some(value >= i) && lt
                    == Some(value < i) && le == Some(value <= i),
                (Some(_), None) => gt is None && ge is None && lt is None && le is None,
                (None, _) => gt == Some(false) && ge == Some(false) && lt == Some(false) && le
                    == Some(false),
            }
        }),
{
    lemma_comparison_keys(threshold);
}

/// What a case describes: under a comparison a value; under another key fields,
/// where it is an object with an array of branches, nothing, where it is another
/// object, and else a value.
pub proof fn what_a_case_describes(key: Seq<char>, description: JsonView)
    ensures
        is_comparison(key) ==> case_body(key, description) == CaseBody::Value(description),
        !is_comparison(key) ==> match description {
            JsonView::Object(entries) => match lookup(entries, "branches"@) {
                Some(JsonView::Array(items)) => case_body(key, description) == CaseBody::Fields(
                    entries,
                    items,
                ),
                _ => case_body(key, description) == CaseBody::Nothing,
            },
            _ => case_body(key, description) == CaseBody::Value(description),
        },
{
}

/// In a dry run an integer is zero, and a binary32 or binary64 number the zero
/// whose bit pattern is zero.
pub proof fn zeros_of_a_dry_run(data: Seq<u8>, kind: FieldKind, offset: int)
    requires
        !(kind is Unknown),
        offset + kind.width() <= usize::MAX,
    ensures
        reading(data, kind, true, offset) == Reading::Value(
            if kind is F32 || kind is F64 {
                NumberView::Float(0)
            } else {
                NumberView::PosInt(0)
            },
            offset + kind.width(),
        ),
{
    dry_run_reads_zero(data, kind, offset);
}

/// A type by name counts only the bits it is wide, also where a greater number is
/// decoded; a type by width takes the whole number.
pub proof fn only_the_low_bits_count(value: u64, width: u32)
    ensures
        FieldKind::U8.decoded(value) == Some(NumberView::PosInt(value % 0x100)),
        FieldKind::U16.decoded(value) == Some(NumberView::PosInt(value % 0x1_0000)),
        FieldKind::U32.decoded(value) == Some(NumberView::PosInt(value % 0x1_0000_0000)),
        FieldKind::U64.decoded(value) == Some(NumberView::PosInt(value)),
        FieldKind::Unsigned(width).decoded(value) == Some(NumberView::PosInt(value)),
        FieldKind::Unknown.decoded(value) is None,
        FieldKind::I16.decoded(value) == FieldKind::I16.decoded(value % 0x1_0000),
        FieldKind::I16.decoded(value) matches Some(number) && number.as_i64() matches Some(i)
            && -0x8000 <= i < 0x8000 && (i - value) % 0x1_0000 == 0,
        FieldKind::F32.decoded(value) == FieldKind::F32.decoded(value % 0x1_0000_0000),
        FieldKind::F64.decoded(value) is Some <==> finite_double(value),
        FieldKind::F64.decoded(value) matches Some(number) ==> number == NumberView::Float(value),
{
}

/// What was read is the number with the offset behind it, or else the message.
pub proof fn values_of_reads(number: Number, offset: usize, message: String)
    ensures
        FieldRead::Value(number, offset)@ == Reading::Value(number@, offset as int),
        FieldRead::Short(message)@ == Reading::Short(message@),
        FieldRead::Unsupported@ == Reading::Unsupported,
{
}

} // verus!
