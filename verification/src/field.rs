//! Single fields: how wide a field is, what its bits stand for, and which case
//! of a match its value falls under.

use vstd::prelude::*;

use crate::bits::{field_value, has_field, read_bits, read_failure};
use crate::float::{
    finite_double, finite_single, is_finite_single, lemma_same_number_unique, same_number, widen,
};
use crate::json::{lookup, Entries, Json, JsonMap, JsonView};
use crate::number::{Number, NumberView};
use crate::schema::Branch;
use crate::text::{
    begins_with, chars_of, parse_i64, parse_u32, parsed_i64, parsed_u32, same_text, starts_with,
};

verus! {

/// What the type of a field says of its bits.
#[derive(Clone, Copy, Debug, PartialEq, Eq)]
pub enum FieldKind {
    U8,
    U16,
    U32,
    U64,
    F32,
    F64,
    I16,
    /// An unsigned integer of so many bits.
    Unsigned(u32),
    /// A type that is not known.
    Unknown,
}

/// The kind that a type names. A byte order may be added to the types of whole
/// bytes; it makes no difference.
pub open spec fn kind_of(name: Seq<char>) -> FieldKind {
    if name == "u8"@ || name == "u8_le"@ || name == "u8_be"@ {
        FieldKind::U8
    } else if name == "u16"@ || name == "u16_le"@ || name == "u16_be"@ {
        FieldKind::U16
    } else if name == "u32"@ || name == "u32_le"@ || name == "u32_be"@ {
        FieldKind::U32
    } else if name == "u64"@ || name == "u64_le"@ || name == "u64_be"@ {
        FieldKind::U64
    } else if name == "f32"@ || name == "f32_le"@ || name == "f32_be"@ {
        FieldKind::F32
    } else if name == "f64"@ || name == "f64_le"@ || name == "f64_be"@ {
        FieldKind::F64
    } else if name == "i16"@ || name == "i16_le"@ || name == "i16_be"@ {
        FieldKind::I16
    } else if name.len() > 1 && name[0] == 'u' {
        match parsed_u32(name.skip(1)) {
            Some(width) => FieldKind::Unsigned(width),
            None => FieldKind::Unknown,
        }
    } else {
        FieldKind::Unknown
    }
}

impl FieldKind {
    /// The width of a field of this kind in bits; zero where it takes none.
    pub open spec fn width(self) -> u32 {
        match self {
            FieldKind::U8 => 8,
            FieldKind::U16 => 16,
            FieldKind::U32 => 32,
            FieldKind::U64 => 64,
            FieldKind::F32 => 32,
            FieldKind::F64 => 64,
            FieldKind::I16 => 16,
            FieldKind::Unsigned(width) => width,
            FieldKind::Unknown => 0,
        }
    }

    /// The number that the lowest bits of `value` stand for; nothing where they
    /// stand for none.
    pub open spec fn decoded(self, value: u64) -> Option<NumberView> {
        match self {
            FieldKind::U8 => Some(NumberView::PosInt(value % 0x100)),
            FieldKind::U16 => Some(NumberView::PosInt(value % 0x1_0000)),
            FieldKind::U32 => Some(NumberView::PosInt(value % 0x1_0000_0000)),
            FieldKind::U64 => Some(NumberView::PosInt(value)),
            FieldKind::F32 => {
                let single = (value % 0x1_0000_0000) as u32;
                if finite_single(single) {
                    Some(NumberView::Float(widened(single)))
                } else {
                    None
                }
            },
            FieldKind::F64 => if finite_double(value) {
                Some(NumberView::Float(value))
            } else {
                None
            },
            FieldKind::I16 => {
                let low = value % 0x1_0000;
                Some(
                    NumberView::of_int(
                        if low < 0x8000 {
                            low as i64
                        } else {
                            (low - 0x1_0000) as i64
                        },
                    ),
                )
            },
            FieldKind::Unsigned(_) => Some(NumberView::PosInt(value)),
            FieldKind::Unknown => None,
        }
    }

    /// The width of a field of this kind in bits; zero where it takes none.
    pub fn bits(&self) -> (r: u32)
        ensures
            r == self.width(),
    {
        match *self {
            FieldKind::U8 => 8,
            FieldKind::U16 => 16,
            FieldKind::U32 => 32,
            FieldKind::U64 => 64,
            FieldKind::F32 => 32,
            FieldKind::F64 => 64,
            FieldKind::I16 => 16,
            FieldKind::Unsigned(width) => width,
            FieldKind::Unknown => 0,
        }
    }

    /// The number that the lowest bits of `value` stand for.
    pub fn decode(&self, value: u64) -> (r: Option<Number>)
        ensures
            match r {
                Some(number) => self.decoded(value) == Some(number@),
                None => self.decoded(value) is None,
            },
    {
        match *self {
            FieldKind::U8 => Some(Number::from_u64(value % 0x100)),
            FieldKind::U16 => Some(Number::from_u64(value % 0x1_0000)),
            FieldKind::U32 => Some(Number::from_u64(value % 0x1_0000_0000)),
            FieldKind::U64 => Some(Number::from_u64(value)),
            FieldKind::F32 => {
                let single = (value % 0x1_0000_0000) as u32;
                if is_finite_single(single) {
                    let double = widen(single);
                    proof {
                        lemma_same_number_unique(single, double, widened(single));
                    }
                    Number::from_double_bits(double)
                } else {
                    None
                }
            },
            FieldKind::F64 => Number::from_double_bits(value),
            FieldKind::I16 => {
                let low: i64 = (value % 0x1_0000) as i64;
                if low < 0x8000 {
                    Some(Number::from_i64(low))
                } else {
                    Some(Number::from_i64(low - 0x1_0000))
                }
            },
            FieldKind::Unsigned(_) => Some(Number::from_u64(value)),
            FieldKind::Unknown => None,
        }
    }
}

/// The binary64 number that a finite binary32 number is.
pub open spec fn widened(single: u32) -> u64 {
    choose|double: u64| same_number(single, double)
}

/// The kind that a type names.
pub fn field_kind(name: &str) -> (r: FieldKind)
    ensures
        r == kind_of(name@),
{
    if same_text(name, "u8") || same_text(name, "u8_le") || same_text(name, "u8_be") {
        FieldKind::U8
    } else if same_text(name, "u16") || same_text(name, "u16_le") || same_text(name, "u16_be") {
        FieldKind::U16
    } else if same_text(name, "u32") || same_text(name, "u32_le") || same_text(name, "u32_be") {
        FieldKind::U32
    } else if same_text(name, "u64") || same_text(name, "u64_le") || same_text(name, "u64_be") {
        FieldKind::U64
    } else if same_text(name, "f32") || same_text(name, "f32_le") || same_text(name, "f32_be") {
        FieldKind::F32
    } else if same_text(name, "f64") || same_text(name, "f64_le") || same_text(name, "f64_be") {
        FieldKind::F64
    } else if same_text(name, "i16") || same_text(name, "i16_le") || same_text(name, "i16_be") {
        FieldKind::I16
    } else {
        let chars = chars_of(name);
        if chars.len() > 1 && chars[0] == 'u' {
            match parse_u32(&chars, 1) {
                Some(width) => FieldKind::Unsigned(width),
                None => FieldKind::Unknown,
            }
        } else {
            FieldKind::Unknown
        }
    }
}

/// How often a loop runs: a number, or the number known under a name; nothing
/// where it is neither.
pub open spec fn loop_count_of(count: JsonView, cache: Entries) -> Option<u64> {
    match count {
        JsonView::String(name) => match lookup(cache, name) {
            Some(JsonView::Number(number)) => number.as_u64(),
            _ => None,
        },
        JsonView::Number(number) => number.as_u64(),
        _ => None,
    }
}

/// How often a loop runs.
pub fn find_loop_count(count: &Json, val_cache: &JsonMap) -> (r: Option<u64>)
    ensures
        r == loop_count_of(count@, val_cache@),
{
    match count {
        Json::String(name) => match val_cache.get(name.as_str()) {
            Some(Json::Number(number)) => number.as_u64(),
            _ => None,
        },
        Json::Number(number) => number.as_u64(),
        _ => None,
    }
}

/// The size of a field: of a loop the number of times it runs, of another field
/// its width in bits. A loop has to have a count, another field a type.
pub fn get_field_size(field: &Branch, val_cache: &mut JsonMap) -> (r: (u32, Option<u64>))
    requires
        match field@.loop_count {
            Some(count) => loop_count_of(count, old(val_cache)@) is Some,
            None => field@.field_type is Some,
        },
    ensures
        match field@.loop_count {
            Some(count) => r == (0u32, loop_count_of(count, old(val_cache)@)),
            None => r == (kind_of(field@.field_type->0).width(), None::<u64>),
        },
        *final(val_cache) == *old(val_cache),
{
    match &field.loop_count {
        Some(count) => (0, find_loop_count(count, val_cache)),
        None => {
            let bits = match &field.field_type {
                Some(name) => field_kind(name.as_str()).bits(),
                None => 0,
            };
            (bits, None)
        },
    }
}

/// What reading a field comes to.
pub enum Reading {
    /// A number, and the offset behind the field.
    Value(NumberView, int),
    /// The data ends within the field.
    Short(Seq<char>),
    /// The field cannot be read.
    Unsupported,
}

/// Reading a field at bit `offset`; in a dry run all bits are zero. It cannot be
/// read where its bits stand for no number, where it is wider than 64 bits or
/// starts past the end of the data, or where a count of bits exceeds `usize`.
pub open spec fn reading(data: Seq<u8>, kind: FieldKind, dry_run: bool, offset: int) -> Reading {
    let width = kind.width() as int;
    if dry_run {
        match kind.decoded(0) {
            Some(number) => if offset + width <= usize::MAX {
                Reading::Value(number, offset + width)
            } else {
                Reading::Unsupported
            },
            None => Reading::Unsupported,
        }
    } else if width > 64 || offset / 8 > data.len() || 8 * data.len() > usize::MAX {
        Reading::Unsupported
    } else if !has_field(data, offset, width) {
        Reading::Short(read_failure(8 * data.len(), offset as nat, width as nat))
    } else {
        match kind.decoded(field_value(data, offset, width) as u64) {
            Some(number) => Reading::Value(number, offset + width),
            None => Reading::Unsupported,
        }
    }
}

/// What reading a field comes to.
#[derive(Debug, PartialEq, Eq)]
pub enum FieldRead {
    Value(Number, usize),
    Short(String),
    Unsupported,
}

impl FieldRead {
    pub open spec fn view(&self) -> Reading {
        match self {
            FieldRead::Value(number, offset) => Reading::Value(number@, *offset as int),
            FieldRead::Short(message) => Reading::Short(message@),
            FieldRead::Unsupported => Reading::Unsupported,
        }
    }
}

/// Reads a field at bit `bit_offset`.
pub fn read_field(data: &[u8], kind: FieldKind, dry_run: bool, bit_offset: usize) -> (r: FieldRead)
    ensures
        r@ == reading(data@, kind, dry_run, bit_offset as int),
{
    let width = kind.bits();
    if dry_run {
        if width as u64 > (usize::MAX - bit_offset) as u64 {
            return FieldRead::Unsupported;
        }
        return match kind.decode(0) {
            Some(number) => FieldRead::Value(number, bit_offset + width as usize),
            None => FieldRead::Unsupported,
        };
    }
    if width > 64 || bit_offset / 8 > data.len() || data.len() > usize::MAX / 8 {
        return FieldRead::Unsupported;
    }
    match read_bits(data, bit_offset, width) {
        Err(message) => FieldRead::Short(message),
        Ok((value, new_offset)) => match kind.decode(value) {
            Some(number) => FieldRead::Value(number, new_offset),
            None => FieldRead::Unsupported,
        },
    }
}

/// Whether a key of a match is a comparison.
pub open spec fn is_comparison(key: Seq<char>) -> bool {
    begins_with(key, "gt_"@) || begins_with(key, "ge_"@) || begins_with(key, "lt_"@)
        || begins_with(key, "le_"@)
}

/// Whether the comparison that a key is holds of a number: nothing where the
/// number is not an `i64`. It holds of no number where no threshold follows,
/// and where the key is not a comparison.
pub open spec fn comparison_holds(number: NumberView, key: Seq<char>) -> Option<bool> {
    if !is_comparison(key) {
        Some(false)
    } else {
        match (parsed_i64(key.skip(3)), number.as_i64()) {
            (None, _) => Some(false),
            (Some(_), None) => None,
            (Some(threshold), Some(value)) => Some(
                if begins_with(key, "gt_"@) {
                    value > threshold
                } else if begins_with(key, "ge_"@) {
                    value >= threshold
                } else if begins_with(key, "lt_"@) {
                    value < threshold
                } else {
                    value <= threshold
                },
            ),
        }
    }
}

/// Whether the comparison that `expression` is holds of a number, where that
/// can be said.
pub fn try_evaluate_expression(value: Number, expression: &str) -> (r: Option<bool>)
    ensures
        r == comparison_holds(value@, expression@),
{
    let gt = starts_with(expression, "gt_");
    let ge = starts_with(expression, "ge_");
    let lt = starts_with(expression, "lt_");
    let le = starts_with(expression, "le_");
    if !(gt || ge || lt || le) {
        return Some(false);
    }
    proof {
        reveal_strlit("gt_");
        reveal_strlit("ge_");
        reveal_strlit("lt_");
        reveal_strlit("le_");
    }
    let chars = chars_of(expression);
    match parse_i64(&chars, 3) {
        None => Some(false),
        Some(threshold) => match value.as_i64() {
            None => None,
            Some(value) => Some(
                if gt {
                    value > threshold
                } else if ge {
                    value >= threshold
                } else if lt {
                    value < threshold
                } else {
                    value <= threshold
                },
            ),
        },
    }
}

/// Whether the comparison that `expression` is holds of a number. The number
/// has to be an `i64` where a threshold follows.
pub fn evaluate_expression(value: Number, expression: &str) -> (r: bool)
    requires
        comparison_holds(value@, expression@) is Some,
    ensures
        comparison_holds(value@, expression@) == Some(r),
{
    try_evaluate_expression(value, expression).unwrap()
}

/// The case that a value falls under.
#[derive(Clone, Copy, Debug, PartialEq, Eq)]
pub enum Selection {
    /// The case with this place in the order of the keys.
    Case(usize),
    /// No case.
    NoCase,
    /// A comparison comes first that cannot be made.
    Unsupported,
}

/// Whether a number with this text falls under the case with this key.
pub open spec fn case_holds(number: NumberView, text: Seq<char>, key: Seq<char>) -> Option<bool> {
    if is_comparison(key) {
        comparison_holds(number, key)
    } else {
        Some(key == text)
    }
}

/// The first case, from case `i` on, that a number with this text falls under.
pub open spec fn selected(
    cases: Entries,
    number: NumberView,
    text: Seq<char>,
    i: int,
) -> Selection
    decreases cases.len() - i,
{
    if i < 0 || i >= cases.len() {
        Selection::NoCase
    } else {
        match case_holds(number, text, cases[i].0) {
            None => Selection::Unsupported,
            Some(true) => Selection::Case(i as usize),
            Some(false) => selected(cases, number, text, i + 1),
        }
    }
}

/// The first case that a number falls under, which is written as `text`.
pub fn select_case(cases: &JsonMap, number: &Number, text: &str) -> (r: Selection)
    ensures
        r == selected(cases@, number@, text@, 0),
        r matches Selection::Case(i) ==> i < cases@.len(),
{
    let mut i: usize = 0;
    let n = cases.len();
    while i < n
        invariant
            n == cases@.len(),
            i <= n,
            selected(cases@, number@, text@, 0) == selected(cases@, number@, text@, i as int),
        decreases n - i,
    {
        let key = cases.key_at(i);
        let comparison = starts_with(key.as_str(), "gt_") || starts_with(key.as_str(), "ge_")
            || starts_with(key.as_str(), "lt_") || starts_with(key.as_str(), "le_");
        let holds = if comparison {
            try_evaluate_expression(*number, key.as_str())
        } else {
            Some(same_text(key.as_str(), text))
        };
        match holds {
            None => {
                return Selection::Unsupported;
            },
            Some(true) => {
                return Selection::Case(i);
            },
            Some(false) => {},
        }
        i = i + 1;
    }
    Selection::NoCase
}

} // verus!
