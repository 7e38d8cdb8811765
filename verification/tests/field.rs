use bintree::field::{
    evaluate_expression, field_kind, get_field_size, read_field, select_case,
    try_evaluate_expression, FieldKind, FieldRead, Selection,
};
use bintree::float::{is_finite_double, is_finite_single, widen};
use bintree::json::{Json, JsonMap};
use bintree::number::Number;
use bintree::schema::Branch;

fn field(field_type: Option<&str>, loop_count: Option<Json>) -> Branch {
    Branch {
        name: "field".to_string(),
        field_type: field_type.map(|name| name.to_string()),
        match_cases: None,
        loop_count,
        branches: None,
        optional: None,
        eval: None,
    }
}

fn size_of(field_type: &str) -> u32 {
    let (bits, count) = get_field_size(&field(Some(field_type), None), &mut JsonMap::new());
    assert_eq!(count, None);
    bits
}

fn double(x: f64) -> Number {
    Number::from_double_bits(x.to_bits()).unwrap()
}

#[test]
fn widths_of_the_types() {
    for (name, width) in [
        ("u8", 8),
        ("u8_le", 8),
        ("u8_be", 8),
        ("u16", 16),
        ("u16_le", 16),
        ("u16_be", 16),
        ("u32", 32),
        ("u32_le", 32),
        ("u32_be", 32),
        ("u64", 64),
        ("u64_le", 64),
        ("u64_be", 64),
        ("f32", 32),
        ("f32_le", 32),
        ("f32_be", 32),
        ("f64", 64),
        ("f64_le", 64),
        ("f64_be", 64),
        ("i16", 16),
        ("i16_le", 16),
        ("i16_be", 16),
        ("u0", 0),
        ("u1", 1),
        ("u24", 24),
        ("u+3", 3),
        ("u007", 7),
        ("u4294967295", u32::MAX),
        ("u4294967296", 0),
        ("u", 0),
        ("u-3", 0),
        ("u12x", 0),
        ("u24_le", 0),
        ("i8", 0),
        ("i32", 0),
        ("", 0),
        ("string", 0),
    ] {
        assert_eq!(size_of(name), width, "{}", name);
    }
}

#[test]
fn every_width_is_as_written() {
    for n in 0..200u32 {
        assert_eq!(size_of(&format!("u{}", n)), n);
    }
}

#[test]
fn size_of_a_loop_is_its_count() {
    let mut cache = JsonMap::new();
    cache.insert("n".to_string(), Json::Number(Number::from_u64(7)));
    let before = cache.clone();

    let fixed = field(None, Some(Json::Number(Number::from_u64(3))));
    assert_eq!(get_field_size(&fixed, &mut cache), (0, Some(3)));
    let counted = field(Some("u8"), Some(Json::String("n".to_string())));
    assert_eq!(get_field_size(&counted, &mut cache), (0, Some(7)));
    assert_eq!(cache, before);
}

#[test]
fn unsigned_numbers_are_their_bits() {
    let data = [0xfe, 0xdc, 0xba, 0x98, 0x76, 0x54, 0x32, 0x10];
    for (kind, value) in [
        (FieldKind::U8, 0xfe),
        (FieldKind::U16, 0xdcfe),
        (FieldKind::U32, 0x98ba_dcfe),
        (FieldKind::U64, 0x1032_5476_98ba_dcfe),
        (FieldKind::Unsigned(4), 0xe),
        (FieldKind::Unsigned(12), 0xcfe),
    ] {
        assert_eq!(
            read_field(&data, kind, false, 0),
            FieldRead::Value(Number::from_u64(value), kind.bits() as usize)
        );
    }
}

#[test]
fn signed_numbers_are_in_twos_complement() {
    for value in [0, 1, -1, 0x1234, i16::MAX, i16::MIN] {
        assert_eq!(
            read_field(&value.to_le_bytes(), FieldKind::I16, false, 0),
            FieldRead::Value(Number::from_i64(value as i64), 16)
        );
    }
}

#[test]
fn floating_point_numbers_keep_their_value() {
    for value in [0.0, -0.0, 1.5, -2.25, f32::MAX, f32::MIN_POSITIVE, 1e-45] {
        assert_eq!(
            read_field(&value.to_le_bytes(), FieldKind::F32, false, 0),
            FieldRead::Value(double(value as f64), 32)
        );
    }
    for value in [0.0, -0.0, 1.5, f64::MAX, 5e-324] {
        assert_eq!(
            read_field(&value.to_le_bytes(), FieldKind::F64, false, 0),
            FieldRead::Value(double(value), 64)
        );
    }
}

#[test]
fn numbers_that_are_not_finite_cannot_be_read() {
    for value in [f32::NAN, f32::INFINITY, f32::NEG_INFINITY] {
        assert_eq!(
            read_field(&value.to_le_bytes(), FieldKind::F32, false, 0),
            FieldRead::Unsupported
        );
        assert!(!is_finite_single(value.to_bits()));
    }
    for value in [f64::NAN, f64::INFINITY, f64::NEG_INFINITY] {
        assert_eq!(
            read_field(&value.to_le_bytes(), FieldKind::F64, false, 0),
            FieldRead::Unsupported
        );
        assert!(!is_finite_double(value.to_bits()));
    }
}

#[test]
fn widening_gives_the_same_number() {
    let mut bits: u32 = 1;
    for _ in 0..20_000 {
        bits = bits.wrapping_mul(1_664_525).wrapping_add(1_013_904_223);
        let subnormal = bits & 0x807f_ffff;
        for single in [bits, subnormal, subnormal >> 8] {
            let x = f32::from_bits(single);
            if x.is_finite() {
                assert_eq!(widen(single), (x as f64).to_bits());
            }
        }
    }
    for shift in 0..23 {
        let single = 1u32 << shift;
        assert_eq!(widen(single), (f32::from_bits(single) as f64).to_bits());
    }
}

#[test]
fn dry_run_numbers_are_zero() {
    assert_eq!(
        read_field(&[], FieldKind::U16, true, 3),
        FieldRead::Value(Number::from_u64(0), 19)
    );
    assert_eq!(
        read_field(&[1, 2, 3, 4], FieldKind::F32, true, 0),
        FieldRead::Value(double(0.0), 32)
    );
    assert_eq!(
        read_field(&[], FieldKind::F64, true, 0),
        FieldRead::Value(double(0.0), 64)
    );
    assert_eq!(
        read_field(&[], FieldKind::Unsigned(100), true, 0),
        FieldRead::Value(Number::from_u64(0), 100)
    );
    assert_eq!(read_field(&[], FieldKind::Unknown, true, 0), FieldRead::Unsupported);
}

#[test]
fn fields_that_cannot_be_read() {
    let data = [0u8; 32];
    assert_eq!(
        read_field(&data, FieldKind::Unsigned(65), false, 0),
        FieldRead::Unsupported
    );
    assert_eq!(
        read_field(&data, FieldKind::U8, false, 264),
        FieldRead::Unsupported
    );
    assert_eq!(
        read_field(&data, FieldKind::U8, false, 256),
        FieldRead::Short(
            "Read failed: data len bits 256 bit_offset 256 attempt read num_bits: 8".to_string()
        )
    );
    assert_eq!(
        read_field(&data, FieldKind::U8, true, usize::MAX),
        FieldRead::Unsupported
    );
}

#[test]
fn comparisons_with_a_threshold() {
    for value in [-6i64, -5, -4, 0, 9, 10, 11, i64::MAX, i64::MIN] {
        for threshold in [-5i64, 10, i64::MAX, i64::MIN] {
            let number = Number::from_i64(value);
            let holds = |prefix: &str| {
                evaluate_expression(number, &format!("{}{}", prefix, threshold))
            };
            assert_eq!(holds("gt_"), value > threshold);
            assert_eq!(holds("ge_"), value >= threshold);
            assert_eq!(holds("lt_"), value < threshold);
            assert_eq!(holds("le_"), value <= threshold);
            assert_eq!(holds("gt_"), !holds("le_"));
            assert_eq!(holds("ge_"), !holds("lt_"));
        }
    }
}

#[test]
fn keys_without_a_threshold_never_hold() {
    for key in ["gt_", "gt_x", "ge_1.5", "lt_ 3", "le_9223372036854775808", "eq_1", "1", ""] {
        assert!(!evaluate_expression(Number::from_u64(1), key));
        assert!(!evaluate_expression(double(1.0), key));
    }
    assert!(evaluate_expression(Number::from_u64(4), "gt_+3"));
}

#[test]
fn only_an_i64_can_be_compared() {
    assert_eq!(try_evaluate_expression(double(1.0), "gt_0"), None);
    assert_eq!(try_evaluate_expression(Number::from_u64(u64::MAX), "gt_0"), None);
    assert_eq!(try_evaluate_expression(Number::from_u64(1), "gt_0"), Some(true));
}

fn cases(keys: &[&str]) -> JsonMap {
    let mut map = JsonMap::new();
    for key in keys {
        map.insert(key.to_string(), Json::Null);
    }
    map
}

#[test]
fn the_first_case_in_key_order_is_selected() {
    let map = cases(&["lt_100", "5", "gt_3", "ge_5"]);
    let number = Number::from_u64(5);
    // The keys in order are 5, ge_5, gt_3 and lt_100.
    assert_eq!(select_case(&map, &number, "5"), Selection::Case(0));
    assert_eq!(select_case(&map, &Number::from_u64(6), "6"), Selection::Case(1));
    assert_eq!(select_case(&map, &Number::from_u64(4), "4"), Selection::Case(2));
    assert_eq!(select_case(&map, &Number::from_u64(3), "3"), Selection::Case(3));
    assert_eq!(select_case(&cases(&["1"]), &number, "5"), Selection::NoCase);
    assert_eq!(select_case(&cases(&[]), &number, "5"), Selection::NoCase);
}

#[test]
fn a_comparison_that_cannot_be_made_stops_the_search() {
    let map = cases(&["1.5", "gt_0", "z"]);
    assert_eq!(select_case(&map, &double(1.5), "1.5"), Selection::Case(0));
    assert_eq!(select_case(&map, &double(2.5), "2.5"), Selection::Unsupported);
    assert_eq!(select_case(&map, &double(2.5), "z"), Selection::Unsupported);
}

#[test]
fn integers_match_their_own_text_only() {
    let map = cases(&["-1", "0", "1", "01", "+1", "1.0"]);
    // The keys in order are +1, -1, 0, 01, 1 and 1.0.
    for (value, place) in [(-1i64, 1usize), (0, 2), (1, 4)] {
        let number = Number::from_i64(value);
        let text = number.text();
        assert_eq!(select_case(&map, &number, &text), Selection::Case(place));
    }
    let number = Number::from_i64(2);
    assert_eq!(select_case(&map, &number, &number.text()), Selection::NoCase);
}

#[test]
fn byte_order_makes_no_difference() {
    for base in ["u8", "u16", "u32", "u64", "f32", "f64", "i16"] {
        let kind = field_kind(base);
        assert_eq!(field_kind(&format!("{}_le", base)), kind);
        assert_eq!(field_kind(&format!("{}_be", base)), kind);
    }
    assert_eq!(field_kind("u9"), FieldKind::Unsigned(9));
    assert_eq!(field_kind("u9_le"), FieldKind::Unknown);
}

#[test]
fn little_endian_numbers_are_read_back() {
    for number in [0u64, 1, 0x1234, 0xdead_beef, u64::MAX] {
        for (kind, bytes) in [
            (FieldKind::U8, 1),
            (FieldKind::U16, 2),
            (FieldKind::Unsigned(24), 3),
            (FieldKind::U32, 4),
            (FieldKind::U64, 8),
        ] {
            let low = &number.to_le_bytes()[..bytes];
            let data = [&[7, 8, 9][..], low, &[5][..]].concat();
            let value = (number as u128 % (1u128 << (8 * bytes))) as u64;
            assert_eq!(
                read_field(&data, kind, false, 24),
                FieldRead::Value(Number::from_u64(value), 24 + 8 * bytes)
            );
        }
    }
}

#[test]
fn comparisons_stay_for_greater_and_smaller_numbers() {
    for key in ["gt_3", "ge_3", "lt_3", "le_3"] {
        let holds: Vec<bool> =
            (0..7).map(|i| evaluate_expression(Number::from_u64(i), key)).collect();
        let mut sorted = holds.clone();
        sorted.sort();
        if key.starts_with('l') {
            sorted.reverse();
        }
        assert_eq!(holds, sorted);
    }
}
