use bintree::json::{Json, JsonMap};
use bintree::number::Number;
use bintree::schema::{decode_branch, schema_to_tree, Tree};
use bintree::tree::{parse_schema, process_field, try_parse_schema, try_process_field};

fn to_json(value: &serde_json::Value) -> Json {
    match value {
        serde_json::Value::Null => Json::Null,
        serde_json::Value::Bool(b) => Json::Bool(*b),
        serde_json::Value::Number(n) => Json::Number(if let Some(u) = n.as_u64() {
            Number::from_u64(u)
        } else if let Some(i) = n.as_i64() {
            Number::from_i64(i)
        } else {
            Number::from_double_bits(n.as_f64().unwrap().to_bits()).unwrap()
        }),
        serde_json::Value::String(s) => Json::String(s.clone()),
        serde_json::Value::Array(items) => Json::Array(items.iter().map(to_json).collect()),
        serde_json::Value::Object(entries) => {
            let mut map = JsonMap::new();
            for (key, value) in entries {
                map.insert(key.clone(), to_json(value));
            }
            Json::Object(map)
        }
    }
}

fn json(text: &str) -> Json {
    to_json(&serde_json::from_str(text).unwrap())
}

fn map(text: &str) -> JsonMap {
    match json(text) {
        Json::Object(map) => map,
        other => panic!("{:?} is not an object", other),
    }
}

fn schema(fields: &str) -> Tree {
    schema_to_tree(json(&format!("{{\"branches\": [{}]}}", fields)))
}

type Parsed = Result<(Json, usize), (Json, String)>;

/// Parses with no known values and returns what is known then, too.
fn parse(fields: &str, data: &[u8]) -> (Parsed, JsonMap) {
    let tree = schema(fields);
    let mut cache = JsonMap::new();
    let result = parse_schema(data, &tree.branches, false, &mut cache);

    let mut tried = JsonMap::new();
    assert_eq!(
        try_parse_schema(data, &tree.branches, false, &mut tried),
        Some(result.clone())
    );
    assert_eq!(tried, cache);
    (result, cache)
}

fn parsed(fields: &str, data: &[u8], expected: &str, bits: usize) {
    assert_eq!(parse(fields, data).0, Ok((json(expected), bits)));
}

/// Checks that the schema does not fit and that the known values stay.
fn does_not_fit(fields: &str, data: &[u8], known: &str) {
    let tree = schema(fields);
    let mut cache = map(known);
    assert_eq!(try_parse_schema(data, &tree.branches, false, &mut cache), None);
    assert_eq!(cache, map(known));
}

#[test]
fn short_data_keeps_what_came_before() {
    let (result, cache) = parse(
        r#"{"name": "a", "type": "u8"}, {"name": "b", "type": "u16"}, {"name": "c", "type": "u8"}"#,
        &[1, 2],
    );
    assert_eq!(
        result,
        Err((
            json(r#"{"a": 1}"#),
            "Read failed: data len bits 16 bit_offset 8 attempt read num_bits: 16".to_string()
        ))
    );
    assert_eq!(cache, map(r#"{"a": 1}"#));
}

#[test]
fn short_data_in_a_group_gives_the_fields_of_the_group() {
    let (result, cache) = parse(
        r#"{"name": "a", "type": "u8"}, {"name": "g", "branches": [
            {"name": "b", "type": "u8"}, {"name": "c", "type": "u8"}]}"#,
        &[1, 2],
    );
    assert_eq!(
        result,
        Err((
            json(r#"{"b": 2}"#),
            "Read failed: data len bits 8 bit_offset 8 attempt read num_bits: 8".to_string()
        ))
    );
    assert_eq!(cache, map(r#"{"a": 1, "b": 2}"#));
}

#[test]
fn short_data_in_a_case_keeps_the_number() {
    let field = decode_branch(&json(
        r#"{"name": "t", "type": "u8", "match": {"1": {"branches": [
            {"name": "b", "type": "u8"}, {"name": "c", "type": "u16"}]}}}"#,
    ))
    .unwrap();
    let mut cache = JsonMap::new();
    let mut fields = map(r#"{"before": true}"#);
    let result = process_field(
        &[1, 2, 3],
        &field,
        false,
        Number::from_u64(1),
        8,
        &mut cache,
        &mut fields,
    );
    assert_eq!(
        result,
        Err((
            json(r#"{"b": 2}"#),
            "Read failed: data len bits 16 bit_offset 8 attempt read num_bits: 16".to_string()
        ))
    );
    assert_eq!(fields, map(r#"{"before": true, "t": 1}"#));
    assert_eq!(cache, map(r#"{"b": 2}"#));
}

#[test]
fn a_loop_discards_the_item_it_ends_in() {
    let (result, cache) = parse(
        r#"{"name": "l", "loop_count": 2, "branches": [
            {"name": "x", "type": "u8"}, {"name": "y", "type": "u8"}]}"#,
        &[1, 2, 3],
    );
    assert_eq!(result, Ok((json(r#"{"l": [{"x": 1, "y": 2}]}"#), 16)));
    assert_eq!(cache, map(r#"{"x": 3, "y": 2}"#));
}

#[test]
fn a_loop_takes_all_the_items_there_are() {
    let data = [1, 2, 3, 4, 5, 6, 7];
    for (name, bytes) in [("u8", 1), ("u16", 2), ("u24", 3), ("i16", 2), ("u64", 8)] {
        for count in 0..9 {
            let fields = format!(
                r#"{{"name": "l", "loop_count": {}, "branches": [
                    {{"name": "x", "type": "{}"}}]}}"#,
                count, name
            );
            let (json, bits) = parse(&fields, &data).0.unwrap();
            let items = std::cmp::min(count, data.len() / bytes);
            assert_eq!(bits, 8 * bytes * items);
            match json {
                Json::Object(map) => match map.get("l") {
                    Some(Json::Array(list)) => assert_eq!(list.len(), items),
                    other => panic!("{:?}", other),
                },
                other => panic!("{:?}", other),
            }
        }
    }
}

#[test]
fn a_loop_that_does_not_run_needs_no_fields() {
    parsed(r#"{"name": "l", "loop_count": 0}"#, &[], r#"{"l": []}"#, 0);
}

#[test]
fn a_loop_wins_over_a_type() {
    parsed(
        r#"{"name": "l", "type": "u8", "loop_count": 1, "branches": [{"name": "x", "type": "u8"}]}"#,
        &[7],
        r#"{"l": [{"x": 7}]}"#,
        8,
    );
}

#[test]
fn loops_in_loops_and_groups() {
    parsed(
        r#"{"name": "g", "branches": [{"name": "n", "type": "u8"}]},
           {"name": "l", "loop_count": "n", "branches": [
               {"name": "m", "type": "u8"},
               {"name": "k", "loop_count": "m", "branches": [{"name": "x", "type": "u8"}]}]}"#,
        &[2, 1, 10, 2, 20, 21],
        r#"{"g": {"n": 2}, "l": [
            {"m": 1, "k": [{"x": 10}]}, {"m": 2, "k": [{"x": 20}, {"x": 21}]}]}"#,
        48,
    );
}

#[test]
fn types_without_a_width_add_nothing() {
    parsed(
        r#"{"name": "a", "type": "i8"}, {"name": "b", "type": "u0"}, {"name": "c", "type": "text"},
           {"name": "d", "type": "u00"}, {"name": "e", "type": "u8"}"#,
        &[5],
        r#"{"e": 5}"#,
        8,
    );
}

#[test]
fn type_u0_takes_up_a_known_value() {
    let tree = schema(r#"{"name": "a", "type": "u0"}, {"name": "b", "type": "u00"}"#);
    let mut cache = map(r#"{"a": -3, "b": 4}"#);
    assert_eq!(
        parse_schema(&[], &tree.branches, false, &mut cache),
        Ok((json(r#"{"a": -3}"#), 0))
    );
    does_not_fit(r#"{"name": "a", "type": "u0"}"#, &[], r#"{"a": "text"}"#);
}

#[test]
fn the_number_stays_beside_what_it_matched() {
    let fields = r#"{"name": "t", "type": "u8", "match": {
        "1": "one", "2": [2], "3": null, "4": {"no": "branches"}, "5": {"branches": 5}}}"#;
    parsed(fields, &[1], r#"{"t": 1, "t_matched": "one"}"#, 8);
    parsed(fields, &[2], r#"{"t": 2, "t_matched": [2]}"#, 8);
    parsed(fields, &[3], r#"{"t": 3, "t_matched": null}"#, 8);
    parsed(fields, &[4], r#"{"t": 4}"#, 8);
    parsed(fields, &[5], r#"{"t": 5}"#, 8);
    parsed(fields, &[6], r#"{"t": 6, "t_matched": "unknown"}"#, 8);
}

#[test]
fn a_matched_number_is_not_known_by_name() {
    let (_, cache) = parse(r#"{"name": "t", "type": "u8", "match": {"1": "one"}}"#, &[1]);
    assert_eq!(cache, JsonMap::new());
}

#[test]
fn comparisons_as_cases() {
    let fields = r#"{"name": "t", "type": "u8", "match": {
        "7": "seven", "ge_100": "large", "gt_50": "middle",
        "le_3": {"branches": [{"name": "x", "type": "u8"}]}, "lt_0": "never", "gt_x": "never"}}"#;
    parsed(fields, &[7], r#"{"t": 7, "t_matched": "seven"}"#, 8);
    parsed(fields, &[100], r#"{"t": 100, "t_matched": "large"}"#, 8);
    parsed(fields, &[99], r#"{"t": 99, "t_matched": "middle"}"#, 8);
    parsed(fields, &[50], r#"{"t": 50, "t_matched": "unknown"}"#, 8);
    // Under a comparison an object is a value: its fields are not parsed.
    parsed(
        fields,
        &[3, 9],
        r#"{"t": 3, "t_matched": {"branches": [{"name": "x", "type": "u8"}]}}"#,
        8,
    );
}

#[test]
fn a_case_names_its_fields() {
    let fields = r#"{"name": "t", "type": "u8", "match": {
        "1": {"name": "first", "branches": [{"name": "x", "type": "u8"}]},
        "2": {"branches": [{"name": "name", "type": "u8"}]},
        "3": {"name": ["third"], "branches": [{"name": "name", "type": "u8"}]},
        "4": {"branches": [["x", "u8", null, null, null, null, null]]}}}"#;
    parsed(fields, &[1, 9], r#"{"t": 1, "t_matched": {"name": "first", "x": 9}}"#, 16);
    parsed(fields, &[2, 9], r#"{"t": 2, "t_matched": {"name": 9}}"#, 16);
    parsed(fields, &[3, 9], r#"{"t": 3, "t_matched": {"name": ["third"]}}"#, 16);
    parsed(fields, &[4, 9], r#"{"t": 4, "t_matched": {"x": 9}}"#, 16);
}

#[test]
fn floating_point_numbers_match_their_text() {
    let fields = r#"{"name": "t", "type": "f32", "match": {"1.5": "x", "2": "y", "2.0": "z"}}"#;
    parsed(fields, &1.5f32.to_le_bytes(), r#"{"t": 1.5, "t_matched": "x"}"#, 32);
    parsed(fields, &2.0f32.to_le_bytes(), r#"{"t": 2.0, "t_matched": "z"}"#, 32);
}

#[test]
fn fields_of_less_than_a_byte() {
    parsed(
        r#"{"name": "a", "type": "u3"}, {"name": "b", "type": "u1"}, {"name": "c", "type": "u12"}"#,
        &[0b0101_1011, 0xcd],
        r#"{"a": 3, "b": 1, "c": 3285}"#,
        16,
    );
}

#[test]
fn a_group_starts_with_the_byte_of_the_fields_before() {
    parsed(
        r#"{"name": "a", "type": "u4"}, {"name": "g", "branches": [{"name": "b", "type": "u8"}]}"#,
        &[0xab, 0xcd],
        r#"{"a": 11, "g": {"b": 171}}"#,
        12,
    );
}

#[test]
fn numbers_of_every_type() {
    let mut data = vec![0x80];
    data.extend(0x1234u16.to_le_bytes());
    data.extend(0x8000_0001u32.to_le_bytes());
    data.extend(u64::MAX.to_le_bytes());
    data.extend((-0.5f32).to_le_bytes());
    data.extend(1e100f64.to_le_bytes());
    data.extend((-2i16).to_le_bytes());
    data.extend([1, 2, 3]);
    parsed(
        r#"{"name": "a", "type": "u8_be"}, {"name": "b", "type": "u16_be"},
           {"name": "c", "type": "u32_le"}, {"name": "d", "type": "u64"},
           {"name": "e", "type": "f32_be"}, {"name": "f", "type": "f64_le"},
           {"name": "g", "type": "i16_be"}, {"name": "h", "type": "u24"}"#,
        &data,
        r#"{"a": 128, "b": 4660, "c": 2147483649, "d": 18446744073709551615, "e": -0.5,
            "f": 1e100, "g": -2, "h": 197121}"#,
        256,
    );
}

#[test]
fn a_packet_with_a_match_and_a_loop() {
    parsed(
        r#"{"name": "count", "type": "u8"},
           {"name": "kind", "type": "u8", "match": {"0": "none", "ge_1": "some"}},
           {"name": "items", "loop_count": "count", "branches": [
               {"name": "item", "type": "u16"}]}"#,
        &[0x01, 0x05, 0xe8, 0x03],
        r#"{"count": 1, "kind": 5, "kind_matched": "some", "items": [{"item": 1000}]}"#,
        32,
    );
}

#[test]
fn no_fields_take_nothing() {
    parsed("", &[1, 2, 3], "{}", 0);
}

#[test]
fn two_parts_of_a_schema_follow_each_other() {
    let data = [1, 2, 3, 4];
    let first = r#"{"name": "a", "type": "u8"}"#;
    let second = r#"{"name": "b", "type": "u16"}, {"name": "a", "type": "u0"}"#;
    let (_, bits) = parse(first, &data).0.unwrap();
    parsed(second, &data[bits / 8..], r#"{"b": 770}"#, 16);
    parsed(
        &format!("{}, {}", first, second),
        &data,
        r#"{"a": 1, "b": 770}"#,
        24,
    );
}

#[test]
fn dry_runs_depend_on_the_length_of_the_data_only() {
    let tree = schema(
        r#"{"name": "n", "type": "u8"}, {"name": "f", "type": "f32"},
           {"name": "l", "loop_count": 2, "branches": [{"name": "x", "type": "u16"}]},
           {"name": "t", "type": "u8", "match": {"0": {"branches": [
               {"name": "y", "type": "u8"}]}, "9": "nine"}},
           {"name": "m", "loop_count": "n", "branches": [{"name": "z", "type": "u8"}]}"#,
    );
    let expected = json(
        r#"{"f": 0.0, "l": [{"x": 0}, {"x": 0}], "m": [], "n": 0,
            "t": 0, "t_matched": {"y": 0}}"#,
    );
    for data in [[0u8; 10], [9; 10], [255; 10]] {
        let mut cache = JsonMap::new();
        assert_eq!(
            parse_schema(&data, &tree.branches, true, &mut cache),
            Ok((expected.clone(), 88))
        );
    }
    // The last case starts past the end of shorter data.
    let mut cache = JsonMap::new();
    assert_eq!(try_parse_schema(&[0; 9], &tree.branches, true, &mut cache), None);
}

#[test]
fn what_a_schema_cannot_ask_for() {
    // Neither a type, nor a count, nor fields.
    does_not_fit(r#"{"name": "a"}"#, &[1], "{}");
    // Counts that are not there, or are no number of times.
    does_not_fit(r#"{"name": "l", "loop_count": "n", "branches": []}"#, &[1], "{}");
    does_not_fit(r#"{"name": "l", "loop_count": "n", "branches": []}"#, &[1], r#"{"n": "1"}"#);
    does_not_fit(r#"{"name": "l", "loop_count": "n", "branches": []}"#, &[1], r#"{"n": -1}"#);
    does_not_fit(r#"{"name": "l", "loop_count": -1, "branches": []}"#, &[1], "{}");
    does_not_fit(r#"{"name": "l", "loop_count": 1.0, "branches": []}"#, &[1], "{}");
    does_not_fit(r#"{"name": "l", "loop_count": true, "branches": []}"#, &[1], "{}");
    // A loop that runs, without fields.
    does_not_fit(r#"{"name": "l", "loop_count": 1}"#, &[1], "{}");
    // More bits than a number has.
    does_not_fit(r#"{"name": "a", "type": "u65"}"#, &[0; 20], "{}");
    // No finite number.
    does_not_fit(r#"{"name": "a", "type": "f32"}"#, &f32::NAN.to_le_bytes(), "{}");
    does_not_fit(r#"{"name": "a", "type": "f64"}"#, &f64::INFINITY.to_le_bytes(), "{}");
    // A comparison with a number that is no `i64`.
    does_not_fit(r#"{"name": "a", "type": "u64", "match": {"gt_1": 1}}"#, &[255; 8], "{}");
    does_not_fit(r#"{"name": "a", "type": "f32", "match": {"gt_1": 1}}"#, &[0; 4], "{}");
    // A case that describes no fields by its branches.
    does_not_fit(r#"{"name": "a", "type": "u8", "match": {"1": {"branches": [1]}}}"#, &[1], "{}");
    // The values known by name stay also where a field was taken in before.
    does_not_fit(r#"{"name": "a", "type": "u8"}, {"name": "b"}"#, &[1], r#"{"a": 9}"#);
}

#[test]
fn known_values_stay_known() {
    let tree = schema(r#"{"name": "a", "type": "u8"}"#);
    let mut cache = map(r#"{"a": "old", "z": 1}"#);
    assert_eq!(
        parse_schema(&[3], &tree.branches, false, &mut cache),
        Ok((json(r#"{"a": 3}"#), 8))
    );
    assert_eq!(cache, map(r#"{"a": 3, "z": 1}"#));
}

#[test]
fn taking_in_one_number() {
    let field = decode_branch(&json(r#"{"name": "a"}"#)).unwrap();
    let mut cache = JsonMap::new();
    let mut fields = JsonMap::new();
    let number = Number::from_i64(-5);
    assert_eq!(
        process_field(&[], &field, false, number, 13, &mut cache, &mut fields),
        Ok(13)
    );
    assert_eq!(fields, map(r#"{"a": -5}"#));
    assert_eq!(cache, map(r#"{"a": -5}"#));
}

#[test]
fn a_case_may_start_past_the_end() {
    let field = decode_branch(&json(
        r#"{"name": "a", "match": {"1": {"branches": [{"name": "b", "type": "u8"}]}, "2": 2}}"#,
    ))
    .unwrap();
    let mut cache = map(r#"{"k": 1}"#);
    let mut fields = map(r#"{"f": 2}"#);
    let mut take = |n: u64, offset: usize, fields: &mut JsonMap| {
        try_process_field(&[7], &field, false, Number::from_u64(n), offset, &mut cache, fields)
    };
    assert_eq!(take(1, 16, &mut fields), None);
    assert_eq!(fields, map(r#"{"f": 2}"#));
    assert_eq!(take(2, 16, &mut fields), Some(Ok(16)));
    assert_eq!(fields, map(r#"{"a": 2, "a_matched": 2, "f": 2}"#));
    assert_eq!(take(1, 0, &mut fields), Some(Ok(8)));
    assert_eq!(fields, map(r#"{"a": 1, "a_matched": {"b": 7}, "f": 2}"#));
    assert_eq!(cache, map(r#"{"b": 7, "k": 1}"#));
}

#[test]
fn a_case_is_parsed_by_itself() {
    let nested = r#"{"name": "b", "type": "u8"}, {"name": "c", "type": "u16"}"#;
    let field = decode_branch(&json(&format!(
        r#"{{"name": "t", "match": {{"1": {{"name": "N", "branches": [{}]}}}}}}"#,
        nested
    )))
    .unwrap();
    for data in [vec![9, 1, 2, 3], vec![9, 1, 2]] {
        let mut cache = map(r#"{"k": 1}"#);
        let mut fields = map(r#"{"f": 2}"#);
        let number = Number::from_u64(1);
        let result = process_field(&data, &field, false, number, 8, &mut cache, &mut fields);

        let mut known = map(r#"{"k": 1}"#);
        let tree = schema(nested);
        match parse_schema(&data[1..], &tree.branches, false, &mut known) {
            Ok((Json::Object(mut object), bits)) => {
                assert_eq!(result, Ok(8 + bits));
                object.insert("name".to_string(), Json::String("N".to_string()));
                assert_eq!(fields.get("t_matched"), Some(&Json::Object(object)));
            }
            Ok(other) => panic!("{:?}", other),
            Err(failure) => {
                assert_eq!(result, Err(failure));
                assert_eq!(fields, map(r#"{"f": 2, "t": 1}"#));
            }
        }
        assert_eq!(cache, known);
    }
}

#[test]
fn a_dry_run_of_plain_numbers_reads_no_data() {
    let tree = schema(
        r#"{"name": "a", "type": "u3"}, {"name": "b", "type": "f64"}, {"name": "c", "type": "i16"},
           {"name": "d", "type": "u100"}"#,
    );
    for length in [0, 1, 100] {
        let mut cache = map(r#"{"a": 7, "z": 1}"#);
        assert_eq!(
            parse_schema(&vec![255; length], &tree.branches, true, &mut cache),
            Ok((json(r#"{"a": 0, "b": 0.0, "c": 0, "d": 0}"#), 183))
        );
        assert_eq!(cache, map(r#"{"a": 0, "b": 0.0, "c": 0, "d": 0, "z": 1}"#));
    }
}

#[test]
fn a_second_part_is_parsed_afresh() {
    let data = [1, 2, 3, 4, 5];
    let first = r#"{"name": "a", "type": "u8"}, {"name": "b", "type": "u8"}"#;
    let second = r#"{"name": "b", "type": "u4"}, {"name": "c", "type": "u4"},
        {"name": "l", "loop_count": "a", "branches": [{"name": "d", "type": "u8"}]}"#;
    let mut cache = JsonMap::new();
    assert_eq!(
        parse_schema(&data, &schema(first).branches, false, &mut cache),
        Ok((json(r#"{"a": 1, "b": 2}"#), 16))
    );
    assert_eq!(
        parse_schema(&data[2..], &schema(second).branches, false, &mut cache),
        Ok((json(r#"{"b": 3, "c": 0, "l": [{"d": 4}]}"#), 16))
    );
    let (both, known) = parse(&format!("{}, {}", first, second), &data);
    assert_eq!(both, Ok((json(r#"{"a": 1, "b": 3, "c": 0, "l": [{"d": 4}]}"#), 32)));
    assert_eq!(known, cache);
}

#[test]
fn only_names_of_fields_without_cases_become_known() {
    let tree = schema(
        r#"{"name": "t", "type": "u8", "match": {"1": {"branches": [
               {"name": "x", "type": "u8"}]}}},
           {"name": "g", "branches": [{"name": "y", "type": "u8"}]},
           {"name": "l", "loop_count": 2, "branches": [{"name": "z", "type": "u8"}]}"#,
    );
    let mut cache = map(r#"{"t": "t", "g": "g", "l": "l", "other": null}"#);
    assert!(parse_schema(&[1, 2, 3, 4, 5], &tree.branches, false, &mut cache).is_ok());
    assert_eq!(
        cache,
        map(r#"{"t": "t", "g": "g", "l": "l", "other": null, "x": 2, "y": 3, "z": 5}"#)
    );
}

#[test]
fn only_the_names_of_a_field_change() {
    for (field, expected) in [
        (r#"{"name": "a"}"#, r#"{"a": 1, "a_matched": 8, "a_eval_error": 9, "b": 6}"#),
        (
            r#"{"name": "a", "match": {"1": "one"}}"#,
            r#"{"a": 1, "a_matched": "one", "a_eval_error": 9, "b": 6}"#,
        ),
        (
            r#"{"name": "a", "eval": "value_int + 1"}"#,
            r#"{"a": 2, "a_matched": 8, "a_eval_error": 9, "b": 6}"#,
        ),
    ] {
        let field = decode_branch(&json(field)).unwrap();
        let mut cache = JsonMap::new();
        let mut fields = map(r#"{"a": 7, "a_matched": 8, "a_eval_error": 9, "b": 6}"#);
        let number = Number::from_u64(1);
        assert_eq!(
            process_field(&[], &field, false, number, 0, &mut cache, &mut fields),
            Ok(0)
        );
        assert_eq!(fields, map(expected));
    }
}
