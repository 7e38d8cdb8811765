use bintree::json::{Json, JsonMap};
use bintree::number::Number;
use bintree::schema::schema_to_tree;
use bintree::tree::parse_schema;
use evalexpr::{eval_int_with_context, ContextWithMutableVariables, HashMapContext};

fn to_json(value: &serde_json::Value) -> Json {
    match value {
        serde_json::Value::Null => Json::Null,
        serde_json::Value::Bool(b) => Json::Bool(*b),
        serde_json::Value::Number(n) => Json::Number(if let Some(u) = n.as_u64() {
            Number::from_u64(u)
        } else if let Some(i) = n.as_i64() {
            Number::from_i64(i)
        } else {
            Number::from_double_bits(n.as_f64().unwrap().to_bits()).unwrap()
        }),
        serde_json::Value::String(s) => Json::String(s.clone()),
        serde_json::Value::Array(items) => Json::Array(items.iter().map(to_json).collect()),
        serde_json::Value::Object(entries) => {
            let mut map = JsonMap::new();
            for (key, value) in entries {
                map.insert(key.clone(), to_json(value));
            }
            Json::Object(map)
        }
    }
}

fn json(text: &str) -> Json {
    to_json(&serde_json::from_str(text).unwrap())
}

fn hex_to_bin(hex: &str) -> Vec<u8> {
    hex.split_whitespace()
        .map(|byte| u8::from_str_radix(byte, 16).unwrap())
        .collect()
}

#[test]
fn test_nested_packet() {
    let schema_json = json(
        r#"{
        "branches": [
            { "name": "header", "type": "u8" },
            { "name": "payload", "branches": [
                { "name": "field1", "type": "u8" },
                { "name": "field2", "type": "u16_le" }
            ]}
        ]
    }"#,
    );

    let data = hex_to_bin("01 02 E8 03");

    let schema = schema_to_tree(schema_json);
    let mut previous_values = JsonMap::new();
    let (parsed_json, _) =
        parse_schema(&data, &schema.branches, false, &mut previous_values).unwrap();

    assert_eq!(
        parsed_json,
        json(
            r#"{
        "header": 1,
        "payload": {
            "field1": 2,
            "field2": 1000
        }
    }"#
        )
    );
}

#[test]
fn test_match_num_to_string() {
    let schema_json = json(
        r#"{
        "branches": [
            { "name": "status", "type": "u8", "match": {
                "0": "Inactive",
                "1": "Active"
            }}
        ]
    }"#,
    );

    let data = hex_to_bin("01");

    let schema = schema_to_tree(schema_json);
    let mut previous_values = JsonMap::new();
    let (parsed_json, _) =
        parse_schema(&data, &schema.branches, false, &mut previous_values).unwrap();
    assert_eq!(
        parsed_json,
        json(
            r#"{
        "status": 1,
        "status_matched": "Active"
    }"#
        )
    );
}

#[test]
fn test_loop_fields() {
    let schema_json = json(
        r#"{
        "branches": [
            { "name": "count", "type": "u8" },
            { "name": "reserved", "type": "u8" },
            { "name": "items", "loop_count":"count", "branches": [
                { "name": "item", "type": "u8" }
            ]}
        ]
    }"#,
    );

    let data = hex_to_bin("03 FF 01 02 03");

    let schema = schema_to_tree(schema_json);
    let mut previous_values = JsonMap::new();
    let (parsed_json, _) =
        parse_schema(&data, &schema.branches, false, &mut previous_values).unwrap();

    assert_eq!(
        parsed_json,
        json(
            r#"{
        "count": 3,
        "reserved": 255,
        "items": [
            { "item": 1 },
            { "item": 2 },
            { "item": 3 }
        ]
    }"#
        )
    );
}

#[test]
fn test_loop_static_count() {
    let schema_json = json(
        r#"{
        "branches": [
            { "name": "reserved", "type": "u8" },
            { "name": "items", "loop_count": 3, "branches": [
                { "name": "item", "type": "u8" }
            ]}
        ]
    }"#,
    );

    let data = hex_to_bin("FE 01 02 03");

    let schema = schema_to_tree(schema_json);
    let mut previous_values = JsonMap::new();
    let (parsed_json, _) =
        parse_schema(&data, &schema.branches, false, &mut previous_values).unwrap();

    assert_eq!(
        parsed_json,
        json(
            r#"{
        "reserved": 254,
        "items": [
            { "item": 1 },
            { "item": 2 },
            { "item": 3 }
        ]
    }"#
        )
    );
}

#[test]
fn test_loop_until_no_more_data() {
    let schema_json = json(
        r#"{
        "branches": [
            { "name": "reserved", "type": "u8" },
            { "name": "items", "loop_count": 999, "branches": [
                { "name": "item", "type": "u8" }
            ]}
        ]
    }"#,
    );

    let data = hex_to_bin("FE 01 02 03");

    let schema = schema_to_tree(schema_json);
    let mut previous_values = JsonMap::new();
    let (parsed_json, bit_offset) =
        parse_schema(&data, &schema.branches, false, &mut previous_values).unwrap();
    println!("bit_offset: {bit_offset}");
    assert_eq!(bit_offset, data.len() * 8);
    assert_eq!(
        parsed_json,
        json(
            r#"{
        "reserved": 254,
        "items": [
            { "item": 1 },
            { "item": 2 },
            { "item": 3 }
        ]
    }"#
        )
    );
}

#[test]
fn test_json_default_val_if_not_present() {
    let schema_json = match json(r#"{ "a": 1, "b": 2 }"#) {
        Json::Object(map) => map,
        _ => unreachable!(),
    };
    let three = Json::Number(Number::from_u64(3));
    let c = schema_json.get("c").cloned().ok_or(three.clone()).unwrap_or_else(|err| err);
    assert_eq!(c, three);

    let c_alt = schema_json.get("c").cloned().unwrap_or(three.clone());
    assert_eq!(c_alt, three);
}

#[test]
fn test_match_to_nested_packet() {
    let schema_json = json(
        r#"{
        "branches": [
            { "name": "type", "type": "u8", "match": {
                "0": "Type0",
                "1": {
                    "name": "Type1",
                    "branches": [
                        { "name": "field1", "type": "u8" },
                        { "name": "field2", "type": "u16_le" }
                    ]
                }
            }}
        ]
    }"#,
    );
    let data = hex_to_bin("01 02 E8 03");

    let schema = schema_to_tree(schema_json);
    let mut previous_values = JsonMap::new();
    let (parsed_json, _) =
        parse_schema(&data, &schema.branches, false, &mut previous_values).unwrap();

    assert_eq!(
        parsed_json,
        json(
            r#"{
        "type": 1,
        "type_matched": {
            "name": "Type1",
            "field1": 2,
            "field2": 1000
        }
    }"#
        )
    );
}

#[test]
fn test_match_non_immediate_field_to_nested_packet() {
    // u0 infers 'dont read' and requires name declared earlier
    let schema_json = json(
        r#"{
        "branches": [
            { "name": "type", "type": "u8"},
            { "name": "reserved", "type": "u8"},
            { "name": "type", "type": "u0", "match": {
                "0": "Type0",
                "1": {
                    "name": "Type1",
                    "branches": [
                        { "name": "field1", "type": "u8" },
                        { "name": "field2", "type": "u16_le" }
                    ]
                }
            }}
        ]
    }"#,
    );
    let data = hex_to_bin("01 ff 02 E8 03");

    let schema = schema_to_tree(schema_json);
    let mut previous_values = JsonMap::new();
    let (parsed_json, _) =
        parse_schema(&data, &schema.branches, false, &mut previous_values).unwrap();

    assert_eq!(
        parsed_json,
        json(
            r#"{
        "reserved": 255,
        "type": 1,
        "type_matched": {
            "name": "Type1",
            "field1": 2,
            "field2": 1000
        }
    }"#
        )
    );
}

#[test]
fn test_dry_run() {
    let schema_json = json(
        r#"{
        "branches": [
            { "name": "fix_status", "type": "u8" },
            { "name": "rcr", "type": "u8" },
            { "name": "millisecond", "type": "u16_le" }
        ]
    }"#,
    );

    let schema = schema_to_tree(schema_json);
    let mut previous_values = JsonMap::new();
    let (parsed_json, _) = parse_schema(&[], &schema.branches, true, &mut previous_values).unwrap();
    assert_eq!(
        parsed_json,
        json(
            r#"{
        "fix_status": 0,
        "millisecond": 0,
        "rcr": 0
    }"#
        )
    );
}

#[test]
fn test_coral_reef() {
    let coral_reef_structure_json = json(
        r#"{
        "branches": [
            { "name": "nature_reserve_id", "type": "u16" },
            { "name": "n_colonies", "type": "u32" },
            { "name": "region_id", "type": "u16" },
            {
            "name": "colonies", "loop_count": "n_colonies", "branches": [
                { "name": "n_polyps", "type": "u32" },
                { "name": "polyps", "loop_count": "n_polyps", "branches": [
                    { "name": "polyp_id", "type": "u32" },
                    { "name": "polyp_type", "type": "u8" }
                ]
                }
            ]
            }
        ]
    }"#,
    );

    let data = hex_to_bin(
        r#"
    fe ff
    01 00 00 00
    04 00
    02 00 00 00
    00 00 00 00
    01
    01 00 00 00
    01
    "#,
    );

    let schema = schema_to_tree(coral_reef_structure_json);
    let mut previous_values = JsonMap::new();
    let (parsed_json, _) =
        parse_schema(&data, &schema.branches, false, &mut previous_values).unwrap();

    assert_eq!(
        parsed_json,
        json(
            r#"{
        "n_colonies": 1,
        "nature_reserve_id": 65534,
        "region_id": 4,
        "colonies": [
            {
                "n_polyps": 2,
                "polyps": [
                { "polyp_id": 0, "polyp_type": 1},
                { "polyp_id": 1, "polyp_type": 1}
            ]
            }
        ]
    }"#
        )
    );
}

#[test]
fn test_eval_expr() {
    let mut eval_context = HashMapContext::new();
    eval_context.set_value("a".to_string(), 1.into()).unwrap();
    assert_eq!(eval_int_with_context("a + 1 + 2 + 3", &eval_context), Ok(7));

    // cases for eval int/float/str
    let schema_json = json(
        r#"{
        "branches": [
            { "name": "sth", "type": "u8", "eval": "value_int + 1"}
        ]
    }"#,
    );
    let data = hex_to_bin("01");
    let schema = schema_to_tree(schema_json);
    let mut previous_values = JsonMap::new();
    let (parsed_json, bit_offset) =
        parse_schema(&data, &schema.branches, false, &mut previous_values).unwrap();
    assert_eq!(bit_offset, 8);
    assert_eq!(parsed_json, json(r#"{ "sth": 2 }"#));

    let schema_json = json(
        r#"{
        "branches": [
            { "name": "sth", "type": "u8", "eval": "value_int + 1.0"}
        ]
    }"#,
    );
    let data = hex_to_bin("01");
    let schema = schema_to_tree(schema_json);
    let mut previous_values = JsonMap::new();
    let (parsed_json, bit_offset) =
        parse_schema(&data, &schema.branches, false, &mut previous_values).unwrap();
    assert_eq!(bit_offset, 8);
    assert_eq!(parsed_json, json(r#"{ "sth": 2.0 }"#));

    let schema_json = json(
        r#"{
        "branches": [
            { "name": "sth", "type": "u8", "eval": "math::pow(value_int, 2)"}
        ]
    }"#,
    );
    let data = hex_to_bin("0A");
    let schema = schema_to_tree(schema_json);
    let mut previous_values = JsonMap::new();
    let (parsed_json, bit_offset) =
        parse_schema(&data, &schema.branches, false, &mut previous_values).unwrap();
    assert_eq!(bit_offset, 8);
    assert_eq!(parsed_json, json(r#"{ "sth": 100.0 }"#));
}
