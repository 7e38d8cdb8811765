use bintree::json::{Json, JsonMap};
use bintree::number::Number;
use bintree::schema::{decode_branch, decode_branches, decode_tree, schema_to_tree, Branch};

fn to_json(value: &serde_json::Value) -> Json {
    match value {
        serde_json::Value::Null => Json::Null,
        serde_json::Value::Bool(b) => Json::Bool(*b),
        serde_json::Value::Number(n) => Json::Number(Number::from_u64(n.as_u64().unwrap())),
        serde_json::Value::String(s) => Json::String(s.clone()),
        serde_json::Value::Array(items) => Json::Array(items.iter().map(to_json).collect()),
        serde_json::Value::Object(entries) => {
            let mut map = JsonMap::new();
            for (key, value) in entries {
                map.insert(key.clone(), to_json(value));
            }
            Json::Object(map)
        }
    }
}

fn json(text: &str) -> Json {
    to_json(&serde_json::from_str(text).unwrap())
}

fn named(name: &str) -> Branch {
    Branch {
        name: name.to_string(),
        field_type: None,
        match_cases: None,
        loop_count: None,
        branches: None,
        optional: None,
        eval: None,
    }
}

fn full() -> Branch {
    let mut cases = JsonMap::new();
    cases.insert("1".to_string(), Json::String("one".to_string()));
    Branch {
        name: "f".to_string(),
        field_type: Some("u8".to_string()),
        match_cases: Some(cases),
        loop_count: Some(Json::Bool(false)),
        branches: Some(vec![named("g")]),
        optional: Some(true),
        eval: Some("1 + 1".to_string()),
    }
}

#[test]
fn all_parts_of_a_field() {
    let described = json(
        r#"{"name": "f", "type": "u8", "match": {"1": "one"}, "loop_count": false,
            "branches": [{"name": "g"}], "optional": true, "eval": "1 + 1"}"#,
    );
    assert_eq!(decode_branch(&described), Some(full()));
}

#[test]
fn a_field_as_an_array_of_its_parts() {
    let described = json(
        r#"["f", "u8", {"1": "one"}, false,
            [["g", null, null, null, null, null, null]], true, "1 + 1"]"#,
    );
    assert_eq!(decode_branch(&described), Some(full()));
    assert_eq!(decode_branch(&json(r#"["f", "u8"]"#)), None);
    assert_eq!(
        decode_branch(&json(r#"["f", null, null, null, null, null, null, null]"#)),
        None
    );
}

#[test]
fn only_the_name_has_to_be_there() {
    assert_eq!(decode_branch(&json(r#"{"name": "f"}"#)), Some(named("f")));
    assert_eq!(decode_branch(&json("{}")), None);
    assert_eq!(decode_branch(&json(r#"{"name": null}"#)), None);
    assert_eq!(decode_branch(&json(r#"{"name": 1}"#)), None);
}

#[test]
fn null_parts_are_missing() {
    let described = json(
        r#"{"name": "f", "type": null, "match": null, "loop_count": null,
            "branches": null, "optional": null, "eval": null}"#,
    );
    assert_eq!(decode_branch(&described), Some(named("f")));
}

#[test]
fn unknown_keys_are_ignored() {
    let described = json(r#"{"name": "f", "comment": [1, 2], "TYPE": 3}"#);
    assert_eq!(decode_branch(&described), Some(named("f")));
    let tree = json(r#"{"branches": [], "version": 2}"#);
    assert_eq!(decode_tree(&tree).unwrap().branches.len(), 0);
}

#[test]
fn parts_of_another_type_are_refused() {
    for text in [
        r#"{"name": "f", "type": 8}"#,
        r#"{"name": "f", "match": []}"#,
        r#"{"name": "f", "match": "x"}"#,
        r#"{"name": "f", "branches": {}}"#,
        r#"{"name": "f", "branches": [1]}"#,
        r#"{"name": "f", "branches": [{}]}"#,
        r#"{"name": "f", "optional": 1}"#,
        r#"{"name": "f", "eval": true}"#,
        r#""f""#,
        "null",
        "1",
    ] {
        assert_eq!(decode_branch(&json(text)), None, "{}", text);
    }
}

#[test]
fn schemas() {
    let text = r#"{"branches": [{"name": "a"}, {"name": "b"}]}"#;
    let tree = schema_to_tree(json(text));
    assert_eq!(tree.branches, vec![named("a"), named("b")]);
    assert_eq!(tree.clone(), tree);
    assert_eq!(decode_tree(&json(r#"[[{"name": "a"}, {"name": "b"}]]"#)), Some(tree));
    for text in ["{}", r#"{"branches": null}"#, r#"{"branches": {}}"#, "[]", "[[], []]", "3"] {
        assert_eq!(decode_tree(&json(text)), None, "{}", text);
    }
}

#[test]
fn one_bad_field_spoils_the_row() {
    let good = json(r#"{"name": "a"}"#);
    let rows = vec![good.clone(), good.clone()];
    assert_eq!(decode_branches(&rows), Some(vec![named("a"), named("a")]));
    assert_eq!(decode_branches(&vec![good, Json::Null]), None);
    assert_eq!(decode_branches(&vec![]), Some(vec![]));
}

#[test]
fn a_copied_field_is_equal() {
    assert_eq!(full().clone(), full());
    assert_eq!(full().duplicate(), full());
}
