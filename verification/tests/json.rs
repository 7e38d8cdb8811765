use bintree::json::{Json, JsonMap};
use bintree::number::Number;

fn number(n: u64) -> Json {
    Json::Number(Number::from_u64(n))
}

fn map_of(entries: &[(&str, u64)]) -> JsonMap {
    let mut map = JsonMap::new();
    for (key, value) in entries {
        map.insert(key.to_string(), number(*value));
    }
    map
}

#[test]
fn keys_are_in_the_order_of_str() {
    let keys = ["b", "", "a", "ab", "B", "\u{e9}", "\u{1f600}", "\u{ffff}", "a\u{0}"];
    let mut map = JsonMap::new();
    for key in keys {
        map.insert(key.to_string(), Json::Null);
    }
    let mut sorted = keys;
    sorted.sort();
    assert_eq!(map.len(), keys.len());
    for i in 0..map.len() {
        assert_eq!(map.key_at(i), sorted[i]);
    }
}

#[test]
fn a_value_is_found_under_its_key_only() {
    let map = map_of(&[("x", 1), ("y", 2)]);
    assert_eq!(map.get("x"), Some(&number(1)));
    assert_eq!(map.get("y"), Some(&number(2)));
    assert_eq!(map.get("z"), None);
    assert!(map.contains_key("x"));
    assert!(!map.contains_key(""));
    assert_eq!(map.value_at(1), &number(2));
}

#[test]
fn the_last_value_under_a_key_counts() {
    let map = map_of(&[("x", 1), ("y", 2), ("x", 3)]);
    assert_eq!(map.len(), 2);
    assert_eq!(map.get("x"), Some(&number(3)));
}

#[test]
fn the_order_of_insertions_makes_no_difference() {
    let a = map_of(&[("x", 1), ("y", 2), ("z", 3)]);
    let b = map_of(&[("z", 3), ("x", 1), ("y", 2)]);
    assert_eq!(a, b);
    assert_ne!(a, map_of(&[("z", 3), ("x", 1)]));
}

#[test]
fn a_copy_is_equal() {
    let mut map = map_of(&[("x", 1)]);
    map.insert(
        "list".to_string(),
        Json::Array(vec![Json::Null, Json::Bool(true), Json::String("s".to_string())]),
    );
    map.insert("object".to_string(), Json::Object(map_of(&[("y", 2)])));
    let copy = Json::Object(map.clone());
    assert_eq!(copy, Json::Object(map));
    assert_eq!(copy.clone(), copy);
}
