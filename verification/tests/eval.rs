use bintree::eval::{evaluation_json, store_evaluation, Evaluation, Tape};
use bintree::guard::{absolute, absolute_bits, byte_index, shifted, substring};
use bintree::json::{Json, JsonMap};
use bintree::number::Number;
use bintree::portable::is_portable_expression;
use bintree::schema::{Branch, Tree};
use bintree::tree::{parse_schema, process_field, try_parse_schema, try_process_field};

fn field(name: &str, field_type: &str, eval: &str) -> Branch {
    Branch {
        name: name.to_string(),
        field_type: Some(field_type.to_string()),
        match_cases: None,
        loop_count: None,
        branches: None,
        optional: None,
        eval: Some(eval.to_string()),
    }
}

fn double(x: f64) -> Json {
    Json::Number(Number::from_double_bits(x.to_bits()).unwrap())
}

fn integer(i: i64) -> Json {
    Json::Number(Number::from_i64(i))
}

fn text(s: &str) -> Json {
    Json::String(s.to_string())
}

fn entry(key: &str, value: Json) -> JsonMap {
    let mut map = JsonMap::new();
    map.insert(key.to_string(), value);
    map
}

/// What an expression makes of a field.
fn value_of(field_type: &str, data: &[u8], eval: &str) -> Json {
    let fields = [field("x", field_type, eval)];
    let mut cache = JsonMap::new();
    let (json, _) = parse_schema(data, &fields, false, &mut cache).unwrap();
    match json {
        Json::Object(map) => {
            assert_eq!(map, cache);
            map.get("x").unwrap().clone()
        }
        other => panic!("{:?}", other),
    }
}

#[test]
fn an_expression_takes_the_place_of_the_number() {
    assert_eq!(value_of("u8", &[3], "value_int * 2 - 10"), integer(-4));
    assert_eq!(value_of("i16", &[0xff, 0xff], "value_int"), integer(-1));
    assert_eq!(value_of("u8", &[3], "value_int / 2.0"), double(1.5));
    assert_eq!(value_of("u8", &[3], "value_int > 2"), Json::Bool(true));
    assert_eq!(value_of("u8", &[3], "value_string + \"!\""), text("\"3!\""));
    assert_eq!(value_of("f32", &2.5f32.to_le_bytes(), "value_float + 1.0"), double(3.5));
    assert_eq!(value_of("f32", &2.5f32.to_le_bytes(), "value_string"), text("\"2.5\""));
    assert_eq!(
        value_of("u64", &[255; 8], "value_string"),
        text("\"18446744073709551615\"")
    );
    assert_eq!(value_of("u8", &[3], "(value_int, true)"), text("(3, true)"));
    assert_eq!(value_of("u8", &[3], "str::substring(\"hello\", 1, 3)"), text("\"el\""));
    assert_eq!(value_of("u8", &[3], ""), text("()"));
}

#[test]
fn numbers_that_are_not_finite_become_null() {
    assert_eq!(value_of("u8", &[3], "value_int / 0.0"), Json::Null);
    assert_eq!(value_of("u8", &[3], "0.0 / 0.0"), Json::Null);
}

#[test]
fn outcomes_that_a_machine_may_choose() {
    assert_eq!(value_of("u8", &[3], "value_int ^ 2"), double(9.0));
    assert_eq!(value_of("u8", &[10], "math::pow(value_int, 2)"), double(100.0));
    assert_eq!(value_of("u8", &[3], "max(value_int, 5)"), integer(5));

    let tree = Tree { branches: vec![field("x", "u8", "value_int ^ 2")] };
    let mut cache = JsonMap::new();
    assert_eq!(
        try_parse_schema(&[4], &tree.branches, false, &mut cache),
        Some(Ok((Json::Object(entry("x", double(16.0))), 8)))
    );
    assert_eq!(cache, entry("x", double(16.0)));

    let mut fields = JsonMap::new();
    let mut known = JsonMap::new();
    assert_eq!(
        try_process_field(
            &[],
            &tree.branches[0],
            false,
            Number::from_u64(5),
            8,
            &mut known,
            &mut fields
        ),
        Some(Ok(8))
    );
    assert_eq!(fields, entry("x", double(25.0)));
    assert_eq!(known, fields);
}

#[test]
fn the_message_of_a_failure_stands_beside() {
    let fields = [field("x", "u8", "value_float + 1")];
    let mut cache = JsonMap::new();
    let failure = evalexpr::eval("value_float + 1").unwrap_err();
    assert_eq!(
        parse_schema(&[1], &fields, false, &mut cache),
        Ok((
            Json::Object(entry("x_eval_error", text(&format!("eval error: {}", failure)))),
            8
        ))
    );
    assert_eq!(cache, JsonMap::new());
}

#[test]
fn only_numbers_within_i64_are_value_int() {
    let fields = [field("x", "u64", "value_int")];
    let mut cache = JsonMap::new();
    let (json, _) = parse_schema(&[255; 8], &fields, false, &mut cache).unwrap();
    match json {
        Json::Object(map) => assert!(map.contains_key("x_eval_error")),
        other => panic!("{:?}", other),
    }
}

#[test]
fn a_value_counts_a_loop() {
    let list = Branch {
        name: "l".to_string(),
        field_type: None,
        match_cases: None,
        loop_count: Some(text("n")),
        branches: Some(vec![field("y", "u8", "value_int + 1")]),
        optional: None,
        eval: None,
    };
    let fields = [field("n", "u8", "value_int - 1"), list];
    let mut cache = JsonMap::new();
    let mut expected = entry("n", integer(2));
    expected.insert(
        "l".to_string(),
        Json::Array(vec![
            Json::Object(entry("y", integer(11))),
            Json::Object(entry("y", integer(12))),
        ]),
    );
    assert_eq!(
        parse_schema(&[3, 10, 11, 12], &fields, false, &mut cache),
        Ok((Json::Object(expected), 24))
    );
    let mut known = JsonMap::new();
    assert_eq!(try_parse_schema(&[0], &fields, false, &mut known), None);
    assert_eq!(known, JsonMap::new());
}

#[test]
fn cases_win_over_an_expression() {
    let mut with_cases = field("x", "u8", "1 + 1");
    with_cases.match_cases = Some(entry("3", text("three")));
    let mut cache = JsonMap::new();
    let mut fields = JsonMap::new();
    assert_eq!(
        process_field(&[], &with_cases, false, Number::from_u64(3), 0, &mut cache, &mut fields),
        Ok(0)
    );
    let mut expected = entry("x", integer(3));
    expected.insert("x_matched".to_string(), text("three"));
    assert_eq!(fields, expected);
}

#[test]
fn portable_expressions_come_out_the_same_each_time() {
    let fields = [
        field("a", "u8", "value_int % 7"),
        field("b", "u8", "value_string + value_string"),
        field("c", "u8", "nothing"),
    ];
    let mut first = JsonMap::new();
    let mut second = JsonMap::new();
    assert_eq!(
        parse_schema(&[10, 20, 30], &fields, false, &mut first),
        parse_schema(&[10, 20, 30], &fields, false, &mut second)
    );
    assert_eq!(first, second);
}

#[test]
fn outcomes_are_entered_by_their_kind() {
    for (outcome, value) in [
        (Evaluation::Float(1.5f64.to_bits()), double(1.5)),
        (Evaluation::Float(f64::NEG_INFINITY.to_bits()), Json::Null),
        (Evaluation::Int(-9), integer(-9)),
        (Evaluation::Int(9), integer(9)),
        (Evaluation::Boolean(false), Json::Bool(false)),
        (Evaluation::Other("()".to_string()), text("()")),
    ] {
        let mut cache = JsonMap::new();
        let mut fields = JsonMap::new();
        store_evaluation(&"x".to_string(), outcome, &mut cache, &mut fields);
        assert_eq!(fields, entry("x", value.clone()));
        assert_eq!(cache, entry("x", value));
    }
    let mut cache = entry("x", integer(1));
    let mut fields = JsonMap::new();
    let failure = Evaluation::Failure("no".to_string());
    store_evaluation(&"x".to_string(), failure, &mut cache, &mut fields);
    assert_eq!(fields, entry("x_eval_error", text("eval error: no")));
    assert_eq!(cache, entry("x", integer(1)));
    assert_eq!(evaluation_json(Evaluation::Failure("no".to_string())), Err("no".to_string()));
}

#[test]
fn a_tape_records_whether_all_was_portable() {
    let mut tape = Tape::new();
    let number = Number::from_u64(6);
    assert_eq!(tape.run("value_int + 1", &number), Evaluation::Int(7));
    assert_eq!(tape.run("value_string", &number), Evaluation::Other("\"6\"".to_string()));
    assert!(tape.is_portable());
    assert_eq!(tape.run("2 ^ 2", &number), Evaluation::Float(4f64.to_bits()));
    assert_eq!(tape.run("true", &number), Evaluation::Boolean(true));
    assert!(!tape.is_portable());
}

/// What `evalexpr` makes of an expression without variables, with its own
/// functions.
fn built_in(expression: &str) -> Evaluation {
    match evalexpr::eval(expression) {
        Ok(evalexpr::Value::Float(x)) => Evaluation::Float(x.to_bits()),
        Ok(evalexpr::Value::Int(i)) => Evaluation::Int(i),
        Ok(evalexpr::Value::Boolean(b)) => Evaluation::Boolean(b),
        Ok(other) => Evaluation::Other(other.to_string()),
        Err(failure) => Evaluation::Failure(failure.to_string()),
    }
}

#[test]
fn guards_come_to_the_same_as_the_built_in_functions() {
    for expression in [
        "shl(1, 0)",
        "shl(1, 63)",
        "shl (-5, 2 )",
        "shl(4 / 2, 3)",
        "shl(1, 2, 3)",
        "shl(2)",
        "shl()",
        "shl(true, 2)",
        "shl(1, \"2\")",
        "shl(1.0, 2)",
        "x = (1, 7); shl x",
        "shr(-1, 63)",
        "shr(100, 3)",
        "shr((1, 2), 63)",
        "shr(1, ())",
        "math::abs(-1)",
        "math::abs(7)",
        "math::abs(-2.5)",
        "math::abs(0.0 * -1)",
        "math::abs (3 - 5) >= 2",
        "math::abs(true)",
        "math::abs(\"1\")",
        "math::abs(1, 2)",
        "math::abs()",
        "str::substring(\"hello\", 1)",
        "str::substring(\"hello\", 1, 3)",
        "str::substring(\"hello\", 2, 2)",
        "str::substring(\"hello\", 5)",
        "str::substring(\"hello\", 6)",
        "str::substring(\"hello\", 0, 6)",
        "str::substring(\"hello\", 3, 2)",
        "str::substring(\"hello\", -1)",
        "str::substring(\"hello\", -1, true)",
        "str::substring(\"hello\", 1, true)",
        "str::substring(\"hello\", 1, -1)",
        "str::substring(\"hello\", 1, 2, 3)",
        "str::substring(\"hello\")",
        "str::substring(1, 2)",
        "str::substring(\"\u{e9}t\u{e9} \u{20ac}\u{1f600}!\", 0, 2)",
        "str::substring(\"\u{e9}t\u{e9} \u{20ac}\u{1f600}!\", 3, 9)",
        "str::substring(\"\u{e9}t\u{e9} \u{20ac}\u{1f600}!\", 9)",
        "sh/**/l(1, 4)",
    ] {
        let mut tape = Tape::new();
        let outcome = tape.run(expression, &Number::from_u64(1));
        assert_eq!(outcome, built_in(expression), "{}", expression);
    }
}

#[test]
fn guards_fail_where_the_built_in_functions_panic() {
    for (expression, message) in [
        ("shl(1, 64)", "Error: shift by a number of bits out of range"),
        ("shr(1, 0 - 1)", "Error: shift by a number of bits out of range"),
        ("math::abs(0 - 9223372036854775807 - 1)", "Error: absolute value out of range"),
        (
            "str::substring(\"\u{e9}\", 1)",
            "Tried to access a tuple or string at an invalid index",
        ),
        (
            "str::substring(\"a\u{20ac}\", 1, 3)",
            "Tried to access a tuple or string at an invalid index",
        ),
    ] {
        let mut tape = Tape::new();
        assert_eq!(
            tape.run(expression, &Number::from_u64(1)),
            Evaluation::Failure(message.to_string())
        );
    }
}

#[test]
fn what_the_guards_compute() {
    assert_eq!(shifted(true, -3, 2), Ok(-12));
    assert_eq!(shifted(true, 3, 63), Ok(i64::MIN));
    assert_eq!(shifted(false, -3, 1), Ok(-2));
    assert!(shifted(true, 1, 64).is_err());
    assert!(shifted(false, 1, -1).is_err());
    assert_eq!(absolute(-7), Ok(7));
    assert_eq!(absolute(i64::MAX), Ok(i64::MAX));
    assert!(absolute(i64::MIN).is_err());
    assert_eq!(byte_index(-1), None);
    assert_eq!(byte_index(7), Some(7));
    assert_eq!(absolute_bits((-2.5f64).to_bits()), 2.5f64.to_bits());
    let text = "a\u{e9}\u{20ac}\u{1f600}";
    for start in 0..12 {
        assert_eq!(substring(text, start, None).as_deref(), text.get(start..));
        for end in 0..12 {
            assert_eq!(substring(text, start, Some(end)).as_deref(), text.get(start..end));
        }
    }
}

#[test]
fn guarded_functions_over_the_number() {
    assert_eq!(value_of("u8", &[0xa5], "shr(value_int, 4)"), integer(10));
    assert_eq!(value_of("u8", &[0xa5], "shl(bitand(value_int, 15),3) + 1"), integer(41));
    assert_eq!(value_of("u8", &[1], "shr(shl(value_int, 63), 63)"), integer(-1));
    assert_eq!(value_of("u8", &[5], "shl(1, value_int)"), integer(32));
    assert_eq!(value_of("i16", &[0xfe, 0xff], "math::abs(value_int)"), integer(2));
    assert_eq!(value_of("u8", &[3], "math::abs(value_int - 5)"), integer(2));
    assert_eq!(value_of("u8", &[3], "math::abs(value_int) >= 5"), Json::Bool(false));
    assert_eq!(
        value_of("f32", &(-2.5f32).to_le_bytes(), "math::abs(value_float) + 1"),
        double(3.5)
    );
}

#[test]
fn a_refused_argument_is_a_failure() {
    for expression in ["shl(2)", "math::abs(true)", "shl"] {
        let fields = [field("x", "u8", expression)];
        let mut cache = entry("x", integer(9));
        let failure = evalexpr::eval(expression).unwrap_err();
        assert_eq!(
            parse_schema(&[1], &fields, false, &mut cache),
            Ok((
                Json::Object(entry("x_eval_error", text(&format!("eval error: {}", failure)))),
                8
            ))
        );
        assert_eq!(cache, entry("x", integer(9)));
    }
}

fn is_portable(expression: &str) -> bool {
    is_portable_expression(expression, &Number::from_u64(1))
}

#[test]
fn extremes_of_integers_are_portable() {
    for expression in [
        "max(value_int, 5)",
        "min(value_int - 5, -3 * 2, 7 / 2)",
        "math::abs(max(value_int, 1)) % 3",
        "if(value_int > 3, min(1, 999999999999999999), 0)",
        "str::from(max(1, 2)) + \"nothing\"",
    ] {
        assert!(is_portable(expression), "{}", expression);
    }
    for expression in [
        "max(value_int - 1, 0.5)",
        "max(value_int - 1, 1e5)",
        "max(value_int - 1, 1E5)",
        "max(value_int - 1, 1/**/e5)",
        "max(value_int - 1, NaN)",
        "max(value_int - 1, infinity)",
        "max(value_int - 1, 9999999999999999999)",
        "max(value_int - 1, floor(1))",
        "max(value_int - 1, math::sqrt(4))",
        "max(value_int, 5) + random()",
    ] {
        assert!(!is_portable(expression), "{}", expression);
    }
    assert_eq!(value_of("u8", &[3], "max(value_int, 5)"), integer(5));
    assert_eq!(value_of("u8", &[3], "min(value_int - 5, 7)"), integer(-2));
}

#[test]
fn extremes_without_negative_zeros_are_portable() {
    let bits = |x: f64| Number::from_double_bits(x.to_bits()).unwrap();
    for number in [bits(-1.5), bits(0.0), bits(2.5)] {
        assert!(is_portable_expression("max(value_float, 0.0, 1)", &number));
        assert!(!is_portable_expression("max(value_float * 2, 0.0)", &number));
        assert!(!is_portable_expression("max(ceil(value_float), 0.0)", &number));
    }
    assert!(!is_portable_expression("max(value_float, 0.0)", &bits(-0.0)));
    assert!(is_portable_expression("max(1, 2 * 3)", &bits(-0.0)));
    assert!(!is_portable_expression("max(value_float, 2 * 3)", &bits(-0.0)));
    assert_eq!(
        value_of("f32", &(-1.5f32).to_le_bytes(), "max(value_float, 0.5)"),
        double(0.5)
    );
}

#[test]
fn a_greatest_number_counts_a_loop() {
    let list = Branch {
        name: "l".to_string(),
        field_type: None,
        match_cases: None,
        loop_count: Some(text("n")),
        branches: Some(vec![field("y", "u8", "value_int")]),
        optional: None,
        eval: None,
    };
    let fields = [field("n", "u8", "max(value_int, 1)"), list];
    let mut expected = entry("n", integer(1));
    expected.insert("l".to_string(), Json::Array(vec![Json::Object(entry("y", integer(9)))]));
    let mut cache = JsonMap::new();
    assert_eq!(
        parse_schema(&[0, 9], &fields, false, &mut cache),
        Ok((Json::Object(expected), 16))
    );
}

#[test]
fn names_may_hold_comments() {
    assert_eq!(value_of("u8", &[3], "flo/* cut */or(1.5)"), double(1.0));
    for expression in ["m/**/in(1, 2)", "ma//\nx(1, 2)", "math/**/::exp(1)", "mat/*"] {
        assert!(!is_portable(expression));
    }
    for expression in ["value_int /* half */ / 2", "1 // one", "a/b/c"] {
        assert!(is_portable(expression));
    }
    assert_eq!(value_of("u8", &[8], "value_int /* half */ / 2"), integer(4));
}

#[test]
fn expressions_by_what_they_name() {
    for expression in [
        "1 + 1",
        "floor(1.5)",
        "str::from(1)",
        "math::sqrt(2.0)",
        "math::abs(1)",
        "math::is_nan(1)",
        "math::is_finite(1)",
        "math::is_infinite(1)",
        "math::is_normal(1)",
        "",
    ] {
        assert!(is_portable(expression), "{}", expression);
    }
    for expression in [
        "2 ^ 2",
        "math::ln(1)",
        "math::log(1, 2)",
        "math::log2(1)",
        "math::log10(1)",
        "math::exp(1)",
        "math::exp2(1)",
        "math::pow(1, 2)",
        "math::cos(1)",
        "math::acos(1)",
        "math::cosh(1)",
        "math::acosh(1)",
        "math::sin(1)",
        "math::asin(1)",
        "math::sinh(1)",
        "math::asinh(1)",
        "math::tan(1)",
        "math::atan(1)",
        "math::tanh(1)",
        "math::atanh(1)",
        "math::atan2(1, 2)",
        "math::cbrt(1)",
        "math::hypot(1, 2)",
        "random()",
        "min(1.5, 0 - 2)",
        "max(1.5, 0 - 2)",
    ] {
        assert!(!is_portable(expression), "{}", expression);
    }
    assert_eq!(value_of("u8", &[16], "math::sqrt(value_int)"), double(4.0));
}
