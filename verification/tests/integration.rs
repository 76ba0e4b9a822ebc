use glass::{from_text, to_text, Value};

#[test]
fn integration_parses_simple_example() {
    let input = r#"
        root {
            hello "world",
        },
    "#;

    let ast: Value = from_text(input).unwrap();

    let expected = Value::Mapping(vec![(
        "root".to_string(),
        Value::Mapping(vec![("hello".to_string(), Value::String("world".to_string()))]),
    )]);

    assert_eq!(ast, expected);
}

#[test]
fn integration_parses_nested_example() {
    let input = r#"
        root {
            hello "world",
            nested {
                hello "world",
            },
        },
    "#;

    let ast: Value = from_text(input).unwrap();

    let expected = Value::Mapping(vec![(
        "root".to_string(),
        Value::Mapping(vec![
            ("hello".to_string(), Value::String("world".to_string())),
            (
                "nested".to_string(),
                Value::Mapping(vec![("hello".to_string(), Value::String("world".to_string()))]),
            ),
        ]),
    )]);

    assert_eq!(ast, expected);
}

#[test]
fn integration_parses_array_example() {
    let input = r#"
        root {
            hello ["world", "foo",],
            nested {
                hello ["world", "foo",],
            },
        },
    "#;

    let ast: Value = from_text(input).unwrap();

    let expected = Value::Mapping(vec![(
        "root".to_string(),
        Value::Mapping(vec![
            (
                "hello".to_string(),
                Value::Array(vec![
                    Value::String("world".to_string()),
                    Value::String("foo".to_string()),
                ]),
            ),
            (
                "nested".to_string(),
                Value::Mapping(vec![(
                    "hello".to_string(),
                    Value::Array(vec![
                        Value::String("world".to_string()),
                        Value::String("foo".to_string()),
                    ]),
                )]),
            ),
        ]),
    )]);

    assert_eq!(ast, expected);
}

#[test]
fn parses_booleans() {
    let input = r#"
        root {
            is_true true,
            is_false false,
        },
    "#;

    let ast: Value = from_text(input).unwrap();

    let expected = Value::Mapping(vec![(
        "root".to_string(),
        Value::Mapping(vec![
            ("is_true".to_string(), Value::Bool(true)),
            ("is_false".to_string(), Value::Bool(false)),
        ]),
    )]);

    assert_eq!(ast, expected);
}

#[test]
fn parses_numbers() {
    let input = r#"
        root {
            integer 123,
            negative -456,
            float 12.34,
            negative_float -56.78,
        },
    "#;

    let ast: Value = from_text(input).unwrap();

    let expected = Value::Mapping(vec![(
        "root".to_string(),
        Value::Mapping(vec![
            ("integer".to_string(), Value::Number("123".to_string())),
            ("negative".to_string(), Value::Number("-456".to_string())),
            ("float".to_string(), Value::Number("12.34".to_string())),
            ("negative_float".to_string(), Value::Number("-56.78".to_string())),
        ]),
    )]);

    assert_eq!(ast, expected);
}

#[test]
fn parses_escaped_strings() {
    let input = r#"
        root {
            escaped "line1\nline2",
            quoted "\"quoted\"",
            backslash "\\",
        },
    "#;

    let ast: Value = from_text(input).unwrap();

    let expected = Value::Mapping(vec![(
        "root".to_string(),
        Value::Mapping(vec![
            ("escaped".to_string(), Value::String("line1\nline2".to_string())),
            ("quoted".to_string(), Value::String("\"quoted\"".to_string())),
            ("backslash".to_string(), Value::String("\\".to_string())),
        ]),
    )]);

    assert_eq!(ast, expected);
}

#[test]
fn parses_hex_escape_sequences() {
    let input = r#"
        root {
            hex_lower "\x41\x42\x43",
            hex_upper "\x7a\x78\x79",
            hex_mixed "A\x30\x31\x32Z",
            hex_nul "\x00",
        },
    "#;

    let ast: Value = from_text(input).unwrap();

    let expected = Value::Mapping(vec![(
        "root".to_string(),
        Value::Mapping(vec![
            ("hex_lower".to_string(), Value::String("ABC".to_string())),
            ("hex_upper".to_string(), Value::String("zxy".to_string())),
            ("hex_mixed".to_string(), Value::String("A012Z".to_string())),
            ("hex_nul".to_string(), Value::String("\0".to_string())),
        ]),
    )]);

    assert_eq!(ast, expected);
}

#[test]
fn hex_escape_mixed_with_other_escapes() {
    let input = r#"
        root {
            mixed "hello\x41world\n",
        },
    "#;

    let ast: Value = from_text(input).unwrap();

    let expected = Value::Mapping(vec![(
        "root".to_string(),
        Value::Mapping(vec![("mixed".to_string(), Value::String("helloAworld\n".to_string()))]),
    )]);

    assert_eq!(ast, expected);
}

#[test]
fn invalid_hex_escape_missing_chars() {
    let input = r#"
        root {
            bad "\x",
        },
    "#;

    let result: Result<Value, _> = from_text(input);
    assert!(result.is_err());
}

#[test]
fn invalid_hex_escape_single_char() {
    let input = r#"
        root {
            bad "\x4",
        },
    "#;

    let result: Result<Value, _> = from_text(input);
    assert!(result.is_err());
}

#[test]
fn invalid_hex_escape_non_hex_chars() {
    let input = r#"
        root {
            bad "\xGG",
        },
    "#;

    let result: Result<Value, _> = from_text(input);
    assert!(result.is_err());
}

#[test]
fn invalid_hex_escape_partial_hex() {
    let input = r#"
        root {
            bad "\x1G",
        },
    "#;

    let result: Result<Value, _> = from_text(input);
    assert!(result.is_err());
}

#[test]
fn parses_empty_collections() {
    let input = r#"
        root {
            empty_map {},
            empty_array [],
        },
    "#;

    let ast: Value = from_text(input).unwrap();

    let expected = Value::Mapping(vec![(
        "root".to_string(),
        Value::Mapping(vec![
            ("empty_map".to_string(), Value::Mapping(vec![])),
            ("empty_array".to_string(), Value::Array(vec![])),
        ]),
    )]);

    assert_eq!(ast, expected);
}

#[test]
fn parses_mixed_array() {
    let input = r#"
        root {
            mixed [1, "two", true, [], {},],
        },
    "#;

    let ast: Value = from_text(input).unwrap();

    let expected = Value::Mapping(vec![(
        "root".to_string(),
        Value::Mapping(vec![(
            "mixed".to_string(),
            Value::Array(vec![
                Value::Number("1".to_string()),
                Value::String("two".to_string()),
                Value::Bool(true),
                Value::Array(vec![]),
                Value::Mapping(vec![]),
            ]),
        )]),
    )]);

    assert_eq!(ast, expected);
}

#[test]
fn integration_test_value_roundtrip() {
    let value = Value::Mapping(vec![(
        "test".to_string(),
        Value::Array(vec![Value::String("hello".to_string()), Value::Number("42".to_string())]),
    )]);

    let wrapped = Value::Mapping(vec![("root".to_string(), value.clone())]);

    let serialized = to_text(&wrapped);

    let deserialized: Value = from_text(&serialized).unwrap();
    assert_eq!(wrapped, deserialized);
}
