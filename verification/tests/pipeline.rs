use glass::{from_text, parse, to_text, tokenize, Value};

#[test]
fn lib_parses_simple_example() {
    let input = r#"
            root {
                hello "world",
            },
        "#;

    let tokens = tokenize(input.to_string()).unwrap();
    let ast = parse(tokens).unwrap();

    let expected = Value::Mapping(vec![(
        "root".to_string(),
        Value::Mapping(vec![("hello".to_string(), Value::String("world".to_string()))]),
    )]);

    assert_eq!(ast, expected);
}

#[test]
fn lib_parses_nested_example() {
    let input = r#"
            root {
                hello "world",
                nested {
                    hello "world",
                },
            },
        "#;

    let tokens = tokenize(input.to_string()).unwrap();
    let ast = parse(tokens).unwrap();

    let expected = Value::Mapping(vec![(
        "root".to_string(),
        Value::Mapping(vec![
            ("hello".to_string(), Value::String("world".to_string())),
            (
                "nested".to_string(),
                Value::Mapping(vec![("hello".to_string(), Value::String("world".to_string()))]),
            ),
        ]),
    )]);

    assert_eq!(ast, expected);
}

#[test]
fn lib_parses_array_example() {
    let input = r#"
            root {
                hello ["world", "foo",],
                nested {
                    hello ["world", "foo",],
                },
            },
        "#;

    let tokens = tokenize(input.to_string()).unwrap();
    let ast = parse(tokens).unwrap();

    let expected = Value::Mapping(vec![(
        "root".to_string(),
        Value::Mapping(vec![
            (
                "hello".to_string(),
                Value::Array(vec![
                    Value::String("world".to_string()),
                    Value::String("foo".to_string()),
                ]),
            ),
            (
                "nested".to_string(),
                Value::Mapping(vec![(
                    "hello".to_string(),
                    Value::Array(vec![
                        Value::String("world".to_string()),
                        Value::String("foo".to_string()),
                    ]),
                )]),
            ),
        ]),
    )]);

    assert_eq!(ast, expected);
}

#[test]
fn lib_test_value_roundtrip() {
    let value = Value::Mapping(vec![(
        "test".to_string(),
        Value::Array(vec![Value::String("hello".to_string()), Value::Number("42".to_string())]),
    )]);

    let wrapped = Value::Mapping(vec![("root".to_string(), value.clone())]);

    let serialized = to_text(&wrapped);

    let deserialized: Value = from_text(&serialized).unwrap();
    assert_eq!(wrapped, deserialized);
}
