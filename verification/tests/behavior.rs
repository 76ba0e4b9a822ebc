use glass::{
    array_items, bool_value, char_value, enum_access, from_text, mapping_entries, number_text,
    string_value, to_text, tokenize, unwrap_root, EnumBinding, Error, LexError, ParseError, Token,
    Value, ValueMap, ValueSeq,
};

fn sample_document() -> Value {
    Value::Mapping(vec![(
        "root".to_string(),
        Value::Mapping(vec![
            ("name".to_string(), Value::String("ship \"A\"\n".to_string())),
            ("size".to_string(), Value::Number("-12.5".to_string())),
            ("armed".to_string(), Value::Bool(false)),
            (
                "crew".to_string(),
                Value::Array(vec![
                    Value::Number("3".to_string()),
                    Value::Mapping(vec![("rank".to_string(), Value::String("cap".to_string()))]),
                    Value::Array(vec![]),
                ]),
            ),
            ("gear".to_string(), Value::Mapping(vec![])),
        ]),
    )])
}

#[test]
fn round_trip_preserves_nested_document() {
    let doc = sample_document();
    let text = to_text(&doc);
    let back = from_text(&text).unwrap();
    assert_eq!(back, doc);
}

#[test]
fn rendering_emits_one_root_wrapper_with_indentation() {
    let doc = Value::Mapping(vec![(
        "root".to_string(),
        Value::Mapping(vec![
            ("hello".to_string(), Value::String("world".to_string())),
            (
                "inner".to_string(),
                Value::Mapping(vec![("n".to_string(), Value::Number("7".to_string()))]),
            ),
        ]),
    )]);
    let text = to_text(&doc);
    let expected = "root {\n    hello \"world\",\n    inner {\n        n 7,\n    },\n},\n";
    assert_eq!(text, expected);
}

#[test]
fn rendering_escapes_specials_and_decoding_restores_them() {
    let doc = Value::Mapping(vec![(
        "root".to_string(),
        Value::Mapping(vec![(
            "s".to_string(),
            Value::String("a\"b\\c\nd\te\rf".to_string()),
        )]),
    )]);
    let text = to_text(&doc);
    assert!(text.contains("\"a\\\"b\\\\c\\nd\\te\\rf\""));
    let back = from_text(&text).unwrap();
    assert_eq!(back, doc);
}

#[test]
fn trailing_comma_is_mandatory() {
    assert!(from_text("root { hello \"world\" },").is_err());
    assert!(from_text("root { hello \"world\", },").is_ok());
}

#[test]
fn document_comma_is_mandatory() {
    assert!(from_text("root { hello \"world\", }").is_err());
}

#[test]
fn non_root_top_level_is_invalid_root() {
    let r = from_text("notroot { x 1, },");
    assert!(matches!(r, Err(Error::ParseError(ParseError::InvalidRoot))));
}

#[test]
fn empty_document_parses() {
    let ast = from_text("root {},").unwrap();
    let expected =
        Value::Mapping(vec![("root".to_string(), Value::Mapping(vec![]))]);
    assert_eq!(ast, expected);
}

#[test]
fn unexpected_character_is_reported() {
    let r = tokenize("root { a 1, } @".to_string());
    assert!(matches!(r, Err(LexError::UnexpectedChar('@'))));
}

#[test]
fn unclosed_string_is_reported() {
    let r = tokenize("root { a \"oops".to_string());
    assert_eq!(r.unwrap_err(), LexError::UnclosedString);
    let r2 = tokenize("\"ends with backslash \\".to_string());
    assert_eq!(r2.unwrap_err(), LexError::UnclosedString);
}

#[test]
fn invalid_escape_is_reported() {
    let r = tokenize("root { a \"\\q\", },".to_string());
    assert_eq!(r.unwrap_err(), LexError::InvalidEscapeSequence);
}

#[test]
fn unexpected_end_of_input_is_reported() {
    let r = from_text("root {");
    assert!(matches!(r, Err(Error::ParseError(ParseError::UnexpectedEof))));
    let r2 = from_text("root { xs [1,");
    assert!(matches!(r2, Err(Error::ParseError(ParseError::UnexpectedEof))));
}

#[test]
fn unexpected_token_carries_the_offender() {
    let r = from_text("root { hello \"world\" },");
    match r {
        Err(Error::ParseError(ParseError::UnexpectedToken(Token::CloseCurly))) => {}
        other => panic!("unexpected outcome: {:?}", other),
    }
}

#[test]
fn tokenizer_keeps_raw_number_text() {
    let tokens = tokenize("12. -0.50 007".to_string()).unwrap();
    let texts: Vec<String> = tokens.iter().map(|t| t.to_text()).collect();
    assert_eq!(texts, vec!["12.", "-0.50", "007"]);
    assert!(matches!(&tokens[0], Token::Number(s) if s == "12."));
}

#[test]
fn keywords_become_boolean_tokens() {
    let tokens = tokenize("true false truest".to_string()).unwrap();
    assert!(matches!(tokens[0], Token::True));
    assert!(matches!(tokens[1], Token::False));
    assert!(matches!(&tokens[2], Token::Key(k) if k == "truest"));
}

#[test]
fn unwrap_root_peels_every_wrapper() {
    let inner = Value::Bool(true);
    let once = Value::Mapping(vec![("root".to_string(), inner.clone())]);
    let twice = Value::Mapping(vec![("root".to_string(), once.clone())]);
    assert_eq!(unwrap_root(twice), inner);
    let not_root = Value::Mapping(vec![("other".to_string(), Value::Bool(false))]);
    assert_eq!(unwrap_root(not_root.clone()), not_root);
}

#[test]
fn mapping_request_unwraps_the_named_root() {
    let doc = from_text("root { a 1, },").unwrap();
    let entries = mapping_entries(doc).unwrap();
    assert_eq!(entries.len(), 1);
    assert_eq!(entries[0].0, "a");
    assert_eq!(entries[0].1, Value::Number("1".to_string()));
    assert!(mapping_entries(Value::Bool(true)).is_err());
}

#[test]
fn primitive_requests_check_the_shape() {
    assert_eq!(bool_value(&Value::Bool(true)).unwrap(), true);
    assert!(bool_value(&Value::Number("3".to_string())).is_err());
    assert_eq!(number_text(&Value::Number("2.5".to_string())).unwrap(), "2.5");
    assert!(number_text(&Value::Bool(false)).is_err());
    assert_eq!(string_value(Value::String("hi".to_string())).unwrap(), "hi");
    assert!(string_value(Value::Number("1".to_string())).is_err());
    let items = array_items(Value::Array(vec![Value::Bool(true)])).unwrap();
    assert_eq!(items.len(), 1);
    assert!(array_items(Value::Bool(true)).is_err());
}

#[test]
fn char_request_needs_exactly_one_character() {
    assert_eq!(char_value(&Value::String("x".to_string())).unwrap(), 'x');
    assert!(char_value(&Value::String("xy".to_string())).is_err());
    assert!(char_value(&Value::String(String::new())).is_err());
    assert!(char_value(&Value::Bool(true)).is_err());
}

#[test]
fn enum_request_reads_tagged_and_unit_forms() {
    let tagged = Value::Mapping(vec![(
        "VariantName".to_string(),
        Value::Number("7".to_string()),
    )]);
    match enum_access(tagged).unwrap() {
        EnumBinding::Tagged(name, payload) => {
            assert_eq!(name, "VariantName");
            assert_eq!(payload, Value::Number("7".to_string()));
        }
        other => panic!("unexpected binding: {:?}", other),
    }
    match enum_access(Value::String("Quit".to_string())).unwrap() {
        EnumBinding::Unit(name) => assert_eq!(name, "Quit"),
        other => panic!("unexpected binding: {:?}", other),
    }
    let two = Value::Mapping(vec![
        ("a".to_string(), Value::Bool(true)),
        ("b".to_string(), Value::Bool(false)),
    ]);
    assert!(enum_access(two).is_err());
    assert!(enum_access(Value::Bool(true)).is_err());
}

#[test]
fn sequence_cursor_walks_in_order() {
    let mut cursor = ValueSeq::new(vec![
        Value::Number("1".to_string()),
        Value::Number("2".to_string()),
    ]);
    assert_eq!(cursor.next().unwrap(), Value::Number("1".to_string()));
    assert_eq!(cursor.next().unwrap(), Value::Number("2".to_string()));
    assert!(cursor.next().is_none());
}

#[test]
fn map_cursor_interleaves_keys_and_values() {
    let mut cursor = ValueMap::new(vec![
        ("a".to_string(), Value::Bool(true)),
        ("b".to_string(), Value::Bool(false)),
    ]);
    assert_eq!(cursor.next_key().unwrap(), "a");
    assert_eq!(cursor.next_value().unwrap(), Value::Bool(true));
    assert_eq!(cursor.next_key().unwrap(), "b");
    assert_eq!(cursor.next_value().unwrap(), Value::Bool(false));
    assert!(cursor.next_key().is_none());
    assert!(cursor.next_value().is_err());
}

#[test]
fn duplicate_keys_are_kept_in_order() {
    let ast = from_text("root { k 1, k 2, },").unwrap();
    let expected = Value::Mapping(vec![(
        "root".to_string(),
        Value::Mapping(vec![
            ("k".to_string(), Value::Number("1".to_string())),
            ("k".to_string(), Value::Number("2".to_string())),
        ]),
    )]);
    assert_eq!(ast, expected);
}

#[test]
fn text_after_the_final_comma_is_ignored() {
    let ast = from_text("root { a true, }, trailing { b 1, },").unwrap();
    let expected = Value::Mapping(vec![(
        "root".to_string(),
        Value::Mapping(vec![("a".to_string(), Value::Bool(true))]),
    )]);
    assert_eq!(ast, expected);
}

#[test]
fn serializer_writes_decimal_integers() {
    let mut ser = glass::Serializer::new();
    ser.write_i64(-42);
    ser.write_raw(" ");
    ser.write_u64(0);
    ser.write_raw(" ");
    ser.write_u64(18446744073709551615);
    ser.write_raw(" ");
    ser.write_i64(i64::MIN);
    assert_eq!(ser.finish(), "-42 0 18446744073709551615 -9223372036854775808");
}

#[test]
fn serializer_building_blocks_compose() {
    let mut ser = glass::Serializer::new();
    ser.begin_struct();
    ser.write_key("on");
    ser.write_bool(true);
    ser.write_raw(",\n");
    ser.end_struct();
    assert_eq!(ser.finish(), "root {\n    on true,\n},\n");
}

#[test]
fn end_of_input_where_a_token_was_expected_is_unexpected_eof() {
    let cases = [
        "",
        "root",
        "root {",
        "root { a ",
        "root { a 1",
        "root { xs [",
        "root { xs [1",
        "root { a 1, }",
    ];
    for input in cases {
        let r = from_text(input);
        assert!(
            matches!(r, Err(Error::ParseError(ParseError::UnexpectedEof))),
            "input {:?} gave {:?}",
            input,
            r
        );
    }
}

#[test]
fn empty_token_sequence_is_unexpected_eof() {
    let r = glass::parse(vec![]);
    assert!(matches!(r, Err(ParseError::UnexpectedEof)));
}
