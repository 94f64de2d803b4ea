use json_parse::errors::{Error, ErrorCode};
use json_parse::parsing::{Parser, Value};

#[test]
fn parsing_pass_single_value_json() {
    assert_eq!(Ok(Value::Null), Parser::parse("null"));
    assert_eq!(Ok(Value::Bool(true)), Parser::parse("true"));
    assert_eq!(Ok(Value::Bool(false)), Parser::parse("false"));
    let number = Parser::parse("12321");
    assert_eq!(Ok(Value::Number("12321".to_string())), number);
    match number {
        Ok(Value::Number(raw)) => assert_eq!(12321.0, raw.parse::<f64>().unwrap()),
        _ => unreachable!(),
    }
    assert_eq!(
        Ok(Value::String(String::from("Hello World"))),
        Parser::parse("\"Hello World\"")
    );
    assert_eq!(Ok(Value::Array(Vec::new())), Parser::parse("[]"));
    assert_eq!(Ok(Value::Object(Vec::new())), Parser::parse("{}"));
}

#[test]
fn pass_valid_array() {
    let json = r#"
            [
                false, "a", 1.0,
                [ false, "a" ],
                null
            ]
        "#;

    assert_eq!(
        Ok(Value::Array(vec![
            Value::Bool(false),
            Value::String("a".to_string()),
            Value::Number("1.0".to_string()),
            Value::Array(vec![Value::Bool(false), Value::String("a".to_string())]),
            Value::Null,
        ])),
        Parser::parse(json)
    );
}

#[test]
fn parsing_fail_missing_comma() {
    assert_eq!(
        Err(vec![Error::new(
            ErrorCode::ExpectedCommaOrEndWhileParsing(']'),
            1,
            11
        )]),
        Parser::parse(r#"[false "a"]"#)
    );
}

#[test]
fn parsing_fail_many_commas() {
    assert_eq!(
        Err(vec![
            Error::new(ErrorCode::ExpectedToken, 1, 2),
            Error::new(ErrorCode::ExpectedToken, 1, 3),
            Error::new(ErrorCode::ExpectedToken, 1, 4)
        ]),
        Parser::parse(r#"[,,]"#)
    );
}

#[test]
fn parsing_fail_unclosed_array() {
    assert_eq!(
        Err(vec![Error::new(ErrorCode::EndOfFileWhileParsing(']'), 1, 6)]),
        Parser::parse("[true")
    );
}

#[test]
fn parsing_fail_trailing_comma_array() {
    assert_eq!(
        Err(vec![Error::new(ErrorCode::EndOfFileWhileParsing(']'), 1, 6)]),
        Parser::parse("[true,")
    );
}

#[test]
fn parsing_fail_more_than_one_json_value() {
    assert_eq!(
        Err(vec![Error::new(ErrorCode::EndOfFileExpected, 1, 5)]),
        Parser::parse("null null")
    )
}

#[test]
fn fail_unopened_object() {
    assert_eq!(
        Err(vec![
            Error::new(ErrorCode::ExpectedToken, 1, 9),
            Error::new(ErrorCode::ExpectedCommaOrEndWhileParsing(']'), 1, 10),
        ]),
        Parser::parse("[false, }]")
    )
}

#[test]
fn parsing_include_elements_errors() {
    assert_eq!(
        Err(vec![
            Error::new(ErrorCode::ExpectedToken, 1, 4),
            Error::new(ErrorCode::ExpectedToken, 1, 14),
        ]),
        Parser::parse("[[ , false], ]")
    )
}

#[test]
fn parsing_fail_on_no_key() {
    assert_eq!(
        Err(vec![Error::new(ErrorCode::KeyMustBeAString, 1, 3)]),
        Parser::parse(r#"{ : true}"#)
    )
}

#[test]
fn parsing_fail_on_no_semi_colon() {
    assert_eq!(
        Err(vec![Error::new(ErrorCode::ExpectedColon, 1, 2)]),
        Parser::parse(r#"{"a"}"#)
    )
}

#[test]
fn parsing_fail_on_multiple_quotes_in_one_token() {
    let json = r#"
            "d"fds"potato"
        "#;
    let expected = vec![Error::new(ErrorCode::ExpectedDoubleQuote, 2, 13)];
    assert_eq!(Err(expected), Parser::parse(json));
}

#[test]
fn fail_on_unmatched_quotation() {
    let json = r#""fds"#;
    let expected = vec![Error::new(ErrorCode::ExpectedDoubleQuote, 1, 1)];
    assert_eq!(Err(expected), Parser::parse(json));
}

#[test]
fn fail_on_invalid_number() {
    let json = r#"11.3de2"#;
    let expected = vec![Error::new(ErrorCode::InvalidNumber, 1, 1)];
    assert_eq!(Err(expected), Parser::parse(json));
}

#[test]
fn parsing_pass_valid_object() {
    let json = r#"
            {
                "a": null,
                "b": [
                    null,
                    {}
                ]
            }
        "#;
    let obj = Value::Object(vec![
        ("a".to_string(), Value::Null),
        (
            "b".to_string(),
            Value::Array(vec![Value::Null, Value::Object(Vec::new())]),
        ),
    ]);
    assert_eq!(Ok(obj), Parser::parse(json))
}

#[test]
fn nested_object_members() {
    let json = "{ \"a\": null, \"b\": { \"c\": null } }";
    let expected = Value::Object(vec![
        ("a".to_string(), Value::Null),
        (
            "b".to_string(),
            Value::Object(vec![("c".to_string(), Value::Null)]),
        ),
    ]);
    assert_eq!(Ok(expected), Parser::parse(json));
}

#[test]
fn empty_input_reports_end_of_file_while_parsing_value() {
    assert_eq!(
        Err(vec![Error::new(ErrorCode::EndOfFileWhileParsingValue, 1, 1)]),
        Parser::parse("")
    );
}

#[test]
fn parse_twice_yields_identical_diagnostics() {
    let json = "[true, {\"a\" null}, \"x";
    let first = Parser::parse(json);
    let second = Parser::parse(json);
    assert_eq!(first, second);
    assert!(first.is_err());
}

#[test]
fn object_member_without_space_after_colon() {
    let json = "{\"a\":null}";
    let expected = Value::Object(vec![("a".to_string(), Value::Null)]);
    assert_eq!(Ok(expected), Parser::parse(json));
}

#[test]
fn stray_colon_where_a_value_should_stand() {
    assert_eq!(
        Err(vec![Error::new(ErrorCode::ExpectedToken, 1, 1)]),
        Parser::parse(":")
    );
}

#[test]
fn error_codes_have_messages() {
    assert_eq!("Expected ':'", ErrorCode::ExpectedColon.message());
    assert_eq!(
        "Expected ',' or ']' while parsing array",
        ErrorCode::ExpectedCommaOrEndWhileParsing(']').message()
    );
    assert_eq!(
        "End of file while parsing an object",
        ErrorCode::EndOfFileWhileParsing('}').message()
    );
    assert_eq!("Invalid number", ErrorCode::InvalidNumber.message());
}

#[test]
fn eof_inside_open_array() {
    assert_eq!(
        Err(vec![
            Error::new(ErrorCode::EndOfFileWhileParsingValue, 1, 3),
            Error::new(ErrorCode::EndOfFileWhileParsing(']'), 1, 3),
        ]),
        Parser::parse("[ ")
    );
}

#[test]
fn eof_after_open_brace() {
    assert_eq!(
        Err(vec![Error::new(ErrorCode::EndOfFileWhileParsing('}'), 1, 2)]),
        Parser::parse("{")
    );
}

#[test]
fn stray_colon_inside_array() {
    assert_eq!(
        Err(vec![
            Error::new(ErrorCode::ExpectedToken, 1, 2),
            Error::new(ErrorCode::ExpectedToken, 1, 3),
        ]),
        Parser::parse("[:]")
    );
}

#[test]
fn duplicate_keys_last_occurrence_wins() {
    let json = "{ \"a\": true, \"a\": null }";
    let expected = Value::Object(vec![("a".to_string(), Value::Null)]);
    assert_eq!(Ok(expected), Parser::parse(json));
}
