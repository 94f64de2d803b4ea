use json_parse::errors::{Error, ErrorCode};
use json_parse::lexical::{tokenize_into_strings, Reader, Token};

#[test]
fn pass_json() {
    let json = r#"{ "age" : 30 , "is_student" : [false] }"#;
    let mut reader = Reader::new(json);

    assert_eq!(
        vec![Ok(Token::Punctuation('{')), Ok(Token::Whitespace(1))],
        reader.peek(2)
    );

    assert_eq!(
        vec![Ok(Token::Punctuation('{')), Ok(Token::Whitespace(1))],
        reader.next(2)
    );

    assert_eq!(
        vec![
            Ok(Token::String("\"age\"".to_string())),
            Ok(Token::Whitespace(1)),
            Ok(Token::Punctuation(':')),
            Ok(Token::Whitespace(1)),
            Ok(Token::Number("30".to_string())),
            Ok(Token::Whitespace(1)),
            Ok(Token::Punctuation(',')),
            Ok(Token::Whitespace(1)),
            Ok(Token::String("\"is_student\"".to_string())),
            Ok(Token::Whitespace(1)),
            Ok(Token::Punctuation(':'))
        ],
        reader.next(11)
    );

    assert_eq!(
        vec![
            Ok(Token::Whitespace(1)),
            Ok(Token::Punctuation('[')),
            Ok(Token::Bool(false)),
            Ok(Token::Punctuation(']')),
            Ok(Token::Whitespace(1)),
            Ok(Token::Punctuation('}'))
        ],
        reader.next(11)
    );
}

#[test]
fn pass_single_token() {
    let mut reader = Reader::new(r#""}, \n ""#);

    assert_eq!(
        vec![Ok(Token::String(r#""}, \n ""#.to_string()))],
        reader.next(1)
    );
}

#[test]
fn pass_invalid_json() {
    let mut reader = Reader::new(r#"[,,]"#);
    assert_eq!(vec![Ok(Token::Punctuation('['))], reader.peek(1));
    assert_eq!(vec![Ok(Token::Punctuation('['))], reader.next(1));
    assert_eq!(vec![Ok(Token::Punctuation(','))], reader.next(1));
    assert_eq!(vec![Ok(Token::Punctuation(','))], reader.next(1));
    assert_eq!(vec![Ok(Token::Punctuation(']'))], reader.next(1));
    assert_eq!(Vec::<Result<Token, Error>>::new(), reader.next(1));
}

#[test]
fn reader_reports_lexical_failures_in_place() {
    let mut reader = Reader::new("null garbage");
    assert_eq!(vec![Ok(Token::Null)], reader.next(1));
    assert_eq!(vec![Ok(Token::Whitespace(1))], reader.next(1));
    assert_eq!(
        vec![Err(Error::new(ErrorCode::ExpectedToken, 1, 6))],
        reader.next(1)
    );
}

#[test]
fn reader_create_error_uses_the_position_of_the_next_unit() {
    let mut reader = Reader::new("null\ntrue");
    let _ = reader.next(2);
    assert_eq!(
        Error::new(ErrorCode::EndOfFileExpected, 2, 1),
        reader.create_error(ErrorCode::EndOfFileExpected)
    );
}

#[test]
fn lexical_fail_space_separated_garbage() {
    let json = "this is garbage";
    assert_eq!(
        vec!["this", " ", "is", " ", "garbage"],
        tokenize_into_strings(json)
    );
}

#[test]
fn lexical_fail_on_multiple_quotes_in_one_token() {
    let json = r#"
                "d"fds"potato"
            "#;
    let expected = vec![
        "\n",
        "                ",
        "\"d\"fds\"potato\"",
        "\n",
        "            ",
    ];
    assert_eq!(expected, tokenize_into_strings(json));
}

#[test]
fn lexical_pass_space_in_string() {
    let json = "\" fjdsoif fds\" fd";
    assert_eq!(
        vec!["\" fjdsoif fds\"", " ", "fd"],
        tokenize_into_strings(json)
    );
}

#[test]
fn should_separate_on_punctuation() {
    let json = r#"{"age":30,"is_student":[false]}"#;
    let expected = vec![
        "{",
        "\"age\"",
        ":",
        "30",
        ",",
        "\"is_student\"",
        ":",
        "[",
        "false",
        "]",
        "}",
    ];
    assert_eq!(expected, tokenize_into_strings(json));
}

#[test]
fn token_fail_space_separated_garbage() {
    let expected = vec![
        Error::new(ErrorCode::ExpectedToken, 1, 1),
        Error::new(ErrorCode::ExpectedToken, 1, 6),
    ];
    let json = "this garbage";
    assert_eq!(Err(expected), Token::try_from_json(json));
}

#[test]
fn token_pass_space_in_string() {
    let json = "\"fjdsoif fds\"";
    assert_eq!(
        Ok(vec![Token::String("\"fjdsoif fds\"".to_string())]),
        Token::try_from_json(json)
    );
}

#[test]
fn should_tokenize_on_punctuation() {
    let json = r#" {"age":30,"is_student":[false]}"#;
    let expected = vec![
        Token::Whitespace(1),
        Token::Punctuation('{'),
        Token::String("\"age\"".into()),
        Token::Punctuation(':'),
        Token::Number("30".into()),
        Token::Punctuation(','),
        Token::String("\"is_student\"".into()),
        Token::Punctuation(':'),
        Token::Punctuation('['),
        Token::Bool(false),
        Token::Punctuation(']'),
        Token::Punctuation('}'),
    ];
    assert_eq!(Ok(expected), Token::try_from_json(json));
}

#[test]
fn token_lengths_match_their_units() {
    assert_eq!(4, Token::Null.len());
    assert_eq!(4, Token::Bool(true).len());
    assert_eq!(5, Token::Bool(false).len());
    assert_eq!(1, Token::NewLine.len());
    assert_eq!(3, Token::Whitespace(3).len());
    assert_eq!(1, Token::Punctuation('{').len());
    assert_eq!(5, Token::String("\"abc\"".to_string()).len());
    assert_eq!(2, Token::Number("30".to_string()).len());
    assert!(Token::NewLine.is_whitespace());
    assert!(Token::Whitespace(2).is_whitespace());
    assert!(!Token::Null.is_whitespace());
}

#[test]
fn carriage_return_is_a_lexical_failure() {
    let json = "null\rnull";
    assert_eq!(
        Err(vec![Error::new(ErrorCode::ExpectedToken, 1, 5)]),
        Token::try_from_json(json)
    );
}
