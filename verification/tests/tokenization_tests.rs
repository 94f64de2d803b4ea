use json_parse::lexical_tokenization::tokenize_into_strings;

#[test]
fn space_separated_garbage_should_be_separated() {
    let json = "this is garbage";
    assert_eq!(vec!["this", "is", "garbage"], tokenize_into_strings(json));
}

#[test]
fn space_in_string() {
    let json = "\"fjdsoif fds\"";
    assert_eq!(vec!["\"fjdsoif fds\""], tokenize_into_strings(json));
}

#[test]
fn separate_on_punctuation() {
    let json = r#"{"age":30,"is_student":[false]}"#;
    let expected = vec![
        "{",
        "\"age\"",
        ":",
        "30",
        ",",
        "\"is_student\"",
        ":",
        "[",
        "false",
        "]",
        "}",
    ];
    assert_eq!(expected, tokenize_into_strings(json));
}

#[test]
fn in_string_whitespace_becomes_spaces() {
    let json = "\"a\tb\"";
    assert_eq!(vec!["\"a b\""], tokenize_into_strings(json));
}
