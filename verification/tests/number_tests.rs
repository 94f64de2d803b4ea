use json_parse::number::is_valid_number;

#[test]
fn number_grammar_matches_float_parsing() {
    let cases = [
        "30", "1.0", "-2e10", "1.", ".5", "-.5", "11.3de2", "-inf", "nan", "NaN", "+4", "1e",
        "e5", "--1", "1.2.3", "5E+3", "infinity", "INFINITY", "-Infinity", "0.0e-7", "12321",
        "", "-", "+", ".", "1.e5", "1e+", "007", "2E5", "inf", "in",
    ];
    for c in cases {
        assert_eq!(c.parse::<f64>().is_ok(), is_valid_number(c), "case: {:?}", c);
    }
}

#[test]
fn accepts_exponents_and_signs() {
    assert!(is_valid_number("-12.5e-3"));
    assert!(is_valid_number("+0.5E+2"));
    assert!(!is_valid_number("1e5e5"));
    assert!(!is_valid_number("1 5"));
}
