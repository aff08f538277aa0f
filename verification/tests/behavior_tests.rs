use jsonparse::Number;
use jsonparse::Reader;
use jsonparse::Value;
use jsonparse::eq_value;
use jsonparse::value_string;

fn num(negative: bool, digits: Vec<u8>, exponent: i128) -> Value {
    Value::Number { v: Number { negative, digits, exponent } }
}

fn parse(text: &str) -> Result<Value, jsonparse::ParseError> {
    Reader::new(text).parse()
}

#[test]
fn numbers_with_equal_value_compare_equal() {
    // Written differently, the same number: the parser canonicalizes.
    assert_eq!(parse("0").unwrap(), parse("0.").unwrap());
    assert_eq!(parse("0").unwrap(), parse("-0").unwrap());
    assert_eq!(parse("10").unwrap(), parse("1e1").unwrap());
    assert_eq!(parse("0.1").unwrap(), parse("0.100").unwrap());
    assert_ne!(parse("0.1").unwrap(), parse("0.2").unwrap());
    assert_eq!(parse("2500").unwrap(), num(false, vec![2, 5], 3));
}

#[test]
fn whitespace_around_separators_is_insignificant() {
    let a = parse("[false, true,null]").unwrap();
    let b = parse("[ false , true , null ]").unwrap();
    let c = parse("\n[false,\ttrue,\r\nnull]").unwrap();
    assert_eq!(a, b);
    assert_eq!(a, c);
}

#[test]
fn duplicate_object_key_last_write_wins() {
    let once = parse("{\"a\":false}").unwrap();
    let twice = parse("{\"a\":true,\"a\":false}").unwrap();
    assert_eq!(once, twice);
    let reordered = parse("{\"b\":null,\"a\":true}").unwrap();
    let other = parse("{\"a\":true,\"b\":null}").unwrap();
    assert_eq!(reordered, other);
}

#[test]
fn missing_closing_bracket_reports_position() {
    let e = parse("[true").unwrap_err();
    assert_eq!(e.desc, "array end char expect ']'");
    assert_eq!(e.row, 1);
    assert_eq!(e.column, 2);
}

#[test]
fn missing_closing_brace_reports_position() {
    let e = parse("{\"a\":true").unwrap_err();
    assert_eq!(e.desc, "object end char expect '}'");
    assert_eq!(e.row, 1);
    assert_eq!(e.column, 6);
}

#[test]
fn rows_advance_on_newlines_in_whitespace() {
    let e = parse("\n\n  [").unwrap_err();
    assert_eq!(e.row, 3);
    assert!(e.column >= 3);
}

#[test]
fn literal_mismatch_is_an_error() {
    let e = parse("nul").unwrap_err();
    assert_eq!(e.desc, "literal 'nul' expect 'null'");
    let e2 = parse("nxll").unwrap_err();
    assert_eq!(e2.desc, "literal not eq null");
}

#[test]
fn number_grammar_violation_is_an_error() {
    let e = parse("-x").unwrap_err();
    assert_eq!(e.desc, "number integer expect '0..9'");
    assert_eq!(e.row, 1);
    assert_eq!(e.column, 2);
}

#[test]
fn number_conversion_failure_is_an_error() {
    let e = parse("1e").unwrap_err();
    assert_eq!(e.desc, "'1e' to number invalid float literal error");
    // An exponent sign stops the digit scan, so the token stays invalid.
    assert!(parse("1e+5").is_err());
    assert!(parse("1e-5").is_err());
    assert!(parse("1e5").is_ok());
}

#[test]
fn unterminated_string_is_an_error() {
    let e = parse("\"abc").unwrap_err();
    assert_eq!(e.desc, "string end char expect '\"'");
}

#[test]
fn unsupported_escape_is_an_error() {
    let e = parse("\"a\\qb\"").unwrap_err();
    assert_eq!(e.desc, "string end char expect '\"'");
}

#[test]
fn missing_colon_is_an_error() {
    let e = parse("{\"a\" true}").unwrap_err();
    assert_eq!(e.desc, "member expect ':'");
}

#[test]
fn trailing_input_is_an_error() {
    let e = parse("true x").unwrap_err();
    assert_eq!(e.desc, "value not finished 'x'");
    assert!(parse("true ").is_ok());
}

#[test]
fn equality_is_reflexive_symmetric_transitive() {
    let a = parse("{\"k\":[1,{\"n\":\"v\"},null],\"m\":false}").unwrap();
    let b = parse("{\"m\":false,\"k\":[1.0,{\"n\":\"v\"},null]}").unwrap();
    let c = parse("{ \"k\" : [ 0.1e1 , { \"n\" : \"v\" } , null ] , \"m\" : false }").unwrap();
    assert!(eq_value(&a, &a));
    assert!(eq_value(&a, &b));
    assert!(eq_value(&b, &a));
    assert!(eq_value(&b, &c));
    assert!(eq_value(&a, &c));
    let d = parse("{\"k\":[1,{\"n\":\"w\"},null],\"m\":false}").unwrap();
    assert!(!eq_value(&a, &d));
    assert!(!eq_value(&d, &a));
}

#[test]
fn reader_reuse_parses_the_same_tree() {
    let mut r = Reader::new(" {\"a\": [1, 2]} ");
    let first = r.parse().unwrap();
    let second = r.parse().unwrap();
    assert_eq!(first, second);
    // Errors also come out the same on reuse.
    let mut bad = Reader::new("[true");
    let e1 = bad.parse().unwrap_err();
    let e2 = bad.parse().unwrap_err();
    assert_eq!(e1.row, e2.row);
    assert_eq!(e1.column, e2.column);
    assert_eq!(e1.desc, e2.desc);
}

#[test]
fn nested_document_parses_to_expected_tree() {
    let v = parse("{\"a\":[true,{\"b\":\"x\\ty\"}],\"c\":0}").unwrap();
    let expected = Value::Object {
        v: vec![
            (
                "a".to_string(),
                Value::Array {
                    v: vec![
                        Value::True,
                        Value::Object {
                            v: vec![(
                                "b".to_string(),
                                Value::String {
                                    v: "x\ty".to_string(),
                                },
                            )],
                        },
                    ],
                },
            ),
            ("c".to_string(), num(false, vec![], 0)),
        ],
    };
    assert_eq!(v, expected);
}

#[test]
fn value_string_takes_the_text_out_of_a_string() {
    let v = parse("\"hi\"").unwrap();
    assert_eq!(value_string(v), Some("hi".to_string()));
    assert_eq!(value_string(Value::Null), None);
}

#[test]
fn leading_zeros_join_the_integer_digits() {
    // The scanner takes a lone `0` integer part, then a trailing digit run
    // that still belongs to the integer digits.
    assert_eq!(parse("01").unwrap(), parse("1").unwrap());
    assert_eq!(parse("00").unwrap(), parse("0").unwrap());
}
