use jsonparse::Number;
use jsonparse::Reader;
use jsonparse::Value;
use jsonparse::eq_array;
use jsonparse::eq_number;
use jsonparse::eq_object;
use jsonparse::eq_value;
use jsonparse::value_name;

fn num(negative: bool, digits: Vec<u8>, exponent: i128) -> Value {
    Value::Number { v: Number { negative, digits, exponent } }
}

#[test]
fn test_value_name() {
    assert_eq!(Some("null"), value_name(Value::Null));
    assert_eq!(Some("false"), value_name(Value::False));
    assert_eq!(Some("true"), value_name(Value::True));
    assert_eq!(Some("number"), value_name(num(false, vec![6, 4], 1)));
    assert_eq!(
        Some("string"),
        value_name(Value::String {
            v: String::from("str")
        })
    );
    assert_eq!(
        Some("array"),
        value_name(Value::Array {
            v: vec![Value::Null, Value::False]
        })
    );
    assert_eq!(Some("object"), value_name(Value::Object { v: Vec::new() }));
}

#[test]
fn test_eq() {
    let n = Value::Null;
    assert!(eq_value(&Value::Null, &n));
    assert_eq!(&Value::Null, &n);

    let f = Value::False;
    assert!(eq_value(&Value::False, &f));
    assert_eq!(&Value::False, &f);

    let t = Value::True;
    assert!(eq_value(&Value::True, &t));
    assert_eq!(&Value::True, &t);

    let pi = Number {
        negative: false,
        digits: vec![3, 1, 4, 1, 5, 9],
        exponent: 0,
    };
    let num_v = num(false, vec![3, 1, 4, 1, 5, 9], 0);
    assert!(eq_number(&pi, &num_v));
    assert!(eq_value(&num(false, vec![3, 1, 4, 1, 5, 9], 0), &num_v));
    assert_eq!(&num(false, vec![3, 1, 4, 1, 5, 9], 0), &num_v);

    let arr = Value::Array {
        v: vec![Value::Null, Value::False],
    };
    assert!(eq_array(&vec![Value::Null, Value::False], &arr));
    assert!(eq_value(
        &Value::Array {
            v: vec![Value::Null, Value::False]
        },
        &arr
    ));
    assert_eq!(
        &Value::Array {
            v: vec![Value::Null, Value::False]
        },
        &arr
    );

    let obj = Value::Object { v: Vec::new() };
    assert!(eq_object(&Vec::new(), &obj));
    assert!(eq_value(&Value::Object { v: Vec::new() }, &obj));
    assert_eq!(&Value::Object { v: Vec::new() }, &obj);
}

#[test]
fn test_peek_next() {
    let mut r = Reader::new("{\"n\":1}");
    assert_eq!(Some('{'), r.peek());
    assert_eq!(Some('\"'), r.next());
    assert_eq!(Some('n'), r.next());
    assert_eq!(Some('\"'), r.next());
    assert_eq!(Some(':'), r.next());
    assert_eq!(Some('1'), r.next());
    assert_eq!(Some('}'), r.next());
    assert_eq!(None, r.next());
    assert_eq!(None, r.next());
}

#[test]
fn test_parse_whitespace() {
    let mut r = Reader::new("  {}");
    r.parse_whitespace();
    assert_eq!("{}", r.context());
}

#[test]
fn test_parse_null() {
    let mut r = Reader::new("null");
    assert!(r.parse_literal(Value::Null, "null").is_ok());
    assert!(r.parse().is_ok());
    assert_eq!(r.parse().unwrap(), Value::Null);
}

#[test]
fn test_parse_false() {
    let mut r = Reader::new("false");
    assert!(r.parse_literal(Value::False, "false").is_ok());
    assert!(r.parse().is_ok());
    assert_eq!(r.parse().unwrap(), Value::False);
}

#[test]
fn test_parse_true() {
    let mut r = Reader::new("true");
    let x = r.parse_literal(Value::True, "true");
    assert!(x.is_ok(), "{}", x.unwrap_err().desc);
    assert_eq!(r.parse().unwrap(), Value::True);
}

#[test]
fn test_parse_number() {
    let mut r = Reader::new("0");
    let x = r.parse_number();
    assert!(x.is_ok(), "{}", x.unwrap_err().desc);
    assert_eq!(r.parse().unwrap(), num(false, vec![], 0));

    let mut r1 = Reader::new("-0.1");
    let x1 = r1.parse_number();
    assert!(x1.is_ok(), "{}", x1.unwrap_err().desc);
    assert_eq!(r1.parse().unwrap(), num(true, vec![1], -1));

    let mut r2 = Reader::new("0.");
    let x2 = r2.parse_number();
    assert!(x2.is_ok(), "{}", x2.unwrap_err().desc);
    assert_eq!(r2.parse().unwrap(), num(false, vec![], 0));

    let mut r3 = Reader::new("12345");
    let x3 = r3.parse_number();
    assert!(x3.is_ok(), "{}", x3.unwrap_err().desc);
    assert_eq!(r3.parse().unwrap(), num(false, vec![1, 2, 3, 4, 5], 4));

    let mut r4 = Reader::new("-12345");
    let x4 = r4.parse_number();
    assert!(x4.is_ok(), "{}", x4.unwrap_err().desc);
    assert_eq!(r4.parse().unwrap(), num(true, vec![1, 2, 3, 4, 5], 4));
}

#[test]
fn test_prase_string() {
    let mut r = Reader::new("\"\"");
    let x = r.parse_string();
    assert!(x.is_ok(), "{}", x.unwrap_err().desc);
    assert_eq!(
        x.unwrap(),
        Value::String {
            v: String::from("")
        }
    );

    let mut r1 = Reader::new("\"string\"");
    let x1 = r1.parse_string();
    assert!(x1.is_ok(), "{}", x1.unwrap_err().desc);
    assert_eq!(
        x1.unwrap(),
        Value::String {
            v: String::from("string")
        }
    );

    let mut r2 = Reader::new("\"\\\"\"");
    let x2 = r2.parse_string();
    assert!(x2.is_ok(), "{}", x2.unwrap_err().desc);
    assert_eq!(
        x2.unwrap(),
        Value::String {
            v: String::from("\"")
        }
    );

    let mut r3 = Reader::new("\"\\\"\\\\\\/\\n\\r\\t/\"");
    let x3 = r3.parse_string();
    assert!(x3.is_ok(), "{}", x3.unwrap_err().desc);
    assert_eq!(
        x3.unwrap(),
        Value::String {
            v: String::from("\"\\/\n\r\t/")
        }
    );
}

#[test]
fn test_parse_array() {
    let mut r = Reader::new("[]");
    let x = r.parse_array();
    assert!(x.is_ok(), "{}", x.unwrap_err().desc);
    assert_eq!(x.unwrap(), Value::Array { v: vec![] });

    let mut r1 = Reader::new("[false, true,null]");
    let x1 = r1.parse_array();
    assert!(x1.is_ok(), "{}", x1.unwrap_err().desc);
    assert_eq!(
        x1.unwrap(),
        Value::Array {
            v: vec![Value::False, Value::True, Value::Null]
        }
    );

    let mut r2 = Reader::new("[[false,true, false], [null]]");
    let x2 = r2.parse_array();
    assert!(x2.is_ok(), "{}", x2.unwrap_err().desc);
    assert_eq!(
        x2.unwrap(),
        Value::Array {
            v: vec![
                Value::Array {
                    v: vec![Value::False, Value::True, Value::False]
                },
                Value::Array {
                    v: vec![Value::Null]
                }
            ]
        }
    );
}

#[test]
fn test_parse_object() {
    let mut r = Reader::new("{}");
    let x = r.parse_object();
    assert!(x.is_ok(), "{}", x.unwrap_err().desc);
    assert_eq!(x.unwrap(), Value::Object { v: Vec::new() });

    let mut r1 = Reader::new("{\"hello\":true}");
    let m1 = vec![("hello".to_string(), Value::True)];
    let x1 = r1.parse_object();
    assert!(x1.is_ok(), "{}", x1.unwrap_err().desc);
    assert_eq!(x1.unwrap(), Value::Object { v: m1 });

    let mut r2 = Reader::new("{\"name\":\"zxh\",\"option\":[true,false,3.14159],\"open\":null}");
    let m2 = vec![
        (
            "name".to_string(),
            Value::String {
                v: "zxh".to_string(),
            },
        ),
        ("open".to_string(), Value::Null),
        (
            "option".to_string(),
            Value::Array {
                v: vec![Value::True, Value::False, num(false, vec![3, 1, 4, 1, 5, 9], 0)],
            },
        ),
    ];
    let x2 = r2.parse_object();
    assert!(x2.is_ok(), "{}", x2.unwrap_err().desc);
    assert_eq!(x2.unwrap(), Value::Object { v: m2 });
}
