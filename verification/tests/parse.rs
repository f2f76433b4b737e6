use indexmap::IndexMap;
use rj::number::Number;
use rj::parse::Error;
use rj::value::{ObjectMap, Value};

/// The double that a number literal denotes.
fn double(n: &Number) -> f64 {
    let text = n.literal();
    if n.is_negative() {
        text[1..].parse::<f64>().unwrap() * -1.0
    } else {
        text.parse::<f64>().unwrap()
    }
}

/// A value tree with its numbers as doubles.
#[derive(Debug, PartialEq)]
enum Tree {
    String(String),
    Number(f64),
    Boolean(bool),
    Null,
    Object(IndexMap<String, Tree>),
    Array(Vec<Tree>),
}

fn tree(value: &Value) -> Tree {
    match value {
        Value::String(s) => Tree::String(s.clone()),
        Value::Number(n) => Tree::Number(double(n)),
        Value::Boolean(b) => Tree::Boolean(*b),
        Value::Null => Tree::Null,
        Value::Object(map) => {
            let mut members = IndexMap::new();
            for i in 0..map.len() {
                let (key, member) = map.get_index(i).unwrap();
                members.insert(key.clone(), tree(member));
            }
            Tree::Object(members)
        }
        Value::Array(items) => Tree::Array(items.iter().map(tree).collect()),
    }
}

/// The tree of a text that is known to be JSON.
fn lit(text: &str) -> Tree {
    tree(&Value::from_literal(text))
}

fn object_of(pairs: Vec<(&str, Value)>) -> Value {
    let mut map = ObjectMap::new();
    for (key, value) in pairs {
        map.insert(key.to_string(), value);
    }
    Value::Object(map)
}

#[test]
fn parse_empty_object() {
    let json = "{}";
    let parsed = rj::parse(json).unwrap();
    match parsed {
        Value::Object(obj) => {
            assert!(obj.is_empty());
        }
        _ => panic!("Expected an object, got {:?}", parsed),
    }
}

#[test]
fn parse_object_with_whitespace() {
    let json = "{   }";
    let parsed = rj::parse(json).unwrap();
    match parsed {
        Value::Object(obj) => {
            assert!(obj.is_empty());
        }
        _ => panic!("Expected an object, got {:?}", parsed),
    }
}

#[test]
fn parse_simple_string() {
    let json = r#""hello""#;
    let parsed = rj::parse(json).unwrap();
    match parsed {
        Value::String(s) => {
            assert_eq!(s, "hello");
        }
        _ => panic!("Expected a string, got {:?}", parsed),
    }
}

#[test]
fn parse_string_with_escapes() {
    let json = r#""hello \"world\"\\\/\b\f\n\r\t\u0041""#;
    let parsed = rj::parse(json).unwrap();
    match parsed {
        Value::String(s) => {
            assert_eq!(s, "hello \"world\"\\/\x08\x0c\x0a\x0d\tA");
        }
        _ => panic!("Expected a string, got {:?}", parsed),
    }
}

#[test]
fn parse_unterminated_string() {
    let json = r#""hello"#;
    let err = rj::parse(json).unwrap_err();
    assert_eq!(err, Error::UnterminatedString);
}

#[test]
fn parse_string_with_invalid_escape() {
    let json = r#""hello\x""#;
    let err = rj::parse(json).unwrap_err();
    assert_eq!(
        err,
        Error::InvalidEscapeSequence("Invalid escape sequence: '\\x'".to_string())
    );
}

#[test]
fn parse_string_with_incomplete_unicode_escape() {
    let json = r#""\u123""#;
    let err = rj::parse(json).unwrap_err();
    assert_eq!(err, Error::InvalidUnicodeEscape);
}

#[test]
fn parse_string_with_invalid_unicode_hex() {
    let json = r#""\u123G""#;
    let err = rj::parse(json).unwrap_err();
    assert_eq!(err, Error::InvalidUnicodeEscape);
}

#[test]
fn parse_string_with_valid_unicode_hex() {
    let json = r#""\u3042""#;
    let parsed = rj::parse(json).unwrap();
    match parsed {
        Value::String(s) => {
            assert_eq!(s.len(), 3);
            assert_eq!(s, "\u{3042}".to_string());
        }
        _ => panic!("Expected an string, got {:?}", parsed),
    }
}

#[test]
fn parse_object_with_one_string_member() {
    let json = r#"{"key": "value"}"#;
    let parsed = rj::parse(json).unwrap();
    match parsed {
        Value::Object(obj) => {
            assert_eq!(obj.len(), 1);
            assert_eq!(obj.get("key"), Some(&Value::String("value".to_string())));
        }
        _ => panic!("Expected an object, got {:?}", parsed),
    }
}

#[test]
fn parse_object_with_multiple_string_members() {
    let json = r#"{ "key1" : "value1" , "key2" : "value2" }"#;
    let parsed = rj::parse(json).unwrap();
    match parsed {
        Value::Object(obj) => {
            assert_eq!(obj.len(), 2);
            assert_eq!(obj.get("key1"), Some(&Value::String("value1".to_string())));
            assert_eq!(obj.get("key2"), Some(&Value::String("value2".to_string())));
        }
        _ => panic!("Expected an object, got {:?}", parsed),
    }
}

#[test]
fn parse_object_with_boolean_members() {
    let json = r#"{"t": true, "f": false, "n": null}"#;
    let parsed = rj::parse(json).unwrap();
    match parsed {
        Value::Object(obj) => {
            assert_eq!(obj.len(), 3);
            assert_eq!(obj.get("t"), Some(&Value::Boolean(true)));
            assert_eq!(obj.get("f"), Some(&Value::Boolean(false)));
            assert_eq!(obj.get("n"), Some(&Value::Null));
        }
        _ => panic!("Expected an object, got {:?}", parsed),
    }
}

#[test]
fn parse_extra_characters_after_value() {
    let json = r#"{}extra"#;
    let err = rj::parse(json).unwrap_err();
    assert_eq!(
        err,
        Error::TrailingCharacters(
            "Unexpected characters after JSON value: 'extra'".to_string()
        )
    );
}

#[test]
fn parse_object_missing_colon() {
    let json = r#"{"key" "value"}"#;
    let err = rj::parse(json).unwrap_err();
    assert_eq!(
        err,
        Error::MissingExpectedChar(':', " \"value\"}".to_string())
    );
}

#[test]
fn parse_object_missing_comma_or_brace() {
    let json = r#"{"key": "value" "another_key": "another_value"}"#;
    let err = rj::parse(json).unwrap_err();
    assert_eq!(
        err,
        Error::UnexpectedToken(
            "Expected ',' or '}' after object value. Found: ' \"another_key\": \"another_value\"}'"
                .to_string()
        )
    );
}

#[test]
fn parse_number() {
    let json = r#"10"#;
    let parsed = rj::parse(json).unwrap();
    match parsed {
        Value::Number(n) => {
            assert_eq!(double(&n), 10.0)
        }
        _ => panic!("Expected a number, got {:?}", parsed),
    }
}

#[test]
fn parse_number_with_minus_sign() {
    let json = r#"-10"#;
    let parsed = rj::parse(json).unwrap();
    match parsed {
        Value::Number(n) => {
            assert_eq!(double(&n), -10.0)
        }
        _ => panic!("Expected a number, got {:?}", parsed),
    }
}

#[test]
fn parse_number_with_fraction() {
    let json = r#"10.01234"#;
    let parsed = rj::parse(json).unwrap();
    match parsed {
        Value::Number(n) => {
            assert_eq!(double(&n), 10.01234)
        }
        _ => panic!("Expected a number, got {:?}", parsed),
    }
}

#[test]
fn parse_number_with_exponent() {
    let json = r#"10e3"#;
    let parsed = rj::parse(json).unwrap();
    match parsed {
        Value::Number(n) => {
            assert_eq!(double(&n), 10000.0)
        }
        _ => panic!("Expected a number, got {:?}", parsed),
    }
}

#[test]
fn parse_number_with_minus_exponent() {
    let json = r#"10e-3"#;
    let parsed = rj::parse(json).unwrap();
    match parsed {
        Value::Number(n) => {
            assert_eq!(double(&n), 0.01)
        }
        _ => panic!("Expected a number, got {:?}", parsed),
    }
}

#[test]
fn parse_number_with_plus_exponent() {
    let json = r#"10e+3"#;
    let parsed = rj::parse(json).unwrap();
    match parsed {
        Value::Number(n) => {
            assert_eq!(double(&n), 10000.0)
        }
        _ => panic!("Expected a number, got {:?}", parsed),
    }
}

#[test]
fn parse_array_with_empty() {
    let json = r#"[]"#;
    let parsed = rj::parse(json).unwrap();
    match parsed {
        Value::Array(arr) => assert_eq!(arr, vec![]),
        _ => panic!("Expected an array, got {:?}", parsed),
    }
}

#[test]
fn parse_array_with_single_object() {
    let json = r#"[{"key1": true}]"#;
    let parsed = rj::parse(json).unwrap();
    match parsed {
        Value::Array(arr) => assert_eq!(
            arr,
            vec![object_of(vec![("key1", Value::Boolean(true))])]
        ),
        _ => panic!("Expected an array, got {:?}", parsed),
    }
}

#[test]
fn parse_array_with_multiple_objects() {
    let json = r#"[{"key1": true}, {"key1": true}]"#;
    let parsed = rj::parse(json).unwrap();
    match parsed {
        Value::Array(arr) => assert_eq!(
            arr,
            vec![
                object_of(vec![("key1", Value::Boolean(true))]),
                object_of(vec![("key1", Value::Boolean(true))]),
            ]
        ),
        _ => panic!("Expected an array, got {:?}", parsed),
    }
}

#[test]
fn parse_array_with_single_array() {
    let json = r#"[[]]"#;
    let parsed = rj::parse(json).unwrap();
    match parsed {
        Value::Array(arr) => assert_eq!(arr, vec![Value::Array(vec![])]),
        _ => panic!("Expected an array, got {:?}", parsed),
    }
}

#[test]
fn parse_array_with_multiple_arrays() {
    let json = r#"[[],[],[]]"#;
    let parsed = rj::parse(json).unwrap();
    match parsed {
        Value::Array(arr) => assert_eq!(
            arr,
            vec![
                Value::Array(vec![]),
                Value::Array(vec![]),
                Value::Array(vec![]),
            ]
        ),
        _ => panic!("Expected an array, got {:?}", parsed),
    }
}

#[test]
fn parse_array_with_nested_arrays() {
    let json = r#"[[[]]]"#;
    let parsed = rj::parse(json).unwrap();
    match parsed {
        Value::Array(arr) => assert_eq!(arr, vec![Value::Array(vec![Value::Array(vec![])]),]),
        _ => panic!("Expected an array, got {:?}", parsed),
    }
}

#[test]
fn parse_example1_in_rfc8259() {
    let json = r#"
{
    "Image": {
        "Width":  800,
        "Height": 600,
        "Title":  "View from 15th Floor",
        "Thumbnail": {
            "Url":    "http://www.example.com/image/481989943",
            "Height": 125,
            "Width":  100
        },
        "Animated" : false,
        "IDs": [116, 943, 234, 38793]
    }
}
"#;
    let v = rj::parse(json).unwrap();
    let image = v.member("Image");
    assert_eq!(tree(image.member("Width")), lit("800.0"));
    assert_eq!(tree(image.member("Height")), lit("600.0"));
    assert_eq!(tree(image.member("Title")), lit(r#""View from 15th Floor""#));
    assert_eq!(
        tree(image.member("Thumbnail").member("Url")),
        lit(r#""http://www.example.com/image/481989943""#)
    );
    assert_eq!(tree(image.member("Thumbnail").member("Height")), lit("125.0"));
    assert_eq!(tree(image.member("Thumbnail").member("Width")), lit("100.0"));
    assert_eq!(tree(image.member("Animated")), lit("false"));
    assert_eq!(tree(image.member("IDs")), lit("[116,943,234,38793]"));
}

#[test]
fn parse_example2_in_rfc8259() {
    let json = r#"
[
    {
        "precision": "zip",
        "Latitude":  37.7668,
        "Longitude": -122.3959,
        "Address":   "",
        "City":      "SAN FRANCISCO",
        "State":     "CA",
        "Zip":       "94107",
        "Country":   "US"
    },
    {
        "precision": "zip",
        "Latitude":  37.371991,
        "Longitude": -122.026020,
        "Address":   "",
        "City":      "SUNNYVALE",
        "State":     "CA",
        "Zip":       "94085",
        "Country":   "US"
    }
]
"#;
    let v = rj::parse(json).unwrap();
    assert_eq!(tree(v.element(0).member("precision")), lit(r#""zip""#));
    assert_eq!(tree(v.element(0).member("Latitude")), lit("37.7668"));
    assert_eq!(tree(v.element(0).member("Longitude")), lit("-122.3959"));
    assert_eq!(tree(v.element(0).member("Address")), lit(r#""""#));
    assert_eq!(tree(v.element(0).member("City")), lit(r#""SAN FRANCISCO""#));
    assert_eq!(tree(v.element(0).member("State")), lit(r#""CA""#));
    assert_eq!(tree(v.element(0).member("Zip")), lit(r#""94107""#));
    assert_eq!(tree(v.element(0).member("Country")), lit(r#""US""#));
    assert_eq!(tree(v.element(1).member("precision")), lit(r#""zip""#));
    assert_eq!(tree(v.element(1).member("Latitude")), lit("37.371991"));
    assert_eq!(tree(v.element(1).member("Longitude")), lit("-122.026020"));
    assert_eq!(tree(v.element(1).member("Address")), lit(r#""""#));
    assert_eq!(tree(v.element(1).member("City")), lit(r#""SUNNYVALE""#));
    assert_eq!(tree(v.element(1).member("State")), lit(r#""CA""#));
    assert_eq!(tree(v.element(1).member("Zip")), lit(r#""94085""#));
    assert_eq!(tree(v.element(1).member("Country")), lit(r#""US""#));
}
