use rj::generate;
use rj::number::Number;
use rj::parse::{array, number, object, string, value, Error};
use rj::text::{eat_whitespace, is_whitespace, to_chars};
use rj::value::{ObjectMap, Value};

fn chars(text: &str) -> Vec<char> {
    text.chars().collect()
}

fn text(value: &str) -> Value {
    Value::String(value.to_string())
}

fn num(literal: &str) -> Value {
    Value::Number(Number::new(literal).unwrap())
}

const RFC_IMAGE: &str = r#"
{
    "Image": {
        "Width":  800,
        "Height": 600,
        "Title":  "View from 15th Floor",
        "Thumbnail": {
            "Url":    "http://www.example.com/image/481989943",
            "Height": 125,
            "Width":  100
        },
        "Animated" : false,
        "IDs": [116, 943, 234, 38793]
    }
}
"#;

#[test]
fn round_trip_indented() {
    let first = rj::parse(RFC_IMAGE).unwrap();
    let rendered = rj::format(RFC_IMAGE).unwrap();
    let second = rj::parse(&rendered).unwrap();
    assert_eq!(first, second);
    assert_eq!(rj::format(&rendered).unwrap(), rendered);
}

#[test]
fn round_trip_compact() {
    let first = rj::parse(RFC_IMAGE).unwrap();
    let rendered = rj::stringify(&first);
    assert_eq!(
        rendered,
        r#"{"Image":{"Width":800,"Height":600,"Title":"View from 15th Floor","Thumbnail":{"Url":"http://www.example.com/image/481989943","Height":125,"Width":100},"Animated":false,"IDs":[116,943,234,38793]}}"#
    );
    assert_eq!(rj::parse(&rendered).unwrap(), first);
}

#[test]
fn round_trip_of_every_escape() {
    let source = text("q\" b\\ s/ \u{8}\u{c}\n\r\t \u{0}\u{1}\u{1f}\u{7f} \u{3042}\u{1F600}");
    let rendered = rj::stringify(&source);
    assert_eq!(
        rendered,
        "\"q\\\" b\\\\ s/ \\b\\f\\n\\r\\t \\u0000\\u0001\\u001f\u{7f} \u{3042}\u{1F600}\""
    );
    assert_eq!(rj::parse(&rendered).unwrap(), source);
    let indented = generate::format(&source, 2);
    assert_eq!(indented, rendered);
}

#[test]
fn round_trip_of_numbers_as_written() {
    for literal in ["0", "-0", "10e3", "1E+2", "-.5", "5.", "1.e5", "0012", "1.5e-7"] {
        let parsed = rj::parse(literal).unwrap();
        assert_eq!(parsed, num(literal));
        assert_eq!(rj::stringify(&parsed), literal);
        assert_eq!(rj::parse(&rj::format(literal).unwrap()).unwrap(), parsed);
    }
}

#[test]
fn format_indents_by_two() {
    let rendered = rj::format(r#"{"a":[1,2,{"b":null}],"c":"x\ny","d":{},"e":[],"f":[[]]}"#).unwrap();
    assert_eq!(
        rendered,
        "{\n  \"a\": [\n    1,\n    2,\n    {\n      \"b\": null\n    }\n  ],\n  \"c\": \"x\\ny\",\n  \"d\": {},\n  \"e\": [],\n  \"f\": [\n    []\n  ]\n}"
    );
}

#[test]
fn format_with_other_widths() {
    let v = rj::parse(r#"[true,{"k":[false]}]"#).unwrap();
    assert_eq!(
        generate::format(&v, 0),
        "[\ntrue,\n{\n\"k\": [\nfalse\n]\n}\n]"
    );
    assert_eq!(
        generate::format(&v, 3),
        "[\n   true,\n   {\n      \"k\": [\n         false\n      ]\n   }\n]"
    );
    assert_eq!(generate::compact(&v), r#"[true,{"k":[false]}]"#);
}

#[test]
fn format_of_scalars() {
    assert_eq!(rj::format(" null ").unwrap(), "null");
    assert_eq!(rj::format("true").unwrap(), "true");
    assert_eq!(rj::format("false").unwrap(), "false");
    assert_eq!(rj::format("-12.5e+3").unwrap(), "-12.5e+3");
    assert_eq!(rj::format(r#""a""#).unwrap(), r#""a""#);
    assert_eq!(rj::format("{ }").unwrap(), "{}");
    assert_eq!(rj::format("[ ]").unwrap(), "[]");
}

#[test]
fn format_passes_errors_on() {
    assert_eq!(rj::format(r#""hello"#), Err(Error::UnterminatedString));
    assert_eq!(
        rj::format("{}extra"),
        Err(Error::TrailingCharacters(
            "Unexpected characters after JSON value: 'extra'".to_string()
        ))
    );
}

#[test]
fn duplicate_keys_overwrite_in_place() {
    let parsed = rj::parse(r#"{"a":1,"a":2}"#).unwrap();
    match &parsed {
        Value::Object(map) => {
            assert_eq!(map.len(), 1);
            assert_eq!(map.get("a"), Some(&num("2")));
        }
        _ => panic!("Expected an object, got {:?}", parsed),
    }
    let parsed = rj::parse(r#"{"a":1,"b":2,"a":3}"#).unwrap();
    assert_eq!(rj::stringify(&parsed), r#"{"a":3,"b":2}"#);
}

#[test]
fn object_map_keeps_insertion_order() {
    let mut map = ObjectMap::new();
    assert!(map.is_empty());
    assert_eq!(map.len(), 0);
    assert_eq!(map.get("x"), None);
    assert_eq!(map.get_index(0), None);
    map.insert("x".to_string(), Value::Null);
    map.insert("y".to_string(), Value::Boolean(true));
    map.insert("x".to_string(), text("again"));
    assert!(!map.is_empty());
    assert_eq!(map.len(), 2);
    assert_eq!(map.get("x"), Some(&text("again")));
    assert_eq!(map.get("y"), Some(&Value::Boolean(true)));
    assert_eq!(map.get("z"), None);
    assert_eq!(map.get_index(0), Some((&"x".to_string(), &text("again"))));
    assert_eq!(map.get_index(1), Some((&"y".to_string(), &Value::Boolean(true))));
    assert_eq!(map.get_index(2), None);
}

#[test]
fn accessors_reach_members_and_elements() {
    let v = Value::from_literal(r#"{"list":[10,{"deep":"yes"}]}"#);
    assert_eq!(v.member("list").element(0), &num("10"));
    assert_eq!(v.member("list").element(1).member("deep"), &text("yes"));
    let parsed: Value = r#"[null]"#.parse().unwrap();
    assert_eq!(parsed.element(0), &Value::Null);
    let failed: Result<Value, Error> = "[".parse();
    assert_eq!(
        failed,
        Err(Error::UnexpectedToken("Unexpected token: ''".to_string()))
    );
}

#[test]
fn whitespace_is_the_four_characters() {
    for c in [' ', '\t', '\n', '\r'] {
        assert!(is_whitespace(c));
    }
    for c in ['\u{b}', '\u{c}', '\u{a0}', 'a', '\u{0}', '\u{2028}'] {
        assert!(!is_whitespace(c));
    }
    let input = chars(" \t\r\n x ");
    assert_eq!(eat_whitespace(&input, 0), 5);
    assert_eq!(eat_whitespace(&input, 3), 5);
    assert_eq!(eat_whitespace(&input, 5), 5);
    assert_eq!(eat_whitespace(&input, 6), 7);
    assert_eq!(eat_whitespace(&input, 7), 7);
    assert_eq!(to_chars("a\u{3042}b"), vec!['a', '\u{3042}', 'b']);
}

#[test]
fn whitespace_around_tokens_is_skipped() {
    let spaced = rj::parse(" \n{ \"a\" \t: [ 1 , 2 ] , \"b\" : { } }\r\n").unwrap();
    let tight = rj::parse(r#"{"a":[1,2],"b":{}}"#).unwrap();
    assert_eq!(spaced, tight);
}

#[test]
fn strings_keep_their_whitespace() {
    assert_eq!(rj::parse(r#""  ""#).unwrap(), text("  "));
    assert_eq!(rj::parse(r#"" a ""#).unwrap(), text(" a "));
    assert_eq!(rj::parse(r#""""#).unwrap(), text(""));
    assert_eq!(rj::parse(r#"{" ":" "}"#).unwrap().member(" "), &text(" "));
}

#[test]
fn raw_control_characters_are_rejected() {
    assert_eq!(
        rj::parse("\"a\tb\""),
        Err(Error::UnexpectedToken(
            "Unescaped control character in string: '\t'".to_string()
        ))
    );
    assert_eq!(
        rj::parse("\"\n\""),
        Err(Error::UnexpectedToken(
            "Unescaped control character in string: '\n'".to_string()
        ))
    );
    assert_eq!(
        rj::parse("\"a\r\""),
        Err(Error::UnexpectedToken(
            "Unescaped control character in string: '\r'".to_string()
        ))
    );
}

#[test]
fn unexpected_tokens() {
    assert_eq!(
        rj::parse(""),
        Err(Error::UnexpectedToken("Unexpected token: ''".to_string()))
    );
    assert_eq!(
        rj::parse("  @1"),
        Err(Error::UnexpectedToken("Unexpected token: '@1'".to_string()))
    );
    assert_eq!(
        rj::parse("nul"),
        Err(Error::UnexpectedToken("Unexpected token: 'nul'".to_string()))
    );
    assert_eq!(
        rj::parse("[1,]"),
        Err(Error::UnexpectedToken("Unexpected token: ']'".to_string()))
    );
    assert_eq!(
        rj::parse(".5"),
        Err(Error::UnexpectedToken("Unexpected token: '.5'".to_string()))
    );
    assert_eq!(
        rj::parse("falsey"),
        Err(Error::TrailingCharacters(
            "Unexpected characters after JSON value: 'y'".to_string()
        ))
    );
}

#[test]
fn missing_characters() {
    assert_eq!(
        rj::parse("{a:1}"),
        Err(Error::MissingExpectedChar('"', "a:1}".to_string()))
    );
    assert_eq!(
        rj::parse(r#"{"a":1, }"#),
        Err(Error::MissingExpectedChar('"', "}".to_string()))
    );
    assert_eq!(
        rj::parse("[1 2]"),
        Err(Error::MissingExpectedChar(']', " 2]".to_string()))
    );
    assert_eq!(
        rj::parse("[1"),
        Err(Error::MissingExpectedChar(']', "".to_string()))
    );
    assert_eq!(
        rj::parse(r#"{"a""#),
        Err(Error::MissingExpectedChar(':', "".to_string()))
    );
    assert_eq!(
        object(&chars("[]"), 0),
        Err(Error::MissingExpectedChar('{', "[]".to_string()))
    );
    assert_eq!(
        array(&chars("x{}"), 1),
        Err(Error::MissingExpectedChar('[', "{}".to_string()))
    );
    assert_eq!(
        string(&chars("abc"), 1),
        Err(Error::MissingExpectedChar('"', "bc".to_string()))
    );
}

#[test]
fn escape_errors() {
    assert_eq!(
        rj::parse("\"abc\\"),
        Err(Error::InvalidEscapeSequence(
            "Invalid escape sequence: '\\' at end of string.".to_string()
        ))
    );
    assert_eq!(
        rj::parse(r#""\U0041""#),
        Err(Error::InvalidEscapeSequence(
            "Invalid escape sequence: '\\U'".to_string()
        ))
    );
    assert_eq!(rj::parse(r#""\ud800""#), Err(Error::InvalidUnicodeEscape));
    assert_eq!(rj::parse(r#""\udfff""#), Err(Error::InvalidUnicodeEscape));
    assert_eq!(rj::parse(r#""\ud83d\ude00""#), Err(Error::InvalidUnicodeEscape));
    assert_eq!(rj::parse(r#""\u12"#), Err(Error::InvalidUnicodeEscape));
    assert_eq!(rj::parse(r#""\u+123""#), Err(Error::InvalidUnicodeEscape));
    assert_eq!(rj::parse(r#""\ud7ff\ue000\uabcd""#).unwrap(), text("\u{d7ff}\u{e000}\u{abcd}"));
}

#[test]
fn number_errors() {
    let sign = "sign only allowed at the beginning of the number or immediately after 'e' or 'E' for exponents";
    assert_eq!(
        rj::parse("--1"),
        Err(Error::InvalidNumberFormat(sign.to_string()))
    );
    assert_eq!(
        rj::parse("1-2"),
        Err(Error::InvalidNumberFormat(sign.to_string()))
    );
    assert_eq!(
        rj::parse("[1e5+3]"),
        Err(Error::InvalidNumberFormat(sign.to_string()))
    );
    assert_eq!(
        rj::parse("1e+-3"),
        Err(Error::InvalidNumberFormat(sign.to_string()))
    );
    assert_eq!(
        rj::parse("-"),
        Err(Error::InvalidNumberFormat("Invalid number: '-'".to_string()))
    );
    assert_eq!(
        rj::parse("1.2.3"),
        Err(Error::InvalidNumberFormat(
            "Invalid number: '1.2.3'".to_string()
        ))
    );
    assert_eq!(
        rj::parse("[-e5]"),
        Err(Error::InvalidNumberFormat("Invalid number: '-e5'".to_string()))
    );
    assert_eq!(
        rj::parse("1e"),
        Err(Error::InvalidNumberFormat("Invalid number: '1e'".to_string()))
    );
    assert_eq!(
        rj::parse("1e+"),
        Err(Error::InvalidNumberFormat("Invalid number: '1e+'".to_string()))
    );
    assert_eq!(
        rj::parse("-."),
        Err(Error::InvalidNumberFormat("Invalid number: '-.'".to_string()))
    );
    assert_eq!(
        rj::parse("1e5e5"),
        Err(Error::InvalidNumberFormat(
            "Invalid number: '1e5e5'".to_string()
        ))
    );
}

#[test]
fn number_literals() {
    for literal in ["0", "10", "-10", "10.01234", "10e3", "10e-3", "10E+3", "-.5", "5.", "1.e5", "007"] {
        let n = Number::new(literal).unwrap();
        assert_eq!(n.literal(), literal);
        assert_eq!(n.is_negative(), literal.starts_with('-'));
        assert!(literal.parse::<f64>().is_ok());
    }
    for literal in ["", "-", ".", ".5", "+1", "1e", "e5", "1.2.3", "1e+", "--1", "1 ", " 1", "1e5.0", "inf", "NaN", "0x10"] {
        assert_eq!(Number::new(literal), None);
    }
}

#[test]
fn cursor_functions_report_where_they_stop() {
    let input = chars(r#"  "ab\n" : -12.5e3, [1, {"k": null}] tail"#);
    assert_eq!(string(&input, 2), Ok(("ab\n".to_string(), 8)));
    assert_eq!(
        number(&input, 11),
        Ok((Number::new("-12.5e3").unwrap(), 18))
    );
    assert_eq!(value(&input, 10), Ok((num("-12.5e3"), 18)));
    let (list, end) = value(&input, 19).unwrap();
    assert_eq!(end, 36);
    assert_eq!(rj::stringify(&list), r#"[1,{"k":null}]"#);
    assert_eq!(array(&input, 20).unwrap().1, 36);
    assert_eq!(object(&input, 24), Ok((Value::from_literal(r#"{"k":null}"#), 35)));
    assert_eq!(value(&input, 0), Ok((text("ab\n"), 8)));
}

#[test]
fn number_grammar_agrees_with_double_parsing() {
    let alphabet = ['1', '0', '.', 'e', 'E', '+', '-'];
    let mut candidates: Vec<String> = vec![String::new()];
    let mut from = 0;
    for _ in 0..5 {
        let upto = candidates.len();
        for i in from..upto {
            for c in alphabet {
                let mut next = candidates[i].clone();
                next.push(c);
                candidates.push(next);
            }
        }
        from = upto;
    }
    assert_eq!(candidates.len(), 1 + 7 + 49 + 343 + 2401 + 16807);
    for body in candidates {
        if body.starts_with('+') || body.starts_with('-') {
            continue;
        }
        let accepted = Number::new(&format!("-{}", body)).is_some();
        assert_eq!(accepted, body.parse::<f64>().is_ok(), "literal {:?}", body);
        let unsigned = Number::new(&body).is_some();
        assert_eq!(unsigned, accepted && !body.starts_with('.'), "literal {:?}", body);
        let parsed = rj::parse(&format!("-{}", body));
        assert_eq!(parsed.is_ok(), accepted, "literal {:?}", body);
    }
}
