use df_utils::error::{ErrorKind, Expected, ParseError};
use df_utils::generator::{Generator, MinJsonGenerator, PrettyJsonGenerator};
use df_utils::parser::{Json5Parser, JsonParser, Parser};
use df_utils::{Float, Member, Value};

fn member(key: &str, value: Value) -> Member {
    Member { key: key.to_string(), value }
}

fn finite(text: &str) -> Value {
    Value::Float(Float::Finite(text.to_string()))
}

fn kind_of(r: Result<Value, ParseError>) -> ErrorKind {
    match r {
        Ok(v) => panic!("parsed as {:?}", v),
        Err(e) => e.kind,
    }
}

#[test]
fn json_object_with_an_array() {
    let text = "{\"a\":1,\"b\":[true,null]}";
    let expected = Value::Object(vec![
        member("a", Value::Int(1)),
        member("b", Value::Array(vec![Value::Boolean(true), Value::Null])),
    ]);
    assert_eq!(MinJsonGenerator.generate(&expected), text);
    assert_eq!(JsonParser.parse(text), Ok(expected));
}

#[test]
fn json_single_key_minified_byte_for_byte() {
    let text = "{\"b\":[true,null]}";
    let value = JsonParser.parse(text).unwrap();
    assert_eq!(MinJsonGenerator.generate(&value), text);
}

#[test]
fn json5_comment_unquoted_key_trailing_comma() {
    let text = "// c\n{a:1,}";
    let expected = Value::Object(vec![member("a", Value::Int(1))]);
    assert_eq!(Json5Parser.parse(text), Ok(expected));
    assert!(matches!(kind_of(JsonParser.parse(text)), ErrorKind::Syntax(_)));
}

#[test]
fn hexadecimal_integer_in_json5_only() {
    assert_eq!(Json5Parser.parse("0x1F"), Ok(Value::Int(31)));
    assert_eq!(
        JsonParser.parse("0x1F"),
        Err(ParseError { kind: ErrorKind::Syntax(Expected::Number), offset: 1, line: 0, column: 1 })
    );
}

#[test]
fn json_scalars() {
    assert_eq!(JsonParser.parse("null"), Ok(Value::Null));
    assert_eq!(JsonParser.parse("true"), Ok(Value::Boolean(true)));
    assert_eq!(JsonParser.parse("false"), Ok(Value::Boolean(false)));
    assert_eq!(JsonParser.parse(" \t\r\n42 \n"), Ok(Value::Int(42)));
    assert_eq!(JsonParser.parse("-0"), Ok(Value::Int(0)));
    assert_eq!(JsonParser.parse("-17"), Ok(Value::Int(-17)));
    assert_eq!(JsonParser.parse("\"\""), Ok(Value::String(String::new())));
    assert_eq!(JsonParser.parse("[]"), Ok(Value::Array(vec![])));
    assert_eq!(JsonParser.parse("{ }"), Ok(Value::Object(vec![])));
}

#[test]
fn json_floats_keep_their_literal() {
    assert_eq!(JsonParser.parse("1.5"), Ok(finite("1.5")));
    assert_eq!(JsonParser.parse("-0.25"), Ok(finite("-0.25")));
    assert_eq!(JsonParser.parse("1e3"), Ok(finite("1e3")));
    assert_eq!(JsonParser.parse("1.5E+30"), Ok(finite("1.5E+30")));
    assert_eq!(JsonParser.parse("0e-05"), Ok(finite("0e-05")));
    assert_eq!("1.5E+30".parse::<f64>().unwrap(), 1.5e30);
}

#[test]
fn json_integer_range() {
    assert_eq!(
        JsonParser.parse("170141183460469231731687303715884105727"),
        Ok(Value::Int(i128::MAX))
    );
    assert_eq!(
        JsonParser.parse("-170141183460469231731687303715884105728"),
        Ok(Value::Int(i128::MIN))
    );
    assert_eq!(
        JsonParser.parse("170141183460469231731687303715884105728"),
        Err(ParseError { kind: ErrorKind::NumericRange, offset: 0, line: 0, column: 0 })
    );
    assert_eq!(
        kind_of(JsonParser.parse("[-170141183460469231731687303715884105729]")),
        ErrorKind::NumericRange
    );
    assert_eq!(
        kind_of(JsonParser.parse("999999999999999999999999999999999999999999999999999999")),
        ErrorKind::NumericRange
    );
}

#[test]
fn json_string_escapes() {
    assert_eq!(
        JsonParser.parse("\"a\\\"b\\\\c\\/d\\be\\ff\\ng\\rh\\ti\\u0041\\u00e9\""),
        Ok(Value::String("a\"b\\c/d\u{8}e\u{c}f\ng\rh\ti\u{41}\u{e9}".to_string()))
    );
    assert_eq!(JsonParser.parse("\"\u{e9}\u{1F600}\""), Ok(Value::String("\u{e9}\u{1F600}".to_string())));
}

#[test]
fn json_invalid_escapes() {
    assert_eq!(
        JsonParser.parse("\"\\q\""),
        Err(ParseError { kind: ErrorKind::InvalidEscape, offset: 2, line: 0, column: 2 })
    );
    assert_eq!(kind_of(JsonParser.parse("\"\\ud800\"")), ErrorKind::InvalidEscape);
    assert_eq!(kind_of(JsonParser.parse("\"\\u12\"")), ErrorKind::InvalidEscape);
    assert_eq!(kind_of(JsonParser.parse("\"\\x41\"")), ErrorKind::InvalidEscape);
    assert_eq!(kind_of(Json5Parser.parse("\"\\xZ1\"")), ErrorKind::InvalidEscape);
    assert_eq!(kind_of(Json5Parser.parse("'\\udfff'")), ErrorKind::InvalidEscape);
}

#[test]
fn json_syntax_errors_and_their_places() {
    assert_eq!(
        JsonParser.parse("[1 2]"),
        Err(ParseError {
            kind: ErrorKind::Syntax(Expected::CommaOrBracket),
            offset: 3,
            line: 0,
            column: 3
        })
    );
    assert_eq!(
        JsonParser.parse("{\n  \"a\": ?\n}"),
        Err(ParseError { kind: ErrorKind::Syntax(Expected::Value), offset: 9, line: 1, column: 7 })
    );
    assert_eq!(
        JsonParser.parse("{\"a\" 1}"),
        Err(ParseError { kind: ErrorKind::Syntax(Expected::Colon), offset: 5, line: 0, column: 5 })
    );
    assert_eq!(
        JsonParser.parse("{\"a\":1 \"b\":2}"),
        Err(ParseError {
            kind: ErrorKind::Syntax(Expected::CommaOrBrace),
            offset: 7,
            line: 0,
            column: 7
        })
    );
    assert_eq!(
        JsonParser.parse("{a:1}"),
        Err(ParseError { kind: ErrorKind::Syntax(Expected::Key), offset: 1, line: 0, column: 1 })
    );
    assert_eq!(
        JsonParser.parse("\"abc"),
        Err(ParseError {
            kind: ErrorKind::Syntax(Expected::ClosingQuote),
            offset: 4,
            line: 0,
            column: 4
        })
    );
    assert_eq!(
        JsonParser.parse("-"),
        Err(ParseError { kind: ErrorKind::Syntax(Expected::Digit), offset: 1, line: 0, column: 1 })
    );
    assert_eq!(
        JsonParser.parse(""),
        Err(ParseError { kind: ErrorKind::Syntax(Expected::Value), offset: 0, line: 0, column: 0 })
    );
    assert!(matches!(kind_of(JsonParser.parse("[1,]")), ErrorKind::Syntax(Expected::Value)));
    assert!(matches!(kind_of(JsonParser.parse("+1")), ErrorKind::Syntax(Expected::Value)));
    assert!(matches!(kind_of(JsonParser.parse("01")), ErrorKind::Syntax(Expected::Number)));
    assert!(matches!(kind_of(JsonParser.parse("1.")), ErrorKind::Syntax(Expected::Number)));
    assert!(matches!(kind_of(JsonParser.parse(".5")), ErrorKind::Syntax(Expected::Value)));
    assert!(matches!(kind_of(JsonParser.parse("'a'")), ErrorKind::Syntax(Expected::Value)));
    assert!(matches!(
        kind_of(JsonParser.parse("\"a\nb\"")),
        ErrorKind::Syntax(Expected::ClosingQuote)
    ));
}

#[test]
fn json_trailing_input() {
    assert_eq!(
        JsonParser.parse("1 2"),
        Err(ParseError { kind: ErrorKind::UnexpectedTrailingInput, offset: 2, line: 0, column: 2 })
    );
    assert_eq!(kind_of(JsonParser.parse("{} x")), ErrorKind::UnexpectedTrailingInput);
    assert_eq!(kind_of(JsonParser.parse("null // c")), ErrorKind::UnexpectedTrailingInput);
}

#[test]
fn duplicate_key_keeps_its_place_and_takes_the_last_value() {
    let expected = Value::Object(vec![member("a", Value::Int(3)), member("b", Value::Int(2))]);
    assert_eq!(JsonParser.parse("{\"a\":1,\"b\":2,\"a\":3}"), Ok(expected));
}

#[test]
fn json5_comments_and_white_space() {
    assert_eq!(Json5Parser.parse("/* a * b */ 1 // end"), Ok(Value::Int(1)));
    assert_eq!(Json5Parser.parse("\u{feff}[\u{a0}1,\u{2028}2\u{3000}]"),
        Ok(Value::Array(vec![Value::Int(1), Value::Int(2)])));
    assert_eq!(Json5Parser.parse("// one\r// two\u{2029}7"), Ok(Value::Int(7)));
    assert_eq!(
        Json5Parser.parse("1 /* open"),
        Err(ParseError {
            kind: ErrorKind::Syntax(Expected::CommentEnd),
            offset: 2,
            line: 0,
            column: 2
        })
    );
    assert!(matches!(kind_of(JsonParser.parse("[\u{a0}1]")), ErrorKind::Syntax(Expected::Value)));
    assert!(matches!(kind_of(Json5Parser.parse("[\u{200b}1]")), ErrorKind::Syntax(Expected::Value)));
}

#[test]
fn json5_numbers() {
    assert_eq!(Json5Parser.parse("+5"), Ok(Value::Int(5)));
    assert_eq!(Json5Parser.parse("0X1f"), Ok(Value::Int(31)));
    assert_eq!(Json5Parser.parse("-0x10"), Ok(Value::Int(-16)));
    assert_eq!(Json5Parser.parse(".5"), Ok(finite(".5")));
    assert_eq!(Json5Parser.parse("-.5e2"), Ok(finite("-.5e2")));
    assert_eq!(Json5Parser.parse("+1.5"), Ok(finite("1.5")));
    assert_eq!(Json5Parser.parse("Infinity"), Ok(Value::Float(Float::Infinity)));
    assert_eq!(Json5Parser.parse("+Infinity"), Ok(Value::Float(Float::Infinity)));
    assert_eq!(Json5Parser.parse("-Infinity"), Ok(Value::Float(Float::NegInfinity)));
    assert_eq!(Json5Parser.parse("NaN"), Ok(Value::Float(Float::Nan)));
    assert_eq!(Json5Parser.parse("-NaN"), Ok(Value::Float(Float::Nan)));
    assert_eq!(
        Json5Parser.parse("0x7fffffffffffffffffffffffffffffff"),
        Ok(Value::Int(i128::MAX))
    );
    assert_eq!(
        kind_of(Json5Parser.parse("0x80000000000000000000000000000000")),
        ErrorKind::NumericRange
    );
    assert_eq!(
        Json5Parser.parse("-0x80000000000000000000000000000000"),
        Ok(Value::Int(i128::MIN))
    );
    assert!(matches!(kind_of(Json5Parser.parse("0x")), ErrorKind::Syntax(Expected::Number)));
}

#[test]
fn json5_strings() {
    assert_eq!(Json5Parser.parse("'it\\'s \"x\"'"), Ok(Value::String("it's \"x\"".to_string())));
    assert_eq!(Json5Parser.parse("\"\\x41\\v\""), Ok(Value::String("A\u{b}".to_string())));
    assert_eq!(Json5Parser.parse("\"a\\\nb\""), Ok(Value::String("ab".to_string())));
    assert_eq!(Json5Parser.parse("\"a\\\u{2028}b\""), Ok(Value::String("ab".to_string())));
    assert_eq!(Json5Parser.parse("\"a\\qb\""), Ok(Value::String("aqb".to_string())));
    assert!(matches!(
        kind_of(Json5Parser.parse("\"a\nb\"")),
        ErrorKind::Syntax(Expected::ClosingQuote)
    ));
}

#[test]
fn json5_unquoted_keys_by_unicode_class() {
    let one = |key: &str| Ok(Value::Object(vec![member(key, Value::Int(1))]));
    assert_eq!(Json5Parser.parse("{$a_1:1}"), one("$a_1"));
    assert_eq!(Json5Parser.parse("{\u{e9}t\u{e9}:1}"), one("\u{e9}t\u{e9}"));
    assert_eq!(Json5Parser.parse("{\u{4e2d}:1}"), one("\u{4e2d}"));
    assert_eq!(Json5Parser.parse("{a\u{301}:1}"), one("a\u{301}"));
    assert_eq!(Json5Parser.parse("{a\u{903}:1}"), one("a\u{903}"));
    assert_eq!(Json5Parser.parse("{a\u{663}:1}"), one("a\u{663}"));
    assert_eq!(Json5Parser.parse("{a\u{203f}b:1}"), one("a\u{203f}b"));
    assert_eq!(Json5Parser.parse("{a\u{200c}\u{200d}:1}"), one("a\u{200c}\u{200d}"));
    assert_eq!(Json5Parser.parse("{\\u0061b:1}"), one("ab"));
    assert_eq!(Json5Parser.parse("{'k':1, \"l\":2,}"),
        Ok(Value::Object(vec![member("k", Value::Int(1)), member("l", Value::Int(2))])));
    assert!(matches!(kind_of(Json5Parser.parse("{1a:1}")), ErrorKind::Syntax(Expected::Key)));
    assert!(matches!(kind_of(Json5Parser.parse("{\u{301}a:1}")), ErrorKind::Syntax(Expected::Key)));
    assert!(matches!(kind_of(Json5Parser.parse("{\u{903}:1}")), ErrorKind::Syntax(Expected::Key)));
    assert!(matches!(kind_of(Json5Parser.parse("{\u{203f}:1}")), ErrorKind::Syntax(Expected::Key)));
    assert!(matches!(kind_of(Json5Parser.parse("{a-b:1}")), ErrorKind::Syntax(Expected::Colon)));
    assert!(matches!(kind_of(Json5Parser.parse("{a\u{2212}:1}")), ErrorKind::Syntax(Expected::Colon)));
}

#[test]
fn json5_trailing_commas() {
    assert_eq!(Json5Parser.parse("[1,2,]"), Ok(Value::Array(vec![Value::Int(1), Value::Int(2)])));
    assert!(matches!(kind_of(Json5Parser.parse("[,]")), ErrorKind::Syntax(Expected::Value)));
    assert!(matches!(kind_of(Json5Parser.parse("{,}")), ErrorKind::Syntax(Expected::Key)));
    assert_eq!(Json5Parser.parse("{a:[1,],}"), Json5Parser.parse("{\"a\":[1]}"));
    assert!(matches!(kind_of(Json5Parser.parse("[1,,]")), ErrorKind::Syntax(Expected::Value)));
}

#[test]
fn json5_reads_what_json_reads() {
    for text in [
        "null",
        " [1, 2.5e3, \"a\\u0041\", {\"k\": [true, false, null]}] ",
        "{\"a\":{\"b\":{\"c\":[]}},\"a\":-12}",
        "\"\\\"\\\\\\/\"",
    ] {
        let strict = JsonParser.parse(text);
        assert!(strict.is_ok());
        assert_eq!(Json5Parser.parse(text), strict);
    }
}

#[test]
fn minified_text_parses_back_to_the_value() {
    let value = Value::Object(vec![
        member("text", Value::String("q\"\\\u{1}\n\u{e9}".to_string())),
        member("list", Value::Array(vec![Value::Int(-5), Value::Null, Value::Array(vec![])])),
        member("float", finite("-1.25e-3")),
        member("deep", Value::Object(vec![member("", Value::Boolean(false))])),
        member("min", Value::Int(i128::MIN)),
    ]);
    let text = MinJsonGenerator.generate(&value);
    assert_eq!(JsonParser.parse(&text), Ok(value));
}

#[test]
fn clone_is_deep_and_equal() {
    let value = JsonParser.parse("{\"a\":[1,{\"b\":\"c\"}]}").unwrap();
    let copy = value.clone();
    assert_eq!(copy, value);
}

#[test]
fn json5_takes_vertical_tab_and_form_feed_for_white_space() {
    assert_eq!(Json5Parser.parse("\u{b}[\u{c}1\u{b}]\u{c}"), Ok(Value::Array(vec![Value::Int(1)])));
    assert!(matches!(kind_of(JsonParser.parse("\u{b}1")), ErrorKind::Syntax(Expected::Value)));
    assert_eq!(kind_of(JsonParser.parse("1\u{c}")), ErrorKind::UnexpectedTrailingInput);
}

#[test]
fn json5_reads_what_the_generators_write() {
    let value = Value::Array(vec![
        Value::Float(Float::Infinity),
        Value::Float(Float::NegInfinity),
        Value::Float(Float::Nan),
        Value::Int(-7),
        Value::Object(vec![member("a b", Value::String("\u{1f}".to_string()))]),
    ]);
    let text = MinJsonGenerator.generate(&value);
    assert_eq!(text, "[Infinity,-Infinity,NaN,-7,{\"a b\":\"\\u001f\"}]");
    assert_eq!(Json5Parser.parse(&text), Ok(value));
    assert!(matches!(kind_of(JsonParser.parse(&text)), ErrorKind::Syntax(Expected::Value)));
}

#[test]
fn a_number_ends_where_its_literal_ends() {
    assert_eq!(
        JsonParser.parse("[12a]"),
        Err(ParseError { kind: ErrorKind::Syntax(Expected::Number), offset: 3, line: 0, column: 3 })
    );
    assert!(matches!(kind_of(JsonParser.parse("1e")), ErrorKind::Syntax(Expected::Number)));
    assert!(matches!(kind_of(JsonParser.parse("1.5.2")), ErrorKind::Syntax(Expected::Number)));
    assert!(matches!(kind_of(JsonParser.parse("1-2")), ErrorKind::Syntax(Expected::Number)));
    assert!(matches!(kind_of(Json5Parser.parse("Infinityx")), ErrorKind::Syntax(Expected::Number)));
    assert_eq!(JsonParser.parse("[1]"), Ok(Value::Array(vec![Value::Int(1)])));
}

#[test]
fn errors_count_characters_not_bytes() {
    assert_eq!(
        JsonParser.parse("[\"\u{e9}\u{1F600}\",\n \u{e9}]"),
        Err(ParseError { kind: ErrorKind::Syntax(Expected::Value), offset: 8, line: 1, column: 1 })
    );
}

#[test]
fn json5_reads_pretty_text_with_floats_that_are_not_finite() {
    let value = Value::Object(vec![
        member("nan", Value::Float(Float::Nan)),
        member("up", Value::Array(vec![Value::Float(Float::Infinity), finite("1.5")])),
        member("down", Value::Float(Float::NegInfinity)),
    ]);
    let text = PrettyJsonGenerator::new().indent(1).generate(&value);
    assert_eq!(
        text,
        "{\n \"nan\": NaN,\n \"up\": [\n  Infinity,\n  1.5\n ],\n \"down\": -Infinity\n}\n"
    );
    assert_eq!(Json5Parser.parse(&text), Ok(value));
}
