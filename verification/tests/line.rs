use df_utils::datetime::{Date, DateTime, Offset, Time};
use df_utils::error::{ErrorKind, Expected, ParseError};
use df_utils::generator::{Generator, LineGenerator};
use df_utils::parser::line::{build, Item, Path};
use df_utils::parser::{LineParser, Parser};
use df_utils::print::{deprint, PrintConfig};
use df_utils::{Float, Member, Value};

fn member(key: &str, value: Value) -> Member {
    Member { key: key.to_string(), value }
}

fn key(k: &str) -> Path {
    Path::Key(k.to_string())
}

fn kind_of(r: Result<Value, ParseError>) -> ErrorKind {
    match r {
        Ok(v) => panic!("parsed as {:?}", v),
        Err(e) => e.kind,
    }
}

#[test]
fn lines_of_an_object_with_an_array() {
    let text = "$.a = 1\n$.b.0 = true\n$.b.1 = null\n";
    let expected = Value::Object(vec![
        member("a", Value::Int(1)),
        member("b", Value::Array(vec![Value::Boolean(true), Value::Null])),
    ]);
    assert_eq!(LineParser::new().parse(text), Ok(expected));
}

#[test]
fn no_assignment_gives_null() {
    assert_eq!(LineParser::new().parse(""), Ok(Value::Null));
    assert_eq!(LineParser::new().parse("\n\n"), Ok(Value::Null));
}

#[test]
fn empty_lines_are_passed_over() {
    let expected = Value::Object(vec![member("a", Value::Int(1)), member("b", Value::Int(2))]);
    assert_eq!(LineParser::new().parse("\n$.a = 1\n\n\n$.b = 2"), Ok(expected));
}

#[test]
fn empty_path_sets_the_root() {
    assert_eq!(LineParser::new().parse("$. = 5\n"), Ok(Value::Int(5)));
    assert_eq!(LineParser::new().parse("$.a = 1\n$. = \"x\"\n"), Ok(Value::String("x".to_string())));
}

#[test]
fn literals() {
    let text = "$.0 = null\n$.1 = true\n$.2 = false\n$.3 = NaN\n$.4 = inf\n$.5 = -inf\n$.6 = []\n$.7 = {}\n$.8 = -12\n$.9 = \"a\\\"\\n\\u00e9\"\n$.10 = 1.5\n$.11 = -2e3\n";
    let expected = Value::Array(vec![
        Value::Null,
        Value::Boolean(true),
        Value::Boolean(false),
        Value::Float(Float::Nan),
        Value::Float(Float::Infinity),
        Value::Float(Float::NegInfinity),
        Value::Array(vec![]),
        Value::Object(vec![]),
        Value::Int(-12),
        Value::String("a\"\n\u{e9}".to_string()),
        Value::Float(Float::Finite("1.5".to_string())),
        Value::Float(Float::Finite("-2e3".to_string())),
    ]);
    assert_eq!(LineParser::new().parse(text), Ok(expected));
}

#[test]
fn date_time_literals() {
    let date = Date::new(2020, 2, 29).unwrap();
    let time = Time::new(12, 30, 5, 250_000_000).unwrap();
    let plain = Time::new(7, 0, 0, 0).unwrap();
    let text = "$.a = 2020-02-29\n$.b = 2020-02-29T12:30:05.25+09:00\n$.c = 2020-02-29 07:00:00Z\n$.d = 12:30:05.250\n$.e = 2020-02-29T07:00:00-11:45\n$.f = 07:00:00.000000001\n";
    let expected = Value::Object(vec![
        member("a", Value::DateTime(DateTime::new(Some(date), None, None).unwrap())),
        member(
            "b",
            Value::DateTime(
                DateTime::new(Some(date), Some(time), Some(Offset::new(9, 0).unwrap())).unwrap(),
            ),
        ),
        member(
            "c",
            Value::DateTime(
                DateTime::new(Some(date), Some(plain), Some(Offset::new(0, 0).unwrap())).unwrap(),
            ),
        ),
        member("d", Value::DateTime(DateTime::new(None, Some(time), None).unwrap())),
        member(
            "e",
            Value::DateTime(
                DateTime::new(Some(date), Some(plain), Some(Offset::new(-11, 45).unwrap()))
                    .unwrap(),
            ),
        ),
        member(
            "f",
            Value::DateTime(DateTime::new(None, Some(Time::new(7, 0, 0, 1).unwrap()), None).unwrap()),
        ),
    ]);
    assert_eq!(LineParser::new().parse(text), Ok(expected));
}

#[test]
fn invalid_date_time_literals() {
    assert_eq!(
        LineParser::new().parse("$.a = 2021-02-29"),
        Err(ParseError { kind: ErrorKind::InvalidDateTime, offset: 6, line: 0, column: 6 })
    );
    assert_eq!(kind_of(LineParser::new().parse("$.a = 0000-01-01")), ErrorKind::InvalidDateTime);
    assert_eq!(kind_of(LineParser::new().parse("$.a = 2021-13-01")), ErrorKind::InvalidDateTime);
    assert_eq!(kind_of(LineParser::new().parse("$.a = 25:00:00")), ErrorKind::InvalidDateTime);
    assert_eq!(kind_of(LineParser::new().parse("$.a = 12:60:00")), ErrorKind::InvalidDateTime);
    assert_eq!(kind_of(LineParser::new().parse("$.a = 12:00:61")), ErrorKind::InvalidDateTime);
    assert_eq!(
        kind_of(LineParser::new().parse("$.a = 2021-01-01T00:00:00+15:00")),
        ErrorKind::InvalidDateTime
    );
    assert_eq!(
        kind_of(LineParser::new().parse("$.a = 2021-01-01T00:00:00+14:01")),
        ErrorKind::InvalidDateTime
    );
    assert_eq!(kind_of(LineParser::new().parse("$.a = 2021-01-01Z")), ErrorKind::InvalidDateTime);
    assert!(matches!(
        kind_of(LineParser::new().parse("$.a = 2021-1-01")),
        ErrorKind::Syntax(Expected::DateTime)
    ));
    assert!(matches!(
        kind_of(LineParser::new().parse("$.a = 12:0")),
        ErrorKind::Syntax(Expected::DateTime)
    ));
    assert!(matches!(
        kind_of(LineParser::new().parse("$.a = 12:00:00.1234567891")),
        ErrorKind::Syntax(Expected::LineEnd)
    ));
}

#[test]
fn errors_and_their_places() {
    assert_eq!(
        LineParser::new().parse("$.a = 1\n#.b = 2\n"),
        Err(ParseError { kind: ErrorKind::Syntax(Expected::Root), offset: 8, line: 1, column: 0 })
    );
    assert_eq!(
        LineParser::new().parse("$ = 1"),
        Err(ParseError {
            kind: ErrorKind::Syntax(Expected::Delimiter),
            offset: 1,
            line: 0,
            column: 1
        })
    );
    assert_eq!(
        LineParser::new().parse("$.a"),
        Err(ParseError { kind: ErrorKind::Syntax(Expected::Equal), offset: 3, line: 0, column: 3 })
    );
    assert_eq!(
        LineParser::new().parse("$.a. = 1"),
        Err(ParseError {
            kind: ErrorKind::Syntax(Expected::Segment),
            offset: 4,
            line: 0,
            column: 4
        })
    );
    assert_eq!(
        LineParser::new().parse("$.a = ?"),
        Err(ParseError { kind: ErrorKind::Syntax(Expected::Value), offset: 6, line: 0, column: 6 })
    );
    assert_eq!(
        LineParser::new().parse("$.a = 1 2"),
        Err(ParseError {
            kind: ErrorKind::Syntax(Expected::LineEnd),
            offset: 7,
            line: 0,
            column: 7
        })
    );
    assert_eq!(
        kind_of(LineParser::new().parse("$.a = 999999999999999999999999999999999999999999")),
        ErrorKind::NumericRange
    );
    assert_eq!(kind_of(LineParser::new().parse("$.a = \"\\q\"")), ErrorKind::InvalidEscape);
}

#[test]
fn a_step_is_an_index_or_a_key() {
    let expected = Value::Object(vec![
        member("01", Value::Int(1)),
        member("1a", Value::Int(2)),
        member("-1", Value::Int(3)),
        member("a b", Value::Array(vec![Value::Int(4)])),
        member("99999999999999999999999999999999999999999999", Value::Int(5)),
    ]);
    assert_eq!(
        LineParser::new().parse(
            "$.01 = 1\n$.1a = 2\n$.-1 = 3\n$.a b.0 = 4\n$.99999999999999999999999999999999999999999999 = 5\n"
        ),
        Ok(expected)
    );
}

#[test]
fn the_last_assignment_wins() {
    assert_eq!(
        LineParser::new().parse("$.a = 1\n$.0 = 2\n"),
        Ok(Value::Array(vec![Value::Int(2)]))
    );
    assert_eq!(
        LineParser::new().parse("$.a.b = 1\n$.a = 2\n$.a.c = 3\n"),
        Ok(Value::Object(vec![member("a", Value::Object(vec![member("c", Value::Int(3))]))]))
    );
}

#[test]
fn an_index_beyond_the_end_fills_up_with_null() {
    assert_eq!(
        LineParser::new().parse("$.2 = 1\n$.0 = 0\n"),
        Ok(Value::Array(vec![Value::Int(0), Value::Null, Value::Int(1)]))
    );
}

#[test]
fn other_tokens() {
    let mut p = LineParser::new();
    p.root("json".to_string()).delimiter("/".to_string()).equal(": ".to_string());
    let expected = Value::Object(vec![member("a.b", Value::Array(vec![Value::Int(1)]))]);
    assert_eq!(p.parse("json/a.b/0: 1\n"), Ok(expected));
    assert!(matches!(kind_of(p.parse("$.a = 1")), ErrorKind::Syntax(Expected::Root)));
}

#[test]
fn append_item_walks_the_path() {
    let mut value = Value::Null;
    value.append_item(Item { path: vec![key("a"), Path::Index(0)], value: Value::Int(1) });
    assert_eq!(value, Value::Object(vec![member("a", Value::Array(vec![Value::Int(1)]))]));
    value.append_item(Item { path: vec![key("a"), Path::Index(1), key("b")], value: Value::Null });
    assert_eq!(
        value,
        Value::Object(vec![member(
            "a",
            Value::Array(vec![Value::Int(1), Value::Object(vec![member("b", Value::Null)])])
        )])
    );
    value.append_item(Item { path: vec![key("a"), Path::Index(0)], value: Value::Boolean(true) });
    value.append_item(Item { path: vec![key("z")], value: Value::Int(9) });
    assert_eq!(
        value,
        Value::Object(vec![
            member(
                "a",
                Value::Array(vec![
                    Value::Boolean(true),
                    Value::Object(vec![member("b", Value::Null)])
                ])
            ),
            member("z", Value::Int(9)),
        ])
    );
    value.append_item(Item { path: vec![], value: Value::Int(0) });
    assert_eq!(value, Value::Int(0));
}

#[test]
fn append_item_fills_up_and_overwrites() {
    let mut value = Value::String("x".to_string());
    value.append_item(Item { path: vec![Path::Index(2)], value: Value::Int(1) });
    assert_eq!(value, Value::Array(vec![Value::Null, Value::Null, Value::Int(1)]));
    value.append_item(Item { path: vec![key("k"), key("l")], value: Value::Int(2) });
    assert_eq!(
        value,
        Value::Object(vec![member("k", Value::Object(vec![member("l", Value::Int(2))]))])
    );
}

#[test]
fn build_folds_the_assignments_in_order() {
    let items = vec![
        Item { path: vec![Path::Index(0)], value: Value::Int(1) },
        Item { path: vec![Path::Index(1)], value: Value::Int(2) },
        Item { path: vec![Path::Index(0)], value: Value::Int(3) },
    ];
    assert_eq!(build(items), Value::Array(vec![Value::Int(3), Value::Int(2)]));
    assert_eq!(build(vec![]), Value::Null);
}

#[test]
fn lines_parse_back_to_the_tree() {
    let date = DateTime::new(
        Some(Date::new(1999, 12, 31).unwrap()),
        Some(Time::new(23, 59, 59, 5_000).unwrap()),
        Some(Offset::new(5, 30).unwrap()),
    )
    .unwrap();
    let value = Value::Object(vec![
        member("name", Value::String("a = b.c\n\"q\"".to_string())),
        member(
            "list",
            Value::Array(vec![
                Value::Int(i128::MIN),
                Value::Array(vec![]),
                Value::Object(vec![]),
                Value::Array(vec![Value::Array(vec![Value::Boolean(true)])]),
                Value::Float(Float::NegInfinity),
                Value::Float(Float::Finite("0.125".to_string())),
                Value::Null,
            ]),
        ),
        member("when", Value::DateTime(date)),
        member("deep", Value::Object(vec![member("er", Value::Object(vec![member("x", Value::Int(0))]))])),
    ]);
    let text = LineGenerator::new().generate(&value);
    assert_eq!(LineParser::new().parse(&text), Ok(value));
}

#[test]
fn lines_parse_back_with_other_tokens() {
    let value = Value::Array(vec![Value::Object(vec![member("k", Value::Int(1))]), Value::Int(2)]);
    let mut g = LineGenerator::new();
    g.root("root".to_string()).delimiter("->".to_string()).equal(" := ".to_string());
    let mut p = LineParser::new();
    p.root("root".to_string()).delimiter("->".to_string()).equal(" := ".to_string());
    let text = g.generate(&value);
    assert_eq!(text, "root->0->k := 1\nroot->1 := 2\n");
    assert_eq!(p.parse(&text), Ok(value));
}

#[test]
fn deprint_reads_the_lines() {
    let mut config = PrintConfig::new();
    assert_eq!(
        deprint("$.a = 1\n", &config),
        Ok(Value::Object(vec![member("a", Value::Int(1))]))
    );
    config.root("r".to_string()).delimiter("/".to_string()).equal("=".to_string());
    assert_eq!(deprint("r/0=\"x\"", &config), Ok(Value::Array(vec![Value::String("x".to_string())])));
    assert!(matches!(kind_of(deprint("$.a = 1", &config)), ErrorKind::Syntax(Expected::Root)));
}

#[test]
fn a_number_in_a_line_ends_where_its_literal_ends() {
    assert_eq!(
        LineParser::new().parse("$.a = 1x"),
        Err(ParseError { kind: ErrorKind::Syntax(Expected::Number), offset: 7, line: 0, column: 7 })
    );
    assert!(matches!(
        kind_of(LineParser::new().parse("$.a = 202-1")),
        ErrorKind::Syntax(Expected::Number)
    ));
}

#[test]
fn a_leaf_at_the_root_does_not_read_back() {
    let text = LineGenerator::new().generate(&Value::Int(1));
    assert_eq!(text, "$ = 1\n");
    assert!(matches!(
        kind_of(LineParser::new().parse(&text)),
        ErrorKind::Syntax(Expected::Delimiter)
    ));
}

#[test]
fn a_key_that_is_a_numeral_reads_back_as_an_index() {
    let value = Value::Object(vec![member("0", Value::Int(1))]);
    let text = LineGenerator::new().generate(&value);
    assert_eq!(text, "$.0 = 1\n");
    assert_eq!(LineParser::new().parse(&text), Ok(Value::Array(vec![Value::Int(1)])));
}

#[test]
fn a_key_with_the_delimiter_reads_back_as_two_steps() {
    let value = Value::Object(vec![member("a.b", Value::Int(1))]);
    let text = LineGenerator::new().generate(&value);
    assert_eq!(
        LineParser::new().parse(&text),
        Ok(Value::Object(vec![member("a", Value::Object(vec![member("b", Value::Int(1))]))]))
    );
}

#[test]
fn a_key_with_a_space_reads_back() {
    let value = Value::Object(vec![member("a b", Value::Object(vec![member("=", Value::Null)]))]);
    let text = LineGenerator::new().generate(&value);
    assert_eq!(text, "$.a b.= = null\n");
    assert_eq!(LineParser::new().parse(&text), Ok(value));
}

#[test]
fn append_item_keeps_an_element_that_is_there() {
    let mut value = Value::Array(vec![Value::Int(1), Value::Int(2), Value::Int(3)]);
    value.append_item(Item { path: vec![Path::Index(1)], value: Value::Null });
    assert_eq!(value, Value::Array(vec![Value::Int(1), Value::Null, Value::Int(3)]));
    value.append_item(Item { path: vec![Path::Index(3)], value: Value::Int(4) });
    assert_eq!(
        value,
        Value::Array(vec![Value::Int(1), Value::Null, Value::Int(3), Value::Int(4)])
    );
}
