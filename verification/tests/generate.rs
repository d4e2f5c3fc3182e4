use df_utils::datetime::{Date, DateTime, Offset, Time};
use df_utils::generator::json::string;
use df_utils::generator::{Generator, LineGenerator, MinJsonGenerator, PrettyJsonGenerator};
use df_utils::parser::{JsonParser, Parser};
use df_utils::print::{print, PrintConfig};
use df_utils::{Float, Member, Value};

fn member(key: &str, value: Value) -> Member {
    Member { key: key.to_string(), value }
}

fn sample() -> Value {
    Value::Object(vec![
        member("a", Value::Int(1)),
        member("b", Value::Array(vec![Value::Boolean(true), Value::Null])),
    ])
}

#[test]
fn pretty_empty_array_with_indent_two() {
    let text = PrettyJsonGenerator::new().indent(2).generate(&Value::Array(vec![]));
    assert_eq!(text, "[]\n");
}

#[test]
fn pretty_empty_object() {
    assert_eq!(PrettyJsonGenerator::new().generate(&Value::Object(vec![])), "{}\n");
    let nested = Value::Array(vec![Value::Array(vec![]), Value::Object(vec![])]);
    assert_eq!(PrettyJsonGenerator::new().indent(1).generate(&nested), "[\n [],\n {}\n]\n");
}

#[test]
fn pretty_nested_with_indent_two() {
    let text = PrettyJsonGenerator::new().indent(2).generate(&sample());
    assert_eq!(text, "{\n  \"a\": 1,\n  \"b\": [\n    true,\n    null\n  ]\n}\n");
}

#[test]
fn pretty_default_indent_is_four() {
    let text = PrettyJsonGenerator::new().generate(&Value::Array(vec![Value::Int(7)]));
    assert_eq!(text, "[\n    7\n]\n");
    assert_eq!(PrettyJsonGenerator::default().generate(&Value::Array(vec![Value::Int(7)])), text);
}

#[test]
fn pretty_indent_zero_keeps_the_line_breaks() {
    let text = PrettyJsonGenerator::new().indent(0).generate(&sample());
    assert_eq!(text, "{\n\"a\": 1,\n\"b\": [\ntrue,\nnull\n]\n}\n");
}

#[test]
fn pretty_scalar_ends_with_a_line_break() {
    assert_eq!(PrettyJsonGenerator::new().generate(&Value::Null), "null\n");
}

#[test]
fn minified_has_no_white_space() {
    assert_eq!(MinJsonGenerator.generate(&sample()), "{\"a\":1,\"b\":[true,null]}");
    assert_eq!(MinJsonGenerator.generate(&Value::Array(vec![])), "[]");
    assert_eq!(MinJsonGenerator.generate(&Value::Object(vec![])), "{}");
    assert_eq!(MinJsonGenerator.generate(&Value::Boolean(false)), "false");
}

#[test]
fn integers_in_decimal() {
    assert_eq!(MinJsonGenerator.generate(&Value::Int(0)), "0");
    assert_eq!(MinJsonGenerator.generate(&Value::Int(-1)), "-1");
    assert_eq!(MinJsonGenerator.generate(&Value::Int(1234567890)), "1234567890");
    assert_eq!(
        MinJsonGenerator.generate(&Value::Int(i128::MAX)),
        "170141183460469231731687303715884105727"
    );
    assert_eq!(
        MinJsonGenerator.generate(&Value::Int(i128::MIN)),
        "-170141183460469231731687303715884105728"
    );
}

#[test]
fn floats_in_json() {
    assert_eq!(MinJsonGenerator.generate(&Value::Float(Float::Infinity)), "Infinity");
    assert_eq!(MinJsonGenerator.generate(&Value::Float(Float::NegInfinity)), "-Infinity");
    assert_eq!(MinJsonGenerator.generate(&Value::Float(Float::Nan)), "NaN");
    let half = format!("{}", 0.5f64);
    assert_eq!(MinJsonGenerator.generate(&Value::Float(Float::Finite(half))), "0.5");
}

#[test]
fn string_escapes() {
    let mut buf: Vec<char> = vec!['x'];
    string(&mut buf, "\"\\\u{8}\u{c}\n\r\t\u{0}\u{1}\u{1f}\u{7f} /\u{e9}\u{1F600}");
    let text: String = buf.into_iter().collect();
    assert_eq!(
        text,
        "x\"\\\"\\\\\\b\\f\\n\\r\\t\\u0000\\u0001\\u001f\u{7f} /\u{e9}\u{1F600}\""
    );
}

#[test]
fn string_value_and_key_are_escaped_alike() {
    let value = Value::Object(vec![member("k\n", Value::String("v\u{b}".to_string()))]);
    assert_eq!(MinJsonGenerator.generate(&value), "{\"k\\n\":\"v\\u000b\"}");
}

#[test]
fn date_time_in_json_is_a_string() {
    let d = DateTime::new(Some(Date::new(2020, 2, 29).unwrap()), None, None).unwrap();
    assert_eq!(MinJsonGenerator.generate(&Value::DateTime(d)), "\"2020-02-29\"");
    assert_eq!(PrettyJsonGenerator::new().generate(&Value::DateTime(d)), "\"2020-02-29\"\n");
}

#[test]
fn pretty_printing_twice_gives_the_same_text() {
    let source = "{\"b\":[1,[],{},{\"c\":\"x\\ny\"}],\"a\":-2.50,\"b\":null,\"n\":[[[0]]]}";
    let first = JsonParser.parse(source).unwrap();
    let text = PrettyJsonGenerator::new().indent(3).generate(&first);
    let second = JsonParser.parse(&text).unwrap();
    assert_eq!(second, first);
    assert_eq!(PrettyJsonGenerator::new().indent(3).generate(&second), text);
}

#[test]
fn lines_of_a_tree() {
    assert_eq!(LineGenerator::new().generate(&sample()), "$.a = 1\n$.b.0 = true\n$.b.1 = null\n");
}

#[test]
fn lines_of_leaves_and_empty_containers() {
    assert_eq!(LineGenerator::new().generate(&Value::Null), "$ = null\n");
    assert_eq!(LineGenerator::new().generate(&Value::Array(vec![])), "$ = []\n");
    assert_eq!(LineGenerator::new().generate(&Value::Object(vec![])), "$ = {}\n");
    let value = Value::Array(vec![
        Value::Array(vec![]),
        Value::Object(vec![]),
        Value::String("a\"b\n".to_string()),
        Value::Float(Float::Nan),
        Value::Float(Float::Infinity),
        Value::Float(Float::NegInfinity),
        Value::Float(Float::Finite("2.5".to_string())),
        Value::Int(-3),
        Value::Boolean(false),
    ]);
    assert_eq!(
        LineGenerator::new().generate(&value),
        "$.0 = []\n$.1 = {}\n$.2 = \"a\\\"b\\n\"\n$.3 = NaN\n$.4 = inf\n$.5 = -inf\n$.6 = 2.5\n$.7 = -3\n$.8 = false\n"
    );
}

#[test]
fn lines_with_other_tokens() {
    let mut g = LineGenerator::new();
    g.root("json".to_string()).delimiter("/".to_string()).equal(": ".to_string());
    assert_eq!(g.generate(&sample()), "json/a: 1\njson/b/0: true\njson/b/1: null\n");
}

#[test]
fn lines_index_above_nine() {
    let value = Value::Array((0..11).map(Value::Int).collect());
    let text = LineGenerator::new().generate(&value);
    assert!(text.ends_with("$.9 = 9\n$.10 = 10\n"));
}

#[test]
fn lines_of_a_date_time() {
    let d = DateTime::new(
        Some(Date::new(2021, 12, 31).unwrap()),
        Some(Time::new(23, 59, 60, 120_000_000).unwrap()),
        Some(Offset::new(-3, 30).unwrap()),
    )
    .unwrap();
    let value = Value::Object(vec![member("t", Value::DateTime(d))]);
    assert_eq!(LineGenerator::new().generate(&value), "$.t = 2021-12-31T23:59:60.12-03:30\n");
}

#[test]
fn print_writes_the_lines() {
    let mut config = PrintConfig::new();
    assert_eq!(print(&sample(), &config), "$.a = 1\n$.b.0 = true\n$.b.1 = null\n");
    config.root("r".to_string());
    config.delimiter("::".to_string());
    config.equal("=".to_string());
    assert_eq!(print(&sample(), &config), "r::a=1\nr::b::0=true\nr::b::1=null\n");
    assert_eq!(PrintConfig::default(), PrintConfig::new());
}

#[test]
fn a_finite_float_takes_a_decimal_number() {
    for text in ["0", "-0", "1", "1.5", "-12.25", "1e5", "1E-5", "0.5e+10", ".5", "-.5e2", "10"] {
        assert_eq!(Float::finite(text.to_string()), Some(Float::Finite(text.to_string())));
    }
    for text in ["", "-", "+1", "01", "5.", "1e", "1e+", "0x10", "NaN", "inf", "1 ", " 1", "1.5.2", "--1", ".", "1,5"] {
        assert_eq!(Float::finite(text.to_string()), None);
    }
    for number in [0.0f64, -0.0, 1.0, 0.1, -2.5e-7, 1e300, f64::MAX, f64::MIN_POSITIVE, 123456789.125] {
        assert!(Float::finite(number.to_string()).is_some());
    }
}
