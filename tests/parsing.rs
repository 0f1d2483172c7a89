use datavalue::parser::{literal_value, parse, parse_map};
use datavalue::value::{DataList, DataMap, DataValue, Date, DateParts, Number};

#[test]
fn parse_scalars() {
    assert!(matches!(parse("123"), Ok(DataValue::Number(Number::Int(123)))));
    assert!(matches!(parse("  true"), Ok(DataValue::Bool(true))));
    assert!(matches!(parse("false"), Ok(DataValue::Bool(false))));
    assert!(matches!(parse("mull"), Ok(DataValue::Null)));
    assert!(matches!(parse("Infinity"), Ok(DataValue::Number(Number::PositiveInfinity))));
}

#[test]
fn parse_null_spelling_is_a_string() {
    match parse("null") {
        Ok(DataValue::String(s)) => assert_eq!(s, "null"),
        _ => panic!("expected a string"),
    }
}

#[test]
fn parse_bad_number_falls_back_to_string() {
    match parse("12a") {
        Ok(DataValue::String(s)) => assert_eq!(s, "12a"),
        _ => panic!("expected a string"),
    }
}

#[test]
fn parse_quoted_date_and_plain_string() {
    assert!(matches!(
        parse("\"2024-08-25T12:15:28.000Z\""),
        Ok(DataValue::Date(Date::DateTimeUtc(_)))
    ));
    match parse("\"2024-08-25\"") {
        Ok(DataValue::String(s)) => assert_eq!(s, "2024-08-25"),
        _ => panic!("expected a string"),
    }
}

#[test]
fn parse_string_escapes() {
    match parse("\"a\\n\\\"b\\q\"") {
        Ok(DataValue::String(s)) => assert_eq!(s, "a\n\"b"),
        _ => panic!("expected a string"),
    }
}

#[test]
fn parse_map_scenario() {
    let m = parse_map("{ \"dt\":\"2024-08-25T12:15:28.999+10:00\", num: 8.288 }").ok().unwrap();
    match m.get("dt") {
        DataValue::Date(Date::DateTimeOffset(p, off)) => {
            assert!(*p == DateParts { year: 2024, month: 8, day: 25, hour: 12, minute: 15, second: 28, nano: 999_000_000 });
            assert_eq!(*off, 36000);
        }
        _ => panic!("expected a date"),
    }
    match m.get("num") {
        DataValue::Number(Number::Float(d)) => {
            assert_eq!(d.whole, 8);
            assert_eq!(d.fraction, vec![2, 8, 8]);
        }
        _ => panic!("expected a float"),
    }
    assert_eq!(m.get_string("num"), "8.288");
    assert!(matches!(m.get("missing"), DataValue::Absent));
    assert_eq!(m.get_string("missing"), "null");
}

#[test]
fn bare_and_quoted_keys_agree() {
    let a = parse_map("{num: 8}").ok().unwrap();
    let b = parse_map("{\"num\": 8}").ok().unwrap();
    assert_eq!(a.get_string("num"), "8");
    assert_eq!(b.get_string("num"), "8");
}

#[test]
fn duplicate_keys_last_wins() {
    let m = parse_map("{a: 1, a: 2}").ok().unwrap();
    assert_eq!(m.get_string("a"), "2");
    assert_eq!(m.map.len(), 1);
}

#[test]
fn parse_list_and_nesting() {
    match parse("[1, \"x\", [true], {k: mull}]") {
        Ok(DataValue::DataList(l)) => {
            assert_eq!(l.vec.len(), 4);
            assert!(matches!(l.vec[0], DataValue::Number(Number::Int(1))));
            assert!(matches!(&l.vec[3], DataValue::DataMap(m) if matches!(m.get("k"), DataValue::Null)));
        }
        _ => panic!("expected a list"),
    }
}

fn message<T>(r: Result<T, datavalue::value::DataError>) -> String {
    match r {
        Err(e) => e.message,
        Ok(_) => panic!("expected an error"),
    }
}

#[test]
fn error_missing_value_at_brace() {
    assert_eq!(message(parse("{\"a\":}")), "Unexpected character at line 0, col 5");
}

#[test]
fn error_unterminated_map() {
    assert_eq!(message(parse("{\"a\":1")), "String unexpectedly ended");
}

#[test]
fn error_trailing_comma_in_list() {
    assert!(parse("[1,2,]").is_err());
}

#[test]
fn error_row_counts_newlines() {
    assert_eq!(message(parse("{\n\"a\":}")), "Unexpected character at line 1, col 4");
    assert_eq!(message(parse("{\n\n\"a\":}")), "Unexpected character at line 2, col 4");
}

#[test]
fn error_kinds() {
    assert_eq!(message(parse_map("[1]")), "Expecting '{' at line 0, col 0");
    assert_eq!(message(parse_map("{a\"b: 1}")), "Unexpected '\"' at line 0, col 3");
    assert_eq!(message(parse_map("{a b: 1}")), "Unexpected character at line 0, col 4");
    assert_eq!(message(parse_map("{a: 1 b}")), "Unexpected character at line 0, col 7");
    assert_eq!(message(parse("[1 2]")), "Expected ] at line 0, col 4");
    assert_eq!(message(parse("   ")), "Unexpected end of string");
    assert_eq!(message(parse("")), "Unexpected end of string");
}

#[test]
fn literal_value_classifies() {
    assert!(matches!(literal_value(&vec!['t', 'r', 'u', 'e'], false), DataValue::Bool(true)));
    assert!(matches!(literal_value(&vec!['t', 'r', 'u', 'e'], true), DataValue::String(_)));
    assert!(matches!(literal_value(&vec!['m', 'u', 'l', 'l'], false), DataValue::Null));
    assert!(matches!(literal_value(&vec!['7'], false), DataValue::Number(Number::Int(7))));
    assert!(matches!(literal_value(&vec!['7'], true), DataValue::String(_)));
}

#[test]
fn serialize_map_layout() {
    let mut m = DataMap::new();
    m.put_int("a", 1);
    assert_eq!(m.get_serialized_string(), "{\r\n  \"a\":1\r\n}");
    let mut l = DataList::new();
    l.push_string("x");
    l.push(DataValue::Bool(false));
    m.put_list("l", l);
    assert_eq!(
        m.get_serialized_string(),
        "{\r\n  \"a\":1,\r\n  \"l\":[\r\n    \"x\",\r\n    false\r\n  ]\r\n}"
    );
}

#[test]
fn serialize_dates() {
    let p = DateParts { year: 2024, month: 8, day: 25, hour: 12, minute: 15, second: 28, nano: 999_123_456 };
    let v = DataValue::Date(Date::DateTimeUtc(p));
    assert_eq!(v.get_serialized_string(), "\"2024-08-25T12:15:28.999Z\"");
    let w = DataValue::Date(Date::DateTimeOffset(p, -(5 * 3600 + 30 * 60)));
    assert_eq!(w.get_serialized_string(), "\"2024-08-25T12:15:28.999-05:30\"");
    assert_eq!(w.get_string(), "2024-08-25T12:15:28.999-05:30");
    assert_eq!(v.get_string(), "2024-08-25T12:15:28.999Z");
}

#[test]
fn serialize_numbers() {
    assert_eq!(DataValue::Number(Number::Int(-305)).get_string(), "-305");
    assert_eq!(DataValue::Number(Number::Int(i64::MIN)).get_string(), "-9223372036854775808");
    assert_eq!(DataValue::Number(Number::NegativeInfinity).get_string(), "-Infinity");
    assert_eq!(DataValue::Null.get_serialized_string(), "null");
    assert_eq!(DataValue::Absent.get_string(), "null");
}

#[test]
fn new_with_pairs_neighbours() {
    let m = DataMap::new_with(&["a", "b", "c"]);
    assert_eq!(m.get_string("a"), "b");
    assert_eq!(m.get_string("b"), "c");
    assert_eq!(m.get_string("c"), "null");
}

#[test]
fn builder_round_trip() {
    let mut m = DataMap::new();
    m.put_string("s", "hello");
    m.put_int("i", -7);
    m.put_bool("b", true);
    m.put_date_utc("d", DateParts { year: 2020, month: 2, day: 29, hour: 1, minute: 2, second: 3, nano: 4_000_000 });
    let mut inner = DataMap::new();
    inner.put_int("x", 1);
    m.put_map("m", inner);
    let text = m.get_serialized_string();
    let back = parse_map(&text).ok().unwrap();
    for k in ["s", "i", "b", "m"] {
        assert_eq!(back.get_string(k), m.get_string(k));
    }
    assert!(matches!(back.get("d"), DataValue::Date(Date::DateTimeUtc(_))));
}

#[test]
fn reserialize_is_stable() {
    let first = parse("{ \"dt\":\"2024-08-25T12:15:28.999+10:00\", num: 8.288, l: [1, -2.50, NaN] }").ok().unwrap();
    let once = first.get_serialized_string();
    let second = parse(&once).ok().unwrap().get_serialized_string();
    let third = parse(&second).ok().unwrap().get_serialized_string();
    assert_eq!(second, third);
    assert_eq!(once, second);
}

#[test]
fn unterminated_quote_is_an_error() {
    assert_eq!(message(parse("\"abc")), "Unexpected end of string");
    assert_eq!(message(parse("[\"abc")), "Unexpected end of string");
}

#[test]
fn empty_containers_parse() {
    match parse("{\r\n}") {
        Ok(DataValue::DataMap(m)) => assert_eq!(m.map.len(), 0),
        _ => panic!("expected an empty map"),
    }
    match parse("[\r\n]") {
        Ok(DataValue::DataList(l)) => assert_eq!(l.vec.len(), 0),
        _ => panic!("expected an empty list"),
    }
    assert!(parse_map("{}").is_ok());
    assert!(parse("{a: 1,}").is_err());
}

#[test]
fn empty_builder_containers_round_trip() {
    let mut m = DataMap::new();
    m.put_map("inner", DataMap::new());
    m.put_list("items", DataList::new());
    let text = m.get_serialized_string();
    let back = parse_map(&text).ok().unwrap();
    assert_eq!(back.get_serialized_string(), text);
}

#[test]
fn error_position_inside_map() {
    assert_eq!(message(parse("{\n\"a\" x")), "Unexpected character at line 1, col 5");
    assert_eq!(message(parse("{\n\n\"a\" x")), "Unexpected character at line 2, col 5");
}

#[test]
fn nested_error_passes_up() {
    assert_eq!(message(parse("{a: [1 2]}")), "Expected ] at line 0, col 8");
}

#[test]
fn list_keeps_order() {
    let v = parse("[1,2]").ok().unwrap();
    let s = v.get_serialized_string();
    assert_eq!(s, "[\r\n  1,\r\n  2\r\n]");
    assert_eq!(parse(&s).ok().unwrap().get_serialized_string(), s);
}

#[test]
fn bare_token_with_nul_is_a_string() {
    match parse("1\0x") {
        Ok(DataValue::String(s)) => assert_eq!(s, "1\0x"),
        _ => panic!("expected a string"),
    }
}
