use json_parser::{parse_str, read_str, Container, Error, ParseError, Parser};

fn failure(text: &str) -> ParseError {
    match parse_str(text) {
        Err(Error::Parsing(e)) => e,
        Ok(_) => panic!("{text} parsed"),
    }
}

fn nested(levels: usize) -> String {
    let mut text = String::new();
    for _ in 0..levels {
        text.push('[');
    }
    for _ in 0..levels {
        text.push(']');
    }
    text
}

#[test]
fn empty_containers_have_length_zero() {
    let o = parse_str("{}").unwrap();
    assert!(o.is_object() && o.len() == 0);
    let a = parse_str("[]").unwrap();
    assert!(a.is_array() && a.len() == 0);
}

#[test]
fn numbers_take_their_kind_from_the_token() {
    assert_eq!(parse_str("12").unwrap().get_uint(), Some(12));
    assert_eq!(parse_str("-64").unwrap().get_int(), Some(-64));
    assert_eq!(parse_str("123.4").unwrap().get_real().unwrap().text(), "123.4");
    assert_eq!(parse_str("1.4e-8").unwrap().get_real().unwrap().text(), "1.4e-8");
    assert_eq!(parse_str("18446744073709551615").unwrap().get_uint(), Some(u64::MAX));
    assert_eq!(parse_str("-9223372036854775808").unwrap().get_int(), Some(i64::MIN));
    assert_eq!(parse_str("-0").unwrap().get_int(), Some(0));
}

#[test]
fn rejected_number_tokens() {
    for text in [".5", "-.5e-5", "-1-e5", "1.2e-", "1.2e-++3", "1 .2e3", ".2e3", "-.1", ".-1", "1-2", "-", "1.", "1e5e3"] {
        assert!(parse_str(text).is_err(), "{text} parsed");
    }
}

#[test]
fn numbers_too_large_fail() {
    assert!(matches!(failure("18446744073709551616"), ParseError::InvalidNumberParse('1')));
    assert!(matches!(failure("-9223372036854775809"), ParseError::InvalidNumberParse('-')));
}

#[test]
fn number_grammar_errors_name_the_byte() {
    assert!(matches!(failure("1x"), ParseError::InvalidNumberParse('x')));
    assert!(matches!(failure("1.2."), ParseError::InvalidNumberParse('.')));
    assert!(matches!(failure("1e"), ParseError::InvalidNumberParse('\0')));
    assert!(matches!(failure("12+3"), ParseError::UnexpectedToken('+', 1, 4)));
}

#[test]
fn nesting_at_the_ceiling_succeeds() {
    assert!(parse_str(&nested(5000)).is_ok());
}

#[test]
fn nesting_past_the_ceiling_fails() {
    assert!(matches!(failure(&nested(5001)), ParseError::NestedDepthExceeded(5001)));
}

#[test]
fn escaped_quotes_are_decoded() {
    let c = parse_str("\"Someone said \\\"hi\\\"\"").unwrap();
    assert_eq!(c.get_string().unwrap(), "Someone said \"hi\"");
    let c = parse_str("\"back\\\\slash\"").unwrap();
    assert_eq!(c.get_string().unwrap(), "back\\slash");
}

#[test]
fn unknown_escape_fails() {
    assert!(matches!(failure("\"a\\qb\""), ParseError::UnexpectedToken('q', 1, 5)));
}

#[test]
fn missing_entries_read_as_null() {
    let o = parse_str("{}").unwrap();
    assert!(o.index_key("x").is_null());
    let a = parse_str("[1]").unwrap();
    assert!(a.index(1).is_null());
    assert!(a.index_key("x").is_null());
    assert!(o.index(0).is_null());
}

#[test]
fn trailing_data_fails() {
    assert!(matches!(failure("[1]x"), ParseError::UnexpectedToken('x', 1, 5)));
    assert!(parse_str(" [1] \n").is_ok());
}

#[test]
fn mismatched_brackets_name_both_sides() {
    assert!(matches!(
        failure("[1}"),
        ParseError::ContainerParanthesisMismatch { opening_container: '[', closing_container: '}' }
    ));
    assert!(matches!(
        failure("{\"a\":1]"),
        ParseError::ContainerParanthesisMismatch { opening_container: '{', closing_container: ']' }
    ));
    assert!(matches!(
        failure("[{\"a\":1]"),
        ParseError::ContainerParanthesisMismatch { opening_container: '{', closing_container: ']' }
    ));
}

#[test]
fn object_closed_by_a_bracket_after_a_value() {
    assert!(matches!(
        failure("{1]"),
        ParseError::ContainerParanthesisMismatch { opening_container: '{', closing_container: ']' }
    ));
    assert!(matches!(
        failure("{]"),
        ParseError::ContainerParanthesisMismatch { opening_container: '{', closing_container: ']' }
    ));
    assert!(matches!(
        failure("[}"),
        ParseError::ContainerParanthesisMismatch { opening_container: '[', closing_container: '}' }
    ));
}

#[test]
fn object_key_must_be_a_string() {
    assert!(matches!(failure("{1}"), ParseError::UnexpectedToken('1', 1, 3)));
    assert!(matches!(failure("{1 2]"), ParseError::UnexpectedToken('1', 1, 3)));
    assert!(matches!(failure("{x]"), ParseError::UnexpectedToken('x', 1, 3)));
}

#[test]
fn errors_carry_line_and_column() {
    assert!(matches!(failure("[1,\n x]"), ParseError::UnexpectedToken('x', 2, 2)));
    assert!(matches!(failure("x"), ParseError::UnexpectedToken('x', 1, 2)));
}

#[test]
fn end_of_buffer() {
    assert!(matches!(failure(""), ParseError::EndOfBuffer));
    assert!(matches!(failure("   "), ParseError::EndOfBuffer));
    assert!(matches!(failure("[1,"), ParseError::EndOfBuffer));
    assert!(matches!(failure("tru"), ParseError::EndOfBuffer));
    assert!(matches!(failure("\"abc"), ParseError::EndOfBuffer));
}

#[test]
fn object_entry_without_value() {
    match failure("{\"a\": }") {
        ParseError::InvalidKeyValueFormat { reading_key } => assert_eq!(reading_key, "a"),
        e => panic!("{e:?}"),
    }
}

#[test]
fn invalid_utf8_run() {
    assert!(Parser::slice_to_utf8(&[0x61, 0xff]).is_err());
    assert_eq!(Parser::slice_to_utf8("héllo".as_bytes()).ok(), Some("héllo"));
}

#[test]
fn keywords_are_exact() {
    assert!(matches!(failure("tru e"), ParseError::UnexpectedToken(' ', 1, 5)));
    assert!(parse_str("[true,false,null]").is_ok());
}

#[test]
fn duplicate_keys_keep_the_last_value() {
    let o = parse_str("{\"a\":1,\"b\":2,\"a\":3}").unwrap();
    assert_eq!(o.len(), 2);
    assert_eq!(o.index_key("a").get_uint(), Some(3));
    assert_eq!(o.dump_object(false, 0, 0), "{\"a\":3,\"b\":2}");
}

#[test]
fn compact_dump() {
    let c = parse_str("{\"a\": [1, -2, true, null, \"x\\\"y\"], \"b\": {}, \"c\": 2.5e3}").unwrap();
    assert_eq!(c.dump_object(false, 0, 0), "{\"a\":[1,-2,true,null,\"x\\\"y\"],\"b\":{},\"c\":2.5e3}");
}

#[test]
fn pretty_dump() {
    let c = parse_str("[1,[2]]").unwrap();
    assert_eq!(c.dump_object(true, 4, 1), "[\n    1,\n    [\n        2\n    ]\n]");
    let o = parse_str("{\"k\": 1}").unwrap();
    assert_eq!(o.dump_object(true, 2, 1), "{\n  \"k\": 1\n}");
    assert_eq!(parse_str("[]").unwrap().dump_object(true, 4, 1), "[]");
}

#[test]
fn dump_escapes_strings() {
    let c = Container::String("a\"b\\c\nd\re\tf".to_owned());
    assert_eq!(c.dump_object(false, 0, 0), "\"a\\\"b\\\\c\\nd\\re\\tf\"");
    assert_eq!(Container::Number(0).dump_object(false, 0, 0), "-0");
    assert_eq!(Container::Number(7).dump_object(false, 0, 0), "7");
}

#[test]
fn round_trip_through_compact_text() {
    let text = "{\"tell\": \"me \\\"now\\\"\", \"where\": [1, -2, 3.5e-1, true, null, {\"é\": \"\\\\\"}], \"z\": -0}";
    let first = parse_str(text).unwrap();
    let again = parse_str(&first.dump_object(false, 0, 0)).unwrap();
    assert!(first == again);
    assert!(first.same(&again));
}

#[test]
fn equality_ignores_object_order() {
    let a = parse_str("{\"x\":1,\"y\":[2,3]}").unwrap();
    let b = parse_str("{\"y\":[2,3],\"x\":1}").unwrap();
    let c = parse_str("{\"y\":[3,2],\"x\":1}").unwrap();
    assert!(a == b);
    assert!(a != c);
    assert!(parse_str("1").unwrap() != parse_str("-1").unwrap());
}

#[test]
fn push_and_insert() {
    let mut a = Container::new_array();
    assert!(a.push(Container::Boolean(true)));
    assert!(a.push(Container::Unsigned(1)));
    assert_eq!(a.len(), 2);
    let mut o = Container::new_object();
    assert!(!o.insert_str("k", Container::String("v".to_owned())));
    assert!(o.insert_str("k", Container::Null));
    assert_eq!(o.len(), 1);
    assert!(o.index_key("k").is_null());
    assert!(!o.push(Container::Null));
    assert!(!a.insert_str("k", Container::Null));
    assert_eq!(a.len(), 2);
}

#[test]
fn get_or_create_by_index() {
    let mut v = Container::Unsigned(3);
    *v.index_mut(0) = Container::Boolean(true);
    assert_eq!(v.dump_object(false, 0, 0), "[true]");
    *v.index_mut(7) = Container::Unsigned(2);
    assert_eq!(v.dump_object(false, 0, 0), "[true,2]");
    *v.index_mut(0) = Container::Null;
    assert_eq!(v.dump_object(false, 0, 0), "[null,2]");
}

#[test]
fn get_or_create_by_key() {
    let mut v = Container::Null;
    *v.index_key_mut("a") = Container::Unsigned(1);
    assert_eq!(v.dump_object(false, 0, 0), "{\"a\":1}");
    *v.index_key_mut("b") = Container::Null;
    *v.index_key_mut("a") = Container::Unsigned(5);
    assert_eq!(v.dump_object(false, 0, 0), "{\"a\":5,\"b\":null}");
}

#[test]
fn typed_accessors_and_predicates() {
    let s = parse_str("\"é\"").unwrap();
    assert_eq!(s.len(), 2);
    assert_eq!(s.as_string(), Some("é".to_owned()));
    assert!(s.is_str() && !s.is_number());
    assert!(s.is_string_and(|t| t == "é"));
    assert!(!s.is_bool_and(|b| b));
    assert_eq!(parse_str("7").unwrap().len(), 1);
    assert!(parse_str("true").unwrap().is_bool_and(|b| b));
    assert!(parse_str("-3").unwrap().is_integer_and(|n| n == -3));
    assert!(parse_str("3").unwrap().is_unsigned_and(|n| n == 3));
    assert!(parse_str("3.5").unwrap().is_decimal_and(|d| d.text() == "3.5"));
    assert!(parse_str("[1,2]").unwrap().is_array_and(|a| a.len() == 2));
    assert!(parse_str("{\"a\":1}").unwrap().is_object_and(|e| e.len() == 1 && e[0].0 == "a"));
    assert_eq!(parse_str("null").unwrap().get_bool(), None);
}

#[test]
fn error_messages() {
    assert_eq!(
        failure("x").message(),
        "Unexpected character found: x at line 1, col: 2"
    );
    assert_eq!(
        failure("[1}").message(),
        "The opening bracket '[' and closing bracket '}' do not match"
    );
    assert_eq!(failure(&nested(5001)).message(), "NestedDepthExceeded, >5001");
    assert_eq!(
        Error::Parsing(ParseError::EndOfBuffer).message(),
        "Parse Error:\nThe buffer ended before operating on storage."
    );
}

#[test]
fn parser_method_and_read_str() {
    let mut p = Parser::new("[1, 2]");
    assert_eq!(p.parse_str().unwrap().len(), 2);
    assert!(read_str("{}").unwrap().is_object());
    let mut q = Parser::new("  7");
    assert_eq!(q.get_byte(), Some(b'7'));
    assert_eq!(q.get_byte(), None);
}

#[test]
fn clone_is_deep_and_equal() {
    let a = parse_str("{\"k\": [1, \"two\", {\"x\": null}], \"r\": 1.5}").unwrap();
    let mut b = a.clone();
    assert!(a == b);
    *b.index_key_mut("k").index_mut(0) = Container::Unsigned(9);
    assert!(a != b);
    assert_eq!(a.index_key("k").index(0).get_uint(), Some(1));
}

#[test]
fn pretty_dump_at_depth_zero() {
    assert_eq!(Container::Null.dump_object(true, 4, 0), "null");
    assert_eq!(Container::Boolean(true).dump_object(true, 4, 0), "true");
    assert_eq!(Container::Number(-64).dump_object(true, 4, 0), "-64");
    assert_eq!(Container::Unsigned(12).dump_object(true, 4, 0), "12");
    assert_eq!(Container::String("hi".to_owned()).dump_object(true, 4, 0), "\"hi\"");
    assert_eq!(Container::new_array().dump_object(true, 4, 0), "[]");
    assert_eq!(Container::new_object().dump_object(true, 4, 0), "{}");
}

#[test]
fn compact_text_ignores_layout_arguments() {
    let c = parse_str("{\"a\": [1, {\"b\": null}], \"c\": -2.5e1}").unwrap();
    assert_eq!(c.dump_object(false, 0, 0), c.dump_object(false, 7, 3));
    assert!(parse_str(&c.dump_object(false, 2, 1)).unwrap() == c);
}

#[test]
fn control_characters_are_escaped_as_in_debug_form() {
    let text = "a\u{0}\u{1}b\u{1f}\u{7f}\u{85}\u{9f}\"\\\n\r\té";
    let c = Container::String(text.to_owned());
    let written = c.dump_object(false, 0, 0);
    assert_eq!(written, format!("{:?}", text));
    assert!(parse_str(&written).unwrap() == c);
    let mut o = Container::new_object();
    o.insert_str("\u{1}", Container::Null);
    assert_eq!(o.dump_object(false, 0, 0), "{\"\\u{1}\":null}");
}

#[test]
fn code_escapes_are_decoded() {
    assert_eq!(parse_str("\"\\u{41}\\u{e9}\\u{A}\\0\"").unwrap().get_string().unwrap(), "A\u{e9}\n\u{0}");
    assert!(matches!(failure("\"\\u{}\""), ParseError::UnexpectedToken('}', 1, 6)));
    assert!(matches!(failure("\"\\u41\""), ParseError::UnexpectedToken('4', 1, 5)));
    assert!(matches!(failure("\"\\u{123}\""), ParseError::UnexpectedToken('3', 1, 8)));
    assert!(matches!(failure("\"\\u{4"), ParseError::EndOfBuffer));
}
