use json_parser::{parse_str, Container};

fn real_of(c: &Container) -> Option<f64> {
    c.get_real().map(|d| d.text().parse::<f64>().unwrap())
}

#[test]
fn test_true_false() {
    let p = parse_str(r#"[truer]"#);

    assert!(p.is_err());
    assert!(parse_str(r#"[falsei]"#).is_err());
}

#[test]
fn test_err_numbers() {
    assert!(parse_str("12").is_ok_and(|c| c.get_uint() == Some(12)));
    assert!(parse_str("24.33").is_ok_and(|c| real_of(&c) == Some(24.33)));
    assert!(parse_str(".5").is_err());
    assert!(parse_str("1e5").is_ok_and(|c| real_of(&c) == Some(1e5)));
    assert!(parse_str("5e-6").is_ok_and(|c| real_of(&c) == Some(5e-6)));
    assert!(parse_str("-6e-5").is_ok_and(|c| real_of(&c) == Some(-6e-5)));
    assert!(parse_str("-7.5e-5").is_ok_and(|c| real_of(&c) == Some(-7.5e-5)));
    assert!(parse_str("-.5e-5").is_err());
    assert!(parse_str("-1-e5").is_err());
    assert!(parse_str("-12132e5").is_ok_and(|c| real_of(&c) == Some(-12132e5)));
}

#[test]
fn test_primitive() {
    assert!(parse_str("12").is_ok_and(|c| c.get_uint().is_some_and(|d| d == 12)));
    assert!(parse_str("-64").is_ok_and(|c| c.get_int().is_some_and(|d| d == -64)));
    assert!(parse_str("123.4").is_ok_and(|c| real_of(&c).is_some_and(|d| d == 123.4)));
    assert!(parse_str("1.4e-8").is_ok_and(|c| real_of(&c).is_some_and(|d| d == 1.4e-8)));
    assert!(parse_str("null").is_ok_and(|c| c.is_null()));
    assert!(parse_str("true").is_ok_and(|c| c.get_bool().is_some_and(|d| d == true)));
    assert!(parse_str("false").is_ok_and(|c| c.get_bool().is_some_and(|d| d == false)));
    assert!(parse_str("\"false\"")
        .is_ok_and(|c| c.get_string().is_some_and(|d| d == "false".to_owned())));
}

#[test]
fn test_escaped_string() {
    assert!(parse_str("\"Someone said \\\"The brown fox jumps over the lazy dog.\\\"\"")
        .is_ok_and(|c| c
            .get_string()
            .is_some_and(|d| { d == "Someone said \"The brown fox jumps over the lazy dog.\"" })));
    assert!(parse_str("\"Encoding new line\\ncan be done as well. This is how\\t we do it.\"")
        .is_ok_and(|c| c.get_string().is_some_and(|d| {
            d == "Encoding new line\ncan be done as well. This is how\t we do it."
        })));
    assert!(parse_str("\"Encoding new line\\ncan be done as well. This is how\\a we do it.\"").is_err());
}

#[test]
fn test_string_incomplete() {
    assert!(parse_str("{\"a\": \"a}").is_err());
}

#[test]
fn test_array() {
    assert!(parse_str("[1]").is_ok_and(|c| c.is_array() && c.index(0).is_unsigned()));
    assert!(parse_str("[\"\"],").is_err());
    assert!(parse_str("[\"\",]").is_err());
    assert!(parse_str("[[[[[[[[[[[[[[]]]]]]]]]]]]]]").is_ok());
    assert!(parse_str("[++1111]").is_err());
    assert!(parse_str("[1.2e-]").is_err());
    assert!(parse_str("[1.2e-++3]").is_err());
    assert!(parse_str("[1 .2e3]").is_err());
    assert!(parse_str("[1.2e3]").is_ok());
    assert!(parse_str("[.2e3]").is_err());
    assert!(parse_str("[-.1]").is_err());
    assert!(parse_str("[.-1]").is_err());
}

const OBJECT_TEXT: &str = r#"{
            "tell": "me",
            "where": 123.98,
            "you": 1.9e2,
            "are": [
                1,2,3,4,5,6,7,8,9,10000.000987,2.99e-7
            ],
            "i'll": {
                "come":  "for",
                "you": [
                    "and",
                    { "parse": "json" },
                    true,
                    false,
                    { "eof": null }
                ]
            }
        }"#;

fn check_object_document() {
    let a = parse_str(OBJECT_TEXT).unwrap();

    assert_eq!(a.index_key("tell").get_string().unwrap(), "me");

    assert_eq!(real_of(a.index_key("are").index(9)).unwrap(), 10000.000987);
    assert_eq!(a.index_key("are").index(2).get_uint().unwrap(), 3);
    assert_eq!(real_of(a.index_key("are").index(10)).unwrap(), 2.99e-7);

    assert_eq!(a.index_key("i'll").index_key("you").index(0).get_string().unwrap(), "and");
    assert_eq!(
        a.index_key("i'll").index_key("you").index(1).index_key("parse").get_string().unwrap(),
        "json"
    );

    assert_eq!(a.index_key("i'll").index_key("you").index(1).index_key("parser").get_string(), None);

    assert_eq!(a.index_key("i'll").index_key("you").index(2).get_bool().unwrap(), true);
}

#[test]
fn test_object() {
    check_object_document();
}

#[test]
fn test_test_object() {
    check_object_document();
}

#[test]
fn test_empty() {
    assert!(parse_str("{}").is_ok_and(|c| c.is_object() && c.len() == 0));
    assert!(parse_str("[]").is_ok_and(|c| c.is_array() && c.len() == 0));
    assert!(parse_str("[[]").is_err());
}
