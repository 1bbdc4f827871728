//! Segment parsing: numeric values, placeholder names, trimming and
//! splitting.

use plaid::numbers::{parse_i32, parse_u32};
use plaid::ptype::ParameterType;
use plaid::segments::{split_slash, str_eq, trim_slashes, trim_start_slashes};

#[test]
fn parse_u32_values() {
    assert_eq!(parse_u32("0"), Some(0));
    assert_eq!(parse_u32("42"), Some(42));
    assert_eq!(parse_u32("+42"), Some(42));
    assert_eq!(parse_u32("007"), Some(7));
    assert_eq!(parse_u32("4294967295"), Some(u32::MAX));
}

#[test]
fn parse_u32_rejections() {
    assert_eq!(parse_u32(""), None);
    assert_eq!(parse_u32("+"), None);
    assert_eq!(parse_u32("-1"), None);
    assert_eq!(parse_u32("4294967296"), None);
    assert_eq!(parse_u32("99999999999999999999"), None);
    assert_eq!(parse_u32("4 2"), None);
    assert_eq!(parse_u32("abc"), None);
    assert_eq!(parse_u32("12a"), None);
}

#[test]
fn parse_i32_values() {
    assert_eq!(parse_i32("0"), Some(0));
    assert_eq!(parse_i32("-0"), Some(0));
    assert_eq!(parse_i32("123"), Some(123));
    assert_eq!(parse_i32("+123"), Some(123));
    assert_eq!(parse_i32("-5"), Some(-5));
    assert_eq!(parse_i32("2147483647"), Some(i32::MAX));
    assert_eq!(parse_i32("-2147483648"), Some(i32::MIN));
}

#[test]
fn parse_i32_rejections() {
    assert_eq!(parse_i32(""), None);
    assert_eq!(parse_i32("-"), None);
    assert_eq!(parse_i32("+"), None);
    assert_eq!(parse_i32("2147483648"), None);
    assert_eq!(parse_i32("-2147483649"), None);
    assert_eq!(parse_i32("--1"), None);
    assert_eq!(parse_i32("1.5"), None);
}

#[test]
fn parse_name_classifies_types() {
    assert_eq!(
        ParameterType::parse_name(":id{i32}"),
        (String::from("id"), ParameterType::I32)
    );
    assert_eq!(
        ParameterType::parse_name(":id{u32}"),
        (String::from("id"), ParameterType::U32)
    );
    assert_eq!(
        ParameterType::parse_name(":name"),
        (String::from("name"), ParameterType::String)
    );
    assert_eq!(
        ParameterType::parse_name(":x{i64}"),
        (String::from("x"), ParameterType::String)
    );
    assert_eq!(
        ParameterType::parse_name(":x{u32"),
        (String::from("x"), ParameterType::String)
    );
    assert_eq!(
        ParameterType::parse_name(":{u32}"),
        (String::from(""), ParameterType::U32)
    );
    assert_eq!(
        ParameterType::parse_name("::x"),
        (String::from("x"), ParameterType::String)
    );
    assert_eq!(
        ParameterType::parse_name("plain"),
        (String::from("plain"), ParameterType::String)
    );
}

#[test]
fn trimming() {
    assert_eq!(trim_start_slashes("//a/b/"), "a/b/");
    assert_eq!(trim_slashes("//a/b//"), "a/b");
    assert_eq!(trim_slashes("///"), "");
    assert_eq!(trim_slashes("a"), "a");
}

#[test]
fn splitting() {
    assert_eq!(split_slash("a/b"), vec![String::from("a"), String::from("b")]);
    assert_eq!(
        split_slash("a//b"),
        vec![String::from("a"), String::from(""), String::from("b")]
    );
    assert_eq!(split_slash("abc"), vec![String::from("abc")]);
    assert_eq!(split_slash(""), vec![String::from("")]);
}

#[test]
fn string_equality() {
    assert!(str_eq("", ""));
    assert!(str_eq("abc", "abc"));
    assert!(!str_eq("abc", "abd"));
    assert!(!str_eq("abc", "ab"));
    assert!(str_eq("héllo", "héllo"));
    assert!(!str_eq("héllo", "hello"));
}
