use dynamic_cli::config::schema::ArgumentType;
use dynamic_cli::parser::type_parser::parse_bool;
use dynamic_cli::parser::type_parser::parse_integer;
use dynamic_cli::parser::type_parser::parse_path;
use dynamic_cli::parser::type_parser::parse_value;
use dynamic_cli::error::DynamicCliError;
use dynamic_cli::error::ParseError;
use std::path::PathBuf;

#[test]
fn test_parse_value_string() {
    let result = parse_value("hello world", ArgumentType::String).unwrap();
    assert_eq!(result, "hello world");

    let result = parse_value("", ArgumentType::String).unwrap();
    assert_eq!(result, "");
}

#[test]
fn test_parse_value_integer_valid() {
    assert!(parse_value("42", ArgumentType::Integer).is_ok());
    assert!(parse_value("-123", ArgumentType::Integer).is_ok());
    assert!(parse_value("0", ArgumentType::Integer).is_ok());
}

#[test]
fn test_parse_value_integer_invalid() {
    assert!(parse_value("abc", ArgumentType::Integer).is_err());
    assert!(parse_value("12.5", ArgumentType::Integer).is_err());
    assert!(parse_value("", ArgumentType::Integer).is_err());
}

#[test]
fn test_parse_value_float_valid() {
    assert!(parse_value("3.14", ArgumentType::Float).is_ok());
    assert!(parse_value("42", ArgumentType::Float).is_ok());
    assert!(parse_value("-1.5", ArgumentType::Float).is_ok());
}

#[test]
fn test_parse_value_float_invalid() {
    assert!(parse_value("abc", ArgumentType::Float).is_err());
    assert!(parse_value("", ArgumentType::Float).is_err());
}

#[test]
fn test_parse_value_bool_valid() {
    assert!(parse_value("true", ArgumentType::Bool).is_ok());
    assert!(parse_value("false", ArgumentType::Bool).is_ok());
    assert!(parse_value("yes", ArgumentType::Bool).is_ok());
    assert!(parse_value("no", ArgumentType::Bool).is_ok());
}

#[test]
fn test_parse_value_bool_invalid() {
    assert!(parse_value("maybe", ArgumentType::Bool).is_err());
    assert!(parse_value("2", ArgumentType::Bool).is_err());
}

#[test]
fn test_parse_value_path_valid() {
    assert!(parse_value("/tmp/file", ArgumentType::Path).is_ok());
    assert!(parse_value("./relative", ArgumentType::Path).is_ok());
}

#[test]
fn test_parse_integer_positive() {
    assert_eq!(parse_integer("42").unwrap(), 42);
    assert_eq!(parse_integer("0").unwrap(), 0);
    assert_eq!(parse_integer("999999").unwrap(), 999999);
}

#[test]
fn test_parse_integer_negative() {
    assert_eq!(parse_integer("-42").unwrap(), -42);
    assert_eq!(parse_integer("-1").unwrap(), -1);
}

#[test]
fn test_parse_integer_invalid() {
    assert!(parse_integer("abc").is_err());
    assert!(parse_integer("12.5").is_err());
    assert!(parse_integer("").is_err());
    assert!(parse_integer("12a").is_err());
}

#[test]
fn test_parse_integer_overflow() {
    let too_large = "9223372036854775808";
    assert!(parse_integer(too_large).is_err());
}

#[test]
fn test_parse_integer_extremes() {
    assert_eq!(parse_integer("9223372036854775807").unwrap(), i64::MAX);
    assert_eq!(parse_integer("-9223372036854775808").unwrap(), i64::MIN);
    assert!(parse_integer("-9223372036854775809").is_err());
    assert_eq!(parse_integer("+7").unwrap(), 7);
    assert!(parse_integer("+").is_err());
    assert!(parse_integer("-").is_err());
}

#[test]
fn test_parse_bool_true_variants() {
    assert_eq!(parse_bool("true").unwrap(), true);
    assert_eq!(parse_bool("True").unwrap(), true);
    assert_eq!(parse_bool("TRUE").unwrap(), true);
    assert_eq!(parse_bool("yes").unwrap(), true);
    assert_eq!(parse_bool("YES").unwrap(), true);
    assert_eq!(parse_bool("y").unwrap(), true);
    assert_eq!(parse_bool("Y").unwrap(), true);
    assert_eq!(parse_bool("1").unwrap(), true);
    assert_eq!(parse_bool("on").unwrap(), true);
    assert_eq!(parse_bool("ON").unwrap(), true);
}

#[test]
fn test_parse_bool_false_variants() {
    assert_eq!(parse_bool("false").unwrap(), false);
    assert_eq!(parse_bool("False").unwrap(), false);
    assert_eq!(parse_bool("FALSE").unwrap(), false);
    assert_eq!(parse_bool("no").unwrap(), false);
    assert_eq!(parse_bool("NO").unwrap(), false);
    assert_eq!(parse_bool("n").unwrap(), false);
    assert_eq!(parse_bool("N").unwrap(), false);
    assert_eq!(parse_bool("0").unwrap(), false);
    assert_eq!(parse_bool("off").unwrap(), false);
    assert_eq!(parse_bool("OFF").unwrap(), false);
}

#[test]
fn test_parse_bool_with_whitespace() {
    assert_eq!(parse_bool("  true  ").unwrap(), true);
    assert_eq!(parse_bool("\tfalse\n").unwrap(), false);
}

#[test]
fn test_parse_bool_invalid() {
    assert!(parse_bool("maybe").is_err());
    assert!(parse_bool("2").is_err());
    assert!(parse_bool("").is_err());
    assert!(parse_bool("tr").is_err());
}

#[test]
fn test_parse_path_unix_style() {
    let path = parse_path("/tmp/file.txt").unwrap();
    assert_eq!(path.to_str().unwrap(), "/tmp/file.txt");
}

#[test]
fn test_parse_path_windows_style() {
    let path = parse_path("C:\\Windows\\System32").unwrap();
    assert!(path.to_str().is_some());
}

#[test]
fn test_parse_path_empty() {
    let path = parse_path("").unwrap();
    assert_eq!(path, PathBuf::from(""));
}

#[test]
fn test_all_types_roundtrip() {
    let test_cases = vec![
        ("hello", ArgumentType::String),
        ("42", ArgumentType::Integer),
        ("3.14", ArgumentType::Float),
        ("true", ArgumentType::Bool),
        ("/tmp/file", ArgumentType::Path),
    ];

    for (value, arg_type) in test_cases {
        let result = parse_value(value, arg_type);
        assert!(result.is_ok(), "failed to parse {} as {:?}", value, arg_type);
        assert_eq!(result.unwrap(), value);
    }
}

#[test]
fn test_type_parser_integration_all_types() {
    assert!(parse_value("hello", ArgumentType::String).is_ok());
    assert!(parse_value("42", ArgumentType::Integer).is_ok());
    assert!(parse_value("3.14", ArgumentType::Float).is_ok());
    assert!(parse_value("true", ArgumentType::Bool).is_ok());
    assert!(parse_value("/path/to/file", ArgumentType::Path).is_ok());
}

#[test]
fn test_float_syntax_variants() {
    assert!(parse_value("1e3", ArgumentType::Float).is_ok());
    assert!(parse_value("1.5e2", ArgumentType::Float).is_ok());
    assert!(parse_value("1e-3", ArgumentType::Float).is_ok());
    assert!(parse_value("inf", ArgumentType::Float).is_ok());
    assert!(parse_value("-inf", ArgumentType::Float).is_ok());
    assert!(parse_value("NaN", ArgumentType::Float).is_ok());
    assert!(parse_value(".5", ArgumentType::Float).is_ok());
    assert!(parse_value("5.", ArgumentType::Float).is_ok());
    assert!(parse_value("12.34.56", ArgumentType::Float).is_err());
    assert!(parse_value(".", ArgumentType::Float).is_err());
    assert!(parse_value("1e", ArgumentType::Float).is_err());
    assert!(parse_value("e3", ArgumentType::Float).is_err());
}

#[test]
fn test_type_error_payload() {
    match parse_integer("not_a_number") {
        Err(DynamicCliError::Parse(ParseError::TypeParseError {
            expected_type, value, ..
        })) => {
            assert_eq!(expected_type, "integer");
            assert_eq!(value, "not_a_number");
        }
        other => panic!("expected a type error, got {:?}", other),
    }
}
