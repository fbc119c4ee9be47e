use dynamic_cli::config::schema::ArgumentType;
use dynamic_cli::utils::detect_type;
use dynamic_cli::utils::format_bytes;
use dynamic_cli::utils::format_duration;
use dynamic_cli::utils::format_numbered_list;
use dynamic_cli::utils::format_table;
use dynamic_cli::utils::get_extension;
use dynamic_cli::utils::has_extension;
use dynamic_cli::utils::is_blank;
use dynamic_cli::utils::is_valid_email;
use dynamic_cli::utils::normalize;
use dynamic_cli::utils::normalize_path;
use dynamic_cli::utils::parse_bool;
use dynamic_cli::utils::parse_int;
use dynamic_cli::utils::truncate;

#[test]
fn test_format_numbered_list_empty() {
    let items: Vec<String> = vec![];
    assert_eq!(format_numbered_list(&items), "");
}

#[test]
fn test_format_numbered_list_single() {
    let items = vec!["apple".to_string()];
    assert_eq!(format_numbered_list(&items), "  1. apple");
}

#[test]
fn test_format_numbered_list_multiple() {
    let items = vec!["apple".to_string(), "banana".to_string(), "cherry".to_string()];
    let result = format_numbered_list(&items);
    assert!(result.contains("1. apple"));
    assert!(result.contains("2. banana"));
    assert!(result.contains("3. cherry"));
    assert_eq!(result, "  1. apple\n  2. banana\n  3. cherry");
}

#[test]
fn test_format_table_simple() {
    let headers = vec!["Name".to_string(), "Age".to_string()];
    let rows = vec![
        vec!["Alice".to_string(), "30".to_string()],
        vec!["Bob".to_string(), "25".to_string()],
    ];
    let table = format_table(&headers, &rows);

    assert!(table.contains("Name"));
    assert!(table.contains("Alice"));
    assert!(table.contains("30"));
}

#[test]
fn test_format_bytes_zero() {
    assert_eq!(format_bytes(0), "0 B");
}

#[test]
fn test_format_bytes_various_sizes() {
    assert_eq!(format_bytes(512), "512 B");
    assert_eq!(format_bytes(1024), "1.00 KB");
    assert_eq!(format_bytes(1_048_576), "1.00 MB");
    assert_eq!(format_bytes(1_073_741_824), "1.00 GB");
}

#[test]
fn test_format_bytes_fractional() {
    assert_eq!(format_bytes(1536), "1.50 KB");
    assert_eq!(format_bytes(1_099_511_627_776), "1.00 TB");
}

#[test]
fn test_format_duration_zero() {
    assert_eq!(format_duration(0), "0s");
}

#[test]
fn test_format_duration_various() {
    assert_eq!(format_duration(45), "45s");
    assert_eq!(format_duration(90), "1m 30s");
    assert_eq!(format_duration(3665), "1h 1m 5s");
}

#[test]
fn test_format_duration_whole_minutes() {
    assert_eq!(format_duration(60), "1m");
    assert_eq!(format_duration(3600), "1h");
    assert_eq!(format_duration(3660), "1h 1m");
}

#[test]
fn test_is_blank_various() {
    assert!(is_blank(""));
    assert!(is_blank("   "));
    assert!(is_blank("\t\n"));
    assert!(!is_blank("hello"));
    assert!(!is_blank("  hello  "));
}

#[test]
fn test_normalize() {
    assert_eq!(normalize("  Hello World  "), "hello world");
    assert_eq!(normalize("UPPERCASE"), "uppercase");
    assert_eq!(normalize("MixedCase"), "mixedcase");
}

#[test]
fn test_truncate_long_string() {
    assert_eq!(truncate("Hello World", 8), "Hello...");
}

#[test]
fn test_truncate_short_string() {
    assert_eq!(truncate("Hi", 10), "Hi");
    assert_eq!(truncate("Exact", 5), "Exact");
}

#[test]
fn test_is_valid_email_valid() {
    assert!(is_valid_email("user@example.com"));
    assert!(is_valid_email("name.surname@domain.co.uk"));
}

#[test]
fn test_is_valid_email_invalid() {
    assert!(!is_valid_email("invalid"));
    assert!(!is_valid_email("@example.com"));
    assert!(!is_valid_email("user@"));
    assert!(!is_valid_email("no-at-sign.com"));
}

#[test]
fn test_parse_int_valid() {
    assert_eq!(parse_int("42", "count").unwrap(), 42);
    assert_eq!(parse_int("-10", "offset").unwrap(), -10);
    assert_eq!(parse_int("0", "zero").unwrap(), 0);
}

#[test]
fn test_parse_int_invalid() {
    assert!(parse_int("abc", "count").is_err());
    assert!(parse_int("3.14", "count").is_err());
    assert!(parse_int("", "count").is_err());
}

#[test]
fn test_parse_bool_various() {
    assert_eq!(parse_bool("true").unwrap(), true);
    assert_eq!(parse_bool("YES").unwrap(), true);
    assert_eq!(parse_bool("1").unwrap(), true);
    assert_eq!(parse_bool("on").unwrap(), true);

    assert_eq!(parse_bool("false").unwrap(), false);
    assert_eq!(parse_bool("no").unwrap(), false);
    assert_eq!(parse_bool("0").unwrap(), false);
    assert_eq!(parse_bool("off").unwrap(), false);

    assert!(parse_bool("maybe").is_err());
}

#[test]
fn test_detect_type_integer() {
    assert_eq!(detect_type("42"), ArgumentType::Integer);
    assert_eq!(detect_type("-10"), ArgumentType::Integer);
}

#[test]
fn test_detect_type_float() {
    assert_eq!(detect_type("3.14"), ArgumentType::Float);
    assert_eq!(detect_type("-1.5"), ArgumentType::Float);
}

#[test]
fn test_detect_type_bool() {
    assert_eq!(detect_type("true"), ArgumentType::Bool);
    assert_eq!(detect_type("false"), ArgumentType::Bool);
    assert_eq!(detect_type("yes"), ArgumentType::Bool);
}

#[test]
fn test_detect_type_path() {
    assert_eq!(detect_type("/usr/bin"), ArgumentType::Path);
    assert_eq!(detect_type("./file"), ArgumentType::Path);
    assert_eq!(detect_type("..\\path"), ArgumentType::Path);
}

#[test]
fn test_detect_type_string_fallback() {
    assert_eq!(detect_type("hello"), ArgumentType::String);
}

#[test]
fn test_normalize_path_windows() {
    assert_eq!(normalize_path("path\\to\\file"), "path/to/file");
}

#[test]
fn test_normalize_path_unix() {
    assert_eq!(normalize_path("path/to/file"), "path/to/file");
}

#[test]
fn test_get_extension_valid() {
    assert_eq!(get_extension("file.TXT"), Some("txt".to_string()));
    assert_eq!(get_extension("data.csv"), Some("csv".to_string()));
}

#[test]
fn test_get_extension_none() {
    assert_eq!(get_extension("no_extension"), None);
    assert_eq!(get_extension(".hidden"), None);
}

#[test]
fn test_get_extension_multi_dot() {
    assert_eq!(get_extension("archive.tar.gz"), Some("gz".to_string()));
}

#[test]
fn test_has_extension_match() {
    assert!(has_extension("data.csv", &vec!["csv".to_string(), "tsv".to_string()]));
    assert!(has_extension("config.YAML", &vec!["yaml".to_string(), "yml".to_string()]));
}

#[test]
fn test_has_extension_no_match() {
    assert!(!has_extension("data.txt", &vec!["csv".to_string(), "json".to_string()]));
    assert!(!has_extension("no_ext", &vec!["txt".to_string()]));
}
