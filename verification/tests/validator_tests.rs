use dynamic_cli::error::DynamicCliError;
use dynamic_cli::error::ValidationError;
use dynamic_cli::validator::validate_file_exists;
use dynamic_cli::validator::validate_file_extension;

#[test]
fn test_validate_file_exists_on_root() {
    assert!(validate_file_exists("/", "dir").is_ok());
}

#[test]
fn test_validate_file_exists_missing() {
    let result = validate_file_exists("/this/path/should/not/exist/anywhere.txt", "input");
    match result.unwrap_err() {
        DynamicCliError::Validation(ValidationError::FileNotFound { path, arg_name }) => {
            assert_eq!(path, "/this/path/should/not/exist/anywhere.txt");
            assert_eq!(arg_name, "input");
        }
        other => panic!("Expected FileNotFound, got {:?}", other),
    }
}

#[test]
fn test_validate_file_extension_match() {
    let allowed = vec!["yaml".to_string(), "yml".to_string()];
    assert!(validate_file_extension("config.yaml", "config_file", &allowed).is_ok());
    assert!(validate_file_extension("config.YAML", "config_file", &allowed).is_ok());
}

#[test]
fn test_validate_file_extension_no_match() {
    let allowed = vec!["yaml".to_string(), "yml".to_string()];
    let result = validate_file_extension("config.txt", "config_file", &allowed);
    match result.unwrap_err() {
        DynamicCliError::Validation(ValidationError::InvalidExtension {
            arg_name,
            path,
            expected,
        }) => {
            assert_eq!(arg_name, "config_file");
            assert_eq!(path, "config.txt");
            assert_eq!(expected, allowed);
        }
        other => panic!("Expected InvalidExtension, got {:?}", other),
    }
}

#[test]
fn test_validate_file_extension_no_extension() {
    let allowed = vec!["yaml".to_string()];
    assert!(validate_file_extension("configfile", "config_file", &allowed).is_err());
}

#[test]
fn test_extension_scenario_multi_dot() {
    // only the final suffix counts: gz, which is not in the list
    let allowed = vec!["csv".to_string(), "tsv".to_string()];
    assert!(validate_file_extension("archive.tar.gz", "input", &allowed).is_err());
}
