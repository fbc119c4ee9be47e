use dynamic_cli::config::schema::ArgumentDefinition;
use dynamic_cli::config::schema::ArgumentType;
use dynamic_cli::config::schema::CommandDefinition;
use dynamic_cli::config::schema::OptionDefinition;
use dynamic_cli::error::DynamicCliError;
use dynamic_cli::error::ParseError;
use dynamic_cli::parser::CliParser;

fn create_test_definition() -> CommandDefinition {
    CommandDefinition {
        name: "test".to_string(),
        aliases: vec![],
        description: "Test command".to_string(),
        required: false,
        arguments: vec![
            ArgumentDefinition {
                name: "input".to_string(),
                arg_type: ArgumentType::Path,
                required: true,
                description: "Input file".to_string(),
                validation: vec![],
            },
            ArgumentDefinition {
                name: "output".to_string(),
                arg_type: ArgumentType::Path,
                required: false,
                description: "Output file".to_string(),
                validation: vec![],
            },
        ],
        options: vec![
            OptionDefinition {
                name: "verbose".to_string(),
                short: Some("v".to_string()),
                long: Some("verbose".to_string()),
                option_type: ArgumentType::Bool,
                required: false,
                default: Some("false".to_string()),
                description: "Verbose output".to_string(),
                choices: vec![],
            },
            OptionDefinition {
                name: "count".to_string(),
                short: Some("c".to_string()),
                long: Some("count".to_string()),
                option_type: ArgumentType::Integer,
                required: false,
                default: Some("10".to_string()),
                description: "Count".to_string(),
                choices: vec![],
            },
        ],
        implementation: "handler".to_string(),
    }
}

fn args(parts: &[&str]) -> Vec<String> {
    parts.iter().map(|s| s.to_string()).collect()
}

#[test]
fn test_parse_single_positional_argument() {
    let definition = create_test_definition();
    let parser = CliParser::new(&definition);

    let result = parser.parse(&args(&["input.txt"])).unwrap();

    assert_eq!(result.get("input"), Some(&"input.txt".to_string()));
}

#[test]
fn test_parse_multiple_positional_arguments() {
    let definition = create_test_definition();
    let parser = CliParser::new(&definition);

    let result = parser.parse(&args(&["input.txt", "output.txt"])).unwrap();

    assert_eq!(result.get("input"), Some(&"input.txt".to_string()));
    assert_eq!(result.get("output"), Some(&"output.txt".to_string()));
}

#[test]
fn test_parse_missing_required_argument() {
    let definition = create_test_definition();
    let parser = CliParser::new(&definition);

    let result = parser.parse(&args(&[]));

    assert!(result.is_err());
    match result.unwrap_err() {
        DynamicCliError::Parse(ParseError::MissingArgument { argument, .. }) => {
            assert_eq!(argument, "input");
        }
        other => panic!("Expected MissingArgument error, got {:?}", other),
    }
}

#[test]
fn test_parse_too_many_positional_arguments() {
    let definition = create_test_definition();
    let parser = CliParser::new(&definition);

    let result = parser.parse(&args(&["input.txt", "output.txt", "extra.txt"]));

    assert!(result.is_err());
    match result.unwrap_err() {
        DynamicCliError::Parse(ParseError::TooManyArguments { .. }) => {}
        other => panic!("Expected TooManyArguments error, got {:?}", other),
    }
}

#[test]
fn test_parse_long_boolean_option() {
    let definition = create_test_definition();
    let parser = CliParser::new(&definition);

    let result = parser.parse(&args(&["input.txt", "--verbose"])).unwrap();

    assert_eq!(result.get("verbose"), Some(&"true".to_string()));
}

#[test]
fn test_parse_long_option_with_equals() {
    let definition = create_test_definition();
    let parser = CliParser::new(&definition);

    let result = parser.parse(&args(&["input.txt", "--count=42"])).unwrap();

    assert_eq!(result.get("count"), Some(&"42".to_string()));
}

#[test]
fn test_parse_long_option_with_space() {
    let definition = create_test_definition();
    let parser = CliParser::new(&definition);

    let result = parser.parse(&args(&["input.txt", "--count", "42"])).unwrap();

    assert_eq!(result.get("count"), Some(&"42".to_string()));
}

#[test]
fn test_parse_unknown_long_option() {
    let definition = create_test_definition();
    let parser = CliParser::new(&definition);

    let result = parser.parse(&args(&["input.txt", "--unknown"]));

    assert!(result.is_err());
    match result.unwrap_err() {
        DynamicCliError::Parse(ParseError::UnknownOption { .. }) => {}
        other => panic!("Expected UnknownOption error, got {:?}", other),
    }
}

#[test]
fn test_parse_short_boolean_option() {
    let definition = create_test_definition();
    let parser = CliParser::new(&definition);

    let result = parser.parse(&args(&["input.txt", "-v"])).unwrap();

    assert_eq!(result.get("verbose"), Some(&"true".to_string()));
}

#[test]
fn test_parse_short_option_with_space() {
    let definition = create_test_definition();
    let parser = CliParser::new(&definition);

    let result = parser.parse(&args(&["input.txt", "-c", "42"])).unwrap();

    assert_eq!(result.get("count"), Some(&"42".to_string()));
}

#[test]
fn test_parse_short_option_attached_value() {
    let definition = create_test_definition();
    let parser = CliParser::new(&definition);

    let result = parser.parse(&args(&["input.txt", "-c42"])).unwrap();

    assert_eq!(result.get("count"), Some(&"42".to_string()));
}

#[test]
fn test_parse_negative_number_as_positional() {
    let definition = create_test_definition();
    let parser = CliParser::new(&definition);

    let result = parser.parse(&args(&["-123"])).unwrap();

    assert_eq!(result.get("input"), Some(&"-123".to_string()));
}

#[test]
fn test_apply_default_values() {
    let definition = create_test_definition();
    let parser = CliParser::new(&definition);

    let result = parser.parse(&args(&["input.txt"])).unwrap();

    assert_eq!(result.get("verbose"), Some(&"false".to_string()));
    assert_eq!(result.get("count"), Some(&"10".to_string()));
}

#[test]
fn test_override_default_values() {
    let definition = create_test_definition();
    let parser = CliParser::new(&definition);

    let result = parser.parse(&args(&["input.txt", "-v", "-c", "5"])).unwrap();

    assert_eq!(result.get("verbose"), Some(&"true".to_string()));
    assert_eq!(result.get("count"), Some(&"5".to_string()));
}

#[test]
fn test_type_conversion_error() {
    let definition = create_test_definition();
    let parser = CliParser::new(&definition);

    let result = parser.parse(&args(&["input.txt", "--count", "abc"]));

    assert!(result.is_err());
}

#[test]
fn test_missing_option_value() {
    let definition = create_test_definition();
    let parser = CliParser::new(&definition);

    let result = parser.parse(&args(&["input.txt", "--count"]));

    assert!(result.is_err());
    match result.unwrap_err() {
        DynamicCliError::Parse(ParseError::InvalidSyntax { .. }) => {}
        other => panic!("Expected InvalidSyntax error, got {:?}", other),
    }
}

#[test]
fn test_missing_required_option() {
    let mut definition = create_test_definition();
    definition.options.push(OptionDefinition {
        name: "mode".to_string(),
        short: None,
        long: Some("mode".to_string()),
        option_type: ArgumentType::String,
        required: true,
        default: None,
        description: "Mode".to_string(),
        choices: vec![],
    });
    let parser = CliParser::new(&definition);

    let result = parser.parse(&args(&["input.txt"]));

    assert!(result.is_err());
    match result.unwrap_err() {
        DynamicCliError::Parse(ParseError::MissingOption { option, .. }) => {
            assert_eq!(option, "mode");
        }
        other => panic!("Expected MissingOption error, got {:?}", other),
    }
}

#[test]
fn test_parse_complex_command_line() {
    let definition = create_test_definition();
    let parser = CliParser::new(&definition);

    let result = parser
        .parse(&args(&["input.txt", "output.txt", "--verbose", "--count=100"]))
        .unwrap();

    assert_eq!(result.get("input"), Some(&"input.txt".to_string()));
    assert_eq!(result.get("output"), Some(&"output.txt".to_string()));
    assert_eq!(result.get("verbose"), Some(&"true".to_string()));
    assert_eq!(result.get("count"), Some(&"100".to_string()));
}

#[test]
fn test_parse_mixed_options_and_arguments() {
    let definition = create_test_definition();
    let parser = CliParser::new(&definition);

    let result = parser
        .parse(&args(&["--verbose", "input.txt", "-c", "50", "output.txt"]))
        .unwrap();

    assert_eq!(result.get("input"), Some(&"input.txt".to_string()));
    assert_eq!(result.get("output"), Some(&"output.txt".to_string()));
    assert_eq!(result.get("verbose"), Some(&"true".to_string()));
    assert_eq!(result.get("count"), Some(&"50".to_string()));
}

#[test]
fn test_required_integer_positional_scenario() {
    // a lone negative number fills a required integer positional
    let definition = CommandDefinition {
        name: "calc".to_string(),
        aliases: vec![],
        description: "Calc".to_string(),
        required: false,
        arguments: vec![ArgumentDefinition {
            name: "value".to_string(),
            arg_type: ArgumentType::Integer,
            required: true,
            description: "Value".to_string(),
            validation: vec![],
        }],
        options: vec![],
        implementation: "calc_handler".to_string(),
    };
    let parser = CliParser::new(&definition);

    let result = parser.parse(&args(&["-123"])).unwrap();
    assert_eq!(result.get("value"), Some(&"-123".to_string()));
}
