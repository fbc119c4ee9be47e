use dynamic_cli::config::schema::ArgumentDefinition;
use dynamic_cli::config::schema::ArgumentType;
use dynamic_cli::config::schema::CommandDefinition;
use dynamic_cli::config::schema::OptionDefinition;
use dynamic_cli::error::DynamicCliError;
use dynamic_cli::error::ParseError;
use dynamic_cli::parser::ReplParser;
use dynamic_cli::registry::CommandRegistry;

struct TestHandler;

fn create_test_registry() -> CommandRegistry<TestHandler> {
    let mut registry: CommandRegistry<TestHandler> = CommandRegistry::new();

    let hello_def = CommandDefinition {
        name: "hello".to_string(),
        aliases: vec!["hi".to_string(), "greet".to_string()],
        description: "Say hello".to_string(),
        required: false,
        arguments: vec![ArgumentDefinition {
            name: "name".to_string(),
            arg_type: ArgumentType::String,
            required: false,
            description: "Name to greet".to_string(),
            validation: vec![],
        }],
        options: vec![OptionDefinition {
            name: "loud".to_string(),
            short: Some("l".to_string()),
            long: Some("loud".to_string()),
            option_type: ArgumentType::Bool,
            required: false,
            default: Some("false".to_string()),
            description: "Loud greeting".to_string(),
            choices: vec![],
        }],
        implementation: "hello_handler".to_string(),
    };
    registry.register(hello_def, TestHandler).unwrap();

    let process_def = CommandDefinition {
        name: "process".to_string(),
        aliases: vec!["proc".to_string()],
        description: "Process files".to_string(),
        required: false,
        arguments: vec![
            ArgumentDefinition {
                name: "input".to_string(),
                arg_type: ArgumentType::Path,
                required: true,
                description: "Input file".to_string(),
                validation: vec![],
            },
            ArgumentDefinition {
                name: "output".to_string(),
                arg_type: ArgumentType::Path,
                required: false,
                description: "Output file".to_string(),
                validation: vec![],
            },
        ],
        options: vec![OptionDefinition {
            name: "verbose".to_string(),
            short: Some("v".to_string()),
            long: Some("verbose".to_string()),
            option_type: ArgumentType::Bool,
            required: false,
            default: Some("false".to_string()),
            description: "Verbose output".to_string(),
            choices: vec![],
        }],
        implementation: "process_handler".to_string(),
    };
    registry.register(process_def, TestHandler).unwrap();

    registry
}

#[test]
fn test_tokenize_simple() {
    let registry = create_test_registry();
    let parser = ReplParser::new(&registry);

    let tokens = parser.tokenize("hello world").unwrap();
    assert_eq!(tokens, vec!["hello", "world"]);
}

#[test]
fn test_tokenize_multiple_spaces() {
    let registry = create_test_registry();
    let parser = ReplParser::new(&registry);

    let tokens = parser.tokenize("hello    world   test").unwrap();
    assert_eq!(tokens, vec!["hello", "world", "test"]);
}

#[test]
fn test_tokenize_double_quotes() {
    let registry = create_test_registry();
    let parser = ReplParser::new(&registry);

    let tokens = parser.tokenize(r#"hello "world test""#).unwrap();
    assert_eq!(tokens, vec!["hello", "world test"]);
}

#[test]
fn test_tokenize_single_quotes() {
    let registry = create_test_registry();
    let parser = ReplParser::new(&registry);

    let tokens = parser.tokenize("hello 'world test'").unwrap();
    assert_eq!(tokens, vec!["hello", "world test"]);
}

#[test]
fn test_tokenize_escaped_quotes() {
    let registry = create_test_registry();
    let parser = ReplParser::new(&registry);

    let tokens = parser.tokenize(r#"hello "say \"hi\"""#).unwrap();
    assert_eq!(tokens, vec!["hello", r#"say "hi""#]);
}

#[test]
fn test_tokenize_unbalanced_quotes() {
    let registry = create_test_registry();
    let parser = ReplParser::new(&registry);

    let result = parser.tokenize(r#"hello "world"#);
    assert!(result.is_err());
}

#[test]
fn test_tokenize_empty_line() {
    let registry = create_test_registry();
    let parser = ReplParser::new(&registry);

    let tokens = parser.tokenize("").unwrap();
    assert!(tokens.is_empty());
}

#[test]
fn test_tokenize_only_spaces() {
    let registry = create_test_registry();
    let parser = ReplParser::new(&registry);

    let tokens = parser.tokenize("    ").unwrap();
    assert!(tokens.is_empty());
}

#[test]
fn test_tokenize_scenario() {
    let registry = create_test_registry();
    let parser = ReplParser::new(&registry);

    let tokens = parser.tokenize(r#"analyze "data file.csv" report.txt -v"#).unwrap();
    assert_eq!(tokens, vec!["analyze", "data file.csv", "report.txt", "-v"]);
}

#[test]
fn test_parse_command_by_name() {
    let registry = create_test_registry();
    let parser = ReplParser::new(&registry);

    let parsed = parser.parse_line("hello").unwrap();
    assert_eq!(parsed.command_name, "hello");
}

#[test]
fn test_parse_command_by_alias() {
    let registry = create_test_registry();
    let parser = ReplParser::new(&registry);

    let parsed = parser.parse_line("hi").unwrap();
    assert_eq!(parsed.command_name, "hello");

    let parsed = parser.parse_line("greet").unwrap();
    assert_eq!(parsed.command_name, "hello");
}

#[test]
fn test_parse_unknown_command() {
    let registry = create_test_registry();
    let parser = ReplParser::new(&registry);

    let result = parser.parse_line("unknown");
    assert!(result.is_err());

    match result.unwrap_err() {
        DynamicCliError::Parse(ParseError::UnknownCommand { command, .. }) => {
            assert_eq!(command, "unknown");
        }
        other => panic!("Expected UnknownCommand error, got {:?}", other),
    }
}

#[test]
fn test_parse_unknown_command_suggestions() {
    let registry = create_test_registry();
    let parser = ReplParser::new(&registry);

    let result = parser.parse_line("helo");
    match result.unwrap_err() {
        DynamicCliError::Parse(ParseError::UnknownCommand { suggestions, .. }) => {
            assert!(suggestions.contains(&"hello".to_string()));
        }
        other => panic!("Expected UnknownCommand error, got {:?}", other),
    }
}

#[test]
fn test_parse_empty_line() {
    let registry = create_test_registry();
    let parser = ReplParser::new(&registry);

    let result = parser.parse_line("");
    assert!(result.is_err());
}

#[test]
fn test_parse_command_with_arguments() {
    let registry = create_test_registry();
    let parser = ReplParser::new(&registry);

    let parsed = parser.parse_line("hello Alice").unwrap();
    assert_eq!(parsed.command_name, "hello");
    assert_eq!(parsed.arguments.get("name"), Some(&"Alice".to_string()));
}

#[test]
fn test_parse_command_with_options() {
    let registry = create_test_registry();
    let parser = ReplParser::new(&registry);

    let parsed = parser.parse_line("hello --loud").unwrap();
    assert_eq!(parsed.command_name, "hello");
    assert_eq!(parsed.arguments.get("loud"), Some(&"true".to_string()));
}

#[test]
fn test_parse_command_with_short_option() {
    let registry = create_test_registry();
    let parser = ReplParser::new(&registry);

    let parsed = parser.parse_line("hello -l").unwrap();
    assert_eq!(parsed.command_name, "hello");
    assert_eq!(parsed.arguments.get("loud"), Some(&"true".to_string()));
}

#[test]
fn test_parse_command_with_multiple_arguments_and_options() {
    let registry = create_test_registry();
    let parser = ReplParser::new(&registry);

    let parsed = parser.parse_line("process input.txt output.txt --verbose").unwrap();
    assert_eq!(parsed.command_name, "process");
    assert_eq!(parsed.arguments.get("input"), Some(&"input.txt".to_string()));
    assert_eq!(parsed.arguments.get("output"), Some(&"output.txt".to_string()));
    assert_eq!(parsed.arguments.get("verbose"), Some(&"true".to_string()));
}

#[test]
fn test_parse_alias_with_arguments() {
    let registry = create_test_registry();
    let parser = ReplParser::new(&registry);

    let parsed = parser.parse_line("proc input.txt -v").unwrap();
    assert_eq!(parsed.command_name, "process");
    assert_eq!(parsed.arguments.get("input"), Some(&"input.txt".to_string()));
    assert_eq!(parsed.arguments.get("verbose"), Some(&"true".to_string()));
}

#[test]
fn test_parse_quoted_arguments() {
    let registry = create_test_registry();
    let parser = ReplParser::new(&registry);

    let parsed = parser.parse_line(r#"hello "Alice Bob""#).unwrap();
    assert_eq!(parsed.command_name, "hello");
    assert_eq!(parsed.arguments.get("name"), Some(&"Alice Bob".to_string()));
}

#[test]
fn test_parse_quoted_paths() {
    let registry = create_test_registry();
    let parser = ReplParser::new(&registry);

    let parsed = parser.parse_line(r#"process "/path/with spaces/file.txt""#).unwrap();
    assert_eq!(parsed.command_name, "process");
    assert_eq!(
        parsed.arguments.get("input"),
        Some(&"/path/with spaces/file.txt".to_string())
    );
}

#[test]
fn test_parse_line_complex_command_line() {
    let registry = create_test_registry();
    let parser = ReplParser::new(&registry);

    let parsed = parser
        .parse_line(r#"proc "input file.txt" "output file.txt" -v"#)
        .unwrap();

    assert_eq!(parsed.command_name, "process");
    assert_eq!(parsed.arguments.get("input"), Some(&"input file.txt".to_string()));
    assert_eq!(parsed.arguments.get("output"), Some(&"output file.txt".to_string()));
    assert_eq!(parsed.arguments.get("verbose"), Some(&"true".to_string()));
}

#[test]
fn test_parse_scenario_required_positional_and_bool_option() {
    // required positional plus a boolean flag: presence sets true
    let registry = create_test_registry();
    let parser = ReplParser::new(&registry);

    let parsed = parser.parse_line("process in.txt -v").unwrap();
    assert_eq!(parsed.arguments.get("input"), Some(&"in.txt".to_string()));
    assert_eq!(parsed.arguments.get("verbose"), Some(&"true".to_string()));
}

#[test]
fn test_parse_missing_required_names_positional() {
    let registry = create_test_registry();
    let parser = ReplParser::new(&registry);

    let result = parser.parse_line("process");
    match result.unwrap_err() {
        DynamicCliError::Parse(ParseError::MissingArgument { argument, command }) => {
            assert_eq!(argument, "input");
            assert_eq!(command, "process");
        }
        other => panic!("Expected MissingArgument error, got {:?}", other),
    }
}
