use dynamic_cli::config::schema::default_prompt_suffix;
use dynamic_cli::config::schema::ArgumentDefinition;
use dynamic_cli::config::schema::ArgumentType;
use dynamic_cli::config::schema::CommandDefinition;
use dynamic_cli::config::schema::CommandsConfig;
use dynamic_cli::config::schema::Metadata;
use dynamic_cli::config::schema::OptionDefinition;
use dynamic_cli::config::schema::ValidationRule;
use dynamic_cli::config::validator::validate_command;
use dynamic_cli::config::validator::validate_config;
use dynamic_cli::config::validator::validate_option_flags;
use dynamic_cli::config::validator::validate_options;

#[test]
fn test_argument_type_as_str() {
    assert_eq!(ArgumentType::String.as_str(), "string");
    assert_eq!(ArgumentType::Integer.as_str(), "integer");
    assert_eq!(ArgumentType::Float.as_str(), "float");
    assert_eq!(ArgumentType::Bool.as_str(), "bool");
    assert_eq!(ArgumentType::Path.as_str(), "path");
}

#[test]
fn test_default_prompt_suffix() {
    assert_eq!(default_prompt_suffix(), " > ");
}

#[test]
fn test_minimal_config() {
    let config = CommandsConfig::minimal();

    assert_eq!(config.metadata.version, "0.1.0");
    assert_eq!(config.metadata.prompt, "test");
    assert_eq!(config.metadata.prompt_suffix, " > ");
    assert!(config.commands.is_empty());
    assert!(config.global_options.is_empty());
}

fn simple_option(name: &str, short: Option<&str>, long: Option<&str>) -> OptionDefinition {
    OptionDefinition {
        name: name.to_string(),
        short: short.map(|s| s.to_string()),
        long: long.map(|s| s.to_string()),
        option_type: ArgumentType::String,
        required: false,
        default: None,
        description: "Option".to_string(),
        choices: vec![],
    }
}

#[test]
fn test_validate_options_no_flags() {
    let options = vec![simple_option("opt1", None, None)];

    let result = validate_options(&options, "test");
    assert!(result.is_err());
}

#[test]
fn test_validate_options_default_not_in_choices() {
    let options = vec![OptionDefinition {
        name: "mode".to_string(),
        short: Some("m".to_string()),
        long: Some("mode".to_string()),
        option_type: ArgumentType::String,
        required: false,
        default: Some("invalid".to_string()),
        description: "Mode".to_string(),
        choices: vec!["fast".to_string(), "slow".to_string()],
    }];

    let result = validate_options(&options, "test");
    assert!(result.is_err());
}

#[test]
fn test_validate_option_flags_duplicate_short() {
    let options = vec![
        simple_option("opt1", Some("o"), None),
        simple_option("opt2", Some("o"), None),
    ];

    let result = validate_option_flags(&options, "test");
    assert!(result.is_err());
}

#[test]
fn test_validate_option_flags_invalid_short() {
    let options = vec![simple_option("opt1", Some("opt"), None)];

    let result = validate_option_flags(&options, "test");
    assert!(result.is_err());
}

#[test]
fn test_validate_boolean_with_choices() {
    let options = vec![OptionDefinition {
        name: "flag".to_string(),
        short: Some("f".to_string()),
        long: Some("flag".to_string()),
        option_type: ArgumentType::Bool,
        required: false,
        default: None,
        description: "A flag".to_string(),
        choices: vec!["true".to_string(), "false".to_string()],
    }];

    let result = validate_options(&options, "test");
    assert!(result.is_err());
}

fn simple_command(name: &str) -> CommandDefinition {
    CommandDefinition {
        name: name.to_string(),
        aliases: vec![],
        description: format!("{} command", name),
        required: false,
        arguments: vec![],
        options: vec![],
        implementation: format!("{}_handler", name),
    }
}

#[test]
fn test_validate_config_ok() {
    let config = CommandsConfig {
        metadata: Metadata {
            version: "1.0.0".to_string(),
            prompt: "test".to_string(),
            prompt_suffix: " > ".to_string(),
        },
        commands: vec![simple_command("alpha"), simple_command("beta")],
        global_options: vec![],
    };
    assert!(validate_config(&config).is_ok());
}

#[test]
fn test_validate_config_duplicate_name() {
    let config = CommandsConfig {
        metadata: Metadata {
            version: "1.0.0".to_string(),
            prompt: "test".to_string(),
            prompt_suffix: " > ".to_string(),
        },
        commands: vec![simple_command("alpha"), simple_command("alpha")],
        global_options: vec![],
    };
    assert!(validate_config(&config).is_err());
}

#[test]
fn test_validate_command_argument_ordering() {
    let cmd = CommandDefinition {
        name: "test".to_string(),
        aliases: vec![],
        description: "Test".to_string(),
        required: false,
        arguments: vec![
            ArgumentDefinition {
                name: "optional".to_string(),
                arg_type: ArgumentType::String,
                required: false,
                description: "Optional".to_string(),
                validation: vec![],
            },
            ArgumentDefinition {
                name: "required".to_string(),
                arg_type: ArgumentType::String,
                required: true,
                description: "Required".to_string(),
                validation: vec![],
            },
        ],
        options: vec![],
        implementation: "handler".to_string(),
    };
    assert!(validate_command(&cmd).is_err());
}

#[test]
fn test_validate_command_rule_type_mismatch() {
    let cmd = CommandDefinition {
        name: "test".to_string(),
        aliases: vec![],
        description: "Test".to_string(),
        required: false,
        arguments: vec![ArgumentDefinition {
            name: "count".to_string(),
            arg_type: ArgumentType::Integer,
            required: true,
            description: "Count".to_string(),
            validation: vec![ValidationRule::MustExist { must_exist: true }],
        }],
        options: vec![],
        implementation: "handler".to_string(),
    };
    assert!(validate_command(&cmd).is_err());
}

#[test]
fn test_validate_command_invalid_range() {
    let cmd = CommandDefinition {
        name: "test".to_string(),
        aliases: vec![],
        description: "Test".to_string(),
        required: false,
        arguments: vec![ArgumentDefinition {
            name: "percentage".to_string(),
            arg_type: ArgumentType::Integer,
            required: true,
            description: "Percentage".to_string(),
            validation: vec![ValidationRule::Range { min: Some(100), max: Some(10) }],
        }],
        options: vec![],
        implementation: "handler".to_string(),
    };
    assert!(validate_command(&cmd).is_err());
}

#[test]
fn test_validate_command_valid() {
    let cmd = CommandDefinition {
        name: "process".to_string(),
        aliases: vec!["proc".to_string()],
        description: "Process data".to_string(),
        required: false,
        arguments: vec![ArgumentDefinition {
            name: "input".to_string(),
            arg_type: ArgumentType::Path,
            required: true,
            description: "Input file".to_string(),
            validation: vec![
                ValidationRule::MustExist { must_exist: true },
                ValidationRule::Extensions { extensions: vec!["csv".to_string()] },
            ],
        }],
        options: vec![OptionDefinition {
            name: "output".to_string(),
            short: Some("o".to_string()),
            long: Some("output".to_string()),
            option_type: ArgumentType::Path,
            required: false,
            default: Some("out.csv".to_string()),
            description: "Output file".to_string(),
            choices: vec![],
        }],
        implementation: "process_handler".to_string(),
    };
    assert!(validate_command(&cmd).is_ok());
}
