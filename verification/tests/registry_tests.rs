use dynamic_cli::config::schema::CommandDefinition;
use dynamic_cli::error::DynamicCliError;
use dynamic_cli::error::RegistryError;
use dynamic_cli::registry::CommandRegistry;

struct TestHandler;

fn create_test_definition(name: &str, aliases: Vec<&str>) -> CommandDefinition {
    CommandDefinition {
        name: name.to_string(),
        aliases: aliases.iter().map(|s| s.to_string()).collect(),
        description: format!("{} command", name),
        required: false,
        arguments: vec![],
        options: vec![],
        implementation: format!("{}_handler", name),
    }
}

#[test]
fn test_new_registry_is_empty() {
    let registry: CommandRegistry<TestHandler> = CommandRegistry::new();
    assert!(registry.is_empty());
    assert_eq!(registry.len(), 0);
    assert_eq!(registry.list_commands().len(), 0);
}

#[test]
fn test_register_command() {
    let mut registry: CommandRegistry<TestHandler> = CommandRegistry::new();
    let definition = create_test_definition("test", vec![]);

    let result = registry.register(definition, TestHandler);

    assert!(result.is_ok());
    assert_eq!(registry.len(), 1);
    assert!(!registry.is_empty());
}

#[test]
fn test_register_command_with_aliases() {
    let mut registry: CommandRegistry<TestHandler> = CommandRegistry::new();
    let definition = create_test_definition("hello", vec!["hi", "greet"]);

    registry.register(definition, TestHandler).unwrap();

    assert_eq!(registry.len(), 1);
    assert!(registry.contains("hello"));
    assert!(registry.contains("hi"));
    assert!(registry.contains("greet"));
}

#[test]
fn test_register_duplicate_command_fails() {
    let mut registry: CommandRegistry<TestHandler> = CommandRegistry::new();
    let def1 = create_test_definition("test", vec![]);
    let def2 = create_test_definition("test", vec![]);

    registry.register(def1, TestHandler).unwrap();
    let result = registry.register(def2, TestHandler);

    assert!(result.is_err());
    match result.unwrap_err() {
        DynamicCliError::Registry(RegistryError::DuplicateRegistration { name }) => {
            assert_eq!(name, "test");
        }
        _ => panic!("Wrong error type"),
    }
}

#[test]
fn test_register_duplicate_alias_fails() {
    let mut registry: CommandRegistry<TestHandler> = CommandRegistry::new();
    let def1 = create_test_definition("cmd1", vec!["c"]);
    let def2 = create_test_definition("cmd2", vec!["c"]);

    registry.register(def1, TestHandler).unwrap();
    let result = registry.register(def2, TestHandler);

    assert!(result.is_err());
    match result.unwrap_err() {
        DynamicCliError::Registry(RegistryError::DuplicateAlias {
            alias,
            existing_command,
        }) => {
            assert_eq!(alias, "c");
            assert_eq!(existing_command, "cmd1");
        }
        _ => panic!("Wrong error type"),
    }
}

#[test]
fn test_alias_conflicts_with_command_name() {
    let mut registry: CommandRegistry<TestHandler> = CommandRegistry::new();
    let def1 = create_test_definition("test", vec![]);
    let def2 = create_test_definition("other", vec!["test"]);

    registry.register(def1, TestHandler).unwrap();
    let result = registry.register(def2, TestHandler);

    assert!(result.is_err());
}

#[test]
fn test_command_name_conflicts_with_alias() {
    let mut registry: CommandRegistry<TestHandler> = CommandRegistry::new();
    let def1 = create_test_definition("cmd1", vec!["other"]);
    let def2 = create_test_definition("other", vec![]);

    registry.register(def1, TestHandler).unwrap();
    let result = registry.register(def2, TestHandler);

    assert!(result.is_err());
}

#[test]
fn test_rejected_registration_leaves_registry_unchanged() {
    let mut registry: CommandRegistry<TestHandler> = CommandRegistry::new();
    registry
        .register(create_test_definition("alpha", vec!["a"]), TestHandler)
        .unwrap();

    // rejected: the alias collides with an existing alias
    let result = registry.register(create_test_definition("beta", vec!["a", "b"]), TestHandler);
    assert!(result.is_err());

    assert_eq!(registry.len(), 1);
    assert!(registry.contains("alpha"));
    assert!(registry.contains("a"));
    assert!(!registry.contains("beta"));
    assert!(!registry.contains("b"));
}

#[test]
fn test_resolve_command_name() {
    let mut registry: CommandRegistry<TestHandler> = CommandRegistry::new();
    registry.register(create_test_definition("test", vec![]), TestHandler).unwrap();

    assert_eq!(registry.resolve_name("test"), Some("test".to_string()));
}

#[test]
fn test_resolve_alias() {
    let mut registry: CommandRegistry<TestHandler> = CommandRegistry::new();
    registry
        .register(create_test_definition("hello", vec!["hi", "greet"]), TestHandler)
        .unwrap();

    assert_eq!(registry.resolve_name("hi"), Some("hello".to_string()));
    assert_eq!(registry.resolve_name("greet"), Some("hello".to_string()));
}

#[test]
fn test_resolve_unknown_name() {
    let registry: CommandRegistry<TestHandler> = CommandRegistry::new();
    assert_eq!(registry.resolve_name("unknown"), None);
}

#[test]
fn test_get_definition_by_name() {
    let mut registry: CommandRegistry<TestHandler> = CommandRegistry::new();
    registry.register(create_test_definition("test", vec![]), TestHandler).unwrap();

    let retrieved = registry.get_definition("test");
    assert!(retrieved.is_some());
    assert_eq!(retrieved.unwrap().name, "test");
}

#[test]
fn test_get_definition_by_alias() {
    let mut registry: CommandRegistry<TestHandler> = CommandRegistry::new();
    registry.register(create_test_definition("hello", vec!["hi"]), TestHandler).unwrap();

    let retrieved = registry.get_definition("hi");
    assert!(retrieved.is_some());
    assert_eq!(retrieved.unwrap().name, "hello");
}

#[test]
fn test_get_definition_unknown() {
    let registry: CommandRegistry<TestHandler> = CommandRegistry::new();
    assert!(registry.get_definition("unknown").is_none());
}

#[test]
fn test_get_handler_by_name() {
    let mut registry: CommandRegistry<TestHandler> = CommandRegistry::new();
    registry.register(create_test_definition("test", vec![]), TestHandler).unwrap();

    let handler = registry.get_handler("test");
    assert!(handler.is_some());
}

#[test]
fn test_get_handler_by_alias() {
    let mut registry: CommandRegistry<TestHandler> = CommandRegistry::new();
    registry.register(create_test_definition("hello", vec!["hi"]), TestHandler).unwrap();

    let handler = registry.get_handler("hi");
    assert!(handler.is_some());
}

#[test]
fn test_get_handler_unknown() {
    let registry: CommandRegistry<TestHandler> = CommandRegistry::new();
    assert!(registry.get_handler("unknown").is_none());
}

#[test]
fn test_list_commands_multiple() {
    let mut registry: CommandRegistry<TestHandler> = CommandRegistry::new();

    registry.register(create_test_definition("cmd1", vec![]), TestHandler).unwrap();
    registry.register(create_test_definition("cmd2", vec![]), TestHandler).unwrap();
    registry.register(create_test_definition("cmd3", vec![]), TestHandler).unwrap();

    let commands = registry.list_commands();
    assert_eq!(commands.len(), 3);

    let names: Vec<&str> = commands.iter().map(|c| c.name.as_str()).collect();
    assert!(names.contains(&"cmd1"));
    assert!(names.contains(&"cmd2"));
    assert!(names.contains(&"cmd3"));
}

#[test]
fn test_complete_workflow() {
    let mut registry: CommandRegistry<TestHandler> = CommandRegistry::new();

    let def1 = create_test_definition("simulate", vec!["sim", "run"]);
    let def2 = create_test_definition("validate", vec!["val", "check"]);
    let def3 = create_test_definition("help", vec!["h", "?"]);

    registry.register(def1, TestHandler).unwrap();
    registry.register(def2, TestHandler).unwrap();
    registry.register(def3, TestHandler).unwrap();

    assert_eq!(registry.len(), 3);

    assert_eq!(registry.resolve_name("simulate"), Some("simulate".to_string()));
    assert_eq!(registry.resolve_name("sim"), Some("simulate".to_string()));
    assert_eq!(registry.resolve_name("validate"), Some("validate".to_string()));
    assert_eq!(registry.resolve_name("val"), Some("validate".to_string()));

    assert!(registry.get_handler("simulate").is_some());
    assert!(registry.get_handler("sim").is_some());
    assert!(registry.get_handler("h").is_some());

    let sim_def = registry.get_definition("sim");
    assert!(sim_def.is_some());
    assert_eq!(sim_def.unwrap().name, "simulate");
}

#[test]
fn test_default_trait() {
    let registry: CommandRegistry<TestHandler> = Default::default();
    assert!(registry.is_empty());
}

#[test]
fn test_contains_method() {
    let mut registry: CommandRegistry<TestHandler> = CommandRegistry::new();
    registry.register(create_test_definition("test", vec!["t"]), TestHandler).unwrap();

    assert!(registry.contains("test"));
    assert!(registry.contains("t"));
    assert!(!registry.contains("unknown"));
}

#[test]
fn test_case_sensitivity() {
    let mut registry: CommandRegistry<TestHandler> = CommandRegistry::new();
    registry.register(create_test_definition("Test", vec![]), TestHandler).unwrap();

    assert!(registry.contains("Test"));
    assert!(!registry.contains("test"));
    assert!(!registry.contains("TEST"));
}

#[test]
fn test_multiple_aliases_same_command() {
    let mut registry: CommandRegistry<TestHandler> = CommandRegistry::new();
    registry
        .register(create_test_definition("command", vec!["c", "cmd", "com"]), TestHandler)
        .unwrap();

    assert_eq!(registry.resolve_name("c"), Some("command".to_string()));
    assert_eq!(registry.resolve_name("cmd"), Some("command".to_string()));
    assert_eq!(registry.resolve_name("com"), Some("command".to_string()));
}
