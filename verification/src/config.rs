//! The configuration data model (command specifications) and its validator.
pub mod schema;
pub mod validator;

pub use schema::ArgumentDefinition;
pub use schema::ArgumentType;
pub use schema::CommandDefinition;
pub use schema::CommandsConfig;
pub use schema::Metadata;
pub use schema::OptionDefinition;
pub use schema::ValidationRule;
pub use validator::validate_command;
pub use validator::validate_config;
