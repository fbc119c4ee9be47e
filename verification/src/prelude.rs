//! The most commonly used items, importable with a single `use`.
pub use crate::config::schema::ArgumentType;
pub use crate::config::schema::CommandsConfig;
pub use crate::error::DynamicCliError;
pub use crate::parser::ArgMap;
pub use crate::parser::CliParser;
pub use crate::parser::ParsedCommand;
pub use crate::parser::ReplParser;
pub use crate::registry::CommandRegistry;
pub use crate::utils::detect_type;
pub use crate::utils::is_blank;
pub use crate::utils::normalize;
pub use crate::utils::parse_bool;
pub use crate::utils::parse_int;
pub use crate::validator::validate_file_exists;
pub use crate::validator::validate_file_extension;
