//! A declarative command-line engine: command specifications are registered
//! once, then free-form input lines or pre-split argument lists are parsed
//! against them, with type coercion, defaults, validation and fuzzy
//! suggestions for typos.
#![verifier::loop_isolation(false)]

pub mod config;
pub mod error;
pub mod parser;
pub mod prelude;
pub mod registry;
pub mod text;
pub mod utils;
pub mod validator;

pub use config::schema::ArgumentDefinition;
pub use config::schema::ArgumentType;
pub use config::schema::CommandDefinition;
pub use config::schema::CommandsConfig;
pub use config::schema::Metadata;
pub use config::schema::OptionDefinition;
pub use config::schema::ValidationRule;
pub use error::DynamicCliError;
pub use parser::ArgMap;
pub use parser::CliParser;
pub use parser::ParsedCommand;
pub use parser::ReplParser;
pub use registry::CommandRegistry;
pub use validator::validate_file_exists;
pub use validator::validate_file_extension;
pub use utils::detect_type;
pub use utils::format_bytes;
pub use utils::format_duration;
pub use utils::get_extension;
pub use utils::has_extension;
pub use utils::is_blank;
pub use utils::normalize;
pub use utils::normalize_path;
pub use utils::parse_bool;
pub use utils::parse_int;
pub use utils::truncate;
