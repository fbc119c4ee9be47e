//! Error types and the fuzzy-suggestion engine that enriches resolution
//! errors.
pub mod suggestions;
pub mod types;

pub use suggestions::find_similar_strings;
pub use types::ConfigError;
pub use types::DynamicCliError;
pub use types::ExecutionError;
pub use types::ParseError;
pub use types::RegistryError;
pub use types::ValidationError;
