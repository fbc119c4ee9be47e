//! Post-parse validation of argument values: file existence and extension
//! checks. Numeric range checking works on floating-point values and lives
//! with the embedding application.
pub mod file_validator;

pub use file_validator::validate_file_exists;
pub use file_validator::validate_file_extension;
