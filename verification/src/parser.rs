//! Parsing: type coercion of raw values, the positional/option parser for
//! pre-split argument lists, and the interactive line parser.
pub mod cli_parser;
pub mod repl_parser;
pub mod type_parser;

pub use cli_parser::ArgMap;
pub use cli_parser::CliParser;
pub use repl_parser::ParsedCommand;
pub use repl_parser::ReplParser;
