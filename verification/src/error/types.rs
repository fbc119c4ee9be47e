//! The error taxonomy: every failure is returned as a value of one of these
//! enums, with enough context to render a precise message.
use vstd::prelude::*;

use crate::error::suggestions::find_similar_strings;
use crate::error::suggestions::spec_suggestions;

verus! {

/// Errors related to loading and validating the configuration.
#[derive(Debug, Clone, PartialEq)]
pub enum ConfigError {
    /// The configuration file does not exist.
    FileNotFound { path: String },
    /// The configuration file has an unsupported extension.
    UnsupportedFormat { extension: String },
    /// The configuration does not match the expected structure.
    InvalidSchema { reason: String, path: Option<String> },
    /// Two commands share a name or an alias.
    DuplicateCommand { name: String },
    /// An argument type name is not recognised.
    UnknownType { name: String, context: String },
    /// The configuration is structurally valid but logically inconsistent.
    Inconsistency { details: String },
}

/// Errors when parsing user commands.
#[derive(Debug, Clone, PartialEq)]
pub enum ParseError {
    /// The typed command resolves to nothing; carries fuzzy suggestions.
    UnknownCommand { command: String, suggestions: Vec<String> },
    /// A required positional argument is absent.
    MissingArgument { argument: String, command: String },
    /// A required option is absent.
    MissingOption { option: String, command: String },
    /// More positional arguments than the command declares.
    TooManyArguments { command: String, expected: usize, got: usize },
    /// The typed flag resolves to nothing; carries fuzzy suggestions.
    UnknownOption { flag: String, command: String, suggestions: Vec<String> },
    /// A raw value does not coerce to its declared type.
    TypeParseError {
        arg_name: String,
        expected_type: String,
        value: String,
        details: Option<String>,
    },
    /// A value is not a member of the declared choices.
    InvalidChoice { arg_name: String, value: String, choices: Vec<String> },
    /// Malformed input: unbalanced quoting, a flag without its value, an
    /// empty line.
    InvalidSyntax { details: String, hint: Option<String> },
}

/// Errors during post-parse validation of argument values.
#[derive(Debug, Clone, PartialEq)]
pub enum ValidationError {
    /// A path that must exist does not.
    FileNotFound { path: String, arg_name: String },
    /// A path has no extension, or one outside the allow-list.
    InvalidExtension { arg_name: String, path: String, expected: Vec<String> },
    /// A numeric value lies outside its configured bounds. The offending
    /// value and the bounds are carried in their textual form.
    OutOfRange { arg_name: String, value: String, min: String, max: String },
    /// A custom constraint was not met.
    CustomConstraint { arg_name: String, reason: String },
    /// An argument requires another that is absent.
    MissingDependency { arg_name: String, required_arg: String },
    /// Two arguments cannot be used together.
    MutuallyExclusive { arg1: String, arg2: String },
}

/// Errors during command execution.
#[derive(Debug, Clone, PartialEq)]
pub enum ExecutionError {
    /// The configured implementation key matches no registered handler.
    HandlerNotFound { command: String, implementation: String },
    /// A handler asked for a context of the wrong type.
    ContextDowncastFailed { expected_type: String },
    /// The context is in a state the command cannot work with.
    InvalidContextState { reason: String },
    /// The command's own logic failed; carries its message.
    CommandFailed { message: String },
    /// The user interrupted the command.
    Interrupted,
}

/// Errors related to the command registry.
#[derive(Debug, Clone, PartialEq)]
pub enum RegistryError {
    /// The command name is already a canonical name.
    DuplicateRegistration { name: String },
    /// The name or alias is already taken, by `existing_command`.
    DuplicateAlias { alias: String, existing_command: String },
    /// A required command has no registered handler.
    MissingHandler { command: String },
}

/// The framework-wide error: one variant per error category.
#[derive(Debug, Clone, PartialEq)]
pub enum DynamicCliError {
    Config(ConfigError),
    Parse(ParseError),
    Validation(ValidationError),
    Execution(ExecutionError),
    Registry(RegistryError),
}

impl ParseError {
    /// An `UnknownCommand` error whose suggestions are the closest
    /// available command names, at most three of them.
    pub fn unknown_command_with_suggestions(command: &str, available: &[String]) -> (r:
        ParseError)
        ensures
            r matches ParseError::UnknownCommand { command: c, suggestions }
                && c@ == command@
                && suggestions.deep_view() == spec_suggestions(
                command@,
                available.deep_view(),
                3,
            ),
    {
        let suggestions = find_similar_strings(command, available, 3);
        ParseError::UnknownCommand { command: command.to_owned(), suggestions }
    }

    /// An `UnknownOption` error whose suggestions are the closest available
    /// flags, at most two of them.
    pub fn unknown_option_with_suggestions(flag: &str, command: &str, available: &[String]) -> (r:
        ParseError)
        ensures
            r matches ParseError::UnknownOption { flag: f, command: c, suggestions }
                && f@ == flag@
                && c@ == command@
                && suggestions.deep_view() == spec_suggestions(flag@, available.deep_view(), 2),
    {
        let suggestions = find_similar_strings(flag, available, 2);
        ParseError::UnknownOption {
            flag: flag.to_owned(),
            command: command.to_owned(),
            suggestions,
        }
    }
}

} // verus!
