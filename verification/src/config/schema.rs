//! Data structures describing commands: the shape every command
//! specification takes, whatever configuration format an embedding
//! application loads it from.
use vstd::prelude::*;

verus! {

/// The declared type of an argument or option value.
#[derive(Debug, Clone, Copy, PartialEq, Eq, Structural)]
pub enum ArgumentType {
    /// UTF-8 string; any value is accepted.
    String,
    /// Signed 64-bit integer in base 10.
    Integer,
    /// IEEE-754 double; decimal, scientific notation and the literal
    /// infinity and not-a-number forms.
    Float,
    /// Boolean; several spellings are accepted, case-insensitively.
    Bool,
    /// File system path; accepted unconditionally at coercion time.
    Path,
}

impl ArgumentType {
    /// The type's name, as used in error messages and configuration files.
    pub fn as_str(&self) -> (r: &'static str)
        ensures
            *self is String ==> r@ == "string"@,
            *self is Integer ==> r@ == "integer"@,
            *self is Float ==> r@ == "float"@,
            *self is Bool ==> r@ == "bool"@,
            *self is Path ==> r@ == "path"@,
    {
        match self {
            ArgumentType::String => "string",
            ArgumentType::Integer => "integer",
            ArgumentType::Float => "float",
            ArgumentType::Bool => "bool",
            ArgumentType::Path => "path",
        }
    }
}

/// A post-coercion constraint on one field's value.
///
/// `MustExist` and `Extensions` are meaningful only for `Path`-typed
/// fields, `Range` only for numeric ones; the configuration validator
/// enforces that. Range bounds are whole numbers, either of which may be
/// absent, meaning unconstrained on that side.
#[derive(Debug, Clone, PartialEq)]
pub enum ValidationRule {
    /// The path must (or need not) exist on the file system.
    MustExist { must_exist: bool },
    /// The path's final extension must be one of these, compared
    /// case-insensitively; each is written without its leading dot.
    Extensions { extensions: Vec<String> },
    /// Inclusive numeric bounds.
    Range { min: Option<i64>, max: Option<i64> },
}

/// Metadata of the application interface.
#[derive(Debug, Clone, PartialEq)]
pub struct Metadata {
    /// Application version string.
    pub version: String,
    /// Prompt prefix displayed in interactive mode.
    pub prompt: String,
    /// Prompt suffix, typically `" > "`.
    pub prompt_suffix: String,
}

/// The prompt suffix used when a configuration does not set one.
pub fn default_prompt_suffix() -> (r: String)
    ensures
        r@ == " > "@,
{
    " > ".to_owned()
}

/// One positional argument of a command.
#[derive(Debug, Clone, PartialEq)]
pub struct ArgumentDefinition {
    /// Name, unique within the command.
    pub name: String,
    /// Declared value type.
    pub arg_type: ArgumentType,
    /// Whether the argument must be supplied.
    pub required: bool,
    /// Human-readable description.
    pub description: String,
    /// Post-parse validation rules; all must pass.
    pub validation: Vec<ValidationRule>,
}

/// One named option of a command.
#[derive(Debug, Clone, PartialEq)]
pub struct OptionDefinition {
    /// Name, unique within the command.
    pub name: String,
    /// Short form: exactly one character, without the leading dash.
    pub short: Option<String>,
    /// Long form: non-empty, without the leading dashes.
    pub long: Option<String>,
    /// Declared value type.
    pub option_type: ArgumentType,
    /// Whether the option must be supplied.
    pub required: bool,
    /// Value used when the option is absent; must itself coerce.
    pub default: Option<String>,
    /// Human-readable description.
    pub description: String,
    /// Restricted value set; empty means unrestricted.
    pub choices: Vec<String>,
}

/// The full specification of one command.
#[derive(Debug, Clone, PartialEq)]
pub struct CommandDefinition {
    /// Canonical name.
    pub name: String,
    /// Alternate names; each must be globally unique.
    pub aliases: Vec<String>,
    /// Human-readable description.
    pub description: String,
    /// Whether the application must register a handler for this command.
    pub required: bool,
    /// Positional arguments, in matching order.
    pub arguments: Vec<ArgumentDefinition>,
    /// Named options.
    pub options: Vec<OptionDefinition>,
    /// Opaque key the dispatcher uses to find the executable logic.
    pub implementation: String,
}

/// A complete configuration: interface metadata plus all commands.
#[derive(Debug, Clone, PartialEq)]
pub struct CommandsConfig {
    /// Metadata about the application interface.
    pub metadata: Metadata,
    /// All available commands.
    pub commands: Vec<CommandDefinition>,
    /// Options shared by all commands.
    pub global_options: Vec<OptionDefinition>,
}

impl CommandsConfig {
    /// A minimal valid configuration: placeholder metadata and no
    /// commands; useful as a starting point in tests and examples.
    pub fn minimal() -> (r: CommandsConfig)
        ensures
            r.metadata.version@ == "0.1.0"@,
            r.metadata.prompt@ == "test"@,
            r.metadata.prompt_suffix@ == " > "@,
            r.commands@.len() == 0,
            r.global_options@.len() == 0,
    {
        CommandsConfig {
            metadata: Metadata {
                version: "0.1.0".to_owned(),
                prompt: "test".to_owned(),
                prompt_suffix: " > ".to_owned(),
            },
            commands: Vec::new(),
            global_options: Vec::new(),
        }
    }
}

} // verus!
