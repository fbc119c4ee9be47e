//! The command registry: the lookup surface mapping names and aliases to
//! command specifications and handlers.
pub mod command_registry;

pub use command_registry::CommandRegistry;
