//! Arguments of the `config` command.

use vstd::prelude::*;

verus! {

/// Subcommands of `config`.
#[derive(Debug, Clone, Copy, PartialEq, Eq, Structural)]
pub enum ConfigCommand {
    /// Prints the effective settings.
    Show,
    /// Loads and checks the settings.
    Validate,
}

/// Arguments of the `config` command.
#[derive(Debug, Clone, Copy)]
pub struct ConfigArgs {
    pub command: ConfigCommand,
}

} // verus!
