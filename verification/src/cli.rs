//! The command line as it was parsed.

use vstd::prelude::*;

verus! {

/// The parsed command line.
pub struct Cli {
    pub command: SubCommand,
    /// The session of the shell that called.
    pub sid: Option<String>,
}

/// What the caller asks for.
pub enum SubCommand {
    /// Record one execution.
    Add { command: Vec<String>, exit: i32, directory: Option<String> },
    /// Open the search screen.
    Search { command: Vec<String>, directory: Option<String>, bottom: bool, light: bool },
    /// Print the script that ties the tool into the shell.
    Init { bottom: bool, light: bool },
}

impl Cli {
    /// Does the caller ask for the shell script?
    pub fn is_init(&self) -> (r: bool)
        ensures
            r == (self.command is Init),
    {
        match self.command {
            SubCommand::Init { .. } => true,
            _ => false,
        }
    }
}

} // verus!
