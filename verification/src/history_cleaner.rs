//! Forgetting a command: in the store and in the history file of the shell.

use crate::history::{context_without, other_commands, History};
use crate::shell_history::{commands_of, delete_lines, rewritten};
use vstd::prelude::*;

verus! {

/// Deletes `command` from the store and gives the history file, whose text
/// is `contents`, without it. None if the file holds no command at all: it
/// is then left as it is.
pub fn clean(history: &mut History, contents: &str, command: &str) -> (file: Option<String>)
    requires
        old(history).wf(),
    ensures
        final(history).wf(),
        final(history).rows() == other_commands(old(history).rows(), command@),
        final(history).context() == context_without(old(history).context(), command@),
        final(history).selected_commands == old(history).selected_commands,
        file is Some <==> commands_of(contents@).len() > 0,
        file matches Some(text) ==> text@ == rewritten(
            commands_of(contents@),
            command@,
            commands_of(contents@).len() as int,
        ),
{
    history.delete_command(command);
    delete_lines(contents, command)
}

} // verus!
