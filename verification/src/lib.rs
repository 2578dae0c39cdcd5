//! Recall engine for shell history: a command store, a contextual ranker,
//! a substring matcher, a grapheme-aware line editor and the state machine
//! of the interactive search screen.

pub mod segmentation;
pub mod command_input;
pub mod fixed_length_grapheme_string;
pub mod text;
pub mod history;
pub mod history_cleaner;
pub mod ranker;
pub mod matcher;
pub mod laws;
pub mod path_update_helpers;
pub mod pathutil;
pub mod shell;
pub mod shell_history;
pub mod cli;
pub mod settings;
pub mod interface;
pub mod elapsed;
