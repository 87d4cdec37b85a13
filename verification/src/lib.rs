//! Slash-command popup and bottom-pane logic of a chat terminal UI.

pub mod slash_commands;
pub mod text;
pub mod slash_command_overlay;
pub mod bottom_pane;
