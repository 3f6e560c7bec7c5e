//! The line editor and the parts it is built from.

pub mod cmd_input;
pub mod render;
pub mod suggester;
pub mod tab_handler;
pub mod token;

pub use cmd_input::{CmdInput, CompletionState, DetectCursorPosAlias, IoWriteAlias, Key};
pub use tab_handler::TabHandler;
