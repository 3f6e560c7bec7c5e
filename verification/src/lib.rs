//! Line editing and completion for an interactive shell.
//!
//! The crate keeps an editable command buffer, splits it into quoting-aware
//! tokens, cycles through ranked completion candidates, renders the line as a
//! stream of terminal escape sequences, and interprets that stream again in a
//! small terminal model.

pub mod chars;
pub mod cmd_input;
pub mod error;
pub mod fixture;
pub mod intrinsics;
