//! Stand-ins for the terminal.

pub mod painting;
pub mod raw_tty_emulator;
pub mod sequences;
