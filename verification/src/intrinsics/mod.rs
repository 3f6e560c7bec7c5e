//! The commands that the shell runs itself.

pub mod intrinsic;

pub use intrinsic::{
    change_directory_report, change_directory_target, find_intrinsic, find_name, ExitShell,
    Intrinsic,
};
