//! The crate's error type.

pub mod error;

pub use error::YeeshError;
