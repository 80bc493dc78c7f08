//! Spilling intermediate rows to transient files.
//!
//! - [`codec`] is the byte form of a row,
//! - [`file`] the byte form of a run of rows,
//! - [`budget`] tells an operator when to flush what it holds,
//! - [`context`] holds the setting that turns spilling on.
pub mod budget;
pub mod codec;
pub mod context;
pub mod file;
pub mod meaning;
