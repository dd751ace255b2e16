//! An in-memory task list driven by textual commands.
//!
//! A command line such as `add buy carrots` or `done 0 2` is split into
//! whitespace-separated tokens; the first token selects an [`operations::Operation`]
//! and the rest are its arguments. [`operations::process_line`] applies one such
//! line to the list of [`operations::Todo`] values and reports what should be
//! printed, leaving all terminal I/O to the caller.

pub mod operations;
pub mod text;
