//! Command-line front end: argument model, page selection and interactive commands.
pub mod pages;
pub mod args;
pub mod format;
pub mod commands;
pub mod repl;
