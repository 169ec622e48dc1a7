//! Converters from ordered spans to output formats.
pub mod plain_text;
