//! The command-line arguments, as plain values.
use vstd::prelude::*;

verus! {

/// Global options and the chosen subcommand.
#[derive(Debug, Clone)]
pub struct Cli {
    /// The subcommand; none starts the interactive mode.
    pub command: Option<Command>,
    /// Output file path (defaults to stdout for text outputs).
    pub output: Option<String>,
    /// Page range, e.g. "1-5", "1,3,7", "1-3,7,10-12".
    pub pages: Option<String>,
    /// Show verbose output with timing.
    pub verbose: bool,
    /// Suppress all non-essential output.
    pub quiet: bool,
    /// Output as JSON.
    pub json: bool,
    /// Password for encrypted PDFs.
    pub password: Option<String>,
    /// Skip the banner in interactive mode.
    pub no_banner: bool,
}

/// The subcommands.
#[derive(Debug, Clone)]
pub enum Command {
    /// Extract plain text from a PDF.
    Text { file: String },
    /// Convert a PDF to Markdown.
    Markdown { file: String },
    /// Convert a PDF to HTML.
    Html { file: String },
    /// Show PDF metadata and page count.
    Info { file: String },
    /// Merge several PDFs into one (the first file is the base).
    Merge { files: Vec<String> },
    /// Split a PDF into single pages.
    Split { file: String },
    /// Create a PDF from Markdown, HTML or plain text.
    Create { file: String, from: String },
    /// Compress and optimize a PDF.
    Compress { file: String },
    /// Encrypt a PDF with a password.
    Encrypt { file: String },
    /// Decrypt a password-protected PDF.
    Decrypt { file: String, password: String },
    /// Search for text in a PDF.
    Search { file: String, pattern: String, ignore_case: bool },
    /// Extract images from a PDF.
    Images { file: String },
}

} // verus!
