//! The command-line options, as plain values.
//!
//! Parsing the command line is the program's job; the library holds what the
//! options say and what follows from them.

use vstd::prelude::*;
use crate::gzip::Limits;

verus! {

/// The parsed command line.
#[derive(Debug)]
pub struct Cli {
    pub command: Command,
}

/// What to do.
#[derive(Debug)]
pub enum Command {
    /// Reconstruct the document and write it out. Markdown by default.
    Extract(ExtractArgs),
    /// Report what a container holds, without reconstructing a document.
    Inspect(InspectArgs),
}

/// Options of `extract`.
#[derive(Debug)]
pub struct ExtractArgs {
    /// The .loop or .fluid file to read.
    pub file: String,
    /// Output format.
    pub format: OutputFormat,
    /// Write to this file instead of standard output.
    pub output: Option<String>,
    /// Keep author names, email addresses, object ids and edit timestamps.
    /// Only the JSON format can carry attribution at all.
    pub include_attribution: bool,
    /// Largest decompressed size accepted from a single gzip member, in bytes.
    pub max_member_bytes: u64,
    /// Largest total decompressed size accepted from one file, in bytes.
    pub max_total_bytes: u64,
}

/// Output formats of `extract`.
#[derive(Debug, Clone, Copy, PartialEq, Eq, Structural)]
pub enum OutputFormat {
    Markdown,
    Text,
    Json,
}

/// Options of `inspect`.
#[derive(Debug)]
pub struct InspectArgs {
    /// The .loop or .fluid file to inspect.
    pub file: String,
    /// Report format.
    pub format: ReportFormat,
    /// Write every inflated member and discovered JSON payload to this directory.
    pub dump_payloads: Option<String>,
    /// Include per-member detail and per-tree source locations.
    pub verbose: bool,
    /// Largest decompressed size accepted from a single gzip member, in bytes.
    pub max_member_bytes: u64,
    /// Largest total decompressed size accepted from one file, in bytes.
    pub max_total_bytes: u64,
}

/// Report formats of `inspect`.
#[derive(Debug, Clone, Copy, PartialEq, Eq, Structural)]
pub enum ReportFormat {
    Text,
    Json,
}

impl ExtractArgs {
    /// The decompression limits these options set.
    pub fn limits(&self) -> (r: Limits)
        ensures
            r.max_member_bytes == self.max_member_bytes,
            r.max_total_bytes == self.max_total_bytes,
    {
        Limits { max_member_bytes: self.max_member_bytes, max_total_bytes: self.max_total_bytes }
    }

    /// Whether `--include-attribution` was given for a format that cannot
    /// carry attribution, which earns a note: markdown and text never carry it.
    pub fn attribution_is_ignored(&self) -> (r: bool)
        ensures
            r == (self.include_attribution && self.format != OutputFormat::Json),
    {
        self.include_attribution && self.format != OutputFormat::Json
    }
}

impl InspectArgs {
    /// The decompression limits these options set.
    pub fn limits(&self) -> (r: Limits)
        ensures
            r.max_member_bytes == self.max_member_bytes,
            r.max_total_bytes == self.max_total_bytes,
    {
        Limits { max_member_bytes: self.max_member_bytes, max_total_bytes: self.max_total_bytes }
    }
}

} // verus!
