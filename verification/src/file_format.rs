//! Detection of the output serialization format from a file name.

use vstd::prelude::*;
use crate::strings::{seq_ends_with, str_ends_with};

verus! {

/// The serialization formats an output file name can select.
#[derive(Debug, Clone, PartialEq, Eq, Structural)]
pub enum OutputFormat {
    /// one JSON document holding the zones and the metadata
    Json,
    /// the JSON document, gzip-compressed
    JsonGz,
    /// newline-delimited JSON, one zone per line
    JsonStream,
    /// the newline-delimited form, gzip-compressed
    JsonStreamGz,
}

/// Error of [`OutputFormat::from_filename`].
#[derive(Debug, Clone, PartialEq, Eq, Structural)]
pub enum FormatError {
    /// the file name carries none of the known extensions
    UnknownExtension,
}

impl OutputFormat {
    /// What `from_filename` returns: the first of the known extensions, in
    /// their fixed order, that the file name ends with.
    pub open spec fn spec_from_filename(name: Seq<char>) -> Option<OutputFormat> {
        if seq_ends_with(name, ".json"@) {
            Some(OutputFormat::Json)
        } else if seq_ends_with(name, ".jsonl"@) {
            Some(OutputFormat::JsonStream)
        } else if seq_ends_with(name, ".json.gz"@) {
            Some(OutputFormat::JsonGz)
        } else if seq_ends_with(name, ".jsonl.gz"@) {
            Some(OutputFormat::JsonStreamGz)
        } else {
            None
        }
    }

    /// Detect the output format from the file name's extension; an unknown
    /// extension is an error.
    pub fn from_filename(filename: &str) -> (r: Result<OutputFormat, FormatError>)
        ensures
            match r {
                Ok(f) => Self::spec_from_filename(filename@) == Some(f),
                Err(e) => {
                    &&& Self::spec_from_filename(filename@) is None
                    &&& e == FormatError::UnknownExtension
                },
            },
    {
        if str_ends_with(filename, ".json") {
            Ok(OutputFormat::Json)
        } else if str_ends_with(filename, ".jsonl") {
            Ok(OutputFormat::JsonStream)
        } else if str_ends_with(filename, ".json.gz") {
            Ok(OutputFormat::JsonGz)
        } else if str_ends_with(filename, ".jsonl.gz") {
            Ok(OutputFormat::JsonStreamGz)
        } else {
            Err(FormatError::UnknownExtension)
        }
    }
}

} // verus!
