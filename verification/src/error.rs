//! The error type shared by every wasmcheck operation.

use vstd::prelude::*;

verus! {

/// An operating system error, carried through unchanged.
#[verifier::external_type_specification]
#[verifier::external_body]
pub struct ExIoError(std::io::Error);

/// A JSON error from reading or writing a config or baseline, carried through
/// unchanged.
#[verifier::external_type_specification]
#[verifier::external_body]
pub struct ExJsonError(serde_json::Error);

/// Everything that can go wrong while reading a config, measuring a bundle or
/// parsing a wasm module.
///
/// Paths are held as the text of the path.
#[derive(Debug)]
#[non_exhaustive]
pub enum WasmCheckError {
    /// No `.wasm` file was found in the directory that was searched.
    NoWasmFound {
        /// The directory that was searched.
        dir: String,
    },
    /// More than one candidate `.wasm` file was found and no file was chosen.
    MultipleWasmFound {
        /// The candidates that were found.
        found: Vec<String>,
    },
    /// A path that should exist does not.
    FileNotFound(String),
    /// The requested config file does not exist.
    ConfigNotFound(String),
    /// A baseline file was requested explicitly but does not exist.
    BaselineNotFound(String),
    /// An operating system error while reading or writing a file.
    Io(std::io::Error),
    /// The config file exists but is not valid JSON for this version.
    ConfigParse {
        /// The config file that failed to parse.
        path: String,
        /// The underlying JSON error.
        source: serde_json::Error,
    },
    /// A budget string could not be read as a byte size.
    InvalidSize(String),
    /// A gzip compression level outside `0..=9`.
    InvalidGzipLevel(i64),
    /// A brotli quality outside `0..=11`.
    InvalidBrotliQuality(i64),
    /// A threshold string could not be read as a percentage.
    InvalidPercent(String),
    /// A metric name could not be recognized.
    InvalidMetric(String),
    /// The run finished but at least one file failed a size gate.
    BudgetExceeded(String),
    /// The config could not be serialized back to JSON.
    Serialize(serde_json::Error),
    /// A `.wasm` file could not be parsed.
    WasmParse(String),
}

impl WasmCheckError {
    /// `true` when a size gate failed — a file is over its budget or grew past
    /// `max_delta` — rather than the run failing to start at all.
    pub fn is_budget_exceeded(&self) -> (r: bool)
        ensures
            r == (self is BudgetExceeded),
    {
        match self {
            WasmCheckError::BudgetExceeded(_) => true,
            _ => false,
        }
    }
}

} // verus!
