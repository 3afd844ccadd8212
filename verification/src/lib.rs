//! Size budgets for WebAssembly bundles: measured sizes, budgets, growth
//! thresholds, baselines and the gates that combine them.
#![allow(unused_imports)]

use vstd::prelude::*;

pub mod baseline;
pub mod compression;
pub mod config;
pub mod decimal;
pub mod error;
pub mod files;
pub mod gates;
pub mod limits;
pub mod metric;
pub mod order;
pub mod paths;
pub mod run;
pub mod size;
pub mod text;
pub mod threshold;
pub mod top;

pub use baseline::Baseline;
pub use compression::Compression;
pub use config::{Config, CONFIG_FILE, DEFAULT_BASELINE_FILE};
pub use error::WasmCheckError;
pub use limits::{Budget, Limits, MaxDelta};
pub use files::{
    detected_files, fallback_dirs, has_wasm_extension, outcome_fits_selection, plan_files, resolve_files,
    sort_paths, wasm_files, Found, Lookup, Outcome, ResolvedFile, Selection,
};
pub use gates::{
    conclude, escape_data, escape_property, evaluate, failure_reasons, file_status,
    github_annotations, metric_list, run_status, Gates, Status, Verdict,
};
pub use metric::Metric;
pub use paths::{clean, config_dir, display_dir, glob_pattern, is_glob, join, key_for, normalized_dir};
pub use run::{
    absent_baseline, baseline_is_explicit, baseline_path, config_path, effective_budget,
    effective_compression, effective_max_delta, ensure_budget, record_reports, seed_budget,
    widest_raw_of,
};
pub use size::{delta_str, format_size, parse_size, Size, SizeDelta, SizeReport};
pub use threshold::{Percent, Threshold};
pub use top::{rank_functions, top_functions, WasmEvent};

verus! {
} // verus!
