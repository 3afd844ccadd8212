//! The three size metrics wasmcheck reports on.

use vstd::prelude::*;

use crate::error::WasmCheckError;
use crate::size::{report_value, SizeReport};
use crate::text::{
    chars_eq_str, chars_of, lower_chars, lower_seq, string_from_chars, trim, trim_chars,
};

verus! {

/// One of the three sizes measured for every bundle.
#[derive(Debug, Clone, Copy, PartialEq, Eq, Structural, PartialOrd, Ord, Hash)]
pub enum Metric {
    /// The uncompressed bundle size.
    Raw,
    /// The size after gzip compression.
    Gzip,
    /// The size after brotli compression.
    Brotli,
}

/// Every metric, in the order they are reported.
pub open spec fn all_metrics() -> Seq<Metric> {
    seq![Metric::Raw, Metric::Gzip, Metric::Brotli]
}

/// The lowercase name of a metric: `raw`, `gzip` or `brotli`.
pub open spec fn metric_name(m: Metric) -> Seq<char> {
    match m {
        Metric::Raw => "raw"@,
        Metric::Gzip => "gzip"@,
        Metric::Brotli => "brotli"@,
    }
}

/// The metric named by `s`, compared case-insensitively after trimming.
pub open spec fn metric_from_text(s: Seq<char>) -> Option<Metric> {
    let name = lower_seq(trim(s));
    if name == "raw"@ {
        Some(Metric::Raw)
    } else if name == "gzip"@ {
        Some(Metric::Gzip)
    } else if name == "brotli"@ {
        Some(Metric::Brotli)
    } else {
        None
    }
}

impl Metric {
    /// Every metric, in the order they are reported.
    pub const ALL: [Metric; 3] = [Metric::Raw, Metric::Gzip, Metric::Brotli];

    /// Every metric, in the order they are reported.
    pub fn all() -> (r: [Metric; 3])
        ensures
            r@ == all_metrics(),
    {
        let r = [Metric::Raw, Metric::Gzip, Metric::Brotli];
        assert(r@ =~= all_metrics());
        r
    }

    /// The measured value of this metric in `report`.
    pub fn value(self, report: &SizeReport) -> (r: u64)
        ensures
            r == report_value(*report, self),
    {
        match self {
            Metric::Raw => report.raw,
            Metric::Gzip => report.gzip,
            Metric::Brotli => report.brotli,
        }
    }

    /// The lowercase name: `"raw"`, `"gzip"` or `"brotli"`.
    pub fn name(self) -> (r: &'static str)
        ensures
            r@ == metric_name(self),
    {
        match self {
            Metric::Raw => "raw",
            Metric::Gzip => "gzip",
            Metric::Brotli => "brotli",
        }
    }

    /// Parses `"raw"`, `"gzip"` or `"brotli"` (case-insensitive, surrounding
    /// whitespace ignored).
    ///
    /// Fails with [`WasmCheckError::InvalidMetric`] carrying the trimmed,
    /// lowercased input for any other name.
    pub fn parse(s: &str) -> (r: Result<Metric, WasmCheckError>)
        ensures
            metric_from_text(s@) matches Some(m) ==> r == Ok::<Metric, WasmCheckError>(m),
            metric_from_text(s@) is None ==> (r matches Err(WasmCheckError::InvalidMetric(t))
                && t@ == lower_seq(trim(s@))),
    {
        let chars = chars_of(s);
        let trimmed = trim_chars(chars.as_slice());
        let name = lower_chars(trimmed.as_slice());
        if chars_eq_str(name.as_slice(), "raw") {
            Ok(Metric::Raw)
        } else if chars_eq_str(name.as_slice(), "gzip") {
            Ok(Metric::Gzip)
        } else if chars_eq_str(name.as_slice(), "brotli") {
            Ok(Metric::Brotli)
        } else {
            Err(WasmCheckError::InvalidMetric(string_from_chars(name.as_slice())))
        }
    }
}

impl std::str::FromStr for Metric {
    type Err = WasmCheckError;

    fn from_str(s: &str) -> (r: Result<Self, Self::Err>)
        ensures
            metric_from_text(s@) matches Some(m) ==> r == Ok::<Metric, WasmCheckError>(m),
            metric_from_text(s@) is None ==> (r matches Err(WasmCheckError::InvalidMetric(t))
                && t@ == lower_seq(trim(s@))),
    {
        Metric::parse(s)
    }
}

/// A metric's name reads back as the same metric.
pub proof fn law_metric_name_roundtrip(m: Metric)
    ensures
        metric_from_text(metric_name(m)) == Some(m),
{
    reveal_strlit("raw");
    reveal_strlit("gzip");
    reveal_strlit("brotli");
    let s = metric_name(m);
    assert(trim(s) == s);
    assert(lower_seq(s) =~= s);
}

} // verus!
