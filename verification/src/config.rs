//! The committed `.wasmcheck.json` config.

use vstd::prelude::*;

use crate::baseline::{Baseline, EntryView};
use crate::compression::Compression;
use crate::limits::{Budget, MaxDelta};
use crate::paths::{join, join_of, normalized_dir, normalized_dir_of};
use crate::text::str_eq;

verus! {

/// The config file `check` reads when none is named.
pub const CONFIG_FILE: &'static str = ".wasmcheck.json";

/// The baseline file kept next to the config when the config names none.
pub const DEFAULT_BASELINE_FILE: &'static str = ".wasmcheck.baseline.json";

/// The contents of a `.wasmcheck.json` file.
///
/// Entries in [`Config::files`] are resolved relative to the directory
/// containing the config file, not relative to the process working
/// directory; the same holds for [`Config::baseline_path`].
#[derive(Debug)]
pub struct Config {
    files: Vec<String>,
    budget: Option<Budget>,
    max_delta: Option<MaxDelta>,
    compression: Compression,
    baseline_file: Option<String>,
    baseline: Baseline,
    strict: bool,
}

/// A config as specifications see it.
pub struct ConfigView {
    /// The file paths and globs to check, in order.
    pub files: Seq<Seq<char>>,
    /// Absolute caps, one per metric.
    pub budget: Option<Budget>,
    /// Tolerated growth over the baseline, one per metric.
    pub max_delta: Option<MaxDelta>,
    /// Gzip level and brotli quality used to measure.
    pub compression: Compression,
    /// Where the baseline lives, relative to the config's directory.
    pub baseline_file: Option<Seq<char>>,
    /// The deprecated inline baseline.
    pub baseline: Seq<EntryView>,
    /// Whether a checked file without a baseline entry fails the run.
    pub strict: bool,
}

/// The text of an optional string.
pub open spec fn opt_text(s: Option<String>) -> Option<Seq<char>> {
    match s {
        Some(t) => Some(t@),
        None => None,
    }
}

/// The texts of a list of strings.
pub open spec fn text_list(v: Seq<String>) -> Seq<Seq<char>> {
    v.map_values(|s: String| s@)
}

/// `files` after adding `file` unless it is already listed.
pub open spec fn files_with(files: Seq<Seq<char>>, file: Seq<char>) -> Seq<Seq<char>> {
    if files.contains(file) {
        files
    } else {
        files.push(file)
    }
}

/// Where the baseline of a config with `baseline_file` lives, given the
/// directory holding the config.
pub open spec fn baseline_location(baseline_file: Option<Seq<char>>, config_dir: Seq<char>) -> Seq<
    char,
> {
    join_of(
        normalized_dir_of(config_dir),
        match baseline_file {
            Some(f) => f,
            None => DEFAULT_BASELINE_FILE@,
        },
    )
}

impl View for Config {
    type V = ConfigView;

    closed spec fn view(&self) -> ConfigView {
        ConfigView {
            files: text_list(self.files@),
            budget: self.budget,
            max_delta: self.max_delta,
            compression: self.compression,
            baseline_file: opt_text(self.baseline_file),
            baseline: self.baseline@,
            strict: self.strict,
        }
    }
}

impl Config {
    /// An empty config: no files, no budget, no baseline, the CDN
    /// compression preset.
    ///
    /// An empty `files` list means "auto-detect a single `.wasm` file next to
    /// the config".
    pub fn new() -> (r: Self)
        ensures
            r@.files == Seq::<Seq<char>>::empty(),
            r@.budget is None,
            r@.max_delta is None,
            r@.compression@ == (6u32, 5i32),
            r@.baseline_file is None,
            r@.baseline == Seq::<EntryView>::empty(),
            !r@.strict,
    {
        let r = Config {
            files: Vec::new(),
            budget: None,
            max_delta: None,
            compression: Compression::cdn(),
            baseline_file: None,
            baseline: Baseline::new(),
            strict: false,
        };
        assert(r@.files =~= Seq::<Seq<char>>::empty());
        r
    }

    /// A config holding exactly the given fields, as a config file spells
    /// them out.
    pub fn from_parts(
        files: Vec<String>,
        budget: Option<Budget>,
        max_delta: Option<MaxDelta>,
        compression: Compression,
        baseline_file: Option<String>,
        baseline: Baseline,
        strict: bool,
    ) -> (r: Self)
        ensures
            r@.files == text_list(files@),
            r@.budget == budget,
            r@.max_delta == max_delta,
            r@.compression == compression,
            r@.baseline_file == opt_text(baseline_file),
            r@.baseline == baseline@,
            r@.strict == strict,
    {
        Config { files, budget, max_delta, compression, baseline_file, baseline, strict }
    }

    /// The configured file paths and globs, as written in the config.
    pub fn files(&self) -> (r: &[String])
        ensures
            text_list(r@) == self@.files,
    {
        self.files.as_slice()
    }

    /// Adds `file` to the list unless it is already there.
    pub fn add_file(&mut self, file: &str)
        ensures
            final(self)@.files == files_with(old(self)@.files, file@),
            final(self)@.budget == old(self)@.budget,
            final(self)@.max_delta == old(self)@.max_delta,
            final(self)@.compression == old(self)@.compression,
            final(self)@.baseline_file == old(self)@.baseline_file,
            final(self)@.baseline == old(self)@.baseline,
            final(self)@.strict == old(self)@.strict,
    {
        let ghost listed = text_list(self.files@);
        let n = self.files.len();
        let mut i: usize = 0;
        while i < n
            invariant
                n == self.files@.len(),
                listed == text_list(self.files@),
                i <= n,
                forall|j: int| 0 <= j < i ==> (#[trigger] listed[j]) != file@,
            decreases n - i,
        {
            if str_eq(self.files[i].as_str(), file) {
                assert(listed[i as int] == file@);
                return;
            }
            i = i + 1;
        }
        assert(!listed.contains(file@)) by {
            if listed.contains(file@) {
                let j = choose|j: int| 0 <= j < listed.len() && listed[j] == file@;
                assert(listed[j] != file@);
            }
        }
        self.files.push(file.to_owned());
        assert(text_list(self.files@) =~= listed.push(file@));
    }

    /// The configured budget, if any.
    pub fn budget(&self) -> (r: Option<&Budget>)
        ensures
            match r {
                Some(b) => self@.budget == Some(*b),
                None => self@.budget is None,
            },
    {
        self.budget.as_ref()
    }

    /// Replaces the budget.
    pub fn set_budget(&mut self, budget: Option<Budget>)
        ensures
            final(self)@.budget == budget,
            final(self)@.files == old(self)@.files,
            final(self)@.max_delta == old(self)@.max_delta,
            final(self)@.compression == old(self)@.compression,
            final(self)@.baseline_file == old(self)@.baseline_file,
            final(self)@.baseline == old(self)@.baseline,
            final(self)@.strict == old(self)@.strict,
    {
        self.budget = budget;
    }

    /// The maximum tolerated growth over the baseline, if configured.
    ///
    /// Files without a baseline entry cannot be evaluated against it.
    pub fn max_delta(&self) -> (r: Option<&MaxDelta>)
        ensures
            match r {
                Some(m) => self@.max_delta == Some(*m),
                None => self@.max_delta is None,
            },
    {
        self.max_delta.as_ref()
    }

    /// Replaces the maximum tolerated growth over the baseline.
    pub fn set_max_delta(&mut self, max_delta: Option<MaxDelta>)
        ensures
            final(self)@.max_delta == max_delta,
            final(self)@.files == old(self)@.files,
            final(self)@.budget == old(self)@.budget,
            final(self)@.compression == old(self)@.compression,
            final(self)@.baseline_file == old(self)@.baseline_file,
            final(self)@.baseline == old(self)@.baseline,
            final(self)@.strict == old(self)@.strict,
    {
        self.max_delta = max_delta;
    }

    /// The gzip level and brotli quality to measure with.
    ///
    /// Defaults to [`Compression::cdn`] — what a server or CDN does on the
    /// fly — rather than the best compression achievable.
    pub fn compression(&self) -> (r: Compression)
        ensures
            r == self@.compression,
    {
        self.compression
    }

    /// Replaces the compression setting.
    pub fn set_compression(&mut self, compression: Compression)
        ensures
            final(self)@.compression == compression,
            final(self)@.files == old(self)@.files,
            final(self)@.budget == old(self)@.budget,
            final(self)@.max_delta == old(self)@.max_delta,
            final(self)@.baseline_file == old(self)@.baseline_file,
            final(self)@.baseline == old(self)@.baseline,
            final(self)@.strict == old(self)@.strict,
    {
        self.compression = compression;
    }

    /// The configured baseline file name, if the config names one.
    pub fn baseline_file(&self) -> (r: Option<&str>)
        ensures
            match r {
                Some(f) => self@.baseline_file == Some(f@),
                None => self@.baseline_file is None,
            },
    {
        match &self.baseline_file {
            Some(f) => Some(f.as_str()),
            None => None,
        }
    }

    /// Points the config at a different baseline file, relative to the
    /// config file's directory.
    pub fn set_baseline_file(&mut self, file: Option<String>)
        ensures
            final(self)@.baseline_file == opt_text(file),
            final(self)@.files == old(self)@.files,
            final(self)@.budget == old(self)@.budget,
            final(self)@.max_delta == old(self)@.max_delta,
            final(self)@.compression == old(self)@.compression,
            final(self)@.baseline == old(self)@.baseline,
            final(self)@.strict == old(self)@.strict,
    {
        self.baseline_file = file;
    }

    /// Where the baseline file lives, given the directory holding this
    /// config: the configured file, else [`DEFAULT_BASELINE_FILE`], joined
    /// onto that directory (`"."` counting as none).
    pub fn baseline_path(&self, config_dir: &str) -> (r: String)
        ensures
            r@ == baseline_location(self@.baseline_file, config_dir@),
    {
        let dir = normalized_dir(config_dir);
        match &self.baseline_file {
            Some(file) => join(dir.as_str(), file.as_str()),
            None => join(dir.as_str(), DEFAULT_BASELINE_FILE),
        }
    }

    /// The deprecated baseline still stored inline in the config.
    ///
    /// When no baseline file exists yet, a config carrying one is the one
    /// authoritative source, so callers adopt it before writing the baseline
    /// file.
    pub fn inline_baseline(&self) -> (r: &Baseline)
        ensures
            r@ == self@.baseline,
    {
        &self.baseline
    }

    /// Takes the deprecated inline baseline out of the config, leaving it
    /// empty.
    pub fn take_inline_baseline(&mut self) -> (r: Baseline)
        ensures
            r@ == old(self)@.baseline,
            final(self)@.baseline == Seq::<EntryView>::empty(),
            final(self)@.files == old(self)@.files,
            final(self)@.budget == old(self)@.budget,
            final(self)@.max_delta == old(self)@.max_delta,
            final(self)@.compression == old(self)@.compression,
            final(self)@.baseline_file == old(self)@.baseline_file,
            final(self)@.strict == old(self)@.strict,
    {
        let mut taken = Baseline::new();
        std::mem::swap(&mut taken, &mut self.baseline);
        taken
    }

    /// Drops the deprecated inline baseline.
    pub fn clear_inline_baseline(&mut self)
        ensures
            final(self)@.baseline == Seq::<EntryView>::empty(),
            final(self)@.files == old(self)@.files,
            final(self)@.budget == old(self)@.budget,
            final(self)@.max_delta == old(self)@.max_delta,
            final(self)@.compression == old(self)@.compression,
            final(self)@.baseline_file == old(self)@.baseline_file,
            final(self)@.strict == old(self)@.strict,
    {
        self.baseline = Baseline::new();
    }

    /// Whether a checked file without a baseline entry fails the run.
    pub fn strict(&self) -> (r: bool)
        ensures
            r == self@.strict,
    {
        self.strict
    }

    /// Enables or disables strict mode.
    pub fn set_strict(&mut self, strict: bool)
        ensures
            final(self)@.strict == strict,
            final(self)@.files == old(self)@.files,
            final(self)@.budget == old(self)@.budget,
            final(self)@.max_delta == old(self)@.max_delta,
            final(self)@.compression == old(self)@.compression,
            final(self)@.baseline_file == old(self)@.baseline_file,
            final(self)@.baseline == old(self)@.baseline,
    {
        self.strict = strict;
    }
}

impl Default for Config {
    fn default() -> (r: Self)
        ensures
            r@.files == Seq::<Seq<char>>::empty(),
            r@.budget is None,
            r@.max_delta is None,
            r@.compression@ == (6u32, 5i32),
            r@.baseline_file is None,
            r@.baseline == Seq::<EntryView>::empty(),
            !r@.strict,
    {
        Config::new()
    }
}

/// Adding a file that is already listed changes nothing, so adding the same
/// file twice lists it once.
pub proof fn law_add_file_idempotent(files: Seq<Seq<char>>, file: Seq<char>)
    ensures
        files_with(files_with(files, file), file) == files_with(files, file),
        files_with(files, file).contains(file),
        files.no_duplicates() ==> files_with(files, file).no_duplicates(),
{
    if !files.contains(file) {
        assert(files.push(file)[files.len() as int] == file);
    }
}

} // verus!
