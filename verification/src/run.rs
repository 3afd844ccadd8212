//! What a run takes from the command line and the config, and what `init`
//! and `baseline` record.

use vstd::prelude::*;

use crate::baseline::{
    baseline_set, glob_pattern_valid, law_prune_keeps, lemma_lookup_insert, lookup, match_flags,
    retained, texts, Baseline, EntryView,
};
use crate::compression::Compression;
use crate::config::{baseline_location, files_with, Config, CONFIG_FILE, DEFAULT_BASELINE_FILE};
use crate::error::WasmCheckError;
use crate::limits::{exceeded_budget, lemma_metrics_where, over_budget, Budget, Limits, MaxDelta};
use crate::metric::Metric;
use crate::paths::{glob_like, join, normalized_dir};
use crate::size::{kib_ceil, report_value, size_from_text, Size, SizeReport};
use crate::text::trim;
use crate::threshold::{threshold_from_text, Threshold};

verus! {

/// The config a run reads: the one named, else [`CONFIG_FILE`].
pub fn config_path(explicit: Option<&str>) -> (r: String)
    ensures
        r@ == match explicit {
            Some(p) => p@,
            None => CONFIG_FILE@,
        },
{
    match explicit {
        Some(p) => p.to_owned(),
        None => CONFIG_FILE.to_owned(),
    }
}

/// Where the baseline lives: the `--baseline-file` argument, else the
/// config's baseline file, else [`DEFAULT_BASELINE_FILE`] next to the
/// config.
pub open spec fn baseline_path_of(
    config: Option<Option<Seq<char>>>,
    config_dir: Seq<char>,
    explicit: Option<Seq<char>>,
) -> Seq<char> {
    match explicit {
        Some(p) => p,
        None => match config {
            Some(file) => baseline_location(file, config_dir),
            None => baseline_location(None, config_dir),
        },
    }
}

/// The baseline file the config names, for a run with or without a config.
pub open spec fn configured_baseline(config: Option<&Config>) -> Option<Option<Seq<char>>> {
    match config {
        Some(c) => Some(c@.baseline_file),
        None => None,
    }
}

/// Where the baseline of a run lives.
pub fn baseline_path(config: Option<&Config>, config_dir: &str, explicit: Option<&str>) -> (r:
    String)
    ensures
        r@ == baseline_path_of(
            configured_baseline(config),
            config_dir@,
            crate::files::opt_str(explicit),
        ),
{
    if let Some(path) = explicit {
        return path.to_owned();
    }
    if let Some(config) = config {
        return config.baseline_path(config_dir);
    }
    let dir = normalized_dir(config_dir);
    join(dir.as_str(), DEFAULT_BASELINE_FILE)
}

/// `true` when the user named the baseline location, in which case a
/// missing file is an error rather than "nothing recorded yet".
pub fn baseline_is_explicit(config: Option<&Config>, explicit: Option<&str>) -> (r: bool)
    ensures
        r == (explicit is Some || (config matches Some(c) && c@.baseline_file is Some)),
{
    explicit.is_some() || match config {
        Some(c) => c.baseline_file().is_some(),
        None => false,
    }
}

/// The baseline of a run whose baseline file does not exist: an error when
/// the location was named, else the config's deprecated inline baseline,
/// else an empty one.
pub fn absent_baseline(config: Option<&Config>, path: &str, missing_is_error: bool) -> (r: Result<
    Baseline,
    WasmCheckError,
>)
    ensures
        missing_is_error ==> (r matches Err(WasmCheckError::BaselineNotFound(p)) && p@ == path@),
        !missing_is_error ==> (r matches Ok(b) && b@ == match config {
            Some(c) => c@.baseline,
            None => Seq::<EntryView>::empty(),
        }),
{
    if missing_is_error {
        return Err(WasmCheckError::BaselineNotFound(path.to_owned()));
    }
    match config {
        Some(c) => Ok(c.inline_baseline().clone()),
        None => Ok(Baseline::new()),
    }
}

/// The measurement setting of a run: the config's (the CDN preset without
/// one), with the gzip level and then the brotli quality overridden by the
/// command line when given.
pub fn effective_compression(
    gzip_level: Option<u32>,
    brotli_quality: Option<i32>,
    config: Option<&Config>,
) -> (r: Result<Compression, WasmCheckError>)
    ensures
        ({
            let base = match config {
                Some(c) => c@.compression@,
                None => (6u32, 5i32),
            };
            let gzip = match gzip_level {
                Some(l) => l,
                None => base.0,
            };
            let brotli = match brotli_quality {
                Some(q) => q,
                None => base.1,
            };
            &&& gzip > 9 ==> (r matches Err(WasmCheckError::InvalidGzipLevel(v)) && v == gzip)
            &&& gzip <= 9 && !(0 <= brotli <= 11) ==> (r matches Err(
                WasmCheckError::InvalidBrotliQuality(v),
            ) && v == brotli)
            &&& gzip <= 9 && 0 <= brotli <= 11 ==> (r matches Ok(c) && c@ == (gzip, brotli))
        }),
{
    let mut compression = match config {
        Some(c) => c.compression(),
        None => Compression::default(),
    };
    let _level: u32 = compression.gzip_level();
    let _quality: i32 = compression.brotli_quality();
    if let Some(level) = gzip_level {
        compression = match compression.with_gzip_level(level) {
            Ok(c) => c,
            Err(e) => {
                return Err(e);
            },
        };
    }
    if let Some(quality) = brotli_quality {
        compression = match compression.with_brotli_quality(quality) {
            Ok(c) => c,
            Err(e) => {
                return Err(e);
            },
        };
    }
    Ok(compression)
}

/// The budget of a run: the configured one, with its raw limit replaced by
/// the `--budget` argument when given.
pub fn effective_budget(cli_limit: Option<&str>, configured: Option<&Budget>) -> (r: Result<
    Option<Budget>,
    WasmCheckError,
>)
    ensures
        match cli_limit {
            None => r == Ok::<Option<Budget>, WasmCheckError>(
                match configured {
                    Some(b) => Some(*b),
                    None => None,
                },
            ),
            Some(text) => match size_from_text(text@) {
                None => r matches Err(WasmCheckError::InvalidSize(t)) && t@ == trim(text@),
                Some(bytes) => r matches Ok(Some(b)) && (b.limit_of(Metric::Raw) matches Some(
                    limit,
                ) && limit@ == bytes) && forall|m: Metric|
                    m != Metric::Raw ==> #[trigger] b.limit_of(m) == match configured {
                        Some(c) => c.limit_of(m),
                        None => None,
                    },
            },
        },
{
    match cli_limit {
        None => match configured {
            Some(b) => Ok(Some(*b)),
            None => Ok(None),
        },
        Some(text) => {
            let size = match Size::parse(text) {
                Ok(s) => s,
                Err(e) => {
                    return Err(e);
                },
            };
            let mut limits = match configured {
                Some(b) => *b,
                None => Limits::new(),
            };
            limits.set_limit(Metric::Raw, Some(size));
            Ok(Some(limits))
        },
    }
}

/// The growth allowance of a run: the configured one, with its raw
/// allowance replaced by the `--max-delta` argument when given.
pub fn effective_max_delta(cli_limit: Option<&str>, configured: Option<&MaxDelta>) -> (r: Result<
    Option<MaxDelta>,
    WasmCheckError,
>)
    ensures
        match cli_limit {
            None => r == Ok::<Option<MaxDelta>, WasmCheckError>(
                match configured {
                    Some(b) => Some(*b),
                    None => None,
                },
            ),
            Some(text) => match threshold_from_text(text@) {
                None => if trim(text@).len() > 0 && trim(text@).last() == '%' {
                    r matches Err(WasmCheckError::InvalidPercent(t)) && t@ == trim(text@)
                } else {
                    r matches Err(WasmCheckError::InvalidSize(t)) && t@ == trim(text@)
                },
                Some(t) => r matches Ok(Some(b)) && b.limit_of(Metric::Raw) == Some(t) && forall|
                    m: Metric,
                | m != Metric::Raw ==> #[trigger] b.limit_of(m) == match configured {
                    Some(c) => c.limit_of(m),
                    None => None,
                },
            },
        },
{
    match cli_limit {
        None => match configured {
            Some(b) => Ok(Some(*b)),
            None => Ok(None),
        },
        Some(text) => {
            let threshold = match Threshold::parse(text) {
                Ok(t) => t,
                Err(e) => {
                    return Err(e);
                },
            };
            let mut limits = match configured {
                Some(b) => *b,
                None => Limits::new(),
            };
            limits.set_limit(Metric::Raw, Some(threshold));
            Ok(Some(limits))
        },
    }
}

// ---------------------------------------------------------------------------
// Seeding a budget
// ---------------------------------------------------------------------------

/// The largest raw size recorded in `s`; zero when nothing is recorded.
pub open spec fn widest_raw(s: Seq<EntryView>) -> u64
    decreases s.len(),
{
    if s.len() == 0 {
        0
    } else {
        let w = widest_raw(s.drop_last());
        if s.last().1.raw > w {
            s.last().1.raw
        } else {
            w
        }
    }
}

/// No recorded raw size exceeds the widest.
pub proof fn lemma_widest_raw(s: Seq<EntryView>)
    ensures
        forall|i: int| 0 <= i < s.len() ==> (#[trigger] s[i]).1.raw <= widest_raw(s),
    decreases s.len(),
{
    if s.len() > 0 {
        lemma_widest_raw(s.drop_last());
        assert forall|i: int| 0 <= i < s.len() implies (#[trigger] s[i]).1.raw <= widest_raw(s) by {
            if i < s.len() - 1 {
                assert(s[i] == s.drop_last()[i]);
            }
        }
    }
}

/// The largest raw size a seeded budget can be derived from: rounding up
/// to a whole KiB must still fit in a `u64`.
pub open spec fn seedable(s: Seq<EntryView>) -> bool {
    widest_raw(s) <= 0xFFFF_FFFF_FFFF_FC00
}

/// The largest raw size recorded in `baseline`.
pub fn widest_raw_of(baseline: &Baseline) -> (r: u64)
    ensures
        r == widest_raw(baseline@),
{
    let entries = baseline.iter();
    let mut widest: u64 = 0;
    let mut i: usize = 0;
    assert(baseline@.take(0) =~= Seq::<EntryView>::empty());
    while i < entries.len()
        invariant
            i <= entries@.len(),
            entries@.len() == baseline@.len(),
            forall|j: int|
                0 <= j < entries@.len() ==> (#[trigger] entries@[j]).0@ == baseline@[j].0
                    && entries@[j].1 == baseline@[j].1,
            widest == widest_raw(baseline@.take(i as int)),
        decreases entries@.len() - i,
    {
        assert(baseline@.take(i + 1).drop_last() =~= baseline@.take(i as int));
        assert(baseline@.take(i + 1).last() == baseline@[i as int]);
        let raw = entries[i].1.raw();
        if raw > widest {
            widest = raw;
        }
        i = i + 1;
    }
    assert(baseline@.take(i as int) =~= baseline@);
    widest
}

/// The budget `init` writes when the config has none: the widest recorded
/// raw size rounded up to a whole KiB, on the raw metric only.
pub fn seed_budget(baseline: &Baseline) -> (r: Budget)
    requires
        seedable(baseline@),
    ensures
        r.limit_of(Metric::Raw) matches Some(l) && l@ == kib_ceil(widest_raw(baseline@)),
        r.limit_of(Metric::Gzip) is None,
        r.limit_of(Metric::Brotli) is None,
{
    let widest = widest_raw_of(baseline);
    Limits::raw_only(Size::from_kib_ceil(widest))
}

/// Seeds the budget of a config that has none from `baseline`; a config
/// with a budget keeps it.
pub fn ensure_budget(config: &mut Config, baseline: &Baseline)
    requires
        seedable(baseline@),
    ensures
        old(config)@.budget is Some ==> final(config)@.budget == old(config)@.budget,
        old(config)@.budget is None ==> (final(config)@.budget matches Some(b) && (b.limit_of(
            Metric::Raw,
        ) matches Some(l) && l@ == kib_ceil(widest_raw(baseline@))) && b.limit_of(
            Metric::Gzip,
        ) is None && b.limit_of(Metric::Brotli) is None),
        final(config)@.files == old(config)@.files,
        final(config)@.max_delta == old(config)@.max_delta,
        final(config)@.compression == old(config)@.compression,
        final(config)@.baseline_file == old(config)@.baseline_file,
        final(config)@.baseline == old(config)@.baseline,
        final(config)@.strict == old(config)@.strict,
{
    if config.budget().is_none() {
        let budget = seed_budget(baseline);
        config.set_budget(Some(budget));
    }
}

/// A budget seeded from a baseline never fails a file measured as the
/// baseline records it: a freshly initialized config passes its own first
/// check.
pub proof fn law_seeded_budget_passes(s: Seq<EntryView>, budget: Budget, i: int)
    requires
        0 <= i < s.len(),
        budget.limit_of(Metric::Raw) matches Some(l) && l@ == kib_ceil(widest_raw(s)),
        budget.limit_of(Metric::Gzip) is None,
        budget.limit_of(Metric::Brotli) is None,
    ensures
        exceeded_budget(budget, s[i].1) == Seq::<Metric>::empty(),
{
    lemma_widest_raw(s);
    let report = s[i].1;
    lemma_metrics_where(|m: Metric| over_budget(budget, report, m));
    let e = exceeded_budget(budget, report);
    assert forall|m: Metric| !over_budget(budget, report, m) by {
        match m {
            Metric::Raw => {
                assert(report.raw <= widest_raw(s));
            },
            _ => {},
        }
    }
    if e.len() > 0 {
        assert(e.contains(e[0]));
    }
}

// ---------------------------------------------------------------------------
// Recording a baseline
// ---------------------------------------------------------------------------

/// `b` after recording each pair of `items` in turn.
pub open spec fn recorded(b: Seq<EntryView>, items: Seq<EntryView>) -> Seq<EntryView>
    decreases items.len(),
{
    if items.len() == 0 {
        b
    } else {
        baseline_set(recorded(b, items.drop_last()), items.last().0, items.last().1)
    }
}

/// `b` after [`Baseline::prune`] by `pattern`, keeping `keep`.
pub open spec fn pruned(b: Seq<EntryView>, pattern: Seq<char>, keep: Seq<Seq<char>>) -> Seq<
    EntryView,
> {
    if glob_like(pattern) && glob_pattern_valid(pattern) {
        retained(b, pattern, keep, match_flags(b, pattern))
    } else {
        b
    }
}

/// `b` after pruning by each of `patterns` in turn, keeping `keep`.
pub open spec fn pruned_all(b: Seq<EntryView>, patterns: Seq<Seq<char>>, keep: Seq<Seq<char>>) -> Seq<
    EntryView,
>
    decreases patterns.len(),
{
    if patterns.len() == 0 {
        b
    } else {
        pruned(pruned_all(b, patterns.drop_last(), keep), patterns.last(), keep)
    }
}

/// `files` after adding each of `keys` in turn.
pub open spec fn files_with_all(files: Seq<Seq<char>>, keys: Seq<Seq<char>>) -> Seq<Seq<char>>
    decreases keys.len(),
{
    if keys.len() == 0 {
        files
    } else {
        files_with(files_with_all(files, keys.drop_last()), keys.last())
    }
}

/// The keys of a list of entries.
pub open spec fn entry_keys(items: Seq<EntryView>) -> Seq<Seq<char>> {
    items.map_values(|e: EntryView| e.0)
}

/// The entries of a list of measured pairs.
pub open spec fn measured_view(v: Seq<(String, SizeReport)>) -> Seq<EntryView> {
    v.map_values(|e: (String, SizeReport)| (e.0@, e.1))
}

/// Stores each measured report as the baseline of the key that selected
/// its file, lists each key in the config, and then drops the baselines
/// that a glob key matches but no measured key names — those left behind by
/// an older content hash. Pruning is by each key in turn; which key goes
/// first makes no difference.
pub fn record_reports(config: &mut Config, baseline: &mut Baseline, measured: Vec<(String, SizeReport)>)
    ensures
        final(baseline)@ == pruned_all(
            recorded(old(baseline)@, measured_view(measured@)),
            entry_keys(measured_view(measured@)),
            entry_keys(measured_view(measured@)),
        ),
        final(config)@.files == files_with_all(
            old(config)@.files,
            entry_keys(measured_view(measured@)),
        ),
        final(config)@.budget == old(config)@.budget,
        final(config)@.max_delta == old(config)@.max_delta,
        final(config)@.compression == old(config)@.compression,
        final(config)@.baseline_file == old(config)@.baseline_file,
        final(config)@.baseline == old(config)@.baseline,
        final(config)@.strict == old(config)@.strict,
{
    let ghost items = measured_view(measured@);
    let ghost keyv = entry_keys(items);
    let ghost start = baseline@;
    let ghost files0 = config@.files;
    let n = measured.len();
    let mut keys: Vec<String> = Vec::new();
    let mut i: usize = 0;
    assert(items.take(0) =~= Seq::<EntryView>::empty());
    assert(keyv.take(0) =~= Seq::<Seq<char>>::empty());
    while i < n
        invariant
            n == measured@.len(),
            items == measured_view(measured@),
            keyv == entry_keys(items),
            i <= n,
            baseline@ == recorded(start, items.take(i as int)),
            config@.files == files_with_all(files0, keyv.take(i as int)),
            config@.budget == old(config)@.budget,
            config@.max_delta == old(config)@.max_delta,
            config@.compression == old(config)@.compression,
            config@.baseline_file == old(config)@.baseline_file,
            config@.baseline == old(config)@.baseline,
            config@.strict == old(config)@.strict,
            texts(keys@) == keyv.take(i as int),
        decreases n - i,
    {
        let key = measured[i].0.as_str();
        let report = measured[i].1.clone();
        assert(items[i as int] == (key@, report));
        assert(items.take(i + 1).drop_last() =~= items.take(i as int));
        assert(keyv.take(i + 1).drop_last() =~= keyv.take(i as int));
        assert(keyv[i as int] == key@);
        baseline.set(key, report);
        config.add_file(key);
        let ghost prior = keys@;
        let owned = key.to_owned();
        keys.push(owned);
        assert(keys@ == prior.push(owned));
        assert(texts(keys@) =~= keyv.take(i + 1)) by {
            assert(texts(prior).len() == prior.len());
            let now = texts(keys@);
            let was = texts(prior);
            assert forall|j: int| 0 <= j < prior.len() implies #[trigger] now[j] == was[j] by {
                assert(keys@[j] == prior[j]);
            }
            assert(now[prior.len() as int] == owned@);
        }
        i = i + 1;
    }
    assert(items.take(n as int) =~= items);
    assert(keyv.take(n as int) =~= keyv);
    let ghost recorded_all = baseline@;
    let mut k: usize = 0;
    assert(keyv.take(0) =~= Seq::<Seq<char>>::empty());
    while k < keys.len()
        invariant
            k <= keys@.len(),
            texts(keys@) == keyv,
            baseline@ == pruned_all(recorded_all, keyv.take(k as int), keyv),
        decreases keys@.len() - k,
    {
        assert(keyv.take(k + 1).drop_last() =~= keyv.take(k as int));
        assert(keyv[k as int] == keys@[k as int]@);
        baseline.prune(keys[k].as_str(), keys.as_slice());
        k = k + 1;
    }
    assert(keyv.take(k as int) =~= keyv);
}

/// The report recorded last for a key is what a baseline holds for it after
/// recording.
pub proof fn lemma_recorded_last(b: Seq<EntryView>, items: Seq<EntryView>, i: int)
    requires
        0 <= i < items.len(),
        forall|j: int| i < j < items.len() ==> (#[trigger] items[j]).0 != items[i].0,
    ensures
        lookup(recorded(b, items), items[i].0) == Some(items[i].1),
    decreases items.len(),
{
    let rest = items.drop_last();
    lemma_lookup_insert(recorded(b, rest), items.last().0, items.last().1, items[i].0);
    if i < items.len() - 1 {
        assert forall|j: int| i < j < rest.len() implies (#[trigger] rest[j]).0 != rest[i].0 by {
            assert(rest[j] == items[j]);
        }
        assert(rest[i] == items[i]);
        assert(items.last() == items[items.len() - 1]);
        lemma_recorded_last(b, rest, i);
    }
}

/// Pruning never drops an entry whose key is kept.
pub proof fn lemma_pruned_all_keeps(
    b: Seq<EntryView>,
    patterns: Seq<Seq<char>>,
    keep: Seq<Seq<char>>,
    key: Seq<char>,
)
    requires
        keep.contains(key),
    ensures
        lookup(pruned_all(b, patterns, keep), key) == lookup(b, key),
    decreases patterns.len(),
{
    if patterns.len() > 0 {
        lemma_pruned_all_keeps(b, patterns.drop_last(), keep, key);
        let before = pruned_all(b, patterns.drop_last(), keep);
        let p = patterns.last();
        if glob_like(p) && glob_pattern_valid(p) {
            law_prune_keeps(before, p, keep, match_flags(before, p), key);
        }
    }
}

/// After recording, every measured key survives pruning and holds the
/// report measured last for it: deltas keep working across content-hash
/// renames, and only stale entries are dropped.
pub proof fn law_recorded_keys_survive(b: Seq<EntryView>, items: Seq<EntryView>, i: int)
    requires
        0 <= i < items.len(),
        forall|j: int| i < j < items.len() ==> (#[trigger] items[j]).0 != items[i].0,
    ensures
        lookup(
            pruned_all(recorded(b, items), entry_keys(items), entry_keys(items)),
            items[i].0,
        ) == Some(items[i].1),
{
    lemma_recorded_last(b, items, i);
    assert(entry_keys(items)[i] == items[i].0);
    lemma_pruned_all_keeps(recorded(b, items), entry_keys(items), entry_keys(items), items[i].0);
}

} // verus!
