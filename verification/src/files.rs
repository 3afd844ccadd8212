//! Deciding which `.wasm` files a run measures.
//!
//! The decisions live here; looking at the file system does not. A run first
//! asks [`plan_files`] what to look for, looks (expanding globs, checking
//! that paths are files, listing a directory), and hands what it saw to
//! [`resolve_files`], which builds the list of files to measure or the error
//! to report.

use vstd::prelude::*;

use crate::config::{text_list, Config};
use crate::error::WasmCheckError;
use crate::paths::{
    clean, clean_path, components, display_dir, display_dir_of, glob_like, glob_pattern,
    glob_pattern_of, is_glob, join, join_of, key_for, key_of, lemma_parts_lt_irreflexive,
    lemma_parts_lt_total, lemma_parts_lt_transitive, normalized_dir, normalized_dir_of,
    part_views, parts_before, parts_equal, parts_lt, path_components, path_lt, same_path,
};
use crate::text::{chars_of, copy_range, str_eq};

verus! {

/// A `.wasm` file selected for checking.
#[derive(Debug)]
pub struct ResolvedFile {
    key: String,
    path: String,
}

impl View for ResolvedFile {
    /// The key and the path, as text.
    type V = (Seq<char>, Seq<char>);

    closed spec fn view(&self) -> (Seq<char>, Seq<char>) {
        (self.key@, self.path@)
    }
}

impl ResolvedFile {
    /// The config entry that selected this file: a glob, a path, or the path
    /// passed on the command line.
    ///
    /// Baselines are keyed by this value, which is what keeps deltas working
    /// when a build emits `app_bg-<newhash>.wasm` behind a stable glob.
    pub fn key(&self) -> (r: &str)
        ensures
            r@ == self@.0,
    {
        self.key.as_str()
    }

    /// The path to open and measure.
    pub fn path(&self) -> (r: &str)
        ensures
            r@ == self@.1,
    {
        self.path.as_str()
    }
}

impl Clone for ResolvedFile {
    fn clone(&self) -> (r: Self)
        ensures
            r@ == self@,
    {
        ResolvedFile { key: self.key.clone(), path: self.path.clone() }
    }
}

/// The views of a list of resolved files.
pub open spec fn file_views(v: Seq<ResolvedFile>) -> Seq<(Seq<char>, Seq<char>)> {
    v.map_values(|f: ResolvedFile| f@)
}

// ---------------------------------------------------------------------------
// Sorting by path
// ---------------------------------------------------------------------------

/// `perm` lists each position below `n` exactly once.
pub open spec fn is_rearrangement(perm: Seq<int>, n: nat) -> bool {
    &&& perm.len() == n
    &&& forall|i: int| 0 <= i < n ==> 0 <= #[trigger] perm[i] < n
    &&& perm.no_duplicates()
}

/// The file found at position `i` goes before the one found at position `j`:
/// by path, and by position among files with the same path.
pub open spec fn goes_before(a: (Seq<char>, Seq<char>), i: int, b: (Seq<char>, Seq<char>), j: int) -> bool {
    path_lt(a.1, b.1) || (same_path(a.1, b.1) && i < j)
}

/// `out` is `items` sorted by path, files with the same path keeping the
/// order in which they were found.
pub open spec fn sorted_by_path(
    items: Seq<(Seq<char>, Seq<char>)>,
    out: Seq<(Seq<char>, Seq<char>)>,
) -> bool {
    exists|perm: Seq<int>|
        #![trigger is_rearrangement(perm, items.len())]
        {
            &&& is_rearrangement(perm, items.len())
            &&& out.len() == items.len()
            &&& forall|i: int| 0 <= i < out.len() ==> #[trigger] out[i] == items[perm[i]]
            &&& forall|i: int, j: int|
                0 <= i < j < out.len() ==> goes_before(
                    #[trigger] out[i],
                    perm[i],
                    #[trigger] out[j],
                    perm[j],
                )
        }
}

/// Two resolved files are the same: same key, same path component by
/// component.
pub open spec fn same_file(a: (Seq<char>, Seq<char>), b: (Seq<char>, Seq<char>)) -> bool {
    a.0 == b.0 && same_path(a.1, b.1)
}

/// `s` with every file that equals the one kept just before it removed, as
/// `Vec::dedup` does.
pub open spec fn dedup_files(s: Seq<(Seq<char>, Seq<char>)>) -> Seq<(Seq<char>, Seq<char>)>
    decreases s.len(),
{
    if s.len() == 0 {
        s
    } else {
        let d = dedup_files(s.drop_last());
        if d.len() > 0 && same_file(d.last(), s.last()) {
            d
        } else {
            d.push(s.last())
        }
    }
}

/// A file waiting to be sorted: the file, its path's components, and the
/// position at which it was found.
struct Pending {
    file: ResolvedFile,
    parts: Vec<Vec<char>>,
    found_at: usize,
}

spec fn pending_ok(p: Pending, items: Seq<(Seq<char>, Seq<char>)>) -> bool {
    &&& 0 <= p.found_at < items.len()
    &&& p.file@ == items[p.found_at as int]
    &&& part_views(p.parts@) == components(p.file@.1)
}

spec fn pending_sorted(s: Seq<Pending>) -> bool {
    forall|i: int, j: int|
        0 <= i < j < s.len() ==> goes_before(
            (#[trigger] s[i]).file@,
            s[i].found_at as int,
            (#[trigger] s[j]).file@,
            s[j].found_at as int,
        )
}

/// Sorts `files` by path, keeping the order of files with the same path.
fn sort_by_path(files: Vec<ResolvedFile>) -> (r: Vec<ResolvedFile>)
    ensures
        sorted_by_path(file_views(files@), file_views(r@)),
{
    let ghost items = file_views(files@);
    let n = files.len();
    let mut out: Vec<Pending> = Vec::new();
    let mut rest = files;
    let mut k: usize = 0;
    while rest.len() > 0
        invariant
            items.len() == n,
            k + rest@.len() == n,
            file_views(rest@) == items.skip(k as int),
            out@.len() == k,
            forall|i: int| 0 <= i < k ==> #[trigger] pending_ok(out@[i], items),
            forall|i: int| 0 <= i < k ==> (#[trigger] out@[i]).found_at < k,
            forall|i: int, j: int|
                0 <= i < j < k ==> (#[trigger] out@[i]).found_at != (#[trigger] out@[j]).found_at,
            pending_sorted(out@),
        decreases rest.len(),
    {
        let ghost whole = rest@;
        let file = rest.remove(0);
        assert(file == whole[0]);
        assert(rest@ == whole.remove(0));
        assert(file@ == items[k as int]) by {
            assert(file_views(whole)[0] == whole[0]@);
            assert(items.skip(k as int)[0] == items[k as int]);
        }
        assert(file_views(rest@) =~= items.skip(k + 1)) by {
            assert forall|a: int| 0 <= a < rest@.len() implies file_views(rest@)[a] == items.skip(
                k + 1,
            )[a] by {
                assert(rest@[a] == whole[a + 1]);
                assert(file_views(whole)[a + 1] == whole[a + 1]@);
            }
        }
        let parts = path_components(chars_of(file.path.as_str()).as_slice());
        // The first position whose path comes strictly after the new one.
        let mut j: usize = 0;
        while j < out.len() && !parts_before(parts.as_slice(), out[j].parts.as_slice())
            invariant
                j <= out@.len(),
                out@.len() == k,
                part_views(parts@) == components(file@.1),
                forall|i: int| 0 <= i < k ==> #[trigger] pending_ok(out@[i], items),
                forall|i: int| 0 <= i < j ==> !path_lt(file@.1, (#[trigger] out@[i]).file@.1),
            decreases out@.len() - j,
        {
            assert(pending_ok(out@[j as int], items));
            j = j + 1;
        }
        proof {
            if j < k {
                assert(pending_ok(out@[j as int], items));
                assert(path_lt(file@.1, out@[j as int].file@.1));
            }
        }
        let ghost before = out@;
        let entry = Pending { file, parts, found_at: k };
        out.insert(j, entry);
        proof {
            assert(out@ == before.insert(j as int, entry));
            assert(pending_ok(entry, items));
            assert forall|i: int| 0 <= i < k + 1 implies #[trigger] pending_ok(out@[i], items) by {
                if i < j {
                    assert(out@[i] == before[i]);
                } else if i > j {
                    assert(out@[i] == before[i - 1]);
                }
            }
            assert forall|i: int| 0 <= i < k + 1 implies (#[trigger] out@[i]).found_at < k + 1 by {
                if i < j {
                    assert(out@[i] == before[i]);
                } else if i > j {
                    assert(out@[i] == before[i - 1]);
                }
            }
            assert forall|a: int, b: int|
                0 <= a < b < k + 1 implies (#[trigger] out@[a]).found_at != (
                #[trigger] out@[b]).found_at by {
                let ia = if a < j {
                    a
                } else {
                    a - 1
                };
                let ib = if b < j {
                    b
                } else {
                    b - 1
                };
                if a != j && b != j {
                    assert(out@[a] == before[ia]);
                    assert(out@[b] == before[ib]);
                } else if a == j {
                    assert(out@[b] == before[ib]);
                } else {
                    assert(out@[a] == before[ia]);
                }
            }
            assert forall|a: int, b: int| 0 <= a < b < k + 1 implies goes_before(
                (#[trigger] out@[a]).file@,
                out@[a].found_at as int,
                (#[trigger] out@[b]).file@,
                out@[b].found_at as int,
            ) by {
                let pa = if a < j {
                    a
                } else {
                    a - 1
                };
                let pb = if b < j {
                    b
                } else {
                    b - 1
                };
                if a != j && b != j {
                    assert(out@[a] == before[pa]);
                    assert(out@[b] == before[pb]);
                } else if b == j {
                    // An earlier file: its path does not come after the new one.
                    assert(out@[a] == before[a]);
                    assert(pending_ok(before[a], items));
                    assert(!path_lt(file@.1, before[a].file@.1));
                    if !same_path(before[a].file@.1, file@.1) {
                        lemma_parts_lt_total(
                            components(before[a].file@.1),
                            components(file@.1),
                        );
                    }
                } else {
                    // A later file: its path comes after the new one.
                    assert(out@[b] == before[pb]);
                    assert(pending_ok(before[j as int], items));
                    assert(path_lt(file@.1, before[j as int].file@.1));
                    if pb > j {
                        assert(goes_before(
                            before[j as int].file@,
                            before[j as int].found_at as int,
                            before[pb].file@,
                            before[pb].found_at as int,
                        ));
                        if path_lt(before[j as int].file@.1, before[pb].file@.1) {
                            lemma_parts_lt_transitive(
                                components(file@.1),
                                components(before[j as int].file@.1),
                                components(before[pb].file@.1),
                            );
                        }
                    }
                }
            }
        }
        k = k + 1;
    }
    // Read the files back out, in order.
    let ghost sorted = out@;
    let ghost perm = sorted.map_values(|p: Pending| p.found_at as int);
    let mut r: Vec<ResolvedFile> = Vec::new();
    let mut i: usize = 0;
    while i < out.len()
        invariant
            out@ == sorted,
            sorted.len() == n,
            i <= n,
            r@.len() == i,
            forall|a: int| 0 <= a < i ==> (#[trigger] r@[a])@ == sorted[a].file@,
        decreases n - i,
    {
        r.push(out[i].file.clone());
        i = i + 1;
    }
    proof {
        assert(is_rearrangement(perm, items.len())) by {
            assert forall|a: int, b: int|
                0 <= a < perm.len() && 0 <= b < perm.len() && a != b implies perm[a]
                != perm[b] by {
                if a < b {
                    assert(sorted[a].found_at != sorted[b].found_at);
                } else {
                    assert(sorted[b].found_at != sorted[a].found_at);
                }
            }
            assert forall|a: int| 0 <= a < n implies 0 <= #[trigger] perm[a] < n by {
                assert(sorted[a].found_at < n);
            }
        }
        let rv = file_views(r@);
        assert forall|a: int| 0 <= a < rv.len() implies #[trigger] rv[a] == items[perm[a]] by {
            assert(pending_ok(sorted[a], items));
        }
        assert forall|a: int, b: int| 0 <= a < b < rv.len() implies goes_before(
            #[trigger] rv[a],
            perm[a],
            #[trigger] rv[b],
            perm[b],
        ) by {
            assert(goes_before(
                sorted[a].file@,
                sorted[a].found_at as int,
                sorted[b].file@,
                sorted[b].found_at as int,
            ));
        }
    }
    r
}

/// Removes each file equal to the one kept just before it.
fn dedup(files: Vec<ResolvedFile>) -> (r: Vec<ResolvedFile>)
    ensures
        file_views(r@) == dedup_files(file_views(files@)),
{
    let ghost s = file_views(files@);
    let n = files.len();
    let mut r: Vec<ResolvedFile> = Vec::new();
    let mut last_parts: Vec<Vec<char>> = Vec::new();
    let mut i: usize = 0;
    assert(s.take(0) =~= Seq::<(Seq<char>, Seq<char>)>::empty());
    while i < n
        invariant
            n == files@.len(),
            s == file_views(files@),
            i <= n,
            file_views(r@) == dedup_files(s.take(i as int)),
            r@.len() > 0 ==> part_views(last_parts@) == components(r@.last()@.1),
        decreases n - i,
    {
        let file = &files[i];
        let parts = path_components(chars_of(file.path.as_str()).as_slice());
        let ghost d = file_views(r@);
        assert(s.take(i + 1).drop_last() =~= s.take(i as int));
        assert(s.take(i + 1).last() == file@);
        let same = r.len() > 0 && str_eq(r[r.len() - 1].key.as_str(), file.key.as_str())
            && parts_equal(last_parts.as_slice(), parts.as_slice());
        if r.len() > 0 {
            assert(d.last() == r@.last()@);
        }
        if !same {
            r.push(file.clone());
            last_parts = parts;
            assert(file_views(r@) =~= d.push(file@));
        }
        i = i + 1;
    }
    assert(s.take(n as int) =~= s);
    r
}

// ---------------------------------------------------------------------------
// What to look for
// ---------------------------------------------------------------------------

/// One configured entry and what to look for on its behalf.
#[derive(Debug)]
pub enum Lookup {
    /// Expand the glob `pattern`; every match is keyed by `key`.
    Glob { key: String, pattern: String },
    /// Check that `path` is a file; it is keyed by `key`.
    Path { key: String, path: String },
}

/// A lookup as specifications see it.
pub enum LookupView {
    Glob { key: Seq<char>, pattern: Seq<char> },
    Path { key: Seq<char>, path: Seq<char> },
}

impl View for Lookup {
    type V = LookupView;

    open spec fn view(&self) -> LookupView {
        match self {
            Lookup::Glob { key, pattern } => LookupView::Glob { key: key@, pattern: pattern@ },
            Lookup::Path { key, path } => LookupView::Path { key: key@, path: path@ },
        }
    }
}

/// Where a run finds the files it measures.
#[derive(Debug)]
pub enum Selection {
    /// `--file` was a glob: expand `pattern`; every match is keyed by `key`.
    CliGlob { key: String, pattern: String, base: String },
    /// `--file` was a path: check that `path` is a file.
    CliPath { path: String, base: String },
    /// The config lists files: look each entry up, in order.
    Entries { base: String, entries: Vec<Lookup> },
    /// Nothing named any file: list the `.wasm` files in `dir`.
    Detect { dir: String, base: String },
}

/// A selection as specifications see it.
pub enum SelectionView {
    CliGlob { key: Seq<char>, pattern: Seq<char>, base: Seq<char> },
    CliPath { path: Seq<char>, base: Seq<char> },
    Entries { base: Seq<char>, entries: Seq<LookupView> },
    Detect { dir: Seq<char>, base: Seq<char> },
}

/// The views of a list of lookups.
pub open spec fn lookup_views(v: Seq<Lookup>) -> Seq<LookupView> {
    v.map_values(|l: Lookup| l@)
}

impl View for Selection {
    type V = SelectionView;

    open spec fn view(&self) -> SelectionView {
        match self {
            Selection::CliGlob { key, pattern, base } => SelectionView::CliGlob {
                key: key@,
                pattern: pattern@,
                base: base@,
            },
            Selection::CliPath { path, base } => SelectionView::CliPath { path: path@, base: base@ },
            Selection::Entries { base, entries } => SelectionView::Entries {
                base: base@,
                entries: lookup_views(entries@),
            },
            Selection::Detect { dir, base } => SelectionView::Detect { dir: dir@, base: base@ },
        }
    }
}

/// The lookup for one config entry, resolved against `base`: globs are
/// expanded under `base`, paths are joined onto it.
pub open spec fn lookup_of(entry: Seq<char>, base: Seq<char>) -> LookupView {
    if glob_like(entry) {
        LookupView::Glob { key: entry, pattern: glob_pattern_of(base, entry) }
    } else {
        LookupView::Path { key: entry, path: clean_path(join_of(base, entry)) }
    }
}

/// Where a run looks, in order of precedence: the `--file` argument (a glob
/// or a path, the path taken as given), else the config's `files` entries,
/// else one `.wasm` file auto-detected in the config's directory.
pub open spec fn selection_of(cli_file: Option<Seq<char>>, files: Seq<Seq<char>>, config_dir: Seq<
    char,
>) -> SelectionView {
    let base = normalized_dir_of(config_dir);
    match cli_file {
        Some(f) => if glob_like(f) {
            SelectionView::CliGlob { key: f, pattern: glob_pattern_of(base, f), base }
        } else {
            SelectionView::CliPath { path: clean_path(f), base }
        },
        None => if files.len() > 0 {
            SelectionView::Entries { base, entries: files.map_values(|e: Seq<char>| lookup_of(e, base)) }
        } else {
            SelectionView::Detect { dir: if base.len() == 0 {
                seq!['.']
            } else {
                base
            }, base }
        },
    }
}

/// The text of an optional string slice.
pub open spec fn opt_str(s: Option<&str>) -> Option<Seq<char>> {
    match s {
        Some(t) => Some(t@),
        None => None,
    }
}

/// The files listed by an optional config; none without one.
pub open spec fn listed_files(config: Option<&Config>) -> Seq<Seq<char>> {
    match config {
        Some(c) => c@.files,
        None => Seq::empty(),
    }
}

/// Decides where a run looks for the files to measure.
///
/// 1. `cli_file`, when given on the command line — a path or a glob; every
///    file matched by a glob is keyed by the glob itself, so a rebuild under
///    a new content hash keeps its baseline;
/// 2. the `files` list of `config`, resolved relative to `config_dir`;
/// 3. otherwise, a single `.wasm` file auto-detected in `config_dir`.
pub fn plan_files(cli_file: Option<&str>, config: Option<&Config>, config_dir: &str) -> (r:
    Selection)
    ensures
        r@ == selection_of(opt_str(cli_file), listed_files(config), config_dir@),
{
    let base = normalized_dir(config_dir);
    if let Some(file) = cli_file {
        if is_glob(file) {
            let pattern = glob_pattern(base.as_str(), file);
            return Selection::CliGlob { key: file.to_owned(), pattern, base };
        }
        let path = clean(file);
        return Selection::CliPath { path, base };
    }
    let files: &[String] = match config {
        Some(c) => c.files(),
        None => &[],
    };
    proof {
        if config is None {
            assert(text_list(files@) =~= Seq::<Seq<char>>::empty());
        }
    }
    if files.len() > 0 {
        let ghost want = text_list(files@).map_values(|e: Seq<char>| lookup_of(e, base@));
        let mut entries: Vec<Lookup> = Vec::new();
        let mut i: usize = 0;
        while i < files.len()
            invariant
                i <= files@.len(),
                want == text_list(files@).map_values(|e: Seq<char>| lookup_of(e, base@)),
                lookup_views(entries@) == want.take(i as int),
            decreases files@.len() - i,
        {
            let entry = files[i].as_str();
            let lookup = if is_glob(entry) {
                Lookup::Glob { key: entry.to_owned(), pattern: glob_pattern(base.as_str(), entry) }
            } else {
                let joined = join(base.as_str(), entry);
                Lookup::Path { key: entry.to_owned(), path: clean(joined.as_str()) }
            };
            assert(lookup@ == want[i as int]);
            let ghost prior = entries@;
            assert(lookup_views(prior).len() == prior.len());
            entries.push(lookup);
            assert(entries@ == prior.push(lookup));
            assert(lookup_views(entries@) =~= want.take(i + 1));
            i = i + 1;
        }
        assert(want.take(i as int) =~= want);
        return Selection::Entries { base, entries };
    }
    let dir = if base.as_str().is_empty() {
        proof {
            reveal_strlit(".");
        }
        let d = ".".to_owned();
        assert(d@ =~= seq!['.']);
        d
    } else {
        base.clone()
    };
    Selection::Detect { dir, base }
}

// ---------------------------------------------------------------------------
// What was found
// ---------------------------------------------------------------------------

/// What looking up one config entry found.
#[derive(Debug)]
pub enum Found {
    /// The files a glob matched, in the order the glob walk gave them, or
    /// why the pattern could not be expanded.
    Matches(Result<Vec<String>, WasmCheckError>),
    /// Whether the path is a file.
    IsFile(bool),
}

/// What looking found, for the whole selection.
#[derive(Debug)]
pub enum Outcome {
    /// For [`Selection::CliGlob`]: the files the glob matched.
    Matches(Result<Vec<String>, WasmCheckError>),
    /// For [`Selection::CliPath`]: whether the path is a file.
    IsFile(bool),
    /// For [`Selection::Entries`]: one finding per entry, in order.
    Each(Vec<Found>),
    /// For [`Selection::Detect`]: the `.wasm` files found in the directory.
    Listing(Result<Vec<String>, WasmCheckError>),
}

/// A list of paths, or an error, as specifications see it.
pub open spec fn paths_view(r: Result<Vec<String>, WasmCheckError>) -> Result<
    Seq<Seq<char>>,
    WasmCheckError,
> {
    match r {
        Ok(v) => Ok(text_list(v@)),
        Err(e) => Err(e),
    }
}

/// A finding as specifications see it.
pub enum FoundView {
    Matches(Result<Seq<Seq<char>>, WasmCheckError>),
    IsFile(bool),
}

impl View for Found {
    type V = FoundView;

    open spec fn view(&self) -> FoundView {
        match self {
            Found::Matches(r) => FoundView::Matches(paths_view(*r)),
            Found::IsFile(b) => FoundView::IsFile(*b),
        }
    }
}

/// An outcome as specifications see it.
pub enum OutcomeView {
    Matches(Result<Seq<Seq<char>>, WasmCheckError>),
    IsFile(bool),
    Each(Seq<FoundView>),
    Listing(Result<Seq<Seq<char>>, WasmCheckError>),
}

/// The views of a list of findings.
pub open spec fn found_views(v: Seq<Found>) -> Seq<FoundView> {
    v.map_values(|f: Found| f@)
}

impl View for Outcome {
    type V = OutcomeView;

    open spec fn view(&self) -> OutcomeView {
        match self {
            Outcome::Matches(r) => OutcomeView::Matches(paths_view(*r)),
            Outcome::IsFile(b) => OutcomeView::IsFile(*b),
            Outcome::Each(v) => OutcomeView::Each(found_views(v@)),
            Outcome::Listing(r) => OutcomeView::Listing(paths_view(*r)),
        }
    }
}

/// Each finding answers the lookup at the same position.
pub open spec fn findings_fit(entries: Seq<LookupView>, found: Seq<FoundView>) -> bool {
    &&& entries.len() == found.len()
    &&& forall|i: int|
        0 <= i < entries.len() ==> ((#[trigger] entries[i]) is Glob <==> (#[trigger] found[i]) is Matches)
}

/// The outcome answers the selection.
pub open spec fn outcome_fits(sel: SelectionView, out: OutcomeView) -> bool {
    match sel {
        SelectionView::CliGlob { .. } => out is Matches,
        SelectionView::CliPath { .. } => out is IsFile,
        SelectionView::Entries { entries, .. } => match out {
            OutcomeView::Each(found) => findings_fit(entries, found),
            _ => false,
        },
        SelectionView::Detect { .. } => out is Listing,
    }
}

/// Whether `outcome` answers `selection`, lookup by lookup.
pub fn outcome_fits_selection(selection: &Selection, outcome: &Outcome) -> (r: bool)
    ensures
        r == outcome_fits(selection@, outcome@),
{
    match (selection, outcome) {
        (Selection::CliGlob { .. }, Outcome::Matches(_)) => true,
        (Selection::CliPath { .. }, Outcome::IsFile(_)) => true,
        (Selection::Entries { entries, .. }, Outcome::Each(found)) => {
            assert(outcome_fits(selection@, outcome@) == findings_fit(
                lookup_views(entries@),
                found_views(found@),
            ));
            if entries.len() != found.len() {
                assert(lookup_views(entries@).len() != found_views(found@).len());
                return false;
            }
            let mut i: usize = 0;
            while i < entries.len()
                invariant
                    i <= entries@.len(),
                    entries@.len() == found@.len(),
                    outcome_fits(selection@, outcome@) == findings_fit(
                        lookup_views(entries@),
                        found_views(found@),
                    ),
                    forall|j: int|
                        0 <= j < i ==> ((#[trigger] lookup_views(entries@)[j]) is Glob
                            <==> found_views(found@)[j] is Matches),
                decreases entries@.len() - i,
            {
                let glob = match &entries[i] {
                    Lookup::Glob { .. } => true,
                    Lookup::Path { .. } => false,
                };
                let matches = match &found[i] {
                    Found::Matches(_) => true,
                    Found::IsFile(_) => false,
                };
                if glob != matches {
                    let ghost l = lookup_views(entries@)[i as int];
                    let ghost f = found_views(found@)[i as int];
                    assert(l == entries@[i as int]@);
                    assert(f == found@[i as int]@);
                    assert(!((l is Glob) <==> (f is Matches)));
                    assert(!findings_fit(lookup_views(entries@), found_views(found@)));
                    return false;
                }
                i = i + 1;
            }
            assert(findings_fit(lookup_views(entries@), found_views(found@)));
            true
        },
        (Selection::Detect { .. }, Outcome::Listing(_)) => true,
        _ => false,
    }
}

// ---------------------------------------------------------------------------
// Resolving
// ---------------------------------------------------------------------------

/// Why resolution fails, as specifications see it.
pub enum Failure {
    /// An error met while looking, passed on unchanged.
    Passed(WasmCheckError),
    /// A named path is not a file.
    FileNotFound(Seq<char>),
    /// Nothing was found in the directory searched.
    NoWasmFound(Seq<char>),
    /// Auto-detection found more than one candidate.
    Multiple(Seq<Seq<char>>),
}

/// `e` is the error that `f` describes.
pub open spec fn reports(e: WasmCheckError, f: Failure) -> bool {
    match f {
        Failure::Passed(x) => e == x,
        Failure::FileNotFound(p) => e matches WasmCheckError::FileNotFound(q) && q@ == p,
        Failure::NoWasmFound(d) => e matches WasmCheckError::NoWasmFound { dir } && dir@ == d,
        Failure::Multiple(found) => e matches WasmCheckError::MultipleWasmFound { found: v }
            && text_list(v@) == found,
    }
}

/// The files a glob matched, keyed by `key`, their paths without a `./`.
pub open spec fn glob_hits(key: Seq<char>, paths: Seq<Seq<char>>) -> Seq<(Seq<char>, Seq<char>)> {
    paths.map_values(|p: Seq<char>| (key, clean_path(p)))
}

/// The files the config entries found, in entry order, or the first failure.
pub open spec fn gathered(entries: Seq<LookupView>, found: Seq<FoundView>) -> Result<
    Seq<(Seq<char>, Seq<char>)>,
    Failure,
>
    decreases entries.len(),
{
    if entries.len() == 0 || found.len() == 0 {
        Ok(Seq::empty())
    } else {
        let first = match (entries[0], found[0]) {
            (LookupView::Glob { key, .. }, FoundView::Matches(Ok(paths))) => Ok(
                glob_hits(key, paths),
            ),
            (LookupView::Glob { .. }, FoundView::Matches(Err(e))) => Err(Failure::Passed(e)),
            (LookupView::Path { key, path }, FoundView::IsFile(true)) => Ok(seq![(key, path)]),
            (LookupView::Path { path, .. }, FoundView::IsFile(false)) => Err(
                Failure::FileNotFound(path),
            ),
            _ => Ok(Seq::empty()),
        };
        match first {
            Err(f) => Err(f),
            Ok(hits) => match gathered(entries.drop_first(), found.drop_first()) {
                Ok(rest) => Ok(hits + rest),
                Err(f) => Err(f),
            },
        }
    }
}

/// The candidate files of a selection given what was found, before sorting,
/// or why there are none to give.
pub open spec fn candidates(sel: SelectionView, out: OutcomeView) -> Result<
    Seq<(Seq<char>, Seq<char>)>,
    Failure,
> {
    match (sel, out) {
        (SelectionView::CliGlob { key, .. }, OutcomeView::Matches(Ok(paths))) => Ok(
            glob_hits(key, paths),
        ),
        (SelectionView::CliPath { path, base }, OutcomeView::IsFile(true)) => Ok(
            seq![(key_of(path, base), path)],
        ),
        (SelectionView::CliPath { path, .. }, OutcomeView::IsFile(false)) => Err(
            Failure::FileNotFound(path),
        ),
        (SelectionView::Entries { entries, .. }, OutcomeView::Each(found)) => gathered(
            entries,
            found,
        ),
        (SelectionView::Detect { base, .. }, OutcomeView::Listing(Ok(found))) => if found.len()
            <= 1 {
            Ok(found.map_values(|p: Seq<char>| (key_of(clean_path(p), base), clean_path(p))))
        } else {
            Err(Failure::Multiple(found))
        },
        (SelectionView::CliGlob { .. }, OutcomeView::Matches(Err(e))) => Err(Failure::Passed(e)),
        (SelectionView::Detect { .. }, OutcomeView::Listing(Err(e))) => Err(Failure::Passed(e)),
        _ => Ok(Seq::empty()),
    }
}

/// A `--file` path that is a file resolves to exactly that one file, keyed
/// by its path relative to the config's directory when that directory is a
/// non-empty prefix of it by components (as `Path::strip_prefix` gives it),
/// and by the path itself otherwise. `v` is what `resolve_files` gives for
/// such a selection.
pub proof fn law_cli_file_key(path: Seq<char>, base: Seq<char>, v: Seq<(Seq<char>, Seq<char>)>)
    requires
        candidates(SelectionView::CliPath { path, base }, OutcomeView::IsFile(true)) matches Ok(
            items,
        ) && exists|s: Seq<(Seq<char>, Seq<char>)>|
            #![trigger sorted_by_path(items, s)]
            sorted_by_path(items, s) && v == dedup_files(s),
    ensures
        v.len() == 1,
        v[0].1 == path,
        v[0].0 == (if base.len() > 0 && crate::paths::strip_prefix(path, base) is Some
            && crate::paths::strip_prefix(path, base)->0.len() > 0 {
            crate::paths::strip_prefix(path, base)->0
        } else {
            path
        }),
{
    let items = match candidates(SelectionView::CliPath { path, base }, OutcomeView::IsFile(true)) {
        Ok(items) => items,
        Err(_) => Seq::empty(),
    };
    let s = choose|s: Seq<(Seq<char>, Seq<char>)>|
        #![trigger sorted_by_path(items, s)]
        sorted_by_path(items, s) && v == dedup_files(s);
    let perm = choose|perm: Seq<int>|
        #![trigger is_rearrangement(perm, items.len())]
        {
            &&& is_rearrangement(perm, items.len())
            &&& s.len() == items.len()
            &&& forall|i: int| 0 <= i < s.len() ==> #[trigger] s[i] == items[perm[i]]
            &&& forall|i: int, j: int|
                0 <= i < j < s.len() ==> goes_before(
                    #[trigger] s[i],
                    perm[i],
                    #[trigger] s[j],
                    perm[j],
                )
        };
    assert(items.len() == 1);
    assert(perm[0] == 0);
    assert(s[0] == items[0]);
    assert(s.drop_last() =~= Seq::<(Seq<char>, Seq<char>)>::empty());
    assert(dedup_files(s.drop_last()).len() == 0);
    assert(v =~= seq![items[0]]);
}

/// The directory a selection resolves against.
pub open spec fn base_of(sel: SelectionView) -> Seq<char> {
    match sel {
        SelectionView::CliGlob { base, .. } => base,
        SelectionView::CliPath { base, .. } => base,
        SelectionView::Entries { base, .. } => base,
        SelectionView::Detect { base, .. } => base,
    }
}

/// Appends each matched path, keyed by `key`, to `out`.
fn push_hits(out: &mut Vec<ResolvedFile>, key: &str, paths: &[String])
    ensures
        file_views(final(out)@) == file_views(old(out)@) + glob_hits(key@, text_list(paths@)),
{
    let ghost start = file_views(out@);
    let ghost hits = glob_hits(key@, text_list(paths@));
    assert(hits.len() == paths@.len());
    let mut i: usize = 0;
    while i < paths.len()
        invariant
            i <= paths@.len(),
            hits == glob_hits(key@, text_list(paths@)),
            file_views(out@) == start + hits.take(i as int),
        decreases paths@.len() - i,
    {
        let path = clean(paths[i].as_str());
        let file = ResolvedFile { key: key.to_owned(), path };
        let ghost prior = out@;
        assert(file_views(prior).len() == prior.len());
        assert(text_list(paths@)[i as int] == paths@[i as int]@);
        assert(file@ == hits[i as int]);
        out.push(file);
        assert(out@ == prior.push(file));
        assert forall|j: int| 0 <= j < prior.len() implies #[trigger] file_views(out@)[j]
            == file_views(prior)[j] by {
            assert(out@[j] == prior[j]);
        }
        assert(file_views(out@)[prior.len() as int] == file@);
        assert(file_views(out@) =~= start + hits.take(i + 1));
        i = i + 1;
    }
    assert(hits.take(i as int) =~= hits);
}

/// The files found for the config entries, in entry order.
fn gather(entries: &[Lookup], found: Vec<Found>) -> (r: Result<Vec<ResolvedFile>, WasmCheckError>)
    requires
        findings_fit(lookup_views(entries@), found_views(found@)),
    ensures
        match gathered(lookup_views(entries@), found_views(found@)) {
            Ok(items) => r matches Ok(v) && file_views(v@) == items,
            Err(f) => r matches Err(e) && reports(e, f),
        },
{
    let ghost ev = lookup_views(entries@);
    let ghost fv = found_views(found@);
    let n = entries.len();
    let mut out: Vec<ResolvedFile> = Vec::new();
    let mut rest = found;
    let mut i: usize = 0;
    assert(ev.skip(0) =~= ev);
    assert(fv.skip(0) =~= fv);
    while i < n
        invariant
            n == ev.len(),
            ev == lookup_views(entries@),
            fv == found_views(found@),
            findings_fit(ev, fv),
            i <= n,
            i + rest@.len() == n,
            found_views(rest@) == fv.skip(i as int),
            gathered(ev, fv) == match gathered(ev.skip(i as int), fv.skip(i as int)) {
                Ok(tail) => Ok(file_views(out@) + tail),
                Err(f) => Err(f),
            },
        decreases n - i,
    {
        let ghost es = ev.skip(i as int);
        let ghost fs = fv.skip(i as int);
        let ghost before = file_views(out@);
        let ghost whole = rest@;
        let finding = rest.remove(0);
        assert(finding@ == fs[0]) by {
            assert(found_views(whole)[0] == whole[0]@);
        }
        assert(found_views(rest@) =~= fv.skip(i + 1)) by {
            assert forall|a: int| 0 <= a < rest@.len() implies found_views(rest@)[a] == fv.skip(
                i + 1,
            )[a] by {
                assert(rest@[a] == whole[a + 1]);
                assert(found_views(whole)[a + 1] == whole[a + 1]@);
            }
        }
        assert(es[0] == entries@[i as int]@);
        assert(es.drop_first() =~= ev.skip(i + 1));
        assert(fs.drop_first() =~= fv.skip(i + 1));
        assert(es[0] is Glob <==> fs[0] is Matches);
        let ghost mut hits: Seq<(Seq<char>, Seq<char>)> = Seq::empty();
        match (&entries[i], finding) {
            (Lookup::Glob { key, .. }, Found::Matches(Ok(paths))) => {
                proof {
                    hits = glob_hits(key@, text_list(paths@));
                }
                push_hits(&mut out, key.as_str(), paths.as_slice());
            },
            (Lookup::Glob { .. }, Found::Matches(Err(e))) => {
                assert(fs[0] == FoundView::Matches(Err(e)));
                assert(gathered(es, fs) == Err::<Seq<(Seq<char>, Seq<char>)>, Failure>(
                    Failure::Passed(e),
                ));
                return Err(e);
            },
            (Lookup::Path { key, path }, Found::IsFile(true)) => {
                proof {
                    hits = seq![(key@, path@)];
                }
                let file = ResolvedFile { key: key.clone(), path: path.clone() };
                let ghost prior = out@;
                out.push(file);
                assert(out@ == prior.push(file));
                assert forall|j: int| 0 <= j < prior.len() implies #[trigger] file_views(out@)[j]
                    == file_views(prior)[j] by {
                    assert(out@[j] == prior[j]);
                }
                assert(file_views(out@) =~= before + hits);
            },
            (Lookup::Path { path, .. }, Found::IsFile(false)) => {
                assert(gathered(es, fs) == Err::<Seq<(Seq<char>, Seq<char>)>, Failure>(
                    Failure::FileNotFound(path@),
                ));
                return Err(WasmCheckError::FileNotFound(path.clone()));
            },
            (Lookup::Glob { .. }, Found::IsFile(_)) => {
                assert(false);
                return Ok(out);
            },
            (Lookup::Path { .. }, Found::Matches(_)) => {
                assert(false);
                return Ok(out);
            },
        }
        proof {
            assert(file_views(out@) == before + hits);
            assert(gathered(es, fs) == match gathered(ev.skip(i + 1), fv.skip(i + 1)) {
                Ok(rest) => Ok(hits + rest),
                Err(f) => Err(f),
            });
            match gathered(ev.skip(i + 1), fv.skip(i + 1)) {
                Ok(tail) => {
                    assert(before + (hits + tail) =~= (before + hits) + tail);
                },
                Err(_) => {},
            }
        }
        i = i + 1;
    }
    assert(ev.skip(n as int).len() == 0);
    assert(file_views(out@) + Seq::<(Seq<char>, Seq<char>)>::empty() =~= file_views(out@));
    Ok(out)
}

/// Builds the list of files a run measures from `selection` and what was
/// found for it.
///
/// Matches are sorted by path (component by component, files with the same
/// path in the order they were found) and exact repeats are dropped. A
/// missing named path is [`WasmCheckError::FileNotFound`], nothing found at
/// all is [`WasmCheckError::NoWasmFound`] for the directory searched, and an
/// ambiguous auto-detection is [`WasmCheckError::MultipleWasmFound`]; an
/// error met while looking is passed on unchanged.
pub fn resolve_files(selection: &Selection, outcome: Outcome) -> (r: Result<
    Vec<ResolvedFile>,
    WasmCheckError,
>)
    requires
        outcome_fits(selection@, outcome@),
    ensures
        match candidates(selection@, outcome@) {
            Err(f) => r matches Err(e) && reports(e, f),
            Ok(items) => if items.len() == 0 {
                r matches Err(e) && reports(
                    e,
                    Failure::NoWasmFound(display_dir_of(base_of(selection@))),
                )
            } else {
                r matches Ok(v) && exists|s: Seq<(Seq<char>, Seq<char>)>|
                    #![trigger sorted_by_path(items, s)]
                    sorted_by_path(items, s) && file_views(v@) == dedup_files(s)
            },
        },
{
    let ghost want = candidates(selection@, outcome@);
    let base: &str = match selection {
        Selection::CliGlob { base, .. } => base.as_str(),
        Selection::CliPath { base, .. } => base.as_str(),
        Selection::Entries { base, .. } => base.as_str(),
        Selection::Detect { base, .. } => base.as_str(),
    };
    let items: Vec<ResolvedFile> = match (selection, outcome) {
        (Selection::CliGlob { key, .. }, Outcome::Matches(Ok(paths))) => {
            let mut v: Vec<ResolvedFile> = Vec::new();
            push_hits(&mut v, key.as_str(), paths.as_slice());
            assert(file_views(v@) =~= glob_hits(key@, text_list(paths@)));
            v
        },
        (Selection::CliGlob { .. }, Outcome::Matches(Err(e))) => {
            return Err(e);
        },
        (Selection::CliPath { path, base }, Outcome::IsFile(true)) => {
            let file = ResolvedFile { key: key_for(path.as_str(), base.as_str()), path: path.clone() };
            let mut v: Vec<ResolvedFile> = Vec::new();
            v.push(file);
            assert(file_views(v@) =~= seq![(key_of(path@, base@), path@)]);
            v
        },
        (Selection::CliPath { path, .. }, Outcome::IsFile(false)) => {
            return Err(WasmCheckError::FileNotFound(path.clone()));
        },
        (Selection::Entries { entries, .. }, Outcome::Each(found)) => {
            match gather(entries.as_slice(), found) {
                Ok(v) => v,
                Err(e) => {
                    return Err(e);
                },
            }
        },
        (Selection::Detect { base, .. }, Outcome::Listing(Ok(found))) => {
            if found.len() > 1 {
                return Err(WasmCheckError::MultipleWasmFound { found });
            }
            let mut v: Vec<ResolvedFile> = Vec::new();
            if found.len() == 1 {
                let path = clean(found[0].as_str());
                let key = key_for(path.as_str(), base.as_str());
                v.push(ResolvedFile { key, path });
            }
            assert(file_views(v@) =~= text_list(found@).map_values(
                |p: Seq<char>| (key_of(clean_path(p), base@), clean_path(p)),
            ));
            v
        },
        (Selection::Detect { .. }, Outcome::Listing(Err(e))) => {
            return Err(e);
        },
        _ => {
            assert(false);
            return Ok(Vec::new());
        },
    };
    assert(want == Ok::<Seq<(Seq<char>, Seq<char>)>, Failure>(file_views(items@)));
    if items.len() == 0 {
        return Err(WasmCheckError::NoWasmFound { dir: display_dir(base) });
    }
    let sorted = sort_by_path(items);
    let r = dedup(sorted);
    assert(sorted_by_path(file_views(items@), file_views(sorted@)));
    Ok(r)
}

// ---------------------------------------------------------------------------
// Auto-detection
// ---------------------------------------------------------------------------

/// The position of the last `.` in `name`, if any.
pub open spec fn last_dot(name: Seq<char>) -> Option<int>
    decreases name.len(),
{
    if name.len() == 0 {
        None
    } else if name.last() == '.' {
        Some(name.len() - 1)
    } else {
        last_dot(name.drop_last())
    }
}

/// The extension of a path, as `Path::extension` reads it: the text after
/// the last `.` of the final component, when that component is a name and
/// the `.` is not its first character.
pub open spec fn extension_of(path: Seq<char>) -> Option<Seq<char>> {
    let parts = components(path);
    if parts.len() == 0 || crate::paths::part_rank(parts.last()) != 3 {
        None
    } else {
        match last_dot(parts.last()) {
            Some(i) => if i > 0 {
                Some(parts.last().skip(i + 1))
            } else {
                None
            },
            None => None,
        }
    }
}

/// Whether `path` has the `wasm` extension.
pub fn has_wasm_extension(path: &str) -> (r: bool)
    ensures
        r == (extension_of(path@) == Some("wasm"@)),
{
    let chars = chars_of(path);
    let parts = path_components(chars.as_slice());
    proof {
        reveal_strlit("wasm");
    }
    let ghost pv = part_views(parts@);
    if parts.len() == 0 {
        return false;
    }
    let name = &parts[parts.len() - 1];
    assert(pv.last() == name@);
    let n = name.len();
    let kind = name.len() == 1 && (name[0] == '/' || name[0] == '.') || (name.len() == 2
        && name[0] == '.' && name[1] == '.');
    if kind {
        proof {
            if n == 1 && name@[0] == '/' {
                assert(name@ =~= seq!['/']);
            } else if n == 1 {
                assert(name@ =~= seq!['.']);
            } else {
                assert(name@ =~= seq!['.', '.']);
            }
        }
        return false;
    }
    proof {
        assert(name@ != seq!['/']) by {
            if name@ == seq!['/'] {
                assert(name@.len() == 1 && name@[0] == '/');
            }
        }
        assert(name@ != seq!['.']) by {
            if name@ == seq!['.'] {
                assert(name@.len() == 1 && name@[0] == '.');
            }
        }
        assert(name@ != seq!['.', '.']) by {
            if name@ == seq!['.', '.'] {
                assert(name@.len() == 2 && name@[0] == '.' && name@[1] == '.');
            }
        }
    }
    // Find the last dot.
    let mut i: usize = n;
    assert(name@.take(n as int) =~= name@);
    while i > 0 && name[i - 1] != '.'
        invariant
            i <= n,
            n == name@.len(),
            last_dot(name@) == last_dot(name@.take(i as int)),
        decreases i,
    {
        assert(name@.take(i as int).drop_last() =~= name@.take(i - 1));
        assert(name@.take(i as int).last() == name@[i - 1]);
        i = i - 1;
    }
    if i == 0 {
        assert(name@.take(0).len() == 0);
        return false;
    }
    assert(name@.take(i as int).last() == name@[i - 1]);
    assert(last_dot(name@) == Some(i - 1));
    if i - 1 == 0 {
        return false;
    }
    let suffix = copy_range(name.as_slice(), i, n);
    assert(suffix@ =~= name@.skip(i as int));
    let mut wasm: Vec<char> = Vec::new();
    crate::text::push_str(&mut wasm, "wasm");
    assert(wasm@ =~= "wasm"@);
    crate::text::chars_eq(suffix.as_slice(), wasm.as_slice())
}

/// The directories auto-detection falls back into when `dir` holds no
/// `.wasm` file: `dist` and `target` one level down, then the cargo wasm
/// layout `target/wasm32-unknown-unknown/{release,debug}`.
pub open spec fn fallback_dirs_of(dir: Seq<char>) -> Seq<Seq<char>> {
    seq![
        join_of(dir, "dist"@),
        join_of(dir, "target"@),
        join_of(dir, "target/wasm32-unknown-unknown/release"@),
        join_of(dir, "target/wasm32-unknown-unknown/debug"@),
    ]
}

/// The directories auto-detection searches when `dir` holds no `.wasm`
/// file, in order.
pub fn fallback_dirs(dir: &str) -> (r: Vec<String>)
    ensures
        text_list(r@) == fallback_dirs_of(dir@),
{
    let mut r: Vec<String> = Vec::new();
    r.push(join(dir, "dist"));
    r.push(join(dir, "target"));
    r.push(join(dir, "target/wasm32-unknown-unknown/release"));
    r.push(join(dir, "target/wasm32-unknown-unknown/debug"));
    assert(text_list(r@) =~= fallback_dirs_of(dir@));
    r
}

/// Paths as sortable files with an empty key.
pub open spec fn path_items(v: Seq<Seq<char>>) -> Seq<(Seq<char>, Seq<char>)> {
    v.map_values(|p: Seq<char>| (Seq::<char>::empty(), p))
}

/// Sorts `paths` by path, component by component.
pub fn sort_paths(paths: Vec<String>) -> (r: Vec<String>)
    ensures
        sorted_by_path(path_items(text_list(paths@)), path_items(text_list(r@))),
{
    let ghost items = path_items(text_list(paths@));
    let mut files: Vec<ResolvedFile> = Vec::new();
    let mut i: usize = 0;
    while i < paths.len()
        invariant
            i <= paths@.len(),
            items == path_items(text_list(paths@)),
            file_views(files@) == items.take(i as int),
        decreases paths@.len() - i,
    {
        let file = ResolvedFile { key: String::new(), path: paths[i].clone() };
        let ghost prior = files@;
        assert(file_views(prior).len() == prior.len());
        files.push(file);
        assert(files@ == prior.push(file));
        let ghost now = file_views(files@);
        let ghost was = file_views(prior);
        assert forall|j: int| 0 <= j < prior.len() implies #[trigger] now[j] == was[j] by {
            assert(files@[j] == prior[j]);
        }
        assert(now[i as int] == items[i as int]);
        assert(now =~= items.take(i + 1));
        i = i + 1;
    }
    assert(items.take(i as int) =~= items);
    let sorted = sort_by_path(files);
    let mut r: Vec<String> = Vec::new();
    let mut k: usize = 0;
    while k < sorted.len()
        invariant
            k <= sorted@.len(),
            text_list(r@) == file_views(sorted@).take(k as int).map_values(
                |f: (Seq<char>, Seq<char>)| f.1,
            ),
        decreases sorted@.len() - k,
    {
        let ghost prior = r@;
        assert(text_list(prior).len() == prior.len());
        let path = sorted[k].path.clone();
        r.push(path);
        assert(r@ == prior.push(path));
        let ghost now = text_list(r@);
        let ghost was = text_list(prior);
        assert forall|j: int| 0 <= j < prior.len() implies #[trigger] now[j] == was[j] by {
            assert(r@[j] == prior[j]);
        }
        assert(now =~= file_views(sorted@).take(k + 1).map_values(|f: (Seq<char>, Seq<char>)| f.1));
        k = k + 1;
    }
    proof {
        let sv = file_views(sorted@);
        assert(sv.take(k as int) =~= sv);
        let perm = choose|perm: Seq<int>| #[trigger] is_rearrangement(perm, items.len()) && sv.len()
            == items.len() && (forall|a: int| 0 <= a < sv.len() ==> #[trigger] sv[a] == items[perm[a]])
            && (forall|a: int, b: int|
            0 <= a < b < sv.len() ==> goes_before(
                #[trigger] sv[a],
                perm[a],
                #[trigger] sv[b],
                perm[b],
            ));
        let out = path_items(text_list(r@));
        assert forall|a: int| 0 <= a < sv.len() implies #[trigger] out[a] == sv[a] by {
            assert(sv[a] == items[perm[a]]);
        }
        assert(out =~= sv);
    }
    r
}

/// The predicate "has the `.wasm` extension".
pub open spec fn is_wasm_path() -> spec_fn(Seq<char>) -> bool {
    |p: Seq<char>| extension_of(p) == Some("wasm"@)
}

/// The `.wasm` paths among `v`, in order.
pub open spec fn wasm_paths(v: Seq<Seq<char>>) -> Seq<Seq<char>> {
    v.filter(is_wasm_path())
}

/// The `.wasm` files among `paths`, sorted by path.
pub fn wasm_files(paths: Vec<String>) -> (r: Vec<String>)
    ensures
        sorted_by_path(path_items(wasm_paths(text_list(paths@))), path_items(text_list(r@))),
{
    let mut picked: Vec<String> = Vec::new();
    let mut i: usize = 0;
    assert(text_list(paths@).take(0) =~= Seq::<Seq<char>>::empty());
    while i < paths.len()
        invariant
            i <= paths@.len(),
            text_list(picked@) == wasm_paths(text_list(paths@).take(i as int)),
        decreases paths@.len() - i,
    {
        let ghost pre = text_list(paths@).take(i as int);
        assert(text_list(paths@).take(i + 1) =~= pre.push(paths@[i as int]@));
        proof {
            pre.lemma_filter_push(paths@[i as int]@, is_wasm_path());
        }
        if has_wasm_extension(paths[i].as_str()) {
            let ghost prior = picked@;
            assert(text_list(prior).len() == prior.len());
            let path = paths[i].clone();
            picked.push(path);
            assert(picked@ == prior.push(path));
            let ghost now = text_list(picked@);
            let ghost was = text_list(prior);
            assert forall|j: int| 0 <= j < prior.len() implies #[trigger] now[j] == was[j] by {
                assert(picked@[j] == prior[j]);
            }
            assert(now =~= was.push(path@));
        }
        i = i + 1;
    }
    assert(text_list(paths@).take(i as int) =~= text_list(paths@));
    sort_paths(picked)
}

/// The listings `lists`, one after another.
pub open spec fn joined_lists(lists: Seq<Vec<String>>) -> Seq<Seq<char>>
    decreases lists.len(),
{
    if lists.len() == 0 {
        Seq::empty()
    } else {
        joined_lists(lists.drop_last()) + text_list(lists.last()@)
    }
}

/// Appends copies of `src` to `dst`.
fn push_strings(dst: &mut Vec<String>, src: &[String])
    ensures
        text_list(final(dst)@) == text_list(old(dst)@) + text_list(src@),
{
    let ghost start = text_list(dst@);
    let mut j: usize = 0;
    while j < src.len()
        invariant
            j <= src@.len(),
            text_list(dst@) == start + text_list(src@).take(j as int),
        decreases src@.len() - j,
    {
        let ghost prior = dst@;
        let item = src[j].clone();
        dst.push(item);
        assert(dst@ == prior.push(item));
        assert(text_list(dst@) =~= text_list(prior).push(item@));
        assert(text_list(src@).take(j + 1) =~= text_list(src@).take(j as int).push(src@[j as int]@));
        assert(start + text_list(src@).take(j + 1) =~= (start + text_list(src@).take(j as int)).push(
            item@,
        ));
        j = j + 1;
    }
    assert(text_list(src@).take(j as int) =~= text_list(src@));
}

/// The files auto-detection picks, given `direct`, the entries listed
/// directly in the searched directory, and `fallback`, those listed directly
/// in each of its fallback directories (one level, no deeper).
///
/// The `.wasm` files among `direct` win, sorted by path; only when there are
/// none are the `.wasm` files of all the fallback listings taken, together
/// sorted by path.
pub fn detected_files(direct: Vec<String>, fallback: Vec<Vec<String>>) -> (r: Vec<String>)
    ensures
        if wasm_paths(text_list(direct@)).len() > 0 {
            sorted_by_path(path_items(wasm_paths(text_list(direct@))), path_items(text_list(r@)))
        } else {
            sorted_by_path(path_items(wasm_paths(joined_lists(fallback@))), path_items(text_list(r@)))
        },
{
    let own = wasm_files(direct);
    if own.len() > 0 {
        return own;
    }
    let mut all: Vec<String> = Vec::new();
    let mut i: usize = 0;
    assert(fallback@.take(0) =~= Seq::<Vec<String>>::empty());
    while i < fallback.len()
        invariant
            i <= fallback@.len(),
            text_list(all@) == joined_lists(fallback@.take(i as int)),
        decreases fallback@.len() - i,
    {
        push_strings(&mut all, fallback[i].as_slice());
        assert(fallback@.take(i + 1).drop_last() =~= fallback@.take(i as int));
        i = i + 1;
    }
    assert(fallback@.take(i as int) =~= fallback@);
    wasm_files(all)
}

} // verus!
