//! The committed baseline, stored apart from the config.

use vstd::prelude::*;

use crate::order::{
    lemma_lt_asymmetric, lemma_lt_irreflexive, lemma_lt_total, lemma_lt_transitive, seq_lt, str_lt,
};
use crate::paths::{glob_like, is_glob};
use crate::size::SizeReport;
use crate::text::str_eq;

verus! {

/// A baseline entry as specifications see it: the key's text and the report.
pub type EntryView = (Seq<char>, SizeReport);

/// Keys strictly increasing, hence distinct.
pub open spec fn sorted_keys(s: Seq<EntryView>) -> bool {
    forall|i: int, j: int| 0 <= i < j < s.len() ==> seq_lt(#[trigger] s[i].0, #[trigger] s[j].0)
}

/// The report recorded under `key`, if any.
pub open spec fn lookup(s: Seq<EntryView>, key: Seq<char>) -> Option<SizeReport>
    decreases s.len(),
{
    if s.len() == 0 {
        None
    } else if s[0].0 == key {
        Some(s[0].1)
    } else {
        lookup(s.drop_first(), key)
    }
}

/// `s` with `report` recorded under `key`: replacing an entry with that key,
/// or inserted before the first larger key.
pub open spec fn insert_sorted(s: Seq<EntryView>, key: Seq<char>, report: SizeReport) -> Seq<
    EntryView,
>
    decreases s.len(),
{
    if s.len() == 0 {
        seq![(key, report)]
    } else if s[0].0 == key {
        seq![(key, report)] + s.drop_first()
    } else if seq_lt(s[0].0, key) {
        seq![s[0]] + insert_sorted(s.drop_first(), key, report)
    } else {
        seq![(key, report)] + s
    }
}

/// `s` without the entries keyed `key`.
pub open spec fn remove_key(s: Seq<EntryView>, key: Seq<char>) -> Seq<EntryView>
    decreases s.len(),
{
    if s.len() == 0 {
        s
    } else if s[0].0 == key {
        remove_key(s.drop_first(), key)
    } else {
        seq![s[0]] + remove_key(s.drop_first(), key)
    }
}

/// The entries built by recording each pair of `list` in turn.
pub open spec fn from_list(list: Seq<EntryView>) -> Seq<EntryView>
    decreases list.len(),
{
    if list.len() == 0 {
        Seq::empty()
    } else {
        insert_sorted(from_list(list.drop_last()), list.last().0, list.last().1)
    }
}

/// Whether an entry survives pruning: its key is kept, is the pattern itself,
/// or did not match the pattern.
pub open spec fn survives(e: EntryView, pattern: Seq<char>, keep: Seq<Seq<char>>, matched: bool) -> bool {
    keep.contains(e.0) || e.0 == pattern || !matched
}

/// The entries of `s` that survive pruning, `matched[i]` telling whether the
/// key of `s[i]` matched the pattern.
pub open spec fn retained(
    s: Seq<EntryView>,
    pattern: Seq<char>,
    keep: Seq<Seq<char>>,
    matched: Seq<bool>,
) -> Seq<EntryView>
    decreases s.len(),
{
    if s.len() == 0 {
        s
    } else {
        let rest = retained(s.drop_first(), pattern, keep, matched.drop_first());
        if survives(s[0], pattern, keep, matched[0]) {
            seq![s[0]] + rest
        } else {
            rest
        }
    }
}

/// The texts of a list of strings.
pub open spec fn texts(v: Seq<String>) -> Seq<Seq<char>> {
    v.map_values(|s: String| s@)
}

// ---------------------------------------------------------------------------
// Lemmas
// ---------------------------------------------------------------------------

/// Recording and then reading a key gives back what was recorded; other keys
/// are unaffected.
pub proof fn lemma_lookup_insert(s: Seq<EntryView>, key: Seq<char>, report: SizeReport, other: Seq<char>)
    ensures
        lookup(insert_sorted(s, key, report), other) == if other == key {
            Some(report)
        } else {
            lookup(s, other)
        },
    decreases s.len(),
{
    let t = insert_sorted(s, key, report);
    assert(t.len() > 0);
    assert(lookup(t, other) == if t[0].0 == other {
        Some(t[0].1)
    } else {
        lookup(t.drop_first(), other)
    });
    if s.len() > 0 {
        assert(lookup(s, other) == if s[0].0 == other {
            Some(s[0].1)
        } else {
            lookup(s.drop_first(), other)
        });
    }
    if s.len() == 0 {
        assert(t[0] == (key, report));
        assert(t.drop_first() =~= Seq::<EntryView>::empty());
    } else if s[0].0 == key {
        assert(t[0] == (key, report));
        assert(t.drop_first() =~= s.drop_first());
    } else if seq_lt(s[0].0, key) {
        lemma_lt_irreflexive(key);
        lemma_lookup_insert(s.drop_first(), key, report, other);
        assert(t[0] == s[0]);
        assert(t.drop_first() =~= insert_sorted(s.drop_first(), key, report));
    } else {
        assert(t[0] == (key, report));
        assert(t.drop_first() =~= s);
    }
}

/// Forgetting a key makes it absent; other keys are unaffected.
pub proof fn lemma_lookup_remove(s: Seq<EntryView>, key: Seq<char>, other: Seq<char>)
    ensures
        lookup(remove_key(s, key), other) == if other == key {
            None
        } else {
            lookup(s, other)
        },
    decreases s.len(),
{
    if s.len() > 0 {
        lemma_lookup_remove(s.drop_first(), key, other);
        if s[0].0 != key {
            let t = remove_key(s, key);
            assert(t.drop_first() =~= remove_key(s.drop_first(), key));
        }
    }
}

proof fn lemma_lookup_at(s: Seq<EntryView>, key: Seq<char>, i: int)
    requires
        0 <= i <= s.len(),
        forall|j: int| 0 <= j < i ==> (#[trigger] s[j]).0 != key,
        i == s.len() || s[i].0 == key,
    ensures
        lookup(s, key) == if i < s.len() {
            Some(s[i].1)
        } else {
            None
        },
    decreases i,
{
    if i > 0 {
        let t = s.drop_first();
        assert forall|j: int| 0 <= j < i - 1 implies (#[trigger] t[j]).0 != key by {
            assert(t[j] == s[j + 1]);
        }
        lemma_lookup_at(t, key, i - 1);
    }
}

proof fn lemma_insert_at(s: Seq<EntryView>, key: Seq<char>, report: SizeReport, i: int)
    requires
        0 <= i <= s.len(),
        forall|j: int| 0 <= j < i ==> seq_lt((#[trigger] s[j]).0, key),
        i == s.len() || !seq_lt(s[i].0, key),
    ensures
        insert_sorted(s, key, report) == if i < s.len() && s[i].0 == key {
            s.update(i, (key, report))
        } else {
            s.insert(i, (key, report))
        },
    decreases i,
{
    if i == 0 {
        if s.len() > 0 && s[0].0 == key {
            assert(seq![(key, report)] + s.drop_first() =~= s.update(0, (key, report)));
        } else if s.len() > 0 {
            assert(seq![(key, report)] + s =~= s.insert(0, (key, report)));
        } else {
            assert(seq![(key, report)] =~= s.insert(0, (key, report)));
        }
    } else {
        let t = s.drop_first();
        assert(seq_lt(s[0].0, key));
        lemma_lt_irreflexive(key);
        assert forall|j: int| 0 <= j < i - 1 implies seq_lt((#[trigger] t[j]).0, key) by {
            assert(t[j] == s[j + 1]);
        }
        if i < s.len() {
            assert(t[i - 1] == s[i]);
        }
        lemma_insert_at(t, key, report, i - 1);
        if i < s.len() && s[i].0 == key {
            assert(seq![s[0]] + t.update(i - 1, (key, report)) =~= s.update(i, (key, report)));
        } else {
            assert(seq![s[0]] + t.insert(i - 1, (key, report)) =~= s.insert(i, (key, report)));
        }
    }
}

proof fn lemma_insert_keeps_sorted(s: Seq<EntryView>, key: Seq<char>, report: SizeReport, i: int)
    requires
        sorted_keys(s),
        0 <= i <= s.len(),
        forall|j: int| 0 <= j < i ==> seq_lt((#[trigger] s[j]).0, key),
        i == s.len() || !seq_lt(s[i].0, key),
    ensures
        sorted_keys(insert_sorted(s, key, report)),
{
    lemma_insert_at(s, key, report, i);
    if i < s.len() && s[i].0 == key {
        let t = s.update(i, (key, report));
        assert forall|a: int, b: int| 0 <= a < b < t.len() implies seq_lt(
            #[trigger] t[a].0,
            #[trigger] t[b].0,
        ) by {
            assert(seq_lt(s[a].0, s[b].0));
        }
    } else {
        if i < s.len() {
            lemma_lt_total(s[i].0, key);
        }
        let t = s.insert(i, (key, report));
        assert(t.len() == s.len() + 1);
        assert forall|a: int, b: int| 0 <= a < b < t.len() implies seq_lt(
            #[trigger] t[a].0,
            #[trigger] t[b].0,
        ) by {
            if b < i {
                assert(t[a] == s[a]);
                assert(t[b] == s[b]);
            } else if b == i {
                assert(t[a] == s[a]);
            } else if a < i {
                assert(t[a] == s[a]);
                assert(t[b] == s[b - 1]);
                if b - 1 > i {
                    assert(seq_lt(s[i].0, s[b - 1].0));
                    lemma_lt_transitive(key, s[i].0, s[b - 1].0);
                }
                lemma_lt_transitive(s[a].0, key, s[b - 1].0);
            } else if a == i {
                assert(t[b] == s[b - 1]);
                if b - 1 > i {
                    assert(seq_lt(s[i].0, s[b - 1].0));
                    lemma_lt_transitive(key, s[i].0, s[b - 1].0);
                }
            } else {
                assert(t[a] == s[a - 1]);
                assert(t[b] == s[b - 1]);
                assert(seq_lt(s[a - 1].0, s[b - 1].0));
            }
        }
    }
}

proof fn lemma_remove_at(s: Seq<EntryView>, key: Seq<char>, i: int)
    requires
        0 <= i < s.len(),
        s[i].0 == key,
        forall|j: int| 0 <= j < s.len() && j != i ==> (#[trigger] s[j]).0 != key,
    ensures
        remove_key(s, key) == s.remove(i),
    decreases i,
{
    if i == 0 {
        lemma_remove_absent(s.drop_first(), key);
        assert(s.drop_first() =~= s.remove(0));
    } else {
        let t = s.drop_first();
        assert forall|j: int| 0 <= j < t.len() && j != i - 1 implies (#[trigger] t[j]).0 != key by {
            assert(t[j] == s[j + 1]);
        }
        lemma_remove_at(t, key, i - 1);
        assert(seq![s[0]] + t.remove(i - 1) =~= s.remove(i));
    }
}

proof fn lemma_remove_absent(s: Seq<EntryView>, key: Seq<char>)
    requires
        forall|j: int| 0 <= j < s.len() ==> (#[trigger] s[j]).0 != key,
    ensures
        remove_key(s, key) == s,
    decreases s.len(),
{
    if s.len() > 0 {
        let t = s.drop_first();
        assert forall|j: int| 0 <= j < t.len() implies (#[trigger] t[j]).0 != key by {
            assert(t[j] == s[j + 1]);
        }
        lemma_remove_absent(t, key);
        assert(seq![s[0]] + t =~= s);
    }
}

proof fn lemma_remove_keeps_sorted(s: Seq<EntryView>, i: int)
    requires
        sorted_keys(s),
        0 <= i < s.len(),
    ensures
        sorted_keys(s.remove(i)),
{
    let t = s.remove(i);
    assert forall|a: int, b: int| 0 <= a < b < t.len() implies seq_lt(
        #[trigger] t[a].0,
        #[trigger] t[b].0,
    ) by {
        let a2 = if a < i {
            a
        } else {
            a + 1
        };
        let b2 = if b < i {
            b
        } else {
            b + 1
        };
        assert(t[a] == s[a2]);
        assert(t[b] == s[b2]);
    }
}

/// Pruning keeps the order of the surviving entries, so keys stay sorted.
proof fn lemma_retained_step(
    s: Seq<EntryView>,
    pattern: Seq<char>,
    keep: Seq<Seq<char>>,
    matched: Seq<bool>,
    i: int,
)
    requires
        0 <= i < s.len(),
        matched.len() == s.len(),
    ensures
        retained(s.skip(i), pattern, keep, matched.skip(i)) == if survives(
            s[i],
            pattern,
            keep,
            matched[i],
        ) {
            seq![s[i]] + retained(s.skip(i + 1), pattern, keep, matched.skip(i + 1))
        } else {
            retained(s.skip(i + 1), pattern, keep, matched.skip(i + 1))
        },
{
    assert(s.skip(i).drop_first() =~= s.skip(i + 1));
    assert(matched.skip(i).drop_first() =~= matched.skip(i + 1));
    assert(s.skip(i)[0] == s[i]);
    assert(matched.skip(i)[0] == matched[i]);
}

/// Every entry that survives pruning was in the original, in the same order.
proof fn lemma_retained_sub(
    s: Seq<EntryView>,
    pattern: Seq<char>,
    keep: Seq<Seq<char>>,
    matched: Seq<bool>,
)
    ensures
        forall|a: int| 0 <= a < retained(s, pattern, keep, matched).len() ==> exists|i: int|
            0 <= i < s.len() && #[trigger] retained(s, pattern, keep, matched)[a] == s[i],
    decreases s.len(),
{
    if s.len() > 0 {
        lemma_retained_sub(s.drop_first(), pattern, keep, matched.drop_first());
        let r = retained(s, pattern, keep, matched);
        let rest = retained(s.drop_first(), pattern, keep, matched.drop_first());
        assert forall|a: int| 0 <= a < r.len() implies exists|i: int|
            0 <= i < s.len() && #[trigger] r[a] == s[i] by {
            if survives(s[0], pattern, keep, matched[0]) {
                if a == 0 {
                    assert(r[0] == s[0]);
                } else {
                    assert(r[a] == rest[a - 1]);
                    let i = choose|i: int| 0 <= i < s.len() - 1 && rest[a - 1] == s.drop_first()[i];
                    assert(r[a] == s[i + 1]);
                }
            } else {
                assert(r[a] == rest[a]);
                let i = choose|i: int| 0 <= i < s.len() - 1 && rest[a] == s.drop_first()[i];
                assert(r[a] == s[i + 1]);
            }
        }
    }
}

/// Pruning keeps the surviving keys sorted.
proof fn lemma_retained_sorted(
    s: Seq<EntryView>,
    pattern: Seq<char>,
    keep: Seq<Seq<char>>,
    matched: Seq<bool>,
)
    requires
        sorted_keys(s),
    ensures
        sorted_keys(retained(s, pattern, keep, matched)),
    decreases s.len(),
{
    if s.len() > 0 {
        let t = s.drop_first();
        assert(sorted_keys(t)) by {
            assert forall|i: int, j: int| 0 <= i < j < t.len() implies seq_lt(
                #[trigger] t[i].0,
                #[trigger] t[j].0,
            ) by {
                assert(t[i] == s[i + 1]);
                assert(t[j] == s[j + 1]);
            }
        }
        lemma_retained_sorted(t, pattern, keep, matched.drop_first());
        let rest = retained(t, pattern, keep, matched.drop_first());
        if survives(s[0], pattern, keep, matched[0]) {
            lemma_retained_sub(t, pattern, keep, matched.drop_first());
            let r = seq![s[0]] + rest;
            assert forall|a: int, b: int| 0 <= a < b < r.len() implies seq_lt(
                #[trigger] r[a].0,
                #[trigger] r[b].0,
            ) by {
                assert(r[b] == rest[b - 1]);
                let i = choose|i: int| 0 <= i < t.len() && #[trigger] rest[b - 1] == t[i];
                assert(t[i] == s[i + 1]);
                if a == 0 {
                    assert(seq_lt(s[0].0, s[i + 1].0));
                } else {
                    assert(r[a] == rest[a - 1]);
                }
            }
        }
    }
}

// ---------------------------------------------------------------------------
// The baseline
// ---------------------------------------------------------------------------

/// The recorded sizes of every checked file, keyed by the `files` entry that
/// selected it, in key order.
#[derive(Debug)]
pub struct Baseline {
    entries: Vec<(String, SizeReport)>,
}

impl View for Baseline {
    type V = Seq<EntryView>;

    closed spec fn view(&self) -> Seq<EntryView> {
        self.entries@.map_values(|e: (String, SizeReport)| (e.0@, e.1))
    }
}

/// Recording `report` under `key` in `b`.
pub open spec fn baseline_set(b: Seq<EntryView>, key: Seq<char>, report: SizeReport) -> Seq<
    EntryView,
> {
    insert_sorted(b, key, report)
}

impl Baseline {
    #[verifier::type_invariant]
    closed spec fn inv(self) -> bool {
        sorted_keys(self@)
    }

    /// An empty baseline.
    pub fn new() -> (r: Self)
        ensures
            r@ == Seq::<EntryView>::empty(),
    {
        let r = Baseline { entries: Vec::new() };
        assert(r@ =~= Seq::<EntryView>::empty());
        r
    }

    /// Builds a baseline by recording each pair in turn, typically to adopt a
    /// legacy inline baseline. A later pair wins over an earlier one with the
    /// same key.
    pub fn from_entries(entries: Vec<(String, SizeReport)>) -> (r: Self)
        ensures
            r@ == from_list(entries@.map_values(|e: (String, SizeReport)| (e.0@, e.1))),
    {
        let ghost list = entries@.map_values(|e: (String, SizeReport)| (e.0@, e.1));
        let mut result = Baseline::new();
        let mut rest = entries;
        let ghost orig = rest@;
        let ghost n = orig.len();
        assert(list.take(0) =~= Seq::<EntryView>::empty());
        assert(orig.skip(0) =~= orig);
        while rest.len() > 0
            invariant
                orig.len() == n,
                list == orig.map_values(|e: (String, SizeReport)| (e.0@, e.1)),
                rest.len() <= n,
                rest@ == orig.skip(n - rest.len()),
                result@ == from_list(list.take(n - rest.len())),
            decreases rest.len(),
        {
            let ghost k = n - rest.len();
            let (key, report) = rest.remove(0);
            assert(list.take(k + 1).drop_last() =~= list.take(k));
            assert(list.take(k + 1).last() == list[k]);
            assert(orig[k].0@ == list[k].0);
            result.set(key.as_str(), report);
            assert(rest@ =~= orig.skip(n - rest.len()));
        }
        assert(list.take(n as int) =~= list);
        result
    }

    /// The number of recorded files.
    pub fn len(&self) -> (r: usize)
        ensures
            r == self@.len(),
    {
        self.entries.len()
    }

    /// `true` when nothing has been recorded yet.
    pub fn is_empty(&self) -> (r: bool)
        ensures
            r == (self@.len() == 0),
    {
        self.entries.len() == 0
    }

    /// Every entry, in strictly increasing key order.
    pub fn iter(&self) -> (r: &[(String, SizeReport)])
        ensures
            sorted_keys(self@),
            r@.len() == self@.len(),
            forall|i: int| 0 <= i < r@.len() ==> (#[trigger] r@[i]).0@ == self@[i].0 && r@[i].1 == self@[i].1,
    {
        proof {
            use_type_invariant(self);
        }
        self.entries.as_slice()
    }

    /// The baseline recorded for `key`, if any.
    pub fn get(&self, key: &str) -> (r: Option<&SizeReport>)
        ensures
            match r {
                Some(report) => lookup(self@, key@) == Some(*report),
                None => lookup(self@, key@) is None,
            },
    {
        let n = self.entries.len();
        let mut i: usize = 0;
        while i < n
            invariant
                n == self.entries@.len(),
                n == self@.len(),
                i <= n,
                forall|j: int| 0 <= j < i ==> (#[trigger] self@[j]).0 != key@,
            decreases n - i,
        {
            if str_eq(self.entries[i].0.as_str(), key) {
                assert(self@[i as int].0 == key@);
                proof {
                    lemma_lookup_at(self@, key@, i as int);
                }
                return Some(&self.entries[i].1);
            }
            assert(self@[i as int].0 != key@);
            i = i + 1;
        }
        proof {
            lemma_lookup_at(self@, key@, n as int);
        }
        None
    }

    /// Records `report` under `key`, replacing what was there.
    pub fn set(&mut self, key: &str, report: SizeReport)
        ensures
            final(self)@ == baseline_set(old(self)@, key@, report),
    {
        proof {
            use_type_invariant(&*self);
        }
        let n = self.entries.len();
        let mut i: usize = 0;
        while i < n && str_lt(self.entries[i].0.as_str(), key)
            invariant
                n == self.entries@.len(),
                n == self@.len(),
                i <= n,
                forall|j: int| 0 <= j < i ==> seq_lt((#[trigger] self@[j]).0, key@),
            decreases n - i,
        {
            i = i + 1;
        }
        proof {
            lemma_insert_at(self@, key@, report, i as int);
            lemma_insert_keeps_sorted(self@, key@, report, i as int);
        }
        let ghost expected = insert_sorted(self@, key@, report);
        let mut entries: Vec<(String, SizeReport)> = Vec::new();
        std::mem::swap(&mut entries, &mut self.entries);
        if i < n && str_eq(entries[i].0.as_str(), key) {
            entries.set(i, (key.to_owned(), report));
        } else {
            entries.insert(i, (key.to_owned(), report));
        }
        assert(entries@.map_values(|e: (String, SizeReport)| (e.0@, e.1)) =~= expected);
        self.entries = entries;
    }

    /// Forgets `key`, returning what was recorded under it.
    pub fn remove(&mut self, key: &str) -> (r: Option<SizeReport>)
        ensures
            r == lookup(old(self)@, key@),
            final(self)@ == remove_key(old(self)@, key@),
    {
        proof {
            use_type_invariant(&*self);
        }
        let ghost s = self@;
        assert(s == old(self)@);
        let n = self.entries.len();
        let mut i: usize = 0;
        while i < n
            invariant
                n == self.entries@.len(),
                n == self@.len(),
                s == self@,
                s == old(self)@,
                sorted_keys(s),
                i <= n,
                forall|j: int| 0 <= j < i ==> (#[trigger] s[j]).0 != key@,
            decreases n - i,
        {
            if str_eq(self.entries[i].0.as_str(), key) {
                assert(s[i as int].0 == key@);
                proof {
                    lemma_lookup_at(s, key@, i as int);
                    assert forall|j: int| 0 <= j < s.len() && j != i implies (#[trigger] s[j]).0
                        != key@ by {
                        if j < i {
                        } else {
                            assert(seq_lt(s[i as int].0, s[j].0));
                            lemma_lt_irreflexive(key@);
                        }
                    }
                    lemma_remove_at(s, key@, i as int);
                    lemma_remove_keeps_sorted(s, i as int);
                }
                let mut entries: Vec<(String, SizeReport)> = Vec::new();
                std::mem::swap(&mut entries, &mut self.entries);
                let ghost before = entries@;
                let (_, report) = entries.remove(i);
                assert(report == s[i as int].1);
                assert(entries@.map_values(|e: (String, SizeReport)| (e.0@, e.1)) =~= s.remove(
                    i as int,
                ));
                self.entries = entries;
                return Some(report);
            }
            assert(s[i as int].0 != key@);
            i = i + 1;
        }
        proof {
            lemma_lookup_at(s, key@, n as int);
            lemma_remove_absent(s, key@);
        }
        None
    }

    /// Drops every entry whose `matched` flag is set, unless its key is in
    /// `keep` or is `pattern` itself.
    pub fn retain_unmatched(&mut self, pattern: &str, keep: &[String], matched: &[bool])
        requires
            matched@.len() == old(self)@.len(),
        ensures
            final(self)@ == retained(old(self)@, pattern@, texts(keep@), matched@),
    {
        proof {
            use_type_invariant(&*self);
        }
        let ghost s = self@;
        let ghost kv = texts(keep@);
        let mut entries: Vec<(String, SizeReport)> = Vec::new();
        std::mem::swap(&mut entries, &mut self.entries);
        let n = entries.len();
        let mut i: usize = n;
        assert(s.skip(n as int) =~= Seq::<EntryView>::empty());
        assert(s.take(n as int) =~= s);
        while i > 0
            invariant
                i <= n,
                n == s.len(),
                matched@.len() == n,
                kv == texts(keep@),
                entries@.map_values(|e: (String, SizeReport)| (e.0@, e.1)) == s.take(i as int)
                    + retained(s.skip(i as int), pattern@, kv, matched@.skip(i as int)),
            decreases i,
        {
            let j = i - 1;
            let ghost cur = entries@.map_values(|e: (String, SizeReport)| (e.0@, e.1));
            proof {
                lemma_retained_step(s, pattern@, kv, matched@, j as int);
            }
            assert(cur.len() == entries@.len());
            assert(s.take(i as int).len() == i);
            assert(cur[j as int] == s[j as int]);
            assert(entries@[j as int].0@ == s[j as int].0);
            let keep_it = {
                let key = entries[j].0.as_str();
                let mut found = false;
                let mut k: usize = 0;
                while k < keep.len()
                    invariant
                        k <= keep@.len(),
                        kv == texts(keep@),
                        kv.len() == keep@.len(),
                        found ==> kv.contains(key@),
                        !found ==> forall|x: int| 0 <= x < k ==> kv[x] != key@,
                    decreases keep@.len() - k,
                {
                    assert(kv[k as int] == keep@[k as int]@);
                    if str_eq(keep[k].as_str(), key) {
                        found = true;
                        assert(kv[k as int] == key@);
                    }
                    k = k + 1;
                }
                proof {
                    if !found && kv.contains(key@) {
                        let x = choose|x: int| 0 <= x < kv.len() && kv[x] == key@;
                        assert(kv[x] != key@);
                    }
                }
                found || str_eq(key, pattern) || !matched[j]
            };
            if !keep_it {
                let ghost old_entries = entries@;
                entries.remove(j);
                assert(entries@ == old_entries.remove(j as int));
                assert(entries@.map_values(|e: (String, SizeReport)| (e.0@, e.1)) =~= cur.remove(
                    j as int,
                ));
                assert(cur.remove(j as int) =~= s.take(j as int) + retained(
                    s.skip(i as int),
                    pattern@,
                    kv,
                    matched@.skip(i as int),
                ));
                assert(entries@.map_values(|e: (String, SizeReport)| (e.0@, e.1)) =~= s.take(
                    j as int,
                ) + retained(s.skip(j as int), pattern@, kv, matched@.skip(j as int)));
            } else {
                assert(s.take(j + 1) =~= s.take(j as int).push(s[j as int]));
                assert(entries@.map_values(|e: (String, SizeReport)| (e.0@, e.1)) =~= s.take(
                    j as int,
                ) + retained(s.skip(j as int), pattern@, kv, matched@.skip(j as int)));
            }
            i = j;
        }
        assert(s.take(0) =~= Seq::<EntryView>::empty());
        assert(s.skip(0) =~= s);
        assert(matched@.skip(0) =~= matched@);
        assert(entries@.map_values(|e: (String, SizeReport)| (e.0@, e.1)) =~= retained(
            s,
            pattern@,
            kv,
            matched@,
        ));
        proof {
            lemma_retained_sorted(s, pattern@, kv, matched@);
        }
        self.entries = entries;
    }

    /// Drops entries that `pattern` — a glob — matches, unless their key is in
    /// `keep` or is `pattern` itself: typically baselines recorded under a
    /// stale content-hashed filename. Nothing changes when `pattern` is not a
    /// glob or is not a valid one.
    pub fn prune(&mut self, pattern: &str, keep: &[String])
        ensures
            !glob_like(pattern@) || !glob_pattern_valid(pattern@) ==> final(self)@ == old(self)@,
            glob_like(pattern@) && glob_pattern_valid(pattern@) ==> final(self)@ == retained(
                old(self)@,
                pattern@,
                texts(keep@),
                match_flags(old(self)@, pattern@),
            ),
    {
        if !is_glob(pattern) {
            return;
        }
        if !glob_pattern_new(pattern) {
            return;
        }
        let ghost flags = match_flags(self@, pattern@);
        let n = self.entries.len();
        let mut matched: Vec<bool> = Vec::new();
        let mut i: usize = 0;
        while i < n
            invariant
                n == self@.len(),
                n == self.entries@.len(),
                i <= n,
                glob_pattern_valid(pattern@),
                flags == match_flags(self@, pattern@),
                matched@ == flags.take(i as int),
            decreases n - i,
        {
            let m = glob_pattern_matches(pattern, self.entries[i].0.as_str());
            assert(self@[i as int].0 == self.entries@[i as int].0@);
            matched.push(m);
            assert(matched@ =~= flags.take(i + 1));
            i = i + 1;
        }
        assert(matched@ =~= flags);
        self.retain_unmatched(pattern, keep, matched.as_slice());
    }
}

impl Clone for Baseline {
    fn clone(&self) -> (r: Self)
        ensures
            r@ == self@,
    {
        proof {
            use_type_invariant(self);
        }
        let n = self.entries.len();
        let mut entries: Vec<(String, SizeReport)> = Vec::new();
        let mut i: usize = 0;
        while i < n
            invariant
                n == self.entries@.len(),
                n == self@.len(),
                i <= n,
                entries@.map_values(|e: (String, SizeReport)| (e.0@, e.1)) == self@.take(i as int),
            decreases n - i,
        {
            let key = self.entries[i].0.clone();
            let report = self.entries[i].1.clone();
            assert(self@[i as int] == (self.entries@[i as int].0@, self.entries@[i as int].1));
            assert(key@ == self.entries@[i as int].0@);
            assert(report == self.entries@[i as int].1);
            let ghost before = entries@;
            assert(self@.take(i as int).len() == i);
            assert(before.map_values(|e: (String, SizeReport)| (e.0@, e.1)).len() == before.len());
            entries.push((key, report));
            assert(entries@ == before.push((key, report)));
            let ghost mapped = entries@.map_values(|e: (String, SizeReport)| (e.0@, e.1));
            assert(mapped.len() == i + 1);
            assert(before.len() == i);
            assert(entries@[i as int] == (key, report));
            assert(mapped[i as int] == (entries@[i as int].0@, entries@[i as int].1));
            assert(mapped[i as int] == self@[i as int]);
            assert forall|j: int| 0 <= j < i implies mapped[j] == self@[j] by {
                assert(mapped[j] == before.map_values(|e: (String, SizeReport)| (e.0@, e.1))[j]);
            }
            assert(entries@.map_values(|e: (String, SizeReport)| (e.0@, e.1)) =~= self@.take(
                i + 1,
            ));
            i = i + 1;
        }
        assert(self@.take(n as int) =~= self@);
        Baseline { entries }
    }
}

impl Default for Baseline {
    fn default() -> (r: Self)
        ensures
            r@ == Seq::<EntryView>::empty(),
    {
        Baseline::new()
    }
}

// ---------------------------------------------------------------------------
// Globs
// ---------------------------------------------------------------------------

/// Whether `glob::Pattern::new` accepts `pattern`.
pub uninterp spec fn glob_pattern_valid(pattern: Seq<char>) -> bool;

/// What `glob::Pattern::matches` answers for `candidate` once `pattern` is
/// compiled.
pub uninterp spec fn glob_match(pattern: Seq<char>, candidate: Seq<char>) -> bool;

/// For each entry of `s`, whether its key matches `pattern`.
pub open spec fn match_flags(s: Seq<EntryView>, pattern: Seq<char>) -> Seq<bool> {
    s.map_values(|e: EntryView| glob_match(pattern, e.0))
}

/// Calls `glob::Pattern::new` and tells whether it accepted `pattern`. The
/// contract claims that acceptance depends on the pattern text alone.
#[verifier::external_body]
fn glob_pattern_new(pattern: &str) -> (r: bool)
    ensures
        r == glob_pattern_valid(pattern@),
{
    glob::Pattern::new(pattern).is_ok()
}

/// Compiles `pattern` with `glob::Pattern::new` and calls
/// `glob::Pattern::matches` on `candidate`. The contract claims that the
/// answer depends on the pattern text and the candidate alone.
#[verifier::external_body]
fn glob_pattern_matches(pattern: &str, candidate: &str) -> (r: bool)
    requires
        glob_pattern_valid(pattern@),
    ensures
        r == glob_match(pattern@, candidate@),
{
    match glob::Pattern::new(pattern) {
        Ok(compiled) => compiled.matches(candidate),
        Err(_) => false,
    }
}

// ---------------------------------------------------------------------------
// Laws
// ---------------------------------------------------------------------------

/// Reading a key after recording it gives back the recorded report, and
/// recording leaves every other key as it was.
pub proof fn law_get_after_set(b: Seq<EntryView>, key: Seq<char>, report: SizeReport, other: Seq<char>)
    ensures
        lookup(baseline_set(b, key, report), key) == Some(report),
        other != key ==> lookup(baseline_set(b, key, report), other) == lookup(b, other),
{
    lemma_lookup_insert(b, key, report, key);
    lemma_lookup_insert(b, key, report, other);
}

/// Reading a key after forgetting it gives nothing, and forgetting leaves
/// every other key as it was.
pub proof fn law_get_after_remove(b: Seq<EntryView>, key: Seq<char>, other: Seq<char>)
    ensures
        lookup(remove_key(b, key), key) is None,
        other != key ==> lookup(remove_key(b, key), other) == lookup(b, other),
{
    lemma_lookup_remove(b, key, key);
    lemma_lookup_remove(b, key, other);
}

/// Pruning never drops an entry whose key is kept or is the pattern itself.
pub proof fn law_prune_keeps(
    b: Seq<EntryView>,
    pattern: Seq<char>,
    keep: Seq<Seq<char>>,
    matched: Seq<bool>,
    key: Seq<char>,
)
    requires
        matched.len() == b.len(),
        keep.contains(key) || key == pattern,
    ensures
        lookup(retained(b, pattern, keep, matched), key) == lookup(b, key),
    decreases b.len(),
{
    if b.len() > 0 {
        law_prune_keeps(b.drop_first(), pattern, keep, matched.drop_first(), key);
        let r = retained(b, pattern, keep, matched);
        let rest = retained(b.drop_first(), pattern, keep, matched.drop_first());
        if survives(b[0], pattern, keep, matched[0]) {
            assert((seq![b[0]] + rest).drop_first() =~= rest);
        }
    }
}

/// A key is found exactly where an entry carries it: a found report sits in
/// some entry under that key, and a key that is not found is on no entry.
proof fn lemma_lookup_found(s: Seq<EntryView>, key: Seq<char>)
    ensures
        lookup(s, key) matches Some(r) ==> exists|i: int| 0 <= i < s.len() && #[trigger] s[i] == (key, r),
        lookup(s, key) is None ==> forall|j: int| 0 <= j < s.len() ==> (#[trigger] s[j]).0 != key,
    decreases s.len(),
{
    if s.len() > 0 {
        let t = s.drop_first();
        lemma_lookup_found(t, key);
        if s[0].0 == key {
            assert(s[0] == (key, s[0].1));
        } else {
            if lookup(t, key) is Some {
                let r = lookup(t, key)->0;
                let i = choose|i: int| 0 <= i < t.len() && #[trigger] t[i] == (key, r);
                assert(s[i + 1] == (key, r));
            } else {
                assert forall|j: int| 0 <= j < s.len() implies (#[trigger] s[j]).0 != key by {
                    if j > 0 {
                        assert(s[j] == t[j - 1]);
                    }
                }
            }
        }
    }
}

/// Recording a key that is absent adds exactly one entry, and forgetting it
/// right away gives back the entries as they were.
proof fn lemma_insert_absent(s: Seq<EntryView>, key: Seq<char>, report: SizeReport)
    requires
        lookup(s, key) is None,
    ensures
        insert_sorted(s, key, report).len() == s.len() + 1,
        remove_key(insert_sorted(s, key, report), key) == s,
    decreases s.len(),
{
    let t = insert_sorted(s, key, report);
    if s.len() == 0 {
        assert(t[0].0 == key);
        assert(t.drop_first() =~= s);
        assert(remove_key(t, key) == remove_key(t.drop_first(), key));
    } else if seq_lt(s[0].0, key) {
        assert(s[0].0 != key);
        assert(lookup(s.drop_first(), key) is None);
        lemma_insert_absent(s.drop_first(), key, report);
        assert(t == seq![s[0]] + insert_sorted(s.drop_first(), key, report));
        assert(t.drop_first() =~= insert_sorted(s.drop_first(), key, report));
        assert(remove_key(t, key) =~= seq![s[0]] + s.drop_first());
        assert(seq![s[0]] + s.drop_first() =~= s);
    } else {
        assert(s[0].0 != key);
        assert(t == seq![(key, report)] + s);
        assert(t.drop_first() =~= s);
        assert(t[0].0 == key);
        assert(remove_key(t, key) == remove_key(t.drop_first(), key));
        lemma_lookup_found(s, key);
        lemma_remove_absent(s, key);
    }
}

/// The entries listed in order and the lookup by key agree both ways: each
/// listed entry is what its key looks up, and each key that looks up a report
/// is listed with it.
pub proof fn law_entries_agree_with_get(b: Seq<EntryView>, key: Seq<char>)
    requires
        sorted_keys(b),
    ensures
        forall|i: int| 0 <= i < b.len() ==> lookup(b, (#[trigger] b[i]).0) == Some(b[i].1),
        lookup(b, key) matches Some(r) ==> exists|i: int| 0 <= i < b.len() && #[trigger] b[i] == (key, r),
        lookup(b, key) is None ==> forall|j: int| 0 <= j < b.len() ==> (#[trigger] b[j]).0 != key,
{
    lemma_lookup_found(b, key);
    assert forall|i: int| 0 <= i < b.len() implies lookup(b, (#[trigger] b[i]).0) == Some(b[i].1) by {
        assert forall|j: int| 0 <= j < i implies (#[trigger] b[j]).0 != b[i].0 by {
            assert(seq_lt(b[j].0, b[i].0));
            lemma_lt_irreflexive(b[i].0);
        }
        lemma_lookup_at(b, b[i].0, i);
    }
}

/// Forgetting a recorded key drops exactly one entry; forgetting an absent
/// key drops none.
pub proof fn law_remove_len(b: Seq<EntryView>, key: Seq<char>)
    requires
        sorted_keys(b),
    ensures
        remove_key(b, key).len() == if lookup(b, key) is Some {
            b.len() - 1
        } else {
            b.len() as int
        },
{
    lemma_lookup_found(b, key);
    if lookup(b, key) is Some {
        let r = lookup(b, key)->0;
        let i = choose|i: int| 0 <= i < b.len() && #[trigger] b[i] == (key, r);
        assert forall|j: int| 0 <= j < b.len() && j != i implies (#[trigger] b[j]).0 != key by {
            if j < i {
                assert(seq_lt(b[j].0, b[i].0));
            } else {
                assert(seq_lt(b[i].0, b[j].0));
            }
            lemma_lt_irreflexive(key);
        }
        lemma_remove_at(b, key, i);
    } else {
        lemma_remove_absent(b, key);
    }
}

/// Recording a key that was absent adds one entry, and forgetting it right
/// after gives back the earlier baseline and the recorded report.
pub proof fn law_remove_after_set(b: Seq<EntryView>, key: Seq<char>, report: SizeReport)
    requires
        sorted_keys(b),
        lookup(b, key) is None,
    ensures
        baseline_set(b, key, report).len() == b.len() + 1,
        lookup(baseline_set(b, key, report), key) == Some(report),
        remove_key(baseline_set(b, key, report), key) == b,
{
    lemma_insert_absent(b, key, report);
    lemma_lookup_insert(b, key, report, key);
}

} // verus!
