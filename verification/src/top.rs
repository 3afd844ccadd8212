//! Best-effort ranking of the heaviest functions in a `.wasm` module.
//!
//! Sizes come from each function body's byte range in the code section;
//! names come from the module's name section. The function index space
//! starts with the imported functions, so the ordinal of a body is offset by
//! the number of function imports before it is looked up by name.

use vstd::prelude::*;

use crate::error::WasmCheckError;
use crate::text::{push_decimal, push_str, string_from_chars, dec};

verus! {

/// What the wasm parser reports, in module order, that ranking needs.
#[derive(Debug)]
pub enum WasmEvent {
    /// One import entry; `true` when it imports a function.
    Import(bool),
    /// A function body occupying the byte range `start..end` of the module.
    Body(u64, u64),
    /// The name section names function `index`.
    FunctionName(u32, String),
    /// Parsing failed with this message; nothing follows.
    Failure(String),
}

/// An event as specifications see it.
pub enum EventView {
    Import(bool),
    Body(u64, u64),
    FunctionName(u32, Seq<char>),
    Failure(Seq<char>),
}

impl View for WasmEvent {
    type V = EventView;

    open spec fn view(&self) -> EventView {
        match self {
            WasmEvent::Import(f) => EventView::Import(*f),
            WasmEvent::Body(s, e) => EventView::Body(*s, *e),
            WasmEvent::FunctionName(i, n) => EventView::FunctionName(*i, n@),
            WasmEvent::Failure(m) => EventView::Failure(m@),
        }
    }
}

/// The views of a list of events.
pub open spec fn event_views(v: Seq<WasmEvent>) -> Seq<EventView> {
    v.map_values(|e: WasmEvent| e@)
}

/// A payload of a module, as far as ranking needs it: where its imports, a
/// function body or its name section lie, or why parsing stopped.
#[derive(Debug)]
pub enum SectionRef {
    /// An import section with contents at `start..end`.
    Imports(u64, u64),
    /// A function body at `start..end`.
    Body(u64, u64),
    /// A `name` custom section with data at `start..end`.
    Names(u64, u64),
    /// Any other payload.
    Other,
    /// Parsing failed with this message.
    Failure(String),
}

/// A payload reference as specifications see it.
pub enum SectionView {
    Imports(u64, u64),
    Body(u64, u64),
    Names(u64, u64),
    Other,
    Failure(Seq<char>),
}

impl View for SectionRef {
    type V = SectionView;

    open spec fn view(&self) -> SectionView {
        match self {
            SectionRef::Imports(s, e) => SectionView::Imports(*s, *e),
            SectionRef::Body(s, e) => SectionView::Body(*s, *e),
            SectionRef::Names(s, e) => SectionView::Names(*s, *e),
            SectionRef::Other => SectionView::Other,
            SectionRef::Failure(m) => SectionView::Failure(m@),
        }
    }
}

/// The views of a list of payload references.
pub open spec fn section_views(v: Seq<SectionRef>) -> Seq<SectionView> {
    v.map_values(|x: SectionRef| x@)
}

/// The payloads `wasmparser::Parser::parse_all` reads from `data`, in order.
pub uninterp spec fn wasm_section_list(data: Seq<u8>) -> Seq<SectionView>;

/// Reads `data` with `wasmparser::Parser::parse_all`, recording each import
/// section, code section entry and `name` custom section by its byte range,
/// any other payload as [`SectionRef::Other`], and an error by its text
/// (`parse_all` stops after one). The contract claims that the list depends
/// on the bytes alone.
#[verifier::external_body]
fn wasm_sections(data: &[u8]) -> (r: Vec<SectionRef>)
    ensures
        section_views(r@) == wasm_section_list(data@),
{
    let mut out = Vec::new();
    for payload in wasmparser::Parser::new(0).parse_all(data) {
        out.push(match payload {
            Ok(wasmparser::Payload::ImportSection(s)) => SectionRef::Imports(s.range().start, s.range().end),
            Ok(wasmparser::Payload::CodeSectionEntry(b)) => SectionRef::Body(b.range().start, b.range().end),
            Ok(wasmparser::Payload::CustomSection(c)) => match c.as_known() {
                wasmparser::KnownCustom::Name(_) => SectionRef::Names(c.data_offset(), c.range().end),
                _ => SectionRef::Other,
            },
            Ok(_) => SectionRef::Other,
            Err(e) => SectionRef::Failure(e.to_string()),
        });
    }
    out
}

/// The text of an optional error.
pub open spec fn result_view<T>(r: Result<T, String>) -> Result<T, Seq<char>> {
    match r {
        Ok(x) => Ok(x),
        Err(e) => Err(e@),
    }
}

/// For each import of the import section at `start..end` of `data`, whether
/// it imports a function, or the error that ended reading.
pub uninterp spec fn wasm_import_list(data: Seq<u8>, start: u64, end: u64) -> Seq<Result<bool, Seq<char>>>;

/// Reads the import section at `start..end` of `data` with
/// `wasmparser::ImportSectionReader::new` and `into_imports`: `Ok(true)` for
/// a function import (`TypeRef::Func` or `TypeRef::FuncExact`), `Ok(false)`
/// for any other, and the error's text where reading fails (nothing follows
/// an error). The contract claims that the list depends on the bytes and the
/// range alone.
#[verifier::external_body]
fn wasm_imports(data: &[u8], start: u64, end: u64) -> (r: Vec<Result<bool, String>>)
    requires
        start <= end <= data@.len(),
    ensures
        r@.map_values(|x: Result<bool, String>| result_view(x)) == wasm_import_list(data@, start, end),
{
    let reader = wasmparser::BinaryReader::new(&data[start as usize..end as usize], start);
    match wasmparser::ImportSectionReader::new(reader) {
        Err(e) => vec![Err(e.to_string())],
        Ok(section) => section.into_imports().map(|i| i.map(|i| matches!(i.ty, wasmparser::TypeRef::Func(_) | wasmparser::TypeRef::FuncExact(_))).map_err(|e| e.to_string())).collect(),
    }
}

/// A function's naming in a name map, or an error met reading it.
pub type Naming = Result<(u32, String), String>;

/// A naming as specifications see it.
pub type NamingView = Result<(u32, Seq<char>), Seq<char>>;

/// For each subsection of the name section at `start..end` of `data`: the
/// namings of a function name map in order, nothing for another kind of
/// subsection, or the error that ended reading.
pub uninterp spec fn wasm_name_subsection_list(data: Seq<u8>, start: u64, end: u64) -> Seq<
    Result<Option<Seq<NamingView>>, Seq<char>>,
>;

/// Reads the name section at `start..end` of `data` with
/// `wasmparser::NameSectionReader::new`: each `Name::Function` map becomes
/// its namings in order (an index and a name each, or the error's text where
/// one fails to read, as `NameMap`'s iterator yields them), any other
/// subsection `None`; reading stops at the first subsection error, recorded
/// by its text. The contract claims that the list depends on the bytes and
/// the range alone.
#[verifier::external_body]
fn wasm_name_subsections(data: &[u8], start: u64, end: u64) -> (r: Vec<Result<Option<Vec<Naming>>, String>>)
    requires
        start <= end <= data@.len(),
    ensures
        r@.map_values(|x: Result<Option<Vec<Naming>>, String>| subsection_view(x))
            == wasm_name_subsection_list(data@, start, end),
{
    let reader = wasmparser::BinaryReader::new(&data[start as usize..end as usize], start);
    let mut out = Vec::new();
    for name in wasmparser::NameSectionReader::new(reader) {
        match name {
            Ok(wasmparser::Name::Function(map)) => out.push(Ok(Some(map.map(|n| n.map(|n| (n.index, n.name.to_string())).map_err(|e| e.to_string())).collect()))),
            Ok(_) => out.push(Ok(None)),
            Err(e) => { out.push(Err(e.to_string())); break; }
        }
    }
    out
}

/// A name subsection as specifications see it.
pub open spec fn subsection_view(x: Result<Option<Vec<Naming>>, String>) -> Result<
    Option<Seq<NamingView>>,
    Seq<char>,
> {
    match x {
        Ok(Some(v)) => Ok(Some(v@.map_values(|n: Naming| naming_view(n)))),
        Ok(None) => Ok(None),
        Err(e) => Err(e@),
    }
}

/// A naming, or the error that ended reading, as specifications see it.
pub open spec fn naming_view(x: Result<(u32, String), String>) -> Result<(u32, Seq<char>), Seq<char>> {
    match x {
        Ok((i, n)) => Ok((i, n@)),
        Err(e) => Err(e@),
    }
}

// ---------------------------------------------------------------------------
// The events of a module
// ---------------------------------------------------------------------------

/// `start..end` is a byte range of `data`.
pub open spec fn within(data: Seq<u8>, start: u64, end: u64) -> bool {
    start <= end && end <= data.len()
}

/// The events of an import section: one per import, and a failure where
/// reading failed.
pub open spec fn import_events(list: Seq<Result<bool, Seq<char>>>) -> Seq<EventView> {
    list.map_values(
        |r: Result<bool, Seq<char>>|
            match r {
                Ok(f) => EventView::Import(f),
                Err(m) => EventView::Failure(m),
            },
    )
}

/// `true` for an import that reads as a function import.
pub open spec fn is_function_import() -> spec_fn(Result<bool, Seq<char>>) -> bool {
    |x: Result<bool, Seq<char>>| x == Ok::<bool, Seq<char>>(true)
}

/// An import section's events shift the function index space by exactly the
/// number of its imports that are function imports: memories, tables,
/// globals and tags count for nothing, and each import or failure gives one
/// event, an import of kind `b` as `Import(b)`.
pub proof fn law_import_events_count_functions(list: Seq<Result<bool, Seq<char>>>)
    ensures
        function_imports(import_events(list)) == list.filter(is_function_import()).len(),
        import_events(list).len() == list.len(),
        forall|i: int| 0 <= i < list.len() ==> (#[trigger] list[i] matches Ok(b) ==> import_events(
            list,
        )[i] == EventView::Import(b)),
    decreases list.len(),
{
    if list.len() > 0 {
        let t = list.drop_last();
        law_import_events_count_functions(t);
        assert(import_events(list).drop_last() =~= import_events(t));
        assert(list =~= t.push(list.last()));
        t.lemma_filter_push(list.last(), is_function_import());
    }
}

/// The function names of a name map: its namings that read, skipping
/// errors, as `flatten` yields them.
pub open spec fn naming_events(list: Seq<NamingView>) -> Seq<EventView>
    decreases list.len(),
{
    if list.len() == 0 {
        Seq::empty()
    } else {
        naming_events(list.drop_last()) + match list.last() {
            Ok((i, n)) => seq![EventView::FunctionName(i, n)],
            Err(_) => Seq::empty(),
        }
    }
}

/// The events of the subsections of a name section: the function names of
/// each function name map, and a failure where reading failed.
pub open spec fn subsection_events(subs: Seq<Result<Option<Seq<NamingView>>, Seq<char>>>) -> Seq<
    EventView,
>
    decreases subs.len(),
{
    if subs.len() == 0 {
        Seq::empty()
    } else {
        subsection_events(subs.drop_last()) + match subs.last() {
            Ok(Some(names)) => naming_events(names),
            Ok(None) => Seq::empty(),
            Err(m) => seq![EventView::Failure(m)],
        }
    }
}

/// The events of one payload; `None` when a reported range lies outside
/// `data`.
pub open spec fn section_events(data: Seq<u8>, sec: SectionView) -> Option<Seq<EventView>> {
    match sec {
        SectionView::Imports(s, e) => if within(data, s, e) {
            Some(import_events(wasm_import_list(data, s, e)))
        } else {
            None
        },
        SectionView::Body(s, e) => Some(seq![EventView::Body(s, e)]),
        SectionView::Names(s, e) => if within(data, s, e) {
            Some(subsection_events(wasm_name_subsection_list(data, s, e)))
        } else {
            None
        },
        SectionView::Other => Some(Seq::empty()),
        SectionView::Failure(m) => Some(seq![EventView::Failure(m)]),
    }
}

/// The events of a list of payloads, in order.
pub open spec fn events_from(data: Seq<u8>, secs: Seq<SectionView>) -> Option<Seq<EventView>>
    decreases secs.len(),
{
    if secs.len() == 0 {
        Some(Seq::empty())
    } else {
        match (events_from(data, secs.drop_last()), section_events(data, secs.last())) {
            (Some(a), Some(b)) => Some(a + b),
            _ => None,
        }
    }
}

/// The events of the module `data`: its imports, function bodies and
/// function names in module order, with failures where parsing failed.
pub open spec fn module_events_of(data: Seq<u8>) -> Option<Seq<EventView>> {
    events_from(data, wasm_section_list(data))
}

// ---------------------------------------------------------------------------
// What the events say
// ---------------------------------------------------------------------------

/// The message of the first failure among `events`, if any.
pub open spec fn first_failure(events: Seq<EventView>) -> Option<Seq<char>>
    decreases events.len(),
{
    if events.len() == 0 {
        None
    } else {
        match events[0] {
            EventView::Failure(m) => Some(m),
            _ => first_failure(events.drop_first()),
        }
    }
}

/// The number of function imports among `events`.
pub open spec fn function_imports(events: Seq<EventView>) -> nat
    decreases events.len(),
{
    if events.len() == 0 {
        0
    } else {
        function_imports(events.drop_last()) + match events.last() {
            EventView::Import(true) => 1nat,
            _ => 0nat,
        }
    }
}

/// The byte ranges of the function bodies among `events`, in order.
pub open spec fn bodies(events: Seq<EventView>) -> Seq<(u64, u64)>
    decreases events.len(),
{
    if events.len() == 0 {
        Seq::empty()
    } else {
        bodies(events.drop_last()) + match events.last() {
            EventView::Body(s, e) => seq![(s, e)],
            _ => Seq::empty(),
        }
    }
}

/// The last name given to function `index` among `events`, if any.
pub open spec fn name_of(events: Seq<EventView>, index: int) -> Option<Seq<char>>
    decreases events.len(),
{
    if events.len() == 0 {
        None
    } else {
        match events.last() {
            EventView::FunctionName(i, n) if i == index => Some(n),
            _ => name_of(events.drop_last(), index),
        }
    }
}

/// Every body range is in order, and every function index fits a `u32`.
pub open spec fn events_fit(events: Seq<EventView>) -> bool {
    &&& forall|k: int| 0 <= k < bodies(events).len() ==> (#[trigger] bodies(events)[k]).0 <= bodies(
        events,
    )[k].1
    &&& function_imports(events) + bodies(events).len() <= 0x1_0000_0000
    &&& function_imports(events) < 0x1_0000_0000
}

/// The size and name of the `k`th function body: the name section's name
/// for its index, else `func_<index>`.
pub open spec fn ranked_item(events: Seq<EventView>, k: int) -> (u64, Seq<char>) {
    let b = bodies(events)[k];
    let index = function_imports(events) + k;
    (
        (b.1 - b.0) as u64,
        match name_of(events, index) {
            Some(n) => n,
            None => "func_"@ + dec(index as nat),
        },
    )
}

/// The function bodies of `events`, each with its size and name, in module
/// order.
pub open spec fn functions_of(events: Seq<EventView>) -> Seq<(u64, Seq<char>)> {
    Seq::new(bodies(events).len(), |k: int| ranked_item(events, k))
}

/// Function `a` at ordinal `i` ranks before function `b` at ordinal `j`:
/// larger first, and in module order among equal sizes.
pub open spec fn ranks_before(a: (u64, Seq<char>), i: int, b: (u64, Seq<char>), j: int) -> bool {
    a.0 > b.0 || (a.0 == b.0 && i < j)
}

/// `out` is `items` sorted by descending size, equal sizes keeping their
/// order.
pub open spec fn sorted_by_size(items: Seq<(u64, Seq<char>)>, out: Seq<(u64, Seq<char>)>) -> bool {
    exists|perm: Seq<int>|
        #![trigger crate::files::is_rearrangement(perm, items.len())]
        {
            &&& crate::files::is_rearrangement(perm, items.len())
            &&& out.len() == items.len()
            &&& forall|i: int| 0 <= i < out.len() ==> #[trigger] out[i] == items[perm[i]]
            &&& forall|i: int, j: int|
                0 <= i < j < out.len() ==> ranks_before(
                    #[trigger] out[i],
                    perm[i],
                    #[trigger] out[j],
                    perm[j],
                )
        }
}

/// The views of a ranking.
pub open spec fn ranking_views(v: Seq<(u64, String)>) -> Seq<(u64, Seq<char>)> {
    v.map_values(|e: (u64, String)| (e.0, e.1@))
}

/// `r` is the ranking of the `n` largest functions `events` describe: the
/// first parse failure as [`WasmCheckError::WasmParse`], else the functions
/// sorted by descending size, equal sizes in module order, cut to `n`.
pub open spec fn ranks(events: Seq<EventView>, n: usize, r: Result<Vec<(u64, String)>, WasmCheckError>) -> bool {
    match first_failure(events) {
        Some(m) => r matches Err(WasmCheckError::WasmParse(s)) && s@ == m,
        None => r matches Ok(v) && exists|s: Seq<(u64, Seq<char>)>|
            #![trigger sorted_by_size(functions_of(events), s)]
            sorted_by_size(functions_of(events), s) && ranking_views(v@) == s.take(
                if n < s.len() {
                    n as int
                } else {
                    s.len() as int
                },
            ),
    }
}

// ---------------------------------------------------------------------------
// Ranking
// ---------------------------------------------------------------------------

fn count_imports(events: &[WasmEvent]) -> (r: u64)
    requires
        function_imports(event_views(events@)) < 0x1_0000_0000,
    ensures
        r == function_imports(event_views(events@)),
{
    let ghost ev = event_views(events@);
    let mut count: u64 = 0;
    let mut i: usize = 0;
    assert(ev.take(0) =~= Seq::<EventView>::empty());
    while i < events.len()
        invariant
            i <= events@.len(),
            ev == event_views(events@),
            function_imports(ev) < 0x1_0000_0000,
            count == function_imports(ev.take(i as int)),
        decreases events@.len() - i,
    {
        assert(ev.take(i + 1).drop_last() =~= ev.take(i as int));
        assert(ev.take(i + 1).last() == events@[i as int]@);
        proof {
            lemma_imports_prefix(ev, i + 1);
        }
        if let WasmEvent::Import(true) = &events[i] {
            count = count + 1;
        }
        i = i + 1;
    }
    assert(ev.take(i as int) =~= ev);
    count
}

proof fn lemma_imports_prefix(ev: Seq<EventView>, k: int)
    requires
        0 <= k <= ev.len(),
    ensures
        function_imports(ev.take(k)) <= function_imports(ev),
    decreases ev.len() - k,
{
    if k < ev.len() {
        lemma_imports_prefix(ev, k + 1);
        assert(ev.take(k + 1).drop_last() =~= ev.take(k));
    } else {
        assert(ev.take(k) =~= ev);
    }
}

fn body_ranges(events: &[WasmEvent]) -> (r: Vec<(u64, u64)>)
    ensures
        r@ == bodies(event_views(events@)),
{
    let ghost ev = event_views(events@);
    let mut out: Vec<(u64, u64)> = Vec::new();
    let mut i: usize = 0;
    assert(ev.take(0) =~= Seq::<EventView>::empty());
    while i < events.len()
        invariant
            i <= events@.len(),
            ev == event_views(events@),
            out@ == bodies(ev.take(i as int)),
        decreases events@.len() - i,
    {
        assert(ev.take(i + 1).drop_last() =~= ev.take(i as int));
        assert(ev.take(i + 1).last() == events@[i as int]@);
        if let WasmEvent::Body(s, e) = &events[i] {
            out.push((*s, *e));
        }
        assert(out@ =~= bodies(ev.take(i + 1)));
        i = i + 1;
    }
    assert(ev.take(i as int) =~= ev);
    out
}

fn failure_message(events: &[WasmEvent]) -> (r: Option<String>)
    ensures
        match first_failure(event_views(events@)) {
            Some(m) => r matches Some(s) && s@ == m,
            None => r is None,
        },
{
    let ghost ev = event_views(events@);
    let mut i: usize = 0;
    assert(ev.skip(0) =~= ev);
    while i < events.len()
        invariant
            i <= events@.len(),
            ev == event_views(events@),
            first_failure(ev) == first_failure(ev.skip(i as int)),
        decreases events@.len() - i,
    {
        assert(ev.skip(i as int)[0] == events@[i as int]@);
        if let WasmEvent::Failure(m) = &events[i] {
            return Some(m.clone());
        }
        assert(ev.skip(i as int).drop_first() =~= ev.skip(i + 1));
        i = i + 1;
    }
    assert(ev.skip(i as int).len() == 0);
    None
}

/// The name a function with `index` gets: the last name the events give it,
/// else `func_<index>`.
fn function_name(events: &[WasmEvent], index: u64) -> (r: String)
    ensures
        r@ == match name_of(event_views(events@), index as int) {
            Some(n) => n,
            None => "func_"@ + dec(index as nat),
        },
{
    let ghost ev = event_views(events@);
    let mut i: usize = events.len();
    assert(ev.take(i as int) =~= ev);
    while i > 0
        invariant
            i <= events@.len(),
            ev == event_views(events@),
            name_of(ev, index as int) == name_of(ev.take(i as int), index as int),
        decreases i,
    {
        let j = i - 1;
        assert(ev.take(i as int).last() == events@[j as int]@);
        assert(ev.take(i as int).drop_last() =~= ev.take(j as int));
        if let WasmEvent::FunctionName(k, n) = &events[j] {
            if *k as u64 == index {
                return n.clone();
            }
        }
        i = j;
    }
    assert(ev.take(0).len() == 0);
    let mut out: Vec<char> = Vec::new();
    push_str(&mut out, "func_");
    push_decimal(&mut out, index);
    string_from_chars(out.as_slice())
}

struct Candidate {
    size: u64,
    name: String,
    ordinal: usize,
}

spec fn candidate_ok(c: Candidate, items: Seq<(u64, Seq<char>)>) -> bool {
    &&& 0 <= c.ordinal < items.len()
    &&& (c.size, c.name@) == items[c.ordinal as int]
}

/// Sorts `items` by descending size, equal sizes keeping their order.
fn sort_by_size(items: Vec<(u64, String)>) -> (r: Vec<(u64, String)>)
    ensures
        sorted_by_size(ranking_views(items@), ranking_views(r@)),
{
    let ghost iv = ranking_views(items@);
    let n = items.len();
    let mut out: Vec<Candidate> = Vec::new();
    let mut k: usize = 0;
    while k < n
        invariant
            n == items@.len(),
            iv == ranking_views(items@),
            k <= n,
            out@.len() == k,
            forall|i: int| 0 <= i < k ==> #[trigger] candidate_ok(out@[i], iv),
            forall|i: int| 0 <= i < k ==> (#[trigger] out@[i]).ordinal < k,
            forall|i: int, j: int|
                0 <= i < j < k ==> (#[trigger] out@[i]).ordinal != (#[trigger] out@[j]).ordinal,
            forall|i: int, j: int|
                0 <= i < j < k ==> ranks_before(
                    ((#[trigger] out@[i]).size, out@[i].name@),
                    out@[i].ordinal as int,
                    ((#[trigger] out@[j]).size, out@[j].name@),
                    out@[j].ordinal as int,
                ),
        decreases n - k,
    {
        let size = items[k].0;
        let name = items[k].1.clone();
        assert(iv[k as int] == (size, name@));
        let mut j: usize = 0;
        while j < out.len() && size <= out[j].size
            invariant
                j <= out@.len(),
                out@.len() == k,
                forall|i: int| 0 <= i < j ==> size <= (#[trigger] out@[i]).size,
            decreases out@.len() - j,
        {
            j = j + 1;
        }
        let ghost before = out@;
        let entry = Candidate { size, name, ordinal: k };
        out.insert(j, entry);
        proof {
            assert(out@ == before.insert(j as int, entry));
            assert forall|i: int| 0 <= i < k + 1 implies #[trigger] candidate_ok(out@[i], iv)
                && out@[i].ordinal < k + 1 by {
                if i < j {
                    assert(out@[i] == before[i]);
                } else if i > j {
                    assert(out@[i] == before[i - 1]);
                }
            }
            assert forall|a: int, b: int| 0 <= a < b < k + 1 implies (#[trigger] out@[a]).ordinal
                != (#[trigger] out@[b]).ordinal && ranks_before(
                (out@[a].size, out@[a].name@),
                out@[a].ordinal as int,
                (out@[b].size, out@[b].name@),
                out@[b].ordinal as int,
            ) by {
                let pa = if a < j {
                    a
                } else {
                    a - 1
                };
                let pb = if b < j {
                    b
                } else {
                    b - 1
                };
                if a != j && b != j {
                    assert(out@[a] == before[pa]);
                    assert(out@[b] == before[pb]);
                } else if b == j {
                    assert(out@[a] == before[a]);
                } else {
                    assert(out@[b] == before[pb]);
                    assert(size > before[j as int].size);
                    if pb > j {
                        assert(ranks_before(
                            (before[j as int].size, before[j as int].name@),
                            before[j as int].ordinal as int,
                            (before[pb].size, before[pb].name@),
                            before[pb].ordinal as int,
                        ));
                    }
                }
            }
        }
        k = k + 1;
    }
    let ghost sorted = out@;
    let ghost perm = sorted.map_values(|c: Candidate| c.ordinal as int);
    let mut r: Vec<(u64, String)> = Vec::new();
    let mut i: usize = 0;
    while i < out.len()
        invariant
            out@ == sorted,
            sorted.len() == n,
            i <= n,
            r@.len() == i,
            forall|a: int| 0 <= a < i ==> (#[trigger] r@[a]).0 == sorted[a].size && r@[a].1@
                == sorted[a].name@,
        decreases n - i,
    {
        r.push((out[i].size, out[i].name.clone()));
        i = i + 1;
    }
    proof {
        assert(crate::files::is_rearrangement(perm, iv.len())) by {
            assert forall|a: int, b: int|
                0 <= a < perm.len() && 0 <= b < perm.len() && a != b implies perm[a]
                != perm[b] by {
                if a < b {
                    assert(sorted[a].ordinal != sorted[b].ordinal);
                } else {
                    assert(sorted[b].ordinal != sorted[a].ordinal);
                }
            }
            assert forall|a: int| 0 <= a < n implies 0 <= #[trigger] perm[a] < n by {
                assert(sorted[a].ordinal < n);
            }
        }
        let rv = ranking_views(r@);
        assert forall|a: int| 0 <= a < rv.len() implies #[trigger] rv[a] == iv[perm[a]] by {
            assert(candidate_ok(sorted[a], iv));
        }
        assert forall|a: int, b: int| 0 <= a < b < rv.len() implies ranks_before(
            #[trigger] rv[a],
            perm[a],
            #[trigger] rv[b],
            perm[b],
        ) by {
            assert(ranks_before(
                (sorted[a].size, sorted[a].name@),
                sorted[a].ordinal as int,
                (sorted[b].size, sorted[b].name@),
                sorted[b].ordinal as int,
            ));
        }
    }
    r
}

/// The `n` largest functions described by `events`, as `(size, name)`
/// pairs sorted by descending size, equal sizes in module order.
///
/// The first parse failure is reported as [`WasmCheckError::WasmParse`]. A
/// module without function bodies ranks nothing.
pub fn rank_functions(events: &[WasmEvent], n: usize) -> (r: Result<Vec<(u64, String)>, WasmCheckError>)
    requires
        events_fit(event_views(events@)),
    ensures
        ranks(event_views(events@), n, r),
{
    let ghost ev = event_views(events@);
    if let Some(m) = failure_message(events) {
        return Err(WasmCheckError::WasmParse(m));
    }
    let imported = count_imports(events);
    let ranges = body_ranges(events);
    let ghost want = functions_of(ev);
    let mut items: Vec<(u64, String)> = Vec::new();
    let mut k: usize = 0;
    while k < ranges.len()
        invariant
            k <= ranges@.len(),
            ev == event_views(events@),
            ranges@ == bodies(ev),
            imported == function_imports(ev),
            events_fit(ev),
            want == functions_of(ev),
            ranking_views(items@) == want.take(k as int),
        decreases ranges@.len() - k,
    {
        let (start, end) = ranges[k];
        assert(bodies(ev)[k as int] == (start, end));
        let size = end - start;
        let name = function_name(events, imported + k as u64);
        let ghost prior = items@;
        assert(ranking_views(prior).len() == prior.len());
        items.push((size, name));
        assert(items@ == prior.push((size, name)));
        assert(ranking_views(items@) =~= want.take(k + 1)) by {
            let now = ranking_views(items@);
            let was = ranking_views(prior);
            assert forall|j: int| 0 <= j < prior.len() implies #[trigger] now[j] == was[j] by {
                assert(items@[j] == prior[j]);
            }
            assert(now[k as int] == ranked_item(ev, k as int));
        }
        k = k + 1;
    }
    assert(want.take(k as int) =~= want);
    let mut sorted = sort_by_size(items);
    let ghost full = ranking_views(sorted@);
    assert(sorted_by_size(want, full));
    if n < sorted.len() {
        sorted.truncate(n);
    }
    assert(ranking_views(sorted@) =~= full.take(if n < full.len() {
        n as int
    } else {
        full.len() as int
    }));
    Ok(sorted)
}

/// Whether the body ranges of `events` are in order and its function
/// indices fit a `u32`.
pub fn events_in_range(events: &[WasmEvent]) -> (r: bool)
    ensures
        r == events_fit(event_views(events@)),
{
    let ghost ev = event_views(events@);
    let mut imports: u64 = 0;
    let mut count: u64 = 0;
    let mut ordered = true;
    let mut i: usize = 0;
    assert(ev.take(0) =~= Seq::<EventView>::empty());
    while i < events.len()
        invariant
            i <= events@.len(),
            ev == event_views(events@),
            imports == function_imports(ev.take(i as int)),
            count == bodies(ev.take(i as int)).len(),
            imports + count <= i,
            ordered == forall|k: int|
                0 <= k < bodies(ev.take(i as int)).len() ==> (#[trigger] bodies(
                    ev.take(i as int),
                )[k]).0 <= bodies(ev.take(i as int))[k].1,
        decreases events@.len() - i,
    {
        let ghost pre = ev.take(i as int);
        assert(ev.take(i + 1).drop_last() =~= pre);
        assert(ev.take(i + 1).last() == events@[i as int]@);
        match &events[i] {
            WasmEvent::Import(true) => {
                imports = imports + 1;
            },
            WasmEvent::Body(s, e) => {
                count = count + 1;
                if *s > *e {
                    ordered = false;
                }
                let ghost post = bodies(ev.take(i + 1));
                assert(post =~= bodies(pre).push((*s, *e)));
                proof {
                    let bp = bodies(pre);
                    if ordered {
                        assert forall|k: int| 0 <= k < post.len() implies (#[trigger] post[k]).0
                            <= post[k].1 by {
                            if k < bp.len() {
                                assert(post[k] == bp[k]);
                            }
                        }
                    } else {
                        if *s > *e {
                            assert(post[post.len() - 1] == (*s, *e));
                        } else {
                            let k = choose|k: int| 0 <= k < bp.len() && !((#[trigger] bp[k]).0
                                <= bp[k].1);
                            assert(post[k] == bp[k]);
                        }
                    }
                }
            },
            _ => {},
        }
        proof {
            if !(events@[i as int] is Body) {
                assert(bodies(ev.take(i + 1)) =~= bodies(pre));
            }
        }
        i = i + 1;
    }
    assert(ev.take(i as int) =~= ev);
    ordered && imports < 0x1_0000_0000 && count <= 0x1_0000_0000 - imports
}

/// Appends `more` to `out`.
fn append_events(out: &mut Vec<WasmEvent>, more: Vec<WasmEvent>)
    ensures
        event_views(final(out)@) == event_views(old(out)@) + event_views(more@),
{
    let ghost start = event_views(out@);
    let ghost add = event_views(more@);
    let mut rest = more;
    let ghost n = rest@.len();
    assert(add.take(0) =~= Seq::<EventView>::empty());
    while rest.len() > 0
        invariant
            n == add.len(),
            rest@.len() <= n,
            event_views(rest@) == add.skip(n - rest@.len()),
            event_views(out@) == start + add.take(n - rest@.len()),
        decreases rest@.len(),
    {
        let ghost k = n - rest@.len();
        let ghost whole = rest@;
        let x = rest.remove(0);
        assert(x@ == add[k]) by {
            assert(event_views(whole)[0] == whole[0]@);
        }
        assert(event_views(rest@) =~= add.skip(k + 1)) by {
            assert forall|j: int| 0 <= j < rest@.len() implies event_views(rest@)[j] == add.skip(
                k + 1,
            )[j] by {
                assert(rest@[j] == whole[j + 1]);
                assert(event_views(whole)[j + 1] == whole[j + 1]@);
            }
        }
        let ghost prior = out@;
        assert(event_views(prior).len() == prior.len());
        out.push(x);
        assert(out@ == prior.push(x));
        let ghost now = event_views(out@);
        let ghost was = event_views(prior);
        assert forall|j: int| 0 <= j < prior.len() implies #[trigger] now[j] == was[j] by {
            assert(out@[j] == prior[j]);
        }
        assert(now =~= start + add.take(k + 1));
    }
    assert(add.take(n as int) =~= add);
}

/// Pushes one event onto `out`.
fn push_event(out: &mut Vec<WasmEvent>, x: WasmEvent)
    ensures
        event_views(final(out)@) == event_views(old(out)@).push(x@),
{
    let ghost prior = out@;
    assert(event_views(prior).len() == prior.len());
    out.push(x);
    assert(out@ == prior.push(x));
    let ghost now = event_views(out@);
    let ghost was = event_views(prior);
    assert forall|j: int| 0 <= j < prior.len() implies #[trigger] now[j] == was[j] by {
        assert(out@[j] == prior[j]);
    }
    assert(now =~= was.push(x@));
}

/// The events of the import section at `start..end` of `data`.
fn import_events_at(data: &[u8], start: u64, end: u64) -> (r: Vec<WasmEvent>)
    requires
        within(data@, start, end),
    ensures
        event_views(r@) == import_events(wasm_import_list(data@, start, end)),
{
    let list = wasm_imports(data, start, end);
    let ghost lv = list@.map_values(|x: Result<bool, String>| result_view(x));
    let ghost want = import_events(lv);
    let mut out: Vec<WasmEvent> = Vec::new();
    let mut i: usize = 0;
    assert(want.take(0) =~= Seq::<EventView>::empty());
    while i < list.len()
        invariant
            i <= list@.len(),
            lv == list@.map_values(|x: Result<bool, String>| result_view(x)),
            want == import_events(lv),
            event_views(out@) == want.take(i as int),
        decreases list@.len() - i,
    {
        assert(lv[i as int] == result_view(list@[i as int]));
        let ev = match &list[i] {
            Ok(f) => WasmEvent::Import(*f),
            Err(m) => WasmEvent::Failure(m.clone()),
        };
        assert(ev@ == want[i as int]);
        push_event(&mut out, ev);
        assert(event_views(out@) =~= want.take(i + 1));
        i = i + 1;
    }
    assert(want.take(i as int) =~= want);
    out
}

/// The function names among `list`, skipping errors.
fn naming_events_of(list: &[Naming]) -> (r: Vec<WasmEvent>)
    ensures
        event_views(r@) == naming_events(list@.map_values(|n: Naming| naming_view(n))),
{
    let ghost lv = list@.map_values(|n: Naming| naming_view(n));
    let mut out: Vec<WasmEvent> = Vec::new();
    let mut i: usize = 0;
    assert(lv.take(0) =~= Seq::<NamingView>::empty());
    while i < list.len()
        invariant
            i <= list@.len(),
            lv == list@.map_values(|n: Naming| naming_view(n)),
            event_views(out@) == naming_events(lv.take(i as int)),
        decreases list@.len() - i,
    {
        assert(lv.take(i + 1).drop_last() =~= lv.take(i as int));
        assert(lv.take(i + 1).last() == naming_view(list@[i as int]));
        match &list[i] {
            Ok((index, name)) => {
                push_event(&mut out, WasmEvent::FunctionName(*index, name.clone()));
                assert(event_views(out@) =~= naming_events(lv.take(i + 1)));
            },
            Err(_) => {
                assert(event_views(out@) =~= naming_events(lv.take(i + 1)));
            },
        }
        i = i + 1;
    }
    assert(lv.take(i as int) =~= lv);
    out
}

/// The events of the name section at `start..end` of `data`.
fn name_events_at(data: &[u8], start: u64, end: u64) -> (r: Vec<WasmEvent>)
    requires
        within(data@, start, end),
    ensures
        event_views(r@) == subsection_events(wasm_name_subsection_list(data@, start, end)),
{
    let subs = wasm_name_subsections(data, start, end);
    let ghost sv = subs@.map_values(|x: Result<Option<Vec<Naming>>, String>| subsection_view(x));
    let mut out: Vec<WasmEvent> = Vec::new();
    let mut i: usize = 0;
    assert(sv.take(0) =~= Seq::<Result<Option<Seq<NamingView>>, Seq<char>>>::empty());
    while i < subs.len()
        invariant
            i <= subs@.len(),
            sv == subs@.map_values(|x: Result<Option<Vec<Naming>>, String>| subsection_view(x)),
            event_views(out@) == subsection_events(sv.take(i as int)),
        decreases subs@.len() - i,
    {
        assert(sv.take(i + 1).drop_last() =~= sv.take(i as int));
        assert(sv.take(i + 1).last() == subsection_view(subs@[i as int]));
        match &subs[i] {
            Ok(Some(names)) => {
                let more = naming_events_of(names.as_slice());
                append_events(&mut out, more);
            },
            Ok(None) => {
                assert(event_views(out@) + Seq::<EventView>::empty() =~= event_views(out@));
            },
            Err(m) => {
                push_event(&mut out, WasmEvent::Failure(m.clone()));
                assert(seq![EventView::Failure(m@)] =~= Seq::<EventView>::empty().push(
                    EventView::Failure(m@),
                ));
            },
        }
        assert(event_views(out@) =~= subsection_events(sv.take(i + 1)));
        i = i + 1;
    }
    assert(sv.take(i as int) =~= sv);
    out
}

/// Once a prefix has no events, no longer prefix has any.
proof fn lemma_events_none(data: Seq<u8>, secs: Seq<SectionView>, k: int)
    requires
        0 <= k <= secs.len(),
        events_from(data, secs.take(k)) is None,
    ensures
        events_from(data, secs) is None,
    decreases secs.len() - k,
{
    if k < secs.len() {
        assert(secs.take(k + 1).drop_last() =~= secs.take(k));
        lemma_events_none(data, secs, k + 1);
    } else {
        assert(secs.take(k) =~= secs);
    }
}

/// The events of the module `data`; `None` when the parser reports a range
/// outside `data`.
fn module_events(data: &[u8]) -> (r: Option<Vec<WasmEvent>>)
    ensures
        match module_events_of(data@) {
            Some(ev) => r matches Some(v) && event_views(v@) == ev,
            None => r is None,
        },
{
    let secs = wasm_sections(data);
    let ghost sv = section_views(secs@);
    let mut out: Vec<WasmEvent> = Vec::new();
    let mut i: usize = 0;
    assert(sv.take(0) =~= Seq::<SectionView>::empty());
    while i < secs.len()
        invariant
            i <= secs@.len(),
            sv == section_views(secs@),
            sv == wasm_section_list(data@),
            events_from(data@, sv.take(i as int)) == Some(event_views(out@)),
        decreases secs@.len() - i,
    {
        assert(sv.take(i + 1).drop_last() =~= sv.take(i as int));
        assert(sv.take(i + 1).last() == secs@[i as int]@);
        match &secs[i] {
            SectionRef::Imports(s, e) => {
                if !(*s <= *e && *e <= data.len() as u64) {
                    proof {
                        lemma_events_none(data@, sv, i + 1);
                    }
                    return None;
                }
                let more = import_events_at(data, *s, *e);
                append_events(&mut out, more);
            },
            SectionRef::Body(s, e) => {
                push_event(&mut out, WasmEvent::Body(*s, *e));
                assert(seq![EventView::Body(*s, *e)] =~= Seq::<EventView>::empty().push(
                    EventView::Body(*s, *e),
                ));
            },
            SectionRef::Names(s, e) => {
                if !(*s <= *e && *e <= data.len() as u64) {
                    proof {
                        lemma_events_none(data@, sv, i + 1);
                    }
                    return None;
                }
                let more = name_events_at(data, *s, *e);
                append_events(&mut out, more);
            },
            SectionRef::Other => {
                assert(event_views(out@) + Seq::<EventView>::empty() =~= event_views(out@));
            },
            SectionRef::Failure(m) => {
                push_event(&mut out, WasmEvent::Failure(m.clone()));
            },
        }
        assert(events_from(data@, sv.take(i + 1)) == Some(event_views(out@)));
        i = i + 1;
    }
    assert(sv.take(i as int) =~= sv);
    Some(out)
}

/// The `n` largest functions of the wasm module `data`, as `(size, name)`
/// pairs sorted by descending size, equal sizes in module order.
///
/// Sizes come from each function body's byte range; names come from the
/// name section, the function index space counting imported functions
/// first. Functions without a name are reported as `func_<index>`. A parse
/// failure is [`WasmCheckError::WasmParse`]. `None` when the parser reports
/// a range outside `data` or out of order, or more functions than a `u32`
/// index can number, which no module the parser accepts has.
pub fn top_functions(data: &[u8], n: usize) -> (r: Option<Result<Vec<(u64, String)>, WasmCheckError>>)
    ensures
        match module_events_of(data@) {
            Some(ev) => if events_fit(ev) {
                r matches Some(res) && ranks(ev, n, res)
            } else {
                r is None
            },
            None => r is None,
        },
{
    let events = match module_events(data) {
        Some(ev) => ev,
        None => {
            return None;
        },
    };
    if !events_in_range(events.as_slice()) {
        return None;
    }
    Some(rank_functions(events.as_slice(), n))
}

} // verus!
