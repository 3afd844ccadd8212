//! The gates a run applies, and the verdicts, statuses and messages it
//! reports.

use vstd::prelude::*;

use crate::error::WasmCheckError;
use crate::limits::{exceeded_budget, exceeded_growth, lemma_metrics_where, Budget, MaxDelta};
use crate::metric::{metric_name, Metric};
use crate::size::{delta_str, delta_text, format_size, human_size, report_value, SizeReport};
use crate::text::{push_str, string_from_chars};
use crate::threshold::threshold_text;

verus! {

/// The gates in force for a run.
#[derive(Debug, Clone, Copy)]
pub struct Gates {
    /// Absolute caps.
    pub budget: Option<Budget>,
    /// Tolerated growth over the baseline.
    pub max_delta: Option<MaxDelta>,
    /// Whether a file without a baseline entry fails.
    pub strict: bool,
}

impl Gates {
    /// At least one gate is configured, so the run can fail.
    pub open spec fn is_enabled(self) -> bool {
        self.budget is Some || self.max_delta is Some || self.strict
    }

    /// `true` when at least one gate is configured, i.e. the run can fail.
    pub fn enabled(&self) -> (r: bool)
        ensures
            r == self.is_enabled(),
    {
        self.budget.is_some() || self.max_delta.is_some() || self.strict
    }
}

/// What the gates decided about one measured file.
#[derive(Debug)]
pub struct Verdict {
    /// The metrics over their budget, in reporting order.
    pub exceeded: Vec<Metric>,
    /// The metrics grown past their allowance, in reporting order.
    pub delta_exceeded: Vec<Metric>,
    /// Strict mode is on and the file has no baseline to compare.
    pub missing_baseline: bool,
}

/// The file failed at least one gate.
pub open spec fn verdict_failed(v: Verdict) -> bool {
    v.exceeded@.len() > 0 || v.delta_exceeded@.len() > 0 || v.missing_baseline
}

impl Verdict {
    /// `true` when the file failed at least one gate.
    pub fn failed(&self) -> (r: bool)
        ensures
            r == verdict_failed(*self),
    {
        self.exceeded.len() > 0 || self.delta_exceeded.len() > 0 || self.missing_baseline
    }
}

/// The report an optional reference points at.
pub open spec fn opt_report(r: Option<&SizeReport>) -> Option<SizeReport> {
    match r {
        Some(x) => Some(*x),
        None => None,
    }
}

/// The metrics over budget under `gates`: none without a budget.
pub open spec fn budget_failures(gates: Gates, report: SizeReport) -> Seq<Metric> {
    match gates.budget {
        Some(b) => exceeded_budget(b, report),
        None => Seq::empty(),
    }
}

/// The metrics grown too much under `gates`: none without an allowance, and
/// none without a baseline to compare against.
pub open spec fn growth_failures(gates: Gates, report: SizeReport, baseline: Option<SizeReport>) -> Seq<
    Metric,
> {
    match (gates.max_delta, baseline) {
        (Some(m), Some(b)) => exceeded_growth(m, report, b),
        _ => Seq::empty(),
    }
}

/// Applies `gates` to `report`, measured against `baseline` when there is
/// one.
///
/// Without a recorded baseline there is nothing to compare against, so
/// `max_delta` cannot fail the file; strict mode is what gates that case.
pub fn evaluate(gates: &Gates, report: &SizeReport, baseline: Option<&SizeReport>) -> (r: Verdict)
    ensures
        r.exceeded@ == budget_failures(*gates, *report),
        r.delta_exceeded@ == growth_failures(*gates, *report, opt_report(baseline)),
        r.missing_baseline == (gates.strict && baseline is None),
{
    let exceeded = match &gates.budget {
        Some(budget) => budget.exceeded_metrics(report),
        None => Vec::new(),
    };
    let delta_exceeded = match (&gates.max_delta, baseline) {
        (Some(max_delta), Some(base)) => max_delta.exceeded_delta(report, base),
        _ => Vec::new(),
    };
    assert(exceeded@ =~= budget_failures(*gates, *report));
    assert(delta_exceeded@ =~= growth_failures(*gates, *report, opt_report(baseline)));
    Verdict { exceeded, delta_exceeded, missing_baseline: gates.strict && baseline.is_none() }
}

/// A verdict as reported: passed, failed, or not checked at all because no
/// gate is configured.
#[derive(Debug, Clone, Copy, PartialEq, Eq, Structural)]
pub enum Status {
    Pass,
    Fail,
    Unchecked,
}

/// How a status is spelled in JSON output.
pub open spec fn status_text(s: Status) -> Seq<char> {
    match s {
        Status::Pass => "pass"@,
        Status::Fail => "fail"@,
        Status::Unchecked => "unchecked"@,
    }
}

impl Status {
    /// `"pass"`, `"fail"` or `"unchecked"`.
    pub fn as_str(self) -> (r: &'static str)
        ensures
            r@ == status_text(self),
    {
        proof {
            reveal_strlit("pass");
            reveal_strlit("fail");
            reveal_strlit("unchecked");
        }
        match self {
            Status::Pass => "pass",
            Status::Fail => "fail",
            Status::Unchecked => "unchecked",
        }
    }
}

/// The status of one file: unchecked when no gate is configured, else
/// failed or passed.
pub open spec fn file_status_of(failed: bool, enabled: bool) -> Status {
    if !enabled {
        Status::Unchecked
    } else if failed {
        Status::Fail
    } else {
        Status::Pass
    }
}

/// The status of one file.
pub fn file_status(verdict: &Verdict, gates: &Gates) -> (r: Status)
    ensures
        r == file_status_of(verdict_failed(*verdict), gates.is_enabled()),
{
    if !gates.enabled() {
        Status::Unchecked
    } else if verdict.failed() {
        Status::Fail
    } else {
        Status::Pass
    }
}

/// Whether each verdict failed.
pub open spec fn failures(verdicts: Seq<Verdict>) -> Seq<bool> {
    verdicts.map_values(|v: Verdict| verdict_failed(v))
}

/// The status of a whole run: failed when one file failed, else passed when
/// a gate is configured, else unchecked.
pub open spec fn run_status_of(failed: Seq<bool>, enabled: bool) -> Status {
    if enabled && failed.contains(true) {
        Status::Fail
    } else if enabled {
        Status::Pass
    } else {
        Status::Unchecked
    }
}

/// The status of a whole run.
pub fn run_status(verdicts: &[Verdict], gates: &Gates) -> (r: Status)
    ensures
        r == run_status_of(failures(verdicts@), gates.is_enabled()),
{
    let enabled = gates.enabled();
    let ghost f = failures(verdicts@);
    let mut i: usize = 0;
    while i < verdicts.len()
        invariant
            i <= verdicts@.len(),
            f == failures(verdicts@),
            enabled == gates.is_enabled(),
            enabled ==> forall|j: int| 0 <= j < i ==> !(#[trigger] f[j]),
        decreases verdicts@.len() - i,
    {
        if enabled && verdicts[i].failed() {
            assert(f[i as int]);
            return Status::Fail;
        }
        if enabled {
            assert(!f[i as int]);
        }
        i = i + 1;
    }
    proof {
        if enabled && f.contains(true) {
            let j = choose|j: int| 0 <= j < f.len() && f[j] == true;
            assert(!f[j]);
        }
    }
    if enabled {
        Status::Pass
    } else {
        Status::Unchecked
    }
}

/// The error a run ends with when at least one file failed its gates.
pub open spec fn gate_failure_message() -> Seq<char> {
    "one or more files failed their size gate"@
}

/// Ends a run: [`WasmCheckError::BudgetExceeded`] when any file failed a
/// gate, else success.
pub fn conclude(verdicts: &[Verdict]) -> (r: Result<(), WasmCheckError>)
    ensures
        failures(verdicts@).contains(true) ==> (r matches Err(WasmCheckError::BudgetExceeded(m))
            && m@ == gate_failure_message()),
        !failures(verdicts@).contains(true) ==> r is Ok,
{
    let ghost f = failures(verdicts@);
    let mut i: usize = 0;
    while i < verdicts.len()
        invariant
            i <= verdicts@.len(),
            f == failures(verdicts@),
            forall|j: int| 0 <= j < i ==> !(#[trigger] f[j]),
        decreases verdicts@.len() - i,
    {
        if verdicts[i].failed() {
            assert(f[i as int]);
            proof {
                reveal_strlit("one or more files failed their size gate");
            }
            return Err(WasmCheckError::BudgetExceeded("one or more files failed their size gate".to_owned()));
        }
        assert(!f[i as int]);
        i = i + 1;
    }
    proof {
        if f.contains(true) {
            let j = choose|j: int| 0 <= j < f.len() && f[j] == true;
            assert(!f[j]);
        }
    }
    Ok(())
}

// ---------------------------------------------------------------------------
// Laws
// ---------------------------------------------------------------------------

/// A run with no budget, no `max_delta` and no strict mode gates nothing:
/// no file can fail it.
pub proof fn law_ungated_run_never_fails(
    gates: Gates,
    report: SizeReport,
    baseline: Option<SizeReport>,
)
    requires
        !gates.is_enabled(),
    ensures
        budget_failures(gates, report).len() == 0,
        growth_failures(gates, report, baseline).len() == 0,
        !(gates.strict && baseline is None),
{
}

/// A file with no baseline entry is never failed by `max_delta`; in strict
/// mode it fails for want of a baseline instead.
pub proof fn law_missing_baseline(gates: Gates, report: SizeReport)
    ensures
        growth_failures(gates, report, None).len() == 0,
        gates.strict ==> (gates.strict && None::<SizeReport> is None),
{
}

/// A file fails exactly when one of its metrics is over budget, one grew past
/// its allowance over a recorded baseline, or strict mode finds no baseline.
pub proof fn law_file_fails_iff(gates: Gates, report: SizeReport, baseline: Option<SizeReport>)
    ensures
        (budget_failures(gates, report).len() > 0 || growth_failures(gates, report, baseline).len()
            > 0 || (gates.strict && baseline is None)) <==> ((gates.budget matches Some(b) && exists|
            m: Metric,
        | #[trigger] exceeded_budget(b, report).contains(m)) || (gates.max_delta matches Some(md)
            && baseline matches Some(base) && exists|m: Metric| #[trigger] exceeded_growth(
            md,
            report,
            base,
        ).contains(m)) || (gates.strict && baseline is None)),
{
    if let Some(b) = gates.budget {
        let s = exceeded_budget(b, report);
        if s.len() > 0 {
            assert(s.contains(s[0]));
        }
    }
    if let (Some(md), Some(base)) = (gates.max_delta, baseline) {
        let s = exceeded_growth(md, report, base);
        if s.len() > 0 {
            assert(s.contains(s[0]));
        }
    }
}

/// A verdict counts as failed exactly when a metric is over budget, a metric
/// grew past its allowance, or strict mode found no baseline; with a gate
/// configured its status is then `Fail`, else `Pass`.
pub proof fn law_verdict_fails_iff(v: Verdict, enabled: bool)
    ensures
        verdict_failed(v) <==> (v.exceeded@.len() > 0 || v.delta_exceeded@.len() > 0
            || v.missing_baseline),
        enabled ==> (file_status_of(verdict_failed(v), enabled) == Status::Fail <==> (
        v.exceeded@.len() > 0 || v.delta_exceeded@.len() > 0 || v.missing_baseline)),
        enabled ==> (file_status_of(verdict_failed(v), enabled) == Status::Pass <==> !(
        v.exceeded@.len() > 0 || v.delta_exceeded@.len() > 0 || v.missing_baseline)),
{
}

/// A run fails — `conclude` reports `BudgetExceeded`, and with a gate
/// configured the run's status is `Fail` — exactly when some verdict lists a
/// metric over budget, lists a metric grown past its allowance, or misses a
/// baseline in strict mode.
pub proof fn law_run_fails_iff(verdicts: Seq<Verdict>, enabled: bool)
    ensures
        failures(verdicts).contains(true) <==> exists|i: int|
            0 <= i < verdicts.len() && ((#[trigger] verdicts[i]).exceeded@.len() > 0
                || verdicts[i].delta_exceeded@.len() > 0 || verdicts[i].missing_baseline),
        enabled ==> (run_status_of(failures(verdicts), enabled) == Status::Fail <==> exists|i: int|
            0 <= i < verdicts.len() && ((#[trigger] verdicts[i]).exceeded@.len() > 0
                || verdicts[i].delta_exceeded@.len() > 0 || verdicts[i].missing_baseline)),
{
    let f = failures(verdicts);
    if f.contains(true) {
        let i = choose|i: int| 0 <= i < f.len() && f[i] == true;
        assert(verdict_failed(verdicts[i]));
    }
    if exists|i: int|
        0 <= i < verdicts.len() && ((#[trigger] verdicts[i]).exceeded@.len() > 0
            || verdicts[i].delta_exceeded@.len() > 0 || verdicts[i].missing_baseline) {
        let i = choose|i: int|
            0 <= i < verdicts.len() && ((#[trigger] verdicts[i]).exceeded@.len() > 0
                || verdicts[i].delta_exceeded@.len() > 0 || verdicts[i].missing_baseline);
        assert(f[i] == verdict_failed(verdicts[i]));
        assert(f.contains(true));
    }
}

/// The verdict `evaluate` gives fails exactly when some metric is strictly
/// over its budget, or some metric grew strictly past what `max_delta`
/// allows over a recorded baseline's value, or strict mode finds no
/// baseline.
pub proof fn law_evaluated_verdict_fails_iff(
    gates: Gates,
    report: SizeReport,
    baseline: Option<SizeReport>,
    v: Verdict,
)
    requires
        v.exceeded@ == budget_failures(gates, report),
        v.delta_exceeded@ == growth_failures(gates, report, baseline),
        v.missing_baseline == (gates.strict && baseline is None),
    ensures
        verdict_failed(v) <==> ((gates.budget matches Some(b) && exists|m: Metric|
            #[trigger] b.limit_of(m) matches Some(limit) && report_value(report, m) > limit@) || (
        gates.max_delta matches Some(md) && baseline matches Some(base) && exists|m: Metric|
            #[trigger] md.limit_of(m) matches Some(t) && report_value(report, m)
                > crate::threshold::threshold_allowed(t, report_value(base, m))) || (gates.strict
            && baseline is None)),
{
    if let Some(b) = gates.budget {
        crate::limits::law_budget_gate(b, report, Metric::Raw);
        let s = exceeded_budget(b, report);
        assert forall|m: Metric| #[trigger] s.contains(m) <==> (b.limit_of(m) matches Some(limit)
            && report_value(report, m) > limit@) by {
            crate::limits::law_budget_gate(b, report, m);
        }
        if s.len() > 0 {
            assert(s.contains(s[0]));
        }
        if exists|m: Metric| #[trigger] b.limit_of(m) matches Some(limit) && report_value(report, m)
            > limit@ {
            let m = choose|m: Metric| #[trigger] b.limit_of(m) matches Some(limit) && report_value(
                report,
                m,
            ) > limit@;
            assert(s.contains(m));
        }
    }
    if let (Some(md), Some(base)) = (gates.max_delta, baseline) {
        let s = exceeded_growth(md, report, base);
        assert forall|m: Metric| #[trigger] s.contains(m) <==> (md.limit_of(m) matches Some(t)
            && report_value(report, m) > crate::threshold::threshold_allowed(
            t,
            report_value(base, m),
        )) by {
            crate::limits::law_growth_gate(md, report, base, m);
        }
        if s.len() > 0 {
            assert(s.contains(s[0]));
        }
        if exists|m: Metric| #[trigger] md.limit_of(m) matches Some(t) && report_value(report, m)
            > crate::threshold::threshold_allowed(t, report_value(base, m)) {
            let m = choose|m: Metric| #[trigger] md.limit_of(m) matches Some(t) && report_value(
                report,
                m,
            ) > crate::threshold::threshold_allowed(t, report_value(base, m));
            assert(s.contains(m));
        }
    }
}

/// The run fails exactly when a gate is configured and some file failed;
/// with no gate configured it is unchecked.
pub proof fn law_run_status(failed: Seq<bool>, enabled: bool)
    ensures
        (run_status_of(failed, enabled) == Status::Fail) <==> (enabled && failed.contains(true)),
        (run_status_of(failed, enabled) == Status::Unchecked) <==> !enabled,
{
}

// ---------------------------------------------------------------------------
// Messages
// ---------------------------------------------------------------------------

/// `parts` with `sep` between each two.
pub open spec fn joined(parts: Seq<Seq<char>>, sep: Seq<char>) -> Seq<char>
    decreases parts.len(),
{
    if parts.len() == 0 {
        Seq::empty()
    } else if parts.len() == 1 {
        parts[0]
    } else {
        joined(parts.drop_last(), sep) + sep + parts.last()
    }
}

/// Joins `parts` with `sep` between each two.
pub fn join_with(parts: &[Vec<char>], sep: &str) -> (r: Vec<char>)
    ensures
        r@ == joined(parts@.map_values(|p: Vec<char>| p@), sep@),
{
    let ghost views = parts@.map_values(|p: Vec<char>| p@);
    let mut out: Vec<char> = Vec::new();
    let mut i: usize = 0;
    assert(views.take(0) =~= Seq::<Seq<char>>::empty());
    while i < parts.len()
        invariant
            i <= parts@.len(),
            views == parts@.map_values(|p: Vec<char>| p@),
            out@ == joined(views.take(i as int), sep@),
        decreases parts@.len() - i,
    {
        assert(views.take(i + 1).drop_last() =~= views.take(i as int));
        assert(views.take(i + 1).last() == parts@[i as int]@);
        if i > 0 {
            push_str(&mut out, sep);
        } else {
            assert(views.take(i as int).len() == 0);
        }
        crate::text::push_all(&mut out, parts[i].as_slice());
        if i == 0 {
            assert(out@ =~= views.take(1)[0]);
        }
        i = i + 1;
    }
    assert(views.take(i as int) =~= views);
    out
}

/// The names of `metrics`.
pub open spec fn metric_names(metrics: Seq<Metric>) -> Seq<Seq<char>> {
    metrics.map_values(|m: Metric| metric_name(m))
}

/// The names of `metrics`, comma-separated: `"raw, gzip"`.
pub open spec fn metric_list_text(metrics: Seq<Metric>) -> Seq<char> {
    joined(metric_names(metrics), ", "@)
}

/// The names of `metrics`, comma-separated.
pub fn metric_list(metrics: &[Metric]) -> (r: String)
    ensures
        r@ == metric_list_text(metrics@),
{
    let mut names: Vec<Vec<char>> = Vec::new();
    let mut i: usize = 0;
    while i < metrics.len()
        invariant
            i <= metrics@.len(),
            names@.map_values(|p: Vec<char>| p@) == metric_names(metrics@.take(i as int)),
        decreases metrics@.len() - i,
    {
        let mut name: Vec<char> = Vec::new();
        push_str(&mut name, metrics[i].name());
        let ghost prior = names@;
        assert(prior.map_values(|p: Vec<char>| p@).len() == prior.len());
        assert(name@ =~= metric_name(metrics@[i as int]));
        names.push(name);
        assert(names@ == prior.push(name));
        let ghost now = names@.map_values(|p: Vec<char>| p@);
        let ghost was = prior.map_values(|p: Vec<char>| p@);
        assert forall|j: int| 0 <= j < prior.len() implies #[trigger] now[j] == was[j] by {
            assert(names@[j] == prior[j]);
        }
        assert(now[prior.len() as int] == name@);
        assert(names@.map_values(|p: Vec<char>| p@) =~= metric_names(metrics@.take(i + 1)));
        i = i + 1;
    }
    assert(metrics@.take(i as int) =~= metrics@);
    let out = join_with(names.as_slice(), ", ");
    string_from_chars(out.as_slice())
}

/// Why a file failed, one reason per failed kind of gate.
pub open spec fn reasons_of(v: Verdict) -> Seq<Seq<char>> {
    (if v.missing_baseline {
        seq!["no baseline recorded"@]
    } else {
        Seq::empty()
    }) + (if v.exceeded@.len() > 0 {
        seq!["over budget: "@ + metric_list_text(v.exceeded@)]
    } else {
        Seq::empty()
    }) + (if v.delta_exceeded@.len() > 0 {
        seq!["grows past max delta: "@ + metric_list_text(v.delta_exceeded@)]
    } else {
        Seq::empty()
    })
}

/// A human summary of why a file failed, e.g.
/// `over budget: gzip; grows past max delta: raw`.
pub fn failure_reasons(verdict: &Verdict) -> (r: String)
    ensures
        r@ == joined(reasons_of(*verdict), "; "@),
{
    let mut reasons: Vec<Vec<char>> = Vec::new();
    let ghost mut want: Seq<Seq<char>> = Seq::empty();
    if verdict.missing_baseline {
        let mut t: Vec<char> = Vec::new();
        push_str(&mut t, "no baseline recorded");
        reasons.push(t);
        proof {
            want = want.push("no baseline recorded"@);
        }
    }
    assert(reasons@.map_values(|p: Vec<char>| p@) =~= want);
    if verdict.exceeded.len() > 0 {
        let mut t: Vec<char> = Vec::new();
        push_str(&mut t, "over budget: ");
        let list = metric_list(verdict.exceeded.as_slice());
        push_str(&mut t, list.as_str());
        let ghost prior = reasons@;
        reasons.push(t);
        proof {
            want = want.push("over budget: "@ + metric_list_text(verdict.exceeded@));
        }
        assert(reasons@ == prior.push(t));
        assert(reasons@.map_values(|p: Vec<char>| p@) =~= want);
    }
    if verdict.delta_exceeded.len() > 0 {
        let mut t: Vec<char> = Vec::new();
        push_str(&mut t, "grows past max delta: ");
        let list = metric_list(verdict.delta_exceeded.as_slice());
        push_str(&mut t, list.as_str());
        let ghost prior = reasons@;
        reasons.push(t);
        proof {
            want = want.push("grows past max delta: "@ + metric_list_text(verdict.delta_exceeded@));
        }
        assert(reasons@ == prior.push(t));
        assert(reasons@.map_values(|p: Vec<char>| p@) =~= want);
    }
    assert(want =~= reasons_of(*verdict));
    let out = join_with(reasons.as_slice(), "; ");
    string_from_chars(out.as_slice())
}

/// How one character is written in a workflow command: `%`, carriage
/// returns and newlines always escaped; `:` and `,` escaped as well in a
/// property value.
pub open spec fn escaped_char(c: char, property: bool) -> Seq<char> {
    if c == '%' {
        "%25"@
    } else if c == '\r' {
        "%0D"@
    } else if c == '\n' {
        "%0A"@
    } else if property && c == ':' {
        "%3A"@
    } else if property && c == ',' {
        "%2C"@
    } else {
        seq![c]
    }
}

/// `s` with each character escaped.
pub open spec fn escaped(s: Seq<char>, property: bool) -> Seq<char>
    decreases s.len(),
{
    if s.len() == 0 {
        s
    } else {
        escaped(s.drop_last(), property) + escaped_char(s.last(), property)
    }
}

fn escape(value: &str, property: bool) -> (r: String)
    ensures
        r@ == escaped(value@, property),
{
    let chars = crate::text::chars_of(value);
    let mut out: Vec<char> = Vec::new();
    let mut i: usize = 0;
    assert(chars@.take(0) =~= Seq::<char>::empty());
    while i < chars.len()
        invariant
            i <= chars@.len(),
            chars@ == value@,
            out@ == escaped(chars@.take(i as int), property),
        decreases chars@.len() - i,
    {
        let c = chars[i];
        assert(chars@.take(i + 1).drop_last() =~= chars@.take(i as int));
        assert(chars@.take(i + 1).last() == c);
        if c == '%' {
            push_str(&mut out, "%25");
        } else if c == '\r' {
            push_str(&mut out, "%0D");
        } else if c == '\n' {
            push_str(&mut out, "%0A");
        } else if property && c == ':' {
            push_str(&mut out, "%3A");
        } else if property && c == ',' {
            push_str(&mut out, "%2C");
        } else {
            out.push(c);
        }
        i = i + 1;
    }
    assert(chars@.take(i as int) =~= chars@);
    string_from_chars(out.as_slice())
}

/// Escapes a workflow command message: `%`, carriage returns and newlines.
pub fn escape_data(value: &str) -> (r: String)
    ensures
        r@ == escaped(value@, false),
{
    escape(value, false)
}

/// Escapes a value used in the `key=value` part of a workflow command, where
/// `:` and `,` would otherwise end the value or the property list.
pub fn escape_property(value: &str) -> (r: String)
    ensures
        r@ == escaped(value@, true),
{
    escape(value, true)
}

/// A GitHub Actions error annotation on `file`.
pub open spec fn annotation(file: Seq<char>, message: Seq<char>) -> Seq<char> {
    "::error file="@ + file + ",title=wasmcheck::"@ + message
}

/// The message for `metric` over its budget: the measured size, and the
/// limit when there is one.
pub open spec fn budget_message(metric: Metric, report: SizeReport, gates: Gates) -> Seq<char> {
    metric_name(metric) + " over budget: "@ + human_size(report_value(report, metric)) + match gates.budget {
        Some(b) => match b.limit_of(metric) {
            Some(limit) => " > "@ + human_size(limit@),
            None => Seq::empty(),
        },
        None => Seq::empty(),
    }
}

/// The message for `metric` grown past its allowance: the growth over the
/// baseline (taken as zero when there is none) and the allowance, `?` when
/// there is none.
pub open spec fn growth_message(
    metric: Metric,
    report: SizeReport,
    baseline: Option<SizeReport>,
    gates: Gates,
) -> Seq<char> {
    let previous: u64 = match baseline {
        Some(b) => report_value(b, metric),
        None => 0,
    };
    metric_name(metric) + " grew past max delta: "@ + delta_text(report_value(report, metric), previous)
        + " > "@ + match gates.max_delta {
        Some(m) => match m.limit_of(metric) {
            Some(t) => threshold_text(t),
            None => "?"@,
        },
        None => "?"@,
    }
}

/// The annotations for one file: a missing baseline first, then each metric
/// over budget, then each metric grown too much.
pub open spec fn annotations_of(
    report: SizeReport,
    baseline: Option<SizeReport>,
    verdict: Verdict,
    gates: Gates,
) -> Seq<Seq<char>> {
    let file = escaped(report.file@, true);
    (if verdict.missing_baseline {
        seq![annotation(file, "no baseline recorded for this file"@)]
    } else {
        Seq::empty()
    }) + verdict.exceeded@.map_values(
        |m: Metric| annotation(file, escaped(budget_message(m, report, gates), false)),
    ) + verdict.delta_exceeded@.map_values(
        |m: Metric| annotation(file, escaped(growth_message(m, report, baseline, gates), false)),
    )
}

fn annotation_line(file: &str, message: &str) -> (r: String)
    ensures
        r@ == annotation(file@, message@),
{
    let mut out: Vec<char> = Vec::new();
    push_str(&mut out, "::error file=");
    push_str(&mut out, file);
    push_str(&mut out, ",title=wasmcheck::");
    push_str(&mut out, message);
    assert(out@ =~= annotation(file@, message@));
    string_from_chars(out.as_slice())
}

fn budget_line(file: &str, metric: Metric, report: &SizeReport, gates: &Gates) -> (r: String)
    ensures
        r@ == annotation(file@, escaped(budget_message(metric, *report, *gates), false)),
{
    let mut message: Vec<char> = Vec::new();
    push_str(&mut message, metric.name());
    push_str(&mut message, " over budget: ");
    let actual = format_size(metric.value(report));
    push_str(&mut message, actual.as_str());
    let ghost head = message@;
    match &gates.budget {
        Some(b) => match b.limit(metric) {
            Some(limit) => {
                push_str(&mut message, " > ");
                let shown = format_size(limit.bytes());
                push_str(&mut message, shown.as_str());
            },
            None => {},
        },
        None => {},
    }
    assert(message@ =~= budget_message(metric, *report, *gates));
    let text = string_from_chars(message.as_slice());
    let escaped_text = escape_data(text.as_str());
    annotation_line(file, escaped_text.as_str())
}

fn growth_line(
    file: &str,
    metric: Metric,
    report: &SizeReport,
    baseline: Option<&SizeReport>,
    gates: &Gates,
) -> (r: String)
    ensures
        r@ == annotation(
            file@,
            escaped(growth_message(metric, *report, opt_report(baseline), *gates), false),
        ),
{
    let previous: u64 = match baseline {
        Some(b) => metric.value(b),
        None => 0,
    };
    let mut message: Vec<char> = Vec::new();
    push_str(&mut message, metric.name());
    push_str(&mut message, " grew past max delta: ");
    let growth = delta_str(metric.value(report), previous);
    push_str(&mut message, growth.as_str());
    push_str(&mut message, " > ");
    match &gates.max_delta {
        Some(m) => match m.limit(metric) {
            Some(t) => {
                let shown = t.to_text();
                push_str(&mut message, shown.as_str());
            },
            None => {
                push_str(&mut message, "?");
            },
        },
        None => {
            push_str(&mut message, "?");
        },
    }
    assert(message@ =~= growth_message(metric, *report, opt_report(baseline), *gates));
    let text = string_from_chars(message.as_slice());
    let escaped_text = escape_data(text.as_str());
    annotation_line(file, escaped_text.as_str())
}

/// The GitHub Actions annotations for one file's failures, one line each.
/// A passing file gets none.
pub fn github_annotations(
    report: &SizeReport,
    baseline: Option<&SizeReport>,
    verdict: &Verdict,
    gates: &Gates,
) -> (r: Vec<String>)
    ensures
        r@.map_values(|s: String| s@) == annotations_of(
            *report,
            opt_report(baseline),
            *verdict,
            *gates,
        ),
{
    let file = escape_property(report.file.as_str());
    let ghost want = annotations_of(*report, opt_report(baseline), *verdict, *gates);
    let ghost first: Seq<Seq<char>> = if verdict.missing_baseline {
        seq![annotation(file@, "no baseline recorded for this file"@)]
    } else {
        Seq::empty()
    };
    let ghost over = verdict.exceeded@.map_values(
        |m: Metric| annotation(file@, escaped(budget_message(m, *report, *gates), false)),
    );
    let ghost grown = verdict.delta_exceeded@.map_values(
        |m: Metric|
            annotation(
                file@,
                escaped(growth_message(m, *report, opt_report(baseline), *gates), false),
            ),
    );
    let mut lines: Vec<String> = Vec::new();
    if verdict.missing_baseline {
        lines.push(annotation_line(file.as_str(), "no baseline recorded for this file"));
    }
    assert(lines@.map_values(|s: String| s@) =~= first);
    let mut i: usize = 0;
    while i < verdict.exceeded.len()
        invariant
            i <= verdict.exceeded@.len(),
            file@ == escaped(report.file@, true),
            over == verdict.exceeded@.map_values(
                |m: Metric| annotation(file@, escaped(budget_message(m, *report, *gates), false)),
            ),
            lines@.map_values(|s: String| s@) == first + over.take(i as int),
        decreases verdict.exceeded@.len() - i,
    {
        let line = budget_line(file.as_str(), verdict.exceeded[i], report, gates);
        let ghost prior = lines@;
        assert(prior.map_values(|s: String| s@).len() == prior.len());
        lines.push(line);
        assert(lines@ == prior.push(line));
        let ghost now = lines@.map_values(|s: String| s@);
        let ghost was = prior.map_values(|s: String| s@);
        assert forall|j: int| 0 <= j < prior.len() implies #[trigger] now[j] == was[j] by {
            assert(lines@[j] == prior[j]);
        }
        assert(now[prior.len() as int] == line@);
        assert(over[i as int] == line@);
        assert(lines@.map_values(|s: String| s@) =~= first + over.take(i + 1));
        i = i + 1;
    }
    assert(over.take(i as int) =~= over);
    let mut k: usize = 0;
    while k < verdict.delta_exceeded.len()
        invariant
            k <= verdict.delta_exceeded@.len(),
            file@ == escaped(report.file@, true),
            grown == verdict.delta_exceeded@.map_values(
                |m: Metric|
                    annotation(
                        file@,
                        escaped(growth_message(m, *report, opt_report(baseline), *gates), false),
                    ),
            ),
            lines@.map_values(|s: String| s@) == first + over + grown.take(k as int),
        decreases verdict.delta_exceeded@.len() - k,
    {
        let line = growth_line(file.as_str(), verdict.delta_exceeded[k], report, baseline, gates);
        let ghost prior = lines@;
        assert(prior.map_values(|s: String| s@).len() == prior.len());
        lines.push(line);
        assert(lines@ == prior.push(line));
        let ghost now = lines@.map_values(|s: String| s@);
        let ghost was = prior.map_values(|s: String| s@);
        assert forall|j: int| 0 <= j < prior.len() implies #[trigger] now[j] == was[j] by {
            assert(lines@[j] == prior[j]);
        }
        assert(now[prior.len() as int] == line@);
        assert(grown[k as int] == line@);
        assert(lines@.map_values(|s: String| s@) =~= first + over + grown.take(k + 1));
        k = k + 1;
    }
    assert(grown.take(k as int) =~= grown);
    assert(first + over + grown =~= want);
    lines
}

} // verus!
