//! Per-metric limits: absolute budgets and growth thresholds.

use vstd::prelude::*;

use crate::metric::Metric;
use crate::size::{report_value, Size, SizeReport};
use crate::threshold::{threshold_allowed, Threshold};

verus! {

/// Limits of some kind, one optional value per [`Metric`].
#[derive(Debug, Clone, Copy, PartialEq, Eq)]
pub struct Limits<T> {
    raw: Option<T>,
    gzip: Option<T>,
    brotli: Option<T>,
}

/// Absolute per-metric size caps — the `budget` config key.
pub type Budget = Limits<Size>;

/// Per-metric growth allowances over the committed baseline — the
/// `max_delta` config key.
pub type MaxDelta = Limits<Threshold>;

/// `seq![m]` when `keep`, else the empty sequence.
pub open spec fn keep_if(keep: bool, m: Metric) -> Seq<Metric> {
    if keep {
        seq![m]
    } else {
        Seq::<Metric>::empty()
    }
}

/// The metrics satisfying `p`, in reporting order.
pub open spec fn metrics_where(p: spec_fn(Metric) -> bool) -> Seq<Metric> {
    keep_if(p(Metric::Raw), Metric::Raw) + keep_if(p(Metric::Gzip), Metric::Gzip) + keep_if(
        p(Metric::Brotli),
        Metric::Brotli,
    )
}

/// A metric is listed by `metrics_where` exactly when it satisfies `p`, and
/// no metric is listed twice.
pub proof fn lemma_metrics_where(p: spec_fn(Metric) -> bool)
    ensures
        forall|m: Metric| #[trigger] metrics_where(p).contains(m) <==> p(m),
        metrics_where(p).no_duplicates(),
{
    let s = metrics_where(p);
    assert forall|m: Metric| #[trigger] s.contains(m) <==> p(m) by {
        if p(m) {
            match m {
                Metric::Raw => {
                    assert(s[0] == m);
                },
                Metric::Gzip => {
                    let i = if p(Metric::Raw) {
                        1int
                    } else {
                        0int
                    };
                    assert(s[i] == m);
                },
                Metric::Brotli => {
                    assert(s[s.len() - 1] == m);
                },
            }
        }
        if s.contains(m) {
            let i = choose|i: int| 0 <= i < s.len() && s[i] == m;
            assert(p(s[i]));
        }
    }
}

impl<T> Limits<T> {
    /// The limit configured for `metric`, if any.
    pub closed spec fn limit_of(&self, metric: Metric) -> Option<T> {
        match metric {
            Metric::Raw => self.raw,
            Metric::Gzip => self.gzip,
            Metric::Brotli => self.brotli,
        }
    }

    /// `true` when no metric is limited.
    pub open spec fn is_empty_spec(&self) -> bool {
        forall|m: Metric| #[trigger] self.limit_of(m) is None
    }

    /// A set of limits that gates nothing.
    pub fn new() -> (r: Self)
        ensures
            forall|m: Metric| #[trigger] r.limit_of(m) is None,
    {
        Limits { raw: None, gzip: None, brotli: None }
    }

    /// The limit configured for `metric`, if any.
    pub fn limit(&self, metric: Metric) -> (r: Option<&T>)
        ensures
            match r {
                Some(l) => self.limit_of(metric) == Some(*l),
                None => self.limit_of(metric) is None,
            },
    {
        match metric {
            Metric::Raw => self.raw.as_ref(),
            Metric::Gzip => self.gzip.as_ref(),
            Metric::Brotli => self.brotli.as_ref(),
        }
    }

    /// Sets (or clears, with `None`) the limit for `metric`.
    pub fn set_limit(&mut self, metric: Metric, limit: Option<T>)
        ensures
            final(self).limit_of(metric) == limit,
            forall|m: Metric| m != metric ==> #[trigger] final(self).limit_of(m) == old(self).limit_of(m),
    {
        match metric {
            Metric::Raw => self.raw = limit,
            Metric::Gzip => self.gzip = limit,
            Metric::Brotli => self.brotli = limit,
        }
    }

    /// `true` when no metric is limited.
    pub fn is_empty(&self) -> (r: bool)
        ensures
            r == self.is_empty_spec(),
    {
        let r = self.raw.is_none() && self.gzip.is_none() && self.brotli.is_none();
        proof {
            if !r {
                if self.raw.is_some() {
                    assert(self.limit_of(Metric::Raw) is Some);
                } else if self.gzip.is_some() {
                    assert(self.limit_of(Metric::Gzip) is Some);
                } else {
                    assert(self.limit_of(Metric::Brotli) is Some);
                }
            }
        }
        r
    }

    /// A set of limits where only the raw metric is limited, which is what the
    /// `--budget` and `--max-delta` flags mean.
    pub fn raw_only(limit: T) -> (r: Self)
        ensures
            r.limit_of(Metric::Raw) == Some(limit),
            r.limit_of(Metric::Gzip) is None,
            r.limit_of(Metric::Brotli) is None,
    {
        let mut limits = Self::new();
        limits.set_limit(Metric::Raw, Some(limit));
        limits
    }
}

impl<T> Default for Limits<T> {
    fn default() -> (r: Self)
        ensures
            forall|m: Metric| #[trigger] r.limit_of(m) is None,
    {
        Self::new()
    }
}

/// `true` when `report`'s value of `metric` is strictly over its budget.
pub open spec fn over_budget(budget: Budget, report: SizeReport, metric: Metric) -> bool {
    match budget.limit_of(metric) {
        Some(limit) => report_value(report, metric) > limit@,
        None => false,
    }
}

/// `true` when `report` grew past the allowance for `metric` over `baseline`.
pub open spec fn over_delta(
    max_delta: MaxDelta,
    report: SizeReport,
    baseline: SizeReport,
    metric: Metric,
) -> bool {
    match max_delta.limit_of(metric) {
        Some(t) => report_value(report, metric) > threshold_allowed(
            t,
            report_value(baseline, metric),
        ),
        None => false,
    }
}

/// The metrics over their budget, in reporting order.
pub open spec fn exceeded_budget(budget: Budget, report: SizeReport) -> Seq<Metric> {
    metrics_where(|m: Metric| over_budget(budget, report, m))
}

/// The metrics grown past their allowance, in reporting order.
pub open spec fn exceeded_growth(max_delta: MaxDelta, report: SizeReport, baseline: SizeReport) -> Seq<
    Metric,
> {
    metrics_where(|m: Metric| over_delta(max_delta, report, baseline, m))
}

impl Limits<Size> {
    fn over_limit(&self, report: &SizeReport, metric: Metric) -> (r: bool)
        ensures
            r == over_budget(*self, *report, metric),
    {
        match self.limit(metric) {
            Some(limit) => metric.value(report) > limit.bytes(),
            None => false,
        }
    }

    /// Every metric whose measured value is strictly greater than its limit,
    /// in reporting order.
    pub fn exceeded_metrics(&self, report: &SizeReport) -> (r: Vec<Metric>)
        ensures
            r@ == exceeded_budget(*self, *report),
    {
        let mut r: Vec<Metric> = Vec::new();
        if self.over_limit(report, Metric::Raw) {
            r.push(Metric::Raw);
        }
        if self.over_limit(report, Metric::Gzip) {
            r.push(Metric::Gzip);
        }
        if self.over_limit(report, Metric::Brotli) {
            r.push(Metric::Brotli);
        }
        assert(r@ =~= exceeded_budget(*self, *report));
        r
    }
}

impl Limits<Threshold> {
    fn over_allowance(&self, report: &SizeReport, baseline: &SizeReport, metric: Metric) -> (r:
        bool)
        ensures
            r == over_delta(*self, *report, *baseline, metric),
    {
        match self.limit(metric) {
            Some(threshold) => metric.value(report) > threshold.allowed(metric.value(baseline)),
            None => false,
        }
    }

    /// Every metric whose `report` grew by more than its allowance compared to
    /// `baseline`, in reporting order. A percentage allowance resolves
    /// against the baseline value of the same metric.
    pub fn exceeded_delta(&self, report: &SizeReport, baseline: &SizeReport) -> (r: Vec<Metric>)
        ensures
            r@ == exceeded_growth(*self, *report, *baseline),
    {
        let mut r: Vec<Metric> = Vec::new();
        if self.over_allowance(report, baseline, Metric::Raw) {
            r.push(Metric::Raw);
        }
        if self.over_allowance(report, baseline, Metric::Gzip) {
            r.push(Metric::Gzip);
        }
        if self.over_allowance(report, baseline, Metric::Brotli) {
            r.push(Metric::Brotli);
        }
        assert(r@ =~= exceeded_growth(*self, *report, *baseline));
        r
    }

    /// The largest value allowed for `metric` when `baseline` is the
    /// reference, if `metric` is limited.
    pub fn allowed(&self, metric: Metric, baseline: &SizeReport) -> (r: Option<u64>)
        ensures
            match self.limit_of(metric) {
                Some(t) => r == Some(threshold_allowed(t, report_value(*baseline, metric))),
                None => r is None,
            },
    {
        match self.limit(metric) {
            Some(threshold) => Some(threshold.allowed(metric.value(baseline))),
            None => None,
        }
    }
}

/// A metric is over budget exactly when its value is strictly above its
/// limit; a value equal to the limit passes.
pub proof fn law_budget_gate(budget: Budget, report: SizeReport, metric: Metric)
    ensures
        exceeded_budget(budget, report).contains(metric) <==> (budget.limit_of(metric) matches Some(
            limit,
        ) && report_value(report, metric) > limit@),
        exceeded_budget(budget, report).no_duplicates(),
{
    lemma_metrics_where(|m: Metric| over_budget(budget, report, m));
}

/// A metric grew past its allowance exactly when `max_delta` limits it and
/// its measured value is strictly above what the limit allows over the
/// baseline's value of the same metric; every metric is checked, and none is
/// listed twice.
pub proof fn law_growth_gate(
    max_delta: MaxDelta,
    report: SizeReport,
    baseline: SizeReport,
    metric: Metric,
)
    ensures
        exceeded_growth(max_delta, report, baseline).contains(metric) <==> (max_delta.limit_of(
            metric,
        ) matches Some(t) && report_value(report, metric) > threshold_allowed(
            t,
            report_value(baseline, metric),
        )),
        exceeded_growth(max_delta, report, baseline).no_duplicates(),
{
    lemma_metrics_where(|m: Metric| over_delta(max_delta, report, baseline, m));
}

/// Shrinking never fails the growth gate, and neither does growth exactly
/// equal to the allowance.
pub proof fn law_growth_gate_tolerance(
    max_delta: MaxDelta,
    report: SizeReport,
    baseline: SizeReport,
    metric: Metric,
)
    requires
        report_value(report, metric) <= report_value(baseline, metric) || (max_delta.limit_of(
            metric,
        ) matches Some(t) && report_value(report, metric) == threshold_allowed(
            t,
            report_value(baseline, metric),
        )),
    ensures
        !exceeded_growth(max_delta, report, baseline).contains(metric),
{
    lemma_metrics_where(|m: Metric| over_delta(max_delta, report, baseline, m));
    if let Some(t) = max_delta.limit_of(metric) {
        crate::threshold::lemma_allowed_at_least_baseline(t, report_value(baseline, metric));
    }
}

} // verus!
