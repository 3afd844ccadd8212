use wasmcheck::{
    absent_baseline, baseline_is_explicit, baseline_path, conclude, config_path,
    effective_budget, effective_compression, effective_max_delta, ensure_budget, escape_data,
    escape_property, evaluate, failure_reasons, file_status, github_annotations, metric_list,
    rank_functions, record_reports, run_status, seed_budget, top_functions, widest_raw_of,
    Baseline, Budget, Compression, Config, Gates, MaxDelta, Metric, Size, SizeReport, Status,
    Threshold, Verdict, WasmCheckError, WasmEvent,
};

fn gates(budget: Option<Budget>, max_delta: Option<MaxDelta>, strict: bool) -> Gates {
    Gates { budget, max_delta, strict }
}

#[test]
fn ungated_runs_are_unchecked_and_never_fail() {
    let g = gates(None, None, false);
    let report = SizeReport::new("app.wasm", 10_000_000, 1, 1);
    let verdict = evaluate(&g, &report, None);
    assert!(!verdict.failed());
    assert_eq!(file_status(&verdict, &g), Status::Unchecked);
    assert_eq!(run_status(&[verdict], &g), Status::Unchecked);
    assert_eq!(Status::Unchecked.as_str(), "unchecked");
}

#[test]
fn budget_and_growth_verdicts() {
    let budget = Budget::raw_only(Size::parse("1 KB").unwrap());
    let max_delta = MaxDelta::raw_only(Threshold::parse("10%").unwrap());
    let g = gates(Some(budget), Some(max_delta), false);
    let base = SizeReport::new("app.wasm", 1000, 500, 400);
    let grown = SizeReport::new("app.wasm", 1200, 500, 400);
    let verdict = evaluate(&g, &grown, Some(&base));
    assert_eq!(verdict.exceeded, vec![Metric::Raw]);
    assert_eq!(verdict.delta_exceeded, vec![Metric::Raw]);
    assert!(!verdict.missing_baseline);
    assert_eq!(file_status(&verdict, &g), Status::Fail);
    assert_eq!(
        failure_reasons(&verdict),
        "over budget: raw; grows past max delta: raw"
    );
    let small = SizeReport::new("app.wasm", 1000, 500, 400);
    let ok = evaluate(&g, &small, Some(&base));
    assert_eq!(file_status(&ok, &g), Status::Pass);
    assert_eq!(run_status(&[ok, verdict], &g), Status::Fail);
}

#[test]
fn missing_baseline_fails_only_in_strict_mode() {
    let max_delta = MaxDelta::raw_only(Threshold::parse("1%").unwrap());
    let report = SizeReport::new("app.wasm", 9_999_999, 1, 1);
    let lenient = evaluate(&gates(None, Some(max_delta), false), &report, None);
    assert!(lenient.delta_exceeded.is_empty());
    assert!(!lenient.failed());
    let strict = evaluate(&gates(None, Some(max_delta), true), &report, None);
    assert!(strict.missing_baseline);
    assert!(strict.failed());
    assert_eq!(failure_reasons(&strict), "no baseline recorded");
}

#[test]
fn conclude_reports_budget_exceeded() {
    let failing = Verdict { exceeded: vec![Metric::Gzip], delta_exceeded: vec![], missing_baseline: false };
    match conclude(&[failing]) {
        Err(WasmCheckError::BudgetExceeded(m)) => {
            assert_eq!(m, "one or more files failed their size gate")
        }
        other => panic!("{other:?}"),
    }
    let passing = Verdict { exceeded: vec![], delta_exceeded: vec![], missing_baseline: false };
    assert!(conclude(&[passing]).is_ok());
    assert!(conclude(&[]).is_ok());
}

#[test]
fn metric_lists_and_escapes() {
    assert_eq!(metric_list(&[Metric::Raw, Metric::Brotli]), "raw, brotli");
    assert_eq!(metric_list(&[]), "");
    assert_eq!(escape_data("50% a\r\nb:c,d"), "50%25 a%0D%0Ab:c,d");
    assert_eq!(escape_property("50% a\r\nb:c,d"), "50%25 a%0D%0Ab%3Ac%2Cd");
}

#[test]
fn github_annotations_name_each_failure() {
    let budget = Budget::raw_only(Size::parse("250 KB").unwrap());
    let max_delta = MaxDelta::raw_only(Threshold::parse("50 KB").unwrap());
    let g = gates(Some(budget), Some(max_delta), true);
    let base = SizeReport::new("dist/a,b.wasm", 200 * 1024, 1, 1);
    let report = SizeReport::new("dist/a,b.wasm", 265 * 1024, 1, 1);
    let verdict = evaluate(&g, &report, Some(&base));
    let lines = github_annotations(&report, Some(&base), &verdict, &g);
    assert_eq!(
        lines,
        vec![
            "::error file=dist/a%2Cb.wasm,title=wasmcheck::raw over budget: 265.00 KB > 250.00 KB".to_string(),
            "::error file=dist/a%2Cb.wasm,title=wasmcheck::raw grew past max delta: +65.00 KB > 50 KB".to_string(),
        ]
    );
    let orphan = evaluate(&gates(None, None, true), &report, None);
    assert_eq!(
        github_annotations(&report, None, &orphan, &gates(None, None, true)),
        vec!["::error file=dist/a%2Cb.wasm,title=wasmcheck::no baseline recorded for this file".to_string()]
    );
    let pass = evaluate(&gates(None, None, false), &report, None);
    assert!(github_annotations(&report, None, &pass, &gates(None, None, false)).is_empty());
}

#[test]
fn cli_flags_override_single_fields() {
    let mut config = Config::new();
    config.set_compression(Compression::max());
    let c = effective_compression(Some(6), None, Some(&config)).unwrap();
    assert_eq!((c.gzip_level(), c.brotli_quality()), (6, 11));
    let c = effective_compression(None, Some(4), None).unwrap();
    assert_eq!((c.gzip_level(), c.brotli_quality()), (6, 4));
    assert!(matches!(effective_compression(Some(10), None, None), Err(WasmCheckError::InvalidGzipLevel(10))));
    assert!(matches!(effective_compression(None, Some(12), None), Err(WasmCheckError::InvalidBrotliQuality(12))));

    let mut configured = Budget::new();
    configured.set_limit(Metric::Gzip, Some(Size::from_bytes(100)));
    configured.set_limit(Metric::Raw, Some(Size::from_bytes(5)));
    let b = effective_budget(Some("2 KB"), Some(&configured)).unwrap().unwrap();
    assert_eq!(b.limit(Metric::Raw).unwrap().bytes(), 2048);
    assert_eq!(b.limit(Metric::Gzip).unwrap().bytes(), 100);
    assert_eq!(effective_budget(None, Some(&configured)).unwrap(), Some(configured));
    assert_eq!(effective_budget(None, None).unwrap(), None);
    assert!(matches!(effective_budget(Some("5%"), None), Err(WasmCheckError::InvalidSize(_))));
    let m = effective_max_delta(Some("5%"), None).unwrap().unwrap();
    assert_eq!(m.limit(Metric::Raw).unwrap().to_text(), "5%");
    assert!(m.limit(Metric::Gzip).is_none());
    assert!(matches!(effective_max_delta(Some("x%"), None), Err(WasmCheckError::InvalidPercent(_))));
}

#[test]
fn baseline_location_and_absence() {
    assert_eq!(config_path(None), ".wasmcheck.json");
    assert_eq!(config_path(Some("a/b.json")), "a/b.json");
    let mut config = Config::new();
    assert_eq!(baseline_path(Some(&config), "dist", None), "dist/.wasmcheck.baseline.json");
    assert_eq!(baseline_path(None, ".", None), ".wasmcheck.baseline.json");
    assert_eq!(baseline_path(None, "d", Some("x.json")), "x.json");
    assert!(!baseline_is_explicit(Some(&config), None));
    assert!(baseline_is_explicit(None, Some("x.json")));
    config.set_baseline_file(Some("ci/b.json".into()));
    assert!(baseline_is_explicit(Some(&config), None));
    assert_eq!(baseline_path(Some(&config), "d", None), "d/ci/b.json");
    match absent_baseline(Some(&config), "d/ci/b.json", true) {
        Err(WasmCheckError::BaselineNotFound(p)) => assert_eq!(p, "d/ci/b.json"),
        other => panic!("{other:?}"),
    }
    let mut inline = Baseline::new();
    inline.set("a.wasm", SizeReport::new("a.wasm", 7, 6, 5));
    let legacy = Config::from_parts(vec![], None, None, Compression::cdn(), None, inline, false);
    let adopted = absent_baseline(Some(&legacy), "x", false).unwrap();
    assert_eq!(adopted.get("a.wasm").unwrap().raw(), 7);
    assert!(absent_baseline(None, "x", false).unwrap().is_empty());
}

#[test]
fn seeded_budget_passes_its_first_check() {
    let mut baseline = Baseline::new();
    baseline.set("a.wasm", SizeReport::new("a.wasm", 10_700, 4_000, 3_000));
    baseline.set("b.wasm", SizeReport::new("b.wasm", 2_000, 900, 800));
    assert_eq!(widest_raw_of(&baseline), 10_700);
    let budget = seed_budget(&baseline);
    assert_eq!(budget.limit(Metric::Raw).unwrap().bytes(), 11 * 1024);
    assert!(budget.limit(Metric::Gzip).is_none());
    for (_, report) in baseline.iter() {
        assert!(budget.exceeded_metrics(report).is_empty());
    }
    let mut config = Config::new();
    ensure_budget(&mut config, &baseline);
    assert_eq!(config.budget().unwrap().limit(Metric::Raw).unwrap().bytes(), 11 * 1024);
    let kept = Budget::raw_only(Size::from_bytes(1));
    config.set_budget(Some(kept));
    ensure_budget(&mut config, &baseline);
    assert_eq!(config.budget(), Some(&kept));
    assert_eq!(seed_budget(&Baseline::new()).limit(Metric::Raw).unwrap().bytes(), 0);
}

#[test]
fn recording_keeps_measured_keys_and_drops_stale_ones() {
    let mut config = Config::new();
    let mut baseline = Baseline::new();
    baseline.set("dist/app_bg-old.wasm", SizeReport::new("dist/app_bg-old.wasm", 1, 1, 1));
    baseline.set("elsewhere.wasm", SizeReport::new("elsewhere.wasm", 2, 2, 2));
    let measured = vec![
        ("dist/*.wasm".to_string(), SizeReport::new("dist/app_bg-new.wasm", 5, 4, 3)),
        ("dist/*.wasm".to_string(), SizeReport::new("dist/worker_bg-new.wasm", 9, 8, 7)),
    ];
    record_reports(&mut config, &mut baseline, measured);
    assert_eq!(config.files(), &["dist/*.wasm".to_string()]);
    assert_eq!(baseline.get("dist/*.wasm").unwrap().file(), "dist/worker_bg-new.wasm");
    assert!(baseline.get("dist/app_bg-old.wasm").is_none());
    assert!(baseline.get("elsewhere.wasm").is_some());
}

/// A module importing one function, with two bodies (2 and 5 bytes) named
/// `small` and `big` in its name section.
fn module(with_names: bool) -> Vec<u8> {
    let mut m = vec![0x00, b'a', b's', b'm', 0x01, 0x00, 0x00, 0x00];
    m.extend([0x01, 0x04, 0x01, 0x60, 0x00, 0x00]);
    m.extend([0x02, 0x09, 0x01, 0x03, b'e', b'n', b'v', 0x01, b'f', 0x00, 0x00]);
    m.extend([0x03, 0x03, 0x02, 0x00, 0x00]);
    m.extend([0x0a, 0x0a, 0x02, 0x02, 0x00, 0x0b, 0x05, 0x00, 0x01, 0x01, 0x01, 0x0b]);
    if with_names {
        m.extend([0x00, 0x14, 0x04, b'n', b'a', b'm', b'e', 0x01, 0x0d, 0x02]);
        m.extend([0x01, 0x05, b's', b'm', b'a', b'l', b'l', 0x02, 0x03, b'b', b'i', b'g']);
    }
    m
}

#[test]
fn top_functions_ranks_named_bodies() {
    let ranked = top_functions(&module(true), 10).unwrap().unwrap();
    assert_eq!(ranked, vec![(5, "big".to_string()), (2, "small".to_string())]);
    let top1 = top_functions(&module(true), 1).unwrap().unwrap();
    assert_eq!(top1, vec![(5, "big".to_string())]);
    assert!(top1.len() <= 1);
}

#[test]
fn top_functions_without_names_uses_indices() {
    let ranked = top_functions(&module(false), 3).unwrap().unwrap();
    assert_eq!(ranked, vec![(5, "func_2".to_string()), (2, "func_1".to_string())]);
}

#[test]
fn top_functions_reports_parse_errors() {
    let broken = vec![0x00, b'a', b's', b'm', 0x01, 0x00, 0x00, 0x00, 0x01, 0x05, 0x01];
    assert!(matches!(top_functions(&broken, 3), Some(Err(WasmCheckError::WasmParse(_)))));
    assert!(matches!(top_functions(b"not wasm", 3), Some(Err(WasmCheckError::WasmParse(_)))));
    let empty = vec![0x00, b'a', b's', b'm', 0x01, 0x00, 0x00, 0x00];
    assert_eq!(top_functions(&empty, 3).unwrap().unwrap(), vec![]);
}

#[test]
fn ranking_is_stable_and_takes_the_last_name() {
    let events = vec![
        WasmEvent::Import(true),
        WasmEvent::Import(false),
        WasmEvent::Body(10, 13),
        WasmEvent::Body(20, 27),
        WasmEvent::Body(30, 33),
        WasmEvent::FunctionName(1, "first".to_string()),
        WasmEvent::FunctionName(1, "renamed".to_string()),
    ];
    let ranked = rank_functions(&events, 5).unwrap();
    assert_eq!(
        ranked,
        vec![
            (7, "func_2".to_string()),
            (3, "renamed".to_string()),
            (3, "func_3".to_string()),
        ]
    );
    let failed = vec![WasmEvent::Body(0, 1), WasmEvent::Failure("boom".to_string())];
    match rank_functions(&failed, 5) {
        Err(WasmCheckError::WasmParse(m)) => assert_eq!(m, "boom"),
        other => panic!("{other:?}"),
    }
}
