use wasmcheck::{
    clean, config_dir, display_dir, glob_pattern, is_glob, join, key_for, normalized_dir,
    Baseline, Config, MaxDelta, Metric, SizeReport, Threshold, CONFIG_FILE, DEFAULT_BASELINE_FILE,
};

fn report(file: &str, raw: u64) -> SizeReport {
    SizeReport::new(file, raw, raw / 2, raw / 3)
}

#[test]
fn removing_right_after_setting_restores_the_baseline() {
    let mut baseline = Baseline::new();
    baseline.set("b.wasm", report("b.wasm", 10));
    baseline.set("d.wasm", report("d.wasm", 20));
    let before: Vec<(String, u64)> =
        baseline.iter().iter().map(|(k, r)| (k.clone(), r.raw())).collect();
    baseline.set("c.wasm", report("c.wasm", 30));
    assert_eq!(baseline.len(), 3);
    assert_eq!(baseline.remove("c.wasm").unwrap().raw(), 30);
    assert_eq!(baseline.len(), 2);
    assert!(baseline.remove("c.wasm").is_none());
    assert_eq!(baseline.len(), 2);
    let after: Vec<(String, u64)> =
        baseline.iter().iter().map(|(k, r)| (k.clone(), r.raw())).collect();
    assert_eq!(before, after);
}

#[test]
fn listed_entries_agree_with_get() {
    let mut baseline = Baseline::new();
    for (key, raw) in [("z.wasm", 3), ("a.wasm", 1), ("m.wasm", 2)] {
        baseline.set(key, report(key, raw));
    }
    let keys: Vec<&str> = baseline.iter().iter().map(|(k, _)| k.as_str()).collect();
    assert_eq!(keys, vec!["a.wasm", "m.wasm", "z.wasm"]);
    for (key, r) in baseline.iter() {
        assert_eq!(baseline.get(key).unwrap().raw(), r.raw());
    }
    assert!(baseline.get("q.wasm").is_none());
}

#[test]
fn baseline_reads_back_what_was_set() {
    let mut baseline = Baseline::new();
    baseline.set("dist/*.wasm", report("dist/app_bg-1.wasm", 1_000));
    assert_eq!(baseline.get("dist/*.wasm").unwrap().raw(), 1_000);
    assert_eq!(baseline.len(), 1);
    baseline.set("dist/*.wasm", report("dist/app_bg-2.wasm", 2_000));
    assert_eq!(baseline.get("dist/*.wasm").unwrap().raw(), 2_000);
    assert_eq!(baseline.len(), 1);
    assert!(baseline.get("other.wasm").is_none());
}

#[test]
fn baseline_keeps_keys_sorted() {
    let mut baseline = Baseline::new();
    baseline.set("b.wasm", report("b.wasm", 2));
    baseline.set("a.wasm", report("a.wasm", 1));
    baseline.set("c.wasm", report("c.wasm", 3));
    let keys: Vec<&str> = baseline.iter().iter().map(|(k, _)| k.as_str()).collect();
    assert_eq!(keys, vec!["a.wasm", "b.wasm", "c.wasm"]);
}

#[test]
fn baseline_remove_forgets_one_key() {
    let mut baseline = Baseline::new();
    baseline.set("a.wasm", report("a.wasm", 1));
    baseline.set("b.wasm", report("b.wasm", 2));
    assert_eq!(baseline.remove("a.wasm").unwrap().raw(), 1);
    assert!(baseline.get("a.wasm").is_none());
    assert_eq!(baseline.get("b.wasm").unwrap().raw(), 2);
    assert!(baseline.remove("a.wasm").is_none());
    assert!(!baseline.is_empty());
}

#[test]
fn baseline_from_entries_lets_later_pairs_win() {
    let baseline = Baseline::from_entries(vec![
        ("x.wasm".to_string(), report("x.wasm", 1)),
        ("y.wasm".to_string(), report("y.wasm", 2)),
        ("x.wasm".to_string(), report("x.wasm", 3)),
    ]);
    assert_eq!(baseline.len(), 2);
    assert_eq!(baseline.get("x.wasm").unwrap().raw(), 3);
    let copy = baseline.clone();
    assert_eq!(copy.get("y.wasm").unwrap().raw(), 2);
}

#[test]
fn prune_drops_stale_glob_matches_only() {
    let mut baseline = Baseline::new();
    baseline.set("dist/*.wasm", report("dist/app_bg-new.wasm", 1));
    baseline.set("dist/app_bg-old.wasm", report("dist/app_bg-old.wasm", 2));
    baseline.set("other.wasm", report("other.wasm", 3));
    baseline.set("dist/kept.wasm", report("dist/kept.wasm", 4));
    let keep = vec!["dist/*.wasm".to_string(), "dist/kept.wasm".to_string()];
    baseline.prune("dist/*.wasm", &keep);
    assert!(baseline.get("dist/app_bg-old.wasm").is_none());
    assert!(baseline.get("dist/*.wasm").is_some());
    assert!(baseline.get("other.wasm").is_some());
    assert!(baseline.get("dist/kept.wasm").is_some());
}

#[test]
fn prune_ignores_plain_paths_and_bad_globs() {
    let mut baseline = Baseline::new();
    baseline.set("a.wasm", report("a.wasm", 1));
    baseline.prune("a.wasm", &[]);
    assert_eq!(baseline.len(), 1);
    baseline.prune("[", &[]);
    assert_eq!(baseline.len(), 1);
}

#[test]
fn config_starts_empty_with_the_cdn_preset() {
    let config = Config::new();
    assert!(config.files().is_empty());
    assert!(config.budget().is_none());
    assert!(config.max_delta().is_none());
    assert!(config.compression().is_default());
    assert!(config.baseline_file().is_none());
    assert!(config.inline_baseline().is_empty());
    assert!(!config.strict());
}

#[test]
fn set_max_delta_replaces_only_the_growth_limits() {
    let mut config = Config::new();
    config.add_file("app.wasm");
    let mut delta = MaxDelta::new();
    delta.set_limit(Metric::Gzip, Some(Threshold::parse("5%").unwrap()));
    config.set_max_delta(Some(delta));
    assert_eq!(
        config.max_delta().unwrap().limit(Metric::Gzip),
        Some(&Threshold::parse("5%").unwrap())
    );
    assert!(config.max_delta().unwrap().limit(Metric::Raw).is_none());
    assert_eq!(config.files(), &["app.wasm".to_string()]);
    config.set_max_delta(None);
    assert!(config.max_delta().is_none());
}

#[test]
fn add_file_lists_each_entry_once() {
    let mut config = Config::new();
    config.add_file("dist/*.wasm");
    config.add_file("app.wasm");
    config.add_file("dist/*.wasm");
    assert_eq!(config.files(), &["dist/*.wasm".to_string(), "app.wasm".to_string()]);
}

#[test]
fn baseline_path_is_next_to_the_config() {
    let mut config = Config::new();
    assert_eq!(config.baseline_path("dist"), "dist/.wasmcheck.baseline.json");
    assert!(config.baseline_path("dist").ends_with(DEFAULT_BASELINE_FILE));
    assert_eq!(config.baseline_path("."), DEFAULT_BASELINE_FILE);
    assert_eq!(config.baseline_path(""), DEFAULT_BASELINE_FILE);
    config.set_baseline_file(Some("ci/baseline.json".into()));
    assert!(config.baseline_path("dist").ends_with("ci/baseline.json"));
    assert_eq!(config.baseline_path("dist/"), "dist/ci/baseline.json");
    config.set_baseline_file(Some("/tmp/b.json".into()));
    assert_eq!(config.baseline_path("dist"), "/tmp/b.json");
    assert_eq!(CONFIG_FILE, ".wasmcheck.json");
}

#[test]
fn inline_baseline_can_be_taken_or_cleared() {
    let mut inline = Baseline::new();
    inline.set("a.wasm", report("a.wasm", 1));
    let mut config = Config::from_parts(
        vec!["a.wasm".into()],
        None,
        None,
        wasmcheck::Compression::cdn(),
        None,
        inline,
        true,
    );
    assert!(config.strict());
    assert_eq!(config.inline_baseline().len(), 1);
    let taken = config.take_inline_baseline();
    assert_eq!(taken.get("a.wasm").unwrap().raw(), 1);
    assert!(config.inline_baseline().is_empty());
    config.set_strict(false);
    assert!(!config.strict());
    config.clear_inline_baseline();
    assert!(config.inline_baseline().is_empty());
}

#[test]
fn path_helpers_follow_std_path_rules() {
    assert_eq!(clean("./dist/app.wasm"), "dist/app.wasm");
    assert_eq!(clean(".//dist/app.wasm"), "dist/app.wasm");
    assert_eq!(clean("dist/app.wasm"), "dist/app.wasm");
    assert_eq!(clean("."), "");
    assert_eq!(clean(".hidden/app.wasm"), ".hidden/app.wasm");
    assert_eq!(key_for("dist/app.wasm", "dist"), "app.wasm");
    assert_eq!(key_for("dist/app.wasm", ""), "dist/app.wasm");
    assert_eq!(key_for("dist/app.wasm", "distx"), "dist/app.wasm");
    assert_eq!(key_for("dist", "dist"), "dist");
    assert_eq!(key_for("/abs/dist/app.wasm", "/abs"), "dist/app.wasm");
    assert_eq!(normalized_dir("."), "");
    assert_eq!(normalized_dir("./"), "");
    assert_eq!(normalized_dir(""), "");
    assert_eq!(normalized_dir("dist"), "dist");
    assert_eq!(display_dir(""), ".");
    assert_eq!(display_dir("dist"), "dist");
    assert_eq!(glob_pattern("", "*.wasm"), "*.wasm");
    assert_eq!(glob_pattern("a\\b", "*.wasm"), "a/b/*.wasm");
    assert_eq!(join("dist", "app.wasm"), "dist/app.wasm");
    assert_eq!(join("", "app.wasm"), "app.wasm");
    assert_eq!(join("dist", "/app.wasm"), "/app.wasm");
    assert!(is_glob("dist/*_bg-*.wasm"));
    assert!(is_glob("a?.wasm"));
    assert!(!is_glob("dist/app.wasm"));
}

#[test]
fn config_dir_is_the_parent_or_dot() {
    assert_eq!(config_dir("dogfood-app/.wasmcheck.json"), "dogfood-app");
    assert_eq!(config_dir(".wasmcheck.json"), ".");
    assert_eq!(config_dir(""), ".");
    assert_eq!(config_dir("a/b/c.json"), "a/b");
}
