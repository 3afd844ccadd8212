use wasmcheck::{
    detected_files, fallback_dirs, has_wasm_extension, outcome_fits_selection, plan_files, resolve_files,
    sort_paths, wasm_files, Config, Found, Lookup, Outcome, ResolvedFile, Selection,
    WasmCheckError,
};

fn strings(items: &[&str]) -> Vec<String> {
    items.iter().map(|s| s.to_string()).collect()
}

fn pairs(files: &[ResolvedFile]) -> Vec<(String, String)> {
    files
        .iter()
        .map(|f| (f.key().to_string(), f.path().to_string()))
        .collect()
}

#[test]
fn cli_glob_keys_every_match_by_the_glob() {
    let selection = plan_files(Some("dist/*_bg-*.wasm"), None, ".");
    match &selection {
        Selection::CliGlob { key, pattern, base } => {
            assert_eq!(key, "dist/*_bg-*.wasm");
            assert_eq!(pattern, "dist/*_bg-*.wasm");
            assert_eq!(base, "");
        }
        other => panic!("{other:?}"),
    }
    let outcome = Outcome::Matches(Ok(strings(&["./dist/b_bg-2.wasm", "dist/a_bg-1.wasm"])));
    assert!(outcome_fits_selection(&selection, &outcome));
    let files = resolve_files(&selection, outcome).unwrap();
    assert_eq!(
        pairs(&files),
        vec![
            ("dist/*_bg-*.wasm".to_string(), "dist/a_bg-1.wasm".to_string()),
            ("dist/*_bg-*.wasm".to_string(), "dist/b_bg-2.wasm".to_string()),
        ]
    );
}

#[test]
fn cli_glob_without_matches_is_no_wasm_found() {
    let selection = plan_files(Some("*.wasm"), None, "sub");
    match resolve_files(&selection, Outcome::Matches(Ok(Vec::new()))) {
        Err(WasmCheckError::NoWasmFound { dir }) => assert_eq!(dir, "sub"),
        other => panic!("{other:?}"),
    }
    let selection = plan_files(Some("*.wasm"), None, ".");
    match resolve_files(&selection, Outcome::Matches(Ok(Vec::new()))) {
        Err(WasmCheckError::NoWasmFound { dir }) => assert_eq!(dir, "."),
        other => panic!("{other:?}"),
    }
}

#[test]
fn cli_path_is_taken_as_given() {
    let selection = plan_files(Some("./fixtures/full.wasm"), None, ".");
    match &selection {
        Selection::CliPath { path, .. } => assert_eq!(path, "fixtures/full.wasm"),
        other => panic!("{other:?}"),
    }
    let files = resolve_files(&selection, Outcome::IsFile(true)).unwrap();
    assert_eq!(files[0].key(), "fixtures/full.wasm");
    assert!(files[0].path().ends_with("full.wasm"));
    match resolve_files(&selection, Outcome::IsFile(false)) {
        Err(WasmCheckError::FileNotFound(p)) => assert_eq!(p, "fixtures/full.wasm"),
        other => panic!("{other:?}"),
    }
}

#[test]
fn config_entries_resolve_against_the_config_dir() {
    let mut config = Config::new();
    config.add_file("assets/*.wasm");
    config.add_file("app.wasm");
    let selection = plan_files(None, Some(&config), "dogfood-app");
    match &selection {
        Selection::Entries { base, entries } => {
            assert_eq!(base, "dogfood-app");
            assert_eq!(entries.len(), 2);
            match &entries[0] {
                Lookup::Glob { key, pattern } => {
                    assert_eq!(key, "assets/*.wasm");
                    assert_eq!(pattern, "dogfood-app/assets/*.wasm");
                }
                other => panic!("{other:?}"),
            }
            match &entries[1] {
                Lookup::Path { key, path } => {
                    assert_eq!(key, "app.wasm");
                    assert_eq!(path, "dogfood-app/app.wasm");
                }
                other => panic!("{other:?}"),
            }
        }
        other => panic!("{other:?}"),
    }
    let outcome = Outcome::Each(vec![
        Found::Matches(Ok(strings(&["dogfood-app/assets/z.wasm", "dogfood-app/app.wasm"]))),
        Found::IsFile(true),
    ]);
    assert!(outcome_fits_selection(&selection, &outcome));
    let files = resolve_files(&selection, outcome).unwrap();
    assert_eq!(
        pairs(&files),
        vec![
            ("assets/*.wasm".to_string(), "dogfood-app/app.wasm".to_string()),
            ("app.wasm".to_string(), "dogfood-app/app.wasm".to_string()),
            ("assets/*.wasm".to_string(), "dogfood-app/assets/z.wasm".to_string()),
        ]
    );
}

#[test]
fn repeated_matches_are_listed_once() {
    let mut config = Config::new();
    config.add_file("*.wasm");
    config.add_file("a*.wasm");
    let selection = plan_files(None, Some(&config), ".");
    let outcome = Outcome::Each(vec![
        Found::Matches(Ok(strings(&["a.wasm", "b.wasm"]))),
        Found::Matches(Ok(strings(&["a.wasm"]))),
    ]);
    let files = resolve_files(&selection, outcome).unwrap();
    assert_eq!(
        pairs(&files),
        vec![
            ("*.wasm".to_string(), "a.wasm".to_string()),
            ("a*.wasm".to_string(), "a.wasm".to_string()),
            ("*.wasm".to_string(), "b.wasm".to_string()),
        ]
    );
    let selection = plan_files(Some("*.wasm"), None, ".");
    let files = resolve_files(
        &selection,
        Outcome::Matches(Ok(strings(&["a.wasm", "./a.wasm", "a.wasm"]))),
    )
    .unwrap();
    assert_eq!(pairs(&files), vec![("*.wasm".to_string(), "a.wasm".to_string())]);
}

#[test]
fn missing_config_path_is_file_not_found() {
    let mut config = Config::new();
    config.add_file("gone.wasm");
    config.add_file("*.wasm");
    let selection = plan_files(None, Some(&config), "d");
    let outcome = Outcome::Each(vec![Found::IsFile(false), Found::Matches(Ok(Vec::new()))]);
    match resolve_files(&selection, outcome) {
        Err(WasmCheckError::FileNotFound(p)) => assert_eq!(p, "d/gone.wasm"),
        other => panic!("{other:?}"),
    }
}

#[test]
fn glob_expansion_error_is_passed_on() {
    let mut config = Config::new();
    config.add_file("[*.wasm");
    let selection = plan_files(None, Some(&config), ".");
    let err = WasmCheckError::WasmParse("bad pattern".into());
    match resolve_files(&selection, Outcome::Each(vec![Found::Matches(Err(err))])) {
        Err(WasmCheckError::WasmParse(m)) => assert_eq!(m, "bad pattern"),
        other => panic!("{other:?}"),
    }
}

#[test]
fn auto_detect_takes_the_single_candidate() {
    let selection = plan_files(None, None, "/tmp/project");
    match &selection {
        Selection::Detect { dir, base } => {
            assert_eq!(dir, "/tmp/project");
            assert_eq!(base, "/tmp/project");
        }
        other => panic!("{other:?}"),
    }
    let files = resolve_files(
        &selection,
        Outcome::Listing(Ok(strings(&["/tmp/project/dist/app.wasm"]))),
    )
    .unwrap();
    assert_eq!(files[0].key(), "dist/app.wasm");
    assert_eq!(files[0].path(), "/tmp/project/dist/app.wasm");
}

#[test]
fn auto_detect_in_the_current_dir_searches_dot() {
    let selection = plan_files(None, Some(&Config::new()), ".");
    match &selection {
        Selection::Detect { dir, base } => {
            assert_eq!(dir, ".");
            assert_eq!(base, "");
        }
        other => panic!("{other:?}"),
    }
    let files = resolve_files(&selection, Outcome::Listing(Ok(strings(&["./app.wasm"])))).unwrap();
    assert_eq!(pairs(&files), vec![("app.wasm".to_string(), "app.wasm".to_string())]);
}

#[test]
fn auto_detect_errors() {
    let selection = plan_files(None, None, ".");
    match resolve_files(&selection, Outcome::Listing(Ok(Vec::new()))) {
        Err(WasmCheckError::NoWasmFound { dir }) => assert_eq!(dir, "."),
        other => panic!("{other:?}"),
    }
    match resolve_files(
        &selection,
        Outcome::Listing(Ok(strings(&["./app.wasm", "./worker.wasm"]))),
    ) {
        Err(WasmCheckError::MultipleWasmFound { found }) => {
            assert_eq!(found, strings(&["./app.wasm", "./worker.wasm"]))
        }
        other => panic!("{other:?}"),
    }
}

#[test]
fn outcome_must_answer_the_selection() {
    let selection = plan_files(None, None, ".");
    assert!(!outcome_fits_selection(&selection, &Outcome::IsFile(true)));
    let mut config = Config::new();
    config.add_file("a.wasm");
    let selection = plan_files(None, Some(&config), ".");
    assert!(!outcome_fits_selection(&selection, &Outcome::Each(vec![])));
    assert!(!outcome_fits_selection(
        &selection,
        &Outcome::Each(vec![Found::Matches(Ok(Vec::new()))])
    ));
    assert!(outcome_fits_selection(&selection, &Outcome::Each(vec![Found::IsFile(true)])));
}

#[test]
fn wasm_extension_follows_path_extension() {
    assert!(has_wasm_extension("dist/app.wasm"));
    assert!(has_wasm_extension("app.tar.wasm"));
    assert!(!has_wasm_extension(".wasm"));
    assert!(!has_wasm_extension("app.wasm.txt"));
    assert!(!has_wasm_extension("wasm"));
    assert!(!has_wasm_extension("app.WASM"));
    assert!(has_wasm_extension("dir/app.wasm/"));
}

#[test]
fn fallback_dirs_are_dist_target_and_the_cargo_layout() {
    assert_eq!(
        fallback_dirs("proj"),
        strings(&[
            "proj/dist",
            "proj/target",
            "proj/target/wasm32-unknown-unknown/release",
            "proj/target/wasm32-unknown-unknown/debug",
        ])
    );
}

#[test]
fn wasm_files_filters_and_sorts_by_path() {
    let found = wasm_files(strings(&["d/z.wasm", "d/notes.txt", "d/a.wasm", "d/a.b/x.wasm"]));
    assert_eq!(found, strings(&["d/a.b/x.wasm", "d/a.wasm", "d/z.wasm"]));
    assert_eq!(sort_paths(strings(&["a.b", "a/b"])), strings(&["a/b", "a.b"]));
}

#[test]
fn direct_wasm_files_win_over_the_fallback_listings() {
    let found = detected_files(
        strings(&["site/b.wasm", "site/notes.txt", "site/a.wasm"]),
        vec![strings(&["site/dist/app.wasm"])],
    );
    assert_eq!(found, strings(&["site/a.wasm", "site/b.wasm"]));
}

#[test]
fn fallback_listings_are_used_when_nothing_is_direct() {
    let found = detected_files(
        strings(&["site/readme.md", "site/dist"]),
        vec![
            strings(&["site/dist/z.wasm", "site/dist/assets"]),
            strings(&["site/target/a.wasm"]),
            Vec::new(),
            strings(&["site/target/wasm32-unknown-unknown/debug/app.wasm"]),
        ],
    );
    assert_eq!(
        found,
        strings(&[
            "site/dist/z.wasm",
            "site/target/a.wasm",
            "site/target/wasm32-unknown-unknown/debug/app.wasm",
        ])
    );
    assert!(detected_files(Vec::new(), vec![Vec::new(), Vec::new()]).is_empty());
}
