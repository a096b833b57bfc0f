use basemind::cache::{MapCache, PathState, PathUpdate, StoredFile};
use basemind::calls::FileCalls;
use basemind::cli::{
    check_served_view, default_log_directive, list_languages, parse_end, parse_timeout_ms, rescans_all, scan_target,
    warn_ignored_global_flags, CommandKind, ParseEnd, ScanTarget, Verbosity,
};
use basemind::model::{Call, FileMapL1, Import, RelPath, Symbol, SymbolKind};
use basemind::notify::{level_ordinal, should_log, LoggingLevel, DEFAULT_LOG_ORDINAL};
use basemind::server::{
    check_writable, next_generation, plan_boot, plan_forwarded, plan_refresh, BootFacts, FileStatus, FileVerdict,
    Lifecycle, LifecycleNotice, Refresh, ServerOptions, WatcherKind,
};

#[test]
fn lifecycle_from_flags_applies_precedence() {
    assert_eq!(Lifecycle::from_flags(false, false, false), Lifecycle::Ready);
    assert_eq!(Lifecycle::from_flags(false, false, true), Lifecycle::Rescanning);
    assert_eq!(Lifecycle::from_flags(false, true, true), Lifecycle::WarmingUp);
    assert_eq!(Lifecycle::from_flags(true, true, true), Lifecycle::BuildingIndex);
    assert_eq!(Lifecycle::from_flags(true, false, false), Lifecycle::BuildingIndex);
}

#[test]
fn lifecycle_notice_maps_state_to_tag_and_retry() {
    assert!(LifecycleNotice::for_state(Lifecycle::Ready).is_none());
    let warming = LifecycleNotice::for_state(Lifecycle::WarmingUp).expect("warming notice");
    assert_eq!(warming.state, "warming_up");
    assert!(warming.retry, "warming asks the caller to retry for complete results");
    let building = LifecycleNotice::for_state(Lifecycle::BuildingIndex).expect("building notice");
    assert_eq!(building.state, "building_index");
    assert!(building.retry);
    let rescanning = LifecycleNotice::for_state(Lifecycle::Rescanning).expect("rescan notice");
    assert_eq!(rescanning.state, "rescanning");
    assert!(!rescanning.retry, "rescan results are usable, no retry required");
}

fn map(names: &[&str], module: Option<&str>) -> FileMapL1 {
    FileMapL1 {
        language: "rust".to_string(),
        size_bytes: 1,
        had_errors: false,
        error_count: 0,
        symbols: names
            .iter()
            .map(|n| Symbol {
                name: n.to_string(),
                kind: SymbolKind::Function,
                start_byte: 0,
                end_byte: 1,
                start_row: 0,
                start_col: 0,
                signature: None,
                decorators: vec![],
            })
            .collect(),
        imports: module
            .iter()
            .map(|m| Import { module: Some(m.to_string()), raw: format!("use {m};"), start_byte: 0 })
            .collect(),
        implementations: vec![],
    }
}

fn stored(path: &str, map: Option<FileMapL1>) -> StoredFile {
    StoredFile { path: RelPath::from_text(path), map }
}

fn sym_names(cache: &MapCache, rel: &str) -> Vec<String> {
    cache
        .by_path
        .iter()
        .find(|f| f.path.bytes == rel.as_bytes())
        .map(|f| f.map.symbols.iter().map(|s| s.name.clone()).collect())
        .unwrap_or_default()
}

#[test]
fn with_delta_patches_updated_and_removed_paths_only() {
    let cache = MapCache::build(
        vec![
            stored("b.rs", Some(map(&["beta"], Some("x")))),
            stored("unreadable.rs", None),
            stored("a.rs", Some(map(&["alpha"], None))),
        ],
        None,
    );
    assert_eq!(sym_names(&cache, "a.rs"), vec!["alpha".to_string()]);
    assert_eq!(sym_names(&cache, "b.rs"), vec!["beta".to_string()]);
    assert!(cache.calls.is_none());
    assert_eq!(cache.by_path.len(), 2);
    assert_eq!(cache.imports_index[1].imports[0].raw, "use x;");

    let updates = vec![
        PathUpdate { path: RelPath::from_text("a.rs"), state: PathState::Read(map(&["alpha2", "alpha3"], None)) },
        PathUpdate { path: RelPath::from_text("b.rs"), state: PathState::Unreadable },
    ];
    let next = cache.with_delta(updates, &vec![]).expect("patched");
    assert_eq!(
        sym_names(&next, "a.rs"),
        vec!["alpha2".to_string(), "alpha3".to_string()],
        "updated path reflects fresh L1"
    );
    assert_eq!(
        sym_names(&next, "b.rs"),
        vec!["beta".to_string()],
        "untouched path preserved without re-reading its blob"
    );

    let after = next.with_delta(vec![], &vec![RelPath::from_text("b.rs")]).expect("patched");
    assert!(sym_names(&after, "b.rs").is_empty(), "removed path dropped from by_path");
    assert!(!sym_names(&after, "a.rs").is_empty(), "other path kept");
    assert!(
        !after.imports_index.iter().any(|f| f.path.bytes == b"b.rs"),
        "imports_index must not retain a removed path"
    );

    let gone = vec![PathUpdate { path: RelPath::from_text("a.rs"), state: PathState::Gone }];
    assert!(after.with_delta(gone, &vec![]).expect("patched").by_path.is_empty());
}

#[test]
fn a_cache_with_a_call_index_is_built_anew() {
    let calls = vec![FileCalls {
        rel: RelPath::from_text("a.rs"),
        calls: vec![Call { callee: "f".to_string(), start_byte: 3, start_row: 0, start_col: 3 }],
    }];
    let cache = MapCache::build(vec![stored("a.rs", Some(map(&["f"], None)))], Some(calls));
    assert_eq!(cache.calls.as_ref().unwrap().len(), 1);
    assert!(cache.with_delta(vec![], &vec![]).is_none());
    assert!(MapCache::empty().by_path.is_empty());
}

fn facts(sizes: Vec<u64>) -> BootFacts {
    BootFacts {
        repo_scope: Some("git:example".to_string()),
        root: "/r".to_string(),
        history_enabled: true,
        view_is_working: true,
        file_sizes: sizes,
        symbols_empty: Some(false),
    }
}

#[test]
fn an_empty_index_is_scanned_at_boot() {
    let p = plan_boot(&facts(vec![]), ServerOptions::default());
    assert!(p.initial_scan && !p.defer_warm && !p.collect_blobs && p.open_history && p.sync_history);
    assert_eq!(p.watcher, Some(WatcherKind::FileSystem));
    let p = plan_boot(&facts(vec![3, 4]), ServerOptions::default());
    assert!(!p.initial_scan && p.defer_warm && p.warm_cache && p.collect_blobs);
    assert_eq!((p.corpus_bytes, p.scope.as_str()), (7, "git:example"));
    let mut stale = facts(vec![3]);
    stale.symbols_empty = Some(true);
    assert!(plan_boot(&stale, ServerOptions::default()).initial_scan);
}

#[test]
fn a_oneshot_server_boots_still() {
    let p = plan_boot(&facts(vec![]), ServerOptions::oneshot());
    assert!(!p.defer_warm && !p.cache_warming && !p.initial_scan_active && !p.rescan_active);
    assert!(!p.initial_scan && !p.warm_cache && !p.collect_blobs && !p.sync_history);
    assert_eq!((p.generation, p.read_only, p.daemon_writer, p.watcher), (1, false, false, None));
    assert_eq!((p.log_ordinal, p.outline_cap), (1, 512));
}

#[test]
fn a_read_only_server_does_not_write() {
    let mut o = ServerOptions::default();
    o.read_only = true;
    let p = plan_boot(&facts(vec![]), o);
    assert!(!p.initial_scan && !p.open_history && p.read_only);
    assert_eq!(p.watcher, Some(WatcherKind::View));
    o.daemon_writer = true;
    let p = plan_boot(&facts(vec![]), o);
    assert!(p.initial_scan && !p.open_history);
    assert_eq!(p.watcher, Some(WatcherKind::FileSystem));
}

#[test]
fn a_oneshot_server_starts_nothing() {
    let mut f = facts(vec![1]);
    f.repo_scope = None;
    let p = plan_boot(&f, ServerOptions::oneshot());
    assert_eq!(p.scope, "path:/r");
    assert!(p.watcher.is_none() && !p.initial_scan && !p.defer_warm && !p.collect_blobs && !p.open_history);
}

#[test]
fn refreshes_follow_the_scan() {
    let results = vec![
        FileVerdict { path: "a.rs".to_string(), status: FileStatus::Updated },
        FileVerdict { path: "b.rs".to_string(), status: FileStatus::Untouched },
        FileVerdict { path: "c.rs".to_string(), status: FileStatus::Removed },
    ];
    match plan_refresh(true, 1, 1, &results) {
        Refresh::Delta { updated, removed } => {
            assert_eq!((updated.len(), removed.len()), (1, 1));
            assert_eq!(updated[0].bytes, b"a.rs");
            assert_eq!(removed[0].bytes, b"c.rs");
        }
        _ => panic!("a patch was due"),
    }
    let idle = plan_refresh(true, 0, 0, &results);
    assert!(matches!(idle, Refresh::Nothing));
    let full = plan_refresh(false, 0, 0, &results);
    assert!(matches!(full, Refresh::Rebuild));
    assert_eq!((next_generation(4, &idle), next_generation(4, &full), next_generation(u32::MAX, &full)), (4, 5, 0));
    let same = plan_forwarded(9, 9, 4);
    assert_eq!((same.rebuild, same.generation), (false, 5));
    assert!(plan_forwarded(9, 8, 4).rebuild);
}

#[test]
fn a_read_only_rescan_is_refused() {
    assert!(check_writable(false).is_ok());
    let e = check_writable(true).unwrap_err();
    assert!(e.message().starts_with("this basemind serve is read-only: another serve process holds the write lock"));
}

#[test]
fn levels_gate_log_messages() {
    assert_eq!((level_ordinal(LoggingLevel::Debug), level_ordinal(LoggingLevel::Emergency)), (0, 7));
    assert!(!should_log(DEFAULT_LOG_ORDINAL, LoggingLevel::Debug));
    assert!(should_log(DEFAULT_LOG_ORDINAL, LoggingLevel::Info));
    assert!(should_log(level_ordinal(LoggingLevel::Error), LoggingLevel::Critical));
    assert!(!should_log(level_ordinal(LoggingLevel::Error), LoggingLevel::Warning));
}

#[test]
fn flags_of_the_command_line() {
    assert_eq!(default_log_directive(Verbosity::from_flags(true, false)), "warn");
    assert_eq!(default_log_directive(Verbosity::from_flags(false, false)), "info");
    assert_eq!(default_log_directive(Verbosity::from_flags(false, true)), "debug");
    let w = warn_ignored_global_flags(CommandKind::Scan, true, "staged");
    assert!(w.json && w.view);
    let w = warn_ignored_global_flags(CommandKind::Serve, true, "staged");
    assert!(w.json && !w.view);
    let w = warn_ignored_global_flags(CommandKind::Query, true, "staged");
    assert!(!w.json && !w.view);
    let w = warn_ignored_global_flags(CommandKind::Init, false, "working");
    assert!(!w.json && !w.view);
    assert!(rescans_all(false, &vec![]) && rescans_all(true, &vec!["a".to_string()]));
    assert!(!rescans_all(false, &vec!["a".to_string()]));
    assert_eq!(scan_target(true, true), ScanTarget::Staged);
    assert_eq!(scan_target(false, true), ScanTarget::Revision);
    assert_eq!(scan_target(false, false), ScanTarget::WorkingTree);
}

#[test]
fn an_unscanned_view_is_not_served() {
    assert!(check_served_view("working", false).is_ok());
    assert!(check_served_view("rev-abc", true).is_ok());
    assert_eq!(
        check_served_view("rev-abc", false).unwrap_err(),
        "view \"rev-abc\" has not been scanned; run `basemind scan --view rev-abc` first (or omit --view to serve the working view)"
    );
}

#[test]
fn languages_are_listed_with_their_state() {
    let supported = vec!["rust".to_string(), "go".to_string()];
    let installed = vec!["cpp".to_string(), "rust".to_string()];
    let l = list_languages(&supported, &installed);
    assert_eq!(l.ready, vec![true, false]);
    assert_eq!(l.extras, vec!["cpp".to_string()]);
}

#[test]
fn the_parse_timeout_comes_from_the_environment() {
    assert_eq!(parse_timeout_ms(None), 5000);
    assert_eq!(parse_timeout_ms(Some("250")), 250);
    assert_eq!(parse_timeout_ms(Some("+7")), 7);
    assert_eq!(parse_timeout_ms(Some("18446744073709551615")), u64::MAX);
    for bad in ["", "+", "-1", "1s", "18446744073709551616"] {
        assert_eq!(parse_timeout_ms(Some(bad)), 5000, "{bad} is no number");
    }
    assert_eq!(parse_end(true, true), ParseEnd::Parsed);
    assert_eq!(parse_end(false, true), ParseEnd::TimedOut);
    assert_eq!(parse_end(false, false), ParseEnd::Failed);
}
