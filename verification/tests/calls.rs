use basemind::callers::{definition_starts, identifier_at, UseSite};
use basemind::calls::{scan_calls, scan_calls_in_ram, FileCalls, InRamCallIndex};
use basemind::cursor::Cursor;
use basemind::find::{
    definition_view, find_callers_page, find_definition, run_find_callers, run_find_references, scan_references,
    FindCallersParams, FindReferencesParams,
};
use basemind::keys::{call_by_callee, parse_call_by_callee};
use basemind::model::{Call, FileMapL1, MappedFile, RelPath, Symbol, SymbolKind};
use basemind::navigate::{goto_definition, line_col_to_offset, offset_to_line_col};
use basemind::resolve::resolve_file;
use basemind::stored_calls::{resolve_call_line_col, scan_calls_by_name, StoredCall};
use basemind::walk::{run_call_graph, CallGraphParams, Truncation};

/// Every occurrence of `name(` in `source` that is no definition, as a call of `callee`.
fn calls_in(source: &str, name: &str) -> Vec<Call> {
    let mut out = Vec::new();
    for (row, line) in source.lines().enumerate() {
        let base = source.lines().take(row).map(|l| l.len() + 1).sum::<usize>();
        let mut from = 0;
        while let Some(at) = line[from..].find(&format!("{name}(")) {
            let col = from + at;
            let before = &line[..col];
            if !before.ends_with("def ") && !before.ends_with("function ") && !before.ends_with("fn ") {
                out.push(Call {
                    callee: name.to_string(),
                    start_byte: (base + col) as u32,
                    start_row: row as u32,
                    start_col: col as u32,
                });
            }
            from = col + name.len();
        }
    }
    out
}

fn index(files: &[(&str, &str)], name: &str) -> InRamCallIndex {
    InRamCallIndex::build(
        files
            .iter()
            .map(|(p, s)| FileCalls { rel: RelPath::from_text(p), calls: calls_in(s, name) })
            .collect(),
    )
}

fn mapped(path: &str, source: &str, defs: &[(&str, &str)]) -> MappedFile {
    let symbols = defs
        .iter()
        .map(|(name, header)| {
            let at = source.find(header).unwrap();
            let end = source[at..].find("\n\n").map(|n| at + n).unwrap_or(source.len());
            Symbol {
                name: name.to_string(),
                kind: SymbolKind::Function,
                start_byte: at as u32,
                end_byte: end as u32,
                start_row: source[..at].matches('\n').count() as u32,
                start_col: 0,
                signature: None,
                decorators: vec![],
            }
        })
        .collect();
    MappedFile {
        path: RelPath::from_text(path),
        map: FileMapL1 {
            language: "typescript".to_string(),
            size_bytes: source.len() as u64,
            had_errors: false,
            error_count: 0,
            symbols,
            imports: vec![],
            implementations: vec![],
        },
    }
}

fn callers_params(path: &str, limit: u32) -> FindCallersParams {
    FindCallersParams {
        path: RelPath::from_text(path),
        name: "target".to_string(),
        kind: None,
        limit: Some(limit),
        max_tokens: None,
        cursor: None,
    }
}

/// The uses within one file of the definition of `target` in it.
fn uses_of_target(files: &Vec<MappedFile>, params: &FindCallersParams, path: &str, source: &str) -> Vec<UseSite> {
    let symbol = find_definition(files, params).unwrap().expect("the definition");
    let refs = resolve_file("typescript", path, source.as_bytes(), None);
    let starts = definition_starts(symbol, &refs.intra, &refs.exports, source.as_bytes());
    assert!(
        !refs.intra.iter().any(|e| e.def_start == symbol.start_byte),
        "L1 node start_byte must differ from the resolver's def identifier byte"
    );
    refs.intra
        .iter()
        .filter(|e| starts.contains(&e.def_start))
        .map(|e| UseSite { path: RelPath::from_text(path), start: e.use_start })
        .collect()
}

#[test]
fn in_ram_call_index_resolves_references() {
    let idx = index(
        &[("a.rs", "pub fn alpha() {}\n"), ("b.rs", "fn beta() { alpha(); alpha(); }\n")],
        "alpha",
    );
    let page = scan_calls_in_ram(&idx, "alpha", 100, None);
    assert_eq!(page.total, 2, "two alpha() call sites in b.rs");
    assert_eq!(page.hits.len(), 2);
    assert!(page.hits.iter().all(|h| h.hit.callee == "alpha"));
    assert!(
        page.hits.iter().all(|h| h.hit.path.bytes == b"b.rs"),
        "both references live in b.rs"
    );
    assert_eq!(idx.callers_of("alpha").len(), 2);
    assert_eq!(idx.calls_in_file(&RelPath::from_text("b.rs")).len(), 2);
    assert!(idx.calls_in_file(&RelPath::from_text("a.rs")).is_empty());
    assert_eq!(scan_calls(None, "alpha", 5, None).total, 0);
}

#[test]
fn find_callers_reports_cross_file_callers_resolution_cannot_see() {
    let sources = [
        ("caller_a.py", "from pkg import mod\n\n\ndef go():\n    return mod.target()\n"),
        ("caller_b.py", "from pkg import mod\n\n\ndef go2():\n    return mod.target() + mod.target()\n"),
        ("pkg/mod.py", "def target():\n    return 1\n\n\ndef seed():\n    return target()\n"),
    ];
    let idx = index(&sources, "target");
    let references = scan_references(
        Some(&idx),
        &FindReferencesParams { name: "target".to_string(), limit: Some(500), cursor: None, max_tokens: None },
    )
    .unwrap();
    assert_eq!(references.total, 4, "ground truth: find_references sees all 4 target() call sites");

    // Resolution proves the self-call alone.
    let own = sources[2].1.rfind("target()").unwrap() as u32;
    let uses = [UseSite { path: RelPath::from_text("pkg/mod.py"), start: own }];
    let callers = find_callers_page(Some(&idx), &callers_params("pkg/mod.py", 500), &uses).unwrap();
    assert_eq!(callers.page.total, 4, "find_callers must NOT shrink to the resolution-visible subset");
    let paths: Vec<&[u8]> = callers.page.hits.iter().map(|h| h.hit.path.bytes.as_slice()).collect();
    assert!(
        paths.contains(&&b"caller_a.py"[..]) && paths.contains(&&b"caller_b.py"[..]),
        "the module-import callers resolution cannot see must still be reported: {paths:?}"
    );
    assert_eq!(
        callers.page.total, references.total,
        "find_callers and find_references must agree on an unambiguous name"
    );
    assert!(
        callers.resolved_total <= 4,
        "resolved_total is a lower bound on the truth, never above total"
    );
    assert_eq!(callers.resolved_total, 1);
}

#[test]
fn find_callers_reports_namespace_import_callers_the_js_resolver_cannot_bind() {
    let util = "export function target() { return 1; }\ntarget();\n";
    let consumer = "import * as util from './util';\nutil.target();\nutil.target();\n";
    let idx = index(&[("consumer.ts", consumer), ("util.ts", util)], "target");
    let files = vec![mapped("util.ts", util, &[("target", "export function target")])];
    let params = callers_params("util.ts", 500);
    let uses = uses_of_target(&files, &params, "util.ts", util);
    let body = find_callers_page(Some(&idx), &params, &uses).unwrap();
    assert_eq!(
        body.page.total, 3,
        "all 3 call sites — the resolvable self-call AND the 2 namespace-import callers"
    );
    assert_eq!(
        body.resolved_total, 1,
        "resolution can only PROVE the intra-file self-call — it must not pass that off as the total"
    );
    let consumer_hits = body.page.hits.iter().filter(|h| h.hit.path.bytes == b"consumer.ts").count();
    assert_eq!(
        consumer_hits, 2,
        "the namespace-import callers resolution cannot see must still be reported"
    );
    assert!(
        body.page.hits.iter().all(|h| h.hit.resolved.is_some()),
        "every hit is annotated so the agent can tell proven from unproven"
    );
}

#[test]
fn find_callers_annotates_resolved_edges_without_dropping_same_name_sites() {
    let util = "export function target() { return 1; }\ntarget();\ntarget();\n";
    let other = "function target() { return 3; }\ntarget();\n";
    let idx = index(&[("other.ts", other), ("util.ts", util)], "target");
    let files = vec![
        mapped("other.ts", other, &[("target", "function target")]),
        mapped("util.ts", util, &[("target", "export function target")]),
    ];
    let params = callers_params("util.ts", 100);
    let uses = uses_of_target(&files, &params, "util.ts", util);
    let body = find_callers_page(Some(&idx), &params, &uses).unwrap();
    assert_eq!(
        body.resolved_total, 2,
        "exactly the two util.ts callers are PROVEN to bind to util.ts target"
    );
    assert_eq!(
        body.page.total, 3,
        "the other.ts same-name call site is still reported, not dropped"
    );
    let with = |flag: bool| -> Vec<String> {
        body.page
            .hits
            .iter()
            .filter(|h| h.hit.resolved == Some(flag))
            .map(|h| String::from_utf8(h.hit.path.bytes.clone()).unwrap())
            .collect()
    };
    assert_eq!(
        with(true),
        vec!["util.ts", "util.ts"],
        "only the util.ts sites are proven — other.ts is never conflated INTO the proven set"
    );
    assert_eq!(
        with(false),
        vec!["other.ts"],
        "the same-name site is surfaced as unproven, so a precision-seeking caller can filter it"
    );
    let symbol = find_definition(&files, &params).unwrap().unwrap();
    let view = definition_view(&params.path, symbol);
    assert_eq!((view.name.as_str(), view.kind, view.start_row), ("target", "function", 0));
    let sizes = vec![40u64; body.page.hits.len()];
    let mut budget = callers_params("util.ts", 100);
    budget.max_tokens = Some(20);
    let out = run_find_callers(&budget, Some(view), body, &sizes);
    assert_eq!((out.total, out.resolved_total, out.hits.len(), out.budgeted), (3, 2, 2, true));
    assert_eq!(out.next_cursor.unwrap().decode_fjall().unwrap(), out.hits[1].key);
}

#[test]
fn a_renamed_import_is_added_to_the_callers() {
    let idx = InRamCallIndex::build(vec![
        FileCalls { rel: RelPath::from_text("a.ts"), calls: calls_in("g();\n", "g") },
        FileCalls { rel: RelPath::from_text("b.ts"), calls: calls_in("target();\n", "target") },
    ]);
    let uses = [UseSite { path: RelPath::from_text("a.ts"), start: 0 }];
    let body = find_callers_page(Some(&idx), &callers_params("u.ts", 10), &uses).unwrap();
    assert_eq!((body.page.total, body.resolved_total), (2, 1));
    let seen: Vec<(&str, Option<bool>)> =
        body.page.hits.iter().map(|h| (h.hit.callee.as_str(), h.hit.resolved)).collect();
    assert_eq!(seen, vec![("g", Some(true)), ("target", Some(false))]);
}

#[test]
fn references_page_by_cursor() {
    let idx = index(&[("a.rs", "f(); f(); f();\n")], "f");
    let mut params = FindReferencesParams { name: "f".to_string(), limit: Some(2), cursor: None, max_tokens: None };
    let first = scan_references(Some(&idx), &params).unwrap();
    assert_eq!((first.total, first.hits.len(), first.total_is_partial), (3, 2, false));
    let sizes = vec![4u64; 2];
    let out = run_find_references(&params, first, &sizes);
    assert!(!out.budgeted);
    params.cursor = out.next_cursor;
    let second = scan_references(Some(&idx), &params).unwrap();
    assert_eq!(second.hits.len(), 1);
    assert_eq!(second.hits[0].hit.column, 10);
    assert!(second.next_cursor.is_none());
    params.cursor = Some(Cursor("*".to_string()));
    assert_eq!(scan_references(Some(&idx), &params).err().unwrap().message(), "invalid cursor");
}

#[test]
fn an_unknown_kind_is_refused() {
    let files = vec![mapped("a.ts", "function target() {}\n", &[("target", "function target")])];
    let mut params = callers_params("a.ts", 5);
    params.kind = Some("Function".to_string());
    assert!(find_definition(&files, &params).unwrap().is_some());
    params.kind = Some("struct".to_string());
    assert!(find_definition(&files, &params).unwrap().is_none());
    params.kind = Some("Widget".to_string());
    assert_eq!(find_definition(&files, &params).unwrap_err().message(), "unknown symbol kind: widget");
}

#[test]
fn call_keys_split_back() {
    let rel = RelPath::from_text("src/a.rs");
    let key = call_by_callee("foo", &rel, 258).unwrap();
    assert_eq!(key, b"\x00\x03foosrc/a.rs\x00\x00\x01\x02");
    let parts = parse_call_by_callee(&key).unwrap();
    assert_eq!((parts.callee.as_str(), parts.start), ("foo", 258));
    assert_eq!(parts.rel.bytes, b"src/a.rs");
    assert!(parse_call_by_callee(b"\x00\x09x").is_none());
}

#[test]
fn identifiers_end_where_their_characters_do() {
    assert_eq!(identifier_at(b"let foo_1 = 2;", 4), b"foo_1");
    assert_eq!(identifier_at(b"let x", 99), b"");
}

#[test]
fn a_use_leads_to_its_definition() {
    let src = "function f() {\n  const x = 1;\n  return x;\n}\n";
    let refs = resolve_file("typescript", "a.ts", src.as_bytes(), None);
    let out = goto_definition(Some(&refs), RelPath::from_text("a.ts"), "a.ts", src.as_bytes(), 3, 9).unwrap();
    let d = out.definition.unwrap();
    assert_eq!((d.line, d.column, d.name.as_str()), (2, 8, "x"));
    let none = goto_definition(Some(&refs), RelPath::from_text("a.ts"), "a.ts", src.as_bytes(), 1, 0).unwrap();
    assert!(none.definition.is_none());
    let e = goto_definition(None, RelPath::from_text("a.ts"), "a.ts", src.as_bytes(), 99, 0).unwrap_err();
    assert_eq!(e.message(), "goto_definition: position 99:0 is out of range in a.ts");
}

// ─── Call graphs ─────────────────────────────────────────────────────────────

fn graph_fixture() -> (Vec<MappedFile>, InRamCallIndex) {
    let source = "fn top() {\n  mid();\n}\n\nfn mid() {\n  low();\n}\n\nfn low() {\n}\n";
    let files = vec![mapped("a.rs", source, &[("top", "fn top"), ("mid", "fn mid"), ("low", "fn low")])];
    let mut calls = calls_in(source, "mid");
    calls.extend(calls_in(source, "low"));
    let idx = InRamCallIndex::build(vec![FileCalls { rel: RelPath::from_text("a.rs"), calls }]);
    (files, idx)
}

fn graph(name: &str, direction: &str, depth: u32, nodes: u32) -> CallGraphParams {
    CallGraphParams {
        name: name.to_string(),
        path: None,
        direction: direction.to_string(),
        max_depth: Some(depth),
        max_nodes: Some(nodes),
    }
}

#[test]
fn call_graphs_walk_both_ways() {
    let (files, idx) = graph_fixture();
    let up = run_call_graph(Some(&idx), graph("low", "callers", 5, 50), &files).unwrap();
    let names: Vec<(&str, u32)> = up.nodes.iter().map(|n| (n.name.as_str(), n.depth)).collect();
    assert_eq!(names, [("low", 0), ("mid", 1), ("top", 2)]);
    assert_eq!(up.nodes[1].edges_to, [0]);
    assert_eq!(up.nodes[2].edges_to, [1]);
    assert!(!up.truncated);
    let down = run_call_graph(Some(&idx), graph("top", "callees", 5, 50), &files).unwrap();
    let names: Vec<&str> = down.nodes.iter().map(|n| n.name.as_str()).collect();
    assert_eq!(names, ["top", "mid", "low"]);
    assert_eq!(down.nodes[0].edges_to, [1]);
    let short = run_call_graph(Some(&idx), graph("low", "callers", 1, 50), &files).unwrap();
    assert_eq!(short.nodes.len(), 2);
    let few = run_call_graph(Some(&idx), graph("low", "callers", 5, 2), &files).unwrap();
    assert_eq!(few.nodes.len(), 2);
    assert!(few.truncated && few.truncation_reason.is_some());
    assert_eq!(Truncation::as_str(few.truncation_reason.unwrap()), "max_nodes");
    assert!(run_call_graph(Some(&idx), graph("low", "sideways", 1, 1), &files).is_err());
}

#[test]
fn a_graph_that_runs_out_of_nodes_keeps_the_edges_before() {
    let source = "fn r() {\n  r(); a();\n}\n\nfn a() {\n  b(); c();\n}\n";
    let files = vec![mapped("a.rs", source, &[("r", "fn r"), ("a", "fn a")])];
    let mut calls = Vec::new();
    for name in ["r", "a", "b", "c"] {
        calls.extend(calls_in(source, name));
    }
    let idx = InRamCallIndex::build(vec![FileCalls { rel: RelPath::from_text("a.rs"), calls }]);
    let out = run_call_graph(Some(&idx), graph("r", "callees", 5, 3), &files).unwrap();
    assert_eq!(out.nodes.len(), 3);
    assert_eq!(Truncation::as_str(out.truncation_reason.unwrap()), "max_nodes");
    assert!(out.nodes[0].edges_to.contains(&0), "the root calls itself");
    assert!(out.nodes[0].edges_to.contains(&1));
    assert!(out.nodes[2].edges_to.is_empty(), "what was found last is not expanded");
}

fn stored(callee: &str, path: &str, start: u32, position: Option<(u32, u32)>) -> StoredCall {
    StoredCall { key: call_by_callee(callee, &RelPath::from_text(path), start).unwrap(), position }
}

#[test]
fn stored_calls_are_scanned_by_name() {
    let calls = vec![
        stored("run", "a.rs", 4, Some((2, 7))),
        StoredCall { key: vec![9], position: Some((0, 0)) },
        stored("rerun", "b.rs", 1, None),
        stored("walk", "b.rs", 2, Some((0, 0))),
    ];
    let page = scan_calls_by_name(&calls, "run", 10);
    assert_eq!(page.total, 2);
    assert!(!page.total_is_partial);
    assert!(page.next_cursor.is_none());
    assert_eq!(page.hits[0].hit.callee, "run");
    assert_eq!((page.hits[0].hit.line, page.hits[0].hit.column, page.hits[0].start), (3, 7, 4));
    assert_eq!(page.hits[1].hit.callee, "rerun");
    assert_eq!((page.hits[1].hit.line, page.hits[1].hit.column), (0, 0));

    let first = scan_calls_by_name(&calls, "run", 1);
    assert_eq!(first.total, 2);
    assert_eq!(first.hits.len(), 1);
    assert_eq!(first.next_cursor.unwrap().decode_fjall().unwrap(), calls[0].key);
    assert_eq!(resolve_call_line_col(None), (0, 0));
}

#[test]
fn stored_calls_stop_counting_at_the_cap() {
    let calls: Vec<StoredCall> = (0..2100).map(|i| stored("run", "a.rs", i, None)).collect();
    let page = scan_calls_by_name(&calls, "run", 5);
    assert_eq!(page.total, 2000);
    assert!(page.total_is_partial);
    assert_eq!(page.hits.len(), 5);
}

#[test]
fn positions_lead_back_to_their_offsets() {
    let source = "a\n\nbc\r\nd é\n".as_bytes();
    for offset in 0..=source.len() as u32 {
        let (line, column) = offset_to_line_col(source, offset);
        assert_eq!(line_col_to_offset(source, line, column), Some(offset));
    }
    assert_eq!(offset_to_line_col(b"\n\n", 9), (3, 0));
}
