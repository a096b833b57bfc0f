use basemind::js::{analysis_of, analyze, source_type_for_path, JsAnalysis, JsExportEntry, JsImportEntry, JsImportName, JsSymbol};
use basemind::navigate::{containing_edge, line_col_to_offset, offset_to_line_col, slice_span};
use basemind::resolution::{ExportEdge, FileResolvedRefs, ImportEdge, ResolvedEdge};
use basemind::resolve::{is_js_ts, resolve_file, resolve_via_locals};
use basemind::restitch::{restitch_affected, CandidateFile};
use basemind::stackgraph::{
    adapt_python_tsg, deadline_expired, export_query_source, has_tsg_ruleset, import_query_source, intra_edges,
    resolve_stackgraph, span_bytes, tsg_source, BindingPath, Capture, EngineReport, NodeSpan, QueryMatch,
};
use basemind::stitch::{
    file_facts, harvest_cross_file_facts, import_bound_edges, stitch_cross_file_edges, to_repo_relative, ResolvedFile,
    StitchFile,
};

fn ts(source: &str) -> JsAnalysis {
    analyze(source, &source_type_for_path("a.ts").expect("ts"))
}

#[test]
fn resolves_call_to_its_definition() {
    let src = "function greet(name) {\n  return name;\n}\ngreet(\"hi\");\n";
    let a = ts(src);
    assert!(!a.had_errors);
    let greet_def = src.find("function greet").unwrap() + "function ".len();
    let greet_call = src.rfind("greet(").unwrap();
    let call_ref = a
        .resolved
        .iter()
        .find(|r| r.name == "greet" && r.use_start as usize == greet_call)
        .expect("greet call must resolve");
    assert_eq!(
        call_ref.def_start as usize, greet_def,
        "greet call binds to the function def"
    );
}

#[test]
fn shadowing_resolves_to_inner_binding() {
    let src = "const x = 1;\nfunction f() {\n  const x = 2;\n  return x;\n}\n";
    let a = ts(src);
    let outer_x = src.find("const x = 1").unwrap() + "const ".len();
    let inner_x = src.find("const x = 2").unwrap() + "const ".len();
    let use_x = src.rfind("return x").unwrap() + "return ".len();
    let r = a
        .resolved
        .iter()
        .find(|r| r.name == "x" && r.use_start as usize == use_x)
        .expect("inner x use must resolve");
    assert_eq!(r.def_start as usize, inner_x, "must bind to inner x, not outer");
    assert_ne!(r.def_start as usize, outer_x);
}

#[test]
fn extracts_named_and_default_imports() {
    let src = "import def, { foo, bar as baz } from './mod';\nimport * as ns from 'pkg';\nimport type { T } from './t';\n";
    let a = ts(src);
    let by_local = |l: &str| a.imports.iter().find(|i| i.local == l).cloned();

    let foo = by_local("foo").expect("named import foo");
    assert_eq!(foo.specifier, "./mod");
    assert_eq!(foo.imported.as_deref(), Some("foo"));
    assert!(!foo.is_type, "runtime import must have is_type=false");

    let t = by_local("T").expect("type-only import T");
    assert!(t.is_type, "`import type` must set is_type=true");

    let baz = by_local("baz").expect("aliased import baz");
    assert_eq!(
        baz.imported.as_deref(),
        Some("bar"),
        "aliased import keeps the source name"
    );

    let def = by_local("def").expect("default import");
    assert_eq!(def.imported, None, "default import has no source name");

    let ns = by_local("ns").expect("namespace import");
    assert_eq!(ns.imported, None, "namespace import has no source name");
}

#[test]
fn extracts_named_exports() {
    let src = "export function alpha() {}\nexport const beta = 1;\n";
    let a = analyze(src, &source_type_for_path("m.mjs").expect("mjs"));
    let mut names: Vec<&str> = a.exports.iter().map(|e| e.name.as_str()).collect();
    names.sort_unstable();
    assert_eq!(names, ["alpha", "beta"], "exactly alpha and beta must be exported");
}

#[test]
fn free_identifier_is_not_resolved() {
    let src = "function f() {\n  return fetch('/x');\n}\n";
    let a = ts(src);
    assert!(
        !a.resolved.iter().any(|r| r.name == "fetch"),
        "global `fetch` must not resolve to an in-file def"
    );
}

#[test]
fn a_broken_source_reports_errors() {
    assert!(ts("function (").had_errors);
    assert!(!ts("").had_errors);
}

#[test]
fn only_js_and_ts_paths_have_a_source_type() {
    for p in ["a.js", "a.mjs", "a.cjs", "a.jsx", "a.ts", "a.mts", "a.cts", "a.tsx", "a.d.ts"] {
        assert_eq!(source_type_for_path(p).expect("known").path, p);
    }
    for p in ["a.py", "a", "", "ts"] {
        assert!(source_type_for_path(p).is_none(), "{p} is no JavaScript");
    }
}

#[test]
fn an_analysis_is_read_off_what_was_reported() {
    let symbols = vec![
        JsSymbol { name: "f".to_string(), def_start: 9, def_end: 10, uses: vec![(20, 21), (30, 31)] },
        JsSymbol { name: "g".to_string(), def_start: 40, def_end: 41, uses: vec![] },
    ];
    let imports = vec![JsImportEntry {
        local: "n".to_string(),
        local_start: 3,
        specifier: "m".to_string(),
        name: JsImportName::NamespaceObject,
        is_type: false,
    }];
    let exports = vec![
        JsExportEntry { name: None },
        JsExportEntry { name: Some(("f".to_string(), 9)) },
    ];
    let a = analysis_of(&symbols, &imports, &exports, false, 1);
    assert_eq!(a.resolved.len(), 2);
    assert_eq!((a.resolved[1].def_start, a.resolved[1].use_start), (9, 30));
    assert_eq!(a.imports[0].imported, None);
    assert_eq!(a.exports.len(), 1);
    assert_eq!(a.exports[0].name_start, 9);
    assert!(a.had_errors);
}

#[test]
fn resolve_file_js_yields_intra_edges_and_imports() {
    let src = b"import { helper } from './util';\nfunction f() {\n  const x = 1;\n  return x + helper();\n}\n";
    let refs = resolve_file("typescript", "app.ts", src, None);

    let x_def = b"import { helper } from './util';\nfunction f() {\n  const ".len() as u32;
    assert!(
        refs.intra.iter().any(|e| e.def_start == x_def),
        "the `x` use must resolve to the local `const x` definition"
    );
    assert!(
        refs.imports
            .iter()
            .any(|i| i.local == "helper" && i.specifier == "./util"),
        "the `helper` import edge must be captured"
    );
}

#[test]
fn resolve_via_locals_emits_real_spans() {
    let src = b"def outer(a):\n    count = 1\n    return count + a\n";
    let count_def = b"def outer(a):\n    ".len() as u32;
    let count_use = b"def outer(a):\n    count = 1\n    return ".len() as u32;
    let bound = vec![ResolvedEdge {
        use_start: count_use,
        use_end: count_use + 5,
        def_start: count_def,
        def_end: count_def + 5,
    }];
    let refs = resolve_via_locals("python", Some(&bound));
    assert!(
        refs.intra
            .iter()
            .all(|e| e.use_end > e.use_start && e.def_end > e.def_start),
        "locals-path edges must carry real (non-zero-width) spans"
    );
    let edge = refs
        .intra
        .iter()
        .find(|e| e.use_start == count_use)
        .expect("the `count` use edge must be present");
    assert_eq!(
        edge.use_end - edge.use_start,
        "count".len() as u32,
        "count ref span width"
    );
    assert_eq!(
        edge.def_end - edge.def_start,
        "count".len() as u32,
        "count def span width"
    );
    assert_eq!(slice_span(src, edge.use_start, edge.use_end), "count");
    assert_eq!(slice_span(src, edge.def_start, edge.def_end), "count");
}

#[test]
fn resolve_file_non_utf8_yields_empty() {
    let refs = resolve_file("typescript", "bad.ts", &[0xff, 0xfe, 0x00], None);
    assert!(refs.is_empty(), "non-UTF-8 source must yield empty facts, not panic");
    assert_eq!(refs.language, "typescript");
}

#[test]
fn an_unknown_extension_falls_back_to_locals() {
    let bound = vec![ResolvedEdge { use_start: 3, use_end: 4, def_start: 0, def_end: 1 }];
    let refs = resolve_file("javascript", "a.vue", b"let x", Some(&bound));
    assert_eq!(refs.intra.len(), 1);
    assert!(refs.imports.is_empty());
    assert!(is_js_ts("tsx"));
    assert!(!is_js_ts("python"));
}

#[test]
fn line_col_to_offset_maps_positions() {
    let src = b"const count = 1;\nreturn count;\n";
    assert_eq!(line_col_to_offset(src, 1, 6), Some(6));
    let second = (src.iter().position(|&b| b == b'\n').unwrap() + 1 + "return ".len()) as u32;
    assert_eq!(line_col_to_offset(src, 2, 7), Some(second));
    assert_eq!(line_col_to_offset(src, 9, 0), None);
}

#[test]
fn offset_to_line_col_roundtrips() {
    let src = b"a\nbb\nccc";
    assert_eq!(offset_to_line_col(src, 0), (1, 0));
    assert_eq!(offset_to_line_col(src, 2), (2, 0));
    assert_eq!(offset_to_line_col(src, 5), (3, 0));
    assert_eq!(offset_to_line_col(src, 999), (3, 3));
    for at in 0..src.len() as u32 {
        let (line, column) = offset_to_line_col(src, at);
        assert_eq!(line_col_to_offset(src, line, column), Some(at));
    }
}

#[test]
fn containing_edge_respects_spans() {
    let zero_width = ResolvedEdge { use_start: 10, use_end: 10, def_start: 0, def_end: 0 };
    assert!(containing_edge(std::slice::from_ref(&zero_width), 10).is_some());
    assert!(containing_edge(std::slice::from_ref(&zero_width), 11).is_none());

    let spanned = ResolvedEdge { use_start: 20, use_end: 25, def_start: 0, def_end: 5 };
    assert!(containing_edge(std::slice::from_ref(&spanned), 20).is_some());
    assert!(containing_edge(std::slice::from_ref(&spanned), 24).is_some());
    assert!(containing_edge(std::slice::from_ref(&spanned), 25).is_none());
}

// ─── Joining files ───────────────────────────────────────────────────────────

fn import(local: &str, specifier: &str, imported: Option<&str>, is_type: bool, at: u32) -> ImportEdge {
    ImportEdge {
        local: local.to_string(),
        specifier: specifier.to_string(),
        imported: imported.map(str::to_string),
        is_type,
        local_start: at,
    }
}

fn export(name: &str, at: u32) -> ExportEdge {
    ExportEdge { name: name.to_string(), name_start: at }
}

fn file(key: &str, imports: Vec<ImportEdge>, targets: Vec<Option<&str>>, exports: Vec<ExportEdge>) -> StitchFile {
    StitchFile {
        key: key.to_string(),
        imports,
        targets: targets.into_iter().map(|t| t.map(str::to_string)).collect(),
        exports,
    }
}

fn edges(files: &Vec<StitchFile>, indexed: &[&str]) -> Vec<(String, u32, String, u32)> {
    let known: Vec<String> = indexed.iter().map(|s| s.to_string()).collect();
    stitch_cross_file_edges(files, &known)
        .into_iter()
        .map(|e| (e.def_key, e.def_start, e.use_key, e.use_start))
        .collect()
}

#[test]
fn named_and_default_imports_reach_their_export() {
    let files = vec![
        file(
            "app.ts",
            vec![
                import("f", "./util", Some("f"), false, 9),
                import("d", "./util", None, false, 30),
                import("T", "./util", Some("T"), true, 50),
                import("gone", "./nowhere", Some("gone"), false, 70),
                import("missing", "./util", Some("missing"), false, 90),
            ],
            vec![Some("util.ts"), Some("util.ts"), Some("util.ts"), None, Some("util.ts")],
            vec![],
        ),
        file("util.ts", vec![], vec![], vec![export("f", 16), export("default", 40), export("T", 60)]),
    ];
    assert_eq!(
        edges(&files, &["app.ts", "util.ts"]),
        vec![
            ("util.ts".to_string(), 16, "app.ts".to_string(), 9),
            ("util.ts".to_string(), 40, "app.ts".to_string(), 30),
        ]
    );
    assert!(edges(&files, &["app.ts"]).is_empty(), "a target outside the index is no target");
}

#[test]
fn the_last_export_of_a_name_wins() {
    let files = vec![
        file("a.ts", vec![import("f", "./b", Some("f"), false, 1)], vec![Some("b.ts")], vec![]),
        file("b.ts", vec![], vec![], vec![export("f", 5), export("g", 6), export("f", 7)]),
    ];
    assert_eq!(edges(&files, &["b.ts"]), vec![("b.ts".to_string(), 7, "a.ts".to_string(), 1)]);
}

#[test]
fn keys_have_forward_slashes() {
    assert_eq!(to_repo_relative("src\\a\\b.ts"), "src/a/b.ts");
    assert_eq!(to_repo_relative("src/a.ts"), "src/a.ts");
}

fn refs(intra: Vec<ResolvedEdge>, imports: Vec<ImportEdge>, exports: Vec<ExportEdge>) -> FileResolvedRefs {
    let mut r = FileResolvedRefs::new("typescript");
    r.intra = intra;
    r.imports = imports;
    r.exports = exports;
    r
}

#[test]
fn uses_of_imports_are_kept_with_the_facts() {
    let to_import = ResolvedEdge { use_start: 40, use_end: 41, def_start: 9, def_end: 10 };
    let to_local = ResolvedEdge { use_start: 50, use_end: 51, def_start: 20, def_end: 21 };
    let r = refs(vec![to_local, to_import], vec![import("f", "./u", Some("f"), false, 9)], vec![]);
    assert_eq!(import_bound_edges(&r), vec![to_import]);
    assert_eq!(file_facts(&r).unwrap().import_uses, vec![to_import]);
    assert!(file_facts(&refs(vec![to_local], vec![], vec![])).is_none());

    let files = vec![
        ResolvedFile { key: "plain.ts".to_string(), refs: refs(vec![to_local], vec![], vec![]) },
        ResolvedFile { key: "app.ts".to_string(), refs: r },
    ];
    let facts = harvest_cross_file_facts(&files);
    assert_eq!(facts.len(), 1);
    assert_eq!(facts[0].key, "app.ts");
}

#[test]
fn a_change_reaches_its_importers_and_nobody_else() {
    let candidates = vec![
        CandidateFile {
            file: file("app.ts", vec![import("f", "./util", Some("f"), false, 9)], vec![Some("util.ts")], vec![]),
            resolvable: true,
        },
        CandidateFile {
            file: file("other.ts", vec![import("g", "./third", Some("g"), false, 9)], vec![Some("third.ts")], vec![]),
            resolvable: true,
        },
        CandidateFile { file: file("readme.md", vec![], vec![], vec![]), resolvable: false },
        CandidateFile { file: file("third.ts", vec![], vec![], vec![export("g", 3)]), resolvable: true },
        CandidateFile { file: file("util.ts", vec![], vec![], vec![export("f", 16)]), resolvable: true },
    ];
    let plan = restitch_affected(&candidates, &vec!["util.ts".to_string(), "readme.md".to_string()]);
    assert_eq!(plan.restage, vec!["app.ts".to_string()]);
    let keys: Vec<&str> = plan.stitch.iter().map(|f| f.key.as_str()).collect();
    assert_eq!(keys, ["app.ts", "util.ts"]);
    assert_eq!(edges(&plan.stitch, &["util.ts"]), vec![("util.ts".to_string(), 16, "app.ts".to_string(), 9)]);

    let own = restitch_affected(&candidates, &vec!["app.ts".to_string()]);
    assert!(own.restage.is_empty());
    assert_eq!(own.stitch.len(), 2);
    assert!(own.stitch[1].imports.is_empty(), "a provider is there for its exports only");

    let none = restitch_affected(&candidates, &vec!["readme.md".to_string()]);
    assert!(none.restage.is_empty() && none.stitch.is_empty());
}

// ─── Stack graphs ────────────────────────────────────────────────────────────

#[test]
fn the_python_rules_lose_what_the_grammar_lacks() {
    let rules = "[\n  (except_clause)\n  (except_group_clause)\n]\n(except_group_clause) {}\n(module) {}\n";
    assert_eq!(adapt_python_tsg(rules), "[\n  (except_clause)\n]\n(module) {}\n");
    assert_eq!(tsg_source("python", rules, "j").unwrap(), adapt_python_tsg(rules));
    assert_eq!(tsg_source("java", "p", "j").unwrap(), "j");
    assert_eq!(tsg_source("rust", "p", "j"), None);
    assert!(has_tsg_ruleset("java") && !has_tsg_ruleset("go"));
    assert!(import_query_source("python").unwrap().contains("@local"));
    assert!(export_query_source("java").unwrap().contains("record_declaration"));
    assert!(import_query_source("go").is_none() && export_query_source("go").is_none());
}

fn span(start: u32, end: u32) -> Option<NodeSpan> {
    Some(NodeSpan { start_line: 0, start_column: start, end_line: 0, end_column: end })
}

#[test]
fn spans_add_the_column_to_the_line() {
    let s = NodeSpan { start_line: 100, start_column: 4, end_line: 100, end_column: 9 };
    assert_eq!(span_bytes(Some(s)), Some((104, 109)));
    assert_eq!(span_bytes(span(5, 5)), None);
    assert_eq!(span_bytes(None), None);
}

#[test]
fn only_paths_within_the_file_become_edges() {
    let inside = BindingPath {
        use_in_file: true,
        use_span: span(10, 11),
        def_is_definition: true,
        def_in_file: true,
        def_span: span(2, 3),
    };
    let mut elsewhere = inside;
    elsewhere.def_in_file = false;
    let mut no_definition = inside;
    no_definition.def_is_definition = false;
    let mut spanless = inside;
    spanless.def_span = None;
    let got = intra_edges(&vec![elsewhere, inside, no_definition, inside, spanless]);
    assert_eq!(got, vec![ResolvedEdge { use_start: 10, use_end: 11, def_start: 2, def_end: 3 }]);
}

fn capture(index: u32, text: &str, at: u32) -> Capture {
    Capture { index, text: Some(text.to_string()), start_byte: at }
}

#[test]
fn a_module_capture_makes_a_named_import() {
    let report = EngineReport {
        paths: Some(vec![]),
        exports: Some((vec![QueryMatch { captures: vec![capture(0, "f", 4)] }], 0)),
        imports: Some((
            vec![
                QueryMatch { captures: vec![capture(1, "m", 5), capture(0, "f", 14)] },
                QueryMatch { captures: vec![capture(0, "os", 30)] },
                QueryMatch { captures: vec![capture(1, "m", 5)] },
            ],
            0,
            Some(1),
        )),
    };
    let r = resolve_stackgraph("python", b"from m import f\n", &report).unwrap();
    assert_eq!(r.exports[0].name, "f");
    assert_eq!(r.imports.len(), 2);
    assert_eq!(r.imports[0].specifier, "m");
    assert_eq!(r.imports[0].imported.as_deref(), Some("f"));
    assert_eq!(r.imports[0].local_start, 14);
    assert_eq!(r.imports[1].specifier, "");
    assert_eq!(r.imports[1].imported, None);

    assert!(resolve_stackgraph("python", &[0xff], &report).is_none());
    assert!(resolve_stackgraph("rust", b"x", &report).is_none(), "a language without rules");
    let failed = EngineReport { paths: None, exports: None, imports: None };
    assert!(resolve_stackgraph("python", b"x", &failed).is_none());
    assert!(deadline_expired(6, 5) && !deadline_expired(5, 5));
}
