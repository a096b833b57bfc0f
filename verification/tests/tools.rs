use basemind::code::{
    keyword_hits, run_get_chunk, run_search_code, search_lane, semantic_hits, split_chunk_id, wants_toon, ChunkBlob,
    ChunkLookup, CodeChunk, GetChunkParams, NearChunk, RankedChunk, SearchLane,
};
use basemind::cursor::{encode_in_memory_cursor, from_base64, to_base64, Cursor};
use basemind::git::{
    blame_symbol_too_large_response, blame_too_large_response, commit_to_view, git_history_if_fresh, head_sha,
    paginate_blame_hunks, require_git_repo, symbol_line_range, BlameHunk, ChangeKind, CommitFile, CommitInfo,
};
use basemind::grep::{extract_line, grep_files, grep_page, plan_grep, GrepFile, GrepHit, GrepParams, GrepPlan};
use basemind::impls::{run_find_implementations, FindImplementationsParams, ImplRow};
use basemind::navigate::line_col_to_offset;
use basemind::model::{
    kind_to_str, parse_kind, parse_kind_opt, FileMapL1, Implementation, Import, MappedFile, RelPath, Symbol, SymbolKind,
};
use basemind::tools::{
    dependents, list_files, outline, search_symbols, status, DependentsParams, FileMapL2, IndexEntry, L2Lookup,
    ListFilesParams, OutlineParams, SearchSymbolsParams,
};

fn symbol(name: &str, kind: SymbolKind, row: u32) -> Symbol {
    Symbol {
        name: name.to_string(),
        kind,
        start_byte: row * 10,
        end_byte: row * 10 + 5,
        start_row: row,
        start_col: 2,
        signature: Some(format!("sig {name}")),
        decorators: vec![],
    }
}

fn mapped(path: &str, language: &str, symbols: Vec<Symbol>, module: Option<&str>) -> MappedFile {
    MappedFile {
        path: RelPath::from_text(path),
        map: FileMapL1 {
            language: language.to_string(),
            size_bytes: 7,
            had_errors: true,
            error_count: 2,
            symbols,
            imports: module
                .iter()
                .map(|m| Import { module: Some(m.to_string()), raw: format!("use {m};"), start_byte: 1 })
                .collect(),
            implementations: vec![],
        },
    }
}

fn text(p: &RelPath) -> String {
    String::from_utf8(p.bytes.clone()).unwrap()
}

// ─── Code map ────────────────────────────────────────────────────────────────

#[test]
fn outlines_show_the_facts_of_a_file() {
    let f = mapped("a.rs", "rust", vec![symbol("f", SymbolKind::Method, 3)], Some("std::fmt"));
    let mut params = OutlineParams { path: "a.rs".to_string(), l2: false };
    let out = outline(&params, Ok(&f.map), L2Lookup::NoHash).unwrap();
    assert_eq!((out.path.as_str(), out.language.as_str(), out.size_bytes), ("a.rs", "rust", 7));
    assert_eq!((out.had_errors, out.error_count), (true, 2));
    assert_eq!((out.symbols[0].kind, out.symbols[0].start_row), ("method", 3));
    assert_eq!(out.imports[0].module.as_deref(), Some("std::fmt"));
    assert!(out.calls.is_none() && out.docs.is_none() && out.l2_status.is_none());
    params.l2 = true;
    let l2 = FileMapL2 { calls: vec![], docs: vec![] };
    let out = outline(&params, Ok(&f.map), L2Lookup::Found(l2)).unwrap();
    assert!(out.calls.is_some() && out.docs.is_some());
    let out = outline(&params, Ok(&f.map), L2Lookup::Missing).unwrap();
    assert!(out.l2_status.unwrap().starts_with("missing"));
    let e = outline(&params, Ok(&f.map), L2Lookup::NotIndexed).unwrap_err();
    assert_eq!(e.message(), "file not indexed after outline succeeded");
    let e = outline(&params, Ok(&f.map), L2Lookup::Failed("io".to_string())).unwrap_err();
    assert_eq!(e.message(), "read_l2: io");
    let e = outline(&params, Err("gone".to_string()), L2Lookup::Missing).unwrap_err();
    assert_eq!(e.message(), "file_outline(a.rs): gone");
}

fn search(needle: &str, kind: Option<&str>, limit: Option<u32>) -> SearchSymbolsParams {
    SearchSymbolsParams { needle: needle.to_string(), kind: kind.map(str::to_string), limit }
}

#[test]
fn symbols_are_found_by_a_part_of_their_name() {
    let files = vec![
        mapped("a.rs", "rust", vec![symbol("get_a", SymbolKind::Function, 1), symbol("Get", SymbolKind::Struct, 2)], None),
        mapped("b.rs", "rust", vec![symbol("forget", SymbolKind::Function, 1)], None),
    ];
    let out = search_symbols(&files, &search("get", None, None)).unwrap();
    assert_eq!((out.total, out.truncated), (2, false));
    assert_eq!((text(&out.results[1].path).as_str(), out.results[1].name.as_str()), ("b.rs", "forget"));
    let out = search_symbols(&files, &search("", Some("STRUCT"), None)).unwrap();
    assert_eq!(out.results.len(), 1);
    assert_eq!(out.results[0].kind, "struct");
    let out = search_symbols(&files, &search("", None, Some(1))).unwrap();
    assert_eq!((out.total, out.truncated, out.results.len()), (3, true, 1));
    assert_eq!(
        search_symbols(&files, &search("", Some("Gadget"), None)).unwrap_err().message(),
        "unknown symbol kind: gadget"
    );
    let many: Vec<Symbol> = (0..3000).map(|i| symbol("x", SymbolKind::Const, i)).collect();
    let out = search_symbols(&vec![mapped("a.rs", "rust", many, None)], &search("x", None, Some(10))).unwrap();
    assert_eq!((out.total, out.truncated, out.results.len()), (2000, true, 10));
}

fn entry(path: &str, language: &str, size: u64) -> IndexEntry {
    IndexEntry { path: path.to_string(), language: language.to_string(), size_bytes: size }
}

#[test]
fn files_are_listed_and_counted() {
    let entries = vec![entry("a.py", "python", 1), entry("src/b.rs", "rust", 2), entry("src/c.py", "python", u64::MAX)];
    let mut params = ListFilesParams { path_contains: Some("src".to_string()), language: None, limit: None };
    let out = list_files(&entries, &params);
    assert_eq!((out.total, out.returned, out.truncated), (2, 2, false));
    params.language = Some("python".to_string());
    assert_eq!(list_files(&entries, &params).files[0].path, "src/c.py");
    params.path_contains = None;
    params.limit = Some(1);
    let out = list_files(&entries, &params);
    assert_eq!((out.total, out.returned, out.truncated), (2, 1, true));
    let s = status(&entries, None, "/root");
    assert_eq!((s.file_count, s.total_size_bytes, s.cache_dir.as_str()), (3, u64::MAX, "(unresolved)"));
    let counts: Vec<(&str, usize)> = s.languages.iter().map(|l| (l.language.as_str(), l.count)).collect();
    assert_eq!(counts, [("python", 2), ("rust", 1)]);
    assert_eq!(status(&vec![], Some("/c"), "/r").cache_dir, "/c");
}

#[test]
fn dependents_mention_the_module() {
    let files = vec![
        mapped("a.rs", "rust", vec![], Some("tokio::sync::mpsc")),
        mapped("b.rs", "rust", vec![], Some("std::sync")),
        mapped("c.rs", "rust", vec![], None),
    ];
    let out = dependents(&files, &DependentsParams { module: "tokio::sync".to_string() });
    assert_eq!(out.paths.iter().map(text).collect::<Vec<_>>(), ["a.rs"]);
    let out = dependents(&files, &DependentsParams { module: "sync".to_string() });
    assert_eq!(out.paths.len(), 2);
}

#[test]
fn kinds_have_names_and_aliases() {
    assert_eq!(kind_to_str(SymbolKind::EnumVariant), "enum_variant");
    assert_eq!(parse_kind("Variant").unwrap(), SymbolKind::EnumVariant);
    assert_eq!(parse_kind("HEADING").unwrap(), SymbolKind::Heading);
    assert_eq!(parse_kind_opt("heading"), None);
    assert_eq!(parse_kind_opt("Function"), None);
    assert_eq!(parse_kind("ünknown").unwrap_err().message(), "unknown symbol kind: ünknown");
}

fn impl_row(trait_name: &str, impl_type: &str, path: &str, start: u32) -> ImplRow {
    let mut key = trait_name.as_bytes().to_vec();
    key.push(0);
    key.extend_from_slice(path.as_bytes());
    ImplRow {
        key,
        trait_name: trait_name.to_string(),
        impl_type: impl_type.to_string(),
        path: RelPath::from_text(path),
        start_byte: start,
    }
}

#[test]
fn implementations_are_found_by_trait() {
    let mut file = mapped("a.rs", "rust", vec![], None);
    file.map.implementations.push(Implementation {
        trait_name: "Display".to_string(),
        impl_type: "A".to_string(),
        start_byte: 5,
        start_row: 8,
        start_col: 1,
    });
    let files = vec![file];
    let rows = vec![
        impl_row("Debug", "A", "a.rs", 1),
        impl_row("Display", "A", "a.rs", 5),
        impl_row("Display", "B", "b.rs", 6),
    ];
    let mut params = FindImplementationsParams {
        trait_name: "Dis".to_string(),
        language: None,
        limit: Some(1),
        cursor: None,
    };
    let out = run_find_implementations(Some(&rows), &params, &files).unwrap();
    assert_eq!((out.total, out.total_is_partial, out.hits.len()), (2, false, 1));
    assert_eq!((out.hits[0].start_row, out.hits[0].start_col), (9, 1));
    params.cursor = out.next_cursor;
    let rest = run_find_implementations(Some(&rows), &params, &files).unwrap();
    assert_eq!((rest.hits[0].impl_type.as_str(), rest.hits[0].start_row), ("B", 0));
    params.cursor = None;
    params.language = Some("rust".to_string());
    assert_eq!(run_find_implementations(Some(&rows), &params, &files).unwrap().total, 1);
    assert_eq!(run_find_implementations(None, &params, &files).unwrap().total, 0);
    params.cursor = Some(Cursor("~".to_string()));
    assert_eq!(run_find_implementations(Some(&rows), &params, &files).unwrap_err().message(), "invalid cursor");
}

// ─── Cursors ─────────────────────────────────────────────────────────────────

#[test]
fn cursors_read_back() {
    for bytes in [&b""[..], b"a", b"ab", b"abc", &[0xff, 0xfe, 0xfb, 0x00]] {
        let c = Cursor::encode_fjall(bytes);
        assert_eq!(c.decode_fjall().unwrap(), bytes);
        assert_eq!(from_base64(&to_base64(bytes)).unwrap(), bytes);
    }
    assert_eq!(to_base64(&[0xfb, 0xff]), "-_8");
    assert_eq!(from_base64("-_9"), None, "bits past the end must be zero");
    assert_eq!(from_base64("a"), None);
    let c = Cursor::encode_in_memory(300, 7);
    assert_eq!(c.decode_in_memory().unwrap(), (300, 7));
    assert_eq!(encode_in_memory_cursor(300, 7), c.0);
    assert_eq!(Cursor("AA".to_string()).decode_in_memory().unwrap_err().message(), "invalid cursor");
}

// ─── Grep ────────────────────────────────────────────────────────────────────

fn grep(pattern: &str, limit: Option<u32>) -> GrepParams {
    GrepParams {
        pattern: pattern.to_string(),
        path_contains: None,
        language: None,
        include_context: true,
        limit,
        cursor: None,
    }
}

fn files() -> Vec<GrepFile> {
    let file = |p: &str, l: &str, s: Option<&str>| GrepFile {
        path: RelPath::from_text(p),
        language: l.to_string(),
        source: s.map(str::to_string),
    };
    vec![
        file("a.rs", "rust", Some("one\r\nfoo1 foo2\nthree\n")),
        file("b.bin", "rust", None),
        file("c.py", "python", Some("foo9")),
        file("d.rs", "rust", Some("none")),
        file("e.rs", "rust", Some("a foo")),
    ]
}

#[test]
fn grep_finds_lines_with_context() {
    let q = match plan_grep(grep("foo[0-9]", None), 3).unwrap() {
        GrepPlan::Search(q) => q,
        GrepPlan::CursorInvalidated => panic!("there was no cursor"),
    };
    let scan = grep_files(&q, &files());
    let sizes = vec![4; scan.hits.len()];
    let page = grep_page(scan, &sizes, None, 3);
    assert_eq!((page.total_matches, page.total_files_matched, page.truncated), (3, 2, false));
    let h = &page.hits[1];
    assert_eq!((h.line_num, h.column, h.matched_text.as_str()), (2, 5, "foo2"));
    assert_eq!((h.context_before.as_deref(), h.context_after.as_deref()), (Some("one"), Some("three")));
    assert!(page.next_cursor.is_none());
}

#[test]
fn grep_pages_resume_after_the_last_file() {
    let search = |p: GrepParams| match plan_grep(p, 3).unwrap() {
        GrepPlan::Search(q) => q,
        GrepPlan::CursorInvalidated => panic!("the cursor was of this snapshot"),
    };
    let scan = grep_files(&search(grep("foo", Some(2))), &files());
    let sizes = vec![4; scan.hits.len()];
    let page = grep_page(scan, &sizes, None, 3);
    assert_eq!(page.hits.len(), 2);
    assert!(page.truncated);
    let mut next = grep("foo", Some(2));
    next.cursor = page.next_cursor.map(|c| Cursor(c.0));
    let cursor = next.cursor.as_ref().unwrap().0.clone();
    let scan = grep_files(&search(next), &files());
    assert_eq!(scan.hits.len(), 1);
    assert_eq!(text(&scan.hits[0].path), "e.rs", "the file in which the page overflowed counts as passed");
    let mut stale = grep("foo", None);
    stale.cursor = Some(Cursor(cursor));
    assert!(matches!(plan_grep(stale, 4), Ok(GrepPlan::CursorInvalidated)));
    let e = plan_grep(grep("(", None), 3).err().unwrap();
    assert!(e.message().starts_with("invalid regex: "));
    let mut bad = grep("x", None);
    bad.cursor = Some(Cursor("%".to_string()));
    assert_eq!(plan_grep(bad, 3).err().unwrap().message(), "invalid cursor");
}

#[test]
fn grep_hits_are_where_they_say() {
    let query = match plan_grep(grep("foo", None), 3).unwrap() {
        GrepPlan::Search(q) => q,
        GrepPlan::CursorInvalidated => panic!("no cursor was given"),
    };
    let searched = files();
    for hit in &grep_files(&query, &searched).hits {
        let file = searched.iter().find(|f| f.path.bytes == hit.path.bytes).unwrap();
        let source = file.source.as_ref().unwrap();
        let at = line_col_to_offset(source.as_bytes(), hit.line_num, hit.column).unwrap();
        assert!(source[at as usize..].starts_with(&hit.matched_text));
    }
}

#[test]
fn grep_budget_loses_no_hit() {
    let search = |p: GrepParams| match plan_grep(p, 3).unwrap() {
        GrepPlan::Search(q) => q,
        GrepPlan::CursorInvalidated => panic!("the cursor was of this snapshot"),
    };
    let place = |h: &GrepHit| (text(&h.path), h.line_num, h.column);
    let scan = grep_files(&search(grep("foo", None)), &files());
    let all: Vec<(String, u32, u32)> = scan.hits.iter().map(place).collect();
    assert!(all.len() > 2);
    let sizes = vec![40; all.len()];
    let page = grep_page(scan, &sizes, Some(20), 3);
    assert!(page.budgeted);
    assert_eq!(page.hits.len(), 2);
    let mut next = grep("foo", None);
    next.cursor = page.next_cursor.map(|c| Cursor(c.0));
    let rest: Vec<(String, u32, u32)> = grep_files(&search(next), &files()).hits.iter().map(place).collect();
    for dropped in &all[2..] {
        assert!(rest.contains(dropped));
    }
}

#[test]
fn lines_lose_their_ends() {
    assert_eq!(extract_line("a\r\nb\n", &[0, 3, 5], 0), "a");
    assert_eq!(extract_line("a\r\nb\n", &[0, 3, 5], 1), "b");
    assert_eq!(extract_line("a\r\nb\n", &[0, 3, 5], 2), "");
}

// ─── Code search ─────────────────────────────────────────────────────────────

fn chunk(id: &str, start: u32) -> CodeChunk {
    CodeChunk {
        path: "a.rs".to_string(),
        chunk_id: id.to_string(),
        symbol: None,
        kind: Some("function".to_string()),
        lang: "rust".to_string(),
        signature: None,
        doc: None,
        line_start: 1,
        line_end: 2,
        byte_start: start,
        byte_end: start + 1,
        text: "fn".to_string(),
    }
}

fn get(chunk_id: Option<&str>, byte_start: Option<u32>) -> GetChunkParams {
    GetChunkParams { path: "a.rs".to_string(), chunk_id: chunk_id.map(str::to_string), byte_start }
}

#[test]
fn chunks_are_picked_by_id_then_byte() {
    let two = ChunkLookup::Found(vec![chunk("h:0", 0), chunk("h:1", 9)]);
    assert_eq!(run_get_chunk(&two, &get(Some("h:1"), Some(0))).unwrap().byte_start, 9);
    assert_eq!(run_get_chunk(&two, &get(None, Some(0))).unwrap().chunk_id, "h:0");
    let one = ChunkLookup::Found(vec![chunk("h:0", 4)]);
    assert_eq!(run_get_chunk(&one, &get(None, None)).unwrap().byte_start, 4);
    let text = |l: &ChunkLookup, p: &GetChunkParams| run_get_chunk(l, p).unwrap_err().message().to_string();
    assert_eq!(text(&two, &get(Some("h:7"), None)), "get_chunk: chunk_id \"h:7\" not found in a.rs");
    assert_eq!(text(&two, &get(None, Some(5))), "get_chunk: no chunk at byte_start 5 in a.rs");
    assert_eq!(
        text(&two, &get(None, None)),
        "get_chunk: a.rs has 2 chunks; pass `chunk_id` or `byte_start` to disambiguate: h:0, h:1"
    );
    assert_eq!(text(&ChunkLookup::Found(vec![]), &get(None, None)), "get_chunk: a.rs has no chunks");
    assert_eq!(text(&ChunkLookup::NotIndexed, &get(None, None)), "get_chunk: file not indexed: a.rs");
    assert_eq!(
        text(&ChunkLookup::Missing, &get(None, None)),
        "get_chunk: no code chunks indexed for a.rs (scan with --features code-search)"
    );
    assert_eq!(
        text(&ChunkLookup::Failed("io".to_string()), &get(None, None)),
        "get_chunk: read chunk blob: io"
    );
}

#[test]
fn keyword_hits_skip_what_cannot_be_found() {
    let rank = |id: &str| RankedChunk { chunk_id: id.to_string(), score_bits: 5 };
    let blobs = vec![ChunkBlob { hash: "h".to_string(), chunks: vec![chunk("h:0", 0), chunk("h:1", 9)] }];
    let hits = keyword_hits(&vec![rank("h:1"), rank("h:2"), rank("x:0"), rank("h"), rank("h:x"), rank("h:0")], &blobs);
    assert_eq!(hits.iter().map(|h| h.byte_start).collect::<Vec<_>>(), [9, 0]);
    assert_eq!((hits[0].symbol.as_str(), hits[0].kind.as_str()), ("", "function"));
    assert_eq!((hits[0].score_bits, hits[0].distance_bits), (Some(5), None));
    assert_eq!(split_chunk_id("ab:cd:12"), Some(("ab:cd".to_string(), 12)));
    assert_eq!(split_chunk_id("ab"), None);
    assert_eq!(split_chunk_id("ab:"), None);
}

#[test]
fn search_requests_choose_lane_and_format() {
    assert_eq!(search_lane(None).unwrap(), SearchLane::Semantic);
    assert_eq!(search_lane(Some("  ")).unwrap(), SearchLane::Semantic);
    assert_eq!(search_lane(Some(" KeyWord ")).unwrap(), SearchLane::Keyword);
    assert_eq!(
        search_lane(Some("magic")).unwrap_err().message(),
        "search_code: unknown mode \"magic\"; valid modes are \"semantic\" or \"keyword\""
    );
    assert!(wants_toon(Some(" TOON "), false) && !wants_toon(Some("json"), true));
    assert!(wants_toon(None, true) && wants_toon(Some("xml"), true) && !wants_toon(None, false));
}

// ─── Git ─────────────────────────────────────────────────────────────────────

fn hunk(line: u32) -> BlameHunk {
    BlameHunk {
        commit_sha: "abc".to_string(),
        short_sha: "a".to_string(),
        start_line: line,
        len: 1,
        source_start_line: line,
        author: "A".to_string(),
        author_time_unix: 1,
        summary: "s".to_string(),
        source_path: Some(RelPath::from_text("old.rs")),
    }
}

#[test]
fn blame_is_paged_by_line() {
    let hunks = vec![hunk(1), hunk(4), hunk(9)];
    let (page, cursor) = paginate_blame_hunks(&hunks, 0, Some(2));
    assert_eq!(page.iter().map(|h| h.start_line).collect::<Vec<_>>(), [1, 4]);
    let (line, snapshot) = cursor.unwrap().decode_in_memory().unwrap();
    assert_eq!((line, snapshot), (4, 0));
    let (rest, none) = paginate_blame_hunks(&hunks, line as u32, Some(2));
    assert_eq!(rest[0].start_line, 9);
    assert!(none.is_none());
    let (all, none) = paginate_blame_hunks(&hunks, 0, None);
    assert_eq!((all.len(), none.is_none()), (3, true));
    let (nothing, cursor) = paginate_blame_hunks(&hunks, 0, Some(0));
    assert_eq!((nothing.len(), cursor.unwrap().decode_in_memory().unwrap()), (0, (0, 0)));
}

#[test]
fn git_answers() {
    assert!(require_git_repo(true).is_ok());
    assert_eq!(
        require_git_repo(false).unwrap_err().message(),
        "this tool requires `basemind serve` to be run inside a git repository"
    );
    assert_eq!(head_sha(Ok(Some("abc".to_string()))).unwrap(), "abc");
    assert_eq!(head_sha(Ok(None)).unwrap_err().message(), "repository has no HEAD");
    assert_eq!(head_sha(Err("io".to_string())).unwrap_err().message(), "HEAD: io");
    assert!(git_history_if_fresh(&Some("abc".to_string()), "abc"));
    assert!(!git_history_if_fresh(&Some("abc".to_string()), "abd") && !git_history_if_fresh(&None, "abc"));
    let commit = || CommitInfo {
        sha: "abc".to_string(),
        short_sha: "a".to_string(),
        summary: "s".to_string(),
        author: "A".to_string(),
        author_time_unix: 9,
        files: vec![CommitFile { path: RelPath::from_text("a"), change: ChangeKind::Added }],
    };
    assert_eq!(commit_to_view(commit(), true).files.unwrap().len(), 1);
    assert!(commit_to_view(commit(), false).files.is_none());
    let p = RelPath::from_text("big.rs");
    assert_eq!(blame_too_large_response(&p, "abc", true).unwrap().truncated_reason, Some("too_large"));
    assert!(blame_too_large_response(&p, "abc", false).is_none());
    let s = symbol("f", SymbolKind::Function, 1);
    let out = blame_symbol_too_large_response(&p, "abc", &s, 2, 3, true).unwrap();
    assert_eq!((out.kind, out.line_start, out.line_end), ("function", 2, 3));
    assert!(blame_symbol_too_large_response(&p, "abc", &s, 2, 3, false).is_none());
}

#[test]
fn a_symbol_is_measured_in_the_committed_blob() {
    let mut s = symbol("f", SymbolKind::Function, 0);
    s.start_byte = 0;
    s.end_byte = 100;
    assert_eq!(symbol_line_range(Some(b"a\nb\n"), Some(b"a\nb\nc\n"), None, &s), (1, 3));
    assert_eq!(symbol_line_range(None, Some(b"a\nb\nc\n"), Some(b""), &s), (1, 4));
    assert_eq!(symbol_line_range(None, None, Some(b"a"), &s), (1, 1));
    assert_eq!(symbol_line_range(None, None, None, &s), (1, 1));
}

#[test]
fn near_chunks_become_hits_within_the_budget() {
    let near = |path: &str, bits: u32| NearChunk {
        path: path.to_string(),
        chunk_id: "h:0".to_string(),
        symbol: "f".to_string(),
        kind: "function".to_string(),
        lang: "rust".to_string(),
        line_start: 1,
        line_end: 2,
        byte_start: 3,
        byte_end: 4,
        distance_bits: bits,
    };
    let hits = semantic_hits(&vec![near("a.rs", 7), near("b.rs", 8)]);
    assert_eq!(hits[0].distance_bits, Some(7));
    assert_eq!(hits[1].path, "b.rs");
    assert_eq!(hits[1].score_bits, None);
    let out = run_search_code("q".to_string(), hits, &[40, 40], Some(10));
    assert_eq!(out.query, "q");
    assert!(out.budgeted);
    assert_eq!(out.hits.len(), 1);
    assert_eq!(out.hits[0].path, "a.rs");
}
