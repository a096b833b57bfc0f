//! The code-map tools: outlines, symbol search, file listings, dependents and the status report.
use vstd::prelude::*;
use vstd::utf8::encode_utf8;

use crate::cache::{copy_import_list, import_texts};
use crate::calls::least;
use crate::grep::{SEARCH_LIMIT_DEFAULT, SEARCH_LIMIT_MAX};
use crate::model::{
    kind_name, kind_named, kind_to_str, parse_kind, Call, FileMapL1, Import, MappedFile, RelPath,
    Symbol, SymbolKind, ToolError, SCHEMA_VER,
};
use crate::seqs::lemma_filter_take;
use crate::text::{
    bytes_less, copy_opt, holds_seq, lemma_encoding_injective, lemma_lex_irreflexive,
    lemma_lex_total, lemma_lex_transitive, lex_less, opt_text, same_str, str_holds,
};
use crate::walk::{bound, bounded};

verus! {

pub const LIST_LIMIT_DEFAULT: u32 = 200;

pub const LIST_LIMIT_MAX: u32 = 5000;

// ─── Outline ─────────────────────────────────────────────────────────────────

/// A request for a file's outline.
#[derive(Debug)]
pub struct OutlineParams {
    pub path: String,
    /// Whether calls and doc comments are asked for too.
    pub l2: bool,
}

/// A symbol as an outline shows it.
#[derive(Debug)]
pub struct SymbolView {
    pub name: String,
    pub kind: &'static str,
    pub start_row: u32,
    pub start_col: u32,
    pub start_byte: u32,
    pub end_byte: u32,
    pub signature: Option<String>,
}

/// A call as an outline shows it.
#[derive(Debug)]
pub struct CallView {
    pub callee: String,
    pub start_byte: u32,
}

/// A doc comment.
#[derive(Debug)]
pub struct DocView {
    pub text: String,
    pub start_byte: u32,
}

/// The finer facts of a file.
#[derive(Debug)]
pub struct FileMapL2 {
    pub calls: Vec<Call>,
    pub docs: Vec<DocView>,
}

/// What the store says when the finer facts of a file are asked for.
#[derive(Debug)]
pub enum L2Lookup {
    /// The file is not in the index.
    NotIndexed,
    /// Its entry names no blob.
    NoHash,
    /// There is no such blob.
    Missing,
    Found(FileMapL2),
    /// The blob could not be read, for this reason.
    Failed(String),
}

/// An outline.
#[derive(Debug)]
pub struct OutlineResponse {
    pub path: String,
    pub language: String,
    pub size_bytes: u64,
    pub had_errors: bool,
    pub error_count: u32,
    pub symbols: Vec<SymbolView>,
    pub imports: Vec<Import>,
    pub calls: Option<Vec<CallView>>,
    pub docs: Option<Vec<DocView>>,
    pub l2_status: Option<&'static str>,
}

/// `v` shows the symbol.
pub open spec fn shows_symbol(v: SymbolView, s: Symbol) -> bool {
    &&& v.name@ == s.name@
    &&& v.kind@ == kind_name(s.kind)
    &&& v.start_row == s.start_row
    &&& v.start_col == s.start_col
    &&& v.start_byte == s.start_byte
    &&& v.end_byte == s.end_byte
    &&& opt_text(v.signature) == opt_text(s.signature)
}

fn show_symbols(symbols: &Vec<Symbol>) -> (views: Vec<SymbolView>)
    ensures
        views@.len() == symbols@.len(),
        forall|i: int| 0 <= i < views@.len() ==> shows_symbol(#[trigger] views@[i], symbols@[i]),
{
    let mut views: Vec<SymbolView> = Vec::new();
    let mut i: usize = 0;
    while i < symbols.len()
        invariant
            i <= symbols@.len(),
            views@.len() == i,
            forall|j: int| 0 <= j < i ==> shows_symbol(#[trigger] views@[j], symbols@[j]),
        decreases symbols@.len() - i,
    {
        let s = &symbols[i];
        views.push(
            SymbolView {
                name: s.name.clone(),
                kind: kind_to_str(s.kind),
                start_row: s.start_row,
                start_col: s.start_col,
                start_byte: s.start_byte,
                end_byte: s.end_byte,
                signature: copy_opt(&s.signature),
            },
        );
        i += 1;
    }
    views
}

fn show_calls(calls: &Vec<Call>) -> (views: Vec<CallView>)
    ensures
        views@.len() == calls@.len(),
        forall|i: int|
            0 <= i < views@.len() ==> (#[trigger] views@[i]).callee@ == calls@[i].callee@
                && views@[i].start_byte == calls@[i].start_byte,
{
    let mut views: Vec<CallView> = Vec::new();
    let mut i: usize = 0;
    while i < calls.len()
        invariant
            i <= calls@.len(),
            views@.len() == i,
            forall|j: int|
                0 <= j < i ==> (#[trigger] views@[j]).callee@ == calls@[j].callee@
                    && views@[j].start_byte == calls@[j].start_byte,
        decreases calls@.len() - i,
    {
        views.push(CallView { callee: calls[i].callee.clone(), start_byte: calls[i].start_byte });
        i += 1;
    }
    views
}

/// `r` is the outline of a file with these facts, as far as they go without the finer ones.
pub open spec fn outlines(r: OutlineResponse, path: Seq<char>, l1: FileMapL1) -> bool {
    &&& r.path@ == path
    &&& r.language@ == l1.language@
    &&& r.size_bytes == l1.size_bytes
    &&& r.had_errors == l1.had_errors
    &&& r.error_count == l1.error_count
    &&& r.symbols@.len() == l1.symbols@.len()
    &&& forall|i: int|
        0 <= i < r.symbols@.len() ==> shows_symbol(#[trigger] r.symbols@[i], l1.symbols@[i])
    &&& import_texts(r.imports@) == import_texts(l1.imports@)
}

/// `r` has the finer facts that the store gave, and says where there are none.
pub open spec fn has_finer(r: OutlineResponse, l2: L2Lookup) -> bool {
    match l2 {
        L2Lookup::Found(f) => {
            &&& r.calls is Some
            &&& r.calls->0@.len() == f.calls@.len()
            &&& forall|i: int|
                0 <= i < f.calls@.len() ==> (#[trigger] r.calls->0@[i]).callee@
                    == f.calls@[i].callee@ && r.calls->0@[i].start_byte == f.calls@[i].start_byte
            &&& r.docs == Some(f.docs)
            &&& r.l2_status is None
        },
        L2Lookup::Missing => r.calls is None && r.docs is None && r.l2_status is Some
            && r.l2_status->0@
            == "missing — run `gitmind query outline <path> --l2` to materialize"@,
        _ => r.calls is None && r.docs is None && r.l2_status is None,
    }
}

/// The outline of a file. `l1` are its facts, or why there are none; `l2` is what the store says of
/// the finer ones.
pub fn outline(params: &OutlineParams, l1: Result<&FileMapL1, String>, l2: L2Lookup) -> (r: Result<
    OutlineResponse,
    ToolError,
>)
    ensures
        match r {
            Ok(out) => {
                &&& l1 is Ok
                &&& outlines(out, params.path@, *l1->Ok_0)
                &&& if params.l2 {
                    !(l2 is NotIndexed) && !(l2 is Failed) && has_finer(out, l2)
                } else {
                    has_finer(out, L2Lookup::NoHash)
                }
            },
            Err(e) => match l1 {
                Err(why) => e is InvalidParams && e.text() == "file_outline("@ + params.path@
                    + "): "@ + why@,
                Ok(_) => params.l2 && match l2 {
                    L2Lookup::NotIndexed => e is Internal && e.text()
                        == "file not indexed after outline succeeded"@,
                    L2Lookup::Failed(why) => e is Internal && e.text() == "read_l2: "@ + why@,
                    _ => false,
                },
            },
        },
{
    let map = match l1 {
        Ok(m) => m,
        Err(why) => {
            let mut t = String::from_str("file_outline(");
            t.append(params.path.as_str());
            t.append("): ");
            t.append(why.as_str());
            return Err(ToolError::InvalidParams(t));
        },
    };
    let mut out = OutlineResponse {
        path: params.path.clone(),
        language: map.language.clone(),
        size_bytes: map.size_bytes,
        had_errors: map.had_errors,
        error_count: map.error_count,
        symbols: show_symbols(&map.symbols),
        imports: copy_import_list(&map.imports),
        calls: None,
        docs: None,
        l2_status: None,
    };
    if params.l2 {
        match l2 {
            L2Lookup::NotIndexed => {
                return Err(
                    ToolError::Internal(
                        String::from_str("file not indexed after outline succeeded"),
                    ),
                );
            },
            L2Lookup::NoHash => {},
            L2Lookup::Missing => {
                out.l2_status =
                Some("missing — run `gitmind query outline <path> --l2` to materialize");
            },
            L2Lookup::Found(f) => {
                out.calls = Some(show_calls(&f.calls));
                out.docs = Some(f.docs);
            },
            L2Lookup::Failed(why) => {
                let mut t = String::from_str("read_l2: ");
                t.append(why.as_str());
                return Err(ToolError::Internal(t));
            },
        }
    }
    Ok(out)
}

// ─── Symbol search ───────────────────────────────────────────────────────────

/// A request to search symbols.
#[derive(Debug)]
pub struct SearchSymbolsParams {
    /// What the name must hold, letter case significant.
    pub needle: String,
    pub kind: Option<String>,
    pub limit: Option<u32>,
}

/// A symbol that was found.
#[derive(Debug)]
pub struct SearchHitView {
    pub path: RelPath,
    pub name: String,
    pub kind: &'static str,
    pub start_row: u32,
    pub start_col: u32,
    pub signature: Option<String>,
}

/// The symbols that were found.
#[derive(Debug)]
pub struct SearchResponse {
    pub total: usize,
    pub truncated: bool,
    pub results: Vec<SearchHitView>,
}

/// Whether a symbol is searched for.
pub open spec fn is_sought(s: Symbol, needle: Seq<char>, kind: Option<SymbolKind>) -> bool {
    holds_seq(s.name@, needle) && (kind is None || kind == Some(s.kind))
}

/// The places of the symbols sought among the first `n` symbols of file `f`.
pub open spec fn sought_in(
    symbols: Seq<Symbol>,
    f: int,
    needle: Seq<char>,
    kind: Option<SymbolKind>,
    n: int,
) -> Seq<(int, int)>
    decreases n,
{
    if n <= 0 {
        Seq::empty()
    } else if is_sought(symbols[n - 1], needle, kind) {
        sought_in(symbols, f, needle, kind, n - 1).push((f, n - 1))
    } else {
        sought_in(symbols, f, needle, kind, n - 1)
    }
}

/// The places of the symbols sought in the first `n` files, file by file.
pub open spec fn sought_upto(
    files: Seq<MappedFile>,
    needle: Seq<char>,
    kind: Option<SymbolKind>,
    n: int,
) -> Seq<(int, int)>
    decreases n,
{
    if n <= 0 {
        Seq::empty()
    } else {
        sought_upto(files, needle, kind, n - 1) + sought_in(
            files[n - 1].map.symbols@,
            n - 1,
            needle,
            kind,
            files[n - 1].map.symbols@.len() as int,
        )
    }
}

/// `h` shows the symbol at the place.
pub open spec fn shows_place(h: SearchHitView, files: Seq<MappedFile>, at: (int, int)) -> bool {
    let s = files[at.0].map.symbols@[at.1];
    &&& h.path@ == files[at.0].path@
    &&& h.name@ == s.name@
    &&& h.kind@ == kind_name(s.kind)
    &&& h.start_row == s.start_row
    &&& h.start_col == s.start_col
    &&& opt_text(h.signature) == opt_text(s.signature)
}

/// How many matches a search of this size counts.
pub open spec fn count_cap(limit: int) -> int {
    if limit * 64 > 2000 {
        limit * 64
    } else {
        2000
    }
}

/// `out` is the answer that lists what was found.
pub open spec fn is_search_answer(
    out: SearchResponse,
    files: Seq<MappedFile>,
    found: Seq<(int, int)>,
    limit: int,
) -> bool {
    &&& out.total == least(found.len() as int, count_cap(limit))
    &&& out.truncated == (found.len() > limit)
    &&& out.results@.len() == least(found.len() as int, limit)
    &&& forall|i: int|
        0 <= i < out.results@.len() ==> shows_place(#[trigger] out.results@[i], files, found[i])
}

/// A search under way.
struct SymbolScan {
    total: usize,
    results: Vec<SearchHitView>,
}

/// `scan` has found `found`, of which it shows the first.
spec fn scan_is(scan: SymbolScan, files: Seq<MappedFile>, found: Seq<(int, int)>, limit: int) -> bool {
    &&& scan.total == found.len()
    &&& scan.results@.len() == least(found.len() as int, limit)
    &&& forall|i: int|
        0 <= i < scan.results@.len() ==> shows_place(#[trigger] scan.results@[i], files, found[i])
}

/// Search the symbols of one file. The result says whether counting may go on.
fn scan_file(
    scan: &mut SymbolScan,
    files: &Vec<MappedFile>,
    f: usize,
    needle: &str,
    kind: Option<SymbolKind>,
    limit: usize,
    cap: usize,
    Ghost(base): Ghost<Seq<(int, int)>>,
) -> (n: usize)
    requires
        f < files@.len(),
        scan_is(*old(scan), files@, base, limit as int),
        base.len() < cap,
    ensures
        n <= files@[f as int].map.symbols@.len(),
        scan_is(
            *final(scan),
            files@,
            base + sought_in(
                files@[f as int].map.symbols@,
                f as int,
                needle@,
                kind,
                n as int,
            ),
            limit as int,
        ),
        final(scan).total <= cap,
        final(scan).total < cap ==> n == files@[f as int].map.symbols@.len(),
{
    let symbols = &files[f].map.symbols;
    let mut n: usize = 0;
    assert(base + sought_in(symbols@, f as int, needle@, kind, 0) =~= base);
    while n < symbols.len() && scan.total < cap
        invariant
            f < files@.len(),
            symbols@ == files@[f as int].map.symbols@,
            n <= symbols@.len(),
            scan.total <= cap,
            scan_is(
                *scan,
                files@,
                base + sought_in(symbols@, f as int, needle@, kind, n as int),
                limit as int,
            ),
        decreases symbols@.len() - n,
    {
        let s = &symbols[n];
        let kind_fits: bool = match kind {
            Some(k) => k == s.kind,
            None => true,
        };
        if str_holds(s.name.as_str(), needle) && kind_fits {
            let ghost found = base + sought_in(symbols@, f as int, needle@, kind, n as int);
            let ghost place = (f as int, n as int);
            assert(base + sought_in(symbols@, f as int, needle@, kind, n + 1) =~= found.push(place));
            scan.total = scan.total + 1;
            if scan.results.len() < limit {
                scan.results.push(
                    SearchHitView {
                        path: files[f].path.copy(),
                        name: s.name.clone(),
                        kind: kind_to_str(s.kind),
                        start_row: s.start_row,
                        start_col: s.start_col,
                        signature: copy_opt(&s.signature),
                    },
                );
            }
        }
        n += 1;
    }
    n
}

proof fn lemma_sought_grows(
    symbols: Seq<Symbol>,
    f: int,
    needle: Seq<char>,
    kind: Option<SymbolKind>,
    n: int,
    m: int,
)
    requires
        0 <= n <= m,
    ensures
        sought_in(symbols, f, needle, kind, n).len() <= sought_in(symbols, f, needle, kind, m).len(),
        sought_in(symbols, f, needle, kind, m).take(
            sought_in(symbols, f, needle, kind, n).len() as int,
        ) == sought_in(symbols, f, needle, kind, n),
    decreases m - n,
{
    let a = sought_in(symbols, f, needle, kind, n);
    if n < m {
        lemma_sought_grows(symbols, f, needle, kind, n, m - 1);
        let b = sought_in(symbols, f, needle, kind, m - 1);
        let c = sought_in(symbols, f, needle, kind, m);
        assert(c.take(a.len() as int) =~= b.take(a.len() as int));
    } else {
        assert(a.take(a.len() as int) =~= a);
    }
}

proof fn lemma_files_grow(
    files: Seq<MappedFile>,
    needle: Seq<char>,
    kind: Option<SymbolKind>,
    n: int,
    m: int,
)
    requires
        0 <= n <= m,
    ensures
        sought_upto(files, needle, kind, n).len() <= sought_upto(files, needle, kind, m).len(),
        sought_upto(files, needle, kind, m).take(
            sought_upto(files, needle, kind, n).len() as int,
        ) == sought_upto(files, needle, kind, n),
    decreases m - n,
{
    let a = sought_upto(files, needle, kind, n);
    if n < m {
        lemma_files_grow(files, needle, kind, n, m - 1);
        let b = sought_upto(files, needle, kind, m - 1);
        let c = sought_upto(files, needle, kind, m);
        assert(c.take(a.len() as int) =~= b.take(a.len() as int));
    } else {
        assert(a.take(a.len() as int) =~= a);
    }
}

/// The kind that a request asks for.
pub open spec fn kind_of(k: Option<String>) -> Option<SymbolKind> {
    match k {
        Some(s) => kind_named(crate::text::lower_of(s@)),
        None => None,
    }
}

/// Search the symbols of the code map by a part of their name. Counting stops at a bound, so that a
/// broad needle costs no more.
pub fn search_symbols(files: &Vec<MappedFile>, params: &SearchSymbolsParams) -> (r: Result<
    SearchResponse,
    ToolError,
>)
    ensures
        match r {
            Ok(out) => {
                &&& params.kind is Some ==> kind_of(params.kind) is Some
                &&& is_search_answer(
                    out,
                    files@,
                    sought_upto(
                        files@,
                        params.needle@,
                        kind_of(params.kind),
                        files@.len() as int,
                    ),
                    bounded(params.limit, SEARCH_LIMIT_DEFAULT, SEARCH_LIMIT_MAX) as int,
                )
            },
            Err(e) => params.kind is Some && kind_of(params.kind) is None && e is InvalidParams
                && e.text() == "unknown symbol kind: "@ + crate::text::lower_of(params.kind->0@),
        },
{
    let kind = match &params.kind {
        Some(k) => match parse_kind(k.as_str()) {
            Ok(x) => Some(x),
            Err(e) => {
                return Err(e);
            },
        },
        None => None,
    };
    let limit: usize = bound(params.limit, SEARCH_LIMIT_DEFAULT, SEARCH_LIMIT_MAX) as usize;
    let cap: usize = if limit * 64 > 2000 {
        limit * 64
    } else {
        2000
    };
    let needle = params.needle.as_str();
    let ghost all = sought_upto(files@, needle@, kind, files@.len() as int);
    let mut scan = SymbolScan { total: 0, results: Vec::new() };
    let mut f: usize = 0;
    while f < files.len() && scan.total < cap
        invariant
            f <= files@.len(),
            needle@ == params.needle@,
            cap == count_cap(limit as int),
            limit <= 1000,
            all == sought_upto(files@, needle@, kind, files@.len() as int),
            scan.total <= cap,
            ({
                let seen = all.take(scan.total as int);
                &&& scan.total <= all.len()
                &&& scan_is(scan, files@, seen, limit as int)
                &&& scan.total < cap ==> seen == sought_upto(files@, needle@, kind, f as int)
            }),
        decreases files@.len() - f,
    {
        let ghost base = sought_upto(files@, needle@, kind, f as int);
        let n: usize = scan_file(&mut scan, files, f, needle, kind, limit, cap, Ghost(base));
        proof {
            let part = sought_in(
                files@[f as int].map.symbols@,
                f as int,
                needle@,
                kind,
                n as int,
            );
            let full = sought_in(
                files@[f as int].map.symbols@,
                f as int,
                needle@,
                kind,
                files@[f as int].map.symbols@.len() as int,
            );
            lemma_sought_grows(
                files@[f as int].map.symbols@,
                f as int,
                needle@,
                kind,
                n as int,
                files@[f as int].map.symbols@.len() as int,
            );
            lemma_files_grow(files@, needle@, kind, f + 1, files@.len() as int);
            let next = sought_upto(files@, needle@, kind, f + 1);
            assert(next == base + full);
            assert((base + part) =~= next.take(scan.total as int)) by {
                assert(full.take(part.len() as int) == part);
                assert(next.take((base.len() + part.len()) as int) =~= base + full.take(
                    part.len() as int,
                ));
            }
            assert(all.take(scan.total as int) =~= next.take(scan.total as int)) by {
                assert(all.take(next.len() as int) == next);
                assert(next.take(scan.total as int) =~= all.take(next.len() as int).take(
                    scan.total as int,
                ));
                assert(all.take(next.len() as int).take(scan.total as int) =~= all.take(
                    scan.total as int,
                ));
            }
            if scan.total < cap {
                assert(next.take(scan.total as int) =~= next);
            }
        }
        f += 1;
    }
    proof {
        let seen = all.take(scan.total as int);
        if scan.total < cap {
            assert(seen == all);
        }
        assert forall|i: int| 0 <= i < seen.len() implies seen[i] == all[i] by {}
    }
    let truncated: bool = scan.total > limit || scan.total >= cap;
    Ok(SearchResponse { total: scan.total, truncated, results: scan.results })
}

// ─── File listing ────────────────────────────────────────────────────────────

/// A file of the index.
#[derive(Debug)]
pub struct IndexEntry {
    pub path: String,
    pub language: String,
    pub size_bytes: u64,
}

/// The paths of the index strictly ascend.
pub open spec fn entries_ascend(entries: Seq<IndexEntry>) -> bool {
    forall|i: int, j: int|
        0 <= i < j < entries.len() ==> lex_less(
            encode_utf8((#[trigger] entries[i]).path@),
            encode_utf8((#[trigger] entries[j]).path@),
        )
}

/// A request to list files.
#[derive(Debug)]
pub struct ListFilesParams {
    pub path_contains: Option<String>,
    pub language: Option<String>,
    pub limit: Option<u32>,
}

/// A listing of files.
#[derive(Debug)]
pub struct ListFilesResponse {
    pub total: usize,
    pub returned: usize,
    pub truncated: bool,
    pub files: Vec<IndexEntry>,
}

/// Whether a file is listed.
pub open spec fn is_listed(e: IndexEntry, needle: Option<Seq<char>>, language: Option<Seq<char>>) -> bool {
    (needle is Some ==> holds_seq(e.path@, needle->0)) && (language is Some ==> e.language@
        == language->0)
}

/// The condition that a file is listed.
pub open spec fn listed(needle: Option<Seq<char>>, language: Option<Seq<char>>) -> spec_fn(
    IndexEntry,
) -> bool {
    |e: IndexEntry| is_listed(e, needle, language)
}

/// `a` shows the entry `b`.
pub open spec fn same_entry(a: IndexEntry, b: IndexEntry) -> bool {
    a.path@ == b.path@ && a.language@ == b.language@ && a.size_bytes == b.size_bytes
}

/// `out` lists the files asked for, of which `limit` may be shown.
pub open spec fn is_listing(
    out: ListFilesResponse,
    entries: Seq<IndexEntry>,
    params: ListFilesParams,
    limit: int,
) -> bool {
    let found = entries.filter(listed(opt_text(params.path_contains), opt_text(params.language)));
    &&& out.total == found.len()
    &&& out.truncated == (found.len() > limit)
    &&& out.returned == out.files@.len()
    &&& out.files@.len() == least(found.len() as int, limit)
    &&& forall|i: int| 0 <= i < out.files@.len() ==> same_entry(#[trigger] out.files@[i], found[i])
}

/// List the files of the index, by path. `entries` is the index.
pub fn list_files(entries: &Vec<IndexEntry>, params: &ListFilesParams) -> (out: ListFilesResponse)
    requires
        entries_ascend(entries@),
    ensures
        ({
            let found = entries@.filter(
                listed(opt_text(params.path_contains), opt_text(params.language)),
            );
            let limit = bounded(params.limit, LIST_LIMIT_DEFAULT, LIST_LIMIT_MAX) as int;
            &&& out.total == found.len()
            &&& out.truncated == (found.len() > limit)
            &&& out.returned == out.files@.len()
            &&& out.files@.len() == least(found.len() as int, limit)
            &&& forall|i: int|
                0 <= i < out.files@.len() ==> same_entry(#[trigger] out.files@[i], found[i])
            &&& is_listing(out, entries@, *params, limit)
        }),
{
    let limit: usize = bound(params.limit, LIST_LIMIT_DEFAULT, LIST_LIMIT_MAX) as usize;
    let ghost p = listed(opt_text(params.path_contains), opt_text(params.language));
    let mut files: Vec<IndexEntry> = Vec::new();
    let mut total: usize = 0;
    let mut i: usize = 0;
    proof {
        reveal(Seq::filter);
        assert(entries@.take(0).filter(p) =~= Seq::empty());
    }
    while i < entries.len()
        invariant
            i <= entries@.len(),
            p == listed(opt_text(params.path_contains), opt_text(params.language)),
            total == entries@.take(i as int).filter(p).len(),
            total <= i,
            files@.len() == least(total as int, limit as int),
            forall|k: int|
                0 <= k < files@.len() ==> same_entry(
                    #[trigger] files@[k],
                    entries@.take(i as int).filter(p)[k],
                ),
        decreases entries@.len() - i,
    {
        let e = &entries[i];
        let ghost was = entries@.take(i as int).filter(p);
        proof {
            lemma_filter_take(entries@, i as int, p);
        }
        let path_fits: bool = match &params.path_contains {
            Some(n) => str_holds(e.path.as_str(), n.as_str()),
            None => true,
        };
        let language_fits: bool = match &params.language {
            Some(l) => same_str(e.language.as_str(), l.as_str()),
            None => true,
        };
        if path_fits && language_fits {
            assert(entries@.take(i + 1).filter(p) == was.push(*e));
            total += 1;
            if files.len() < limit {
                files.push(
                    IndexEntry {
                        path: e.path.clone(),
                        language: e.language.clone(),
                        size_bytes: e.size_bytes,
                    },
                );
            }
        }
        i += 1;
    }
    assert(entries@.take(i as int) =~= entries@);
    ListFilesResponse { total, returned: files.len(), truncated: total > limit, files }
}

// ─── Dependents ──────────────────────────────────────────────────────────────

/// A request for the files that import a module.
#[derive(Debug)]
pub struct DependentsParams {
    pub module: String,
}

/// The files that import a module.
#[derive(Debug)]
pub struct DependentsResponse {
    pub module: String,
    pub paths: Vec<RelPath>,
}

/// Whether an import's module path mentions the module.
pub open spec fn mentions(i: Import, module: Seq<char>) -> bool {
    i.module is Some && holds_seq(i.module->0@, module)
}

/// Whether one of the imports mentions the module.
pub open spec fn depends(imports: Seq<Import>, module: Seq<char>) -> bool {
    exists|i: int| 0 <= i < imports.len() && mentions(#[trigger] imports[i], module)
}

/// The condition that a file depends on the module.
pub open spec fn dependent_on(module: Seq<char>) -> spec_fn(MappedFile) -> bool {
    |f: MappedFile| depends(f.map.imports@, module)
}

fn imports_mention(imports: &Vec<Import>, module: &str) -> (yes: bool)
    ensures
        yes == depends(imports@, module@),
{
    let mut i: usize = 0;
    while i < imports.len()
        invariant
            i <= imports@.len(),
            forall|j: int| 0 <= j < i ==> !mentions(#[trigger] imports@[j], module@),
        decreases imports@.len() - i,
    {
        match &imports[i].module {
            Some(m) => {
                if str_holds(m.as_str(), module) {
                    assert(mentions(imports@[i as int], module@));
                    return true;
                }
            },
            None => {},
        }
        i += 1;
    }
    false
}

/// The files whose imports mention a module, in the order of the code map.
pub fn dependents(files: &Vec<MappedFile>, params: &DependentsParams) -> (out: DependentsResponse)
    ensures
        out.module@ == params.module@,
        crate::proposals::paths_of(out.paths@) == files@.filter(
            dependent_on(params.module@),
        ).map_values(|f: MappedFile| f.path@),
{
    let ghost p = dependent_on(params.module@);
    let ghost path_of = |f: MappedFile| f.path@;
    let mut paths: Vec<RelPath> = Vec::new();
    let mut i: usize = 0;
    proof {
        reveal(Seq::filter);
        assert(files@.take(0).filter(p) =~= Seq::empty());
        assert(crate::proposals::paths_of(paths@) =~= files@.take(0).filter(p).map_values(path_of));
    }
    while i < files.len()
        invariant
            i <= files@.len(),
            p == dependent_on(params.module@),
            path_of == (|f: MappedFile| f.path@),
            crate::proposals::paths_of(paths@) == files@.take(i as int).filter(p).map_values(
                path_of,
            ),
        decreases files@.len() - i,
    {
        let ghost was = files@.take(i as int).filter(p);
        proof {
            lemma_filter_take(files@, i as int, p);
        }
        if imports_mention(&files[i].map.imports, params.module.as_str()) {
            let ghost before = paths@;
            let path = files[i].path.copy();
            let ghost v = path@;
            paths.push(path);
            proof {
                let f = files@[i as int];
                assert(files@.take(i + 1).filter(p) == was.push(f));
                assert(was.push(f).map_values(path_of) =~= was.map_values(path_of).push(f.path@));
                assert(crate::proposals::paths_of(paths@) =~= crate::proposals::paths_of(
                    before,
                ).push(v));
            }
        }
        i += 1;
    }
    assert(files@.take(i as int) =~= files@);
    DependentsResponse { module: params.module.clone(), paths }
}

// ─── Status ──────────────────────────────────────────────────────────────────

/// A request for the status report. It has no parameters.
#[derive(Debug)]
pub struct StatusParams {}

/// How many files are of a language.
#[derive(Debug)]
pub struct LanguageCount {
    pub language: String,
    pub count: usize,
}

/// The status report.
#[derive(Debug)]
pub struct StatusResponse {
    pub file_count: usize,
    pub total_size_bytes: u64,
    /// The languages in ascending order.
    pub languages: Vec<LanguageCount>,
    pub cache_dir: String,
    pub schema_version: u16,
    pub root: String,
}

/// How many of the first `n` files are of the language.
pub open spec fn count_of(entries: Seq<IndexEntry>, language: Seq<char>, n: int) -> int
    decreases n,
{
    if n <= 0 {
        0
    } else {
        count_of(entries, language, n - 1) + (if entries[n - 1].language@ == language {
            1int
        } else {
            0
        })
    }
}

/// The sizes of the first `n` files together, or the largest number where they are more.
pub open spec fn size_upto(entries: Seq<IndexEntry>, n: int) -> int
    decreases n,
{
    if n <= 0 {
        0
    } else {
        least(size_upto(entries, n - 1) + entries[n - 1].size_bytes, u64::MAX as int)
    }
}

/// The languages strictly ascend.
pub open spec fn languages_ascend(l: Seq<LanguageCount>) -> bool {
    forall|i: int, j: int|
        0 <= i < j < l.len() ==> lex_less(
            encode_utf8((#[trigger] l[i]).language@),
            encode_utf8((#[trigger] l[j]).language@),
        )
}

/// `l` counts the first `n` files: each language that occurs stands once, with its number.
pub open spec fn counts_are(l: Seq<LanguageCount>, entries: Seq<IndexEntry>, n: int) -> bool {
    &&& languages_ascend(l)
    &&& forall|i: int|
        0 <= i < l.len() ==> (#[trigger] l[i]).count == count_of(entries, l[i].language@, n)
            && l[i].count > 0
    &&& forall|lang: Seq<char>| #[trigger]
        count_of(entries, lang, n) > 0 ==> exists|i: int|
            0 <= i < l.len() && (#[trigger] l[i]).language@ == lang
}

/// The place of a language: everything before it is less, and `found` says whether it stands there.
fn locate_language(l: &Vec<LanguageCount>, language: &str) -> (r: (usize, bool))
    requires
        languages_ascend(l@),
    ensures
        r.0 <= l@.len(),
        forall|i: int|
            0 <= i < r.0 ==> lex_less(
                encode_utf8((#[trigger] l@[i]).language@),
                encode_utf8(language@),
            ),
        r.1 ==> r.0 < l@.len() && l@[r.0 as int].language@ == language@,
        !r.1 ==> forall|i: int|
            r.0 <= i < l@.len() ==> lex_less(
                encode_utf8(language@),
                encode_utf8((#[trigger] l@[i]).language@),
            ),
{
    let mut i: usize = 0;
    while i < l.len() && bytes_less(l[i].language.as_str().as_bytes(), language.as_bytes())
        invariant
            i <= l@.len(),
            forall|j: int|
                0 <= j < i ==> lex_less(
                    encode_utf8((#[trigger] l@[j]).language@),
                    encode_utf8(language@),
                ),
        decreases l@.len() - i,
    {
        i += 1;
    }
    let found: bool = i < l.len() && same_str(l[i].language.as_str(), language);
    proof {
        if !found && i < l@.len() {
            let here = encode_utf8(l@[i as int].language@);
            let key = encode_utf8(language@);
            if here == key {
                lemma_encoding_injective(l@[i as int].language@, language@);
            }
            lemma_lex_total(here, key);
            assert forall|j: int| i <= j < l@.len() implies lex_less(
                key,
                encode_utf8((#[trigger] l@[j]).language@),
            ) by {
                if i < j {
                    assert(lex_less(here, encode_utf8(l@[j].language@)));
                    lemma_lex_transitive(key, here, encode_utf8(l@[j].language@));
                }
            }
        }
    }
    (i, found)
}

proof fn lemma_counted(
    before: Seq<LanguageCount>,
    after: Seq<LanguageCount>,
    entries: Seq<IndexEntry>,
    n: int,
    at: int,
    found: bool,
)
    requires
        0 <= n < entries.len(),
        counts_are(before, entries, n),
        0 <= at <= before.len(),
        found ==> at < before.len() && before[at].language@ == entries[n].language@ && after
            == before.update(at, after[at]) && after[at].count == before[at].count + 1,
        !found ==> after == before.insert(at, after[at]) && after[at].count == 1,
        after[at].language@ == entries[n].language@,
        forall|i: int|
            0 <= i < at ==> lex_less(
                encode_utf8((#[trigger] before[i]).language@),
                encode_utf8(entries[n].language@),
            ),
        !found ==> forall|i: int|
            at <= i < before.len() ==> lex_less(
                encode_utf8(entries[n].language@),
                encode_utf8((#[trigger] before[i]).language@),
            ),
    ensures
        counts_are(after, entries, n + 1),
{
    let lang = entries[n].language@;
    if !found {
        if count_of(entries, lang, n) > 0 {
            let i = choose|i: int| 0 <= i < before.len() && (#[trigger] before[i]).language@ == lang;
            lemma_lex_irreflexive(encode_utf8(lang));
            assert(false);
        }
        lemma_count_positive(entries, lang, n);
    }
    assert forall|i: int, j: int| 0 <= i < j < after.len() implies lex_less(
        encode_utf8((#[trigger] after[i]).language@),
        encode_utf8((#[trigger] after[j]).language@),
    ) by {
        if found {
            assert(after[i].language@ == before[i].language@);
            assert(after[j].language@ == before[j].language@);
            assert(lex_less(encode_utf8(before[i].language@), encode_utf8(before[j].language@)));
        } else {
            let bi = if i < at { i } else { i - 1 };
            let bj = if j < at { j } else { j - 1 };
            if i != at {
                assert(after[i] == before[bi]);
            }
            if j != at {
                assert(after[j] == before[bj]);
            }
            if i != at && j != at {
                assert(lex_less(
                    encode_utf8(before[bi].language@),
                    encode_utf8(before[bj].language@),
                ));
            }
        }
    }
    assert forall|i: int| 0 <= i < after.len() implies (#[trigger] after[i]).count == count_of(
        entries,
        after[i].language@,
        n + 1,
    ) && after[i].count > 0 by {
        if i != at {
            let b = if found || i < at { i } else { i - 1 };
            assert(after[i] == before[b]);
            lemma_lex_irreflexive(encode_utf8(lang));
            if found {
                if i < at {
                    assert(lex_less(
                        encode_utf8(before[i].language@),
                        encode_utf8(before[at].language@),
                    ));
                } else {
                    assert(lex_less(
                        encode_utf8(before[at].language@),
                        encode_utf8(before[i].language@),
                    ));
                }
            }
            assert(after[i].language@ != lang);
        }
    }
    assert forall|l: Seq<char>| #[trigger] count_of(entries, l, n + 1) > 0 implies exists|i: int|
        0 <= i < after.len() && (#[trigger] after[i]).language@ == l by {
        if l == lang {
            assert(after[at].language@ == l);
        } else {
            assert(count_of(entries, l, n) > 0);
            let b = choose|b: int| 0 <= b < before.len() && (#[trigger] before[b]).language@ == l;
            let i = if found || b < at { b } else { b + 1 };
            assert(after[i].language@ == l);
        }
    }
}

proof fn lemma_count_positive(entries: Seq<IndexEntry>, lang: Seq<char>, n: int)
    ensures
        count_of(entries, lang, n) >= 0,
        n >= 0 ==> count_of(entries, lang, n) <= n,
    decreases n,
{
    if n > 0 {
        lemma_count_positive(entries, lang, n - 1);
    }
}

/// The status report. `cache_dir` is where grammars are kept, where that is known.
pub fn status(entries: &Vec<IndexEntry>, cache_dir: Option<&str>, root: &str) -> (out: StatusResponse)
    ensures
        out.file_count == entries@.len(),
        out.total_size_bytes == size_upto(entries@, entries@.len() as int),
        counts_are(out.languages@, entries@, entries@.len() as int),
        out.cache_dir@ == (match cache_dir {
            Some(d) => d@,
            None => "(unresolved)"@,
        }),
        out.schema_version == SCHEMA_VER,
        out.root@ == root@,
{
    let mut languages: Vec<LanguageCount> = Vec::new();
    let mut total: u64 = 0;
    let mut i: usize = 0;
    while i < entries.len()
        invariant
            i <= entries@.len(),
            counts_are(languages@, entries@, i as int),
            total == size_upto(entries@, i as int),
        decreases entries@.len() - i,
    {
        let e = &entries[i];
        let (at, found) = locate_language(&languages, e.language.as_str());
        let ghost before = languages@;
        if found {
            proof {
                lemma_count_positive(entries@, e.language@, i as int);
            }
            let count: usize = languages[at].count + 1;
            languages[at].count = count;
        } else {
            languages.insert(at, LanguageCount { language: e.language.clone(), count: 1 });
        }
        proof {
            if found {
                assert(languages@ =~= before.update(at as int, languages@[at as int]));
            }
            lemma_counted(before, languages@, entries@, i as int, at as int, found);
        }
        total = total.saturating_add(e.size_bytes);
        i += 1;
    }
    StatusResponse {
        file_count: entries.len(),
        total_size_bytes: total,
        languages,
        cache_dir: match cache_dir {
            Some(d) => d.to_string(),
            None => String::from_str("(unresolved)"),
        },
        schema_version: SCHEMA_VER,
        root: root.to_string(),
    }
}

} // verus!
