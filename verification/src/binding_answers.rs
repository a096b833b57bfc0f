//! What resolution answers: which uses are bound to which definitions, what a file imports and exports,
//! and which files are joined again after a change.
use vstd::prelude::*;

use crate::js::{
    export_views, exports_upto, import_views, is_analysis, js_export_views, js_import_views,
    lemma_ref_of_symbol, ref_view, ref_views, refs_of, refs_upto, symbol_views, JsAnalysis,
    JsExportEntry, JsImportEntry, JsImportName, JsSymbol, SymbolView,
};
use crate::resolution::{
    export_facts, import_facts, ExportEdge, FileResolvedRefs, ImportEdge, ResolvedEdge,
};
use crate::resolve::{exports_of, goes_through_oxc, holds_analysis, imports_of};
use crate::restitch::{
    affected, candidates_wf, imports_file, is_entry, is_plan, means, moved, restaged_upto, touched,
    CandidateFile, RestitchPlan,
};
use crate::stackgraph::{
    edge_numbers, edge_of, edges_upto, export_of, first_capture, import_of, imports_upto,
    is_first_capture, lemma_edges_distinct, numbers_of, BindingPath, Capture, NodeSpan, QueryMatch,
};
use crate::text::{opt_text, texts};

verus! {

// ─── JavaScript and TypeScript ───────────────────────────────────────────────

proof fn lemma_ref_kept(symbols: Seq<SymbolView>, n: int, i: int, j: int) -> (k: int)
    requires
        0 <= i < n <= symbols.len(),
        0 <= j < symbols[i].3.len(),
    ensures
        0 <= k < refs_upto(symbols, n).len(),
        refs_upto(symbols, n)[k] == (
            symbols[i].0,
            symbols[i].1,
            symbols[i].2,
            symbols[i].3[j].0,
            symbols[i].3[j].1,
        ),
    decreases n,
{
    if i == n - 1 {
        assert(refs_of(symbols[i])[j] == (
            symbols[i].0,
            symbols[i].1,
            symbols[i].2,
            symbols[i].3[j].0,
            symbols[i].3[j].1,
        ));
        refs_upto(symbols, n - 1).len() + j
    } else {
        lemma_ref_kept(symbols, n - 1, i, j)
    }
}

/// Every use of a symbol is bound to the symbol's definition. The result is the place of the reference that
/// says so.
pub proof fn law_every_use_is_bound(
    a: JsAnalysis,
    symbols: Seq<JsSymbol>,
    imports: Seq<JsImportEntry>,
    exports: Seq<JsExportEntry>,
    panicked: bool,
    diagnostics: nat,
    s: int,
    u: int,
) -> (k: int)
    requires
        is_analysis(
            a,
            symbol_views(symbols),
            import_views(imports),
            export_views(exports),
            panicked,
            diagnostics,
        ),
        0 <= s < symbols.len(),
        0 <= u < symbols[s].uses@.len(),
    ensures
        0 <= k < a.resolved@.len(),
        a.resolved@[k].name@ == symbols[s].name@,
        a.resolved@[k].def_start == symbols[s].def_start,
        a.resolved@[k].def_end == symbols[s].def_end,
        a.resolved@[k].use_start == symbols[s].uses@[u].0,
        a.resolved@[k].use_end == symbols[s].uses@[u].1,
{
    let views = symbol_views(symbols);
    assert(views[s] == (
        symbols[s].name@,
        symbols[s].def_start,
        symbols[s].def_end,
        symbols[s].uses@,
    ));
    let k = lemma_ref_kept(views, views.len() as int, s, u);
    assert(ref_views(a.resolved@)[k] == ref_view(a.resolved@[k]));
    k
}

/// Every reference binds a use of a symbol to that symbol's definition. The result gives the symbol and the
/// use.
pub proof fn law_references_are_uses(
    a: JsAnalysis,
    symbols: Seq<JsSymbol>,
    imports: Seq<JsImportEntry>,
    exports: Seq<JsExportEntry>,
    panicked: bool,
    diagnostics: nat,
    k: int,
) -> (at: (int, int))
    requires
        is_analysis(
            a,
            symbol_views(symbols),
            import_views(imports),
            export_views(exports),
            panicked,
            diagnostics,
        ),
        0 <= k < a.resolved@.len(),
    ensures
        0 <= at.0 < symbols.len(),
        0 <= at.1 < symbols[at.0].uses@.len(),
        a.resolved@[k].name@ == symbols[at.0].name@,
        a.resolved@[k].def_start == symbols[at.0].def_start,
        a.resolved@[k].def_end == symbols[at.0].def_end,
        a.resolved@[k].use_start == symbols[at.0].uses@[at.1].0,
        a.resolved@[k].use_end == symbols[at.0].uses@[at.1].1,
{
    let views = symbol_views(symbols);
    assert(ref_views(a.resolved@)[k] == ref_view(a.resolved@[k]));
    lemma_ref_of_symbol(views, views.len() as int, k);
    let (i, j) = choose|i: int, j: int|
        0 <= i < views.len() && 0 <= j < (#[trigger] views[i]).3.len() && refs_upto(
            views,
            views.len() as int,
        )[k] == (
            views[i].0,
            views[i].1,
            views[i].2,
            (#[trigger] views[i].3[j]).0,
            views[i].3[j].1,
        );
    assert(views[i] == (
        symbols[i].name@,
        symbols[i].def_start,
        symbols[i].def_end,
        symbols[i].uses@,
    ));
    (i, j)
}

/// The imports of an analysis are the import entries, one for one: an entry by name keeps the name that it
/// takes from the other module, and a default or namespace import has none.
pub proof fn law_imports_are_kept(
    a: JsAnalysis,
    symbols: Seq<JsSymbol>,
    imports: Seq<JsImportEntry>,
    exports: Seq<JsExportEntry>,
    panicked: bool,
    diagnostics: nat,
    i: int,
)
    requires
        is_analysis(
            a,
            symbol_views(symbols),
            import_views(imports),
            export_views(exports),
            panicked,
            diagnostics,
        ),
        0 <= i < imports.len(),
    ensures
        a.imports@.len() == imports.len(),
        a.imports@[i].local@ == imports[i].local@,
        a.imports@[i].local_start == imports[i].local_start,
        a.imports@[i].specifier@ == imports[i].specifier@,
        a.imports@[i].is_type == imports[i].is_type,
        match imports[i].name {
            JsImportName::Name(n) => a.imports@[i].imported is Some && a.imports@[i].imported->0@ == n@,
            JsImportName::Default => a.imports@[i].imported is None,
            JsImportName::NamespaceObject => a.imports@[i].imported is None,
        },
        a.had_errors == (panicked || diagnostics > 0),
{
    assert(js_import_views(a.imports@).len() == import_views(imports).len());
    assert(js_import_views(a.imports@)[i] == import_views(imports)[i]);
    assert(import_views(imports)[i] == crate::js::import_view(imports[i]));
}

/// An export entry by name is an export of the analysis, at the byte where the name starts. The result is its
/// place.
pub proof fn law_named_exports_are_kept(
    a: JsAnalysis,
    symbols: Seq<JsSymbol>,
    imports: Seq<JsImportEntry>,
    exports: Seq<JsExportEntry>,
    panicked: bool,
    diagnostics: nat,
    i: int,
) -> (k: int)
    requires
        is_analysis(
            a,
            symbol_views(symbols),
            import_views(imports),
            export_views(exports),
            panicked,
            diagnostics,
        ),
        0 <= i < exports.len(),
        exports[i].name is Some,
    ensures
        0 <= k < a.exports@.len(),
        a.exports@[k].name@ == (exports[i].name->0).0@,
        a.exports@[k].name_start == (exports[i].name->0).1,
{
    let views = export_views(exports);
    assert(views[i] == crate::js::export_view(exports[i]));
    let k = lemma_export_kept(views, views.len() as int, i);
    assert(js_export_views(a.exports@)[k] == (a.exports@[k].name@, a.exports@[k].name_start));
    k
}

proof fn lemma_export_kept(entries: Seq<Option<(Seq<char>, u32)>>, n: int, i: int) -> (k: int)
    requires
        0 <= i < n <= entries.len(),
        entries[i] is Some,
    ensures
        0 <= k < exports_upto(entries, n).len(),
        exports_upto(entries, n)[k] == entries[i]->0,
    decreases n,
{
    if i == n - 1 {
        exports_upto(entries, n - 1).len() as int
    } else {
        lemma_export_kept(entries, n - 1, i)
    }
}

/// The facts of an analysis keep its references, imports and exports, one for one.
pub proof fn law_facts_keep_the_analysis(r: FileResolvedRefs, lang: Seq<char>, a: JsAnalysis)
    requires
        holds_analysis(r, lang, a),
    ensures
        r.language@ == lang,
        r.intra@.len() == a.resolved@.len(),
        forall|k: int|
            #![trigger r.intra@[k]]
            0 <= k < r.intra@.len() ==> r.intra@[k].use_start == a.resolved@[k].use_start
                && r.intra@[k].use_end == a.resolved@[k].use_end && r.intra@[k].def_start
                == a.resolved@[k].def_start && r.intra@[k].def_end == a.resolved@[k].def_end,
        r.imports@.len() == a.imports@.len(),
        forall|k: int|
            #![trigger r.imports@[k]]
            0 <= k < r.imports@.len() ==> r.imports@[k].local@ == a.imports@[k].local@
                && r.imports@[k].specifier@ == a.imports@[k].specifier@ && opt_text(
                r.imports@[k].imported,
            ) == opt_text(a.imports@[k].imported) && r.imports@[k].is_type == a.imports@[k].is_type
                && r.imports@[k].local_start == a.imports@[k].local_start,
        r.exports@.len() == a.exports@.len(),
        forall|k: int|
            #![trigger r.exports@[k]]
            0 <= k < r.exports@.len() ==> r.exports@[k].name@ == a.exports@[k].name@
                && r.exports@[k].name_start == a.exports@[k].name_start,
{
    assert forall|k: int|
        #![trigger r.intra@[k]]
        0 <= k < r.intra@.len() implies r.intra@[k].use_start == a.resolved@[k].use_start
        && r.intra@[k].use_end == a.resolved@[k].use_end && r.intra@[k].def_start
        == a.resolved@[k].def_start && r.intra@[k].def_end == a.resolved@[k].def_end by {
        assert(ref_views(a.resolved@)[k] == ref_view(a.resolved@[k]));
    }
    assert(import_facts(r.imports@).len() == imports_of(js_import_views(a.imports@)).len());
    assert(export_facts(r.exports@).len() == exports_of(js_export_views(a.exports@)).len());
    assert forall|k: int|
        #![trigger r.imports@[k]]
        0 <= k < r.imports@.len() implies r.imports@[k].local@ == a.imports@[k].local@
        && r.imports@[k].specifier@ == a.imports@[k].specifier@ && opt_text(r.imports@[k].imported)
        == opt_text(a.imports@[k].imported) && r.imports@[k].is_type == a.imports@[k].is_type
        && r.imports@[k].local_start == a.imports@[k].local_start by {
        assert(import_facts(r.imports@)[k] == r.imports@[k]@);
        assert(imports_of(js_import_views(a.imports@))[k] == r.imports@[k]@);
    }
    assert forall|k: int|
        #![trigger r.exports@[k]]
        0 <= k < r.exports@.len() implies r.exports@[k].name@ == a.exports@[k].name@
        && r.exports@[k].name_start == a.exports@[k].name_start by {
        assert(export_facts(r.exports@)[k] == r.exports@[k]@);
        assert(exports_of(js_export_views(a.exports@))[k] == r.exports@[k]@);
    }
}

/// JavaScript, TypeScript and TSX are resolved by their own engine where the path and the bytes allow it, and
/// no other language is.
pub proof fn law_who_resolves(lang: Seq<char>, path: Seq<char>, source: Seq<u8>)
    ensures
        goes_through_oxc(lang, path, source) <==> (lang == "javascript"@ || lang == "typescript"@
            || lang == "tsx"@) && vstd::utf8::valid_utf8(source) && crate::js::js_path_known(path),
{
}

// ─── Stack graphs ────────────────────────────────────────────────────────────

/// The span stands at these bytes: each end is the offset of its line and the column in it, and the end comes
/// after the start.
pub open spec fn stands_at(s: Option<NodeSpan>, start: int, end: int) -> bool {
    &&& s is Some
    &&& start == s->0.start_line + s->0.start_column
    &&& end == s->0.end_line + s->0.end_column
    &&& start < end
}

/// A path from a use in the file to a definition in the file, both of which stand somewhere, gives an edge
/// between them. The result is its place.
pub proof fn law_paths_become_edges(
    paths: Seq<BindingPath>,
    edges: Seq<ResolvedEdge>,
    p: int,
    uses: (int, int),
    defs: (int, int),
) -> (e: int)
    requires
        numbers_of(edges) == edges_upto(paths, paths.len() as int),
        0 <= p < paths.len(),
        paths[p].use_in_file,
        paths[p].def_in_file,
        paths[p].def_is_definition,
        stands_at(paths[p].use_span, uses.0, uses.1),
        stands_at(paths[p].def_span, defs.0, defs.1),
    ensures
        0 <= e < edges.len(),
        edges[e].use_start == uses.0,
        edges[e].use_end == uses.1,
        edges[e].def_start == defs.0,
        edges[e].def_end == defs.1,
{
    lemma_edges_distinct(paths, paths.len() as int);
    let x = edge_of(paths[p])->0;
    assert(x == (uses.0, uses.1, defs.0, defs.1));
    let e = edges_upto(paths, paths.len() as int).index_of(x);
    assert(numbers_of(edges)[e] == edge_numbers(edges[e]));
    e
}

proof fn lemma_edge_source(paths: Seq<BindingPath>, n: int, k: int) -> (p: int)
    requires
        0 <= n <= paths.len(),
        0 <= k < edges_upto(paths, n).len(),
    ensures
        0 <= p < n,
        edge_of(paths[p]) == Some(edges_upto(paths, n)[k]),
    decreases n,
{
    if k < edges_upto(paths, n - 1).len() {
        lemma_edge_source(paths, n - 1, k)
    } else {
        n - 1
    }
}

/// Every edge comes from a path from a use in the file to a definition in the file, and leads from where the
/// one stands to where the other does. No two edges are the same. The result is the path of the edge at `e`.
pub proof fn law_edges_come_from_paths(
    paths: Seq<BindingPath>,
    edges: Seq<ResolvedEdge>,
    e: int,
    f: int,
) -> (p: int)
    requires
        numbers_of(edges) == edges_upto(paths, paths.len() as int),
        0 <= e < f < edges.len(),
    ensures
        0 <= p < paths.len(),
        paths[p].use_in_file,
        paths[p].def_in_file,
        paths[p].def_is_definition,
        stands_at(paths[p].use_span, edges[e].use_start as int, edges[e].use_end as int),
        stands_at(paths[p].def_span, edges[e].def_start as int, edges[e].def_end as int),
        edges[e] != edges[f],
{
    lemma_edges_distinct(paths, paths.len() as int);
    assert(numbers_of(edges)[e] == edge_numbers(edges[e]));
    assert(numbers_of(edges)[f] == edge_numbers(edges[f]));
    lemma_edge_source(paths, paths.len() as int, e)
}

/// Capture `c` is the first of a match with this number.
pub open spec fn captures_first(m: QueryMatch, index: u32, c: int) -> bool {
    0 <= c < m.captures@.len() && m.captures@[c].index == index && forall|j: int|
        0 <= j < c ==> (#[trigger] m.captures@[j]).index != index
}

proof fn lemma_captures(m: QueryMatch, index: u32, c: int)
    requires
        captures_first(m, index, c),
    ensures
        first_capture(m.captures@, index) == Some(m.captures@[c]),
{
    assert(is_first_capture(m.captures@, index, c));
    let k = choose|k: int| is_first_capture(m.captures@, index, k);
    assert(k == c);
}

/// A match of the export query whose captured name is text is an export of that name, at the byte where the
/// name starts. The result is its place.
pub proof fn law_matches_become_exports(
    matches: Seq<QueryMatch>,
    index: u32,
    out: Seq<ExportEdge>,
    m: int,
    c: int,
) -> (k: int)
    requires
        export_facts(out) == crate::stackgraph::exports_upto(matches, index, matches.len() as int),
        0 <= m < matches.len(),
        captures_first(matches[m], index, c),
        matches[m].captures@[c].text is Some,
    ensures
        0 <= k < out.len(),
        out[k].name@ == matches[m].captures@[c].text->0@,
        out[k].name_start == matches[m].captures@[c].start_byte,
{
    lemma_captures(matches[m], index, c);
    let k = lemma_match_exported(matches, index, matches.len() as int, m);
    assert(export_facts(out)[k] == out[k]@);
    k
}

proof fn lemma_match_exported(matches: Seq<QueryMatch>, index: u32, n: int, m: int) -> (k: int)
    requires
        0 <= m < n <= matches.len(),
        export_of(matches[m], index) is Some,
    ensures
        0 <= k < crate::stackgraph::exports_upto(matches, index, n).len(),
        crate::stackgraph::exports_upto(matches, index, n)[k] == export_of(matches[m], index)->0,
    decreases n,
{
    if m == n - 1 {
        crate::stackgraph::exports_upto(matches, index, n - 1).len() as int
    } else {
        lemma_match_exported(matches, index, n - 1, m)
    }
}

/// A match of the import query whose captured local name is text is an import at run time under that name.
/// Where a module is captured too, it takes that name from the module; where none is, it takes none. The
/// result is its place.
pub proof fn law_matches_become_imports(
    matches: Seq<QueryMatch>,
    local: u32,
    module: u32,
    out: Seq<ImportEdge>,
    m: int,
    c: int,
    d: int,
) -> (k: int)
    requires
        import_facts(out) == imports_upto(matches, local, Some(module), matches.len() as int),
        0 <= m < matches.len(),
        captures_first(matches[m], local, c),
        matches[m].captures@[c].text is Some,
        captures_first(matches[m], module, d) || forall|j: int|
            0 <= j < matches[m].captures@.len() ==> (#[trigger] matches[m].captures@[j]).index
                != module,
    ensures
        0 <= k < out.len(),
        out[k].local@ == matches[m].captures@[c].text->0@,
        out[k].local_start == matches[m].captures@[c].start_byte,
        !out[k].is_type,
        captures_first(matches[m], module, d) ==> out[k].imported is Some && out[k].imported->0@
            == out[k].local@ && (matches[m].captures@[d].text is Some ==> out[k].specifier@
            == matches[m].captures@[d].text->0@),
        !captures_first(matches[m], module, d) ==> out[k].imported is None && out[k].specifier@ == ""@,
{
    lemma_captures(matches[m], local, c);
    if captures_first(matches[m], module, d) {
        lemma_captures(matches[m], module, d);
    } else {
        assert(first_capture(matches[m].captures@, module) is None) by {
            if exists|i: int| is_first_capture(matches[m].captures@, module, i) {
                let i = choose|i: int| is_first_capture(matches[m].captures@, module, i);
                assert(matches[m].captures@[i].index == module);
            }
        }
    }
    let k = lemma_match_imported(matches, local, Some(module), matches.len() as int, m);
    assert(import_facts(out)[k] == out[k]@);
    k
}

proof fn lemma_match_imported(
    matches: Seq<QueryMatch>,
    local: u32,
    module: Option<u32>,
    n: int,
    m: int,
) -> (k: int)
    requires
        0 <= m < n <= matches.len(),
        import_of(matches[m], local, module) is Some,
    ensures
        0 <= k < imports_upto(matches, local, module, n).len(),
        imports_upto(matches, local, module, n)[k] == import_of(matches[m], local, module)->0,
    decreases n,
{
    if m == n - 1 {
        imports_upto(matches, local, module, n - 1).len() as int
    } else {
        lemma_match_imported(matches, local, module, n - 1, m)
    }
}

// ─── Joining again ───────────────────────────────────────────────────────────

/// File `a` imports file `b` at run time.
pub open spec fn imports_at_run_time(c: Seq<CandidateFile>, a: int, b: int) -> bool {
    exists|j: int|
        0 <= j < c[a].file.imports@.len() && !(#[trigger] c[a].file.imports@[j]).is_type
            && c[a].file.targets@[j] is Some && c[a].file.targets@[j]->0@ == c[b].file.key@
}

pub(crate) proof fn lemma_imports(c: Seq<CandidateFile>, a: int, b: int)
    ensures
        imports_at_run_time(c, a, b) <==> imports_file(c, a, b),
{
    if imports_at_run_time(c, a, b) {
        let j = choose|j: int|
            0 <= j < c[a].file.imports@.len() && !(#[trigger] c[a].file.imports@[j]).is_type
                && c[a].file.targets@[j] is Some && c[a].file.targets@[j]->0@ == c[b].file.key@;
        assert(means(c[a].file, j, c[b].file.key@));
    }
    if imports_file(c, a, b) {
        let j = choose|j: int|
            0 <= j < c[a].file.imports@.len() && #[trigger] means(c[a].file, j, c[b].file.key@);
        assert(!c[a].file.imports@[j].is_type);
    }
}

/// A file is cleared and joined again exactly when it did not change itself, can be resolved, and imports at
/// run time a file that changed and can be resolved.
pub proof fn law_importers_of_changes_are_joined_again(
    plan: RestitchPlan,
    c: Seq<CandidateFile>,
    changed: Set<Seq<char>>,
    a: int,
)
    requires
        candidates_wf(c),
        is_plan(plan, c, changed),
        0 <= a < c.len(),
    ensures
        (exists|k: int| 0 <= k < plan.restage@.len() && (#[trigger] plan.restage@[k])@ == c[a].file.key@)
            <==> {
            &&& c[a].resolvable
            &&& !changed.contains(c[a].file.key@)
            &&& exists|b: int|
                0 <= b < c.len() && c[b].resolvable && changed.contains(c[b].file.key@)
                    && #[trigger] imports_at_run_time(c, a, b)
        },
{
    let n = c.len() as int;
    let list = restaged_upto(c, changed, n);
    assert(texts(plan.restage@).len() == plan.restage@.len());
    if exists|k: int| 0 <= k < plan.restage@.len() && (#[trigger] plan.restage@[k])@ == c[a].file.key@ {
        let k = choose|k: int|
            0 <= k < plan.restage@.len() && (#[trigger] plan.restage@[k])@ == c[a].file.key@;
        assert(texts(plan.restage@)[k] == plan.restage@[k]@);
        let i = lemma_restaged_source(c, changed, n, k);
        assert(i == a);
        assert(touched(c, changed, a));
        let b = choose|b: int|
            0 <= b < c.len() && moved(c, changed, b) && #[trigger] imports_file(c, a, b);
        lemma_imports(c, a, b);
    }
    if c[a].resolvable && !changed.contains(c[a].file.key@) && exists|b: int|
        0 <= b < c.len() && c[b].resolvable && changed.contains(c[b].file.key@)
            && #[trigger] imports_at_run_time(c, a, b) {
        let b = choose|b: int|
            0 <= b < c.len() && c[b].resolvable && changed.contains(c[b].file.key@)
                && #[trigger] imports_at_run_time(c, a, b);
        lemma_imports(c, a, b);
        assert(moved(c, changed, b));
        assert(is_entry(c[a]));
        assert(affected(c, changed, a));
        let k = lemma_restaged_kept(c, changed, n, a);
        assert(texts(plan.restage@)[k] == plan.restage@[k]@);
    }
}

proof fn lemma_restaged_source(c: Seq<CandidateFile>, changed: Set<Seq<char>>, n: int, k: int) -> (i: int)
    requires
        0 <= n <= c.len(),
        0 <= k < restaged_upto(c, changed, n).len(),
    ensures
        0 <= i < n,
        restaged_upto(c, changed, n)[k] == c[i].file.key@,
        affected(c, changed, i),
        !moved(c, changed, i),
    decreases n,
{
    if k < restaged_upto(c, changed, n - 1).len() {
        lemma_restaged_source(c, changed, n - 1, k)
    } else {
        n - 1
    }
}

proof fn lemma_restaged_kept(c: Seq<CandidateFile>, changed: Set<Seq<char>>, n: int, a: int) -> (k: int)
    requires
        0 <= a < n <= c.len(),
        affected(c, changed, a),
        !moved(c, changed, a),
    ensures
        0 <= k < restaged_upto(c, changed, n).len(),
        restaged_upto(c, changed, n)[k] == c[a].file.key@,
    decreases n,
{
    if a == n - 1 {
        restaged_upto(c, changed, n - 1).len() as int
    } else {
        lemma_restaged_kept(c, changed, n - 1, a)
    }
}

} // verus!
