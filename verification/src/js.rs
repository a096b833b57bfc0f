//! JavaScript and TypeScript: resolved references, imports and exports of one source text.
//!
//! The parser and the scope analysis are those of oxc, which link each reference to the binding it
//! means, shadowing applied. This module turns what they report into owned records.
use vstd::prelude::*;

use oxc_allocator::Allocator;
use oxc_parser::Parser;
use oxc_semantic::SemanticBuilder;
use oxc_span::{GetSpan, SourceType};
use oxc_syntax::module_record::{ExportExportName, ImportImportName};

verus! {

// ─── What oxc reports ────────────────────────────────────────────────────────

/// A symbol of a source text: its name, the span of its definition, and the spans of its uses.
#[derive(Debug)]
pub struct JsSymbol {
    pub name: String,
    pub def_start: u32,
    pub def_end: u32,
    pub uses: Vec<(u32, u32)>,
}

/// How an import names what it takes from the other module.
#[derive(Debug)]
pub enum JsImportName {
    Name(String),
    Default,
    NamespaceObject,
}

/// An import entry of a module.
#[derive(Debug)]
pub struct JsImportEntry {
    pub local: String,
    pub local_start: u32,
    pub specifier: String,
    pub name: JsImportName,
    pub is_type: bool,
}

/// A local export entry of a module; one that is not by name has none.
#[derive(Debug)]
pub struct JsExportEntry {
    pub name: Option<(String, u32)>,
}

/// What a symbol says.
pub type SymbolView = (Seq<char>, u32, u32, Seq<(u32, u32)>);

/// What an import entry says: local name and its start, specifier, imported name, and whether it is
/// for types only.
pub type ImportView = (Seq<char>, u32, Seq<char>, Option<Seq<char>>, bool);

/// What a symbol says.
pub open spec fn symbol_view(s: JsSymbol) -> SymbolView {
    (s.name@, s.def_start, s.def_end, s.uses@)
}

/// The name that an import takes from the other module. Default and namespace imports have none.
pub open spec fn imported_name(n: JsImportName) -> Option<Seq<char>> {
    match n {
        JsImportName::Name(s) => Some(s@),
        _ => None,
    }
}

/// What an import entry says.
pub open spec fn import_view(e: JsImportEntry) -> ImportView {
    (e.local@, e.local_start, e.specifier@, imported_name(e.name), e.is_type)
}

/// What an export entry says.
pub open spec fn export_view(e: JsExportEntry) -> Option<(Seq<char>, u32)> {
    match e.name {
        Some(n) => Some((n.0@, n.1)),
        None => None,
    }
}

/// What symbols say.
pub open spec fn symbol_views(list: Seq<JsSymbol>) -> Seq<SymbolView> {
    list.map_values(|s: JsSymbol| symbol_view(s))
}

/// What import entries say.
pub open spec fn import_views(list: Seq<JsImportEntry>) -> Seq<ImportView> {
    list.map_values(|e: JsImportEntry| import_view(e))
}

/// What export entries say.
pub open spec fn export_views(list: Seq<JsExportEntry>) -> Seq<Option<(Seq<char>, u32)>> {
    list.map_values(|e: JsExportEntry| export_view(e))
}

/// Whether a path has an extension of JavaScript or TypeScript.
pub uninterp spec fn js_path_known(path: Seq<char>) -> bool;

/// The symbols that oxc finds in a source text.
pub uninterp spec fn js_symbols_of(source: Seq<char>, path: Seq<char>) -> Seq<SymbolView>;

/// The import entries that oxc finds in a source text.
pub uninterp spec fn js_imports_of(source: Seq<char>, path: Seq<char>) -> Seq<ImportView>;

/// The local export entries that oxc finds in a source text.
pub uninterp spec fn js_exports_of(source: Seq<char>, path: Seq<char>) -> Seq<Option<(Seq<char>, u32)>>;

/// Whether oxc gave up on a source text, and how many diagnostics it reports.
pub uninterp spec fn js_errors_of(source: Seq<char>, path: Seq<char>) -> (bool, nat);

/// `oxc_span::SourceType::from_path`: whether it knows the path is a function of the path.
#[verifier::external_body]
fn path_is_known(path: &str) -> (known: bool)
    ensures
        known == js_path_known(path@),
{
    SourceType::from_path(path).is_ok()
}

/// `oxc_semantic::SemanticBuilder::build` on what `oxc_parser::Parser::parse` gives: the symbols
/// with the references that resolve to them are a function of the text and of the path, from which
/// the source type is read. There are none where the path is not known.
#[verifier::external_body]
fn read_symbols(source: &str, path: &str) -> (symbols: Option<Vec<JsSymbol>>)
    ensures
        symbols is Some == js_path_known(path@),
        symbols is Some ==> symbol_views(symbols->0@) == js_symbols_of(source@, path@),
{
    let arena = Allocator::default();
    let parsed = Parser::new(&arena, source, SourceType::from_path(path).ok()?).parse();
    let semantic = SemanticBuilder::new().with_build_nodes(true).build(&parsed.program).semantic;
    let scoping = semantic.scoping();
    let spans = |id| {
        let uses = scoping.get_resolved_references(id);
        uses.map(|r| semantic.nodes().kind(r.node_id()).span()).map(|s| (s.start, s.end)).collect()
    };
    Some(scoping.symbol_ids().map(|id| JsSymbol {
        name: scoping.symbol_name(id).to_string(),
        def_start: scoping.symbol_span(id).start,
        def_end: scoping.symbol_span(id).end,
        uses: spans(id),
    }).collect())
}

/// The import entries of the module record of `oxc_parser::Parser::parse`: a function of the text
/// and of the path. There are none where the path is not known.
#[verifier::external_body]
fn read_imports(source: &str, path: &str) -> (imports: Option<Vec<JsImportEntry>>)
    ensures
        imports is Some == js_path_known(path@),
        imports is Some ==> import_views(imports->0@) == js_imports_of(source@, path@),
{
    let arena = Allocator::default();
    let parsed = Parser::new(&arena, source, SourceType::from_path(path).ok()?).parse();
    Some(parsed.module_record.import_entries.iter().map(|e| JsImportEntry {
        local: e.local_name.name.as_str().to_string(),
        local_start: e.local_name.span.start,
        specifier: e.module_request.name.as_str().to_string(),
        name: match &e.import_name {
            ImportImportName::Name(n) => JsImportName::Name(n.name.as_str().to_string()),
            ImportImportName::Default(_) => JsImportName::Default,
            ImportImportName::NamespaceObject => JsImportName::NamespaceObject,
        },
        is_type: e.is_type,
    }).collect())
}

/// The local export entries of the module record of `oxc_parser::Parser::parse`: a function of the
/// text and of the path. There are none where the path is not known.
#[verifier::external_body]
fn read_exports(source: &str, path: &str) -> (exports: Option<Vec<JsExportEntry>>)
    ensures
        exports is Some == js_path_known(path@),
        exports is Some ==> export_views(exports->0@) == js_exports_of(source@, path@),
{
    let arena = Allocator::default();
    let parsed = Parser::new(&arena, source, SourceType::from_path(path).ok()?).parse();
    Some(parsed.module_record.local_export_entries.iter().map(|e| JsExportEntry {
        name: match &e.export_name {
            ExportExportName::Name(n) => Some((n.name.as_str().to_string(), n.span.start)),
            ExportExportName::Default(_) => None,
            ExportExportName::Null => None,
        },
    }).collect())
}

/// Whether `oxc_parser::Parser::parse` gave up, and the number of its diagnostics: a function of
/// the text and of the path. There is neither where the path is not known.
#[verifier::external_body]
fn read_errors(source: &str, path: &str) -> (errors: Option<(bool, usize)>)
    ensures
        errors is Some == js_path_known(path@),
        errors is Some ==> (errors->0).0 == js_errors_of(source@, path@).0,
        errors is Some ==> (errors->0).1 == js_errors_of(source@, path@).1,
{
    let arena = Allocator::default();
    let parsed = Parser::new(&arena, source, SourceType::from_path(path).ok()?).parse();
    Some((parsed.panicked, parsed.diagnostics.len()))
}

// ─── The analysis ────────────────────────────────────────────────────────────

/// A use of a symbol linked to the definition that it binds to, both as byte spans.
#[derive(Debug, Clone)]
pub struct ResolvedRef {
    pub name: String,
    pub def_start: u32,
    pub def_end: u32,
    pub use_start: u32,
    pub use_end: u32,
}

/// An import binding introduced in a file.
#[derive(Debug, Clone)]
pub struct JsImport {
    /// The name in this file.
    pub local: String,
    /// The module specifier.
    pub specifier: String,
    /// The name in the source module; `None` for default and namespace imports.
    pub imported: Option<String>,
    /// True for an import of types only.
    pub is_type: bool,
    /// Start byte of the local binding identifier.
    pub local_start: u32,
}

/// A name that a module exports directly.
#[derive(Debug, Clone)]
pub struct JsExport {
    pub name: String,
    /// Start byte of the exported name in the export clause.
    pub name_start: u32,
}

/// What the analysis of one source text gives.
#[derive(Debug, Clone)]
pub struct JsAnalysis {
    pub resolved: Vec<ResolvedRef>,
    pub imports: Vec<JsImport>,
    pub exports: Vec<JsExport>,
    /// True when there were parse diagnostics, or the parser gave up.
    pub had_errors: bool,
}

/// What a resolved reference says: the name, the definition's span, the use's span.
pub type RefView = (Seq<char>, u32, u32, u32, u32);

/// What a resolved reference says.
pub open spec fn ref_view(r: ResolvedRef) -> RefView {
    (r.name@, r.def_start, r.def_end, r.use_start, r.use_end)
}

/// What resolved references say.
pub open spec fn ref_views(list: Seq<ResolvedRef>) -> Seq<RefView> {
    list.map_values(|r: ResolvedRef| ref_view(r))
}

/// The references of one symbol, one for each use.
pub open spec fn refs_of(s: SymbolView) -> Seq<RefView> {
    Seq::new(s.3.len(), |i: int| (s.0, s.1, s.2, s.3[i].0, s.3[i].1))
}

/// The references of the first `n` symbols, symbol by symbol.
pub open spec fn refs_upto(symbols: Seq<SymbolView>, n: int) -> Seq<RefView>
    decreases n,
{
    if n <= 0 {
        Seq::empty()
    } else {
        refs_upto(symbols, n - 1) + refs_of(symbols[n - 1])
    }
}

/// The imports of an analysis, as the import entries that they come from say it.
pub open spec fn js_import_views(list: Seq<JsImport>) -> Seq<ImportView> {
    list.map_values(
        |i: JsImport|
            (i.local@, i.local_start, i.specifier@, crate::text::opt_text(i.imported), i.is_type),
    )
}

/// The exports of an analysis.
pub open spec fn js_export_views(list: Seq<JsExport>) -> Seq<(Seq<char>, u32)> {
    list.map_values(|e: JsExport| (e.name@, e.name_start))
}

/// The names and starts of the first `n` export entries that are by name.
pub open spec fn exports_upto(entries: Seq<Option<(Seq<char>, u32)>>, n: int) -> Seq<
    (Seq<char>, u32),
>
    decreases n,
{
    if n <= 0 {
        Seq::empty()
    } else {
        match entries[n - 1] {
            Some(e) => exports_upto(entries, n - 1).push(e),
            None => exports_upto(entries, n - 1),
        }
    }
}

/// `a` is the analysis of a text of which this was reported.
pub open spec fn is_analysis(
    a: JsAnalysis,
    symbols: Seq<SymbolView>,
    imports: Seq<ImportView>,
    exports: Seq<Option<(Seq<char>, u32)>>,
    panicked: bool,
    diagnostics: nat,
) -> bool {
    &&& ref_views(a.resolved@) == refs_upto(symbols, symbols.len() as int)
    &&& js_import_views(a.imports@) == imports
    &&& js_export_views(a.exports@) == exports_upto(exports, exports.len() as int)
    &&& a.had_errors == (panicked || diagnostics > 0)
}

fn push_refs(out: &mut Vec<ResolvedRef>, s: &JsSymbol)
    ensures
        ref_views(final(out)@) == ref_views(old(out)@) + refs_of(symbol_view(*s)),
{
    let ghost before = out@;
    let ghost all = refs_of(symbol_view(*s));
    let mut i: usize = 0;
    assert(ref_views(out@) =~= ref_views(before) + all.take(0));
    while i < s.uses.len()
        invariant
            i <= s.uses@.len(),
            all == refs_of(symbol_view(*s)),
            ref_views(out@) == ref_views(before) + all.take(i as int),
        decreases s.uses@.len() - i,
    {
        let ghost sofar = out@;
        let (use_start, use_end) = s.uses[i];
        let r = ResolvedRef {
            name: s.name.clone(),
            def_start: s.def_start,
            def_end: s.def_end,
            use_start,
            use_end,
        };
        let ghost v = ref_view(r);
        out.push(r);
        proof {
            assert(all[i as int] == v);
            assert(ref_views(out@) =~= ref_views(sofar).push(v));
            assert(ref_views(sofar).push(v) =~= ref_views(before) + all.take(i + 1));
        }
        i += 1;
    }
    assert(all.take(i as int) =~= all);
}

fn resolved_refs(symbols: &Vec<JsSymbol>) -> (out: Vec<ResolvedRef>)
    ensures
        ref_views(out@) == refs_upto(symbol_views(symbols@), symbols@.len() as int),
{
    let mut out: Vec<ResolvedRef> = Vec::new();
    let mut i: usize = 0;
    assert(ref_views(out@) =~= Seq::empty());
    while i < symbols.len()
        invariant
            i <= symbols@.len(),
            ref_views(out@) == refs_upto(symbol_views(symbols@), i as int),
        decreases symbols@.len() - i,
    {
        push_refs(&mut out, &symbols[i]);
        assert(symbol_views(symbols@)[i as int] == symbol_view(symbols@[i as int]));
        i += 1;
    }
    out
}

fn import_bindings(entries: &Vec<JsImportEntry>) -> (out: Vec<JsImport>)
    ensures
        js_import_views(out@) == import_views(entries@),
{
    let mut out: Vec<JsImport> = Vec::new();
    let mut i: usize = 0;
    while i < entries.len()
        invariant
            i <= entries@.len(),
            out@.len() == i,
            forall|k: int|
                0 <= k < i ==> js_import_views(out@)[k] == #[trigger] import_views(entries@)[k],
        decreases entries@.len() - i,
    {
        let e = &entries[i];
        let imported = match &e.name {
            JsImportName::Name(n) => Some(n.clone()),
            JsImportName::Default => None,
            JsImportName::NamespaceObject => None,
        };
        let ghost before = out@;
        out.push(
            JsImport {
                local: e.local.clone(),
                specifier: e.specifier.clone(),
                imported,
                is_type: e.is_type,
                local_start: e.local_start,
            },
        );
        proof {
            assert forall|k: int| 0 <= k < i + 1 implies js_import_views(out@)[k]
                == #[trigger] import_views(entries@)[k] by {
                if k < i {
                    assert(js_import_views(out@)[k] == js_import_views(before)[k]);
                }
            }
        }
        i += 1;
    }
    assert(js_import_views(out@) =~= import_views(entries@));
    out
}

fn named_exports(entries: &Vec<JsExportEntry>) -> (out: Vec<JsExport>)
    ensures
        js_export_views(out@) == exports_upto(export_views(entries@), entries@.len() as int),
{
    let mut out: Vec<JsExport> = Vec::new();
    let mut i: usize = 0;
    assert(js_export_views(out@) =~= Seq::empty());
    while i < entries.len()
        invariant
            i <= entries@.len(),
            js_export_views(out@) == exports_upto(export_views(entries@), i as int),
        decreases entries@.len() - i,
    {
        let ghost before = out@;
        assert(export_views(entries@)[i as int] == export_view(entries@[i as int]));
        match &entries[i].name {
            Some(n) => {
                let e = JsExport { name: n.0.clone(), name_start: n.1 };
                let ghost v = (e.name@, e.name_start);
                out.push(e);
                assert(js_export_views(out@) =~= js_export_views(before).push(v));
            },
            None => {},
        }
        i += 1;
    }
    out
}

/// The analysis of a text of which this was reported: a resolved reference for each use of each
/// symbol; the import bindings; and the exports by name.
pub fn analysis_of(
    symbols: &Vec<JsSymbol>,
    imports: &Vec<JsImportEntry>,
    exports: &Vec<JsExportEntry>,
    panicked: bool,
    diagnostics: usize,
) -> (a: JsAnalysis)
    ensures
        is_analysis(
            a,
            symbol_views(symbols@),
            import_views(imports@),
            export_views(exports@),
            panicked,
            diagnostics as nat,
        ),
{
    JsAnalysis {
        resolved: resolved_refs(symbols),
        imports: import_bindings(imports),
        exports: named_exports(exports),
        had_errors: panicked || diagnostics > 0,
    }
}

/// How a source text is to be read: as its file's name says.
#[derive(Debug, Clone)]
pub struct JsSourceType {
    pub path: String,
}

/// The source type for a path. `None` where its extension is none of JavaScript or TypeScript.
pub fn source_type_for_path(path: &str) -> (t: Option<JsSourceType>)
    ensures
        match t {
            Some(s) => js_path_known(path@) && s.path@ == path@,
            None => !js_path_known(path@),
        },
{
    if path_is_known(path) {
        Some(JsSourceType { path: path.to_string() })
    } else {
        None
    }
}

/// `a` is the analysis of the text under this path; empty where the path is not known.
pub open spec fn is_analysis_of(a: JsAnalysis, source: Seq<char>, path: Seq<char>) -> bool {
    if js_path_known(path) {
        is_analysis(
            a,
            js_symbols_of(source, path),
            js_imports_of(source, path),
            js_exports_of(source, path),
            js_errors_of(source, path).0,
            js_errors_of(source, path).1,
        )
    } else {
        is_analysis(a, Seq::empty(), Seq::empty(), Seq::empty(), false, 0)
    }
}

/// Analyse one source text.
pub fn analyze(source: &str, source_type: &JsSourceType) -> (a: JsAnalysis)
    ensures
        is_analysis_of(a, source@, source_type.path@),
{
    let path = source_type.path.as_str();
    match (
        read_symbols(source, path),
        read_imports(source, path),
        read_exports(source, path),
        read_errors(source, path),
    ) {
        (Some(symbols), Some(imports), Some(exports), Some((panicked, diagnostics))) => analysis_of(
            &symbols,
            &imports,
            &exports,
            panicked,
            diagnostics,
        ),
        _ => {
            let a = JsAnalysis {
                resolved: Vec::new(),
                imports: Vec::new(),
                exports: Vec::new(),
                had_errors: false,
            };
            assert(ref_views(a.resolved@) =~= Seq::empty());
            assert(js_import_views(a.imports@) =~= Seq::empty());
            assert(js_export_views(a.exports@) =~= Seq::empty());
            a
        },
    }
}

pub(crate) proof fn lemma_ref_of_symbol(symbols: Seq<SymbolView>, n: int, k: int)
    requires
        0 <= n <= symbols.len(),
        0 <= k < refs_upto(symbols, n).len(),
    ensures
        exists|i: int, j: int|
            0 <= i < n && 0 <= j < (#[trigger] symbols[i]).3.len() && refs_upto(symbols, n)[k] == (
                symbols[i].0,
                symbols[i].1,
                symbols[i].2,
                (#[trigger] symbols[i].3[j]).0,
                symbols[i].3[j].1,
            ),
    decreases n,
{
    if n > 0 {
        let before = refs_upto(symbols, n - 1);
        if k < before.len() {
            lemma_ref_of_symbol(symbols, n - 1, k);
            assert(refs_upto(symbols, n)[k] == before[k]);
        } else {
            let j = k - before.len();
            assert(refs_of(symbols[n - 1])[j] == refs_upto(symbols, n)[k]);
            assert(symbols[n - 1].3[j] == symbols[n - 1].3[j]);
        }
    }
}

/// Every resolved reference links a reported use to the definition of its own symbol: nothing is
/// matched by name.
pub proof fn law_references_bind_to_their_symbol(
    a: JsAnalysis,
    symbols: Seq<SymbolView>,
    imports: Seq<ImportView>,
    exports: Seq<Option<(Seq<char>, u32)>>,
    panicked: bool,
    diagnostics: nat,
    k: int,
)
    requires
        is_analysis(a, symbols, imports, exports, panicked, diagnostics),
        0 <= k < a.resolved@.len(),
    ensures
        exists|i: int, j: int|
            0 <= i < symbols.len() && 0 <= j < (#[trigger] symbols[i]).3.len() && ref_view(
                a.resolved@[k],
            ) == (
                symbols[i].0,
                symbols[i].1,
                symbols[i].2,
                (#[trigger] symbols[i].3[j]).0,
                symbols[i].3[j].1,
            ),
{
    assert(ref_views(a.resolved@)[k] == ref_view(a.resolved@[k]));
    lemma_ref_of_symbol(symbols, symbols.len() as int, k);
}

} // verus!
