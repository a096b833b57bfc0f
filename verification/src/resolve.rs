//! Per-file resolution: the facts of a file by the best engine for its language.
//!
//! JavaScript and TypeScript go through oxc, which resolves scopes, imports and exports. Every other
//! language has the bindings that its `locals` query gives.
use vstd::prelude::*;
use vstd::utf8::{encode_utf8, valid_utf8};

use crate::js::{
    analyze, is_analysis_of, js_export_views, js_import_views, js_path_known, ref_views,
    source_type_for_path, ImportView, JsAnalysis, RefView,
};
use crate::model::SCHEMA_VER;
use crate::resolution::{
    copy_edges, export_facts, import_facts, ExportEdge, ExportFact, FileResolvedRefs, ImportEdge,
    ImportFact, ResolvedEdge,
};
use crate::text::{copy_opt, same_str, utf8_text};

verus! {

/// Whether a language goes through oxc.
pub open spec fn js_language(lang: Seq<char>) -> bool {
    lang == "javascript"@ || lang == "typescript"@ || lang == "tsx"@
}

/// Whether a language goes through oxc.
pub fn is_js_ts(lang: &str) -> (yes: bool)
    ensures
        yes == js_language(lang@),
{
    same_str(lang, "javascript") || same_str(lang, "typescript") || same_str(lang, "tsx")
}

/// The edges that resolved references stand for.
pub open spec fn edges_of(refs: Seq<RefView>) -> Seq<ResolvedEdge> {
    Seq::new(
        refs.len(),
        |i: int|
            ResolvedEdge {
                use_start: refs[i].3,
                use_end: refs[i].4,
                def_start: refs[i].1,
                def_end: refs[i].2,
            },
    )
}

/// The import facts that import entries stand for.
pub open spec fn imports_of(views: Seq<ImportView>) -> Seq<ImportFact> {
    Seq::new(
        views.len(),
        |i: int|
            ImportFact {
                local: views[i].0,
                specifier: views[i].2,
                imported: views[i].3,
                is_type: views[i].4,
                local_start: views[i].1,
            },
    )
}

/// The export facts that exports stand for.
pub open spec fn exports_of(views: Seq<(Seq<char>, u32)>) -> Seq<ExportFact> {
    Seq::new(views.len(), |i: int| ExportFact { name: views[i].0, name_start: views[i].1 })
}

/// `r` holds the facts of the analysis `a`.
pub open spec fn holds_analysis(r: FileResolvedRefs, lang: Seq<char>, a: JsAnalysis) -> bool {
    &&& r.schema_ver == SCHEMA_VER
    &&& r.language@ == lang
    &&& r.intra@ == edges_of(ref_views(a.resolved@))
    &&& import_facts(r.imports@) == imports_of(js_import_views(a.imports@))
    &&& export_facts(r.exports@) == exports_of(js_export_views(a.exports@))
}

/// The facts of an analysis.
pub fn facts_of_analysis(lang: &str, a: &JsAnalysis) -> (r: FileResolvedRefs)
    ensures
        holds_analysis(r, lang@, *a),
{
    let mut r = FileResolvedRefs::new(lang);
    let mut i: usize = 0;
    let mut intra: Vec<ResolvedEdge> = Vec::new();
    while i < a.resolved.len()
        invariant
            i <= a.resolved@.len(),
            intra@.len() == i,
            forall|k: int|
                0 <= k < i ==> #[trigger] intra@[k] == edges_of(ref_views(a.resolved@))[k],
        decreases a.resolved@.len() - i,
    {
        let f = &a.resolved[i];
        assert(ref_views(a.resolved@)[i as int] == crate::js::ref_view(*f));
        intra.push(
            ResolvedEdge {
                use_start: f.use_start,
                use_end: f.use_end,
                def_start: f.def_start,
                def_end: f.def_end,
            },
        );
        i += 1;
    }
    let mut imports: Vec<ImportEdge> = Vec::new();
    let mut j: usize = 0;
    while j < a.imports.len()
        invariant
            j <= a.imports@.len(),
            imports@.len() == j,
            forall|k: int|
                0 <= k < j ==> (#[trigger] imports@[k])@ == imports_of(
                    js_import_views(a.imports@),
                )[k],
        decreases a.imports@.len() - j,
    {
        let f = &a.imports[j];
        imports.push(
            ImportEdge {
                local: f.local.clone(),
                specifier: f.specifier.clone(),
                imported: copy_opt(&f.imported),
                is_type: f.is_type,
                local_start: f.local_start,
            },
        );
        j += 1;
    }
    let mut exports: Vec<ExportEdge> = Vec::new();
    let mut n: usize = 0;
    while n < a.exports.len()
        invariant
            n <= a.exports@.len(),
            exports@.len() == n,
            forall|k: int|
                0 <= k < n ==> (#[trigger] exports@[k])@ == exports_of(
                    js_export_views(a.exports@),
                )[k],
        decreases a.exports@.len() - n,
    {
        let f = &a.exports[n];
        exports.push(ExportEdge { name: f.name.clone(), name_start: f.name_start });
        n += 1;
    }
    assert(intra@ =~= edges_of(ref_views(a.resolved@)));
    assert(import_facts(imports@) =~= imports_of(js_import_views(a.imports@)));
    assert(export_facts(exports@) =~= exports_of(js_export_views(a.exports@)));
    r.intra = intra;
    r.imports = imports;
    r.exports = exports;
    r
}

/// `r` holds what oxc resolves of these bytes, which are the text `source`.
pub open spec fn is_js_resolution(r: FileResolvedRefs, lang: Seq<char>, path: Seq<char>, source: Seq<char>) -> bool {
    exists|a: JsAnalysis| #[trigger]
        is_analysis_of(a, source, path) && holds_analysis(r, lang, a)
}

/// Resolve a file through oxc. `None` where its bytes are not UTF-8, or its path has no extension of
/// JavaScript or TypeScript.
pub fn resolve_js(lang: &str, path: &str, source: &[u8]) -> (r: Option<FileResolvedRefs>)
    ensures
        match r {
            Some(refs) => js_path_known(path@) && exists|text: Seq<char>| #[trigger]
                encode_utf8(text) == source@ && is_js_resolution(refs, lang@, path@, text),
            None => !valid_utf8(source@) || !js_path_known(path@),
        },
{
    let text = match utf8_text(source) {
        Some(t) => t,
        None => {
            return None;
        },
    };
    let source_type = match source_type_for_path(path) {
        Some(t) => t,
        None => {
            return None;
        },
    };
    let a = analyze(text.as_str(), &source_type);
    let refs = facts_of_analysis(lang, &a);
    proof {
        assert(is_analysis_of(a, text@, path@) && holds_analysis(refs, lang@, a));
        assert(is_js_resolution(refs, lang@, path@, text@));
    }
    Some(refs)
}

/// The edges of the `locals` bindings; none where the file could not be parsed or bound.
pub open spec fn bound_edges(edges: Option<&Vec<ResolvedEdge>>) -> Seq<ResolvedEdge> {
    match edges {
        Some(e) => e@,
        None => Seq::empty(),
    }
}

/// The facts of a file by its `locals` bindings: edges within the file, and nothing else.
pub fn resolve_via_locals(lang: &str, edges: Option<&Vec<ResolvedEdge>>) -> (r: FileResolvedRefs)
    ensures
        r.schema_ver == SCHEMA_VER,
        r.language@ == lang@,
        r.intra@ == bound_edges(edges),
        r.imports@.len() == 0,
        r.exports@.len() == 0,
{
    let mut out = FileResolvedRefs::new(lang);
    match edges {
        Some(e) => {
            out.intra = copy_edges(e.as_slice());
        },
        None => {
            assert(out.intra@ =~= Seq::empty());
        },
    }
    out
}

/// Whether a file is resolved through oxc.
pub open spec fn goes_through_oxc(lang: Seq<char>, path: Seq<char>, source: Seq<u8>) -> bool {
    js_language(lang) && valid_utf8(source) && js_path_known(path)
}

/// The facts of a file. `locals` are the edges that its `locals` query binds, where it has one and
/// the file could be parsed. Nothing fails: what cannot be resolved yields no facts.
pub fn resolve_file(
    lang: &str,
    path: &str,
    source: &[u8],
    locals: Option<&Vec<ResolvedEdge>>,
) -> (r: FileResolvedRefs)
    ensures
        r.schema_ver == SCHEMA_VER,
        r.language@ == lang@,
        if goes_through_oxc(lang@, path@, source@) {
            exists|text: Seq<char>| #[trigger]
                encode_utf8(text) == source@ && is_js_resolution(r, lang@, path@, text)
        } else {
            r.intra@ == bound_edges(locals) && r.imports@.len() == 0 && r.exports@.len() == 0
        },
{
    if is_js_ts(lang) {
        match resolve_js(lang, path, source) {
            Some(refs) => {
                proof {
                    let text = choose|text: Seq<char>| #[trigger]
                        encode_utf8(text) == source@ && is_js_resolution(refs, lang@, path@, text);
                    vstd::utf8::encode_utf8_valid_utf8(text);
                }
                return refs;
            },
            None => {},
        }
    }
    resolve_via_locals(lang, locals)
}

} // verus!
