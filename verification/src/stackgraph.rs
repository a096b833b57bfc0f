//! Stack graphs: name-binding rules for Python and Java, and what is kept of the paths they give.
//!
//! The engine that runs the rules stands outside. It reports the paths from references to
//! definitions, and the matches of the import and export queries; here they become edges.
use vstd::prelude::*;
use vstd::utf8::valid_utf8;

use crate::model::SCHEMA_VER;
use crate::resolution::{
    ExportEdge, ExportFact, FileResolvedRefs, ImportEdge, ImportFact, ResolvedEdge, export_facts,
    import_facts,
};
use crate::tables::{spans_held, spans_insert, spans_new};
use crate::text::{chars_occur_at, from_chars, occurs_at, opt_text, same_str, to_chars, utf8_text};

verus! {

// ─── Rules ───────────────────────────────────────────────────────────────────

/// Whether a language has name-binding rules.
pub open spec fn ruled(lang: Seq<char>) -> bool {
    lang == "python"@ || lang == "java"@
}

/// Whether a language has name-binding rules.
pub fn has_tsg_ruleset(lang: &str) -> (yes: bool)
    ensures
        yes == ruled(lang@),
{
    same_str(lang, "python") || same_str(lang, "java")
}

/// `s` from `at` on, without the occurrences of `pat`: the first is taken out, then the first of
/// what follows it, and so on.
pub open spec fn without_from(s: Seq<char>, pat: Seq<char>, at: int) -> Seq<char>
    decreases s.len() - at,
{
    if at < 0 || at >= s.len() {
        Seq::empty()
    } else if pat.len() > 0 && occurs_at(s, pat, at) {
        without_from(s, pat, at + pat.len())
    } else {
        seq![s[at]] + without_from(s, pat, at + 1)
    }
}

/// `s` without the occurrences of `pat`.
pub open spec fn without(s: Seq<char>, pat: Seq<char>) -> Seq<char> {
    without_from(s, pat, 0)
}

fn remove_all(s: &str, pat: &str) -> (out: String)
    ensures
        out@ == without(s@, pat@),
{
    let chars = to_chars(s);
    let needle = to_chars(pat);
    let mut out: Vec<char> = Vec::new();
    let mut i: usize = 0;
    assert(out@ + without_from(s@, pat@, 0) =~= without(s@, pat@));
    while i < chars.len()
        invariant
            chars@ == s@,
            needle@ == pat@,
            i <= chars@.len(),
            out@ + without_from(s@, pat@, i as int) == without(s@, pat@),
        decreases chars@.len() - i,
    {
        if needle.len() > 0 && needle.len() <= chars.len() - i && chars_occur_at(chars.as_slice(), needle.as_slice(), i) {
            i += needle.len();
        } else {
            let ghost before = out@;
            out.push(chars[i]);
            proof {
                let rest = without_from(s@, pat@, i + 1);
                assert(before + (seq![s@[i as int]] + rest) =~= before.push(s@[i as int]) + rest);
            }
            i += 1;
        }
    }
    assert(without_from(s@, pat@, i as int) =~= Seq::empty());
    assert(out@ + without_from(s@, pat@, i as int) =~= out@);
    from_chars(out.as_slice())
}

/// The Python rules without the two places that name a node which the grammar does not have.
pub open spec fn adapted_rules(src: Seq<char>) -> Seq<char> {
    without(without(src, "  (except_group_clause)\n"@), "(except_group_clause) {}\n"@)
}

/// Take out of the Python rules what names a node which the grammar does not have.
pub fn adapt_python_tsg(src: &str) -> (out: String)
    ensures
        out@ == adapted_rules(src@),
{
    let once = remove_all(src, "  (except_group_clause)\n");
    remove_all(once.as_str(), "(except_group_clause) {}\n")
}

/// The rules of a language, given the rule files.
pub fn tsg_source(lang: &str, python_rules: &str, java_rules: &str) -> (src: Option<String>)
    ensures
        opt_text(src) == (if lang@ == "python"@ {
            Some(adapted_rules(python_rules@))
        } else if lang@ == "java"@ {
            Some(java_rules@)
        } else {
            None
        }),
{
    if same_str(lang, "python") {
        Some(adapt_python_tsg(python_rules))
    } else if same_str(lang, "java") {
        Some(java_rules.to_string())
    } else {
        None
    }
}

/// The query for the names that a language's imports bind.
pub fn import_query_source(lang: &str) -> (q: Option<&'static str>)
    ensures
        q is Some == ruled(lang@),
        lang@ == "python"@ ==> q->0@
            == "(import_from_statement module_name: (_) @module name: (dotted_name (identifier) @local))\n(import_statement name: (dotted_name (identifier) @local))"@,
        lang@ == "java"@ ==> q->0@
            == "(import_declaration (scoped_identifier name: (identifier) @local) @module)"@,
{
    proof {
        reveal_strlit("python");
        reveal_strlit("java");
        assert("python"@.len() != "java"@.len());
    }
    if same_str(lang, "python") {
        Some(
            "(import_from_statement module_name: (_) @module name: (dotted_name (identifier) @local))\n(import_statement name: (dotted_name (identifier) @local))",
        )
    } else if same_str(lang, "java") {
        Some("(import_declaration (scoped_identifier name: (identifier) @local) @module)")
    } else {
        None
    }
}

/// The query for the names that a language's modules export.
pub fn export_query_source(lang: &str) -> (q: Option<&'static str>)
    ensures
        q is Some == ruled(lang@),
        lang@ == "python"@ ==> q->0@
            == "(module (function_definition name: (identifier) @export))\n(module (class_definition name: (identifier) @export))\n(module (decorated_definition (function_definition name: (identifier) @export)))\n(module (decorated_definition (class_definition name: (identifier) @export)))\n(module (expression_statement (assignment left: (identifier) @export)))"@,
        lang@ == "java"@ ==> q->0@
            == "(program (class_declaration name: (identifier) @export))\n(program (interface_declaration name: (identifier) @export))\n(program (enum_declaration name: (identifier) @export))\n(program (record_declaration name: (identifier) @export))"@,
{
    proof {
        reveal_strlit("python");
        reveal_strlit("java");
        assert("python"@.len() != "java"@.len());
    }
    if same_str(lang, "python") {
        Some(
            "(module (function_definition name: (identifier) @export))\n(module (class_definition name: (identifier) @export))\n(module (decorated_definition (function_definition name: (identifier) @export)))\n(module (decorated_definition (class_definition name: (identifier) @export)))\n(module (expression_statement (assignment left: (identifier) @export)))",
        )
    } else if same_str(lang, "java") {
        Some(
            "(program (class_declaration name: (identifier) @export))\n(program (interface_declaration name: (identifier) @export))\n(program (enum_declaration name: (identifier) @export))\n(program (record_declaration name: (identifier) @export))",
        )
    } else {
        None
    }
}

// ─── Paths ───────────────────────────────────────────────────────────────────

/// The most microseconds that the engine may spend on one file.
pub const STACKGRAPH_BUDGET_MICROS: u64 = 5_000_000;

/// Whether the time for a file is up.
pub fn deadline_expired(elapsed_micros: u64, limit_micros: u64) -> (yes: bool)
    ensures
        yes == (elapsed_micros > limit_micros),
{
    elapsed_micros > limit_micros
}

/// Where a node stands in the source: for either end the offset of its line, and the column in
/// bytes.
#[derive(Debug, Clone, Copy)]
pub struct NodeSpan {
    pub start_line: u32,
    pub start_column: u32,
    pub end_line: u32,
    pub end_column: u32,
}

/// The offsets of a span; `None` where it is empty.
pub open spec fn span_of(s: Option<NodeSpan>) -> Option<(int, int)> {
    match s {
        Some(x) => {
            let start = x.start_line + x.start_column;
            let end = x.end_line + x.end_column;
            if end <= start {
                None
            } else {
                Some((start, end))
            }
        },
        None => None,
    }
}

/// The offsets of a span fit into 32 bits.
pub open spec fn span_fits(s: Option<NodeSpan>) -> bool {
    s is Some ==> s->0.start_line + s->0.start_column <= u32::MAX && s->0.end_line
        + s->0.end_column <= u32::MAX
}

/// The offsets of a node; `None` for one without a span, and for an empty span.
pub fn span_bytes(span: Option<NodeSpan>) -> (r: Option<(u32, u32)>)
    requires
        span_fits(span),
    ensures
        match r {
            Some(p) => span_of(span) == Some((p.0 as int, p.1 as int)),
            None => span_of(span) is None,
        },
{
    match span {
        Some(s) => {
            let start: u32 = s.start_line + s.start_column;
            let end: u32 = s.end_line + s.end_column;
            if end <= start {
                None
            } else {
                Some((start, end))
            }
        },
        None => None,
    }
}

/// A path from a reference to where it leads.
#[derive(Debug, Clone, Copy)]
pub struct BindingPath {
    pub use_in_file: bool,
    pub use_span: Option<NodeSpan>,
    pub def_is_definition: bool,
    pub def_in_file: bool,
    pub def_span: Option<NodeSpan>,
}

/// The edge that a path stands for: it leads from the file to a definition in the file, and both
/// ends have a span.
pub open spec fn edge_of(p: BindingPath) -> Option<(int, int, int, int)> {
    if p.def_is_definition && p.def_in_file && p.use_in_file && span_of(p.use_span) is Some
        && span_of(p.def_span) is Some {
        Some(
            (
                (span_of(p.use_span)->0).0,
                (span_of(p.use_span)->0).1,
                (span_of(p.def_span)->0).0,
                (span_of(p.def_span)->0).1,
            ),
        )
    } else {
        None
    }
}

/// The numbers of an edge.
pub open spec fn edge_numbers(e: ResolvedEdge) -> (int, int, int, int) {
    (e.use_start as int, e.use_end as int, e.def_start as int, e.def_end as int)
}

/// The edges of the first `n` paths, each once, in the order in which they first come.
pub open spec fn edges_upto(paths: Seq<BindingPath>, n: int) -> Seq<(int, int, int, int)>
    decreases n,
{
    if n <= 0 {
        Seq::empty()
    } else {
        let before = edges_upto(paths, n - 1);
        match edge_of(paths[n - 1]) {
            Some(e) => if before.contains(e) {
                before
            } else {
                before.push(e)
            },
            None => before,
        }
    }
}

/// What edges say.
pub open spec fn numbers_of(edges: Seq<ResolvedEdge>) -> Seq<(int, int, int, int)> {
    edges.map_values(|e: ResolvedEdge| edge_numbers(e))
}

/// The edges within a file that the paths give, each once.
pub fn intra_edges(paths: &Vec<BindingPath>) -> (edges: Vec<ResolvedEdge>)
    requires
        forall|i: int|
            0 <= i < paths@.len() ==> span_fits((#[trigger] paths@[i]).use_span) && span_fits(
                paths@[i].def_span,
            ),
    ensures
        numbers_of(edges@) == edges_upto(paths@, paths@.len() as int),
{
    let mut seen = spans_new();
    let mut edges: Vec<ResolvedEdge> = Vec::new();
    let mut i: usize = 0;
    assert(numbers_of(edges@) =~= Seq::empty());
    while i < paths.len()
        invariant
            i <= paths@.len(),
            forall|i: int|
                0 <= i < paths@.len() ==> span_fits((#[trigger] paths@[i]).use_span) && span_fits(
                    paths@[i].def_span,
                ),
            numbers_of(edges@) == edges_upto(paths@, i as int),
            forall|k: (u32, u32, u32, u32)| #[trigger]
                spans_held(seen).contains(k) <==> numbers_of(edges@).contains(
                    (k.0 as int, k.1 as int, k.2 as int, k.3 as int),
                ),
        decreases paths@.len() - i,
    {
        let p = paths[i];
        if p.def_is_definition && p.def_in_file && p.use_in_file {
            match (span_bytes(p.use_span), span_bytes(p.def_span)) {
                (Some((us, ue)), Some((ds, de))) => {
                    let key = (us, ue, ds, de);
                    let ghost held = spans_held(seen);
                    let ghost before = edges@;
                    let ghost v = (us as int, ue as int, ds as int, de as int);
                    assert(held.contains(key) <==> numbers_of(before).contains(v));
                    if spans_insert(&mut seen, key) {
                        edges.push(
                            ResolvedEdge { use_start: us, use_end: ue, def_start: ds, def_end: de },
                        );
                        proof {
                            let now = numbers_of(edges@);
                            assert(now =~= numbers_of(before).push(v));
                            assert forall|k: (u32, u32, u32, u32)| #[trigger]
                                spans_held(seen).contains(k) <==> now.contains(
                                    (k.0 as int, k.1 as int, k.2 as int, k.3 as int),
                                ) by {
                                let w = (k.0 as int, k.1 as int, k.2 as int, k.3 as int);
                                assert(held.contains(k) <==> numbers_of(before).contains(w));
                                if k == key {
                                    assert(now[now.len() - 1] == w);
                                } else {
                                    if numbers_of(before).contains(w) {
                                        let q = numbers_of(before).index_of(w);
                                        assert(now[q] == w);
                                    }
                                    if now.contains(w) {
                                        let q = now.index_of(w);
                                        assert(w != v);
                                        assert(numbers_of(before)[q] == w);
                                    }
                                }
                            }
                        }
                    } else {
                        assert(spans_held(seen) =~= held);
                    }
                },
                _ => {},
            }
        }
        i += 1;
    }
    edges
}

// ─── Imports and exports ─────────────────────────────────────────────────────

/// A captured node: the capture's number, the node's text where it is UTF-8, and where it starts.
#[derive(Debug)]
pub struct Capture {
    pub index: u32,
    pub text: Option<String>,
    pub start_byte: u32,
}

/// A match of a query.
#[derive(Debug)]
pub struct QueryMatch {
    pub captures: Vec<Capture>,
}

/// `i` is the first capture with this number.
pub open spec fn is_first_capture(captures: Seq<Capture>, index: u32, i: int) -> bool {
    &&& 0 <= i < captures.len()
    &&& captures[i].index == index
    &&& forall|j: int| 0 <= j < i ==> (#[trigger] captures[j]).index != index
}

/// The first capture with this number.
pub open spec fn first_capture(captures: Seq<Capture>, index: u32) -> Option<Capture> {
    if exists|i: int| is_first_capture(captures, index, i) {
        Some(captures[choose|i: int| is_first_capture(captures, index, i)])
    } else {
        None
    }
}

fn find_capture<'a>(captures: &'a Vec<Capture>, index: u32) -> (c: Option<&'a Capture>)
    ensures
        match c {
            Some(x) => first_capture(captures@, index) == Some(*x),
            None => first_capture(captures@, index) is None,
        },
{
    let mut i: usize = 0;
    while i < captures.len()
        invariant
            i <= captures@.len(),
            forall|j: int| 0 <= j < i ==> (#[trigger] captures@[j]).index != index,
        decreases captures@.len() - i,
    {
        if captures[i].index == index {
            proof {
                assert(is_first_capture(captures@, index, i as int));
                let k = choose|k: int| is_first_capture(captures@, index, k);
                assert(k == i);
            }
            return Some(&captures[i]);
        }
        i += 1;
    }
    None
}

/// The export that a match stands for: the captured name, at the byte where the name starts.
pub open spec fn export_of(m: QueryMatch, export_idx: u32) -> Option<ExportFact> {
    match first_capture(m.captures@, export_idx) {
        Some(c) => match c.text {
            Some(t) => Some(ExportFact { name: t@, name_start: c.start_byte }),
            None => None,
        },
        None => None,
    }
}

/// The exports of the first `n` matches.
pub open spec fn exports_upto(matches: Seq<QueryMatch>, export_idx: u32, n: int) -> Seq<ExportFact>
    decreases n,
{
    if n <= 0 {
        Seq::empty()
    } else {
        match export_of(matches[n - 1], export_idx) {
            Some(e) => exports_upto(matches, export_idx, n - 1).push(e),
            None => exports_upto(matches, export_idx, n - 1),
        }
    }
}

/// The exports that the matches of the export query give.
pub fn extract_exports(matches: &Vec<QueryMatch>, export_idx: u32) -> (out: Vec<ExportEdge>)
    ensures
        export_facts(out@) == exports_upto(matches@, export_idx, matches@.len() as int),
{
    let mut out: Vec<ExportEdge> = Vec::new();
    let mut i: usize = 0;
    assert(export_facts(out@) =~= Seq::empty());
    while i < matches.len()
        invariant
            i <= matches@.len(),
            export_facts(out@) == exports_upto(matches@, export_idx, i as int),
        decreases matches@.len() - i,
    {
        match find_capture(&matches[i].captures, export_idx) {
            Some(c) => match &c.text {
                Some(t) => {
                    let ghost before = out@;
                    let e = ExportEdge { name: t.clone(), name_start: c.start_byte };
                    let ghost v = e@;
                    out.push(e);
                    assert(export_facts(out@) =~= export_facts(before).push(v));
                },
                None => {},
            },
            None => {},
        }
        i += 1;
    }
    out
}

/// The import that a match stands for: the captured local name. Where a module is captured too, the
/// binding names a symbol of that module, under the same name; otherwise it binds the module itself.
pub open spec fn import_of(m: QueryMatch, local_idx: u32, module_idx: Option<u32>) -> Option<
    ImportFact,
> {
    match first_capture(m.captures@, local_idx) {
        Some(c) => match c.text {
            Some(t) => {
                let module = match module_idx {
                    Some(x) => first_capture(m.captures@, x),
                    None => None,
                };
                Some(
                    ImportFact {
                        local: t@,
                        specifier: match module {
                            Some(d) => match d.text {
                                Some(s) => s@,
                                None => ""@,
                            },
                            None => ""@,
                        },
                        imported: if module is Some {
                            Some(t@)
                        } else {
                            None
                        },
                        is_type: false,
                        local_start: c.start_byte,
                    },
                )
            },
            None => None,
        },
        None => None,
    }
}

/// The imports of the first `n` matches.
pub open spec fn imports_upto(
    matches: Seq<QueryMatch>,
    local_idx: u32,
    module_idx: Option<u32>,
    n: int,
) -> Seq<ImportFact>
    decreases n,
{
    if n <= 0 {
        Seq::empty()
    } else {
        match import_of(matches[n - 1], local_idx, module_idx) {
            Some(e) => imports_upto(matches, local_idx, module_idx, n - 1).push(e),
            None => imports_upto(matches, local_idx, module_idx, n - 1),
        }
    }
}

/// The imports that the matches of the import query give.
pub fn extract_imports(matches: &Vec<QueryMatch>, local_idx: u32, module_idx: Option<u32>) -> (out:
    Vec<ImportEdge>)
    ensures
        import_facts(out@) == imports_upto(
            matches@,
            local_idx,
            module_idx,
            matches@.len() as int,
        ),
{
    let mut out: Vec<ImportEdge> = Vec::new();
    let mut i: usize = 0;
    assert(import_facts(out@) =~= Seq::empty());
    while i < matches.len()
        invariant
            i <= matches@.len(),
            import_facts(out@) == imports_upto(matches@, local_idx, module_idx, i as int),
        decreases matches@.len() - i,
    {
        match find_capture(&matches[i].captures, local_idx) {
            Some(c) => match &c.text {
                Some(t) => {
                    let module = match module_idx {
                        Some(x) => find_capture(&matches[i].captures, x),
                        None => None,
                    };
                    let (specifier, imported) = match module {
                        Some(d) => match &d.text {
                            Some(s) => (s.clone(), Some(t.clone())),
                            None => (String::from_str(""), Some(t.clone())),
                        },
                        None => (String::from_str(""), None),
                    };
                    let ghost before = out@;
                    let e = ImportEdge {
                        local: t.clone(),
                        specifier,
                        imported,
                        is_type: false,
                        local_start: c.start_byte,
                    };
                    let ghost v = e@;
                    out.push(e);
                    assert(import_facts(out@) =~= import_facts(before).push(v));
                },
                None => {},
            },
            None => {},
        }
        i += 1;
    }
    out
}

/// What the engine and the queries report of a file.
#[derive(Debug)]
pub struct EngineReport {
    /// The paths; `None` where the rules did not compile, or the engine failed or ran out of time.
    pub paths: Option<Vec<BindingPath>>,
    /// The matches of the export query with the number of its capture, where it could be run.
    pub exports: Option<(Vec<QueryMatch>, u32)>,
    /// The matches of the import query with the numbers of its captures, where it could be run.
    pub imports: Option<(Vec<QueryMatch>, u32, Option<u32>)>,
}

/// The facts of a file by its stack graph. `None` where its bytes are not UTF-8, its language has no
/// rules or the engine gave no paths; imports and exports are best effort.
pub fn resolve_stackgraph(lang: &str, source: &[u8], report: &EngineReport) -> (r: Option<
    FileResolvedRefs,
>)
    requires
        report.paths is Some ==> forall|i: int|
            0 <= i < report.paths->0@.len() ==> span_fits((#[trigger] report.paths->0@[i]).use_span)
                && span_fits(report.paths->0@[i].def_span),
    ensures
        match r {
            Some(refs) => {
                &&& valid_utf8(source@)
                &&& ruled(lang@)
                &&& report.paths is Some
                &&& refs.schema_ver == SCHEMA_VER
                &&& refs.language@ == lang@
                &&& numbers_of(refs.intra@) == edges_upto(
                    report.paths->0@,
                    report.paths->0@.len() as int,
                )
                &&& export_facts(refs.exports@) == (match report.exports {
                    Some(x) => exports_upto((x.0)@, x.1, (x.0)@.len() as int),
                    None => Seq::empty(),
                })
                &&& import_facts(refs.imports@) == (match report.imports {
                    Some(x) => imports_upto((x.0)@, x.1, x.2, (x.0)@.len() as int),
                    None => Seq::empty(),
                })
            },
            None => !valid_utf8(source@) || !ruled(lang@) || report.paths is None,
        },
{
    let text = match utf8_text(source) {
        Some(t) => t,
        None => {
            return None;
        },
    };
    proof {
        vstd::utf8::encode_utf8_valid_utf8(text@);
    }
    if !has_tsg_ruleset(lang) {
        return None;
    }
    let paths = match &report.paths {
        Some(p) => p,
        None => {
            return None;
        },
    };
    let mut out = FileResolvedRefs::new(lang);
    assert(export_facts(out.exports@) =~= Seq::empty());
    assert(import_facts(out.imports@) =~= Seq::empty());
    out.intra = intra_edges(paths);
    match &report.exports {
        Some((matches, idx)) => {
            out.exports = extract_exports(matches, *idx);
        },
        None => {},
    }
    match &report.imports {
        Some((matches, local, module)) => {
            out.imports = extract_imports(matches, *local, *module);
        },
        None => {},
    }
    Some(out)
}

pub(crate) proof fn lemma_edges_distinct(paths: Seq<BindingPath>, n: int)
    requires
        0 <= n <= paths.len(),
    ensures
        edges_upto(paths, n).no_duplicates(),
        forall|i: int|
            0 <= i < n && edge_of(#[trigger] paths[i]) is Some ==> edges_upto(paths, n).contains(
                edge_of(paths[i])->0,
            ),
    decreases n,
{
    if n > 0 {
        lemma_edges_distinct(paths, n - 1);
        let before = edges_upto(paths, n - 1);
        let now = edges_upto(paths, n);
        if edge_of(paths[n - 1]) is Some && !before.contains(edge_of(paths[n - 1])->0) {
            let e = edge_of(paths[n - 1])->0;
            assert(now[now.len() - 1] == e);
            assert forall|i: int, j: int|
                0 <= i < now.len() && 0 <= j < now.len() && i != j implies now[i] != now[j] by {
                if i < before.len() && j < before.len() {
                    assert(before[i] != before[j]);
                } else if i < before.len() {
                    assert(before.contains(before[i]));
                } else {
                    assert(before.contains(before[j]));
                }
            }
            assert forall|i: int| 0 <= i < n && edge_of(#[trigger] paths[i]) is Some implies now.contains(
                edge_of(paths[i])->0,
            ) by {
                if i < n - 1 {
                    let k = before.index_of(edge_of(paths[i])->0);
                    assert(now[k] == edge_of(paths[i])->0);
                }
            }
        }
    }
}

/// Every path within the file has its edge, and no edge comes twice.
pub proof fn law_edges_once(paths: Seq<BindingPath>)
    ensures
        edges_upto(paths, paths.len() as int).no_duplicates(),
        forall|i: int|
            0 <= i < paths.len() && edge_of(#[trigger] paths[i]) is Some ==> edges_upto(
                paths,
                paths.len() as int,
            ).contains(edge_of(paths[i])->0),
{
    lemma_edges_distinct(paths, paths.len() as int);
}

} // verus!
