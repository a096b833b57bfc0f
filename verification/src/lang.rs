//! Languages: which ones ship hand-written queries, where a query's source comes from, and which
//! grammars a bootstrap has to fetch.
use vstd::prelude::*;

use crate::tags::{adapt_tslp_tags, adapted, extract_section, section_of};
use crate::text::{
    is_blank, join, joined, list_holds, quoted, quoted_text, same_str, str_is_blank,
    str_starts_with, texts, to_chars, from_range,
};

verus! {

/// How a language operation fails.
#[derive(Debug)]
pub enum LangError {
    /// The language pack refused.
    Pack(String),
    /// A grammar could not be fetched.
    Download(String),
    /// A query does not compile.
    QueryCompile { lang: String, kind: &'static str, msg: String },
    /// A grammar could not be set on a parser.
    ParserSetLanguage(String),
}

impl LangError {
    /// The text of the error.
    pub open spec fn text(&self) -> Seq<char> {
        match self {
            LangError::Pack(m) => "language pack error: "@ + m@,
            LangError::Download(m) => "grammar download failed: "@ + m@,
            LangError::QueryCompile { lang, kind, msg } => "query compile error for "@ + lang@
                + "/"@ + kind@ + ": "@ + msg@,
            LangError::ParserSetLanguage(l) => "failed to set language "@ + l@ + " on parser"@,
        }
    }

    /// The text of the error.
    pub fn message(&self) -> (m: String)
        ensures
            m@ == self.text(),
    {
        match self {
            LangError::Pack(t) => {
                let mut m = String::from_str("language pack error: ");
                m.append(t.as_str());
                m
            },
            LangError::Download(t) => {
                let mut m = String::from_str("grammar download failed: ");
                m.append(t.as_str());
                m
            },
            LangError::QueryCompile { lang, kind, msg } => {
                let mut m = String::from_str("query compile error for ");
                m.append(lang.as_str());
                m.append("/");
                m.append(kind);
                m.append(": ");
                m.append(msg.as_str());
                m
            },
            LangError::ParserSetLanguage(l) => {
                let mut m = String::from_str("failed to set language ");
                m.append(l.as_str());
                m.append(" on parser");
                m
            },
        }
    }
}

/// Whether a language ships a hand-written query file.
pub open spec fn overridden(lang: Seq<char>) -> bool {
    ||| lang == "rust"@
    ||| lang == "python"@
    ||| lang == "typescript"@
    ||| lang == "tsx"@
    ||| lang == "javascript"@
    ||| lang == "go"@
}

/// The languages that ship a hand-written query file, in bootstrap order.
pub open spec fn override_names() -> Seq<Seq<char>> {
    seq!["rust"@, "python"@, "typescript"@, "tsx"@, "javascript"@, "go"@]
}

/// The languages that ship a hand-written query file, in bootstrap order.
pub fn override_languages() -> (langs: Vec<&'static str>)
    ensures
        langs@.len() == 6,
        forall|i: int| 0 <= i < 6 ==> (#[trigger] langs@[i])@ == override_names()[i],
{
    let mut langs: Vec<&'static str> = Vec::new();
    langs.push("rust");
    langs.push("python");
    langs.push("typescript");
    langs.push("tsx");
    langs.push("javascript");
    langs.push("go");
    langs
}

/// Whether a language ships a hand-written query file.
pub fn has_override(lang: &str) -> (yes: bool)
    ensures
        yes == overridden(lang@),
{
    same_str(lang, "rust") || same_str(lang, "python") || same_str(lang, "typescript") || same_str(
        lang,
        "tsx",
    ) || same_str(lang, "javascript") || same_str(lang, "go")
}

/// The languages with a query file are those of the bootstrap list.
pub proof fn law_overrides_are_bootstrapped(lang: Seq<char>)
    ensures
        overridden(lang) == override_names().contains(lang),
{
    let names = override_names();
    if overridden(lang) {
        assert(names[0] == "rust"@ && names[1] == "python"@ && names[2] == "typescript"@ && names[3]
            == "tsx"@ && names[4] == "javascript"@ && names[5] == "go"@);
        assert(names.contains(lang));
    }
}

/// The identifier of a language name: itself, where it ships queries or `known` says that the
/// language pack has it; `None` otherwise.
pub fn intern(name: &str, known: bool) -> (id: Option<String>)
    ensures
        match id {
            Some(n) => n@ == name@ && (overridden(name@) || known),
            None => !overridden(name@) && !known,
        },
{
    if has_override(name) || known {
        Some(name.to_string())
    } else {
        None
    }
}

// ─── Bootstrap ───────────────────────────────────────────────────────────────

/// Result of the one-shot grammar bootstrap.
#[derive(Debug, Clone)]
pub struct BootstrapSummary {
    /// Languages that were already on disk.
    pub already_cached: Vec<String>,
    /// Languages that were fetched.
    pub downloaded: Vec<String>,
    /// Where grammars are kept.
    pub cache_dir: Option<String>,
}

impl BootstrapSummary {
    /// Whether anything was fetched.
    pub fn did_download(&self) -> (yes: bool)
        ensures
            yes == (self.downloaded@.len() > 0),
    {
        !self.downloaded.is_empty()
    }
}

/// Which languages of the bootstrap list are installed, and which are missing.
pub struct BootstrapPlan {
    pub already_cached: Vec<String>,
    pub missing: Vec<String>,
}

/// The first `n` bootstrap languages that are (or are not) installed.
pub open spec fn among(installed: Seq<Seq<char>>, present: bool, n: int) -> Seq<Seq<char>>
    decreases n,
{
    if n <= 0 {
        Seq::empty()
    } else if installed.contains(override_names()[n - 1]) == present {
        among(installed, present, n - 1).push(override_names()[n - 1])
    } else {
        among(installed, present, n - 1)
    }
}

/// Whether a set variable asks for no network access: it is neither empty nor `0`.
pub open spec fn asks_offline(value: Seq<char>) -> bool {
    value.len() > 0 && value != "0"@
}

/// Whether the value of the offline variable asks for no network access.
pub fn offline_requested(value: Option<&str>) -> (yes: bool)
    ensures
        yes == (value is Some && asks_offline(value->0@)),
{
    match value {
        Some(v) => !v.is_empty() && !same_str(v, "0"),
        None => false,
    }
}

/// How Rust's `{:?}` writes a list of strings.
pub open spec fn quoted_list(names: Seq<Seq<char>>) -> Seq<char> {
    "["@ + joined(names.map_values(|n: Seq<char>| quoted_text(n)), ", "@) + "]"@
}

fn quote_all(names: &Vec<String>) -> (s: String)
    ensures
        s@ == quoted_list(texts(names@)),
{
    let mut parts: Vec<String> = Vec::new();
    let mut i: usize = 0;
    while i < names.len()
        invariant
            i <= names@.len(),
            parts@.len() == i,
            forall|k: int| 0 <= k < i ==> (#[trigger] parts@[k])@ == quoted_text(names@[k]@),
        decreases names.len() - i,
    {
        parts.push(quoted(names[i].as_str()));
        i += 1;
    }
    assert(texts(parts@) =~= texts(names@).map_values(|n: Seq<char>| quoted_text(n)));
    let mut s = String::from_str("[");
    s.append(join(parts.as_slice(), ", ").as_str());
    s.append("]");
    s
}

/// Split the bootstrap list by what is installed. Where languages are missing and no network
/// access is wanted, the bootstrap fails and names them.
pub fn plan_bootstrap(installed: &[String], offline: bool) -> (r: Result<BootstrapPlan, LangError>)
    ensures
        ({
            let missing = among(texts(installed@), false, 6);
            match r {
                Ok(p) => {
                    &&& missing.len() == 0 || !offline
                    &&& texts(p.already_cached@) == among(texts(installed@), true, 6)
                    &&& texts(p.missing@) == missing
                },
                Err(e) => {
                    &&& missing.len() > 0 && offline
                    &&& e is Download
                    &&& e->Download_0@ == "offline mode: missing grammars "@ + quoted_list(missing)
                        + " and BASEMIND_GRAMMAR_OFFLINE is set"@
                },
            }
        }),
{
    let langs = override_languages();
    let mut already_cached: Vec<String> = Vec::new();
    let mut missing: Vec<String> = Vec::new();
    let mut i: usize = 0;
    assert(texts(already_cached@) =~= among(texts(installed@), true, 0));
    assert(texts(missing@) =~= among(texts(installed@), false, 0));
    while i < langs.len()
        invariant
            i <= 6,
            langs@.len() == 6,
            forall|i: int| 0 <= i < 6 ==> (#[trigger] langs@[i])@ == override_names()[i],
            texts(already_cached@) == among(texts(installed@), true, i as int),
            texts(missing@) == among(texts(installed@), false, i as int),
        decreases 6 - i,
    {
        let ghost c0 = already_cached@;
        let ghost m0 = missing@;
        if list_holds(installed, langs[i]) {
            already_cached.push(langs[i].to_string());
            assert(texts(already_cached@) =~= texts(c0).push(override_names()[i as int]));
        } else {
            missing.push(langs[i].to_string());
            assert(texts(missing@) =~= texts(m0).push(override_names()[i as int]));
        }
        i += 1;
    }
    assert(texts(missing@).len() == missing@.len());
    if missing.len() > 0 && offline {
        let mut m = String::from_str("offline mode: missing grammars ");
        m.append(quote_all(&missing).as_str());
        m.append(" and BASEMIND_GRAMMAR_OFFLINE is set");
        return Err(LangError::Download(m));
    }
    Ok(BootstrapPlan { already_cached, missing })
}

/// The version that the name of a cache directory carries: what follows its leading `v`. `None`
/// where there is no such letter.
pub fn version_from_dir_name(dir: &str) -> (version: Option<String>)
    ensures
        match version {
            Some(v) => dir@.len() > 0 && dir@[0] == 'v' && v@ == dir@.skip(1),
            None => dir@.len() == 0 || dir@[0] != 'v',
        },
{
    let chars = to_chars(dir);
    if chars.len() > 0 && chars[0] == 'v' {
        let v = from_range(chars.as_slice(), 1, chars.len());
        assert(v@ =~= dir@.skip(1));
        Some(v)
    } else {
        None
    }
}

// ─── Queries ─────────────────────────────────────────────────────────────────

/// What a query extracts.
#[derive(Debug, Clone, Copy, PartialEq, Eq, Structural)]
pub enum QueryKind {
    Symbols,
    Imports,
    Calls,
    Docs,
    Implementations,
}

impl QueryKind {
    /// The name of the section that holds queries of this kind.
    pub open spec fn section(self) -> Seq<char> {
        match self {
            QueryKind::Symbols => "symbols"@,
            QueryKind::Imports => "imports"@,
            QueryKind::Calls => "calls"@,
            QueryKind::Docs => "docs"@,
            QueryKind::Implementations => "implementations"@,
        }
    }

    /// The name of the section that holds queries of this kind.
    pub fn name(self) -> (n: &'static str)
        ensures
            n@ == self.section(),
    {
        match self {
            QueryKind::Symbols => "symbols",
            QueryKind::Imports => "imports",
            QueryKind::Calls => "calls",
            QueryKind::Docs => "docs",
            QueryKind::Implementations => "implementations",
        }
    }
}

/// A section's text, if it is not blank.
pub open spec fn section_if_any(source: Seq<char>, name: Seq<char>) -> Option<Seq<char>> {
    if is_blank(section_of(source, name)) {
        None
    } else {
        Some(section_of(source, name))
    }
}

/// The source of the query of one kind: a section of the override file where there is one, else of
/// the adapted upstream tags, which have no imports and no docs.
pub open spec fn query_text(
    override_source: Option<Seq<char>>,
    tags: Option<Seq<char>>,
    kind: QueryKind,
) -> Option<Seq<char>> {
    match override_source {
        Some(raw) => section_if_any(raw, kind.section()),
        None => if kind == QueryKind::Imports || kind == QueryKind::Docs {
            None
        } else {
            match tags {
                Some(t) => section_if_any(adapted(t), kind.section()),
                None => None,
            }
        },
    }
}

/// The source of the query of one kind, given the override file and the upstream tags of the
/// language. `None` where neither has it.
pub fn query_source(override_source: Option<&str>, tags: Option<&str>, kind: QueryKind) -> (source:
    Option<String>)
    ensures
        crate::text::opt_text(source) == query_text(
            crate::text::opt_str(override_source),
            crate::text::opt_str(tags),
            kind,
        ),
{
    match override_source {
        Some(raw) => extract_section(raw, kind.name()),
        None => match kind {
            QueryKind::Imports => None,
            QueryKind::Docs => None,
            _ => match tags {
                Some(t) => extract_section(adapt_tslp_tags(t).as_str(), kind.name()),
                None => None,
            },
        },
    }
}

/// A section's text, or nothing where it is blank.
pub open spec fn section_or_nothing(source: Seq<char>, name: Seq<char>) -> Seq<char> {
    match section_if_any(source, name) {
        Some(t) => t,
        None => Seq::empty(),
    }
}

/// The source of the one query that extracts symbols, imports and implementations together.
pub open spec fn combined_text(override_source: Option<Seq<char>>, tags: Option<Seq<char>>) -> Option<
    Seq<char>,
> {
    let all = match override_source {
        Some(raw) => Some(
            section_or_nothing(raw, "symbols"@) + "\n"@ + section_or_nothing(raw, "imports"@)
                + "\n"@ + section_or_nothing(raw, "implementations"@),
        ),
        None => match tags {
            Some(t) => Some(
                section_or_nothing(adapted(t), "symbols"@) + "\n"@
                    + section_or_nothing(adapted(t), "implementations"@),
            ),
            None => None,
        },
    };
    match all {
        Some(text) => if is_blank(text) {
            None
        } else {
            Some(text)
        },
        None => None,
    }
}

fn section_or_empty(source: &str, name: &str) -> (s: String)
    ensures
        s@ == section_or_nothing(source@, name@),
{
    match extract_section(source, name) {
        Some(t) => t,
        None => String::new(),
    }
}

/// The source of the one query that extracts symbols, imports and implementations together.
/// `None` where there is nothing to extract. Imports come from override files only.
pub fn combined_l1_source(override_source: Option<&str>, tags: Option<&str>) -> (source: Option<
    String,
>)
    ensures
        crate::text::opt_text(source) == combined_text(
            crate::text::opt_str(override_source),
            crate::text::opt_str(tags),
        ),
{
    let text = match override_source {
        Some(raw) => {
            let mut t = section_or_empty(raw, "symbols");
            t.append("\n");
            t.append(section_or_empty(raw, "imports").as_str());
            t.append("\n");
            t.append(section_or_empty(raw, "implementations").as_str());
            t
        },
        None => match tags {
            Some(raw) => {
                let a = adapt_tslp_tags(raw);
                let mut t = section_or_empty(a.as_str(), "symbols");
                t.append("\n");
                t.append(section_or_empty(a.as_str(), "implementations").as_str());
                t
            },
            None => {
                return None;
            },
        },
    };
    if str_is_blank(text.as_str()) {
        None
    } else {
        Some(text)
    }
}

/// The source of a query that has to exist: where there is none, the error says for which language
/// and kind.
pub fn required_query_source(lang: &str, kind: QueryKind, source: Option<String>) -> (r: Result<
    String,
    LangError,
>)
    ensures
        match source {
            Some(s) => r is Ok && r->Ok_0 == s,
            None => {
                &&& r is Err
                &&& r->Err_0 is QueryCompile
                &&& r->Err_0->lang@ == lang@
                &&& r->Err_0->kind@ == kind.section()
                &&& r->Err_0->msg@ == "no override or TSLP fallback for "@ + lang@ + "/"@
                    + kind.section()
            },
        },
{
    match source {
        Some(s) => Ok(s),
        None => {
            let mut msg = String::from_str("no override or TSLP fallback for ");
            msg.append(lang);
            msg.append("/");
            msg.append(kind.name());
            Err(LangError::QueryCompile { lang: lang.to_string(), kind: kind.name(), msg })
        },
    }
}

/// What a capture of the combined query speaks of.
#[derive(Debug, Clone, Copy, PartialEq, Eq, Structural)]
pub enum CaptureClass {
    Symbol,
    Import,
    Impl,
    Other,
}

/// What a capture speaks of, by the front of its name.
pub open spec fn class_of(name: Seq<char>) -> CaptureClass {
    if "symbol."@.is_prefix_of(name) {
        CaptureClass::Symbol
    } else if "import."@.is_prefix_of(name) {
        CaptureClass::Import
    } else if "impl."@.is_prefix_of(name) {
        CaptureClass::Impl
    } else {
        CaptureClass::Other
    }
}

/// The class of every capture of a query, by capture index.
pub fn classify_captures(names: &[String]) -> (classes: Vec<CaptureClass>)
    ensures
        classes@.len() == names@.len(),
        forall|i: int| 0 <= i < names@.len() ==> #[trigger] classes@[i] == class_of(names@[i]@),
{
    let mut classes: Vec<CaptureClass> = Vec::new();
    let mut i: usize = 0;
    while i < names.len()
        invariant
            i <= names@.len(),
            classes@.len() == i,
            forall|k: int| 0 <= k < i ==> #[trigger] classes@[k] == class_of(names@[k]@),
        decreases names.len() - i,
    {
        let n = names[i].as_str();
        classes.push(
            if str_starts_with(n, "symbol.") {
                CaptureClass::Symbol
            } else if str_starts_with(n, "import.") {
                CaptureClass::Import
            } else if str_starts_with(n, "impl.") {
                CaptureClass::Impl
            } else {
                CaptureClass::Other
            },
        );
        i += 1;
    }
    classes
}

} // verus!
