//! What the code-map tools answer: nothing that was not asked for, and everything that was.
use vstd::prelude::*;
use vstd::utf8::encode_utf8;

use crate::impls::{
    found_rows, is_impl_page, FindImplementationsParams, FindImplementationsResponse, ImplRow,
};
use crate::model::{
    kind_name, lemma_table_at, paths_ascend, MappedFile, RelPath, Symbol, SymbolKind, ToolError,
};
use crate::sort::comes_after;
use crate::text::{holds_seq, lex_less, lower_of, occurs_at, opt_text};
use crate::tools::{
    count_of, counts_are, dependent_on, is_listing, is_search_answer, search_symbols, kind_of,
    listed, mentions, size_upto, sought_in, sought_upto, IndexEntry, LanguageCount, ListFilesParams,
    ListFilesResponse, SearchResponse, SearchSymbolsParams,
};
use crate::walk::bounded;

verus! {

// ─── Parts of sequences ──────────────────────────────────────────────────────

/// `needle` stands in `hay`: at some position the elements of `hay` are those of `needle`.
pub open spec fn part_of<T>(needle: Seq<T>, hay: Seq<T>) -> bool {
    exists|at: int|
        0 <= at <= hay.len() - needle.len() && (forall|i: int|
            0 <= i < needle.len() ==> #[trigger] needle[i] == hay[at + i]) && #[trigger] starts(at)
}

/// Names a position at which a part may start.
pub open spec fn starts(at: int) -> bool {
    true
}

pub(crate) proof fn lemma_part_of<T>(needle: Seq<T>, hay: Seq<T>)
    ensures
        part_of(needle, hay) <==> holds_seq(hay, needle),
{
    if part_of(needle, hay) {
        let at = choose|at: int|
            0 <= at <= hay.len() - needle.len() && (forall|i: int|
                0 <= i < needle.len() ==> #[trigger] needle[i] == hay[at + i]) && #[trigger] starts(at);
        let piece = hay.subrange(at, at + needle.len());
        assert forall|i: int| 0 <= i < needle.len() implies piece[i] == needle[i] by {
            assert(needle[i] == hay[at + i]);
        }
        assert(piece =~= needle);
        assert(occurs_at(hay, needle, at));
    }
    if holds_seq(hay, needle) {
        let at = choose|at: int| #[trigger] occurs_at(hay, needle, at);
        assert forall|i: int| 0 <= i < needle.len() implies #[trigger] needle[i] == hay[at + i] by {
            assert(hay.subrange(at, at + needle.len())[i] == hay[at + i]);
        }
        assert(starts(at));
    }
}

/// Where the `k`-th element that a filter keeps stood.
pub(crate) proof fn lemma_filter_source<T>(s: Seq<T>, p: spec_fn(T) -> bool, k: int) -> (i: int)
    requires
        0 <= k < s.filter(p).len(),
    ensures
        0 <= i < s.len(),
        p(s[i]),
        s.filter(p)[k] == s[i],
        s.take(i).filter(p).len() == k,
    decreases s.len(),
{
    reveal(Seq::filter);
    if s.len() == 0 {
        0
    } else {
        let front = s.drop_last();
        if k < front.filter(p).len() {
            let i = lemma_filter_source(front, p, k);
            assert(front.take(i) =~= s.take(i));
            i
        } else {
            assert(s.take(s.len() - 1) =~= front);
            s.len() - 1
        }
    }
}

/// Where an element that passes a filter comes out.
pub(crate) proof fn lemma_filter_place<T>(s: Seq<T>, p: spec_fn(T) -> bool, i: int) -> (k: int)
    requires
        0 <= i < s.len(),
        p(s[i]),
    ensures
        0 <= k < s.filter(p).len(),
        s.filter(p)[k] == s[i],
    decreases s.len(),
{
    reveal(Seq::filter);
    let front = s.drop_last();
    if i == s.len() - 1 {
        front.filter(p).len() as int
    } else {
        let k = lemma_filter_place(front, p, i);
        assert(front[i] == s[i]);
        k
    }
}

/// What a filter keeps of the first elements is what it keeps first.
pub(crate) proof fn lemma_filter_order<T>(s: Seq<T>, p: spec_fn(T) -> bool, i: int, j: int)
    requires
        0 <= i <= j <= s.len(),
    ensures
        s.take(i).filter(p).len() <= s.take(j).filter(p).len(),
        s.take(j).filter(p).len() <= s.filter(p).len(),
{
    crate::seqs::lemma_filter_prefix(s.take(j), i, p);
    assert(s.take(j).take(i) =~= s.take(i));
    crate::seqs::lemma_filter_prefix(s, j, p);
}

// ─── Limits ──────────────────────────────────────────────────────────────────

/// A request's number is honoured up to the ceiling; where the request gives none, the default is
/// taken.
pub proof fn law_limits(asked: Option<u32>, default: u32, ceiling: u32)
    ensures
        bounded(asked, default, ceiling) <= ceiling,
        asked is Some && asked->0 <= ceiling ==> bounded(asked, default, ceiling) == asked->0,
        asked is Some && asked->0 > ceiling ==> bounded(asked, default, ceiling) == ceiling,
        asked is None && default <= ceiling ==> bounded(asked, default, ceiling) == default,
{
}

// ─── Kinds ───────────────────────────────────────────────────────────────────

/// What the kinds are called.
pub proof fn law_what_kinds_are_called()
    ensures
        kind_name(SymbolKind::Function) == "function"@,
        kind_name(SymbolKind::Method) == "method"@,
        kind_name(SymbolKind::Struct) == "struct"@,
        kind_name(SymbolKind::Enum) == "enum"@,
        kind_name(SymbolKind::Class) == "class"@,
        kind_name(SymbolKind::Interface) == "interface"@,
        kind_name(SymbolKind::Trait) == "trait"@,
        kind_name(SymbolKind::Type) == "type"@,
        kind_name(SymbolKind::Const) == "const"@,
        kind_name(SymbolKind::Module) == "module"@,
        kind_name(SymbolKind::Macro) == "macro"@,
        kind_name(SymbolKind::Impl) == "impl"@,
        kind_name(SymbolKind::Namespace) == "namespace"@,
        kind_name(SymbolKind::Getter) == "getter"@,
        kind_name(SymbolKind::Setter) == "setter"@,
        kind_name(SymbolKind::Field) == "field"@,
        kind_name(SymbolKind::Variable) == "variable"@,
        kind_name(SymbolKind::EnumVariant) == "enum_variant"@,
        kind_name(SymbolKind::Constructor) == "constructor"@,
        kind_name(SymbolKind::Decorator) == "decorator"@,
        kind_name(SymbolKind::Heading) == "heading"@,
        kind_name(SymbolKind::Unknown) == "unknown"@,
{
}

/// Which words ask for a kind, whatever their letter case: its name, and `variant` for an enum variant. None asks for
/// what is unknown.
pub proof fn law_words_ask_for_kinds(word: String, kind: SymbolKind)
    ensures
        kind_of(Some(word)) == Some(kind) ==> ({
            let w = lower_of(word@);
            match kind {
                SymbolKind::Function => w == "function"@,
                SymbolKind::Method => w == "method"@,
                SymbolKind::Struct => w == "struct"@,
                SymbolKind::Enum => w == "enum"@,
                SymbolKind::Class => w == "class"@,
                SymbolKind::Interface => w == "interface"@,
                SymbolKind::Trait => w == "trait"@,
                SymbolKind::Type => w == "type"@,
                SymbolKind::Const => w == "const"@,
                SymbolKind::Module => w == "module"@,
                SymbolKind::Macro => w == "macro"@,
                SymbolKind::Impl => w == "impl"@,
                SymbolKind::Namespace => w == "namespace"@,
                SymbolKind::Getter => w == "getter"@,
                SymbolKind::Setter => w == "setter"@,
                SymbolKind::Field => w == "field"@,
                SymbolKind::Variable => w == "variable"@,
                SymbolKind::EnumVariant => w == "enum_variant"@ || w == "variant"@,
                SymbolKind::Constructor => w == "constructor"@,
                SymbolKind::Decorator => w == "decorator"@,
                SymbolKind::Heading => w == "heading"@,
                SymbolKind::Unknown => false,
            }
        }),
        kind != SymbolKind::Unknown && lower_of(word@) == lower_of(kind_name(kind)) ==> kind_of(
            Some(word),
        ) == Some(kind),
{
    if kind != SymbolKind::Unknown {
        crate::model::law_kind_names_parse_back(kind);
    }
}

// ─── Symbol search ───────────────────────────────────────────────────────────

proof fn lemma_kind_lowered(k: Option<String>)
    requires
        k is Some,
        kind_of(k) is Some,
    ensures
        kind_name(kind_of(k)->0) == lower_of(k->0@) || (lower_of(k->0@) == "variant"@ && kind_of(k)
            == Some(SymbolKind::EnumVariant)),
{
}

proof fn lemma_sought_source(
    symbols: Seq<Symbol>,
    f: int,
    needle: Seq<char>,
    kind: Option<SymbolKind>,
    n: int,
    k: int,
) -> (s: int)
    requires
        0 <= n <= symbols.len(),
        0 <= k < sought_in(symbols, f, needle, kind, n).len(),
    ensures
        0 <= s < n,
        sought_in(symbols, f, needle, kind, n)[k] == (f, s),
        part_of(needle, symbols[s].name@),
        kind is Some ==> symbols[s].kind == kind->0,
        sought_in(symbols, f, needle, kind, s).len() == k,
    decreases n,
{
    let front = sought_in(symbols, f, needle, kind, n - 1);
    if k < front.len() {
        lemma_sought_source(symbols, f, needle, kind, n - 1, k)
    } else {
        lemma_part_of(needle, symbols[n - 1].name@);
        n - 1
    }
}

proof fn lemma_sought_source_upto(
    files: Seq<MappedFile>,
    needle: Seq<char>,
    kind: Option<SymbolKind>,
    n: int,
    k: int,
) -> (at: (int, int))
    requires
        0 <= n <= files.len(),
        0 <= k < sought_upto(files, needle, kind, n).len(),
    ensures
        0 <= at.0 < n,
        0 <= at.1 < files[at.0].map.symbols@.len(),
        sought_upto(files, needle, kind, n)[k] == at,
        part_of(needle, files[at.0].map.symbols@[at.1].name@),
        kind is Some ==> files[at.0].map.symbols@[at.1].kind == kind->0,
    decreases n,
{
    let front = sought_upto(files, needle, kind, n - 1);
    if k < front.len() {
        lemma_sought_source_upto(files, needle, kind, n - 1, k)
    } else {
        let symbols = files[n - 1].map.symbols@;
        (
            n - 1,
            lemma_sought_source(
                symbols,
                n - 1,
                needle,
                kind,
                symbols.len() as int,
                k - front.len(),
            ),
        )
    }
}

proof fn lemma_sought_kept(
    symbols: Seq<Symbol>,
    f: int,
    needle: Seq<char>,
    kind: Option<SymbolKind>,
    n: int,
    s: int,
) -> (k: int)
    requires
        0 <= s < n <= symbols.len(),
        part_of(needle, symbols[s].name@),
        kind is Some ==> symbols[s].kind == kind->0,
    ensures
        0 <= k < sought_in(symbols, f, needle, kind, n).len(),
        sought_in(symbols, f, needle, kind, n)[k] == (f, s),
    decreases n,
{
    if s == n - 1 {
        lemma_part_of(needle, symbols[s].name@);
        sought_in(symbols, f, needle, kind, n - 1).len() as int
    } else {
        lemma_sought_kept(symbols, f, needle, kind, n - 1, s)
    }
}

proof fn lemma_sought_kept_upto(
    files: Seq<MappedFile>,
    needle: Seq<char>,
    kind: Option<SymbolKind>,
    n: int,
    f: int,
    s: int,
) -> (k: int)
    requires
        0 <= f < n <= files.len(),
        0 <= s < files[f].map.symbols@.len(),
        part_of(needle, files[f].map.symbols@[s].name@),
        kind is Some ==> files[f].map.symbols@[s].kind == kind->0,
    ensures
        0 <= k < sought_upto(files, needle, kind, n).len(),
        sought_upto(files, needle, kind, n)[k] == (f, s),
    decreases n,
{
    let front = sought_upto(files, needle, kind, n - 1);
    if f == n - 1 {
        let symbols = files[f].map.symbols@;
        front.len() + lemma_sought_kept(symbols, f, needle, kind, symbols.len() as int, s)
    } else {
        lemma_sought_kept_upto(files, needle, kind, n - 1, f, s)
    }
}

/// The places found ascend: file by file, and in a file symbol by symbol.
proof fn lemma_sought_ascends(
    files: Seq<MappedFile>,
    needle: Seq<char>,
    kind: Option<SymbolKind>,
    n: int,
    i: int,
    j: int,
)
    requires
        0 <= n <= files.len(),
        0 <= i < j < sought_upto(files, needle, kind, n).len(),
    ensures
        ({
            let a = sought_upto(files, needle, kind, n)[i];
            let b = sought_upto(files, needle, kind, n)[j];
            a.0 < b.0 || (a.0 == b.0 && a.1 < b.1)
        }),
    decreases n,
{
    let front = sought_upto(files, needle, kind, n - 1);
    let symbols = files[n - 1].map.symbols@;
    let m = symbols.len() as int;
    if j < front.len() {
        lemma_sought_ascends(files, needle, kind, n - 1, i, j);
    } else if i < front.len() {
        let a = lemma_sought_source_upto(files, needle, kind, n - 1, i);
        let b = lemma_sought_source(symbols, n - 1, needle, kind, m, j - front.len());
    } else {
        let a = lemma_sought_source(symbols, n - 1, needle, kind, m, i - front.len());
        let b = lemma_sought_source(symbols, n - 1, needle, kind, m, j - front.len());
        if b <= a {
            lemma_sought_short(symbols, n - 1, needle, kind, b, a);
        }
    }
}

proof fn lemma_sought_short(
    symbols: Seq<Symbol>,
    f: int,
    needle: Seq<char>,
    kind: Option<SymbolKind>,
    n: int,
    m: int,
)
    requires
        n <= m,
    ensures
        sought_in(symbols, f, needle, kind, n).len() <= sought_in(symbols, f, needle, kind, m).len(),
    decreases m - n,
{
    if n < m {
        lemma_sought_short(symbols, f, needle, kind, n, m - 1);
    }
}

/// Every symbol that a search shows is one of the code map, as it stands there: the needle is a part of
/// its name, whether or not a kind is asked for, and where one is, it is of that kind. `variant` asks
/// for enum variants, and every other word for the kind of that name in whatever letter case. The
/// result gives its file and its place there.
pub proof fn law_search_shows_what_was_asked_for(
    files: Seq<MappedFile>,
    params: SearchSymbolsParams,
    limit: int,
    out: SearchResponse,
    i: int,
) -> (at: (int, int))
    requires
        params.kind is Some ==> kind_of(params.kind) is Some,
        is_search_answer(
            out,
            files,
            sought_upto(files, params.needle@, kind_of(params.kind), files.len() as int),
            limit,
        ),
        0 <= i < out.results@.len(),
    ensures
        exists|p: int|
            0 <= p <= out.results@[i].name@.len() - params.needle@.len() && #[trigger] out.results@[i].name@.subrange(
                p,
                p + params.needle@.len(),
            ) == params.needle@,
        params.kind is Some ==> out.results@[i].kind@ == lower_of(params.kind->0@) || (lower_of(
            params.kind->0@,
        ) == "variant"@ && out.results@[i].kind@ == "enum_variant"@),
        0 <= at.0 < files.len(),
        0 <= at.1 < files[at.0].map.symbols@.len(),
        out.results@[i].path@ == files[at.0].path@,
        out.results@[i].name@ == files[at.0].map.symbols@[at.1].name@,
        out.results@[i].start_row == files[at.0].map.symbols@[at.1].start_row,
        out.results@[i].start_col == files[at.0].map.symbols@[at.1].start_col,
{
    let needle = params.needle@;
    let found = sought_upto(files, needle, kind_of(params.kind), files.len() as int);
    let at = lemma_sought_source_upto(
        files,
        needle,
        kind_of(params.kind),
        files.len() as int,
        i,
    );
    assert(found[i] == at);
    let name = out.results@[i].name@;
    lemma_part_of(needle, name);
    let p = choose|p: int| #[trigger] occurs_at(name, needle, p);
    assert(name.subrange(p, p + needle.len()) == needle);
    if params.kind is Some {
        lemma_kind_lowered(params.kind);
    }
    at
}

/// A search misses nothing: unless the answer says that it is cut short, it shows every symbol of
/// whose name the needle is a part, and which is of the kind asked for where one is. The result is the
/// place in the answer.
pub proof fn law_search_misses_nothing(
    files: Seq<MappedFile>,
    params: SearchSymbolsParams,
    limit: int,
    out: SearchResponse,
    f: int,
    s: int,
    p: int,
) -> (i: int)
    requires
        is_search_answer(
            out,
            files,
            sought_upto(files, params.needle@, kind_of(params.kind), files.len() as int),
            limit,
        ),
        !out.truncated,
        0 <= f < files.len(),
        0 <= s < files[f].map.symbols@.len(),
        0 <= p <= files[f].map.symbols@[s].name@.len() - params.needle@.len(),
        files[f].map.symbols@[s].name@.subrange(p, p + params.needle@.len()) == params.needle@,
        params.kind is Some ==> kind_of(params.kind) == Some(files[f].map.symbols@[s].kind),
    ensures
        0 <= i < out.results@.len(),
        out.results@[i].path@ == files[f].path@,
        out.results@[i].name@ == files[f].map.symbols@[s].name@,
        out.results@[i].kind@ == kind_name(files[f].map.symbols@[s].kind),
        out.results@[i].start_row == files[f].map.symbols@[s].start_row,
        out.results@[i].start_col == files[f].map.symbols@[s].start_col,
        opt_text(out.results@[i].signature) == opt_text(files[f].map.symbols@[s].signature),
{
    let needle = params.needle@;
    let name = files[f].map.symbols@[s].name@;
    assert(occurs_at(name, needle, p));
    lemma_part_of(needle, name);
    lemma_sought_kept_upto(files, needle, kind_of(params.kind), files.len() as int, f, s)
}

/// A search shows no symbol twice, and shows them file by file, in a file as they stand: of two hits in
/// one answer the earlier has the earlier file, or the same one and the earlier place. The result
/// gives the two places.
pub proof fn law_search_keeps_the_order(
    files: Seq<MappedFile>,
    params: SearchSymbolsParams,
    limit: int,
    out: SearchResponse,
    i: int,
    j: int,
) -> (at: ((int, int), (int, int)))
    requires
        is_search_answer(
            out,
            files,
            sought_upto(files, params.needle@, kind_of(params.kind), files.len() as int),
            limit,
        ),
        0 <= i < j < out.results@.len(),
    ensures
        0 <= at.0.0 <= at.1.0 < files.len(),
        0 <= at.0.1 < files[at.0.0].map.symbols@.len(),
        0 <= at.1.1 < files[at.1.0].map.symbols@.len(),
        at.0.0 == at.1.0 ==> at.0.1 < at.1.1,
        out.results@[i].path@ == files[at.0.0].path@,
        out.results@[i].name@ == files[at.0.0].map.symbols@[at.0.1].name@,
        out.results@[j].path@ == files[at.1.0].path@,
        out.results@[j].name@ == files[at.1.0].map.symbols@[at.1.1].name@,
{
    let kind = kind_of(params.kind);
    let n = files.len() as int;
    let a = lemma_sought_source_upto(files, params.needle@, kind, n, i);
    let b = lemma_sought_source_upto(files, params.needle@, kind, n, j);
    lemma_sought_ascends(files, params.needle@, kind, n, i, j);
    (a, b)
}

/// An answer is as long as the limit allows, counts what it shows, and is called cut short where there
/// is more than it shows.
pub proof fn law_search_counts(
    files: Seq<MappedFile>,
    params: SearchSymbolsParams,
    limit: int,
    out: SearchResponse,
)
    requires
        0 <= limit,
        is_search_answer(
            out,
            files,
            sought_upto(files, params.needle@, kind_of(params.kind), files.len() as int),
            limit,
        ),
    ensures
        out.results@.len() <= limit,
        out.results@.len() <= out.total,
        out.truncated ==> out.results@.len() == limit && out.total > limit || limit == 0,
        !out.truncated ==> out.total == out.results@.len(),
{
}

/// Whatever `search_symbols` answers with: the needle is a part of the name of every symbol shown, and each is of the
/// kind asked for, where one is. Unless the answer is cut short, a symbol whose name the needle is a part of,
/// and which is of the kind asked for, is shown.
pub proof fn law_search_symbols(
    files: &Vec<MappedFile>,
    params: &SearchSymbolsParams,
    r: Result<SearchResponse, ToolError>,
    f: int,
    s: int,
)
    requires
        call_ensures(search_symbols, (files, params), r),
        r is Ok,
    ensures
        forall|i: int|
            0 <= i < r->Ok_0.results@.len() ==> part_of(
                params.needle@,
                (#[trigger] r->Ok_0.results@[i]).name@,
            ) && (params.kind is Some ==> r->Ok_0.results@[i].kind@ == lower_of(params.kind->0@) || (
            lower_of(params.kind->0@) == "variant"@ && r->Ok_0.results@[i].kind@ == "enum_variant"@)),
        !r->Ok_0.truncated && 0 <= f < files@.len() && 0 <= s < files@[f].map.symbols@.len() && part_of(
            params.needle@,
            files@[f].map.symbols@[s].name@,
        ) && (params.kind is Some ==> kind_name(files@[f].map.symbols@[s].kind) == lower_of(
            params.kind->0@,
        )) ==> exists|i: int|
            0 <= i < r->Ok_0.results@.len() && (#[trigger] r->Ok_0.results@[i]).name@
                == files@[f].map.symbols@[s].name@ && r->Ok_0.results@[i].path@ == files@[f].path@,
{
    let out = r->Ok_0;
    let limit = bounded(
        params.limit,
        crate::grep::SEARCH_LIMIT_DEFAULT,
        crate::grep::SEARCH_LIMIT_MAX,
    ) as int;
    let needle = params.needle@;
    assert forall|i: int| 0 <= i < out.results@.len() implies part_of(
        needle,
        (#[trigger] out.results@[i]).name@,
    ) && (params.kind is Some ==> out.results@[i].kind@ == lower_of(params.kind->0@) || (lower_of(
        params.kind->0@,
    ) == "variant"@ && out.results@[i].kind@ == "enum_variant"@)) by {
        let at = law_search_shows_what_was_asked_for(files@, *params, limit, out, i);
        let at = lemma_sought_source_upto(
            files@,
            needle,
            kind_of(params.kind),
            files@.len() as int,
            i,
        );
    }
    if !out.truncated && 0 <= f < files@.len() && 0 <= s < files@[f].map.symbols@.len() && part_of(
        needle,
        files@[f].map.symbols@[s].name@,
    ) && (params.kind is Some ==> kind_name(files@[f].map.symbols@[s].kind) == lower_of(
        params.kind->0@,
    )) {
        let sym = files@[f].map.symbols@[s];
        if params.kind is Some {
            lemma_kind_lowered(params.kind);
            if kind_of(params.kind)->0 != sym.kind {
                if kind_name(kind_of(params.kind)->0) == kind_name(sym.kind) {
                    crate::model::law_kind_names_differ(kind_of(params.kind)->0, sym.kind);
                } else {
                    lemma_no_kind_is_variant(sym.kind);
                }
            }
        }
        let i = lemma_sought_kept_upto(
            files@,
            needle,
            kind_of(params.kind),
            files@.len() as int,
            f,
            s,
        );
        assert(out.results@[i].name@ == sym.name@);
    }
}

proof fn lemma_no_kind_is_variant(k: SymbolKind)
    ensures
        kind_name(k) != "variant"@,
{
    reveal_strlit("variant");
    reveal_strlit("function");
    reveal_strlit("method");
    reveal_strlit("struct");
    reveal_strlit("enum");
    reveal_strlit("class");
    reveal_strlit("interface");
    reveal_strlit("trait");
    reveal_strlit("type");
    reveal_strlit("const");
    reveal_strlit("module");
    reveal_strlit("macro");
    reveal_strlit("impl");
    reveal_strlit("namespace");
    reveal_strlit("getter");
    reveal_strlit("setter");
    reveal_strlit("field");
    reveal_strlit("variable");
    reveal_strlit("enum_variant");
    reveal_strlit("constructor");
    reveal_strlit("decorator");
    reveal_strlit("heading");
    reveal_strlit("unknown");
    assert("variant"@.len() == 7 && "variant"@[0] == 'v');
    assert("heading"@[0] == 'h' && "unknown"@[0] == 'u');
}

// ─── File listing ────────────────────────────────────────────────────────────

/// Every file that a listing shows is one of the index, and is asked for: its path holds the text asked
/// for, and its language is the one asked for, where such are. The result is its place in the index.
pub proof fn law_listing_shows_what_was_asked_for(
    entries: Seq<IndexEntry>,
    params: ListFilesParams,
    limit: int,
    out: ListFilesResponse,
    i: int,
) -> (e: int)
    requires
        is_listing(out, entries, params, limit),
        0 <= i < out.files@.len(),
    ensures
        0 <= e < entries.len(),
        out.files@[i].path@ == entries[e].path@,
        out.files@[i].language@ == entries[e].language@,
        out.files@[i].size_bytes == entries[e].size_bytes,
        params.path_contains is Some ==> part_of(params.path_contains->0@, out.files@[i].path@),
        params.language is Some ==> out.files@[i].language@ == params.language->0@,
{
    let p = listed(opt_text(params.path_contains), opt_text(params.language));
    let e = lemma_filter_source(entries, p, i);
    if params.path_contains is Some {
        lemma_part_of(params.path_contains->0@, entries[e].path@);
    }
    e
}

/// A listing misses nothing: unless it says that it is cut short, it shows every file of the index whose
/// path holds the text asked for and whose language is the one asked for, where such are.
pub proof fn law_listing_misses_nothing(
    entries: Seq<IndexEntry>,
    params: ListFilesParams,
    limit: int,
    out: ListFilesResponse,
    e: int,
) -> (i: int)
    requires
        is_listing(out, entries, params, limit),
        !out.truncated,
        0 <= e < entries.len(),
        params.path_contains is Some ==> part_of(params.path_contains->0@, entries[e].path@),
        params.language is Some ==> entries[e].language@ == params.language->0@,
    ensures
        0 <= i < out.files@.len(),
        out.files@[i].path@ == entries[e].path@,
        out.files@[i].language@ == entries[e].language@,
        out.files@[i].size_bytes == entries[e].size_bytes,
{
    let p = listed(opt_text(params.path_contains), opt_text(params.language));
    if params.path_contains is Some {
        lemma_part_of(params.path_contains->0@, entries[e].path@);
    }
    lemma_filter_place(entries, p, e)
}

// ─── Dependents ──────────────────────────────────────────────────────────────

/// A file is named as a dependent exactly when one of its imports has a module path of which the module
/// is a part.
pub proof fn law_dependents(files: Seq<MappedFile>, module: Seq<char>, paths: Seq<RelPath>, f: int)
    requires
        paths_ascend(files),
        crate::proposals::paths_of(paths) == files.filter(dependent_on(module)).map_values(
            |f: MappedFile| f.path@,
        ),
        0 <= f < files.len(),
    ensures
        (exists|i: int| 0 <= i < paths.len() && (#[trigger] paths[i])@ == files[f].path@) <==> (exists|
            k: int,
        |
            0 <= k < files[f].map.imports@.len() && (#[trigger] files[f].map.imports@[k]).module is Some
                && part_of(module, files[f].map.imports@[k].module->0@)),
{
    let p = dependent_on(module);
    let kept = files.filter(p);
    let shown = crate::proposals::paths_of(paths);
    if exists|i: int| 0 <= i < paths.len() && (#[trigger] paths[i])@ == files[f].path@ {
        let i = choose|i: int| 0 <= i < paths.len() && (#[trigger] paths[i])@ == files[f].path@;
        assert(shown[i] == paths[i]@);
        assert(shown.len() == kept.len());
        let g = lemma_filter_source(files, p, i);
        assert(files[g].path@ == files[f].path@);
        lemma_table_at(files, f);
        lemma_table_at(files, g);
        assert(g == f);
        let imports = files[f].map.imports@;
        let k = choose|k: int| 0 <= k < imports.len() && mentions(#[trigger] imports[k], module);
        lemma_part_of(module, imports[k].module->0@);
    }
    if exists|k: int|
        0 <= k < files[f].map.imports@.len() && (#[trigger] files[f].map.imports@[k]).module is Some
            && part_of(module, files[f].map.imports@[k].module->0@) {
        let imports = files[f].map.imports@;
        let k = choose|k: int|
            0 <= k < files[f].map.imports@.len() && (#[trigger] files[f].map.imports@[k]).module is Some
                && part_of(module, files[f].map.imports@[k].module->0@);
        lemma_part_of(module, imports[k].module->0@);
        assert(mentions(imports[k], module));
        assert(p(files[f]));
        let i = lemma_filter_place(files, p, f);
        assert(shown.len() == kept.len());
        assert(shown[i] == kept[i].path@);
        assert(shown[i] == paths[i]@);
    }
}

/// Every path that is named as a dependent is one of a file of the code map.
pub proof fn law_dependents_are_files(files: Seq<MappedFile>, module: Seq<char>, paths: Seq<RelPath>, i: int) -> (f:
    int)
    requires
        crate::proposals::paths_of(paths) == files.filter(dependent_on(module)).map_values(
            |f: MappedFile| f.path@,
        ),
        0 <= i < paths.len(),
    ensures
        0 <= f < files.len(),
        paths[i]@ == files[f].path@,
{
    let p = dependent_on(module);
    let shown = crate::proposals::paths_of(paths);
    assert(shown[i] == paths[i]@);
    assert(shown.len() == files.filter(p).len());
    lemma_filter_source(files, p, i)
}

// ─── Status ──────────────────────────────────────────────────────────────────

/// The status report counts each language's files: the number beside a language is that of the entries
/// of the language, and a language stands there exactly when an entry has it.
pub proof fn law_status_counts_files(l: Seq<LanguageCount>, entries: Seq<IndexEntry>, lang: Seq<char>)
    requires
        counts_are(l, entries, entries.len() as int),
    ensures
        forall|i: int|
            0 <= i < l.len() && (#[trigger] l[i]).language@ == lang ==> l[i].count == entries.filter(
                |e: IndexEntry| e.language@ == lang,
            ).len(),
        (exists|i: int| 0 <= i < l.len() && (#[trigger] l[i]).language@ == lang) <==> (exists|e: int|
            0 <= e < entries.len() && (#[trigger] entries[e]).language@ == lang),
{
    let n = entries.len() as int;
    let p = |e: IndexEntry| e.language@ == lang;
    lemma_count_filtered(entries, lang, n);
    assert(entries.take(n) =~= entries);
    if exists|e: int| 0 <= e < entries.len() && (#[trigger] entries[e]).language@ == lang {
        let e = choose|e: int| 0 <= e < entries.len() && (#[trigger] entries[e]).language@ == lang;
        let k = lemma_filter_place(entries, p, e);
        assert(count_of(entries, lang, n) > 0);
    }
    if exists|i: int| 0 <= i < l.len() && (#[trigger] l[i]).language@ == lang {
        let i = choose|i: int| 0 <= i < l.len() && (#[trigger] l[i]).language@ == lang;
        assert(count_of(entries, lang, n) > 0);
        let e = lemma_filter_source(entries, p, 0);
        assert(entries[e].language@ == lang);
    }
}

proof fn lemma_count_filtered(entries: Seq<IndexEntry>, lang: Seq<char>, n: int)
    requires
        0 <= n <= entries.len(),
    ensures
        count_of(entries, lang, n) == entries.take(n).filter(
            |e: IndexEntry| e.language@ == lang,
        ).len(),
    decreases n,
{
    reveal(Seq::filter);
    if n > 0 {
        lemma_count_filtered(entries, lang, n - 1);
        assert(entries.take(n).drop_last() =~= entries.take(n - 1));
    }
}

/// The sizes in the status report add up, as far as the number reaches.
pub proof fn law_status_adds_sizes(entries: Seq<IndexEntry>)
    ensures
        ({
            let sum = entries.fold_left(0int, |sum: int, e: IndexEntry| sum + e.size_bytes);
            let total = size_upto(entries, entries.len() as int);
            if sum <= u64::MAX {
                total == sum
            } else {
                total == u64::MAX
            }
        }),
{
    lemma_sizes(entries, entries.len() as int);
    assert(entries.take(entries.len() as int) =~= entries);
}

proof fn lemma_sizes(entries: Seq<IndexEntry>, n: int)
    requires
        0 <= n <= entries.len(),
    ensures
        ({
            let sum = entries.take(n).fold_left(0int, |sum: int, e: IndexEntry| sum + e.size_bytes);
            let total = size_upto(entries, n);
            &&& 0 <= sum
            &&& if sum <= u64::MAX {
                total == sum
            } else {
                total == u64::MAX
            }
        }),
    decreases n,
{
    let f = |sum: int, e: IndexEntry| sum + e.size_bytes;
    if n > 0 {
        lemma_sizes(entries, n - 1);
        assert(entries.take(n).drop_last() =~= entries.take(n - 1));
        assert(entries.take(n).fold_left(0int, f) == f(
            entries.take(n).drop_last().fold_left(0int, f),
            entries.take(n).last(),
        ));
    }
}

// ─── Implementations ─────────────────────────────────────────────────────────

/// Every implementation that is shown is one of the trait index behind the cursor, and is asked for: the
/// bytes of the name asked for stand in those of its trait's name, and its file is of the language asked
/// for, where one is. The result is its place in the index.
pub proof fn law_implementations_are_asked_for(
    rows: Seq<ImplRow>,
    from: Option<Seq<u8>>,
    params: FindImplementationsParams,
    limit: int,
    files: Seq<MappedFile>,
    out: FindImplementationsResponse,
    i: int,
) -> (r: int)
    requires
        is_impl_page(
            out,
            params.trait_name@,
            found_rows(rows, from, params.trait_name@, opt_text(params.language), files),
            limit,
            files,
        ),
        0 <= i < out.hits@.len(),
    ensures
        0 <= r < rows.len(),
        out.hits@[i].path@ == rows[r].path@,
        out.hits@[i].trait_name@ == rows[r].trait_name@,
        out.hits@[i].impl_type@ == rows[r].impl_type@,
        part_of(encode_utf8(params.trait_name@), encode_utf8(out.hits@[i].trait_name@)),
        params.language is Some ==> exists|f: int|
            0 <= f < files.len() && (#[trigger] files[f]).path@ == out.hits@[i].path@
                && files[f].map.language@ == params.language->0@,
        from is Some ==> lex_less(from->0, rows[r].key@),
{
    let rest = crate::impls::rows_after(rows, from);
    let p = crate::impls::asked(params.trait_name@, opt_text(params.language), files);
    let k = lemma_filter_source(rest, p, i);
    let r = lemma_filter_source(rows, |r: ImplRow| comes_after(from, r.key@), k);
    lemma_part_of(encode_utf8(params.trait_name@), encode_utf8(rows[r].trait_name@));
    if params.language is Some {
        let f = crate::model::path_index(files, rows[r].path@);
        assert(files[f].path@ == rows[r].path@);
    }
    r
}

/// No implementation is missing: a row behind the cursor whose trait's name holds the bytes of the name
/// asked for, in a file of the language asked for where one is, is among those found, and is shown
/// unless the page is full.
pub proof fn law_implementations_are_found(
    rows: Seq<ImplRow>,
    from: Option<Seq<u8>>,
    params: FindImplementationsParams,
    limit: int,
    files: Seq<MappedFile>,
    out: FindImplementationsResponse,
    r: int,
    f: int,
) -> (i: int)
    requires
        paths_ascend(files),
        is_impl_page(
            out,
            params.trait_name@,
            found_rows(rows, from, params.trait_name@, opt_text(params.language), files),
            limit,
            files,
        ),
        out.hits@.len() < limit,
        0 <= r < rows.len(),
        from is Some ==> lex_less(from->0, rows[r].key@),
        part_of(encode_utf8(params.trait_name@), encode_utf8(rows[r].trait_name@)),
        params.language is Some ==> 0 <= f < files.len() && files[f].path@ == rows[r].path@
            && files[f].map.language@ == params.language->0@,
    ensures
        0 <= i < out.hits@.len(),
        out.hits@[i].path@ == rows[r].path@,
        out.hits@[i].trait_name@ == rows[r].trait_name@,
        out.hits@[i].impl_type@ == rows[r].impl_type@,
{
    let rest = crate::impls::rows_after(rows, from);
    let p = crate::impls::asked(params.trait_name@, opt_text(params.language), files);
    lemma_part_of(encode_utf8(params.trait_name@), encode_utf8(rows[r].trait_name@));
    if params.language is Some {
        lemma_table_at(files, f);
    }
    let k = lemma_filter_place(rows, |r: ImplRow| comes_after(from, r.key@), r);
    lemma_filter_place(rest, p, k)
}

} // verus!
