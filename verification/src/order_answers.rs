//! In which order answers come.
use vstd::prelude::*;
use vstd::utf8::encode_utf8;

use crate::answers::lemma_filter_source;
use crate::calls::{is_scan_page, keys_ascend, matching, named, past, row_of, CallRow, CallScanPage};
use crate::cursor::Cursor;
use crate::git::{is_blame_page, starts_after, BlameHunk};
use crate::grep::{
    grep_upto, is_match_at, lemma_hits, scan_is, wanted_upto, GrepFile, GrepQuery, GrepScan,
};
use crate::impls::{
    asked, found_rows, is_impl_page, rows_after, FindImplementationsResponse, ImplRow,
};
use crate::keyspace::in_range_and;
use crate::memory::{listed, listing, shows_page, IndexDb, WireMemoryEntry};
use crate::model::{MappedFile, RelPath};
use crate::proposals::paths_of;
use crate::sort::comes_after;
use crate::tags::{pattern_kind, rewritten_from, section_text, PatternKind};
use crate::text::{lex_less, opt_text};
use crate::tools::{
    counts_are, dependent_on, is_listing, IndexEntry, LanguageCount, ListFilesParams,
    ListFilesResponse,
};

verus! {

/// What a filter keeps comes in the order in which it stood.
pub(crate) proof fn lemma_sources_ascend<T>(s: Seq<T>, p: spec_fn(T) -> bool, i: int, j: int) -> (at: (int, int))
    requires
        0 <= i < j < s.filter(p).len(),
    ensures
        0 <= at.0 < at.1 < s.len(),
        s.filter(p)[i] == s[at.0],
        s.filter(p)[j] == s[at.1],
        p(s[at.0]),
        p(s[at.1]),
{
    let a = lemma_filter_source(s, p, i);
    let b = lemma_filter_source(s, p, j);
    if b <= a {
        crate::answers::lemma_filter_order(s, p, b, a);
    }
    (a, b)
}

/// Files are listed in the order of the index.
pub proof fn law_listings_keep_the_order(
    entries: Seq<IndexEntry>,
    params: ListFilesParams,
    limit: int,
    out: ListFilesResponse,
    i: int,
    j: int,
) -> (at: (int, int))
    requires
        is_listing(out, entries, params, limit),
        0 <= i < j < out.files@.len(),
    ensures
        0 <= at.0 < at.1 < entries.len(),
        out.files@[i].path@ == entries[at.0].path@,
        out.files@[j].path@ == entries[at.1].path@,
{
    let p = crate::tools::listed(opt_text(params.path_contains), opt_text(params.language));
    lemma_sources_ascend(entries, p, i, j)
}

/// Dependents are named in the order of the code map, each file once.
pub proof fn law_dependents_keep_the_order(
    files: Seq<MappedFile>,
    module: Seq<char>,
    paths: Seq<RelPath>,
    i: int,
    j: int,
) -> (at: (int, int))
    requires
        paths_of(paths) == files.filter(dependent_on(module)).map_values(|f: MappedFile| f.path@),
        0 <= i < j < paths.len(),
    ensures
        0 <= at.0 < at.1 < files.len(),
        paths[i]@ == files[at.0].path@,
        paths[j]@ == files[at.1].path@,
{
    let shown = paths_of(paths);
    assert(shown[i] == paths[i]@ && shown[j] == paths[j]@);
    assert(shown.len() == files.filter(dependent_on(module)).len());
    lemma_sources_ascend(files, dependent_on(module), i, j)
}

/// References come in the order of their keys, and none comes twice.
pub proof fn law_references_ascend(
    rows: Seq<CallRow>,
    name: Seq<char>,
    cursor: Option<Seq<u8>>,
    limit: int,
    page: CallScanPage,
    i: int,
    j: int,
)
    requires
        keys_ascend(rows),
        is_scan_page(page, matching(rows, name, cursor), limit),
        0 <= i < j < page.hits@.len(),
    ensures
        lex_less(page.hits@[i].key@, page.hits@[j].key@),
{
    let (a, b) = lemma_sources_ascend(rows.filter(past(cursor)), named(name), i, j);
    let (x, y) = lemma_sources_ascend(rows, past(cursor), a, b);
    assert(row_of(page.hits@[i]) == rows[x]);
    assert(row_of(page.hits@[j]) == rows[y]);
    assert(lex_less(rows[x].key, rows[y].key));
}

/// Implementations come in the order of the trait index.
pub proof fn law_implementations_keep_the_order(
    rows: Seq<ImplRow>,
    from: Option<Seq<u8>>,
    name: Seq<char>,
    language: Option<Seq<char>>,
    limit: int,
    files: Seq<MappedFile>,
    out: FindImplementationsResponse,
    i: int,
    j: int,
) -> (at: (int, int))
    requires
        is_impl_page(out, name, found_rows(rows, from, name, language, files), limit, files),
        0 <= i < j < out.hits@.len(),
    ensures
        0 <= at.0 < at.1 < rows.len(),
        out.hits@[i].path@ == rows[at.0].path@,
        out.hits@[i].impl_type@ == rows[at.0].impl_type@,
        out.hits@[j].path@ == rows[at.1].path@,
        out.hits@[j].impl_type@ == rows[at.1].impl_type@,
{
    let (a, b) = lemma_sources_ascend(rows_after(rows, from), asked(name, language, files), i, j);
    lemma_sources_ascend(rows, |r: ImplRow| comes_after(from, r.key@), a, b)
}

/// Memories are listed in the order of their keys.
pub proof fn law_memories_keep_the_order(
    idx: IndexDb,
    prefix: Seq<u8>,
    from: Option<Seq<u8>>,
    key_prefix: Seq<char>,
    tag: Option<Seq<char>>,
    limit: int,
    entries: Seq<WireMemoryEntry>,
    truncated: bool,
    next_cursor: Option<Vec<u8>>,
    i: int,
    j: int,
) -> (at: (int, int))
    requires
        idx.wf(),
        shows_page(
            entries,
            truncated,
            next_cursor,
            listing(idx.memory_by_key.rows@, prefix, from, key_prefix, tag),
            limit,
        ),
        0 <= i < j < entries.len(),
    ensures
        0 <= at.0 < at.1 < idx.memory_by_key.rows@.len(),
        crate::keys::record_key_of(idx.memory_by_key.rows@[at.0].key@) == Some(encode_utf8(entries[i].key@)),
        crate::keys::record_key_of(idx.memory_by_key.rows@[at.1].key@) == Some(encode_utf8(entries[j].key@)),
        lex_less(idx.memory_by_key.rows@[at.0].key@, idx.memory_by_key.rows@[at.1].key@),
{
    let rows = idx.memory_by_key.rows@;
    let (a, b) = lemma_sources_ascend(
        rows,
        in_range_and(prefix, from, listed(key_prefix, tag)),
        i,
        j,
    );
    assert(crate::memory::lists_row(entries[i], rows[a]));
    assert(crate::memory::lists_row(entries[j], rows[b]));
    assert(lex_less(
        crate::sort::Keyed::sort_key(&rows[a]),
        crate::sort::Keyed::sort_key(&rows[b]),
    ));
    (a, b)
}

/// Hunks of blame come in the order in which they stood.
pub proof fn law_blame_keeps_the_order(
    hunks: Seq<BlameHunk>,
    resume_after: u32,
    limit: Option<u32>,
    shown: Seq<BlameHunk>,
    cursor: Option<Cursor>,
    i: int,
    j: int,
) -> (at: (int, int))
    requires
        is_blame_page(shown, cursor, hunks.filter(starts_after(resume_after)), limit),
        0 <= i < j < shown.len(),
    ensures
        0 <= at.0 < at.1 < hunks.len(),
        shown[i]@ == hunks[at.0]@,
        shown[j]@ == hunks[at.1]@,
{
    lemma_sources_ascend(hunks, starts_after(resume_after), i, j)
}

/// Hits of a text search come file by file.
pub proof fn law_hits_come_file_by_file(scan: GrepScan, files: Seq<GrepFile>, q: GrepQuery, n: int, i: int, j: int) -> (at: (
    int,
    int,
))
    requires
        0 <= n <= files.len(),
        scan_is(scan, grep_upto(files, q, n), files, q),
        0 <= i < j < scan.hits@.len(),
    ensures
        0 <= at.0 <= at.1 < n,
        scan.hits@[i].path@ == files[at.0].path@,
        scan.hits@[j].path@ == files[at.1].path@,
{
    let st = grep_upto(files, q, n);
    lemma_hits(files, q, n);
    let a = st.hits[i];
    let b = st.hits[j];
    assert(is_match_at(files, q, n, a));
    assert(is_match_at(files, q, n, b));
    assert(a.seen <= b.seen);
    if b.file < a.file {
        lemma_wanted_grows_to(files, q, b.file + 1, a.file);
    }
    assert(crate::grep::is_hit(scan.hits@[i], files[a.file], a, q.include_context));
    assert(crate::grep::is_hit(scan.hits@[j], files[b.file], b, q.include_context));
    (a.file, b.file)
}

proof fn lemma_wanted_grows_to(files: Seq<GrepFile>, q: GrepQuery, m: int, n: int)
    requires
        0 <= m <= n < files.len(),
        crate::grep::is_wanted(q, files[n]),
    ensures
        wanted_upto(files, q, m) < wanted_upto(files, q, n + 1),
    decreases n,
{
    lemma_wanted(files, q, m, n);
}

proof fn lemma_wanted(files: Seq<GrepFile>, q: GrepQuery, m: int, n: int)
    requires
        0 <= m <= n,
    ensures
        wanted_upto(files, q, m) <= wanted_upto(files, q, n),
    decreases n - m,
{
    if m < n {
        lemma_wanted(files, q, m, n - 1);
    }
}

/// Languages are counted in the order of their names.
pub proof fn law_languages_ascend(l: Seq<LanguageCount>, entries: Seq<IndexEntry>, i: int, j: int)
    requires
        counts_are(l, entries, entries.len() as int),
        0 <= i < j < l.len(),
    ensures
        lex_less(encode_utf8(l[i].language@), encode_utf8(l[j].language@)),
{
}

/// A section has its patterns in the order of the source: that of two lists of patterns is that of the first and then that of the second.
pub proof fn law_sections_keep_the_order(a: Seq<Seq<char>>, b: Seq<Seq<char>>, kind: PatternKind, n: int)
    requires
        0 <= n <= b.len(),
    ensures
        section_text(a + b, kind, a.len() + n) == section_text(a, kind, a.len() as int) + section_text(
            b,
            kind,
            n,
        ),
        b.len() > 0 && pattern_kind(b[0]) == kind ==> section_text(b, kind, 1) == rewritten_from(b[0], 0, kind),
        b.len() > 0 && pattern_kind(b[0]) != kind ==> section_text(b, kind, 1).len() == 0,
    decreases n,
{
    let none = section_text(b, kind, 0);
    assert(none =~= Seq::empty());
    assert(none + rewritten_from(b[0], 0, kind) =~= rewritten_from(b[0], 0, kind));
    if n > 0 {
        law_sections_keep_the_order(a, b, kind, n - 1);
        assert((a + b)[a.len() + n - 1] == b[n - 1]);
        assert(section_text(a + b, kind, a.len() + n) =~= section_text(a, kind, a.len() as int)
            + section_text(b, kind, n));
    } else {
        lemma_front_only(a, b, kind, a.len() as int);
        assert(section_text(a, kind, a.len() as int) + none =~= section_text(a, kind, a.len() as int));
    }
}

proof fn lemma_front_only(a: Seq<Seq<char>>, b: Seq<Seq<char>>, kind: PatternKind, n: int)
    requires
        0 <= n <= a.len(),
    ensures
        section_text(a + b, kind, n) == section_text(a, kind, n),
    decreases n,
{
    if n > 0 {
        lemma_front_only(a, b, kind, n - 1);
        assert((a + b)[n - 1] == a[n - 1]);
    }
}

} // verus!
