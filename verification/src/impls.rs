//! Finding implementations: a scan over the trait index, by a part of the trait's name.
use vstd::prelude::*;
use vstd::utf8::encode_utf8;

use crate::calls::{least, scan_cap, scan_cap_of};
use crate::cursor::Cursor;
use crate::grep::{SEARCH_LIMIT_DEFAULT, SEARCH_LIMIT_MAX};
use crate::memory::opt_bytes;
use crate::memory_tools::{cursor_is, is_bad_cursor};
use crate::model::{
    file_table, lemma_table_at, locate, paths_ascend, Implementation, MappedFile, RelPath,
    ToolError,
};
use crate::seek::bytes_hold;
use crate::seqs::{lemma_filter_prefix, lemma_filter_take, lemma_filter_window};
use crate::sort::{comes_after, cursor_bytes, first_after, runs, Keyed};
use crate::text::{copy_bytes, holds_seq, opt_text, same_str};
use crate::walk::{bound, bounded};

verus! {

/// A row of the trait index: its key, and what the key says.
#[derive(Debug)]
pub struct ImplRow {
    pub key: Vec<u8>,
    pub trait_name: String,
    pub impl_type: String,
    pub path: RelPath,
    pub start_byte: u32,
}

impl Keyed for ImplRow {
    open spec fn sort_key(&self) -> Seq<u8> {
        self.key@
    }

    fn key_bytes(&self) -> (k: &[u8]) {
        self.key.as_slice()
    }
}

/// An implementation that was found.
#[derive(Debug)]
pub struct ImplementationHit {
    pub path: RelPath,
    pub trait_name: String,
    pub impl_type: String,
    /// Counted from one; zero where the place is not known.
    pub start_row: u32,
    pub start_col: u32,
}

/// A request for implementations.
#[derive(Debug)]
pub struct FindImplementationsParams {
    pub trait_name: String,
    pub language: Option<String>,
    pub limit: Option<u32>,
    pub cursor: Option<Cursor>,
}

/// The implementations that were found.
#[derive(Debug)]
pub struct FindImplementationsResponse {
    pub trait_name: String,
    pub total: usize,
    /// Whether counting stopped early.
    pub total_is_partial: bool,
    pub hits: Vec<ImplementationHit>,
    pub next_cursor: Option<Cursor>,
}

// ─── Places ──────────────────────────────────────────────────────────────────

/// Whether an implementation is the one that a row speaks of.
pub open spec fn is_impl(i: Implementation, trait_name: Seq<char>, impl_type: Seq<char>, start: u32) -> bool {
    i.trait_name@ == trait_name && i.impl_type@ == impl_type && i.start_byte == start
}

/// `k` is the first implementation that a row speaks of.
pub open spec fn is_first_impl(
    list: Seq<Implementation>,
    trait_name: Seq<char>,
    impl_type: Seq<char>,
    start: u32,
    k: int,
) -> bool {
    &&& 0 <= k < list.len()
    &&& is_impl(list[k], trait_name, impl_type, start)
    &&& forall|j: int| 0 <= j < k ==> !is_impl(#[trigger] list[j], trait_name, impl_type, start)
}

/// The place of an implementation, rows counted from one; (0, 0) where it is not known.
pub open spec fn place_of(
    files: Seq<MappedFile>,
    rel: Seq<u8>,
    trait_name: Seq<char>,
    impl_type: Seq<char>,
    start: u32,
) -> (int, int) {
    if !file_table(files).contains_key(rel) {
        (0, 0)
    } else {
        let list = file_table(files)[rel].implementations@;
        if exists|k: int| is_first_impl(list, trait_name, impl_type, start, k) {
            let i = list[choose|k: int| is_first_impl(list, trait_name, impl_type, start, k)];
            (i.start_row + 1, i.start_col as int)
        } else {
            (0, 0)
        }
    }
}

/// No row number is so large that its successor does not fit.
pub open spec fn rows_fit(files: Seq<MappedFile>) -> bool {
    forall|f: int, k: int|
        0 <= f < files.len() && 0 <= k < files[f].map.implementations@.len() ==> (
        #[trigger] files[f].map.implementations@[k]).start_row < u32::MAX
}

/// The row and column of an implementation, from the code map.
pub fn resolve_impl_row_col(
    files: &Vec<MappedFile>,
    rel: &RelPath,
    trait_name: &str,
    impl_type: &str,
    start_byte: u32,
) -> (at: (u32, u32))
    requires
        paths_ascend(files@),
        rows_fit(files@),
    ensures
        (at.0 as int, at.1 as int) == place_of(
            files@,
            rel@,
            trait_name@,
            impl_type@,
            start_byte,
        ),
{
    let (f, found) = locate(files, rel);
    if !found {
        return (0, 0);
    }
    proof {
        lemma_table_at(files@, f as int);
    }
    let list = &files[f].map.implementations;
    let mut k: usize = 0;
    while k < list.len()
        invariant
            f < files@.len(),
            list@ == files@[f as int].map.implementations@,
            rows_fit(files@),
            paths_ascend(files@),
            file_table(files@).contains_key(rel@),
            file_table(files@)[rel@] == files@[f as int].map,
            k <= list@.len(),
            forall|j: int|
                0 <= j < k ==> !is_impl(#[trigger] list@[j], trait_name@, impl_type@, start_byte),
        decreases list@.len() - k,
    {
        let i = &list[k];
        if same_str(i.trait_name.as_str(), trait_name) && same_str(i.impl_type.as_str(), impl_type)
            && i.start_byte == start_byte {
            proof {
                assert(is_first_impl(list@, trait_name@, impl_type@, start_byte, k as int));
                let q = choose|q: int|
                    is_first_impl(list@, trait_name@, impl_type@, start_byte, q);
                assert(q == k);
                assert(files@[f as int].map.implementations@[k as int].start_row < u32::MAX);
            }
            return (i.start_row + 1, i.start_col);
        }
        k += 1;
    }
    (0, 0)
}

// ─── The scan ────────────────────────────────────────────────────────────────

/// Whether a row is asked for: its trait's name holds the name, and its file is of the language.
pub open spec fn is_asked(
    row: ImplRow,
    name: Seq<char>,
    language: Option<Seq<char>>,
    files: Seq<MappedFile>,
) -> bool {
    &&& holds_seq(encode_utf8(row.trait_name@), encode_utf8(name))
    &&& language is Some ==> file_table(files).contains_key(row.path@)
        && file_table(files)[row.path@].language@ == language->0
}

/// The condition that a row is asked for.
pub open spec fn asked(
    name: Seq<char>,
    language: Option<Seq<char>>,
    files: Seq<MappedFile>,
) -> spec_fn(ImplRow) -> bool {
    |r: ImplRow| is_asked(r, name, language, files)
}

/// The rows after the cursor.
pub open spec fn rows_after(rows: Seq<ImplRow>, cursor: Option<Seq<u8>>) -> Seq<ImplRow> {
    rows.filter(|r: ImplRow| comes_after(cursor, r.key@))
}

/// The rows that a request finds, in key order.
pub open spec fn found_rows(
    rows: Seq<ImplRow>,
    cursor: Option<Seq<u8>>,
    name: Seq<char>,
    language: Option<Seq<char>>,
    files: Seq<MappedFile>,
) -> Seq<ImplRow> {
    rows_after(rows, cursor).filter(asked(name, language, files))
}

/// `h` shows the row.
pub open spec fn shows(h: ImplementationHit, row: ImplRow, files: Seq<MappedFile>) -> bool {
    &&& h.path@ == row.path@
    &&& h.trait_name@ == row.trait_name@
    &&& h.impl_type@ == row.impl_type@
    &&& (h.start_row as int, h.start_col as int) == place_of(
        files,
        row.path@,
        row.trait_name@,
        row.impl_type@,
        row.start_byte,
    )
}

/// `out` is the page of what was found.
pub open spec fn is_impl_page(
    out: FindImplementationsResponse,
    name: Seq<char>,
    found: Seq<ImplRow>,
    limit: int,
    files: Seq<MappedFile>,
) -> bool {
    let seen = least(found.len() as int, scan_cap(limit));
    &&& out.trait_name@ == name
    &&& out.total == seen
    &&& out.total_is_partial == (found.len() >= scan_cap(limit))
    &&& out.hits@.len() == least(found.len() as int, limit)
    &&& forall|i: int| 0 <= i < out.hits@.len() ==> shows(#[trigger] out.hits@[i], found[i], files)
    &&& cursor_is(
        out.next_cursor,
        if seen > limit && limit > 0 {
            Some(found[limit - 1].key@)
        } else {
            None
        },
    )
}

fn row_asked(row: &ImplRow, name: &str, language: &Option<String>, files: &Vec<MappedFile>) -> (yes:
    bool)
    requires
        paths_ascend(files@),
    ensures
        yes == is_asked(*row, name@, opt_text(*language), files@),
{
    if !bytes_hold(row.trait_name.as_str().as_bytes(), name.as_bytes()) {
        return false;
    }
    match language {
        Some(l) => {
            let (at, found) = locate(files, &row.path);
            if found {
                proof {
                    lemma_table_at(files@, at as int);
                }
                same_str(files[at].map.language.as_str(), l.as_str())
            } else {
                false
            }
        },
        None => true,
    }
}

fn scan_impls(
    rows: &Vec<ImplRow>,
    from: usize,
    name: &String,
    language: &Option<String>,
    files: &Vec<MappedFile>,
    limit: usize,
) -> (out: FindImplementationsResponse)
    requires
        from <= rows@.len(),
        paths_ascend(files@),
        rows_fit(files@),
    ensures
        is_impl_page(
            out,
            name@,
            rows@.skip(from as int).filter(asked(name@, opt_text(*language), files@)),
            limit as int,
            files@,
        ),
{
    let ghost p = asked(name@, opt_text(*language), files@);
    let ghost w = rows@.skip(from as int);
    let cap: usize = scan_cap_of(limit);
    let mut hits: Vec<ImplementationHit> = Vec::new();
    let mut last: Option<Vec<u8>> = None;
    let mut total: usize = 0;
    let mut i: usize = from;
    proof {
        reveal(Seq::filter);
        assert(w.take(0).filter(p) =~= Seq::empty());
    }
    while i < rows.len() && total < cap
        invariant
            from <= i <= rows@.len(),
            paths_ascend(files@),
            rows_fit(files@),
            p == asked(name@, opt_text(*language), files@),
            w == rows@.skip(from as int),
            cap == scan_cap(limit as int),
            cap >= limit,
            total == w.take(i - from).filter(p).len(),
            total <= cap,
            hits@.len() == least(total as int, limit as int),
            forall|k: int|
                0 <= k < hits@.len() ==> shows(
                    #[trigger] hits@[k],
                    w.take(i - from).filter(p)[k],
                    files@,
                ),
            opt_bytes(last) == if hits@.len() > 0 {
                Some(w.take(i - from).filter(p)[hits@.len() - 1].key@)
            } else {
                None
            },
        decreases rows@.len() - i,
    {
        let row = &rows[i];
        let ghost was = w.take(i - from).filter(p);
        proof {
            lemma_filter_take(w, i - from, p);
            assert(w[i - from] == *row);
        }
        if row_asked(row, name.as_str(), language, files) {
            assert(w.take(i - from + 1).filter(p) == was.push(*row));
            total += 1;
            if hits.len() < limit {
                let (start_row, start_col) = resolve_impl_row_col(
                    files,
                    &row.path,
                    row.trait_name.as_str(),
                    row.impl_type.as_str(),
                    row.start_byte,
                );
                hits.push(
                    ImplementationHit {
                        path: row.path.copy(),
                        trait_name: row.trait_name.clone(),
                        impl_type: row.impl_type.clone(),
                        start_row,
                        start_col,
                    },
                );
                last = Some(copy_bytes(row.key.as_slice()));
            }
        }
        i += 1;
    }
    let ghost all = w.filter(p);
    proof {
        let now = w.take(i - from).filter(p);
        lemma_filter_prefix(w, i - from, p);
        if i == rows@.len() {
            assert(w.take(i - from) =~= w);
        }
        assert forall|k: int| 0 <= k < now.len() implies now[k] == all[k] by {
            assert(all.take(now.len() as int)[k] == all[k]);
        }
    }
    let next_cursor = if total > limit {
        match &last {
            Some(k) => Some(Cursor::encode_fjall(k.as_slice())),
            None => None,
        }
    } else {
        None
    };
    FindImplementationsResponse {
        trait_name: name.clone(),
        total,
        total_is_partial: total >= cap,
        hits,
        next_cursor,
    }
}

/// Find the implementations of the traits whose name holds the name asked for. `rows` is the trait
/// index, where there is one, and `files` the code map.
pub fn run_find_implementations(
    rows: Option<&Vec<ImplRow>>,
    params: &FindImplementationsParams,
    files: &Vec<MappedFile>,
) -> (r: Result<FindImplementationsResponse, ToolError>)
    requires
        rows is Some ==> runs(rows->0@, true),
        paths_ascend(files@),
        rows_fit(files@),
    ensures
        match r {
            Ok(out) => match rows {
                Some(index) => exists|from: Option<Seq<u8>>| #[trigger]
                    cursor_is(params.cursor, from) && is_impl_page(
                        out,
                        params.trait_name@,
                        found_rows(
                            index@,
                            from,
                            params.trait_name@,
                            opt_text(params.language),
                            files@,
                        ),
                        bounded(params.limit, SEARCH_LIMIT_DEFAULT, SEARCH_LIMIT_MAX) as int,
                        files@,
                    ),
                None => out.trait_name@ == params.trait_name@ && out.total == 0
                    && !out.total_is_partial && out.hits@.len() == 0 && out.next_cursor is None,
            },
            Err(e) => rows is Some && is_bad_cursor(params.cursor) && e is InvalidParams && e.text()
                == "invalid cursor"@,
        },
{
    let limit: usize = bound(params.limit, SEARCH_LIMIT_DEFAULT, SEARCH_LIMIT_MAX) as usize;
    let index = match rows {
        Some(index) => index,
        None => {
            return Ok(
                FindImplementationsResponse {
                    trait_name: params.trait_name.clone(),
                    total: 0,
                    total_is_partial: false,
                    hits: Vec::new(),
                    next_cursor: None,
                },
            );
        },
    };
    let from = match &params.cursor {
        Some(c) => match c.decode_fjall() {
            Ok(k) => Some(k),
            Err(e) => {
                return Err(e);
            },
        },
        None => None,
    };
    let cursor = match &from {
        Some(k) => Some(k.as_slice()),
        None => None,
    };
    let at: usize = first_after(index.as_slice(), cursor);
    let out = scan_impls(index, at, &params.trait_name, &params.language, files, limit);
    proof {
        let after = cursor_bytes(cursor);
        assert(cursor_is(params.cursor, after));
        lemma_rows_after(index@, after, at as int);
    }
    Ok(out)
}

proof fn lemma_rows_after(rows: Seq<ImplRow>, cursor: Option<Seq<u8>>, at: int)
    requires
        0 <= at <= rows.len(),
        forall|i: int|
            0 <= i < rows.len() ==> comes_after(cursor, (#[trigger] rows[i]).sort_key()) == (i
                >= at),
    ensures
        rows_after(rows, cursor) == rows.skip(at),
{
    let p = |r: ImplRow| comes_after(cursor, r.key@);
    let all = |r: ImplRow| true;
    assert forall|i: int| 0 <= i < rows.len() implies p(#[trigger] rows[i]) == (at <= i
        < rows.len()) by {
        assert(rows[i].sort_key() == rows[i].key@);
    }
    lemma_filter_window(rows, at, rows.len() as int, p, all);
    crate::seqs::lemma_filter_agree(rows, p, |x: ImplRow| p(x) && all(x));
    crate::seqs::lemma_filter_all(rows.subrange(at, rows.len() as int), all);
    assert(rows.subrange(at, rows.len() as int) =~= rows.skip(at));
}

} // verus!
