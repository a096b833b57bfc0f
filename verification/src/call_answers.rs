//! What the call tools answer: which call sites are indexed, found, proven and shown.
use vstd::prelude::*;
use vstd::utf8::encode_utf8;

use crate::answers::{lemma_filter_place, lemma_filter_source, lemma_part_of, part_of};
use crate::budget::{cost_of, is_kept_count};
use crate::callers::{
    alias_row, alias_rows, annotated, call_at, candidates, files_upto, fresh_aliases, ident_end,
    identifier, is_ident_byte, is_merged_page, is_proven, is_refinement, is_use_order, later,
    merges, names_symbol, placed, proven_upto, said, said_by, site_at, use_key, uses_at,
    ResolvedCallers, UseAt, UseSite,
};
use crate::calls::{
    all_rows, file_rows, is_index_of, is_scan_page, matching, named, past, row_for, row_of,
    scan_cap, CallRef, CallRow, CallScanPage, FileCalls, InRamCallIndex, ScanHit,
};
use crate::find::{
    is_callers_page, is_name_scan, is_proof_of, lemma_call_at, lemma_row_of_all, lemma_row_of_file,
    meant_symbol, CallersPage, FindCallersParams,
};
use crate::model::{lemma_table_at, paths_ascend, Call, MappedFile, Symbol};
use crate::resolution::{ExportEdge, ResolvedEdge};
use crate::syntax::{first_named, is_first_named, is_named};
use crate::text::{lemma_lex_irreflexive, lex_less};
use crate::tools::kind_of;

verus! {

// ─── The index ───────────────────────────────────────────────────────────────

/// Every call of a file whose callee takes no more than 65535 bytes has its row in the index, under the
/// file's path, with its start byte and column, and with its line counted from one.
pub proof fn law_every_call_is_indexed(index: InRamCallIndex, per_file: Seq<FileCalls>, i: int, j: int) -> (r:
    int)
    requires
        is_index_of(index, per_file),
        0 <= i < per_file.len(),
        0 <= j < per_file[i].calls@.len(),
        per_file[i].calls@[j].start_row < u32::MAX,
        encode_utf8(per_file[i].calls@[j].callee@).len() <= 65535,
    ensures
        0 <= r < index.rows().len(),
        index.rows()[r].callee == per_file[i].calls@[j].callee@,
        index.rows()[r].rel == per_file[i].rel@,
        index.rows()[r].start == per_file[i].calls@[j].start_byte,
        index.rows()[r].line == per_file[i].calls@[j].start_row + 1,
        index.rows()[r].column == per_file[i].calls@[j].start_col,
{
    broadcast use vstd::seq_lib::group_to_multiset_ensures;

    let calls = per_file[i].calls@;
    let row = row_for(per_file[i].rel@, calls[j]);
    lemma_row_of_file(per_file[i].rel@, calls, calls.len() as int, j);
    lemma_row_of_all(per_file, per_file.len() as int, i, row);
    let all = all_rows(per_file, per_file.len() as int);
    assert(all.to_multiset().count(row) > 0);
    assert(index.rows().to_multiset().count(row) > 0);
    assert(index.rows().contains(row));
    index.rows().index_of(row)
}

proof fn lemma_file_row_source(rel: Seq<u8>, calls: Seq<Call>, n: int, k: int) -> (j: int)
    requires
        0 <= n <= calls.len(),
        0 <= k < file_rows(rel, calls, n).len(),
    ensures
        0 <= j < n,
        file_rows(rel, calls, n)[k] == row_for(rel, calls[j]),
    decreases n,
{
    if k < file_rows(rel, calls, n - 1).len() {
        lemma_file_row_source(rel, calls, n - 1, k)
    } else {
        n - 1
    }
}

proof fn lemma_all_row_source(files: Seq<FileCalls>, n: int, k: int) -> (at: (int, int))
    requires
        0 <= n <= files.len(),
        0 <= k < all_rows(files, n).len(),
    ensures
        0 <= at.0 < n,
        0 <= at.1 < files[at.0].calls@.len(),
        all_rows(files, n)[k] == row_for(files[at.0].rel@, files[at.0].calls@[at.1]),
    decreases n,
{
    let front = all_rows(files, n - 1);
    if k < front.len() {
        lemma_all_row_source(files, n - 1, k)
    } else {
        let calls = files[n - 1].calls@;
        (
            n - 1,
            lemma_file_row_source(files[n - 1].rel@, calls, calls.len() as int, k - front.len()),
        )
    }
}

/// Every row of the index is a call of a file. The result gives the file and the call.
pub proof fn law_every_row_is_a_call(index: InRamCallIndex, per_file: Seq<FileCalls>, r: int) -> (at: (
    int,
    int,
))
    requires
        is_index_of(index, per_file),
        forall|i: int, j: int|
            0 <= i < per_file.len() && 0 <= j < per_file[i].calls@.len() ==> (
            #[trigger] per_file[i].calls@[j]).start_row < u32::MAX,
        0 <= r < index.rows().len(),
    ensures
        0 <= at.0 < per_file.len(),
        0 <= at.1 < per_file[at.0].calls@.len(),
        index.rows()[r].callee == per_file[at.0].calls@[at.1].callee@,
        index.rows()[r].rel == per_file[at.0].rel@,
        index.rows()[r].start == per_file[at.0].calls@[at.1].start_byte,
        index.rows()[r].line == per_file[at.0].calls@[at.1].start_row + 1,
        index.rows()[r].column == per_file[at.0].calls@[at.1].start_col,
{
    broadcast use vstd::seq_lib::group_to_multiset_ensures;

    let row = index.rows()[r];
    let all = all_rows(per_file, per_file.len() as int);
    assert(index.rows().contains(row));
    assert(index.rows().to_multiset().count(row) > 0);
    assert(all.to_multiset().count(row) > 0);
    assert(all.contains(row));
    let at = lemma_all_row_source(per_file, per_file.len() as int, all.index_of(row));
    assert(per_file[at.0].calls@[at.1].start_row < u32::MAX);
    at
}

// ─── References ──────────────────────────────────────────────────────────────

/// Every hit of a scan for a name is a row of the index behind the cursor, and the bytes of the name
/// stand in those of its callee. The result is the row.
pub proof fn law_references_hold_the_name(
    rows: Seq<CallRow>,
    name: Seq<char>,
    cursor: Option<Seq<u8>>,
    limit: int,
    page: CallScanPage,
    i: int,
) -> (r: int)
    requires
        is_scan_page(page, matching(rows, name, cursor), limit),
        0 <= i < page.hits@.len(),
    ensures
        0 <= r < rows.len(),
        page.hits@[i].hit.callee@ == rows[r].callee,
        page.hits@[i].hit.path@ == rows[r].rel,
        page.hits@[i].hit.line == rows[r].line,
        page.hits@[i].hit.column == rows[r].column,
        page.hits@[i].start == rows[r].start,
        page.hits@[i].hit.resolved is None,
        part_of(encode_utf8(name), encode_utf8(page.hits@[i].hit.callee@)),
        cursor is Some ==> lex_less(cursor->0, rows[r].key),
{
    let k = lemma_filter_source(rows.filter(past(cursor)), named(name), i);
    let r = lemma_filter_source(rows, past(cursor), k);
    assert(row_of(page.hits@[i]) == rows[r]);
    lemma_part_of(encode_utf8(name), encode_utf8(rows[r].callee));
    r
}

/// A scan misses nothing: a row behind the cursor in whose callee the bytes of the name stand is counted,
/// and on a page that is not full it is shown. The result is its place on the page.
pub proof fn law_references_miss_nothing(
    rows: Seq<CallRow>,
    name: Seq<char>,
    cursor: Option<Seq<u8>>,
    limit: int,
    page: CallScanPage,
    r: int,
) -> (i: int)
    requires
        is_scan_page(page, matching(rows, name, cursor), limit),
        0 <= r < rows.len(),
        cursor is Some ==> lex_less(cursor->0, rows[r].key),
        part_of(encode_utf8(name), encode_utf8(rows[r].callee)),
        0 < limit <= usize::MAX,
    ensures
        page.total > 0,
        page.next_cursor is Some ==> page.hits@.len() == limit,
        page.hits@.len() < limit ==> 0 <= i < page.hits@.len() && page.hits@[i].hit.callee@
            == rows[r].callee && page.hits@[i].hit.path@ == rows[r].rel && page.hits@[i].hit.line
            == rows[r].line && page.hits@[i].hit.column == rows[r].column && page.hits@[i].start
            == rows[r].start,
{
    lemma_part_of(encode_utf8(name), encode_utf8(rows[r].callee));
    let k = lemma_filter_place(rows, past(cursor), r);
    let i = lemma_filter_place(rows.filter(past(cursor)), named(name), k);
    if page.hits@.len() < limit {
        assert(row_of(page.hits@[i]) == rows[r]);
    }
    i
}

// ─── Callers ─────────────────────────────────────────────────────────────────

proof fn lemma_proven_source(order: Seq<UseAt>, index: InRamCallIndex, cap: int, n: int, k: int) -> (i: int)
    requires
        0 <= n <= order.len(),
        0 <= k < proven_upto(order, index, cap, n).len(),
    ensures
        0 <= i < n,
        proven_upto(order, index, cap, n)[k] == order[i],
        site_at(index, order[i]) is Some,
    decreases n,
{
    if k < proven_upto(order, index, cap, n - 1).len() {
        lemma_proven_source(order, index, cap, n - 1, k)
    } else {
        n - 1
    }
}

proof fn lemma_proven_kept(order: Seq<UseAt>, index: InRamCallIndex, cap: int, n: int, i: int)
    requires
        0 <= i < n <= order.len(),
        order.len() <= cap,
        site_at(index, order[i]) is Some,
    ensures
        proven_upto(order, index, cap, n).contains(order[i]),
    decreases n,
{
    lemma_files_fit(order, i + 1);
    let front = proven_upto(order, index, cap, n - 1);
    let all = proven_upto(order, index, cap, n);
    if i == n - 1 {
        assert(is_proven(order, index, cap, i));
        assert(all[front.len() as int] == order[i]);
    } else {
        lemma_proven_kept(order, index, cap, n - 1, i);
        assert(all[front.index_of(order[i])] == order[i]);
    }
}

proof fn lemma_files_fit(order: Seq<UseAt>, n: int)
    requires
        0 <= n,
    ensures
        files_upto(order, n) <= n,
    decreases n,
{
    if n > 0 {
        lemma_files_fit(order, n - 1);
    }
}

proof fn lemma_uses_no_longer(a: Seq<UseAt>, b: Seq<UseAt>)
    requires
        a.no_duplicates(),
        forall|i: int| 0 <= i < a.len() ==> b.contains(#[trigger] a[i]),
    ensures
        a.len() <= b.len(),
    decreases a.len(),
{
    if a.len() > 0 {
        let x = a.last();
        assert(b.contains(a[a.len() - 1]));
        let at = b.index_of(x);
        let rest = b.remove(at);
        let front = a.drop_last();
        assert forall|i: int| 0 <= i < front.len() implies rest.contains(#[trigger] front[i]) by {
            assert(b.contains(a[i]));
            assert(a[i] != a[a.len() - 1]);
            let k = b.index_of(a[i]);
            if k < at {
                assert(rest[k] == a[i]);
            } else {
                assert(rest[k - 1] == a[i]);
            }
        }
        lemma_uses_no_longer(front, rest);
    }
}

proof fn lemma_alias_source(proven: Seq<UseAt>, index: InRamCallIndex, name: Seq<char>, k: int) -> (i: int)
    requires
        0 <= k < alias_rows(proven, index, name).len(),
    ensures
        0 <= i < proven.len(),
        alias_rows(proven, index, name)[k] == alias_row(index, proven[i]),
    decreases proven.len(),
{
    if k < alias_rows(proven.drop_last(), index, name).len() {
        lemma_alias_source(proven.drop_last(), index, name, k)
    } else {
        proven.len() - 1
    }
}

/// The call site at `start` in the file `path` is a use of the definition: one of the uses names it, and
/// a call of the index starts there.
pub open spec fn is_used_call(index: InRamCallIndex, uses: Seq<UseSite>, path: Seq<u8>, start: u32) -> bool {
    &&& exists|u: int|
        0 <= u < uses.len() && (#[trigger] uses[u]).path@ == path && uses[u].start == start
    &&& exists|c: int|
        0 <= c < index.calls_of(path).len() && (#[trigger] index.calls_of(path)[c]).start_byte == start
}

pub(crate) proof fn lemma_proven_is_used(
    order: Seq<UseAt>,
    index: InRamCallIndex,
    uses: Seq<UseSite>,
    cap: int,
    u: UseAt,
)
    requires
        is_use_order(order, uses_at(uses)),
    ensures
        proven_upto(order, index, cap, order.len() as int).contains(u) ==> is_used_call(
            index,
            uses,
            u.path,
            u.start,
        ),
        uses.len() <= cap && is_used_call(index, uses, u.path, u.start) ==> proven_upto(
            order,
            index,
            cap,
            order.len() as int,
        ).contains(u),
{
    let n = order.len() as int;
    let proven = proven_upto(order, index, cap, n);
    if proven.contains(u) {
        let i = lemma_proven_source(order, index, cap, n, proven.index_of(u));
        assert(order.contains(u));
        assert(uses_at(uses).contains(u));
        let k = uses_at(uses).index_of(u);
        assert(uses[k]@ == u);
        let calls = index.calls_of(u.path);
        let c = lemma_call_at(calls, u.start, calls.len() as int);
        assert(index.calls_of(u.path)[c].start_byte == u.start);
    }
    if uses.len() <= cap && is_used_call(index, uses, u.path, u.start) {
        let k = choose|k: int|
            0 <= k < uses.len() && (#[trigger] uses[k]).path@ == u.path && uses[k].start == u.start;
        assert(uses_at(uses)[k] == u);
        assert(uses_at(uses).contains(u));
        assert(order.contains(u));
        let i = order.index_of(u);
        let calls = index.calls_of(u.path);
        let c = choose|c: int|
            0 <= c < index.calls_of(u.path).len() && (#[trigger] index.calls_of(u.path)[c]).start_byte
                == u.start;
        lemma_call_there(calls, u.start, calls.len() as int, c);
        assert(order.no_duplicates()) by {
            assert forall|i: int, j: int| 0 <= i < j < order.len() implies order[i] != order[j] by {
                assert(lex_less(use_key(order[i]), use_key(order[j])));
                lemma_lex_irreflexive(use_key(order[i]));
            }
        }
        assert forall|i: int| 0 <= i < order.len() implies uses_at(uses).contains(
            #[trigger] order[i],
        ) by {
            assert(order.contains(order[i]));
        }
        lemma_uses_no_longer(order, uses_at(uses));
        lemma_proven_kept(order, index, cap, n, i);
    }
}

pub(crate) proof fn lemma_call_there(calls: Seq<CallRef>, start: u32, n: int, c: int)
    requires
        0 <= c < n <= calls.len(),
        calls[c].start_byte == start,
    ensures
        call_at(calls, start, n) is Some,
    decreases n,
{
    if c < n - 1 {
        lemma_call_there(calls, start, n - 1, c);
    }
}

/// Marks are true and nothing is shown without a reason. A caller that is shown has the bytes of the name
/// in its callee, or is marked as proven. One that is marked as proven is a use of the definition at
/// which a call stands. Where the uses are no more than a scan looks at, one that is marked as not proven
/// is none. And where one of them is, every caller has a mark.
pub proof fn law_callers_are_marked_truly(
    out: CallersPage,
    index: &InRamCallIndex,
    uses: Seq<UseSite>,
    name: Seq<char>,
    from: Option<Seq<u8>>,
    limit: int,
    i: int,
)
    requires
        0 <= limit,
        is_callers_page(out, Some(index), uses, name, from, limit),
        0 <= i < out.page.hits@.len(),
    ensures
        ({
            let h = out.page.hits@[i];
            &&& part_of(encode_utf8(name), encode_utf8(h.hit.callee@)) || h.hit.resolved == Some(true)
            &&& h.hit.resolved == Some(true) ==> is_used_call(*index, uses, h.hit.path@, h.start)
            &&& uses.len() <= scan_cap(limit) && h.hit.resolved == Some(false) ==> !is_used_call(
                *index,
                uses,
                h.hit.path@,
                h.start,
            )
            &&& uses.len() <= scan_cap(limit) && h.hit.resolved is None ==> forall|
                path: Seq<u8>,
                start: u32,
            |
                !#[trigger] is_used_call(*index, uses, path, start)
        }),
{
    broadcast use vstd::seq_lib::group_to_multiset_ensures;

    let (scan, r) = choose|scan: CallScanPage, r: Option<ResolvedCallers>|
        #![trigger is_merged_page(out.page, scan, r, limit, from)]
        is_name_scan(scan, Some(index), name, from, limit) && is_proof_of(
            r,
            uses,
            *index,
            name,
            limit,
        ) && is_merged_page(out.page, scan, r, limit, from) && out.resolved_total == (match r {
            Some(x) => x.total,
            None => 0,
        });
    let h = out.page.hits@[i];
    let cap = scan_cap(limit);
    match r {
        None => {
            let k = law_references_hold_the_name(index.rows(), name, from, limit, scan, i);
            let order = choose|order: Seq<UseAt>| #[trigger]
                is_use_order(order, uses_at(uses)) && proven_upto(
                    order,
                    *index,
                    scan_cap(limit),
                    order.len() as int,
                ).len() == 0;
            if uses.len() <= cap {
                assert forall|path: Seq<u8>, start: u32|
                    !#[trigger] is_used_call(*index, uses, path, start) by {
                    lemma_proven_is_used(order, *index, uses, cap, UseAt { path, start });
                }
            }
        },
        Some(x) => {
            let order = choose|order: Seq<UseAt>| #[trigger]
                is_use_order(order, uses_at(uses)) && is_refinement(x, order, *index, name, limit)
                    && x.total > 0;
            let u = UseAt { path: h.hit.path@, start: h.start };
            lemma_proven_is_used(order, *index, uses, cap, u);
            let proven = proven_upto(order, *index, cap, order.len() as int);
            let marked = annotated(scan.hits@, x.sites);
            assert(said_by(out.page.hits@)[i] == said(h));
            if x.aliased@.len() == 0 {
                assert(marked[i] == said(h));
                assert(marked.len() == said_by(out.page.hits@).len());
                let k = law_references_hold_the_name(index.rows(), name, from, limit, scan, i);
                assert(row_of(h) == row_of(scan.hits@[i]));
            } else {
                let fresh = fresh_aliases(x.aliased@, from);
                let full = choose|full: Seq<(CallRow, Option<bool>)>| #[trigger]
                    merges(full, marked, fresh) && crate::callers::is_merge_of(
                        out.page,
                        full,
                        limit,
                        scan.next_cursor is Some,
                    );
                let shown = full.take(crate::calls::least(full.len() as int, limit));
                assert(said_by(out.page.hits@).len() == shown.len());
                assert(shown[i] == full[i]);
                assert(full[i] == said(h));
                assert(full.contains(said(h)));
                assert((marked + fresh).to_multiset().count(said(h)) > 0);
                assert((marked + fresh).contains(said(h)));
                let at = (marked + fresh).index_of(said(h));
                if at < marked.len() {
                    assert(marked[at] == said(h));
                    let k = law_references_hold_the_name(index.rows(), name, from, limit, scan, at);
                    assert(row_of(h) == row_of(scan.hits@[at]));
                } else {
                    let b = at - marked.len();
                    assert(fresh[b] == said(h));
                    let c = lemma_filter_source(said_by(x.aliased@), later(from), b);
                    assert(said_by(x.aliased@)[c] == said(x.aliased@[c]));
                    assert(x.aliased@[c].hit.resolved == Some(true));
                    let rows = x.aliased@.map_values(|h: ScanHit| row_of(h));
                    assert(rows[c] == row_of(h));
                    let p = lemma_alias_source(proven, *index, name, c);
                    assert(proven[p].path == h.hit.path@ && proven[p].start == h.start);
                    assert(proven[p] == u);
                    assert(proven.contains(u));
                }
            }
        },
    }
}

// ─── Definitions ─────────────────────────────────────────────────────────────

/// The symbol that a request for callers means is the first of the file at the path that has the name
/// and, where one is asked for, the kind.
pub proof fn law_the_symbol_meant(files: Seq<MappedFile>, params: FindCallersParams, f: int, s: int)
    requires
        paths_ascend(files),
        0 <= f < files.len(),
        files[f].path@ == params.path@,
        0 <= s < files[f].map.symbols@.len(),
        files[f].map.symbols@[s].name@ == params.name@,
        params.kind is Some ==> kind_of(params.kind) == Some(files[f].map.symbols@[s].kind),
        forall|j: int|
            0 <= j < s && (#[trigger] files[f].map.symbols@[j]).name@ == params.name@ ==> params.kind
                is Some && kind_of(params.kind) is Some && kind_of(params.kind)->0
                != files[f].map.symbols@[j].kind,
    ensures
        meant_symbol(files, params) == Some(files[f].map.symbols@[s]),
{
    lemma_table_at(files, f);
    let symbols = files[f].map.symbols@;
    let kind = kind_of(params.kind);
    assert(is_first_named(symbols, params.name@, kind, s));
    let k = first_named(symbols, params.name@, kind)->0;
    assert(is_first_named(symbols, params.name@, kind, k));
    if k < s {
        assert(!is_named(symbols[k], params.name@, kind));
    } else if s < k {
        assert(!is_named(symbols[s], params.name@, kind));
    }
}

/// A request means no symbol where no file at the path has one of the name and kind.
pub proof fn law_no_symbol_meant(files: Seq<MappedFile>, params: FindCallersParams)
    requires
        paths_ascend(files),
        params.kind is Some ==> kind_of(params.kind) is Some,
        forall|f: int, s: int|
            0 <= f < files.len() && files[f].path@ == params.path@ && 0 <= s
                < files[f].map.symbols@.len() && (#[trigger] files[f].map.symbols@[s]).name@
                == params.name@ ==> params.kind is Some && kind_of(params.kind)->0
                != files[f].map.symbols@[s].kind,
    ensures
        meant_symbol(files, params) is None,
{
    if crate::model::holds_path(files, params.path@) {
        let f = crate::model::path_index(files, params.path@);
        assert(files[f].path@ == params.path@);
        lemma_table_at(files, f);
        let symbols = files[f].map.symbols@;
        let kind = kind_of(params.kind);
        if first_named(symbols, params.name@, kind) is Some {
            let k = first_named(symbols, params.name@, kind)->0;
            assert(is_first_named(symbols, params.name@, kind, k));
            assert(is_named(symbols[k], params.name@, kind));
            assert(files[f].map.symbols@[k].name@ == params.name@);
        }
    }
}

proof fn lemma_ident_end(source: Seq<u8>, at: int)
    requires
        0 <= at <= source.len(),
    ensures
        at <= ident_end(source, at) <= source.len(),
        forall|i: int| at <= i < ident_end(source, at) ==> is_ident_byte(#[trigger] source[i]),
        ident_end(source, at) < source.len() ==> !is_ident_byte(source[ident_end(source, at)]),
    decreases source.len() - at,
{
    if at < source.len() && is_ident_byte(source[at]) {
        lemma_ident_end(source, at + 1);
    }
}

/// A letter or digit of ASCII, an underscore, a dollar sign or a byte beyond ASCII.
pub open spec fn word_byte(b: u8) -> bool {
    ||| 0x30 <= b && b <= 0x39
    ||| 0x41 <= b && b <= 0x5a
    ||| 0x61 <= b && b <= 0x7a
    ||| b == 0x5f
    ||| b == 0x24
    ||| b >= 0x80
}

/// The identifier at a position is the whole run of word bytes from there: all its bytes are, and what
/// follows it, if anything does, is none.
pub proof fn law_identifiers_are_whole(source: Seq<u8>, at: int)
    requires
        0 <= at <= source.len(),
    ensures
        ({
            let word = identifier(source, at);
            &&& at + word.len() <= source.len()
            &&& forall|i: int| 0 <= i < word.len() ==> #[trigger] word[i] == source[at + i]
            &&& forall|i: int| 0 <= i < word.len() ==> word_byte(#[trigger] word[i])
            &&& at + word.len() < source.len() ==> !word_byte(source[at + word.len()])
        }),
{
    lemma_ident_end(source, at);
}

proof fn lemma_candidates(s: Seq<u32>, symbol: Symbol, source: Seq<u8>, b: u32)
    ensures
        candidates(s, symbol, source).contains(b) <==> s.contains(b) && names_symbol(
            b,
            symbol,
            source,
        ),
        candidates(s, symbol, source).no_duplicates(),
    decreases s.len(),
{
    if s.len() > 0 {
        let front = candidates(s.drop_last(), symbol, source);
        lemma_candidates(s.drop_last(), symbol, source, b);
        let all = candidates(s, symbol, source);
        if s.drop_last().contains(b) {
            assert(s[s.drop_last().index_of(b)] == b);
        }
        if s.contains(b) && b != s.last() {
            let k = s.index_of(b);
            assert(s.drop_last()[k] == b);
        }
        if s.last() == b {
            assert(s[s.len() - 1] == b);
        }
        if names_symbol(s.last(), symbol, source) && !front.contains(s.last()) {
            assert(all == front.push(s.last()));
            assert(all[front.len() as int] == s.last());
            if front.contains(b) {
                assert(all[front.index_of(b)] == b);
            }
            if all.contains(b) && b != s.last() {
                let k = all.index_of(b);
                assert(front[k] == b);
            }
            assert forall|i: int, j: int| 0 <= i < j < all.len() implies all[i] != all[j] by {
                if j == front.len() {
                    assert(all[i] == front[i]);
                }
            }
        }
    }
}

/// The places where a definition's name may stand: those that an edge within the file leads to, or at
/// which an export's name starts, and which lie in the definition and hold its name as a whole word. Each
/// stands in the list once.
pub proof fn law_definition_starts(
    symbol: Symbol,
    intra: Seq<ResolvedEdge>,
    exports: Seq<ExportEdge>,
    source: Seq<u8>,
    starts: Seq<u32>,
    b: u32,
)
    requires
        starts == candidates(placed(intra, exports), symbol, source),
    ensures
        starts.no_duplicates(),
        starts.contains(b) <==> {
            &&& (exists|e: int| 0 <= e < intra.len() && (#[trigger] intra[e]).def_start == b) || (exists|
                x: int,
            |
                0 <= x < exports.len() && (#[trigger] exports[x]).name_start == b)
            &&& symbol.start_byte <= b
            &&& b < symbol.end_byte
            &&& identifier(source, b as int) == encode_utf8(symbol.name@)
        },
{
    let s = placed(intra, exports);
    lemma_candidates(s, symbol, source, b);
    if s.contains(b) {
        let k = s.index_of(b);
        if k < intra.len() {
            assert(intra[k].def_start == b);
        } else {
            assert(exports[k - intra.len()].name_start == b);
        }
    }
    if exists|e: int| 0 <= e < intra.len() && (#[trigger] intra[e]).def_start == b {
        let e = choose|e: int| 0 <= e < intra.len() && (#[trigger] intra[e]).def_start == b;
        assert(s[e] == b);
    }
    if exists|x: int| 0 <= x < exports.len() && (#[trigger] exports[x]).name_start == b {
        let x = choose|x: int| 0 <= x < exports.len() && (#[trigger] exports[x]).name_start == b;
        assert(s[intra.len() + x] == b);
    }
}

// ─── Budgets ─────────────────────────────────────────────────────────────────

proof fn lemma_costs(sizes: Seq<u64>, n: int)
    requires
        0 <= n <= sizes.len(),
    ensures
        cost_of(sizes, n) == sizes.take(n).fold_left(0int, |sum: int, b: u64| sum + b as int / 4),
    decreases n,
{
    let f = |sum: int, b: u64| sum + b as int / 4;
    if n > 0 {
        lemma_costs(sizes, n - 1);
        assert(sizes.take(n).drop_last() =~= sizes.take(n - 1));
        assert(sizes.take(n).fold_left(0int, f) == f(
            sizes.take(n).drop_last().fold_left(0int, f),
            sizes.take(n).last(),
        ));
    }
}

/// A budget keeps the longest start of a list that it can pay for, at a token for four bytes of an item,
/// and always the first item. No budget keeps all.
pub proof fn law_budget_keeps_what_it_pays_for(sizes: Seq<u64>, max_tokens: Option<u32>, kept: int, n: int)
    requires
        is_kept_count(sizes, max_tokens, kept),
        0 <= n <= sizes.len(),
    ensures
        max_tokens is None ==> kept == sizes.len(),
        max_tokens is Some ==> (n <= kept <==> n <= 1 || sizes.take(n).fold_left(
            0int,
            |sum: int, b: u64| sum + b as int / 4,
        ) <= max_tokens->0),
{
    lemma_costs(sizes, n);
    if max_tokens is Some {
        if 2 <= n <= kept {
            crate::budget::lemma_cost_grows(sizes, n, kept);
        }
        if kept < n {
            crate::budget::lemma_cost_grows(sizes, kept + 1, n);
        }
    }
}

} // verus!
