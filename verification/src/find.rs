//! Finding references and callers: the answers of the two tools.
//!
//! Every call site whose callee holds the name is reported. Where the definition resolves, hits are
//! marked as proven or not, and call sites under another name are added; none is ever taken away.
use vstd::prelude::*;

use crate::budget::is_kept_count;
use crate::callers::{
    alias_row, alias_rows, budget_call_page, call_at, is_merged_page, is_refinement, is_use_order,
    merge_resolved, proven_upto, resolved_callers, site_at, use_key, uses_at, ResolvedCallers,
    UseAt, UseSite,
};
use crate::calls::{
    all_rows, are_refs_of, callee_holds, cursor_text, file_rows, is_index_of, is_ref_of,
    is_scan_page, matching, named, past, row_for, row_of, scan_calls, scan_cap, CallRef, CallRow,
    CallScanPage, FileCalls, InRamCallIndex, ScanHit,
};
use crate::cursor::{base64, Cursor};
use crate::keys::callee_fits;
use crate::grep::{SEARCH_LIMIT_DEFAULT, SEARCH_LIMIT_MAX};
use crate::memory_tools::{cursor_is, is_bad_cursor};
use crate::model::{
    file_table, kind_name, kind_to_str, lemma_table_at, locate, parse_kind, paths_ascend, Call,
    MappedFile, RelPath, Symbol, ToolError,
};
use crate::seqs::lemma_filter_holds;
use crate::sort::cursor_bytes;
use crate::syntax::{find_symbol, first_named};
use crate::text::{lemma_lex_irreflexive, lex_less, lower_of};
use crate::tools::kind_of;
use crate::walk::{bound, bounded};

verus! {

/// A request for references.
#[derive(Debug)]
pub struct FindReferencesParams {
    pub name: String,
    pub limit: Option<u32>,
    pub cursor: Option<Cursor>,
    pub max_tokens: Option<u32>,
}

/// The references that were found.
pub struct FindReferencesResponse {
    pub name: String,
    pub total: u32,
    pub total_is_partial: bool,
    /// Whether hits were left out to keep within the token budget.
    pub budgeted: bool,
    pub hits: Vec<ScanHit>,
    pub next_cursor: Option<Cursor>,
}

/// `page` is the scan for a name, resumed where the cursor says.
pub open spec fn is_name_scan(
    page: CallScanPage,
    calls: Option<&InRamCallIndex>,
    name: Seq<char>,
    cursor: Option<Seq<u8>>,
    limit: int,
) -> bool {
    is_scan_page(
        page,
        match calls {
            Some(index) => matching(index.rows(), name, cursor),
            None => Seq::empty(),
        },
        limit,
    )
}

/// Scan for the references to a name. `calls` is the call index, where there is one.
pub fn scan_references(calls: Option<&InRamCallIndex>, params: &FindReferencesParams) -> (r: Result<
    CallScanPage,
    ToolError,
>)
    requires
        calls is Some ==> calls->0.wf(),
    ensures
        match r {
            Ok(page) => exists|from: Option<Seq<u8>>| #[trigger]
                cursor_is(params.cursor, from) && is_name_scan(
                    page,
                    calls,
                    params.name@,
                    from,
                    bounded(params.limit, SEARCH_LIMIT_DEFAULT, SEARCH_LIMIT_MAX) as int,
                ),
            Err(e) => is_bad_cursor(params.cursor) && e is InvalidParams && e.text()
                == "invalid cursor"@,
        },
{
    let limit: usize = bound(params.limit, SEARCH_LIMIT_DEFAULT, SEARCH_LIMIT_MAX) as usize;
    let from = match &params.cursor {
        Some(c) => match c.decode_fjall() {
            Ok(k) => Some(k),
            Err(e) => {
                return Err(e);
            },
        },
        None => None,
    };
    let cursor = match &from {
        Some(k) => Some(k.as_slice()),
        None => None,
    };
    let page = scan_calls(calls, params.name.as_str(), limit, cursor);
    assert(cursor_is(params.cursor, cursor_bytes(cursor)));
    Ok(page)
}

/// The answer to a request for references: the page, cut to the token budget. `sizes` are the sizes
/// of its hits as they are sent.
pub fn run_find_references(params: &FindReferencesParams, page: CallScanPage, sizes: &[u64]) -> (out:
    FindReferencesResponse)
    requires
        sizes@.len() == page.hits@.len(),
    ensures
        out.name@ == params.name@,
        out.total == page.total,
        out.total_is_partial == page.total_is_partial,
        is_kept_count(sizes@, params.max_tokens, out.hits@.len() as int),
        out.hits@ == page.hits@.take(out.hits@.len() as int),
        out.budgeted == (out.hits@.len() < page.hits@.len()),
        if out.budgeted {
            cursor_text(out.next_cursor) == Some(base64(out.hits@.last().key@))
        } else {
            out.next_cursor == page.next_cursor
        },
{
    let total: u32 = page.total;
    let total_is_partial: bool = page.total_is_partial;
    let kept = budget_call_page(page, sizes, params.max_tokens);
    FindReferencesResponse {
        name: params.name.clone(),
        total,
        total_is_partial,
        budgeted: kept.budgeted,
        hits: kept.hits,
        next_cursor: kept.next_cursor,
    }
}

/// A request for callers.
#[derive(Debug)]
pub struct FindCallersParams {
    pub path: RelPath,
    pub name: String,
    pub kind: Option<String>,
    pub limit: Option<u32>,
    pub cursor: Option<Cursor>,
    pub max_tokens: Option<u32>,
}

/// The definition that callers were asked of.
#[derive(Debug)]
pub struct DefinitionView {
    pub path: RelPath,
    pub name: String,
    pub kind: &'static str,
    pub start_row: u32,
    pub start_col: u32,
}

/// The symbol that a request means: the first of the file with the name and kind.
pub open spec fn meant_symbol(files: Seq<MappedFile>, params: FindCallersParams) -> Option<Symbol> {
    let t = file_table(files);
    if t.contains_key(params.path@) {
        let symbols = t[params.path@].symbols@;
        match first_named(symbols, params.name@, kind_of(params.kind)) {
            Some(i) => Some(symbols[i]),
            None => None,
        }
    } else {
        None
    }
}

/// Find the definition that a request for callers means. A kind that does not exist is refused.
pub fn find_definition<'a>(files: &'a Vec<MappedFile>, params: &FindCallersParams) -> (r: Result<
    Option<&'a Symbol>,
    ToolError,
>)
    requires
        paths_ascend(files@),
    ensures
        match r {
            Ok(found) => {
                &&& params.kind is Some ==> kind_of(params.kind) is Some
                &&& match found {
                    Some(s) => meant_symbol(files@, *params) == Some(*s),
                    None => meant_symbol(files@, *params) is None,
                }
            },
            Err(e) => params.kind is Some && kind_of(params.kind) is None && e is InvalidParams
                && e.text() == "unknown symbol kind: "@ + lower_of(params.kind->0@),
        },
{
    let kind = match &params.kind {
        Some(k) => match parse_kind(k.as_str()) {
            Ok(x) => Some(x),
            Err(e) => {
                return Err(e);
            },
        },
        None => None,
    };
    let (at, found) = locate(files, &params.path);
    if !found {
        return Ok(None);
    }
    proof {
        lemma_table_at(files@, at as int);
    }
    match find_symbol(&files[at].map.symbols, params.name.as_str(), kind) {
        Some(i) => Ok(Some(&files[at].map.symbols[i])),
        None => Ok(None),
    }
}

/// The definition as the answer shows it.
pub fn definition_view(path: &RelPath, s: &Symbol) -> (v: DefinitionView)
    ensures
        v.path@ == path@,
        v.name@ == s.name@,
        v.kind@ == kind_name(s.kind),
        v.start_row == s.start_row,
        v.start_col == s.start_col,
{
    DefinitionView {
        path: path.copy(),
        name: s.name.clone(),
        kind: kind_to_str(s.kind),
        start_row: s.start_row,
        start_col: s.start_col,
    }
}

/// The callers of a definition, before the token budget.
pub struct CallersPage {
    /// How many call sites are proven.
    pub resolved_total: u32,
    pub page: CallScanPage,
}

/// `r` is what the uses prove about the name; nothing where they prove no call site.
pub open spec fn is_proof_of(
    r: Option<ResolvedCallers>,
    uses: Seq<UseSite>,
    index: InRamCallIndex,
    name: Seq<char>,
    limit: int,
) -> bool {
    exists|order: Seq<UseAt>| #[trigger]
        is_use_order(order, uses_at(uses)) && match r {
            Some(found) => is_refinement(found, order, index, name, limit) && found.total > 0,
            None => proven_upto(order, index, scan_cap(limit), order.len() as int).len() == 0,
        }
}

/// `out` refines the scan by what the uses of the definition prove.
pub open spec fn is_callers_page(
    out: CallersPage,
    calls: Option<&InRamCallIndex>,
    uses: Seq<UseSite>,
    name: Seq<char>,
    from: Option<Seq<u8>>,
    limit: int,
) -> bool {
    exists|scan: CallScanPage, r: Option<ResolvedCallers>|
        #![trigger is_merged_page(out.page, scan, r, limit, from)]
        is_name_scan(scan, calls, name, from, limit) && (match calls {
            Some(index) => is_proof_of(r, uses, *index, name, limit),
            None => r is None,
        }) && is_merged_page(out.page, scan, r, limit, from) && out.resolved_total == (match r {
            Some(x) => x.total,
            None => 0,
        })
}

/// Find the callers of a definition: the scan for its name, refined by the uses that resolve to it.
/// Without uses nothing is marked.
pub fn find_callers_page(
    calls: Option<&InRamCallIndex>,
    params: &FindCallersParams,
    uses: &[UseSite],
) -> (r: Result<CallersPage, ToolError>)
    requires
        calls is Some ==> calls->0.wf(),
        uses@.len() < u32::MAX,
    ensures
        match r {
            Ok(out) => exists|from: Option<Seq<u8>>| #[trigger]
                cursor_is(params.cursor, from) && is_callers_page(
                    out,
                    calls,
                    uses@,
                    params.name@,
                    from,
                    bounded(params.limit, SEARCH_LIMIT_DEFAULT, SEARCH_LIMIT_MAX) as int,
                ),
            Err(e) => is_bad_cursor(params.cursor) && e is InvalidParams && e.text()
                == "invalid cursor"@,
        },
{
    let limit: usize = bound(params.limit, SEARCH_LIMIT_DEFAULT, SEARCH_LIMIT_MAX) as usize;
    let from = match &params.cursor {
        Some(c) => match c.decode_fjall() {
            Ok(k) => Some(k),
            Err(e) => {
                return Err(e);
            },
        },
        None => None,
    };
    let cursor = match &from {
        Some(k) => Some(k.as_slice()),
        None => None,
    };
    let scan = scan_calls(calls, params.name.as_str(), limit, cursor);
    let resolved = match calls {
        Some(index) => resolved_callers(uses, index, params.name.as_str(), limit),
        None => None,
    };
    let resolved_total: u32 = match &resolved {
        Some(r) => r.total,
        None => 0,
    };
    let ghost scan0 = scan;
    let ghost resolved0 = resolved;
    proof {
        if calls is Some {
            assert(is_proof_of(resolved0, uses@, *calls->0, params.name@, limit as int));
        }
    }
    let page = merge_resolved(scan, resolved, limit, cursor);
    let out = CallersPage { resolved_total, page };
    proof {
        let after = cursor_bytes(cursor);
        assert(cursor_is(params.cursor, after));
        assert(is_merged_page(out.page, scan0, resolved0, limit as int, after));
        assert(is_callers_page(out, calls, uses@, params.name@, after, limit as int));
    }
    Ok(out)
}

/// The callers that were found.
pub struct FindCallersResponse {
    pub definition: Option<DefinitionView>,
    pub resolved_total: u32,
    pub total: u32,
    pub total_is_partial: bool,
    pub budgeted: bool,
    pub hits: Vec<ScanHit>,
    pub next_cursor: Option<Cursor>,
}

/// The answer to a request for callers: the page, cut to the token budget.
pub fn run_find_callers(
    params: &FindCallersParams,
    definition: Option<DefinitionView>,
    found: CallersPage,
    sizes: &[u64],
) -> (out: FindCallersResponse)
    requires
        sizes@.len() == found.page.hits@.len(),
    ensures
        out.definition == definition,
        out.resolved_total == found.resolved_total,
        out.total == found.page.total,
        out.total_is_partial == found.page.total_is_partial,
        is_kept_count(sizes@, params.max_tokens, out.hits@.len() as int),
        out.hits@ == found.page.hits@.take(out.hits@.len() as int),
        out.budgeted == (out.hits@.len() < found.page.hits@.len()),
        if out.budgeted {
            cursor_text(out.next_cursor) == Some(base64(out.hits@.last().key@))
        } else {
            out.next_cursor == found.page.next_cursor
        },
{
    let total: u32 = found.page.total;
    let total_is_partial: bool = found.page.total_is_partial;
    let kept = budget_call_page(found.page, sizes, params.max_tokens);
    FindCallersResponse {
        definition,
        resolved_total: found.resolved_total,
        total,
        total_is_partial,
        budgeted: kept.budgeted,
        hits: kept.hits,
        next_cursor: kept.next_cursor,
    }
}

/// Resolution never lowers the number of callers below what the scan of the name finds.
pub proof fn law_callers_never_fewer(
    out: CallScanPage,
    scan: CallScanPage,
    resolved: Option<ResolvedCallers>,
    limit: int,
    cursor: Option<Seq<u8>>,
)
    requires
        is_merged_page(out, scan, resolved, limit, cursor),
    ensures
        out.total >= scan.total,
        resolved is None ==> out == scan,
{
}

/// Every call of the files has a callee that a key can hold.
pub open spec fn all_fit(per_file: Seq<FileCalls>) -> bool {
    forall|i: int, j: int|
        0 <= i < per_file.len() && 0 <= j < per_file[i].calls@.len() ==> callee_fits(
            (#[trigger] per_file[i].calls@[j]).callee@,
        )
}

pub(crate) proof fn lemma_row_of_file(rel: Seq<u8>, calls: Seq<Call>, n: int, j: int)
    requires
        0 <= j < n <= calls.len(),
        callee_fits(calls[j].callee@),
    ensures
        file_rows(rel, calls, n).contains(row_for(rel, calls[j])),
    decreases n,
{
    let before = file_rows(rel, calls, n - 1);
    let after = file_rows(rel, calls, n);
    if j < n - 1 {
        lemma_row_of_file(rel, calls, n - 1, j);
        let k = before.index_of(row_for(rel, calls[j]));
        assert(after[k] == before[k]);
    } else {
        assert(after[before.len() as int] == row_for(rel, calls[j]));
    }
}

pub(crate) proof fn lemma_row_of_all(files: Seq<FileCalls>, n: int, i: int, row: CallRow)
    requires
        0 <= i < n <= files.len(),
        file_rows(files[i].rel@, files[i].calls@, files[i].calls@.len() as int).contains(row),
    ensures
        all_rows(files, n).contains(row),
    decreases n,
{
    let before = all_rows(files, n - 1);
    let mine = file_rows(
        files[n - 1].rel@,
        files[n - 1].calls@,
        files[n - 1].calls@.len() as int,
    );
    let after = all_rows(files, n);
    assert(after == before + mine);
    if i < n - 1 {
        lemma_row_of_all(files, n - 1, i, row);
        assert(after[before.index_of(row)] == row);
    } else {
        assert(after[before.len() + mine.index_of(row)] == row);
    }
}

pub(crate) proof fn lemma_call_at(calls: Seq<CallRef>, start: u32, n: int) -> (j: int)
    requires
        0 <= n <= calls.len(),
        call_at(calls, start, n) is Some,
    ensures
        0 <= j < n,
        calls[j] == call_at(calls, start, n)->0,
        calls[j].start_byte == start,
    decreases n,
{
    if calls[n - 1].start_byte == start {
        n - 1
    } else {
        lemma_call_at(calls, start, n - 1)
    }
}

/// A use that is a call site has its row in the index.
proof fn lemma_use_has_row(index: InRamCallIndex, per_file: Seq<FileCalls>, u: UseAt)
    requires
        is_index_of(index, per_file),
        all_fit(per_file),
        site_at(index, u) is Some,
    ensures
        index.rows().contains(alias_row(index, u)),
        callee_fits(site_at(index, u)->0.callee@),
{
    let refs = index.calls_of(u.path);
    let j = lemma_call_at(refs, u.start, refs.len() as int);
    assert(exists|i: int| 0 <= i < per_file.len() && (#[trigger] per_file[i]).rel@ == u.path);
    let i = choose|i: int| 0 <= i < per_file.len() && (#[trigger] per_file[i]).rel@ == u.path;
    let calls = per_file[i].calls@;
    assert(are_refs_of(index.calls_of(per_file[i].rel@), calls));
    assert(is_ref_of(refs[j], calls[j]));
    assert(callee_fits(per_file[i].calls@[j].callee@));
    lemma_row_of_file(u.path, calls, calls.len() as int, j);
    let row = row_for(u.path, calls[j]);
    assert(row == alias_row(index, u));
    lemma_row_of_all(per_file, per_file.len() as int, i, row);
    let all = all_rows(per_file, per_file.len() as int);
    all.to_multiset_ensures();
    index.rows().to_multiset_ensures();
    assert(all.to_multiset().contains(row));
    assert(index.rows().to_multiset().contains(row));
}

/// The rows of the proven uses whose callee holds the name.
spec fn seen_rows(proven: Seq<UseAt>, index: InRamCallIndex, name: Seq<char>) -> Seq<CallRow>
    decreases proven.len(),
{
    if proven.len() == 0 {
        Seq::empty()
    } else {
        let front = seen_rows(proven.drop_last(), index, name);
        let u = proven.last();
        if callee_holds(site_at(index, u)->0.callee@, name) {
            front.push(alias_row(index, u))
        } else {
            front
        }
    }
}

/// Each proven use is seen by the scan of the name, or is reported as renamed.
proof fn lemma_seen_or_renamed(
    proven: Seq<UseAt>,
    index: InRamCallIndex,
    per_file: Seq<FileCalls>,
    name: Seq<char>,
)
    requires
        is_index_of(index, per_file),
        all_fit(per_file),
        forall|i: int| 0 <= i < proven.len() ==> site_at(index, #[trigger] proven[i]) is Some,
        proven.no_duplicates(),
    ensures
        proven.len() == seen_rows(proven, index, name).len() + alias_rows(proven, index, name).len(),
        seen_rows(proven, index, name).no_duplicates(),
        forall|k: int|
            0 <= k < seen_rows(proven, index, name).len() ==> {
                let row = #[trigger] seen_rows(proven, index, name)[k];
                &&& index.rows().contains(row)
                &&& callee_holds(row.callee, name)
                &&& proven.contains(UseAt { path: row.rel, start: row.start })
            },
    decreases proven.len(),
{
    if proven.len() > 0 {
        let front = proven.drop_last();
        let u = proven.last();
        assert(site_at(index, proven[proven.len() - 1]) is Some);
        assert forall|i: int| 0 <= i < front.len() implies site_at(index, #[trigger] front[i])
            is Some by {
            assert(site_at(index, proven[i]) is Some);
        }
        lemma_seen_or_renamed(front, index, per_file, name);
        lemma_use_has_row(index, per_file, u);
        let before = seen_rows(front, index, name);
        let after = seen_rows(proven, index, name);
        assert forall|k: int| 0 <= k < after.len() implies {
            let row = #[trigger] after[k];
            &&& index.rows().contains(row)
            &&& callee_holds(row.callee, name)
            &&& proven.contains(UseAt { path: row.rel, start: row.start })
        } by {
            let row = after[k];
            if k < before.len() {
                assert(row == before[k]);
                let i = front.index_of(UseAt { path: row.rel, start: row.start });
                assert(proven[i] == front[i]);
            } else {
                assert(row == alias_row(index, u));
                assert(proven[proven.len() - 1] == u);
            }
        }
        assert(after.no_duplicates()) by {
            assert forall|i: int, j: int|
                0 <= i < after.len() && 0 <= j < after.len() && i != j implies after[i]
                != after[j] by {
                if i < before.len() && j < before.len() {
                } else {
                    let k = if i < before.len() {
                        i
                    } else {
                        j
                    };
                    let row = before[k];
                    let at = front.index_of(UseAt { path: row.rel, start: row.start });
                    assert(front[at] == proven[at]);
                    assert(proven[at] != proven[proven.len() - 1]);
                }
            }
        }
    }
}

proof fn lemma_proven(order: Seq<UseAt>, index: InRamCallIndex, cap: int, n: int)
    requires
        0 <= n <= order.len(),
        forall|i: int, j: int| 0 <= i < j < order.len() ==> order[i] != order[j],
    ensures
        proven_upto(order, index, cap, n).no_duplicates(),
        forall|k: int|
            0 <= k < proven_upto(order, index, cap, n).len() ==> site_at(
                index,
                #[trigger] proven_upto(order, index, cap, n)[k],
            ) is Some && exists|i: int| 0 <= i < n && order[i] == proven_upto(order, index, cap, n)[k],
    decreases n,
{
    if n > 0 {
        lemma_proven(order, index, cap, n - 1);
        let before = proven_upto(order, index, cap, n - 1);
        let after = proven_upto(order, index, cap, n);
        assert forall|k: int| 0 <= k < after.len() implies site_at(index, #[trigger] after[k])
            is Some && exists|i: int| 0 <= i < n && order[i] == after[k] by {
            if k < before.len() {
                assert(after[k] == before[k]);
                let i = choose|i: int| 0 <= i < n - 1 && order[i] == before[k];
                assert(order[i] == after[k]);
            } else {
                assert(order[n - 1] == after[k]);
            }
        }
        assert(after.no_duplicates()) by {
            assert forall|i: int, j: int|
                0 <= i < after.len() && 0 <= j < after.len() && i != j implies after[i]
                != after[j] by {
                if i < before.len() && j < before.len() {
                } else {
                    let k = if i < before.len() {
                        i
                    } else {
                        j
                    };
                    assert(after[k] == before[k]);
                    let x = choose|x: int| 0 <= x < n - 1 && order[x] == before[k];
                    assert(order[x] != order[n - 1]);
                }
            }
        }
    }
}

/// A list without repetition whose members are all in another is no longer than that.
proof fn lemma_no_longer(a: Seq<CallRow>, b: Seq<CallRow>)
    requires
        a.no_duplicates(),
        forall|i: int| 0 <= i < a.len() ==> b.contains(#[trigger] a[i]),
    ensures
        a.len() <= b.len(),
    decreases a.len(),
{
    if a.len() > 0 {
        let x = a.last();
        assert(b.contains(a[a.len() - 1]));
        let at = b.index_of(x);
        let rest = b.remove(at);
        let front = a.drop_last();
        assert forall|i: int| 0 <= i < front.len() implies rest.contains(#[trigger] front[i]) by {
            assert(b.contains(a[i]));
            assert(a[i] != a[a.len() - 1]);
            let k = b.index_of(a[i]);
            if k < at {
                assert(rest[k] == a[i]);
            } else {
                assert(rest[k - 1] == a[i]);
            }
        }
        lemma_no_longer(front, rest);
    }
}

/// What resolution proves is part of the answer: where the scan counted every call site of the name
/// and no callee is too long for a key, no more callers are proven than there are in all. The total
/// is that of the scan, but for the call sites under another name that resolution proves.
pub proof fn law_proven_callers_are_counted(
    out: CallersPage,
    index: &InRamCallIndex,
    per_file: Seq<FileCalls>,
    uses: Seq<UseSite>,
    name: Seq<char>,
    limit: int,
)
    requires
        is_index_of(*index, per_file),
        all_fit(per_file),
        is_callers_page(out, Some(index), uses, name, None, limit),
        !out.page.total_is_partial,
    ensures
        out.resolved_total <= out.page.total,
        out.page.total >= matching(index.rows(), name, None).len(),
        (forall|u: UseAt|
            #[trigger] uses_at(uses).contains(u) && site_at(*index, u) is Some ==> callee_holds(
                site_at(*index, u)->0.callee@,
                name,
            )) ==> out.page.total == matching(index.rows(), name, None).len(),
{
    let (scan, r) = choose|scan: CallScanPage, r: Option<ResolvedCallers>|
        #![trigger is_merged_page(out.page, scan, r, limit, None)]
        is_name_scan(scan, Some(index), name, None, limit) && is_proof_of(
            r,
            uses,
            *index,
            name,
            limit,
        ) && is_merged_page(out.page, scan, r, limit, None) && out.resolved_total == (match r {
            Some(x) => x.total,
            None => 0,
        });
    let found = matching(index.rows(), name, None);
    if let Some(x) = r {
        let order = choose|order: Seq<UseAt>| #[trigger]
            is_use_order(order, uses_at(uses)) && is_refinement(x, order, *index, name, limit)
                && x.total > 0;
        let proven = proven_upto(order, *index, scan_cap(limit), order.len() as int);
        assert forall|i: int, j: int| 0 <= i < j < order.len() implies order[i] != order[j] by {
            assert(lex_less(use_key(order[i]), use_key(order[j])));
            lemma_lex_irreflexive(use_key(order[i]));
        }
        lemma_proven(order, *index, scan_cap(limit), order.len() as int);
        lemma_seen_or_renamed(proven, *index, per_file, name);
        let seen = seen_rows(proven, *index, name);
        assert forall|k: int| 0 <= k < seen.len() implies found.contains(#[trigger] seen[k]) by {
            let row = seen[k];
            let rows = index.rows();
            let i = rows.index_of(row);
            lemma_filter_holds(rows, past(None), i);
            let late = rows.filter(past(None));
            let j = choose|j: int| 0 <= j < late.len() && #[trigger] late[j] == rows[i];
            lemma_filter_holds(late, named(name), j);
        }
        lemma_no_longer(seen, found);
        assert(x.aliased@.map_values(|h: ScanHit| row_of(h)).len() == x.aliased@.len());
        if forall|u: UseAt|
            #[trigger] uses_at(uses).contains(u) && site_at(*index, u) is Some ==> callee_holds(
                site_at(*index, u)->0.callee@,
                name,
            ) {
            lemma_none_renamed(proven, order, uses, *index, name);
        }
    }
}

proof fn lemma_none_renamed(
    proven: Seq<UseAt>,
    order: Seq<UseAt>,
    uses: Seq<UseSite>,
    index: InRamCallIndex,
    name: Seq<char>,
)
    requires
        is_use_order(order, uses_at(uses)),
        forall|k: int|
            0 <= k < proven.len() ==> site_at(index, #[trigger] proven[k]) is Some && exists|i: int|
                0 <= i < order.len() && order[i] == proven[k],
        forall|u: UseAt|
            #[trigger] uses_at(uses).contains(u) && site_at(index, u) is Some ==> callee_holds(
                site_at(index, u)->0.callee@,
                name,
            ),
    ensures
        alias_rows(proven, index, name).len() == 0,
    decreases proven.len(),
{
    if proven.len() > 0 {
        let front = proven.drop_last();
        assert forall|k: int| 0 <= k < front.len() implies site_at(index, #[trigger] front[k])
            is Some && exists|i: int| 0 <= i < order.len() && order[i] == front[k] by {
            assert(proven[k] == front[k]);
        }
        lemma_none_renamed(front, order, uses, index, name);
        let u = proven[proven.len() - 1];
        let i = choose|i: int| 0 <= i < order.len() && order[i] == u;
        assert(order.contains(u));
        assert(uses_at(uses).contains(u));
    }
}

} // verus!
