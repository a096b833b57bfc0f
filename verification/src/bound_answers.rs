//! How long answers get, who is joined again, and what reasons say.
use vstd::prelude::*;

use crate::audit::{
    file_reason, file_reasons, present_hash, symbol_reason, symbol_reasons, verdict_reasons,
    CodeState,
};
use crate::binding_answers::imports_at_run_time;
use crate::calls::{cursor_text, CallScanPage};
use crate::cursor::base64;
use crate::find::{run_find_references, FindReferencesParams, FindReferencesResponse};
use crate::governance::{is_tier_audit, MemoryAuditResponse};
use crate::keyspace::Row;
use crate::lean::{defines, WrapperDefinition, WrapperTool};
use crate::memory::{shows_page, MemoryRecord, SymbolRef, WireMemoryEntry};
use crate::memory_answers::{finds, mapped};
use crate::model::{paths_ascend, ToolError};
use crate::navigate::lossy_text;
use crate::proposal_ops::{is_proposal_row, listed_upto, proposal_row, rows_at, walked};
use crate::proposals::ProposalRecord;
use crate::restitch::{
    affected, candidates_wf, imports_file, is_entry, is_part, is_plan, moved, parts_upto, supplies,
    takes_part, touched, CandidateFile, RestitchPlan,
};
use crate::shells::{check_broadcast, is_reachable, NamedSession};
use crate::text::is_space;
use crate::web::{is_refused, may_index, FetchedPage, WebCrawlPageOutcome};

verus! {

// ─── How long answers get ────────────────────────────────────────────────────

/// A page of memories has no more entries than asked for; one that is cut short has just so many, and one that is not has no cursor.
pub proof fn law_memory_pages(
    entries: Seq<WireMemoryEntry>,
    truncated: bool,
    next_cursor: Option<Vec<u8>>,
    found: Seq<Row<MemoryRecord>>,
    limit: int,
)
    requires
        0 <= limit,
        shows_page(entries, truncated, next_cursor, found, limit),
    ensures
        entries.len() <= limit,
        truncated ==> entries.len() == limit,
        !truncated ==> next_cursor is None,
        truncated && limit > 0 ==> next_cursor is Some && next_cursor->0@ == found[limit - 1].key@,
{
}

/// An audit of a tier reports on no more memories than asked for.
pub proof fn law_audits_are_bounded(
    before: crate::memory::IndexDb,
    after: crate::memory::IndexDb,
    code: CodeState,
    prefix: Seq<u8>,
    archived: bool,
    dry_run: bool,
    limit: int,
    now: i64,
    out: MemoryAuditResponse,
)
    requires
        0 <= limit,
        is_tier_audit(before, after, code, prefix, archived, dry_run, limit, now, out),
    ensures
        out.results@.len() <= limit,
{
}

proof fn lemma_walked(rows: Seq<Row<ProposalRecord>>, room: int, cap: int)
    requires
        0 <= room,
    ensures
        0 <= walked(rows, room, cap) <= rows.len(),
        rows.take(walked(rows, room, cap)).filter(proposal_row()).len() <= room,
        walked(rows, room, cap) <= cap || walked(rows, room, cap) == 0,
    decreases rows.len(),
{
    let n = walked(rows, room, cap);
    if rows.len() == 0 || room <= 0 || cap <= 0 {
        assert(rows.take(0) =~= Seq::empty());
        reveal(Seq::filter);
    } else {
        let rest = rows.drop_first();
        let left = if is_proposal_row(rows[0]) {
            room - 1
        } else {
            room
        };
        lemma_walked(rest, left, cap - 1);
        let m = walked(rest, left, cap - 1);
        let p = proposal_row();
        assert(rows.take(n) =~= seq![rows[0]] + rest.take(m));
        Seq::filter_distributes_over_add(seq![rows[0]], rest.take(m), p);
        crate::seqs::lemma_filter_push(Seq::empty(), rows[0], p);
        assert(Seq::<Row<ProposalRecord>>::empty().push(rows[0]) =~= seq![rows[0]]);
        assert(Seq::<Row<ProposalRecord>>::empty().filter(p).len() == 0) by {
            reveal(Seq::filter);
        }
    }
}

/// A listing shows no more proposals than asked for.
pub proof fn law_proposal_pages_are_bounded(
    rows: Seq<Row<ProposalRecord>>,
    scope: Seq<char>,
    kinds: Seq<u8>,
    limit: int,
    cap: int,
    cursor: Option<Seq<u8>>,
    n: int,
)
    requires
        0 <= limit,
    ensures
        listed_upto(rows, scope, kinds, limit, cap, cursor, n).found.len() <= limit,
    decreases n,
{
    if n > 0 {
        law_proposal_pages_are_bounded(rows, scope, kinds, limit, cap, cursor, n - 1);
        let before = listed_upto(rows, scope, kinds, limit, cap, cursor, n - 1);
        lemma_walked(
            rows_at(rows, scope, kinds, cursor, n - 1),
            limit - before.found.len(),
            cap,
        );
    }
}

/// References that a budget cuts go on after the last one shown: the hits are the first of the page, and the cursor is at the last of
/// them; where nothing was cut the cursor is that of the page.
pub proof fn law_budgeted_references(
    params: &FindReferencesParams,
    page: CallScanPage,
    sizes: &[u64],
    out: FindReferencesResponse,
)
    requires
        sizes@.len() == page.hits@.len(),
        call_ensures(run_find_references, (params, page, sizes), out),
    ensures
        out.hits@.len() <= page.hits@.len(),
        forall|i: int| 0 <= i < out.hits@.len() ==> #[trigger] out.hits@[i] == page.hits@[i],
        out.budgeted <==> out.hits@.len() < page.hits@.len(),
        params.max_tokens is None ==> !out.budgeted,
        page.hits@.len() > 0 ==> out.hits@.len() > 0,
        out.budgeted ==> cursor_text(out.next_cursor) == Some(base64(out.hits@[out.hits@.len() - 1].key@)),
        !out.budgeted ==> out.next_cursor == page.next_cursor,
        out.total == page.total && out.total_is_partial == page.total_is_partial,
{
}

// ─── Joining again ───────────────────────────────────────────────────────────

/// The file takes part in joining: it can be resolved, and imports or exports something.
pub open spec fn has_facts(f: CandidateFile) -> bool {
    f.resolvable && (f.file.imports@.len() > 0 || f.file.exports@.len() > 0)
}

/// The file has to be joined again: it can be resolved and changed, or has facts and imports at run time a file that can be resolved and
/// changed.
pub open spec fn is_hit(c: Seq<CandidateFile>, changed: Set<Seq<char>>, a: int) -> bool {
    ||| c[a].resolvable && changed.contains(c[a].file.key@)
    ||| has_facts(c[a]) && exists|b: int|
        0 <= b < c.len() && c[b].resolvable && changed.contains(c[b].file.key@)
            && #[trigger] imports_at_run_time(c, a, b)
}

pub(crate) proof fn lemma_hit(c: Seq<CandidateFile>, changed: Set<Seq<char>>, a: int)
    ensures
        is_hit(c, changed, a) <==> affected(c, changed, a),
{
    assert forall|b: int| imports_at_run_time(c, a, b) <==> #[trigger] imports_file(c, a, b) by {
        crate::binding_answers::lemma_imports(c, a, b);
    }
    if is_hit(c, changed, a) && !moved(c, changed, a) {
        let b = choose|b: int|
            0 <= b < c.len() && c[b].resolvable && changed.contains(c[b].file.key@)
                && #[trigger] imports_at_run_time(c, a, b);
        assert(imports_file(c, a, b));
        assert(moved(c, changed, b));
    }
    if touched(c, changed, a) {
        let b = choose|b: int|
            0 <= b < c.len() && moved(c, changed, b) && #[trigger] imports_file(c, a, b);
        assert(imports_at_run_time(c, a, b));
    }
}

pub(crate) proof fn lemma_parts(c: Seq<CandidateFile>, changed: Set<Seq<char>>, n: int, k: int)
    requires
        0 <= n <= c.len(),
        0 <= k < parts_upto(c, changed, n).len(),
    ensures
        0 <= parts_upto(c, changed, n)[k] < n,
        takes_part(c, changed, parts_upto(c, changed, n)[k]),
    decreases n,
{
    if k < parts_upto(c, changed, n - 1).len() {
        lemma_parts(c, changed, n - 1, k);
    }
}

proof fn lemma_part_kept(c: Seq<CandidateFile>, changed: Set<Seq<char>>, n: int, a: int) -> (k: int)
    requires
        0 <= a < n <= c.len(),
        takes_part(c, changed, a),
    ensures
        0 <= k < parts_upto(c, changed, n).len(),
        parts_upto(c, changed, n)[k] == a,
    decreases n,
{
    if a == n - 1 {
        parts_upto(c, changed, n - 1).len() as int
    } else {
        lemma_part_kept(c, changed, n - 1, a)
    }
}

/// A file is handed to the join exactly when it has facts, and has to be joined again or is imported at run time by a file with facts that
/// has to.
pub proof fn law_who_is_joined_again(
    plan: RestitchPlan,
    c: Seq<CandidateFile>,
    changed: Set<Seq<char>>,
    a: int,
)
    requires
        candidates_wf(c),
        is_plan(plan, c, changed),
        0 <= a < c.len(),
    ensures
        (exists|k: int| 0 <= k < plan.stitch@.len() && (#[trigger] plan.stitch@[k]).key@ == c[a].file.key@) <==> {
            &&& has_facts(c[a])
            &&& is_hit(c, changed, a) || exists|b: int|
                0 <= b < c.len() && has_facts(c[b]) && is_hit(c, changed, b)
                    && #[trigger] imports_at_run_time(c, b, a)
        },
{
    let n = c.len() as int;
    let parts = parts_upto(c, changed, n);
    lemma_hit(c, changed, a);
    assert forall|b: int| imports_at_run_time(c, b, a) <==> #[trigger] imports_file(c, b, a) by {
        crate::binding_answers::lemma_imports(c, b, a);
    }
    if exists|k: int| 0 <= k < plan.stitch@.len() && (#[trigger] plan.stitch@[k]).key@ == c[a].file.key@ {
        let k = choose|k: int|
            0 <= k < plan.stitch@.len() && (#[trigger] plan.stitch@[k]).key@ == c[a].file.key@;
        lemma_parts(c, changed, n, k);
        let i = parts[k];
        assert(is_part(plan.stitch@[k], c[i].file, affected(c, changed, i)));
        assert(i == a) by {
            if i < a {
                assert(c[i].file.key@ != c[a].file.key@);
            } else if a < i {
                assert(c[a].file.key@ != c[i].file.key@);
            }
        }
        if !affected(c, changed, a) {
            assert(supplies(c, changed, a));
            let b = choose|b: int|
                0 <= b < c.len() && is_entry(c[b]) && affected(c, changed, b) && #[trigger] imports_file(
                    c,
                    b,
                    a,
                );
            lemma_hit(c, changed, b);
            assert(imports_at_run_time(c, b, a));
        }
    }
    if has_facts(c[a]) && (is_hit(c, changed, a) || exists|b: int|
        0 <= b < c.len() && has_facts(c[b]) && is_hit(c, changed, b)
            && #[trigger] imports_at_run_time(c, b, a)) {
        if !is_hit(c, changed, a) {
            let b = choose|b: int|
                0 <= b < c.len() && has_facts(c[b]) && is_hit(c, changed, b)
                    && #[trigger] imports_at_run_time(c, b, a);
            lemma_hit(c, changed, b);
            assert(imports_file(c, b, a));
            assert(supplies(c, changed, a));
        }
        let k = lemma_part_kept(c, changed, n, a);
        assert(is_part(plan.stitch@[k], c[a].file, affected(c, changed, a)));
    }
}

// ─── Reasons ─────────────────────────────────────────────────────────────────

proof fn lemma_file_says(code: CodeState, files: Seq<crate::model::RelPath>, n: int, i: int)
    requires
        0 <= i < n <= files.len(),
        file_reason(code, files[i]@) is Some,
    ensures
        file_reasons(code, files, n).contains(file_reason(code, files[i]@)->0),
    decreases n,
{
    let front = file_reasons(code, files, n - 1);
    let all = file_reasons(code, files, n);
    let t = file_reason(code, files[i]@)->0;
    if i == n - 1 {
        assert(all[front.len() as int] == t);
    } else {
        lemma_file_says(code, files, n - 1, i);
        assert(all[front.index_of(t)] == t);
    }
}

proof fn lemma_symbol_says(code: CodeState, refs: Seq<SymbolRef>, n: int, i: int)
    requires
        0 <= i < n <= refs.len(),
        symbol_reason(code, refs[i]) is Some,
    ensures
        symbol_reasons(code, refs, n).contains(symbol_reason(code, refs[i])->0),
    decreases n,
{
    let front = symbol_reasons(code, refs, n - 1);
    let all = symbol_reasons(code, refs, n);
    let t = symbol_reason(code, refs[i])->0;
    if i == n - 1 {
        assert(all[front.len() as int] == t);
    } else {
        lemma_symbol_says(code, refs, n - 1, i);
        assert(all[front.index_of(t)] == t);
    }
}

/// A verdict names every file that is gone.
pub proof fn law_gone_files_are_named(code: CodeState, r: MemoryRecord, i: int)
    requires
        0 <= i < r.provenance.files@.len(),
        !mapped(code.files@, r.provenance.files@[i]@),
    ensures
        verdict_reasons(code, r).contains("file deleted: "@ + lossy_text(r.provenance.files@[i]@)),
{
    let files = r.provenance.files@;
    let t = "file deleted: "@ + lossy_text(files[i]@);
    assert(file_reason(code, files[i]@) == Some(t));
    lemma_file_says(code, files, files.len() as int, i);
    let a = file_reasons(code, files, files.len() as int);
    let all = verdict_reasons(code, r);
    assert(all[a.index_of(t)] == t);
}

/// A verdict names every symbol that is not found in its file any more, and every one whose body has changed.
pub proof fn law_lost_symbols_are_named(code: CodeState, r: MemoryRecord, i: int, f: int)
    requires
        paths_ascend(code.files@),
        0 <= i < r.provenance.symbols@.len(),
        0 <= f < code.files@.len(),
        code.files@[f].path@ == r.provenance.symbols@[i].path@,
    ensures
        (forall|s: int| !#[trigger] finds(code.files@, r.provenance.symbols@[i], f, s)) ==> verdict_reasons(
            code,
            r,
        ).contains("symbol not found: "@ + r.provenance.symbols@[i].name@),
        (exists|s: int| #[trigger] finds(code.files@, r.provenance.symbols@[i], f, s))
            && r.provenance.symbols@[i].structural_hash is Some && present_hash(
            code,
            code.files@[f].map,
            r.provenance.symbols@[i],
        ) is Some && present_hash(code, code.files@[f].map, r.provenance.symbols@[i])->0
            != r.provenance.symbols@[i].structural_hash->0@ ==> verdict_reasons(code, r).contains(
            "symbol body changed: "@ + r.provenance.symbols@[i].name@,
        ),
{
    let refs = r.provenance.symbols@;
    let x = refs[i];
    crate::model::lemma_table_at(code.files@, f);
    let symbols = code.files@[f].map.symbols@;
    if forall|s: int| !#[trigger] finds(code.files@, x, f, s) {
        assert forall|s: int| 0 <= s < symbols.len() implies !crate::audit::answers(#[trigger] symbols[s], x) by {
            assert(!finds(code.files@, x, f, s));
        }
        assert(symbol_reason(code, x) == Some("symbol not found: "@ + x.name@));
    }
    if exists|s: int| #[trigger] finds(code.files@, x, f, s) {
        let s = choose|s: int| #[trigger] finds(code.files@, x, f, s);
        assert(crate::audit::answers(symbols[s], x));
        assert(crate::audit::has_symbol(symbols, x));
    }
    if symbol_reason(code, x) is Some {
        let t = symbol_reason(code, x)->0;
        lemma_symbol_says(code, refs, refs.len() as int, i);
        let a = file_reasons(code, r.provenance.files@, r.provenance.files@.len() as int);
        let b = symbol_reasons(code, refs, refs.len() as int);
        let all = verdict_reasons(code, r);
        assert(all[a.len() + b.index_of(t)] == t);
    }
}

// ─── Small decisions ─────────────────────────────────────────────────────────

/// A broadcast goes out exactly when it names a session, and each that it names is known and has an id that is more than white space.
pub proof fn law_broadcasts(sessions: &Vec<NamedSession>, r: Result<(), ToolError>)
    requires
        call_ensures(check_broadcast, (sessions,), r),
    ensures
        r is Ok <==> sessions@.len() > 0 && forall|i: int|
            0 <= i < sessions@.len() ==> (#[trigger] sessions@[i]).known && exists|c: int|
                0 <= c < sessions@[i].raw@.len() && !is_space(#[trigger] sessions@[i].raw@[c]),
{
    assert forall|i: int| 0 <= i < sessions@.len() implies (is_reachable(#[trigger] sessions@[i]) <==> (
    sessions@[i].known && exists|c: int|
        0 <= c < sessions@[i].raw@.len() && !is_space(#[trigger] sessions@[i].raw@[c]))) by {
        crate::service_answers::law_reachable_sessions(sessions@[i]);
    }
}

/// The tool that runs others is advertised as one that may do anything, and the two that look things up as read-only.
pub proof fn law_advertised_tools(d: WrapperDefinition, t: WrapperTool)
    requires
        defines(d, t),
    ensures
        d.read_only <==> d.name@ == "list_tools"@ || d.name@ == "get_tool_schema"@,
        d.open_world <==> d.name@ == "invoke_tool"@,
        d.name@ == "list_tools"@ ==> d.fields@.len() == 0,
{
    reveal_strlit("list_tools");
    reveal_strlit("get_tool_schema");
    reveal_strlit("invoke_tool");
    assert("list_tools"@[0] == 'l' && "get_tool_schema"@[0] == 'g' && "invoke_tool"@[0] == 'i');
    assert(crate::lean::field_facts(d.fields@).len() == d.fields@.len());
}

/// A page that is refused is reported with its own URL and status, as not indexed, and with an error.
pub proof fn law_refused_pages(o: WebCrawlPageOutcome, p: FetchedPage)
    requires
        is_refused(o, p),
        !(p.check is Allowed),
    ensures
        o.url@ == p.url@ && o.status_code == p.status_code,
        !o.indexed && o.chunks_indexed == 0,
        o.error is Some,
        !may_index(p),
{
}

} // verus!
