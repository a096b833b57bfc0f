//! Facts of files, stored calls, renamed callers, and the smaller decisions around them.
use vstd::prelude::*;
use vstd::utf8::encode_utf8;

use crate::answers::{lemma_filter_place, lemma_filter_source, lemma_part_of, part_of};
use crate::audit::{verdict_state, CodeState};
use crate::call_answers::{is_used_call, lemma_proven_is_used};
use crate::callers::{
    alias_row, alias_rows, annotated, call_at, fresh_aliases, is_alias, is_merge_of, is_merged_page,
    is_refinement, is_use_order, later, merges, proven_upto, said, said_by, site_at, uses_at,
    ResolvedCallers, UseAt, UseSite,
};
use crate::calls::{named, row_of, scan_cap, CallRow, CallScanPage, InRamCallIndex, ScanHit};
use crate::find::{is_callers_page, is_name_scan, is_proof_of, CallersPage};
use crate::governance::{
    archives, is_key_audit, left, shelves, tier_byte, tier_owner, written, MemoryAuditResponse,
};
use crate::keys::{call_key, law_call_key_injective};
use crate::lang::{asks_offline, class_of, combined_text, section_or_nothing, CaptureClass};
use crate::lenient::{
    is_member, property_names, required_names, texts_among, SchemaEntry, SchemaNode,
};
use crate::memory::{is_put, IndexDb, VerifyState, Visibility};
use crate::memory_tools::{is_memory_key_for, ProposalAcceptParams};
use crate::numbers::number_of;
use crate::resolution::{FileResolvedRefs, ResolvedEdge};
use crate::stackgraph::has_tsg_ruleset;
use crate::stitch::{
    binds_at, harvest_cross_file_facts, import_bound_edges, joins, leads_to_import,
    to_repo_relative, KeyedFacts, ResolvedFile,
};
use crate::stored_calls::{is_key_of, row_read, rows_read, scan_calls_by_name, StoredCall};
use crate::tags::is_capture_byte;
use crate::text::{decimal, is_blank, texts};
use crate::web::{page_outcome, IndexEnd, WebCrawlPageOutcome};

verus! {

// ─── Facts of files ──────────────────────────────────────────────────────────

/// Of the edges within a file, those are kept that lead to where one of its imports is bound: all of them, and no others.
pub proof fn law_import_bound_edges(refs: &FileResolvedRefs, edges: Vec<ResolvedEdge>, e: ResolvedEdge)
    requires
        call_ensures(import_bound_edges, (refs,), edges),
    ensures
        edges@.contains(e) <==> refs.intra@.contains(e) && exists|i: int|
            0 <= i < refs.imports@.len() && (#[trigger] refs.imports@[i]).local_start == e.def_start,
        edges@.len() <= refs.intra@.len(),
{
    let p = leads_to_import(refs.imports@);
    crate::seqs::lemma_filter_fits(refs.intra@, p);
    if edges@.contains(e) {
        let k = lemma_filter_source(refs.intra@, p, edges@.index_of(e));
        assert(refs.intra@[k] == e);
    }
    if refs.intra@.contains(e) && exists|i: int|
        0 <= i < refs.imports@.len() && (#[trigger] refs.imports@[i]).local_start == e.def_start {
        assert(binds_at(refs.imports@, e.def_start));
        let k = lemma_filter_place(refs.intra@, p, refs.intra@.index_of(e));
        assert(edges@[k] == e);
    }
}

/// A file gives facts to a join exactly when it imports or exports something.
pub proof fn law_harvest(files: &Vec<ResolvedFile>, out: Vec<KeyedFacts>, f: int)
    requires
        call_ensures(harvest_cross_file_facts, (files,), out),
        forall|a: int, b: int|
            0 <= a < b < files@.len() ==> (#[trigger] files@[a]).key@ != (#[trigger] files@[b]).key@,
        0 <= f < files@.len(),
    ensures
        (exists|k: int| 0 <= k < out@.len() && (#[trigger] out@[k]).key@ == files@[f].key@) <==> (
        files@[f].refs.imports@.len() > 0 || files@[f].refs.exports@.len() > 0),
{
    let p = joins();
    if exists|k: int| 0 <= k < out@.len() && (#[trigger] out@[k]).key@ == files@[f].key@ {
        let k = choose|k: int| 0 <= k < out@.len() && (#[trigger] out@[k]).key@ == files@[f].key@;
        let g = lemma_filter_source(files@, p, k);
        assert(files@[g].key@ == files@[f].key@);
        if g < f {
            assert(files@[g].key@ != files@[f].key@);
        } else if f < g {
            assert(files@[f].key@ != files@[g].key@);
        }
    }
    if files@[f].refs.imports@.len() > 0 || files@[f].refs.exports@.len() > 0 {
        let k = lemma_filter_place(files@, p, f);
        assert(out@[k].key@ == files@[f].key@);
    }
}

/// The key of a path is the path, with a slash for each backslash.
pub proof fn law_repository_keys(rel: &str, key: String, i: int)
    requires
        call_ensures(to_repo_relative, (rel,), key),
        0 <= i < rel@.len(),
    ensures
        key@.len() == rel@.len(),
        rel@[i] == '\\' ==> key@[i] == '/',
        rel@[i] != '\\' ==> key@[i] == rel@[i],
{
}

// ─── Stored calls ────────────────────────────────────────────────────────────

proof fn lemma_row_kept(calls: Seq<StoredCall>, i: int) -> (k: int)
    requires
        0 <= i < calls.len(),
        row_read(calls[i]) is Some,
    ensures
        0 <= k < rows_read(calls).len(),
        rows_read(calls)[k] == row_read(calls[i])->0,
    decreases calls.len(),
{
    let front = rows_read(calls.drop_last());
    if i == calls.len() - 1 {
        front.len() as int
    } else {
        let k = lemma_row_kept(calls.drop_last(), i);
        assert(calls.drop_last()[i] == calls[i]);
        k
    }
}

/// A scan of stored calls misses nothing: a call site in whose callee the bytes of the name stand is shown on a page that is not
/// full, with its callee, file and column, and with its line counted from one, or both zero where no position
/// is stored. The result is its place.
pub proof fn law_stored_calls_are_found(
    calls: &Vec<StoredCall>,
    name: &str,
    limit: usize,
    page: CallScanPage,
    i: int,
    callee: Seq<char>,
    rel: Seq<u8>,
    start: u32,
) -> (k: int)
    requires
        call_ensures(scan_calls_by_name, (calls, name, limit), page),
        page.hits@.len() < limit,
        0 <= i < calls@.len(),
        calls@[i].position is Some ==> (calls@[i].position->0).0 < u32::MAX,
        encode_utf8(callee).len() <= 65535,
        calls@[i].key@ == call_key(callee, rel, start),
        part_of(encode_utf8(name@), encode_utf8(callee)),
    ensures
        0 <= k < page.hits@.len(),
        page.hits@[k].hit.callee@ == callee,
        page.hits@[k].hit.path@ == rel,
        page.hits@[k].start == start,
        calls@[i].position is Some ==> page.hits@[k].hit.line == (calls@[i].position->0).0 + 1
            && page.hits@[k].hit.column == (calls@[i].position->0).1,
        calls@[i].position is None ==> page.hits@[k].hit.line == 0 && page.hits@[k].hit.column == 0,
{
    let key = calls@[i].key@;
    assert(is_key_of(key, (callee, rel, start)));
    let parts = choose|parts: (Seq<char>, Seq<u8>, u32)| is_key_of(key, parts);
    law_call_key_injective(callee, rel, start, parts.0, parts.1, parts.2);
    let row = row_read(calls@[i])->0;
    let r = lemma_row_kept(calls@, i);
    lemma_part_of(encode_utf8(name@), encode_utf8(callee));
    let k = lemma_filter_place(rows_read(calls@), named(name@), r);
    assert(row_of(page.hits@[k]) == row);
    k
}

// ─── Renamed callers ─────────────────────────────────────────────────────────

proof fn lemma_alias_kept(proven: Seq<UseAt>, index: InRamCallIndex, name: Seq<char>, i: int) -> (k: int)
    requires
        0 <= i < proven.len(),
        is_alias(index, proven[i], name),
    ensures
        0 <= k < alias_rows(proven, index, name).len(),
        alias_rows(proven, index, name)[k] == alias_row(index, proven[i]),
    decreases proven.len(),
{
    if i == proven.len() - 1 {
        alias_rows(proven.drop_last(), index, name).len() as int
    } else {
        lemma_alias_kept(proven.drop_last(), index, name, i)
    }
}

/// A caller under another name is shown: a use of the definition at which a call stands whose callee does not hold the name is a
/// proven hit, on a first page that is not full. The result is its place.
pub proof fn law_renamed_callers_are_shown(
    out: CallersPage,
    index: &InRamCallIndex,
    uses: Seq<UseSite>,
    name: Seq<char>,
    limit: int,
    u: int,
    c: int,
) -> (i: int)
    requires
        0 <= limit,
        is_callers_page(out, Some(index), uses, name, None, limit),
        uses.len() <= scan_cap(limit),
        out.page.hits@.len() < limit,
        0 <= u < uses.len(),
        0 <= c < index.calls_of(uses[u].path@).len(),
        index.calls_of(uses[u].path@)[c].start_byte == uses[u].start,
        forall|d: int|
            c < d < index.calls_of(uses[u].path@).len() ==> (
            #[trigger] index.calls_of(uses[u].path@)[d]).start_byte != uses[u].start,
        !part_of(encode_utf8(name), encode_utf8(index.calls_of(uses[u].path@)[c].callee@)),
        encode_utf8(index.calls_of(uses[u].path@)[c].callee@).len() <= 65535,
    ensures
        0 <= i < out.page.hits@.len(),
        out.page.hits@[i].hit.path@ == uses[u].path@,
        out.page.hits@[i].start == uses[u].start,
        out.page.hits@[i].hit.callee@ == index.calls_of(uses[u].path@)[c].callee@,
        out.page.hits@[i].hit.resolved == Some(true),
{
    broadcast use vstd::seq_lib::group_to_multiset_ensures;

    let (scan, r) = choose|scan: CallScanPage, r: Option<ResolvedCallers>|
        #![trigger is_merged_page(out.page, scan, r, limit, None)]
        is_name_scan(scan, Some(index), name, None, limit) && is_proof_of(
            r,
            uses,
            *index,
            name,
            limit,
        ) && is_merged_page(out.page, scan, r, limit, None) && out.resolved_total == (match r {
            Some(x) => x.total,
            None => 0,
        });
    let cap = scan_cap(limit);
    let at = UseAt { path: uses[u].path@, start: uses[u].start };
    let calls = index.calls_of(at.path);
    assert(uses[u].path@ == at.path);
    assert(calls[c].start_byte == at.start);
    assert(is_used_call(*index, uses, at.path, at.start));
    lemma_last_call(calls, at.start, calls.len() as int, c);
    assert(site_at(*index, at) == Some(calls[c]));
    lemma_part_of(encode_utf8(name), encode_utf8(calls[c].callee@));
    assert(is_alias(*index, at, name));
    match r {
        None => {
            let order = choose|order: Seq<UseAt>| #[trigger]
                is_use_order(order, uses_at(uses)) && proven_upto(
                    order,
                    *index,
                    scan_cap(limit),
                    order.len() as int,
                ).len() == 0;
            lemma_proven_is_used(order, *index, uses, cap, at);
            0
        },
        Some(x) => {
            let order = choose|order: Seq<UseAt>| #[trigger]
                is_use_order(order, uses_at(uses)) && is_refinement(x, order, *index, name, limit)
                    && x.total > 0;
            lemma_proven_is_used(order, *index, uses, cap, at);
            let proven = proven_upto(order, *index, cap, order.len() as int);
            let k = lemma_alias_kept(proven, *index, name, proven.index_of(at));
            let rows = x.aliased@.map_values(|h: ScanHit| row_of(h));
            assert(rows[k] == alias_row(*index, at));
            assert(rows[k] == row_of(x.aliased@[k]));
            let h = x.aliased@[k];
            assert(h.hit.resolved == Some(true));
            assert(said_by(x.aliased@)[k] == said(h));
            let m = lemma_filter_place(said_by(x.aliased@), later(None), k);
            let marked = annotated(scan.hits@, x.sites);
            let fresh = fresh_aliases(x.aliased@, None);
            assert(fresh[m] == said(h));
            let full = choose|full: Seq<(CallRow, Option<bool>)>| #[trigger]
                merges(full, marked, fresh) && is_merge_of(
                    out.page,
                    full,
                    limit,
                    scan.next_cursor is Some,
                );
            assert((marked + fresh)[marked.len() + m] == said(h));
            assert((marked + fresh).contains(said(h)));
            assert((marked + fresh).to_multiset().count(said(h)) > 0);
            assert(full.contains(said(h)));
            let shown = full.take(crate::calls::least(full.len() as int, limit));
            assert(said_by(out.page.hits@).len() == shown.len());
            assert(shown.len() == full.len());
            let i = full.index_of(said(h));
            assert(shown[i] == full[i]);
            assert(said_by(out.page.hits@)[i] == said(out.page.hits@[i]));
            assert(row_of(out.page.hits@[i]) == alias_row(*index, at));
            i
        },
    }
}

proof fn lemma_last_call(calls: Seq<crate::calls::CallRef>, start: u32, n: int, c: int)
    requires
        0 <= c < n <= calls.len(),
        calls[c].start_byte == start,
        forall|d: int| c < d < n ==> (#[trigger] calls[d]).start_byte != start,
    ensures
        call_at(calls, start, n) == Some(calls[c]),
    decreases n,
{
    if c < n - 1 {
        assert(calls[n - 1].start_byte != start);
        lemma_last_call(calls, start, n - 1, c);
    }
}

// ─── Memories ────────────────────────────────────────────────────────────────

/// Memories of the group have no owner, and those of an agent have the agent; the two tiers have different bytes.
pub proof fn law_tiers(agent: Seq<char>)
    ensures
        tier_owner(Visibility::Group, agent) == ""@,
        tier_owner(Visibility::Individual, agent) == agent,
        tier_byte(Visibility::Group) == 0,
        tier_byte(Visibility::Individual) == 1,
{
}

/// A memory that was put says what was put, rests on nothing, is not verified, and has no importance yet; it keeps the time at which
/// its key was first written.
pub proof fn law_what_a_put_writes(
    before: IndexDb,
    after: IndexDb,
    raw: Seq<u8>,
    value: Seq<char>,
    tags: Seq<Seq<char>>,
    now: i64,
    times: (i64, i64),
)
    requires
        is_put(before, after, raw, value, tags, now, times),
    ensures
        after.live(raw) is Some,
        after.live(raw)->0.value@ == value,
        texts(after.live(raw)->0.tags@) == tags,
        after.live(raw)->0.updated_at == now,
        before.live(raw) is Some ==> after.live(raw)->0.created_at == before.live(raw)->0.created_at,
        before.live(raw) is None ==> after.live(raw)->0.created_at == now,
        after.live(raw)->0.verified == VerifyState::Unverified,
        after.live(raw)->0.last_verified == 0,
        after.live(raw)->0.importance_bits == 0,
        after.live(raw)->0.provenance.files@.len() == 0,
        after.live(raw)->0.provenance.symbols@.len() == 0,
        after.live(raw)->0.provenance.commands@.len() == 0,
        times == (after.live(raw)->0.created_at, now),
        forall|k: Seq<u8>| k != raw ==> #[trigger] after.live(k) == before.live(k),
        after.memory_archive == before.memory_archive,
        after.proposals == before.proposals,
{
    assert forall|k: Seq<u8>| k != raw implies #[trigger] after.live(k) == before.live(k) by {
        let m = before.memory_by_key.map();
        assert(after.memory_by_key.map().contains_key(k) == m.contains_key(k));
    }
}

/// An audit of one live memory reports its verdict under its key; unless it is a dry run it writes the memory back as the audit leaves
/// it, or moves it to the archive. Where there is no such memory it reports nothing and changes nothing.
pub proof fn law_audits_of_one_memory(
    before: IndexDb,
    after: IndexDb,
    code: CodeState,
    raw: Seq<u8>,
    key: Seq<char>,
    dry_run: bool,
    now: i64,
    out: MemoryAuditResponse,
)
    requires
        is_key_audit(before, after, code, raw, key, false, dry_run, now, out),
    ensures
        before.live(raw) is None ==> out.results@.len() == 0 && shelves(after) == shelves(before),
        before.live(raw) is Some ==> out.results@.len() == 1 && out.results@[0].key@ == key
            && out.results@[0].state == verdict_state(code, before.live(raw)->0),
        dry_run ==> shelves(after) == shelves(before),
        before.live(raw) is Some && !dry_run && !archives(code, before.live(raw)->0, now) ==> shelves(
            after,
        ).live.contains_key(raw) && shelves(after).live[raw] == Some(
            left(code, before.live(raw)->0, false, now),
        ) && shelves(after).archive == shelves(before).archive,
        before.live(raw) is Some && !dry_run && archives(code, before.live(raw)->0, now) ==> !shelves(
            after,
        ).live.contains_key(raw) && shelves(after).archive.contains_key(raw) && shelves(
            after,
        ).archive[raw] == Some(left(code, before.live(raw)->0, false, now)),
{
}

/// A proposal becomes a memory under the key that is asked for, or under one made of the first twelve characters of its id.
pub proof fn law_keys_of_accepted_proposals(key: Seq<char>, params: ProposalAcceptParams)
    requires
        is_memory_key_for(key, params),
        vstd::utf8::is_ascii_chars(params.id@),
        params.id@.len() >= 12,
    ensures
        params.key is Some ==> key == params.key->0@,
        params.key is None ==> key == "skill/cochange-"@ + params.id@.take(12),
{
    if params.key is None {
        let id = params.id@;
        let short = choose|short: Seq<char>| #[trigger]
            encode_utf8(short) == crate::memory_tools::short_id(id) && key == "skill/cochange-"@ + short;
        let front = id.take(12);
        vstd::utf8::is_ascii_chars_encode_utf8(id);
        assert forall|i: int| 0 <= i < front.len() implies '\0' <= #[trigger] front[i] <= '\u{7f}' by {
            assert(front[i] == id[i]);
        }
        vstd::utf8::is_ascii_chars_encode_utf8(front);
        assert(encode_utf8(front) =~= encode_utf8(id).take(12));
        assert(crate::memory_tools::short_id(id) =~= encode_utf8(id).take(12));
        crate::text::lemma_encoding_injective(short, front);
    }
}

// ─── Queries ─────────────────────────────────────────────────────────────────

/// What captures of the one query speak of, by what stands before the first dot.
pub proof fn law_capture_classes(rest: Seq<char>)
    ensures
        class_of("symbol."@ + rest) == CaptureClass::Symbol,
        class_of("import."@ + rest) == CaptureClass::Import,
        class_of("impl."@ + rest) == CaptureClass::Impl,
{
    reveal_strlit("symbol.");
    reveal_strlit("import.");
    reveal_strlit("impl.");
    let a = "symbol."@;
    let b = "import."@;
    let c = "impl."@;
    assert((a + rest).subrange(0, 7) =~= a);
    assert((b + rest).subrange(0, 7) =~= b);
    assert((c + rest).subrange(0, 5) =~= c);
    assert(a[0] == 's' && b[0] == 'i' && c[0] == 'i' && b[2] == 'p' && b[3] == 'o' && c[3] == 'l');
    if a.is_prefix_of(b + rest) {
        assert((b + rest).subrange(0, 7)[0] == a[0]);
    }
    if a.is_prefix_of(c + rest) {
        assert((c + rest).subrange(0, 7)[0] == a[0]);
        assert((c + rest)[0] == c[0]);
    }
    if b.is_prefix_of(c + rest) {
        assert((c + rest).subrange(0, 7)[3] == b[3]);
        assert((c + rest)[3] == c[3]);
    }
}

/// The one query has the symbols, then the imports, then the implementations of an override file; of the tags it has the symbols, then
/// the implementations.
pub proof fn law_the_one_query(over: Option<Seq<char>>, tags: Option<Seq<char>>)
    ensures
        over is Some && combined_text(over, tags) is Some ==> combined_text(over, tags)->0
            == section_or_nothing(over->0, "symbols"@) + "\n"@ + section_or_nothing(over->0, "imports"@)
            + "\n"@ + section_or_nothing(over->0, "implementations"@),
        over is None && tags is Some && combined_text(over, tags) is Some ==> combined_text(over, tags)->0
            == section_or_nothing(crate::tags::adapted(tags->0), "symbols"@) + "\n"@ + section_or_nothing(
            crate::tags::adapted(tags->0),
            "implementations"@,
        ),
        over is None && tags is None ==> combined_text(over, tags) is None,
        combined_text(over, tags) is Some ==> !is_blank(combined_text(over, tags)->0),
{
}

/// A capture's name is made of letters and digits of ASCII, underscores, dots, question marks and exclamation marks.
pub proof fn law_capture_bytes(b: u8)
    ensures
        is_capture_byte(b) <==> 0x30 <= b <= 0x39 || 0x41 <= b <= 0x5a || 0x61 <= b <= 0x7a || b == 0x5f || b
            == 0x2e || b == 0x3f || b == 0x21,
{
}

/// Python and Java have rules, and no other language has; and to go offline takes more than nothing or a zero.
pub proof fn law_rules_and_switches(lang: &str, ruled: bool, value: Seq<char>)
    requires
        call_ensures(has_tsg_ruleset, (lang,), ruled),
    ensures
        ruled <==> lang@ == "python"@ || lang@ == "java"@,
        asks_offline(value) <==> value.len() > 0 && value != "0"@,
{
}

// ─── Outcomes ────────────────────────────────────────────────────────────────

/// A page counts as indexed exactly when indexing ended well with a chunk; else it has none, and its error says why where it failed.
pub proof fn law_page_outcomes(url: &str, status_code: u16, end: IndexEnd, out: WebCrawlPageOutcome)
    requires
        call_ensures(page_outcome, (url, status_code, end), out),
    ensures
        out.url@ == url@ && out.status_code == status_code,
        out.indexed <==> end is Indexed && end->Indexed_0 > 0,
        end is Indexed ==> out.chunks_indexed == end->Indexed_0 && out.error is None,
        !(end is Indexed) ==> out.chunks_indexed == 0 && out.error is Some,
        end is Failed ==> out.error->0@ == end->Failed_0@,
        end is Lost ==> out.error->0@ == "spawn_blocking: "@ + end->Lost_0@,
{
}

/// A number is read from its decimal digits, with or without a plus sign, where it is no more than allowed.
pub proof fn law_numbers_are_read(n: nat, most: int)
    ensures
        n <= most ==> number_of(decimal(n), most) == Some(n as int),
        n <= most ==> number_of(seq!['+'] + decimal(n), most) == Some(n as int),
        n > most ==> number_of(decimal(n), most) is None,
        number_of(Seq::empty(), most) is None,
{
    crate::numbers::lemma_decimal_reads_back(n);
    let d = decimal(n);
    assert('0' <= d[0] <= '9');
    assert((seq!['+'] + d).skip(1) =~= d);
    assert((seq!['+'] + d)[0] == '+');
}

/// The fields of a schema are the names under its first `properties`, and those required the texts under its first `required`.
pub proof fn law_schema_fields(entries: Vec<SchemaEntry>, p: int, q: int, k: int, l: int)
    requires
        0 <= p < entries@.len(),
        entries@[p].key@ == "properties"@,
        forall|j: int| 0 <= j < p ==> (#[trigger] entries@[j]).key@ != "properties"@,
        entries@[p].value is Object,
        0 <= k < entries@[p].value->Object_0@.len(),
        0 <= q < entries@.len(),
        entries@[q].key@ == "required"@,
        forall|j: int| 0 <= j < q ==> (#[trigger] entries@[j]).key@ != "required"@,
        entries@[q].value is List,
        0 <= l < entries@[q].value->List_0@.len(),
        entries@[q].value->List_0@[l] is Text,
    ensures
        ({
            let schema = SchemaNode::Object(entries);
            &&& property_names(schema).len() == entries@[p].value->Object_0@.len()
            &&& property_names(schema)[k] == entries@[p].value->Object_0@[k].key@
            &&& required_names(schema).contains(entries@[q].value->List_0@[l]->Text_0@)
        }),
{
    let schema = SchemaNode::Object(entries);
    assert(is_member(entries@, "properties"@, p));
    let a = choose|a: int| is_member(entries@, "properties"@, a);
    assert(a == p);
    assert(is_member(entries@, "required"@, q));
    let b = choose|b: int| is_member(entries@, "required"@, b);
    assert(b == q);
    let list = entries@[q].value->List_0@;
    lemma_text_kept(list, list.len() as int, l);
}

proof fn lemma_text_kept(list: Seq<SchemaNode>, n: int, l: int)
    requires
        0 <= l < n <= list.len(),
        list[l] is Text,
    ensures
        texts_among(list, n).contains(list[l]->Text_0@),
    decreases n,
{
    let front = texts_among(list, n - 1);
    let all = texts_among(list, n);
    if l == n - 1 {
        assert(all[front.len() as int] == list[l]->Text_0@);
    } else {
        lemma_text_kept(list, n - 1, l);
        assert(all[front.index_of(list[l]->Text_0@)] == list[l]->Text_0@);
    }
}

} // verus!
