//! Running audits: which memories are looked at, what is stamped on them, and where they go.
use vstd::prelude::*;
use vstd::utf8::{encode_utf8, valid_utf8};

use crate::audit::{audit_one_record, verdict_reasons, verdict_state, CodeState};
use crate::keys::{
    is_memory_key, memory_by_key, memory_by_key_ns_prefix, memory_key, memory_prefix,
    memory_scope_prefix, owner_in, parse_memory_by_key, parse_memory_key_only, record_key_of,
    vis_in, MEMORY_VIS_GROUP, MEMORY_VIS_INDIVIDUAL,
};
use crate::keyspace::{in_range, in_range_and, is_range, Keyspace, Row};
use crate::memory::{raw_key, IndexDb, MemoryRecord, RecordFact, Store, VerifyState, Visibility};
use crate::model::ToolError;
use crate::seqs::{
    lemma_filter_agree, lemma_filter_all, lemma_filter_prefix, lemma_filter_take,
    lemma_filter_window,
};
use crate::text::texts;
use crate::walk::{bound, bounded};

verus! {

/// A memory that has been stale for longer than this many microseconds, ninety days, is archived.
pub const ARCHIVE_AFTER_MICROS: i64 = 7_776_000_000_000;

/// How many records an audit looks at, unless asked otherwise.
pub const DEFAULT_AUDIT_LIMIT: u32 = 100;

/// The most records that an audit looks at.
pub const MAX_AUDIT_LIMIT: u32 = 1000;

// ─── Decay ───────────────────────────────────────────────────────────────────

/// The bits of half of a 32-bit number in binary floating point, rounded to even. An infinity and a
/// value that is no number stay as they are.
pub open spec fn halved(bits: u32) -> u32 {
    let magnitude = bits % 0x8000_0000;
    let sign = bits - magnitude;
    let half = magnitude / 2;
    (sign + if magnitude >= 0x7f80_0000 {
        magnitude as int
    } else if magnitude >= 0x0100_0000 {
        magnitude - 0x0080_0000
    } else if magnitude % 2 == 0 {
        half as int
    } else {
        half + half % 2
    }) as u32
}

/// The bits of half of a number: the importance that a stale memory keeps.
pub fn decay(bits: u32) -> (h: u32)
    ensures
        h == halved(bits),
{
    let magnitude: u32 = bits % 0x8000_0000;
    let sign: u32 = bits - magnitude;
    let half: u32 = magnitude / 2;
    assert(sign == 0 || sign == 0x8000_0000) by (nonlinear_arith)
        requires
            magnitude == bits % 0x8000_0000,
            sign == bits - magnitude,
    ;
    if magnitude >= 0x7f80_0000 {
        bits
    } else if magnitude >= 0x0100_0000 {
        sign + (magnitude - 0x0080_0000)
    } else if magnitude % 2 == 0 {
        sign + half
    } else {
        sign + (half + half % 2)
    }
}

// ─── One record ──────────────────────────────────────────────────────────────

/// The audit of one record.
#[derive(Debug)]
pub struct AuditResult {
    pub key: String,
    pub state: VerifyState,
    pub reasons: Vec<String>,
    pub archived: bool,
}

/// A record as an audit leaves it, with the report on it.
#[derive(Debug)]
pub struct EntryOutcome {
    pub record: MemoryRecord,
    pub audit_result: AuditResult,
}

/// Since when a stale record counts as stale: the audit that began its stale period, or, where it
/// was not stale before, the audit before, or its last update where there was none.
pub open spec fn stale_since(r: MemoryRecord) -> i64 {
    if r.last_verified > 0 {
        r.last_verified
    } else {
        r.updated_at
    }
}

/// Whether an audit archives a record: it is stale, and has been for too long.
pub open spec fn archives(code: CodeState, r: MemoryRecord, now: i64) -> bool {
    verdict_state(code, r) == VerifyState::Stale && now - stale_since(r) > ARCHIVE_AFTER_MICROS
}

/// Whether a record was stale before and still is: its stale period goes on.
pub open spec fn stays_stale(code: CodeState, r: MemoryRecord) -> bool {
    r.verified == VerifyState::Stale && r.last_verified > 0 && verdict_state(code, r)
        == VerifyState::Stale
}

/// A record as an audit stamps it. The time of the audit goes on it, unless it stays stale: then the
/// time at which its stale period began is kept.
pub open spec fn stamped(code: CodeState, r: MemoryRecord, now: i64) -> RecordFact {
    RecordFact {
        verified: verdict_state(code, r),
        last_verified: if stays_stale(code, r) {
            r.last_verified
        } else {
            now
        },
        importance_bits: if verdict_state(code, r) == VerifyState::Stale {
            halved(r.importance_bits)
        } else {
            r.importance_bits
        },
        ..r@
    }
}

/// `a` reports on the record `r` under `key`; a read-only audit archives nothing.
pub open spec fn reports(
    a: AuditResult,
    key: Seq<char>,
    code: CodeState,
    r: MemoryRecord,
    read_only: bool,
    now: i64,
) -> bool {
    &&& a.key@ == key
    &&& a.state == verdict_state(code, r)
    &&& texts(a.reasons@) == verdict_reasons(code, r)
    &&& a.archived == (!read_only && archives(code, r, now))
}

/// A record as an audit leaves it: as it was, where the audit is read-only.
pub open spec fn left(code: CodeState, r: MemoryRecord, read_only: bool, now: i64) -> RecordFact {
    if read_only {
        r@
    } else {
        stamped(code, r, now)
    }
}

/// Audit one record. Nothing is stamped on it in a dry run, nor when it comes from the archive.
pub fn evaluate_one(
    code: &CodeState,
    dry_run: bool,
    now: i64,
    key: &str,
    found: &MemoryRecord,
    from_archive: bool,
) -> (out: EntryOutcome)
    requires
        code.wf(),
    ensures
        reports(out.audit_result, key@, *code, *found, dry_run || from_archive, now),
        out.record@ == left(*code, *found, dry_run || from_archive, now),
{
    let mut record = found.copy();
    let verdict = audit_one_record(code, found);
    let mut archived: bool = false;
    if !dry_run && !from_archive {
        record.verified = verdict.state;
        if !(found.verified == VerifyState::Stale && found.last_verified > 0 && verdict.state
            == VerifyState::Stale) {
            record.last_verified = now;
        }
        if verdict.state == VerifyState::Stale {
            record.importance_bits = decay(found.importance_bits);
            let since: i64 = if found.last_verified > 0 {
                found.last_verified
            } else {
                found.updated_at
            };
            archived = (now as i128) - (since as i128) > ARCHIVE_AFTER_MICROS as i128;
        }
    }
    EntryOutcome {
        record,
        audit_result: AuditResult {
            key: key.to_string(),
            state: verdict.state,
            reasons: verdict.reasons,
            archived,
        },
    }
}

// ─── Persisting ──────────────────────────────────────────────────────────────

/// One change that an audit makes.
#[derive(Debug)]
pub struct AuditMutation {
    pub vis_byte: u8,
    pub owner: String,
    pub key: String,
    pub record: MemoryRecord,
    /// Whether the record moves to the archive.
    pub archive: bool,
}

/// What the records of a keyspace say.
pub open spec fn record_facts(m: Map<Seq<u8>, Option<MemoryRecord>>) -> Map<
    Seq<u8>,
    Option<RecordFact>,
> {
    m.map_values(|r: Option<MemoryRecord>| fact_of(r))
}

/// What a row says.
pub open spec fn fact_of(r: Option<MemoryRecord>) -> Option<RecordFact> {
    match r {
        Some(x) => Some(x@),
        None => None,
    }
}

/// The live and the archived records of an index.
pub struct Shelves {
    pub live: Map<Seq<u8>, Option<RecordFact>>,
    pub archive: Map<Seq<u8>, Option<RecordFact>>,
}

/// What an index holds on either shelf.
pub open spec fn shelves(idx: IndexDb) -> Shelves {
    Shelves {
        live: record_facts(idx.memory_by_key.map()),
        archive: record_facts(idx.memory_archive.map()),
    }
}

/// The shelves after one record was written: to the live one, or moved to the archive.
pub open spec fn written(s: Shelves, raw: Seq<u8>, fact: RecordFact, archive: bool) -> Shelves {
    if archive {
        Shelves { live: s.live.remove(raw), archive: s.archive.insert(raw, Some(fact)) }
    } else {
        Shelves { live: s.live.insert(raw, Some(fact)), archive: s.archive }
    }
}

/// The shelves after the first `n` changes.
pub open spec fn persisted(s: Shelves, scope: Seq<char>, mutations: Seq<AuditMutation>, n: int) -> Shelves
    decreases n,
{
    if n <= 0 {
        s
    } else {
        let m = mutations[n - 1];
        written(
            persisted(s, scope, mutations, n - 1),
            raw_key(scope, m.vis_byte, m.owner@, m.key@),
            m.record@,
            m.archive,
        )
    }
}

/// Write one record to the live keyspace, or move it to the archive.
fn write_one(idx: &mut IndexDb, raw: Vec<u8>, record: MemoryRecord, archive: bool)
    requires
        old(idx).wf(),
    ensures
        final(idx).wf(),
        final(idx).proposals == old(idx).proposals,
        shelves(*final(idx)) == written(shelves(*old(idx)), raw@, record@, archive),
{
    let ghost live = idx.memory_by_key.map();
    let ghost kept = idx.memory_archive.map();
    let ghost r = record;
    let ghost k = raw@;
    if archive {
        idx.memory_by_key.remove(raw.as_slice());
        idx.memory_archive.insert(raw, Some(record));
    } else {
        idx.memory_by_key.insert(raw, Some(record));
    }
    proof {
        assert(record_facts(live.remove(k)) =~= record_facts(live).remove(k));
        assert(record_facts(live.insert(k, Some(r))) =~= record_facts(live).insert(k, Some(r@)));
        assert(record_facts(kept.insert(k, Some(r))) =~= record_facts(kept).insert(k, Some(r@)));
    }
}

/// Apply the changes of an audit.
pub fn audit_persist_core(idx: &mut IndexDb, scope: &str, mutations: &Vec<AuditMutation>)
    requires
        old(idx).wf(),
    ensures
        final(idx).wf(),
        final(idx).proposals == old(idx).proposals,
        shelves(*final(idx)) == persisted(
            shelves(*old(idx)),
            scope@,
            mutations@,
            mutations@.len() as int,
        ),
{
    let ghost before = *idx;
    let mut i: usize = 0;
    while i < mutations.len()
        invariant
            i <= mutations@.len(),
            idx.wf(),
            idx.proposals == before.proposals,
            shelves(*idx) == persisted(shelves(before), scope@, mutations@, i as int),
        decreases mutations@.len() - i,
    {
        let m = &mutations[i];
        let raw = memory_by_key(scope, m.vis_byte, m.owner.as_str(), m.key.as_str());
        write_one(idx, raw, m.record.copy(), m.archive);
        i += 1;
    }
}

// ─── Choosing records ────────────────────────────────────────────────────────

/// The first `n` of `s`, or all of it.
pub open spec fn upto<T>(s: Seq<T>, n: int) -> Seq<T> {
    if s.len() <= n {
        s
    } else {
        s.take(n)
    }
}

/// Whether a row has a key of text and, where `decoded` asks for it, a record that can be read.
pub open spec fn is_pickable(row: Row<MemoryRecord>, decoded: bool) -> bool {
    &&& record_key_of(row.key@) is Some
    &&& valid_utf8(record_key_of(row.key@)->0)
    &&& decoded ==> row.value is Some
}

/// The condition that a row can be picked.
pub open spec fn pickable(decoded: bool) -> spec_fn(Row<MemoryRecord>) -> bool {
    |r: Row<MemoryRecord>| is_pickable(r, decoded)
}

/// The condition that holds of every row.
pub open spec fn any_row() -> spec_fn(Row<MemoryRecord>) -> bool {
    |r: Row<MemoryRecord>| true
}

/// The rows of `rows` under `prefix`, in key order.
pub open spec fn under(rows: Seq<Row<MemoryRecord>>, prefix: Seq<u8>) -> Seq<Row<MemoryRecord>> {
    rows.filter(in_range_and(prefix, None, any_row()))
}

/// The rows that a scan picks: of the first `cap` rows under the prefix, the first `limit` that can
/// be picked.
pub open spec fn chosen(
    rows: Seq<Row<MemoryRecord>>,
    prefix: Seq<u8>,
    decoded: bool,
    limit: int,
    cap: int,
) -> Seq<Row<MemoryRecord>> {
    upto(upto(under(rows, prefix), cap).filter(pickable(decoded)), limit)
}

/// A picked row: its position, and its key.
pub struct Picked {
    pub at: usize,
    pub key: String,
}

/// `picks` are the rows of `found`, in order.
pub open spec fn are_picks(
    picks: Seq<Picked>,
    rows: Seq<Row<MemoryRecord>>,
    found: Seq<Row<MemoryRecord>>,
) -> bool {
    &&& picks.len() == found.len()
    &&& forall|i: int|
        #![trigger picks[i]]
        0 <= i < picks.len() ==> picks[i].at < rows.len() && rows[picks[i].at as int] == found[i]
            && record_key_of(found[i].key@) == Some(encode_utf8(picks[i].key@))
}

proof fn lemma_under_is_window(rows: Seq<Row<MemoryRecord>>, prefix: Seq<u8>, from: int, to: int)
    requires
        is_range(rows, prefix, None, from, to),
    ensures
        under(rows, prefix) == rows.subrange(from, to),
{
    let r = |r: Row<MemoryRecord>| in_range(r.key@, prefix, None);
    lemma_filter_window(rows, from, to, r, any_row());
    lemma_filter_agree(
        rows,
        in_range_and(prefix, None, any_row()),
        |x: Row<MemoryRecord>| r(x) && any_row()(x),
    );
    lemma_filter_all(rows.subrange(from, to), any_row());
}

/// Pick the rows of a scan.
pub fn pick_rows(
    space: &Keyspace<MemoryRecord>,
    prefix: &[u8],
    decoded: bool,
    limit: usize,
    cap: usize,
) -> (picks: Vec<Picked>)
    requires
        space.wf(),
    ensures
        are_picks(
            picks@,
            space.rows@,
            chosen(space.rows@, prefix@, decoded, limit as int, cap as int),
        ),
{
    let (from, to) = space.range(prefix, None);
    let ghost rows = space.rows@;
    let ghost window = rows.subrange(from as int, to as int);
    let ghost p = pickable(decoded);
    proof {
        lemma_under_is_window(rows, prefix@, from as int, to as int);
        reveal(Seq::filter);
        assert(window.take(0).filter(p) =~= Seq::empty());
    }
    let mut picks: Vec<Picked> = Vec::new();
    let mut n: usize = 0;
    while n < to - from && n < cap && picks.len() < limit
        invariant
            from <= to <= rows.len(),
            rows == space.rows@,
            window == rows.subrange(from as int, to as int),
            p == pickable(decoded),
            n <= to - from,
            n <= cap,
            picks@.len() <= limit,
            are_picks(picks@, rows, window.take(n as int).filter(p)),
        decreases to - from - n,
    {
        let row = &space.rows[from + n];
        let ghost was = window.take(n as int).filter(p);
        proof {
            lemma_filter_take(window, n as int, p);
            assert(window[n as int] == *row);
        }
        match parse_memory_key_only(row.key.as_slice()) {
            Some(key) => {
                proof {
                    vstd::utf8::encode_utf8_valid_utf8(key@);
                }
                if !decoded || row.value.is_some() {
                    assert(window.take(n + 1).filter(p) == was.push(*row));
                    picks.push(Picked { at: from + n, key });
                }
            },
            None => {},
        }
        n += 1;
    }
    proof {
        let sofar = window.take(n as int).filter(p);
        let w = upto(window, cap as int);
        assert(w.take(n as int) =~= window.take(n as int));
        lemma_filter_prefix(w, n as int, p);
        if picks@.len() < limit {
            assert(w =~= window.take(n as int));
        }
        assert(chosen(rows, prefix@, decoded, limit as int, cap as int) =~= sofar) by {
            let all = w.filter(p);
            assert(all.take(sofar.len() as int) == sofar);
            if all.len() <= limit {
                assert(picks@.len() < limit || all.len() == limit);
            }
        }
    }
    picks
}

// ─── A run of the audit ──────────────────────────────────────────────────────

/// What an audit is asked.
#[derive(Debug)]
pub struct MemoryAuditParams {
    pub visibility: Visibility,
    /// A single key, or everything in the tier.
    pub key: Option<String>,
    pub include_archived: bool,
    pub dry_run: bool,
    pub limit: Option<u32>,
}

/// What an audit found.
#[derive(Debug)]
pub struct MemoryAuditResponse {
    pub audited: usize,
    pub results: Vec<AuditResult>,
}

/// The visibility byte of a tier.
pub open spec fn tier_byte(v: Visibility) -> u8 {
    match v {
        Visibility::Group => MEMORY_VIS_GROUP,
        Visibility::Individual => MEMORY_VIS_INDIVIDUAL,
    }
}

/// The owner of the memories of a tier.
pub open spec fn tier_owner(v: Visibility, agent: Seq<char>) -> Seq<char> {
    match v {
        Visibility::Group => ""@,
        Visibility::Individual => agent,
    }
}

/// How many rows an audit of this many records looks at.
pub open spec fn audit_cap(limit: int) -> int {
    if limit * 8 > 1000 {
        limit * 8
    } else {
        1000
    }
}

/// `results` report on the rows of `found`, in order, from position `at` on.
pub open spec fn report_rows(
    results: Seq<AuditResult>,
    at: int,
    found: Seq<Row<MemoryRecord>>,
    code: CodeState,
    read_only: bool,
    now: i64,
) -> bool {
    &&& at + found.len() <= results.len()
    &&& forall|i: int|
        #![trigger found[i]]
        0 <= i < found.len() ==> record_key_of(found[i].key@) == Some(
            encode_utf8(results[at + i].key@),
        ) && reports(
            results[at + i],
            results[at + i].key@,
            code,
            found[i].value->0,
            read_only,
            now,
        )
}

/// The shelves after the first `n` rows of `found` were audited and written back.
pub open spec fn audited(
    s: Shelves,
    prefix: Seq<u8>,
    found: Seq<Row<MemoryRecord>>,
    code: CodeState,
    now: i64,
    n: int,
) -> Shelves
    decreases n,
{
    if n <= 0 {
        s
    } else {
        let row = found[n - 1];
        written(
            audited(s, prefix, found, code, now, n - 1),
            prefix + record_key_of(row.key@)->0,
            stamped(code, row.value->0, now),
            archives(code, row.value->0, now),
        )
    }
}

/// The record at a raw key, if one can be read there.
pub open spec fn readable(m: Map<Seq<u8>, Option<MemoryRecord>>, raw: Seq<u8>) -> Option<
    MemoryRecord,
> {
    match crate::tables::entry_at(m, raw) {
        Some(v) => v,
        None => None,
    }
}

/// `out` answers an audit of one key. The record is read from the archive where archived records
/// are asked for; whatever the audit leaves of it is written back unless this is a dry run, which
/// copies an archived record back among the live ones.
pub open spec fn is_key_audit(
    before: IndexDb,
    after: IndexDb,
    code: CodeState,
    raw: Seq<u8>,
    key: Seq<char>,
    archived: bool,
    dry_run: bool,
    now: i64,
    out: MemoryAuditResponse,
) -> bool {
    match readable(
        if archived {
            before.memory_archive.map()
        } else {
            before.memory_by_key.map()
        },
        raw,
    ) {
        None => out.results@.len() == 0 && shelves(after) == shelves(before),
        Some(r) => {
            &&& out.results@.len() == 1
            &&& reports(out.results@[0], key, code, r, dry_run || archived, now)
            &&& shelves(after) == if dry_run {
                shelves(before)
            } else {
                written(
                    shelves(before),
                    raw,
                    left(code, r, dry_run || archived, now),
                    !archived && archives(code, r, now),
                )
            }
        },
    }
}

/// `out` answers an audit of a whole tier: of the live records, each written back unless this is a
/// dry run; then, where they are asked for and there is room, of the archived ones, among which are
/// those that this audit has archived.
pub open spec fn is_tier_audit(
    before: IndexDb,
    after: IndexDb,
    code: CodeState,
    prefix: Seq<u8>,
    archived: bool,
    dry_run: bool,
    limit: int,
    now: i64,
    out: MemoryAuditResponse,
) -> bool {
    let live = chosen(before.memory_by_key.rows@, prefix, true, limit, audit_cap(limit));
    let old = if archived {
        chosen(
            after.memory_archive.rows@,
            prefix,
            true,
            limit - live.len(),
            audit_cap(limit),
        )
    } else {
        Seq::empty()
    };
    &&& out.results@.len() == live.len() + old.len()
    &&& report_rows(out.results@, 0, live, code, dry_run, now)
    &&& report_rows(out.results@, live.len() as int, old, code, true, now)
    &&& shelves(after) == if dry_run {
        shelves(before)
    } else {
        audited(shelves(before), prefix, live, code, now, live.len() as int)
    }
}

/// `out` answers the audit that `params` ask for.
pub open spec fn is_audit(
    before: IndexDb,
    after: IndexDb,
    code: CodeState,
    scope: Seq<char>,
    agent: Seq<char>,
    params: MemoryAuditParams,
    now: i64,
    out: MemoryAuditResponse,
) -> bool {
    let vis = tier_byte(params.visibility);
    let owner = tier_owner(params.visibility, agent);
    &&& out.audited == out.results@.len()
    &&& after.proposals == before.proposals
    &&& match params.key {
        Some(k) => is_key_audit(
            before,
            after,
            code,
            raw_key(scope, vis, owner, k@),
            k@,
            params.include_archived,
            params.dry_run,
            now,
            out,
        ),
        None => is_tier_audit(
            before,
            after,
            code,
            memory_prefix(encode_utf8(scope), vis, encode_utf8(owner)),
            params.include_archived,
            params.dry_run,
            bounded(params.limit, DEFAULT_AUDIT_LIMIT, MAX_AUDIT_LIMIT) as int,
            now,
            out,
        ),
    }
}

fn audit_key(
    idx: &mut IndexDb,
    code: &CodeState,
    raw: Vec<u8>,
    key: &str,
    archived: bool,
    dry_run: bool,
    now: i64,
) -> (out: MemoryAuditResponse)
    requires
        old(idx).wf(),
        code.wf(),
    ensures
        final(idx).wf(),
        final(idx).proposals == old(idx).proposals,
        out.audited == out.results@.len(),
        is_key_audit(*old(idx), *final(idx), *code, raw@, key@, archived, dry_run, now, out),
{
    let mut results: Vec<AuditResult> = Vec::new();
    let found = if archived {
        idx.memory_archive.get(raw.as_slice())
    } else {
        idx.memory_by_key.get(raw.as_slice())
    };
    match found {
        Some(r) => {
            let out = evaluate_one(code, dry_run, now, key, r, archived);
            let moves: bool = out.audit_result.archived;
            if !dry_run {
                write_one(idx, raw, out.record, moves);
            }
            results.push(out.audit_result);
        },
        None => {},
    }
    MemoryAuditResponse { audited: results.len(), results }
}

/// Add the reports on the picked rows to `results`.
fn report_picks(
    results: &mut Vec<AuditResult>,
    rows: &Vec<Row<MemoryRecord>>,
    picks: &Vec<Picked>,
    code: &CodeState,
    dry_run: bool,
    now: i64,
    from_archive: bool,
    Ghost(found): Ghost<Seq<Row<MemoryRecord>>>,
) -> (records: Vec<MemoryRecord>)
    requires
        code.wf(),
        are_picks(picks@, rows@, found),
        forall|i: int| 0 <= i < found.len() ==> (#[trigger] found[i]).value is Some,
    ensures
        final(results)@.len() == old(results)@.len() + found.len(),
        final(results)@.take(old(results)@.len() as int) == old(results)@,
        report_rows(
            final(results)@,
            old(results)@.len() as int,
            found,
            *code,
            dry_run || from_archive,
            now,
        ),
        records@.len() == found.len(),
        forall|i: int|
            #![trigger records@[i]]
            0 <= i < found.len() ==> records@[i]@ == left(
                *code,
                found[i].value->0,
                dry_run || from_archive,
                now,
            ),
{
    let ghost old_results = results@;
    let ghost at = results@.len() as int;
    let mut records: Vec<MemoryRecord> = Vec::new();
    let mut i: usize = 0;
    while i < picks.len()
        invariant
            code.wf(),
            i <= picks@.len(),
            are_picks(picks@, rows@, found),
            forall|j: int| 0 <= j < found.len() ==> (#[trigger] found[j]).value is Some,
            at == old_results.len(),
            results@.len() == at + i,
            results@.take(at) == old_results,
            records@.len() == i,
            forall|j: int|
                #![trigger found[j]]
                0 <= j < i ==> record_key_of(found[j].key@) == Some(
                    encode_utf8(results@[at + j].key@),
                ) && reports(
                    results@[at + j],
                    results@[at + j].key@,
                    *code,
                    found[j].value->0,
                    dry_run || from_archive,
                    now,
                ),
            forall|j: int|
                #![trigger records@[j]]
                0 <= j < i ==> records@[j]@ == left(
                    *code,
                    found[j].value->0,
                    dry_run || from_archive,
                    now,
                ),
        decreases picks@.len() - i,
    {
        let pick = &picks[i];
        assert(found[i as int].value is Some);
        match &rows[pick.at].value {
            Some(r) => {
                let out = evaluate_one(code, dry_run, now, pick.key.as_str(), r, from_archive);
                let ghost before = results@;
                results.push(out.audit_result);
                records.push(out.record);
                assert(results@.take(at) =~= before.take(at));
            },
            None => {},
        }
        i += 1;
    }
    records
}

fn write_picks(
    idx: &mut IndexDb,
    scope: &str,
    vis: u8,
    owner: &str,
    code: &CodeState,
    now: i64,
    results: &Vec<AuditResult>,
    records: Vec<MemoryRecord>,
    Ghost(found): Ghost<Seq<Row<MemoryRecord>>>,
)
    requires
        old(idx).wf(),
        results@.len() == records@.len(),
        report_rows(results@, 0, found, *code, false, now),
        records@.len() == found.len(),
        forall|i: int|
            #![trigger records@[i]]
            0 <= i < found.len() ==> records@[i]@ == stamped(*code, found[i].value->0, now),
    ensures
        final(idx).wf(),
        final(idx).proposals == old(idx).proposals,
        shelves(*final(idx)) == audited(
            shelves(*old(idx)),
            memory_prefix(encode_utf8(scope@), vis, encode_utf8(owner@)),
            found,
            *code,
            now,
            found.len() as int,
        ),
{
    let ghost before = *idx;
    let ghost prefix = memory_prefix(encode_utf8(scope@), vis, encode_utf8(owner@));
    let mut i: usize = 0;
    while i < records.len()
        invariant
            i <= records@.len(),
            idx.wf(),
            idx.proposals == before.proposals,
            results@.len() == records@.len(),
            report_rows(results@, 0, found, *code, false, now),
            records@.len() == found.len(),
            forall|i: int|
                #![trigger records@[i]]
                0 <= i < found.len() ==> records@[i]@ == stamped(*code, found[i].value->0, now),
            prefix == memory_prefix(encode_utf8(scope@), vis, encode_utf8(owner@)),
            shelves(*idx) == audited(shelves(before), prefix, found, *code, now, i as int),
        decreases records@.len() - i,
    {
        let ghost row = found[i as int];
        assert(results@[0 + i] == results@[i as int]);
        let raw = memory_by_key(scope, vis, owner, results[i].key.as_str());
        write_one(idx, raw, records[i].copy(), results[i].archived);
        i += 1;
    }
}

fn audit_tier(
    idx: &mut IndexDb,
    code: &CodeState,
    scope: &str,
    vis: u8,
    owner: &str,
    archived: bool,
    dry_run: bool,
    limit: usize,
    now: i64,
) -> (out: MemoryAuditResponse)
    requires
        old(idx).wf(),
        code.wf(),
        limit <= MAX_AUDIT_LIMIT,
    ensures
        final(idx).wf(),
        final(idx).proposals == old(idx).proposals,
        out.audited == out.results@.len(),
        is_tier_audit(
            *old(idx),
            *final(idx),
            *code,
            memory_prefix(encode_utf8(scope@), vis, encode_utf8(owner@)),
            archived,
            dry_run,
            limit as int,
            now,
            out,
        ),
{
    let ghost before = *idx;
    let cap: usize = if limit * 8 > 1000 {
        limit * 8
    } else {
        1000
    };
    let prefix = memory_by_key_ns_prefix(scope, vis, owner);
    let mut results: Vec<AuditResult> = Vec::new();
    let picks = pick_rows(&idx.memory_by_key, prefix.as_slice(), true, limit, cap);
    let ghost live = chosen(idx.memory_by_key.rows@, prefix@, true, limit as int, cap as int);
    proof {
        lemma_chosen_readable(idx.memory_by_key.rows@, prefix@, limit as int, cap as int);
    }
    let records = report_picks(
        &mut results,
        &idx.memory_by_key.rows,
        &picks,
        code,
        dry_run,
        now,
        false,
        Ghost(live),
    );
    let ghost first = results@;
    if !dry_run {
        write_picks(idx, scope, vis, owner, code, now, &results, records, Ghost(live));
    }
    let old_picks = if archived {
        pick_rows(
            &idx.memory_archive,
            prefix.as_slice(),
            true,
            limit - picks.len(),
            cap,
        )
    } else {
        Vec::new()
    };
    let ghost stored = if archived {
        chosen(idx.memory_archive.rows@, prefix@, true, limit - live.len(), cap as int)
    } else {
        Seq::empty()
    };
    proof {
        lemma_chosen_readable(
            idx.memory_archive.rows@,
            prefix@,
            limit - live.len(),
            cap as int,
        );
    }
    let mut rest: Vec<AuditResult> = Vec::new();
    let _unchanged = report_picks(
        &mut rest,
        &idx.memory_archive.rows,
        &old_picks,
        code,
        dry_run,
        now,
        true,
        Ghost(stored),
    );
    let ghost tail = rest@;
    results.append(&mut rest);
    proof {
        assert(results@ == first + tail);
        assert forall|i: int| #![trigger live[i]] 0 <= i < live.len() implies results@[0 + i]
            == first[0 + i] by {}
        assert forall|i: int| #![trigger stored[i]] 0 <= i < stored.len() implies results@[live.len()
            + i] == tail[0 + i] by {}
    }
    MemoryAuditResponse { audited: results.len(), results }
}

proof fn lemma_chosen_readable(
    rows: Seq<Row<MemoryRecord>>,
    prefix: Seq<u8>,
    limit: int,
    cap: int,
)
    requires
        limit >= 0,
    ensures
        chosen(rows, prefix, true, limit, cap).len() <= limit,
        forall|i: int|
            0 <= i < chosen(rows, prefix, true, limit, cap).len() ==> (#[trigger] chosen(
                rows,
                prefix,
                true,
                limit,
                cap,
            )[i]).value is Some,
{
    let w = upto(under(rows, prefix), cap);
    let found = chosen(rows, prefix, true, limit, cap);
    assert forall|i: int| 0 <= i < found.len() implies (#[trigger] found[i]).value is Some by {
        crate::seqs::lemma_filter_member(w, pickable(true), i);
    }
}

/// Audit memories of a tier: one key, or as many as asked for.
pub fn run_memory_audit(
    store: &mut Store,
    code: &CodeState,
    scope: &str,
    agent_id: &str,
    params: &MemoryAuditParams,
    now: i64,
) -> (r: Result<MemoryAuditResponse, ToolError>)
    requires
        old(store).wf(),
        code.wf(),
    ensures
        final(store).wf(),
        match r {
            Ok(out) => old(store).index_db is Some && final(store).index_db is Some && is_audit(
                old(store).index_db->0,
                final(store).index_db->0,
                *code,
                scope@,
                agent_id@,
                *params,
                now,
                out,
            ),
            Err(e) => old(store).index_db is None && *final(store) == *old(store)
                && e is Internal && e.text() == "memory_by_key index not available"@,
        },
{
    let limit: u32 = bound(params.limit, DEFAULT_AUDIT_LIMIT, MAX_AUDIT_LIMIT);
    let vis: u8 = params.visibility.vis_byte();
    let owner = params.visibility.owner(agent_id);
    match &mut store.index_db {
        Some(idx) => {
            let out = match &params.key {
                Some(key) => {
                    let raw = memory_by_key(scope, vis, owner, key.as_str());
                    audit_key(
                        idx,
                        code,
                        raw,
                        key.as_str(),
                        params.include_archived,
                        params.dry_run,
                        now,
                    )
                },
                None => audit_tier(
                    idx,
                    code,
                    scope,
                    vis,
                    owner,
                    params.include_archived,
                    params.dry_run,
                    limit as usize,
                    now,
                ),
            };
            Ok(out)
        },
        None => Err(
            ToolError::Internal(String::from_str("memory_by_key index not available")),
        ),
    }
}

// ─── After a rescan ──────────────────────────────────────────────────────────

/// Whether a rescan writes a row back: it can be read, and its record is stale.
pub open spec fn is_stale_row(row: Row<MemoryRecord>, code: CodeState) -> bool {
    &&& is_memory_key(row.key@)
    &&& row.value is Some
    &&& verdict_state(code, row.value->0) == VerifyState::Stale
}

/// The condition that a rescan writes a row back.
pub open spec fn stale_row(code: CodeState) -> spec_fn(Row<MemoryRecord>) -> bool {
    |r: Row<MemoryRecord>| is_stale_row(r, code)
}

/// The rows that a rescan writes back: the stale ones among the first of the scope.
pub open spec fn stale_rows(rows: Seq<Row<MemoryRecord>>, scope: Seq<char>, code: CodeState) -> Seq<
    Row<MemoryRecord>,
> {
    upto(under(rows, encode_utf8(scope).push(0)), DEFAULT_AUDIT_LIMIT as int).filter(
        stale_row(code),
    )
}

/// The raw key under which a rescan writes a row back.
pub open spec fn rescan_key(scope: Seq<char>, row: Row<MemoryRecord>) -> Seq<u8> {
    memory_key(
        encode_utf8(scope),
        vis_in(row.key@),
        owner_in(row.key@),
        record_key_of(row.key@)->0,
    )
}

/// The shelves after the first `n` stale rows were written back.
pub open spec fn rescanned(
    s: Shelves,
    scope: Seq<char>,
    found: Seq<Row<MemoryRecord>>,
    code: CodeState,
    now: i64,
    n: int,
) -> Shelves
    decreases n,
{
    if n <= 0 {
        s
    } else {
        let row = found[n - 1];
        written(
            rescanned(s, scope, found, code, now, n - 1),
            rescan_key(scope, row),
            stamped(code, row.value->0, now),
            archives(code, row.value->0, now),
        )
    }
}

/// `m` writes the stale row back.
pub open spec fn writes_back(m: AuditMutation, row: Row<MemoryRecord>, code: CodeState, now: i64) -> bool {
    &&& m.vis_byte == vis_in(row.key@)
    &&& encode_utf8(m.owner@) == owner_in(row.key@)
    &&& encode_utf8(m.key@) == record_key_of(row.key@)->0
    &&& m.record@ == stamped(code, row.value->0, now)
    &&& m.archive == archives(code, row.value->0, now)
}

proof fn lemma_persisted_rescan(
    s: Shelves,
    scope: Seq<char>,
    mutations: Seq<AuditMutation>,
    found: Seq<Row<MemoryRecord>>,
    code: CodeState,
    now: i64,
    n: int,
)
    requires
        0 <= n <= mutations.len(),
        mutations.len() == found.len(),
        forall|i: int|
            0 <= i < mutations.len() ==> writes_back(#[trigger] mutations[i], found[i], code, now),
    ensures
        persisted(s, scope, mutations, n) == rescanned(s, scope, found, code, now, n),
    decreases n,
{
    if n > 0 {
        lemma_persisted_rescan(s, scope, mutations, found, code, now, n - 1);
        assert(writes_back(mutations[n - 1], found[n - 1], code, now));
    }
}

fn stale_mutations(space: &Keyspace<MemoryRecord>, code: &CodeState, scope: &str, now: i64) -> (out:
    Vec<AuditMutation>)
    requires
        space.wf(),
        code.wf(),
    ensures
        out@.len() == stale_rows(space.rows@, scope@, *code).len(),
        forall|i: int|
            0 <= i < out@.len() ==> writes_back(
                #[trigger] out@[i],
                stale_rows(space.rows@, scope@, *code)[i],
                *code,
                now,
            ),
{
    let prefix = memory_scope_prefix(scope);
    let (from, to) = space.range(prefix.as_slice(), None);
    let ghost rows = space.rows@;
    let ghost window = rows.subrange(from as int, to as int);
    let ghost p = stale_row(*code);
    proof {
        lemma_under_is_window(rows, prefix@, from as int, to as int);
        reveal(Seq::filter);
        assert(window.take(0).filter(p) =~= Seq::empty());
    }
    let mut out: Vec<AuditMutation> = Vec::new();
    let mut n: usize = 0;
    while n < to - from && n < DEFAULT_AUDIT_LIMIT as usize
        invariant
            code.wf(),
            from <= to <= rows.len(),
            rows == space.rows@,
            window == rows.subrange(from as int, to as int),
            p == stale_row(*code),
            n <= to - from,
            n <= DEFAULT_AUDIT_LIMIT,
            out@.len() == window.take(n as int).filter(p).len(),
            forall|i: int|
                0 <= i < out@.len() ==> writes_back(
                    #[trigger] out@[i],
                    window.take(n as int).filter(p)[i],
                    *code,
                    now,
                ),
        decreases to - from - n,
    {
        let row = &space.rows[from + n];
        let ghost was = window.take(n as int).filter(p);
        proof {
            lemma_filter_take(window, n as int, p);
            assert(window[n as int] == *row);
        }
        match (parse_memory_by_key(row.key.as_slice()), &row.value) {
            (Some(parts), Some(r)) => {
                let e = evaluate_one(code, false, now, parts.key.as_str(), r, false);
                if e.record.verified == VerifyState::Stale {
                    assert(e.record@.verified == e.record.verified);
                    assert(window.take(n + 1).filter(p) == was.push(*row));
                    out.push(
                        AuditMutation {
                            vis_byte: parts.vis,
                            owner: parts.owner,
                            key: parts.key,
                            record: e.record,
                            archive: e.audit_result.archived,
                        },
                    );
                } else {
                    assert(e.record@.verified == e.record.verified);
                }
            },
            _ => {},
        }
        n += 1;
    }
    assert(upto(window, DEFAULT_AUDIT_LIMIT as int) =~= window.take(n as int));
    out
}

/// After a rescan, audit the first records of the scope, in every tier. Only stale ones are written
/// back: the others are left as they were.
pub fn audit_scope_on_rescan(store: &mut Store, code: &CodeState, scope: &str, now: i64)
    requires
        old(store).wf(),
        code.wf(),
    ensures
        final(store).wf(),
        match old(store).index_db {
            None => *final(store) == *old(store),
            Some(before) => {
                let found = stale_rows(before.memory_by_key.rows@, scope@, *code);
                &&& final(store).index_db is Some
                &&& final(store).index_db->0.proposals == before.proposals
                &&& shelves(final(store).index_db->0) == rescanned(
                    shelves(before),
                    scope@,
                    found,
                    *code,
                    now,
                    found.len() as int,
                )
            },
        },
{
    match &mut store.index_db {
        Some(idx) => {
            let ghost before = *idx;
            let mutations = stale_mutations(&idx.memory_by_key, code, scope, now);
            audit_persist_core(idx, scope, &mutations);
            proof {
                let found = stale_rows(before.memory_by_key.rows@, scope@, *code);
                lemma_persisted_rescan(
                    shelves(before),
                    scope@,
                    mutations@,
                    found,
                    *code,
                    now,
                    found.len() as int,
                );
            }
        },
        None => {},
    }
}

// ─── Laws ────────────────────────────────────────────────────────────────────

/// A memory that an audit archives leaves the live records and stands in the archive; every other
/// memory stays where it is.
pub proof fn law_archiving_moves(s: Shelves, raw: Seq<u8>, fact: RecordFact, other: Seq<u8>)
    requires
        other != raw,
    ensures
        !written(s, raw, fact, true).live.contains_key(raw),
        written(s, raw, fact, true).archive.contains_key(raw),
        written(s, raw, fact, true).archive[raw] == Some(fact),
        written(s, raw, fact, true).live.contains_key(other) == s.live.contains_key(other),
        written(s, raw, fact, true).archive.contains_key(other) == s.archive.contains_key(other),
        s.live.contains_key(other) ==> written(s, raw, fact, true).live[other] == s.live[other],
        s.archive.contains_key(other) ==> written(s, raw, fact, true).archive[other]
            == s.archive[other],
{
}

/// A dry run changes nothing.
pub proof fn law_dry_run_changes_nothing(
    before: IndexDb,
    after: IndexDb,
    code: CodeState,
    scope: Seq<char>,
    agent: Seq<char>,
    params: MemoryAuditParams,
    now: i64,
    out: MemoryAuditResponse,
)
    requires
        params.dry_run,
        is_audit(before, after, code, scope, agent, params, now, out),
    ensures
        shelves(after) == shelves(before),
        after.proposals == before.proposals,
        forall|i: int| 0 <= i < out.results@.len() ==> !(#[trigger] out.results@[i]).archived,
{
    if params.key is None {
        let prefix = memory_prefix(
            encode_utf8(scope),
            tier_byte(params.visibility),
            encode_utf8(tier_owner(params.visibility, agent)),
        );
        let limit = bounded(params.limit, DEFAULT_AUDIT_LIMIT, MAX_AUDIT_LIMIT) as int;
        let live = chosen(before.memory_by_key.rows@, prefix, true, limit, audit_cap(limit));
        let kept = chosen(
            after.memory_archive.rows@,
            prefix,
            true,
            limit - live.len(),
            audit_cap(limit),
        );
        assert forall|i: int| 0 <= i < out.results@.len() implies !(#[trigger] out.results@[i]).archived by {
            if i < live.len() {
                let row = live[i];
                assert(out.results@[0 + i] == out.results@[i]);
            } else {
                let row = kept[i - live.len()];
                assert(out.results@[live.len() + (i - live.len())] == out.results@[i]);
            }
        }
    }
}

/// No memory is archived that is not stale, nor before it has counted as stale for ninety days.
pub proof fn law_archived_only_when_long_stale(
    a: AuditResult,
    key: Seq<char>,
    code: CodeState,
    r: MemoryRecord,
    read_only: bool,
    now: i64,
)
    requires
        reports(a, key, code, r, read_only, now),
        a.archived,
    ensures
        a.state == VerifyState::Stale,
        now - stale_since(r) > ARCHIVE_AFTER_MICROS,
{
}

/// A memory that is stale at every audit over more than ninety days is archived: whatever audits come
/// between, `records[i]` is what the `i`th of them finds, and each leaves what the next one finds.
pub proof fn law_long_stale_is_archived(
    codes: Seq<CodeState>,
    records: Seq<MemoryRecord>,
    times: Seq<i64>,
)
    requires
        codes.len() == records.len() == times.len(),
        records.len() > 1,
        times[0] > 0,
        records[0].last_verified <= times[0],
        forall|i: int|
            0 <= i < records.len() ==> verdict_state(#[trigger] codes[i], records[i])
                == VerifyState::Stale,
        forall|i: int|
            0 <= i < records.len() - 1 ==> (#[trigger] records[i + 1])@ == stamped(
                codes[i],
                records[i],
                times[i],
            ),
        times.last() - times[0] > ARCHIVE_AFTER_MICROS,
    ensures
        archives(codes.last(), records.last(), times.last()),
{
    let n = records.len() - 1;
    lemma_stale_since(codes, records, times, n);
    assert(verdict_state(codes[n], records[n]) == VerifyState::Stale);
}

proof fn lemma_stale_since(
    codes: Seq<CodeState>,
    records: Seq<MemoryRecord>,
    times: Seq<i64>,
    n: int,
)
    requires
        codes.len() == records.len() == times.len(),
        1 <= n < records.len(),
        times[0] > 0,
        records[0].last_verified <= times[0],
        forall|i: int|
            0 <= i < records.len() ==> verdict_state(#[trigger] codes[i], records[i])
                == VerifyState::Stale,
        forall|i: int|
            0 <= i < records.len() - 1 ==> (#[trigger] records[i + 1])@ == stamped(
                codes[i],
                records[i],
                times[i],
            ),
    ensures
        records[n].verified == VerifyState::Stale,
        0 < records[n].last_verified <= times[0],
    decreases n,
{
    let k = n - 1;
    if n > 1 {
        lemma_stale_since(codes, records, times, n - 1);
    }
    assert(verdict_state(codes[k], records[k]) == VerifyState::Stale);
    assert(records[k + 1]@ == stamped(codes[k], records[k], times[k]));
    assert(records[k + 1]@.verified == records[n].verified);
    assert(records[k + 1]@.last_verified == records[n].last_verified);
}

/// A rescan touches stale records alone: what lies under any other key stays as it was.
pub proof fn law_rescan_leaves_the_rest(
    s: Shelves,
    scope: Seq<char>,
    found: Seq<Row<MemoryRecord>>,
    code: CodeState,
    now: i64,
    n: int,
    raw: Seq<u8>,
)
    requires
        0 <= n <= found.len(),
        forall|i: int| 0 <= i < found.len() ==> rescan_key(scope, #[trigger] found[i]) != raw,
    ensures
        rescanned(s, scope, found, code, now, n).live.contains_key(raw) == s.live.contains_key(raw),
        s.live.contains_key(raw) ==> rescanned(s, scope, found, code, now, n).live[raw]
            == s.live[raw],
        rescanned(s, scope, found, code, now, n).archive.contains_key(raw)
            == s.archive.contains_key(raw),
        s.archive.contains_key(raw) ==> rescanned(s, scope, found, code, now, n).archive[raw]
            == s.archive[raw],
    decreases n,
{
    if n > 0 {
        law_rescan_leaves_the_rest(s, scope, found, code, now, n - 1, raw);
        assert(rescan_key(scope, found[n - 1]) != raw);
    }
}

} // verus!
