//! The memory and proposal tools: requests in, answers out.
use vstd::prelude::*;
use vstd::utf8::{encode_utf8, valid_utf8};

use crate::audit::{audit_one_record, verdict_state, CodeState};
use crate::calls::cursor_text;
use crate::cochange::{
    changed, count_cochanges, counts_are, is_counted, weight_upto, CoChange, CommitFiles,
};
use crate::cursor::{base64, law_base64_injective, Cursor};
use crate::governance::record_facts;
use crate::grep::{SEARCH_LIMIT_DEFAULT, SEARCH_LIMIT_MAX};
use crate::keys::{
    memory_prefix, proposal_by_id, MEMORY_VIS_GROUP, PROPOSAL_KIND_MEMORY, PROPOSAL_KIND_SKILL,
};
use crate::memory::{
    delete_core, get_core, is_delete, is_got, is_list_page, is_put, list_upto, listing, opt_bytes,
    put_core, raw_key, IndexDb, ListPage, ListQuery, MemoryRecord, Provenance, RecordFact, Store,
    VerifyState, WireMemoryEntry,
};
use crate::model::ToolError;
use crate::proposal_ops::{
    apply_mine_core, distinct_kinds, is_proposal_page, law_proposal_pages_chain, listed_upto,
    proposals_upto, show_rows, mined_count, mined_upto, promote_core, proposal_facts, reject_core,
    skill_key, tombstone_key, ProposalListResult, DEFAULT_LIST_LIMIT, MAX_LIST_LIMIT, SHORT_ID_LEN,
};
use crate::proposals::{
    are_proposals, copy_paths, judges, mine_bounds, mine_candidates, MineBounds, ProposalItem,
    DEFAULT_MAX_FILES_PER_COMMIT, DEFAULT_MINE_WINDOW, DEFAULT_MIN_SUPPORT,
    HARD_MAX_FILES_PER_COMMIT, MAX_MINE_WINDOW,
};
use crate::text::{copy_texts, opt_is, opt_text, texts, utf8_text};
use crate::walk::{bound, bounded};

verus! {

/// The answer where the memory index could not be opened.
pub open spec fn is_unavailable(e: ToolError, what: Seq<char>) -> bool {
    e is Internal && e.text() == what
}

// ─── Memory tools ────────────────────────────────────────────────────────────

/// A request to put a memory.
#[derive(Debug)]
pub struct MemoryPutParams {
    pub key: String,
    pub value: String,
    pub tags: Option<Vec<String>>,
    /// Whether the value is to be searchable by meaning.
    pub embed: bool,
}

/// A memory for the search index, still without its embedding.
#[derive(Debug)]
pub struct MemoryRow {
    pub scope: String,
    pub key: String,
    pub value: String,
    pub tags: Vec<String>,
    pub created_at: i64,
    pub updated_at: i64,
}

/// The answer to a put: the times of the memory, and the row to embed where that was asked for.
#[derive(Debug)]
pub struct MemoryPutResponse {
    pub key: String,
    pub created_at: i64,
    pub updated_at: i64,
    pub to_embed: Option<MemoryRow>,
}

/// The tags of a request; none where it has none.
pub open spec fn asked_tags(tags: Option<Vec<String>>) -> Seq<Seq<char>> {
    match tags {
        Some(t) => texts(t@),
        None => Seq::empty(),
    }
}

/// Put a memory of the group.
pub fn run_memory_put(store: &mut Store, scope: &str, params: &MemoryPutParams, now: i64) -> (r:
    Result<MemoryPutResponse, ToolError>)
    requires
        old(store).wf(),
    ensures
        final(store).wf(),
        match r {
            Ok(out) => {
                &&& old(store).index_db is Some
                &&& final(store).index_db is Some
                &&& is_put(
                    old(store).index_db->0,
                    final(store).index_db->0,
                    raw_key(scope@, MEMORY_VIS_GROUP, ""@, params.key@),
                    params.value@,
                    asked_tags(params.tags),
                    now,
                    (out.created_at, out.updated_at),
                )
                &&& out.key@ == params.key@
                &&& out.to_embed is Some == params.embed
                &&& out.to_embed matches Some(row) ==> {
                    &&& row.scope@ == scope@
                    &&& row.key@ == params.key@
                    &&& row.value@ == params.value@
                    &&& texts(row.tags@) == asked_tags(params.tags)
                    &&& row.created_at == out.created_at
                    &&& row.updated_at == now
                }
            },
            Err(e) => old(store).index_db is None && *final(store) == *old(store)
                && is_unavailable(e, "memory_by_key index not available"@),
        },
{
    match &mut store.index_db {
        Some(idx) => {
            let tags = match &params.tags {
                Some(t) => copy_texts(t.as_slice()),
                None => Vec::new(),
            };
            assert(texts(tags@) =~= asked_tags(params.tags));
            let (created_at, updated_at) = put_core(
                idx,
                scope,
                MEMORY_VIS_GROUP,
                "",
                params.key.as_str(),
                params.value.as_str(),
                tags.as_slice(),
                now,
            );
            let to_embed = if params.embed {
                Some(
                    MemoryRow {
                        scope: scope.to_string(),
                        key: params.key.clone(),
                        value: params.value.clone(),
                        tags,
                        created_at,
                        updated_at,
                    },
                )
            } else {
                None
            };
            Ok(MemoryPutResponse { key: params.key.clone(), created_at, updated_at, to_embed })
        },
        None => Err(ToolError::Internal(String::from_str("memory_by_key index not available"))),
    }
}

/// Get a memory of the group, in full.
pub fn run_memory_get(store: &Store, scope: &str, key: &str) -> (r: Result<
    Option<WireMemoryEntry>,
    ToolError,
>)
    requires
        store.wf(),
    ensures
        match r {
            Ok(entry) => store.index_db is Some && is_got(
                entry,
                store.index_db->0,
                raw_key(scope@, MEMORY_VIS_GROUP, ""@, key@),
                key@,
            ),
            Err(e) => store.index_db is None && is_unavailable(
                e,
                "memory_by_key index not available"@,
            ),
        },
{
    match &store.index_db {
        Some(idx) => Ok(get_core(idx, scope, MEMORY_VIS_GROUP, "", key)),
        None => Err(ToolError::Internal(String::from_str("memory_by_key index not available"))),
    }
}

/// Delete a memory of the group. The result says whether there was one.
pub fn run_memory_delete(store: &mut Store, scope: &str, key: &str) -> (r: Result<bool, ToolError>)
    requires
        old(store).wf(),
    ensures
        final(store).wf(),
        match r {
            Ok(deleted) => old(store).index_db is Some && final(store).index_db is Some && is_delete(
                old(store).index_db->0,
                final(store).index_db->0,
                raw_key(scope@, MEMORY_VIS_GROUP, ""@, key@),
                deleted,
            ),
            Err(e) => old(store).index_db is None && *final(store) == *old(store)
                && is_unavailable(e, "memory_by_key index not available"@),
        },
{
    match &mut store.index_db {
        Some(idx) => Ok(delete_core(idx, scope, MEMORY_VIS_GROUP, "", key)),
        None => Err(ToolError::Internal(String::from_str("memory_by_key index not available"))),
    }
}

/// A request to list memories.
#[derive(Debug)]
pub struct MemoryListParams {
    pub prefix: Option<String>,
    pub tag: Option<String>,
    pub limit: Option<u32>,
    pub cursor: Option<Cursor>,
}

/// A page of memories.
#[derive(Debug)]
pub struct MemoryListResponse {
    pub total: usize,
    pub truncated: bool,
    pub entries: Vec<WireMemoryEntry>,
    pub next_cursor: Option<Cursor>,
}

/// The text, or nothing.
pub open spec fn text_or_empty(s: Option<String>) -> Seq<char> {
    match s {
        Some(t) => t@,
        None => ""@,
    }
}

/// The text of a key cursor.
pub open spec fn key_cursor(k: Option<Seq<u8>>) -> Option<Seq<char>> {
    match k {
        Some(b) => Some(base64(b)),
        None => None,
    }
}

/// `cursor` is the text of the key cursor `k`, where there is one.
pub open spec fn cursor_is(cursor: Option<Cursor>, k: Option<Seq<u8>>) -> bool {
    cursor_text(cursor) == key_cursor(k)
}

fn decode_cursor(cursor: &Option<Cursor>) -> (r: Result<Option<Vec<u8>>, ToolError>)
    ensures
        match r {
            Ok(k) => cursor_is(*cursor, opt_bytes(k)),
            Err(e) => e is InvalidParams && e.text() == "invalid cursor"@ && cursor is Some && forall|
                v: Seq<u8>,
            | #[trigger]
                base64(v) != (cursor->0).0@,
        },
{
    match cursor {
        Some(c) => match c.decode_fjall() {
            Ok(k) => Ok(Some(k)),
            Err(e) => Err(e),
        },
        None => Ok(None),
    }
}

fn encode_cursor(k: &Option<Vec<u8>>) -> (c: Option<Cursor>)
    ensures
        cursor_is(c, opt_bytes(*k)),
{
    match k {
        Some(b) => Some(Cursor::encode_fjall(b.as_slice())),
        None => None,
    }
}

/// Whether a cursor is none: no key encodes to its text.
pub open spec fn is_bad_cursor(cursor: Option<Cursor>) -> bool {
    cursor is Some && forall|v: Seq<u8>| #[trigger] base64(v) != (cursor->0).0@
}

/// `out` is the page of memories that `params` ask for, resumed after the key `from`.
pub open spec fn is_memory_page(
    out: MemoryListResponse,
    idx: IndexDb,
    scope: Seq<char>,
    params: MemoryListParams,
    from: Option<Seq<u8>>,
) -> bool {
    exists|next: Option<Vec<u8>>| #[trigger]
        cursor_is(out.next_cursor, opt_bytes(next)) && is_list_page(
            (ListPage {
                entries: out.entries,
                total: out.total,
                truncated: out.truncated,
                next_cursor: next,
            }),
            listing(
                idx.memory_by_key.rows@,
                memory_prefix(encode_utf8(scope), MEMORY_VIS_GROUP, encode_utf8(""@)),
                from,
                text_or_empty(params.prefix),
                opt_text(params.tag),
            ),
            bounded(params.limit, SEARCH_LIMIT_DEFAULT, SEARCH_LIMIT_MAX) as int,
            usize::MAX as int,
        )
}

/// List the memories of the group.
pub fn run_memory_list(store: &Store, scope: &str, params: &MemoryListParams) -> (r: Result<
    MemoryListResponse,
    ToolError,
>)
    requires
        store.wf(),
    ensures
        match r {
            Ok(out) => store.index_db is Some && exists|from: Option<Seq<u8>>| #[trigger]
                cursor_is(params.cursor, from) && is_memory_page(
                    out,
                    store.index_db->0,
                    scope@,
                    *params,
                    from,
                ),
            Err(e) => if store.index_db is None {
                is_unavailable(e, "memory_by_key index not available"@)
            } else {
                is_bad_cursor(params.cursor) && e is InvalidParams && e.text()
                    == "invalid cursor"@
            },
        },
{
    let idx = match &store.index_db {
        Some(idx) => idx,
        None => {
            return Err(
                ToolError::Internal(String::from_str("memory_by_key index not available")),
            );
        },
    };
    let limit: u32 = bound(params.limit, SEARCH_LIMIT_DEFAULT, SEARCH_LIMIT_MAX);
    let from = match decode_cursor(&params.cursor) {
        Ok(k) => k,
        Err(e) => {
            return Err(e);
        },
    };
    let query = ListQuery {
        vis_byte: MEMORY_VIS_GROUP,
        owner: "",
        key_prefix: match &params.prefix {
            Some(p) => p.as_str(),
            None => "",
        },
        tag: match &params.tag {
            Some(t) => Some(t.as_str()),
            None => None,
        },
        limit: limit as usize,
        cursor: match &from {
            Some(k) => Some(k.as_slice()),
            None => None,
        },
    };
    let result = list_upto(idx, scope, &query, usize::MAX);
    let next_cursor = encode_cursor(&result.next_cursor);
    let out = MemoryListResponse {
        total: result.total,
        truncated: result.truncated,
        entries: result.entries,
        next_cursor,
    };
    proof {
        assert(cursor_is(params.cursor, opt_bytes(from)));
        assert(cursor_is(out.next_cursor, opt_bytes(result.next_cursor)));
        assert(ListPage {
            entries: out.entries,
            total: out.total,
            truncated: out.truncated,
            next_cursor: result.next_cursor,
        } == result);
    }
    Ok(out)
}

/// How many hits a search by meaning asks for.
pub fn semantic_limit(limit: Option<u32>) -> (n: usize)
    ensures
        n == bounded(limit, 10, 100),
{
    bound(limit, 10, 100) as usize
}

// ─── Proposal tools ──────────────────────────────────────────────────────────

/// A request to list proposals.
#[derive(Debug)]
pub struct ProposalsListParams {
    pub kind: Option<String>,
    pub limit: Option<u32>,
    pub cursor: Option<Cursor>,
}

/// A page of proposals.
#[derive(Debug)]
pub struct ProposalsListResponse {
    pub total: usize,
    pub truncated: bool,
    pub proposals: Vec<ProposalItem>,
    pub next_cursor: Option<Cursor>,
}

/// The kinds that a listing walks: the one asked for, or both. Tombstones are never listed.
pub open spec fn listed_kinds(kind: Option<Seq<char>>) -> Seq<u8> {
    if kind == Some("skill"@) {
        seq![PROPOSAL_KIND_SKILL]
    } else if kind == Some("memory"@) {
        seq![PROPOSAL_KIND_MEMORY]
    } else {
        seq![PROPOSAL_KIND_MEMORY, PROPOSAL_KIND_SKILL]
    }
}

fn kinds_of(kind: &Option<String>) -> (kinds: Vec<u8>)
    ensures
        kinds@ == listed_kinds(opt_text(*kind)),
{
    let mut kinds: Vec<u8> = Vec::new();
    if opt_is(kind, "skill") {
        kinds.push(PROPOSAL_KIND_SKILL);
    } else if opt_is(kind, "memory") {
        kinds.push(PROPOSAL_KIND_MEMORY);
    } else {
        kinds.push(PROPOSAL_KIND_MEMORY);
        kinds.push(PROPOSAL_KIND_SKILL);
    }
    assert(kinds@ =~= listed_kinds(opt_text(*kind)));
    kinds
}

/// How many rows of one kind a listing of this many proposals walks.
pub open spec fn list_cap(limit: int) -> int {
    if limit * 8 > 1000 {
        limit * 8
    } else {
        1000
    }
}

/// `out` is the page of proposals that `params` ask for, resumed after the key `from`.
pub open spec fn is_proposals_answer(
    out: ProposalsListResponse,
    idx: IndexDb,
    scope: Seq<char>,
    params: ProposalsListParams,
    from: Option<Seq<u8>>,
) -> bool {
    let limit = bounded(params.limit, DEFAULT_LIST_LIMIT, MAX_LIST_LIMIT) as int;
    let kinds = listed_kinds(opt_text(params.kind));
    out.total == out.proposals@.len() && exists|next: Option<Vec<u8>>| #[trigger]
        cursor_is(out.next_cursor, opt_bytes(next)) && is_proposal_page(
            (ProposalListResult {
                items: out.proposals,
                truncated: out.truncated,
                next_cursor: next,
            }),
            listed_upto(
                idx.proposals.rows@,
                scope,
                kinds,
                limit,
                list_cap(limit),
                from,
                kinds.len() as int,
            ),
        )
}

/// List pending proposals.
pub fn run_proposals_list(store: &Store, scope: &str, params: &ProposalsListParams) -> (r: Result<
    ProposalsListResponse,
    ToolError,
>)
    requires
        store.wf(),
    ensures
        match r {
            Ok(out) => store.index_db is Some && exists|from: Option<Seq<u8>>| #[trigger]
                cursor_is(params.cursor, from) && is_proposals_answer(
                    out,
                    store.index_db->0,
                    scope@,
                    *params,
                    from,
                ),
            Err(e) => if store.index_db is None {
                is_unavailable(e, "proposals index not available"@)
            } else {
                is_bad_cursor(params.cursor) && e is InvalidParams && e.text()
                    == "invalid cursor"@
            },
        },
{
    let idx = match &store.index_db {
        Some(idx) => idx,
        None => {
            return Err(ToolError::Internal(String::from_str("proposals index not available")));
        },
    };
    let limit: usize = bound(params.limit, DEFAULT_LIST_LIMIT, MAX_LIST_LIMIT) as usize;
    let cap: usize = if limit * 8 > 1000 {
        limit * 8
    } else {
        1000
    };
    let kinds = kinds_of(&params.kind);
    let from = match decode_cursor(&params.cursor) {
        Ok(k) => k,
        Err(e) => {
            return Err(e);
        },
    };
    let cursor = match &from {
        Some(k) => Some(k.as_slice()),
        None => None,
    };
    let result = crate::proposal_ops::list_core(
        idx,
        scope,
        kinds.as_slice(),
        limit,
        cap,
        cursor,
    );
    let next_cursor = encode_cursor(&result.next_cursor);
    let out = ProposalsListResponse {
        total: result.items.len(),
        truncated: result.truncated,
        proposals: result.items,
        next_cursor,
    };
    proof {
        assert(cursor_is(params.cursor, opt_bytes(from)));
        assert(cursor_is(out.next_cursor, opt_bytes(result.next_cursor)));
        assert(ProposalListResult {
            items: out.proposals,
            truncated: out.truncated,
            next_cursor: result.next_cursor,
        } == result);
    }
    Ok(out)
}

/// Listing goes on: where a page stopped and its cursor is handed in, the next page shows the
/// proposals right behind it. So no proposal is skipped, and none comes again.
pub proof fn law_proposals_list_goes_on(
    idx: IndexDb,
    scope: Seq<char>,
    params: ProposalsListParams,
    next_params: ProposalsListParams,
    page: ProposalsListResponse,
    next_page: ProposalsListResponse,
    from: Option<Seq<u8>>,
    next: Option<Seq<u8>>,
)
    requires
        idx.wf(),
        opt_text(params.kind) == opt_text(next_params.kind),
        is_proposals_answer(page, idx, scope, params, from),
        is_proposals_answer(next_page, idx, scope, next_params, next),
        page.next_cursor is Some,
        cursor_is(page.next_cursor, next),
    ensures
        ({
            let kinds = listed_kinds(opt_text(params.kind));
            let all = proposals_upto(idx.proposals.rows@, scope, kinds, from, kinds.len() as int);
            let n = page.proposals@.len() as int;
            let m = next_page.proposals@.len() as int;
            &&& n + m <= all.len()
            &&& show_rows(page.proposals@, all.take(n))
            &&& show_rows(next_page.proposals@, all.subrange(n, n + m))
            &&& !next_page.truncated ==> n + m == all.len()
        }),
{
    let kinds = listed_kinds(opt_text(params.kind));
    let rows = idx.proposals.rows@;
    let len = kinds.len() as int;
    let limit = bounded(params.limit, DEFAULT_LIST_LIMIT, MAX_LIST_LIMIT) as int;
    let next_limit = bounded(next_params.limit, DEFAULT_LIST_LIMIT, MAX_LIST_LIMIT) as int;
    let l = listed_upto(rows, scope, kinds, limit, list_cap(limit), from, len);
    let k = listed_upto(rows, scope, kinds, next_limit, list_cap(next_limit), next, len);
    let all = proposals_upto(rows, scope, kinds, from, len);
    assert(distinct_kinds(kinds));
    law_proposal_pages_chain(idx, scope, kinds, limit, list_cap(limit), from);
    law_proposal_pages_chain(idx, scope, kinds, next_limit, list_cap(next_limit), next);
    let last = l.found.last().key@;
    assert(l.found.len() > 0 && next == Some(last)) by {
        let stored = choose|v: Option<Vec<u8>>| #[trigger]
            cursor_is(page.next_cursor, opt_bytes(v)) && is_proposal_page(
                (ProposalListResult {
                    items: page.proposals,
                    truncated: page.truncated,
                    next_cursor: v,
                }),
                l,
            );
        law_base64_injective(last, next->0);
    }
    let n = l.found.len() as int;
    let m = k.found.len() as int;
    assert(all.skip(n).take(m) =~= all.subrange(n, n + m));
}

/// Reject a proposal.
pub fn run_proposal_reject(store: &mut Store, scope: &str, id: &str) -> (r: Result<bool, ToolError>)
    requires
        old(store).wf(),
    ensures
        final(store).wf(),
        match r {
            Ok(rejected) => {
                &&& rejected
                &&& old(store).index_db is Some
                &&& final(store).index_db is Some
                &&& final(store).index_db->0.memory_by_key == old(store).index_db->0.memory_by_key
                &&& final(store).index_db->0.memory_archive == old(store).index_db->0.memory_archive
                &&& final(store).index_db->0.proposals.map() == old(
                    store,
                ).index_db->0.proposals.map().remove(skill_key(scope@, id@)).insert(
                    tombstone_key(scope@, id@),
                    None,
                )
            },
            Err(e) => old(store).index_db is None && *final(store) == *old(store)
                && is_unavailable(e, "proposals index not available"@),
        },
{
    match &mut store.index_db {
        Some(idx) => {
            reject_core(idx, scope, id);
            Ok(true)
        },
        None => Err(ToolError::Internal(String::from_str("proposals index not available"))),
    }
}

/// A request to accept a proposal.
#[derive(Debug)]
pub struct ProposalAcceptParams {
    pub id: String,
    /// The key of the memory; derived from the id where it is not given.
    pub key: Option<String>,
}

/// The answer to an acceptance, and the row to embed.
#[derive(Debug)]
pub struct ProposalAcceptResponse {
    pub accepted: bool,
    pub memory_key: String,
    pub to_embed: MemoryRow,
}

/// The first bytes of an id.
pub open spec fn short_id(id: Seq<char>) -> Seq<u8> {
    crate::governance::upto(encode_utf8(id), SHORT_ID_LEN as int)
}

/// `key` is the key of the memory that an accepted proposal becomes.
pub open spec fn is_memory_key_for(key: Seq<char>, params: ProposalAcceptParams) -> bool {
    match params.key {
        Some(k) => key == k@,
        None => exists|short: Seq<char>| #[trigger]
            encode_utf8(short) == short_id(params.id@) && key == "skill/cochange-"@ + short,
    }
}

fn memory_key_for(params: &ProposalAcceptParams) -> (key: String)
    requires
        params.key is None ==> valid_utf8(short_id(params.id@)),
    ensures
        is_memory_key_for(key@, *params),
{
    match &params.key {
        Some(k) => k.clone(),
        None => {
            let bytes = params.id.as_str().as_bytes();
            let n: usize = if bytes.len() < SHORT_ID_LEN {
                bytes.len()
            } else {
                SHORT_ID_LEN
            };
            let front = vstd::slice::slice_subrange(bytes, 0, n);
            assert(front@ =~= short_id(params.id@));
            let mut key = String::from_str("skill/cochange-");
            match utf8_text(front) {
                Some(short) => {
                    key.append(short.as_str());
                },
                None => {},
            }
            key
        },
    }
}

/// The tags of a memory that comes from a mined proposal.
pub open spec fn cochange_tags() -> Seq<Seq<char>> {
    seq!["skill"@, "cochange"@]
}

fn make_tags() -> (tags: Vec<String>)
    ensures
        texts(tags@) == cochange_tags(),
{
    let mut tags: Vec<String> = Vec::new();
    tags.push(String::from_str("skill"));
    tags.push(String::from_str("cochange"));
    assert(texts(tags@) =~= cochange_tags());
    tags
}

/// Whether every file of a list is in the code map.
pub open spec fn all_mapped(code: CodeState, files: Seq<Seq<u8>>) -> bool {
    forall|i: int|
        0 <= i < files.len() ==> crate::model::file_table(code.files@).contains_key(
            #[trigger] files[i],
        )
}

/// What a proposal's memory says. It rests on the proposal's files, and is verified where all of
/// them are mapped, stale where one is not.
pub open spec fn accepted_record(
    p: crate::proposals::ProposalFact,
    code: CodeState,
    importance_bits: u32,
    now: i64,
) -> RecordFact {
    RecordFact {
        value: p.description,
        tags: cochange_tags(),
        created_at: now,
        updated_at: now,
        files: p.files,
        symbols: Seq::empty(),
        commands: Seq::empty(),
        verified: if p.files.len() == 0 {
            VerifyState::Unverified
        } else if all_mapped(code, p.files) {
            VerifyState::Verified
        } else {
            VerifyState::Stale
        },
        last_verified: now,
        importance_bits,
    }
}

/// Whether a proposal of this id is there and can be read.
pub open spec fn is_pending(store: Store, scope: Seq<char>, id: Seq<char>) -> bool {
    let raw = skill_key(scope, id);
    &&& store.index_db is Some
    &&& store.index_db->0.proposals.map().contains_key(raw)
    &&& store.index_db->0.proposals.map()[raw] is Some
}

/// Accept a proposal: it becomes a memory of the group, audited on the spot, and leaves the
/// proposals. `importance_bits` are the bits of its support over its window; `fault` is what the
/// decoder says of its row where that cannot be read.
pub fn run_proposal_accept(
    store: &mut Store,
    code: &CodeState,
    scope: &str,
    params: &ProposalAcceptParams,
    importance_bits: u32,
    fault: &str,
    now: i64,
) -> (r: Result<ProposalAcceptResponse, ToolError>)
    requires
        old(store).wf(),
        code.wf(),
        params.key is None && is_pending(*old(store), scope@, params.id@) ==> valid_utf8(
            short_id(params.id@),
        ),
    ensures
        final(store).wf(),
        r is Ok == is_pending(*old(store), scope@, params.id@),
        match r {
            Ok(out) => {
                let before = old(store).index_db->0;
                let after = final(store).index_db->0;
                let raw = skill_key(scope@, params.id@);
                let p = before.proposals.map()[raw]->0@;
                &&& old(store).index_db is Some
                &&& final(store).index_db is Some
                &&& before.proposals.map().contains_key(raw)
                &&& before.proposals.map()[raw] is Some
                &&& out.accepted
                &&& is_memory_key_for(out.memory_key@, *params)
                &&& after.memory_archive == before.memory_archive
                &&& record_facts(after.memory_by_key.map()) == record_facts(
                    before.memory_by_key.map(),
                ).insert(
                    raw_key(scope@, MEMORY_VIS_GROUP, ""@, out.memory_key@),
                    Some(accepted_record(p, *code, importance_bits, now)),
                )
                &&& after.proposals.map() == before.proposals.map().remove(raw)
                &&& out.to_embed.scope@ == scope@
                &&& out.to_embed.key@ == out.memory_key@
                &&& out.to_embed.value@ == p.description
                &&& texts(out.to_embed.tags@) == cochange_tags()
                &&& out.to_embed.created_at == now
                &&& out.to_embed.updated_at == now
            },
            Err(e) => {
                let raw = skill_key(scope@, params.id@);
                &&& *final(store) == *old(store)
                &&& if old(store).index_db is None {
                    is_unavailable(e, "proposals index not available"@)
                } else if !old(store).index_db->0.proposals.map().contains_key(raw) {
                    e is InvalidParams && e.text() == "proposal not found: "@ + params.id@
                } else {
                    &&& old(store).index_db->0.proposals.map()[raw] is None
                    &&& is_unavailable(e, "decode proposal: "@ + fault@)
                }
            },
        },
{
    let raw = proposal_by_id(scope, PROPOSAL_KIND_SKILL, params.id.as_str());
    match &mut store.index_db {
        Some(idx) => {
            let ghost before = *idx;
            let (value, files) = match idx.proposals.get(raw.as_slice()) {
                Some(p) => (p.description.clone(), copy_paths(p.files.as_slice())),
                None => {
                    if idx.proposals.has(raw.as_slice()) {
                        let mut t = String::from_str("decode proposal: ");
                        t.append(fault);
                        return Err(ToolError::Internal(t));
                    }
                    let mut t = String::from_str("proposal not found: ");
                    t.append(params.id.as_str());
                    return Err(ToolError::InvalidParams(t));
                },
            };
            let ghost p = before.proposals.map()[raw@]->0@;
            let memory_key = memory_key_for(params);
            let mut record = MemoryRecord {
                value: value.clone(),
                tags: make_tags(),
                created_at: now,
                updated_at: now,
                provenance: Provenance { files, symbols: Vec::new(), commands: Vec::new() },
                verified: VerifyState::Unverified,
                last_verified: 0,
                importance_bits,
            };
            let verdict = audit_one_record(code, &record);
            proof {
                let fs = record.provenance.files@;
                assert(p.files.len() == fs.len());
                assert forall|i: int| 0 <= i < fs.len() implies p.files[i] == (
                #[trigger] fs[i])@ by {
                    assert(crate::proposals::paths_of(fs)[i] == fs[i]@);
                }
                if fs.len() > 0 {
                    crate::audit::law_stale_when_a_file_is_gone(*code, record);
                    if all_mapped(*code, p.files) {
                        assert forall|i: int| 0 <= i < fs.len() implies crate::model::file_table(
                            code.files@,
                        ).contains_key((#[trigger] fs[i])@) by {
                            assert(crate::model::file_table(code.files@).contains_key(p.files[i]));
                        }
                    } else {
                        let i = choose|i: int|
                            0 <= i < p.files.len() && !crate::model::file_table(
                                code.files@,
                            ).contains_key(#[trigger] p.files[i]);
                        assert(!crate::model::file_table(code.files@).contains_key(fs[i]@));
                    }
                } else {
                    assert(verdict_state(*code, record) == VerifyState::Unverified);
                }
            }
            record.verified = verdict.state;
            record.last_verified = now;
            proof {
                assert(record@.files =~= p.files);
                assert(record@.symbols =~= Seq::empty());
                assert(record@.commands =~= Seq::empty());
                assert(record@ == accepted_record(p, *code, importance_bits, now));
            }
            promote_core(idx, scope, memory_key.as_str(), &record, params.id.as_str());
            let to_embed = MemoryRow {
                scope: scope.to_string(),
                key: memory_key.clone(),
                value,
                tags: make_tags(),
                created_at: now,
                updated_at: now,
            };
            Ok(ProposalAcceptResponse { accepted: true, memory_key, to_embed })
        },
        None => Err(ToolError::Internal(String::from_str("proposals index not available"))),
    }
}

/// A request to mine proposals.
#[derive(Debug)]
pub struct ProposalsMineParams {
    pub window: Option<u32>,
    pub min_support: Option<u32>,
    pub max_files_per_commit: Option<u32>,
}

/// The answer to a mining request.
#[derive(Debug)]
pub struct ProposalsMineResponse {
    pub mined: u32,
    pub window_inspected: u32,
    pub skipped_bulk: u32,
}

/// The bounds that a request asks for.
pub open spec fn bounds_of(params: ProposalsMineParams) -> MineBounds {
    MineBounds {
        window: bounded(params.window, DEFAULT_MINE_WINDOW, MAX_MINE_WINDOW),
        min_support: match params.min_support {
            Some(n) => n,
            None => DEFAULT_MIN_SUPPORT,
        },
        max_files_per_commit: bounded(
            params.max_files_per_commit,
            DEFAULT_MAX_FILES_PER_COMMIT,
            HARD_MAX_FILES_PER_COMMIT,
        ),
    }
}

proof fn lemma_weight_fits(commits: Seq<CommitFiles>, max_files: int, n: int)
    requires
        0 <= n <= commits.len(),
        0 <= max_files <= HARD_MAX_FILES_PER_COMMIT,
    ensures
        0 <= weight_upto(commits, max_files, n) <= n * 40200,
    decreases n,
{
    if n > 0 {
        lemma_weight_fits(commits, max_files, n - 1);
        let k = changed(commits[n - 1]).len() as int;
        if is_counted(commits[n - 1], max_files) {
            assert(0 <= k * (k + 1) <= 40200) by (nonlinear_arith)
                requires
                    0 <= k <= 200,
            ;
        }
    }
}

/// `cc` counts the commits, `items` are the proposals that the counts give, and `out` says how many
/// of them were written to the index.
pub open spec fn is_mining<F: Fn(u32, u32) -> bool>(
    before: IndexDb,
    after: IndexDb,
    scope: Seq<char>,
    commits: Seq<CommitFiles>,
    b: MineBounds,
    now: i64,
    confident: F,
    out: ProposalsMineResponse,
    cc: CoChange,
    items: Seq<ProposalItem>,
) -> bool {
    let m = proposal_facts(before.proposals.map());
    &&& cc.wf()
    &&& counts_are(cc, commits, b.max_files_per_commit as int, commits.len() as int)
    &&& exists|anchors: Seq<int>| #[trigger]
        are_proposals(items, anchors, cc, b, now, confident, cc.files@.len() as int)
    &&& proposal_facts(after.proposals.map()) == mined_upto(m, scope, items, items.len() as int)
    &&& out.mined == mined_count(m, scope, items, items.len() as int)
    &&& out.window_inspected == b.window
    &&& out.skipped_bulk == cc.skipped_bulk
}

/// `out` answers a mining of the commits that takes the index from `before` to `after`.
pub open spec fn mines<F: Fn(u32, u32) -> bool>(
    before: IndexDb,
    after: IndexDb,
    scope: Seq<char>,
    commits: Seq<CommitFiles>,
    b: MineBounds,
    now: i64,
    confident: F,
    out: ProposalsMineResponse,
) -> bool {
    exists|cc: CoChange, items: Seq<ProposalItem>| #[trigger]
        is_mining(before, after, scope, commits, b, now, confident, out, cc, items)
}

fn mine_index<F: Fn(u32, u32) -> bool>(
    idx: &mut IndexDb,
    scope: &str,
    params: &ProposalsMineParams,
    commits: &[CommitFiles],
    now: i64,
    confident: &F,
) -> (out: ProposalsMineResponse)
    requires
        old(idx).wf(),
        commits@.len() <= MAX_MINE_WINDOW,
        judges(*confident),
    ensures
        final(idx).wf(),
        final(idx).memory_by_key == old(idx).memory_by_key,
        final(idx).memory_archive == old(idx).memory_archive,
        mines(
            *old(idx),
            *final(idx),
            scope@,
            commits@,
            bounds_of(*params),
            now,
            *confident,
            out,
        ),
{
    let b = mine_bounds(params.window, params.min_support, params.max_files_per_commit);
    proof {
        lemma_weight_fits(commits@, b.max_files_per_commit as int, commits@.len() as int);
    }
    let cc = count_cochanges(commits, b.max_files_per_commit as usize);
    let items = mine_candidates(&cc, b, now, confident);
    let ghost before = *idx;
    proof {
        cc.lemma_facts();
    }
    let mined: u32 = apply_mine_core(idx, scope, &items);
    let out = ProposalsMineResponse {
        mined,
        window_inspected: b.window,
        skipped_bulk: cc.skipped_bulk,
    };
    proof {
        assert(b == bounds_of(*params));
        assert(is_mining(
            before,
            *idx,
            scope@,
            commits@,
            bounds_of(*params),
            now,
            *confident,
            out,
            cc,
            items@,
        ));
    }
    out
}

/// Mine proposals from the commits of the window: files that often change together. Whatever was
/// rejected before is left out.
pub fn run_proposals_mine<F: Fn(u32, u32) -> bool>(
    store: &mut Store,
    scope: &str,
    params: &ProposalsMineParams,
    commits: &[CommitFiles],
    now: i64,
    confident: &F,
) -> (r: Result<ProposalsMineResponse, ToolError>)
    requires
        old(store).wf(),
        commits@.len() <= MAX_MINE_WINDOW,
        judges(*confident),
    ensures
        final(store).wf(),
        match r {
            Ok(out) => {
                &&& old(store).index_db is Some
                &&& final(store).index_db is Some
                &&& final(store).index_db->0.memory_by_key == old(store).index_db->0.memory_by_key
                &&& final(store).index_db->0.memory_archive == old(store).index_db->0.memory_archive
                &&& mines(
                    old(store).index_db->0,
                    final(store).index_db->0,
                    scope@,
                    commits@,
                    bounds_of(*params),
                    now,
                    *confident,
                    out,
                )
            },
            Err(e) => old(store).index_db is None && *final(store) == *old(store)
                && is_unavailable(e, "proposals index not available"@),
        },
{
    match &mut store.index_db {
        Some(idx) => Ok(mine_index(idx, scope, params, commits, now, confident)),
        None => Err(ToolError::Internal(String::from_str("proposals index not available"))),
    }
}

} // verus!
