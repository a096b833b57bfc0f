use basemind::audit::{audit_one_record, CodeState, ParsedFile};
use basemind::cochange::{ChangedFile, CommitFiles};
use basemind::cursor::Cursor;
use basemind::governance::{
    audit_persist_core, audit_scope_on_rescan, decay, evaluate_one, run_memory_audit, AuditMutation, MemoryAuditParams,
    ARCHIVE_AFTER_MICROS,
};
use basemind::keys::{
    memory_by_key, parse_memory_by_key, parse_memory_key_only, parse_proposal_by_id, prefix_upper_bound, proposal_by_id,
    MEMORY_VIS_GROUP, MEMORY_VIS_INDIVIDUAL, PROPOSAL_KIND_MEMORY, PROPOSAL_KIND_SKILL, PROPOSAL_KIND_TOMBSTONE,
};
use basemind::memory::{
    delete_core, get_core, list_core, preview, put_core, run_memory_op, IndexDb, ListQuery, MemoryOp, MemoryOutcome,
    MemoryRecord, Provenance, Store, SymbolRef, VerifyState, Visibility,
};
use basemind::memory_tools::{
    run_memory_delete, run_memory_get, run_memory_list, run_memory_put, run_proposal_accept, run_proposal_reject,
    run_proposals_list, run_proposals_mine, semantic_limit, MemoryListParams, MemoryPutParams, ProposalAcceptParams,
    ProposalsListParams, ProposalsMineParams,
};
use basemind::model::{FileMapL1, MappedFile, RelPath, Symbol, SymbolKind};
use basemind::proposal_ops::{
    apply_mine_core, audit_scan_core, promote_core, run_governance_op, AuditScanArgs, GovernanceOp, GovernanceOutcome,
};
use basemind::proposals::{build_description, mine_bounds, proposal_id, ProposalItem, ProposalRecord};
use basemind::syntax::SyntaxNode;

fn tags(list: &[&str]) -> Vec<String> {
    list.iter().map(|s| s.to_string()).collect()
}

fn put(idx: &mut IndexDb, key: &str, value: &str, list: &[&str], now: i64) -> (i64, i64) {
    put_core(idx, "repo", MEMORY_VIS_GROUP, "", key, value, &tags(list), now)
}

fn query<'a>(prefix: &'a str, tag: Option<&'a str>, limit: usize, cursor: Option<&'a [u8]>) -> ListQuery<'a> {
    ListQuery { vis_byte: MEMORY_VIS_GROUP, owner: "", key_prefix: prefix, tag, limit, cursor }
}

#[test]
fn a_get_gives_back_what_was_put() {
    let mut idx = IndexDb::new();
    assert_eq!(put(&mut idx, "k", "v", &["a"], 10), (10, 10));
    let e = get_core(&idx, "repo", MEMORY_VIS_GROUP, "", "k").unwrap();
    assert_eq!((e.key.as_str(), e.value.as_str(), e.created_at, e.updated_at), ("k", "v", 10, 10));
    assert_eq!(e.tags, tags(&["a"]));
    assert!(get_core(&idx, "repo", MEMORY_VIS_INDIVIDUAL, "me", "k").is_none());
    assert!(get_core(&idx, "other", MEMORY_VIS_GROUP, "", "k").is_none());
}

#[test]
fn a_second_put_keeps_the_first_creation() {
    let mut idx = IndexDb::new();
    put(&mut idx, "k", "v", &[], 10);
    assert_eq!(put(&mut idx, "k", "w", &[], 25), (10, 25));
    assert_eq!(get_core(&idx, "repo", MEMORY_VIS_GROUP, "", "k").unwrap().value, "w");
}

#[test]
fn a_deleted_memory_is_gone() {
    let mut idx = IndexDb::new();
    put(&mut idx, "k", "v", &[], 1);
    put(&mut idx, "l", "v", &[], 1);
    assert!(delete_core(&mut idx, "repo", MEMORY_VIS_GROUP, "", "k"));
    assert!(!delete_core(&mut idx, "repo", MEMORY_VIS_GROUP, "", "k"));
    assert!(get_core(&idx, "repo", MEMORY_VIS_GROUP, "", "k").is_none());
    assert!(get_core(&idx, "repo", MEMORY_VIS_GROUP, "", "l").is_some());
}

#[test]
fn previews_are_clipped_by_characters() {
    let exact = "ä".repeat(200);
    assert_eq!(preview(&exact), exact);
    assert_eq!(preview(&"ä".repeat(201)), format!("{exact}…"));
    assert_eq!(preview("short"), "short");
}

#[test]
fn listings_filter_and_page() {
    let mut idx = IndexDb::new();
    for k in ["b/1", "a/2", "a/1", "a/3"] {
        put(&mut idx, k, k, if k == "a/2" { &["x"] } else { &[] }, 1);
    }
    let page = list_core(&idx, "repo", &query("a/", None, 2, None));
    let keys: Vec<&str> = page.entries.iter().map(|e| e.key.as_str()).collect();
    assert_eq!(keys, ["a/1", "a/2"]);
    assert_eq!((page.total, page.truncated), (3, true));
    let cursor = page.next_cursor.unwrap();
    assert_eq!(cursor, memory_by_key("repo", MEMORY_VIS_GROUP, "", "a/2"));
    let rest = list_core(&idx, "repo", &query("a/", None, 2, Some(&cursor)));
    assert_eq!(rest.entries.len(), 1);
    assert_eq!(rest.entries[0].key, "a/3");
    assert!(!rest.truncated && rest.next_cursor.is_none());
    let tagged = list_core(&idx, "repo", &query("", Some("x"), 9, None));
    assert_eq!(tagged.entries.len(), 1);
    let nothing = list_core(&idx, "repo", &query("", None, 0, None));
    assert_eq!((nothing.total, nothing.truncated, nothing.next_cursor), (4, true, None));
}

#[test]
fn operations_answer_in_kind() {
    let mut idx = IndexDb::new();
    let op = MemoryOp::Put {
        vis_byte: MEMORY_VIS_GROUP,
        owner: String::new(),
        key: "k".to_string(),
        value: "v".to_string(),
        tags: vec![],
    };
    assert!(matches!(
        run_memory_op(&mut idx, "s", &op, 7),
        MemoryOutcome::Put { created_at: 7, updated_at: 7 }
    ));
    let get = MemoryOp::Get { vis_byte: MEMORY_VIS_GROUP, owner: String::new(), key: "k".to_string() };
    assert!(matches!(run_memory_op(&mut idx, "s", &get, 8), MemoryOutcome::Got(Some(_))));
    let list = MemoryOp::List {
        vis_byte: MEMORY_VIS_GROUP,
        owner: String::new(),
        prefix: String::new(),
        tag: None,
        limit: 5,
        cursor: None,
    };
    assert!(matches!(run_memory_op(&mut idx, "s", &list, 8), MemoryOutcome::Listed { total: 1, .. }));
    let delete = MemoryOp::Delete { vis_byte: MEMORY_VIS_GROUP, owner: String::new(), key: "k".to_string() };
    assert!(matches!(run_memory_op(&mut idx, "s", &delete, 9), MemoryOutcome::Deleted { deleted: true }));
    assert!(matches!(run_memory_op(&mut idx, "s", &get, 9), MemoryOutcome::Got(None)));
}

#[test]
fn raw_keys_split_back() {
    let raw = memory_by_key("repo", MEMORY_VIS_INDIVIDUAL, "me", "a/b");
    assert_eq!(raw, b"repo\0\x01me\0a/b");
    assert_eq!(parse_memory_key_only(&raw).as_deref(), Some("a/b"));
    let parts = parse_memory_by_key(&raw).unwrap();
    assert_eq!((parts.vis, parts.owner.as_str(), parts.key.as_str()), (MEMORY_VIS_INDIVIDUAL, "me", "a/b"));
    assert!(parse_memory_by_key(b"no separators").is_none());
    let p = proposal_by_id("repo", PROPOSAL_KIND_SKILL, "id");
    assert_eq!(parse_proposal_by_id(&p).as_deref(), Some("id"));
    assert_eq!(prefix_upper_bound(b"ab"), Some(b"ac".to_vec()));
    assert_eq!(prefix_upper_bound(&[0x61, 0xff]), Some(b"b".to_vec()));
    assert_eq!(prefix_upper_bound(&[0xff, 0xff]), None);
}

fn no_store() -> Store {
    Store { index_db: None }
}

fn some_store() -> Store {
    Store { index_db: Some(IndexDb::new()) }
}

fn put_params(key: &str, embed: bool) -> MemoryPutParams {
    MemoryPutParams { key: key.to_string(), value: "v".to_string(), tags: Some(tags(&["t"])), embed }
}

#[test]
fn memory_tools_need_the_index() {
    let mut store = no_store();
    let text = "memory_by_key index not available";
    assert_eq!(run_memory_put(&mut store, "s", &put_params("k", false), 1).unwrap_err().message(), text);
    assert_eq!(run_memory_get(&store, "s", "k").unwrap_err().message(), text);
    assert_eq!(run_memory_delete(&mut store, "s", "k").unwrap_err().message(), text);
    let list = MemoryListParams { prefix: None, tag: None, limit: None, cursor: None };
    assert_eq!(run_memory_list(&store, "s", &list).unwrap_err().message(), text);
}

#[test]
fn a_put_hands_out_the_row_to_embed() {
    let mut store = some_store();
    let out = run_memory_put(&mut store, "s", &put_params("k", true), 4).unwrap();
    let row = out.to_embed.unwrap();
    assert_eq!((row.scope.as_str(), row.key.as_str(), row.value.as_str()), ("s", "k", "v"));
    assert_eq!(row.tags, tags(&["t"]));
    assert!(run_memory_put(&mut store, "s", &put_params("l", false), 5).unwrap().to_embed.is_none());
    assert_eq!(run_memory_get(&store, "s", "k").unwrap().unwrap().created_at, 4);
    assert!(run_memory_delete(&mut store, "s", "k").unwrap());
}

#[test]
fn memory_list_pages_by_cursor() {
    let mut store = some_store();
    for k in ["a", "b", "c"] {
        run_memory_put(&mut store, "s", &put_params(k, false), 1).unwrap();
    }
    let mut params = MemoryListParams { prefix: None, tag: None, limit: Some(2), cursor: None };
    let first = run_memory_list(&store, "s", &params).unwrap();
    assert_eq!((first.total, first.truncated, first.entries.len()), (3, true, 2));
    params.cursor = first.next_cursor;
    let second = run_memory_list(&store, "s", &params).unwrap();
    assert_eq!(second.entries[0].key, "c");
    assert!(second.next_cursor.is_none());
    params.cursor = Some(Cursor("!".to_string()));
    assert_eq!(run_memory_list(&store, "s", &params).unwrap_err().message(), "invalid cursor");
    assert_eq!((semantic_limit(None), semantic_limit(Some(500)), semantic_limit(Some(3))), (10, 100, 3));
}

// ─── Audits ──────────────────────────────────────────────────────────────────

fn symbol(name: &str, kind: SymbolKind, start: u32, end: u32) -> Symbol {
    Symbol {
        name: name.to_string(),
        kind,
        start_byte: start,
        end_byte: end,
        start_row: 0,
        start_col: 0,
        signature: None,
        decorators: vec![],
    }
}

fn mapped(path: &str, symbols: Vec<Symbol>) -> MappedFile {
    MappedFile {
        path: RelPath::from_text(path),
        map: FileMapL1 {
            language: "rust".to_string(),
            size_bytes: 0,
            had_errors: false,
            error_count: 0,
            symbols,
            imports: vec![],
            implementations: vec![],
        },
    }
}

fn code(paths: &[&str]) -> CodeState {
    CodeState {
        files: paths.iter().map(|p| mapped(p, vec![symbol("f", SymbolKind::Function, 0, 4)])).collect(),
        indexed: paths.iter().map(|p| RelPath::from_text(p)).collect(),
        sources: vec![],
        known: vec![],
    }
}

fn record(files: &[&str], commands: &[&str]) -> MemoryRecord {
    MemoryRecord {
        value: "v".to_string(),
        tags: vec![],
        created_at: 1,
        updated_at: 1,
        provenance: Provenance {
            files: files.iter().map(|p| RelPath::from_text(p)).collect(),
            symbols: vec![],
            commands: tags(commands),
        },
        verified: VerifyState::Unverified,
        last_verified: 0,
        importance_bits: 1.0f32.to_bits(),
    }
}

fn with_symbol(kind: Option<&str>, name: &str, path: &str, hash: Option<Vec<u8>>) -> MemoryRecord {
    let mut r = record(&[], &[]);
    r.provenance.symbols.push(SymbolRef {
        path: RelPath::from_text(path),
        name: name.to_string(),
        kind: kind.map(str::to_string),
        structural_hash: hash,
    });
    r
}

#[test]
fn verdicts_follow_the_code() {
    let c = code(&["a.rs", "b.rs"]);
    let v = audit_one_record(&c, &record(&[], &[]));
    assert_eq!((v.state, v.reasons), (VerifyState::Unverified, tags(&["no provenance"])));
    let v = audit_one_record(&c, &record(&["a.rs", "gone.rs"], &[]));
    assert_eq!((v.state, v.reasons), (VerifyState::Stale, tags(&["file deleted: gone.rs"])));
    let v = audit_one_record(&c, &record(&["a.rs"], &[]));
    assert_eq!((v.state, v.reasons.len()), (VerifyState::Verified, 0));
    let v = audit_one_record(&c, &with_symbol(Some("function"), "f", "a.rs", None));
    assert_eq!(v.state, VerifyState::Verified);
    let v = audit_one_record(&c, &with_symbol(Some("struct"), "f", "a.rs", None));
    assert_eq!((v.state, v.reasons), (VerifyState::Stale, tags(&["symbol not found: f"])));
    let v = audit_one_record(&c, &with_symbol(None, "f", "z.rs", None));
    assert_eq!(v.reasons, tags(&["symbol not found: f (file gone: z.rs)"]));
}

#[test]
fn commands_only_warn() {
    let mut c = code(&["run.sh"]);
    let v = audit_one_record(&c, &record(&[], &["  run.sh --fast"]));
    assert_eq!((v.state, v.reasons.len()), (VerifyState::Unverified, 0));
    c.indexed.clear();
    let v = audit_one_record(&c, &record(&[], &["  run.sh --fast", "ls"]));
    assert_eq!(v.state, VerifyState::Unverified);
    assert_eq!(v.reasons, tags(&["command may be stale:   run.sh --fast"]));
    let v = audit_one_record(&c, &record(&["run.sh"], &["run.sh"]));
    assert_eq!(v.state, VerifyState::Verified);
}

#[test]
fn a_changed_body_is_stale() {
    let source = b"fn f".to_vec();
    let tree = SyntaxNode {
        kind: "function_item".to_string(),
        start: 0,
        end: 4,
        named: true,
        extra: false,
        children: vec![SyntaxNode {
            kind: "identifier".to_string(),
            start: 3,
            end: 4,
            named: true,
            extra: false,
            children: vec![],
        }],
    };
    let mut c = code(&["a.rs"]);
    c.sources.push(ParsedFile { path: RelPath::from_text("a.rs"), source, tree: Some(tree) });
    let v = audit_one_record(&c, &with_symbol(None, "f", "a.rs", Some(vec![0; 32])));
    assert_eq!((v.state, v.reasons), (VerifyState::Stale, tags(&["symbol body changed: f"])));
    c.sources.clear();
    let v = audit_one_record(&c, &with_symbol(None, "f", "a.rs", Some(vec![0; 32])));
    assert_eq!(v.state, VerifyState::Verified, "what cannot be read is not held against a memory");
}

#[test]
fn importance_halves_like_a_float() {
    for x in [0.0f32, 1.0, 0.5, 0.99, 3.0e-38, 1.2e-38, 1.0e-40, 3.0e-45, 1.4e-45, -2.5, f32::MAX, f32::INFINITY] {
        assert_eq!(decay(x.to_bits()), (x * 0.5).to_bits(), "half of {x}");
    }
}

fn store_with(key: &str, r: MemoryRecord) -> Store {
    let mut idx = IndexDb::new();
    idx.memory_by_key.insert(memory_by_key("s", MEMORY_VIS_GROUP, "", key), Some(r));
    Store { index_db: Some(idx) }
}

fn audit(key: Option<&str>, dry_run: bool, include_archived: bool) -> MemoryAuditParams {
    MemoryAuditParams {
        visibility: Visibility::Group,
        key: key.map(str::to_string),
        include_archived,
        dry_run,
        limit: None,
    }
}

fn live(store: &Store, key: &str) -> Option<MemoryRecord> {
    let raw = memory_by_key("s", MEMORY_VIS_GROUP, "", key);
    store.index_db.as_ref().unwrap().memory_by_key.get(&raw).map(|r| r.copy())
}

fn archived(store: &Store, key: &str) -> bool {
    let raw = memory_by_key("s", MEMORY_VIS_GROUP, "", key);
    store.index_db.as_ref().unwrap().memory_archive.has(&raw)
}

#[test]
fn an_audit_stamps_and_decays() {
    let c = code(&["a.rs"]);
    let mut store = store_with("k", record(&["gone.rs"], &[]));
    let out = run_memory_audit(&mut store, &c, "s", "me", &audit(None, true, false), 50).unwrap();
    assert_eq!((out.audited, out.results[0].state, out.results[0].archived), (1, VerifyState::Stale, false));
    assert_eq!(live(&store, "k").unwrap().last_verified, 0, "a dry run stamps nothing");
    run_memory_audit(&mut store, &c, "s", "me", &audit(Some("k"), false, false), 50).unwrap();
    let r = live(&store, "k").unwrap();
    assert_eq!((r.verified, r.last_verified), (VerifyState::Stale, 50));
    assert_eq!(f32::from_bits(r.importance_bits), 0.5);
}

#[test]
fn long_stale_memories_are_archived() {
    let c = code(&["a.rs"]);
    let mut store = store_with("k", record(&["gone.rs"], &[]));
    let at = 1 + ARCHIVE_AFTER_MICROS;
    let out = run_memory_audit(&mut store, &c, "s", "me", &audit(None, false, false), at).unwrap();
    assert!(!out.results[0].archived, "exactly ninety days is not yet too long");
    let mut store = store_with("k", record(&["gone.rs"], &[]));
    let out = run_memory_audit(&mut store, &c, "s", "me", &audit(None, false, false), at + 1).unwrap();
    assert!(out.results[0].archived);
    assert!(live(&store, "k").is_none() && archived(&store, "k"));
    let again = run_memory_audit(&mut store, &c, "s", "me", &audit(None, false, true), at + 2).unwrap();
    assert_eq!((again.audited, again.results[0].archived), (1, false));
    assert!(archived(&store, "k"));
    let mut none = no_store();
    assert_eq!(
        run_memory_audit(&mut none, &c, "s", "me", &audit(None, false, false), 0).unwrap_err().message(),
        "memory_by_key index not available"
    );
}

#[test]
fn a_stale_period_goes_on_from_audit_to_audit() {
    let c = code(&["a.rs"]);
    let day: i64 = ARCHIVE_AFTER_MICROS / 90;
    let start = 1000 * day;
    let mut r = record(&["gone.rs"], &[]);
    r.updated_at = start;
    let first = evaluate_one(&c, false, start, "k", &r, false);
    assert!(!first.audit_result.archived);
    let second = evaluate_one(&c, false, start + 60 * day, "k", &first.record, false);
    assert!(!second.audit_result.archived);
    assert_eq!(second.record.last_verified, start, "the stale period began at the first audit");
    let third = evaluate_one(&c, false, start + 120 * day, "k", &second.record, false);
    assert!(third.audit_result.archived);
    let found = code(&["gone.rs"]);
    let back = evaluate_one(&found, false, start + 70 * day, "k", &second.record, false);
    assert_eq!((back.record.verified, back.record.last_verified), (VerifyState::Verified, start + 70 * day));
    let again = evaluate_one(&c, false, start + 120 * day, "k", &back.record, false);
    assert!(!again.audit_result.archived, "a verified audit ends the stale period");
}

#[test]
fn archived_rows_are_those_after_the_live_pass() {
    let c = code(&["a.rs"]);
    let mut store = store_with("k", record(&["gone.rs"], &[]));
    let at = 2 + ARCHIVE_AFTER_MICROS;
    let out = run_memory_audit(&mut store, &c, "s", "me", &audit(None, false, true), at).unwrap();
    let shown: Vec<(&str, bool)> = out.results.iter().map(|r| (r.key.as_str(), r.archived)).collect();
    assert_eq!(shown, [("k", true), ("k", false)]);
    let mut store = store_with("k", record(&["gone.rs"], &[]));
    let dry = run_memory_audit(&mut store, &c, "s", "me", &audit(None, true, true), at).unwrap();
    assert_eq!(dry.audited, 1);
}

#[test]
fn a_rescan_writes_back_stale_records_alone() {
    let c = code(&["a.rs"]);
    let mut store = store_with("bad", record(&["gone.rs"], &[]));
    let raw = memory_by_key("s", MEMORY_VIS_INDIVIDUAL, "me", "good");
    let idx = store.index_db.as_mut().unwrap();
    idx.memory_by_key.insert(raw.clone(), Some(record(&["a.rs"], &[])));
    audit_scope_on_rescan(&mut store, &c, "s", 9);
    assert_eq!(live(&store, "bad").unwrap().last_verified, 9);
    assert_eq!(store.index_db.as_ref().unwrap().memory_by_key.get(&raw).unwrap().last_verified, 0);
    let mut none = no_store();
    audit_scope_on_rescan(&mut none, &c, "s", 9);
    assert!(none.index_db.is_none());
}

#[test]
fn mutations_move_or_rewrite() {
    let mut idx = IndexDb::new();
    let m = |key: &str, archive: bool| AuditMutation {
        vis_byte: MEMORY_VIS_GROUP,
        owner: String::new(),
        key: key.to_string(),
        record: record(&[], &[]),
        archive,
    };
    audit_persist_core(&mut idx, "s", &vec![m("a", false), m("b", false), m("a", true)]);
    assert!(!idx.memory_by_key.has(&memory_by_key("s", MEMORY_VIS_GROUP, "", "a")));
    assert!(idx.memory_archive.has(&memory_by_key("s", MEMORY_VIS_GROUP, "", "a")));
    assert!(idx.memory_by_key.has(&memory_by_key("s", MEMORY_VIS_GROUP, "", "b")));
}

// ─── Proposals ───────────────────────────────────────────────────────────────

fn proposal(id: &str) -> ProposalItem {
    ProposalItem {
        id: id.to_string(),
        record: ProposalRecord {
            kind: PROPOSAL_KIND_SKILL,
            files: vec![RelPath::from_text("a.rs"), RelPath::from_text("b.rs")],
            support: 5,
            anchor_freq: 6,
            window: 200,
            description: format!("about {id}"),
            created_at: 1,
        },
    }
}

#[test]
fn a_rejected_proposal_does_not_come_back() {
    let mut store = some_store();
    let idx = store.index_db.as_mut().unwrap();
    assert_eq!(apply_mine_core(idx, "s", &vec![proposal("one"), proposal("two")]), 2);
    assert!(run_proposal_reject(&mut store, "s", "one").unwrap());
    let idx = store.index_db.as_mut().unwrap();
    assert!(idx.proposals.has(&proposal_by_id("s", PROPOSAL_KIND_TOMBSTONE, "one")));
    assert_eq!(apply_mine_core(idx, "s", &vec![proposal("one"), proposal("two")]), 1);
    assert!(!idx.proposals.has(&proposal_by_id("s", PROPOSAL_KIND_SKILL, "one")));
    assert!(idx.proposals.has(&proposal_by_id("s", PROPOSAL_KIND_SKILL, "two")));
    assert_eq!(
        run_proposal_reject(&mut no_store(), "s", "x").unwrap_err().message(),
        "proposals index not available"
    );
}

#[test]
fn proposals_are_listed_by_kind_and_page() {
    let mut store = some_store();
    let idx = store.index_db.as_mut().unwrap();
    apply_mine_core(idx, "s", &vec![proposal("b"), proposal("a"), proposal("c")]);
    let mut mem = proposal("m").record;
    mem.kind = PROPOSAL_KIND_MEMORY;
    idx.proposals.insert(proposal_by_id("s", PROPOSAL_KIND_MEMORY, "m"), Some(mem));
    idx.proposals.insert(proposal_by_id("s", PROPOSAL_KIND_TOMBSTONE, "t"), None);
    let mut params = ProposalsListParams { kind: None, limit: None, cursor: None };
    let all = run_proposals_list(&store, "s", &params).unwrap();
    let ids: Vec<&str> = all.proposals.iter().map(|p| p.id.as_str()).collect();
    assert_eq!(ids, ["m", "a", "b", "c"]);
    assert!(!all.truncated && all.next_cursor.is_none());
    params.kind = Some("skill".to_string());
    params.limit = Some(2);
    let page = run_proposals_list(&store, "s", &params).unwrap();
    assert_eq!((page.total, page.truncated), (2, true));
    params.cursor = page.next_cursor;
    let rest = run_proposals_list(&store, "s", &params).unwrap();
    assert_eq!(rest.proposals.len(), 1);
    assert_eq!(rest.proposals[0].id, "c");
    let mut both = ProposalsListParams { kind: None, limit: Some(2), cursor: None };
    let one = run_proposals_list(&store, "s", &both).unwrap();
    let ids: Vec<&str> = one.proposals.iter().map(|p| p.id.as_str()).collect();
    assert_eq!(ids, ["m", "a"]);
    both.cursor = one.next_cursor;
    let two = run_proposals_list(&store, "s", &both).unwrap();
    let ids: Vec<&str> = two.proposals.iter().map(|p| p.id.as_str()).collect();
    assert_eq!(ids, ["b", "c"], "a page goes on after the cursor, over both kinds");
    assert!(!two.truncated && two.next_cursor.is_none());
    params.cursor = Some(Cursor("?".to_string()));
    assert_eq!(run_proposals_list(&store, "s", &params).unwrap_err().message(), "invalid cursor");
    assert_eq!(
        run_proposals_list(&no_store(), "s", &params).unwrap_err().message(),
        "proposals index not available"
    );
}

#[test]
fn an_accepted_proposal_becomes_a_memory() {
    let mut store = some_store();
    apply_mine_core(store.index_db.as_mut().unwrap(), "s", &vec![proposal("0123456789abcdef")]);
    let params = ProposalAcceptParams { id: "0123456789abcdef".to_string(), key: None };
    let c = code(&["a.rs", "b.rs"]);
    let out = run_proposal_accept(&mut store, &c, "s", &params, 0.25f32.to_bits(), "", 70).unwrap();
    assert!(out.accepted);
    assert_eq!(out.memory_key, "skill/cochange-0123456789ab");
    assert_eq!(out.to_embed.value, "about 0123456789abcdef");
    let raw = memory_by_key("s", MEMORY_VIS_GROUP, "", &out.memory_key);
    let r = store.index_db.as_ref().unwrap().memory_by_key.get(&raw).unwrap();
    assert_eq!((r.verified, r.last_verified, r.created_at), (VerifyState::Verified, 70, 70));
    assert_eq!(r.tags, tags(&["skill", "cochange"]));
    assert_eq!(r.importance_bits, 0.25f32.to_bits());
    let again = run_proposal_accept(&mut store, &c, "s", &params, 0, "", 71).unwrap_err();
    assert_eq!(again.message(), "proposal not found: 0123456789abcdef");
    let idx = store.index_db.as_mut().unwrap();
    idx.proposals.insert(proposal_by_id("s", PROPOSAL_KIND_SKILL, "bad"), None);
    let bad = ProposalAcceptParams { id: "bad".to_string(), key: Some("mine".to_string()) };
    assert_eq!(
        run_proposal_accept(&mut store, &c, "s", &bad, 0, "end of input", 1).unwrap_err().message(),
        "decode proposal: end of input"
    );
    let odd = ProposalAcceptParams { id: "0123456789aé".to_string(), key: None };
    assert_eq!(
        run_proposal_accept(&mut store, &c, "s", &odd, 0, "", 1).unwrap_err().message(),
        "proposal not found: 0123456789aé"
    );
    assert_eq!(
        run_proposal_accept(&mut no_store(), &c, "s", &bad, 0, "", 1).unwrap_err().message(),
        "proposals index not available"
    );
}

fn commit(paths: &[(&str, bool)]) -> CommitFiles {
    CommitFiles {
        files: paths
            .iter()
            .map(|(p, deleted)| ChangedFile { path: RelPath::from_text(p), deleted: *deleted })
            .collect(),
    }
}

#[test]
fn files_that_change_together_are_proposed() {
    let mut commits: Vec<CommitFiles> = Vec::new();
    for _ in 0..4 {
        commits.push(commit(&[("a.rs", false), ("b.rs", false), ("gone.rs", true)]));
    }
    commits.push(commit(&[("a.rs", false)]));
    commits.push(commit(&[("c.rs", false), ("d.rs", false), ("e.rs", false)]));
    let params = ProposalsMineParams { window: Some(50), min_support: Some(3), max_files_per_commit: Some(2) };
    let confident = |c: u32, n: u32| c as f32 / n as f32 >= 0.6;
    let mut store = some_store();
    let out = run_proposals_mine(&mut store, "s", &params, &commits, 5, &confident).unwrap();
    assert_eq!((out.mined, out.window_inspected, out.skipped_bulk), (1, 50, 1));
    let id = proposal_id(&[RelPath::from_text("a.rs"), RelPath::from_text("b.rs")]);
    let raw = proposal_by_id("s", PROPOSAL_KIND_SKILL, &id);
    let p = store.index_db.as_ref().unwrap().proposals.get(&raw).unwrap();
    assert_eq!((p.support, p.anchor_freq), (4, 5));
    assert_eq!(
        p.description,
        "When editing a.rs, also check b.rs — co-changed in 4 of 5 recent commits."
    );
    assert_eq!(id.len(), 64);
    let keys = |s: &Store| -> Vec<Vec<u8>> {
        s.index_db.as_ref().unwrap().proposals.rows.iter().map(|r| r.key.clone()).collect()
    };
    let once = keys(&store);
    run_proposals_mine(&mut store, "s", &params, &commits, 6, &confident).unwrap();
    assert_eq!(keys(&store), once, "mining the same commits again leaves the same proposals");
    let picky = |c: u32, n: u32| c == n;
    let mut other = some_store();
    assert_eq!(run_proposals_mine(&mut other, "s", &params, &commits, 5, &picky).unwrap().mined, 0);
    assert_eq!(
        run_proposals_mine(&mut no_store(), "s", &params, &commits, 5, &picky).unwrap_err().message(),
        "proposals index not available"
    );
}

#[test]
fn mining_bounds_have_ceilings() {
    let b = mine_bounds(None, None, None);
    assert_eq!((b.window, b.min_support, b.max_files_per_commit), (200, 5, 25));
    let b = mine_bounds(Some(9999), Some(1), Some(9999));
    assert_eq!((b.window, b.min_support, b.max_files_per_commit), (2000, 1, 200));
}

#[test]
fn a_lonely_file_has_its_own_description() {
    let a = RelPath::from_text("a.rs");
    assert_eq!(build_description(&a, &[a.copy()], 3, 7), "File a.rs changed frequently (7 commits).");
}

#[test]
fn governance_operations_answer_in_kind() {
    let mut idx = IndexDb::new();
    let mine = GovernanceOp::ProposalsMineApply { candidates: vec![proposal("p")] };
    assert!(matches!(run_governance_op(&mut idx, "s", &mine), GovernanceOutcome::Mined { count: 1 }));
    let get = GovernanceOp::ProposalGet { id: "p".to_string() };
    assert!(matches!(run_governance_op(&mut idx, "s", &get), GovernanceOutcome::Proposal(Some(_))));
    let list = GovernanceOp::ProposalsList { kind_bytes: vec![PROPOSAL_KIND_SKILL], limit: 9, scan_cap: 9, cursor: None };
    match run_governance_op(&mut idx, "s", &list) {
        GovernanceOutcome::ProposalsListed { items, truncated, next_cursor } => {
            assert_eq!((items.len(), truncated, next_cursor), (1, false, None));
        }
        _ => panic!("a listing was asked for"),
    }
    promote_core(&mut idx, "s", "k", &record(&["a.rs"], &[]), "p");
    assert!(matches!(run_governance_op(&mut idx, "s", &get), GovernanceOutcome::Proposal(None)));
    let args = AuditScanArgs {
        vis_byte: MEMORY_VIS_GROUP,
        owner: "",
        key: None,
        from_archive: false,
        limit: 5,
        scan_cap: 5,
    };
    let rows = audit_scan_core(&idx, "s", &args);
    assert_eq!(rows.len(), 1);
    assert_eq!(rows[0].key, "k");
    let scan = GovernanceOp::AuditScan {
        vis_byte: MEMORY_VIS_GROUP,
        owner: String::new(),
        key: Some("k".to_string()),
        from_archive: true,
        limit: 1,
        scan_cap: 1,
    };
    match run_governance_op(&mut idx, "s", &scan) {
        GovernanceOutcome::AuditScanned { items } => assert!(items.is_empty()),
        _ => panic!("a scan was asked for"),
    }
    let reject = GovernanceOp::ProposalReject { id: "p".to_string() };
    assert!(matches!(run_governance_op(&mut idx, "s", &reject), GovernanceOutcome::Rejected));
    let persist = GovernanceOp::AuditPersist { mutations: vec![] };
    assert!(matches!(run_governance_op(&mut idx, "s", &persist), GovernanceOutcome::AuditPersisted));
}
