//! Agent memory: records under `(scope, visibility, owner, key)`, and the operations on them.
//!
//! Nothing here takes a lock. A put reads and then writes, so callers serialize the puts of one
//! key.
use vstd::prelude::*;
use vstd::utf8::{encode_utf8, valid_utf8};

use crate::calls::{least, scan_cap, scan_cap_of};
use crate::keys::{
    law_bounds_are_the_prefix, law_record_key_reads_back, memory_by_key, memory_by_key_ns_prefix,
    memory_key, memory_prefix, nul_free, parse_memory_key_only, record_key_of, MEMORY_VIS_GROUP,
    MEMORY_VIS_INDIVIDUAL,
};
use crate::keyspace::{
    in_range, in_range_and, has_key, key_index, law_range_pages_chain, lemma_row_at, Keyspace, Row,
};
use crate::model::RelPath;
use crate::proposals::{copy_paths, paths_of, ProposalRecord};
use crate::seqs::{
    lemma_filter_agree, lemma_filter_fits, lemma_filter_holds, lemma_filter_take,
    lemma_filter_window,
};
use crate::sort::cursor_bytes;
use crate::tables::entry_at;
use crate::text::{
    bytes_start_with, copy_bytes, copy_opt, copy_texts, from_range, list_holds, opt_str, opt_text,
    texts, to_chars,
};

verus! {

/// What an audit last found of a record.
#[derive(Debug, Clone, Copy, PartialEq, Eq, Structural)]
pub enum VerifyState {
    Unverified,
    Verified,
    Stale,
}

/// A symbol that a record rests on.
#[derive(Debug, Clone)]
pub struct SymbolRef {
    pub path: RelPath,
    pub name: String,
    pub kind: Option<String>,
    pub structural_hash: Option<Vec<u8>>,
}

/// What a record rests on.
#[derive(Debug, Clone)]
pub struct Provenance {
    pub files: Vec<RelPath>,
    pub symbols: Vec<SymbolRef>,
    pub commands: Vec<String>,
}

/// A memory record. `importance_bits` are the bits of its importance, a 32-bit number.
#[derive(Debug, Clone)]
pub struct MemoryRecord {
    pub value: String,
    pub tags: Vec<String>,
    pub created_at: i64,
    pub updated_at: i64,
    pub provenance: Provenance,
    pub verified: VerifyState,
    pub last_verified: i64,
    pub importance_bits: u32,
}

/// What a reference to a symbol says.
pub struct SymbolFact {
    pub path: Seq<u8>,
    pub name: Seq<char>,
    pub kind: Option<Seq<char>>,
    pub structural_hash: Option<Seq<u8>>,
}

impl View for SymbolRef {
    type V = SymbolFact;

    open spec fn view(&self) -> SymbolFact {
        SymbolFact {
            path: self.path@,
            name: self.name@,
            kind: opt_text(self.kind),
            structural_hash: opt_bytes(self.structural_hash),
        }
    }
}

/// What a memory record says.
pub struct RecordFact {
    pub value: Seq<char>,
    pub tags: Seq<Seq<char>>,
    pub created_at: i64,
    pub updated_at: i64,
    pub files: Seq<Seq<u8>>,
    pub symbols: Seq<SymbolFact>,
    pub commands: Seq<Seq<char>>,
    pub verified: VerifyState,
    pub last_verified: i64,
    pub importance_bits: u32,
}

/// What the references of a list say.
pub open spec fn symbol_facts(list: Seq<SymbolRef>) -> Seq<SymbolFact> {
    Seq::new(list.len(), |i: int| list[i]@)
}

impl View for MemoryRecord {
    type V = RecordFact;

    open spec fn view(&self) -> RecordFact {
        RecordFact {
            value: self.value@,
            tags: texts(self.tags@),
            created_at: self.created_at,
            updated_at: self.updated_at,
            files: paths_of(self.provenance.files@),
            symbols: symbol_facts(self.provenance.symbols@),
            commands: texts(self.provenance.commands@),
            verified: self.verified,
            last_verified: self.last_verified,
            importance_bits: self.importance_bits,
        }
    }
}

fn copy_symbols(list: &Vec<SymbolRef>) -> (copy: Vec<SymbolRef>)
    ensures
        symbol_facts(copy@) == symbol_facts(list@),
{
    let mut copy: Vec<SymbolRef> = Vec::new();
    let mut i: usize = 0;
    while i < list.len()
        invariant
            i <= list@.len(),
            copy@.len() == i,
            forall|j: int| 0 <= j < i ==> (#[trigger] copy@[j])@ == list@[j]@,
        decreases list@.len() - i,
    {
        let r = &list[i];
        copy.push(
            SymbolRef {
                path: r.path.copy(),
                name: r.name.clone(),
                kind: copy_opt(&r.kind),
                structural_hash: match &r.structural_hash {
                    Some(h) => Some(copy_bytes(h.as_slice())),
                    None => None,
                },
            },
        );
        i += 1;
    }
    assert(symbol_facts(copy@) =~= symbol_facts(list@));
    copy
}

impl MemoryRecord {
    /// A copy of the record.
    pub fn copy(&self) -> (r: MemoryRecord)
        ensures
            r@ == self@,
    {
        MemoryRecord {
            value: self.value.clone(),
            tags: copy_texts(self.tags.as_slice()),
            created_at: self.created_at,
            updated_at: self.updated_at,
            provenance: Provenance {
                files: copy_paths(self.provenance.files.as_slice()),
                symbols: copy_symbols(&self.provenance.symbols),
                commands: copy_texts(self.provenance.commands.as_slice()),
            },
            verified: self.verified,
            last_verified: self.last_verified,
            importance_bits: self.importance_bits,
        }
    }
}

/// One memory entry as operations yield it.
#[derive(Debug)]
pub struct WireMemoryEntry {
    pub key: String,
    /// The value, shortened in listings.
    pub value: String,
    pub tags: Vec<String>,
    pub created_at: i64,
    pub updated_at: i64,
}

/// The keyspaces of one workspace.
#[derive(Debug)]
pub struct IndexDb {
    pub memory_by_key: Keyspace<MemoryRecord>,
    pub memory_archive: Keyspace<MemoryRecord>,
    pub proposals: Keyspace<ProposalRecord>,
}

impl IndexDb {
    /// Every keyspace is in order.
    pub open spec fn wf(&self) -> bool {
        &&& self.memory_by_key.wf()
        &&& self.memory_archive.wf()
        &&& self.proposals.wf()
    }

    /// The record at a raw key of the live keyspace, if one can be read there.
    pub open spec fn live(&self, raw: Seq<u8>) -> Option<MemoryRecord> {
        match entry_at(self.memory_by_key.map(), raw) {
            Some(v) => v,
            None => None,
        }
    }

    /// Empty keyspaces.
    pub fn new() -> (idx: IndexDb)
        ensures
            idx.wf(),
            idx.memory_by_key.rows@.len() == 0,
            idx.memory_archive.rows@.len() == 0,
            idx.proposals.rows@.len() == 0,
    {
        IndexDb {
            memory_by_key: Keyspace::new(),
            memory_archive: Keyspace::new(),
            proposals: Keyspace::new(),
        }
    }
}

/// A workspace's store: its index, where one could be opened.
#[derive(Debug)]
pub struct Store {
    pub index_db: Option<IndexDb>,
}

impl Store {
    /// The index, where there is one, is in order.
    pub open spec fn wf(&self) -> bool {
        self.index_db is Some ==> self.index_db->0.wf()
    }
}

/// The tier of a memory.
#[derive(Debug, Clone, Copy, PartialEq, Eq, Structural)]
pub enum Visibility {
    Group,
    Individual,
}

impl Visibility {
    /// The visibility byte of the tier.
    pub fn vis_byte(self) -> (b: u8)
        ensures
            b == (match self {
                Visibility::Group => MEMORY_VIS_GROUP,
                Visibility::Individual => MEMORY_VIS_INDIVIDUAL,
            }),
    {
        match self {
            Visibility::Group => MEMORY_VIS_GROUP,
            Visibility::Individual => MEMORY_VIS_INDIVIDUAL,
        }
    }

    /// The owner of a memory of the tier: the agent for its own, nobody for the group's.
    pub fn owner<'a>(self, agent: &'a str) -> (o: &'a str)
        ensures
            o@ == (match self {
                Visibility::Group => ""@,
                Visibility::Individual => agent@,
            }),
    {
        match self {
            Visibility::Group => "",
            Visibility::Individual => agent,
        }
    }
}

/// The raw key of a memory, from its text parts.
pub open spec fn raw_key(scope: Seq<char>, vis: u8, owner: Seq<char>, key: Seq<char>) -> Seq<u8> {
    memory_key(encode_utf8(scope), vis, encode_utf8(owner), encode_utf8(key))
}

// ─── Put, get, delete ────────────────────────────────────────────────────────

/// `r` is the record that a put of `value` and `tags` leaves: created when the one before it was,
/// else now; updated now; with no provenance and not yet verified.
pub open spec fn is_put_record(
    r: MemoryRecord,
    before: Option<MemoryRecord>,
    value: Seq<char>,
    tags: Seq<Seq<char>>,
    now: i64,
) -> bool {
    &&& r.value@ == value
    &&& texts(r.tags@) == tags
    &&& r.created_at == (match before {
        Some(b) => b.created_at,
        None => now,
    })
    &&& r.updated_at == now
    &&& r.provenance.files@.len() == 0
    &&& r.provenance.symbols@.len() == 0
    &&& r.provenance.commands@.len() == 0
    &&& r.verified == VerifyState::Unverified
    &&& r.last_verified == 0
    &&& r.importance_bits == 0
}

/// Put a memory: keep when it was first created, and stamp the update. The result gives both times.
pub fn put_core(
    idx: &mut IndexDb,
    scope: &str,
    vis_byte: u8,
    owner: &str,
    key: &str,
    value: &str,
    tags: &[String],
    now: i64,
) -> (times: (i64, i64))
    requires
        old(idx).wf(),
    ensures
        final(idx).wf(),
        is_put(
            *old(idx),
            *final(idx),
            raw_key(scope@, vis_byte, owner@, key@),
            value@,
            texts(tags@),
            now,
            times,
        ),
{
    let raw = memory_by_key(scope, vis_byte, owner, key);
    let created_at: i64 = match idx.memory_by_key.get(raw.as_slice()) {
        Some(r) => r.created_at,
        None => now,
    };
    let record = MemoryRecord {
        value: value.to_string(),
        tags: copy_texts(tags),
        created_at,
        updated_at: now,
        provenance: Provenance { files: Vec::new(), symbols: Vec::new(), commands: Vec::new() },
        verified: VerifyState::Unverified,
        last_verified: 0,
        importance_bits: 0,
    };
    idx.memory_by_key.insert(raw, Some(record));
    (created_at, now)
}

/// `e` shows the record `r` under `key` in full.
pub open spec fn shows(e: WireMemoryEntry, key: Seq<char>, r: MemoryRecord) -> bool {
    &&& e.key@ == key
    &&& e.value@ == r.value@
    &&& texts(e.tags@) == texts(r.tags@)
    &&& e.created_at == r.created_at
    &&& e.updated_at == r.updated_at
}

/// Get a memory in full. `None` where there is none, or it cannot be read.
pub fn get_core(idx: &IndexDb, scope: &str, vis_byte: u8, owner: &str, key: &str) -> (entry: Option<
    WireMemoryEntry,
>)
    requires
        idx.wf(),
    ensures
        is_got(entry, *idx, raw_key(scope@, vis_byte, owner@, key@), key@),
{
    let raw = memory_by_key(scope, vis_byte, owner, key);
    match idx.memory_by_key.get(raw.as_slice()) {
        Some(r) => Some(
            WireMemoryEntry {
                key: key.to_string(),
                value: r.value.clone(),
                tags: copy_texts(r.tags.as_slice()),
                created_at: r.created_at,
                updated_at: r.updated_at,
            },
        ),
        None => None,
    }
}

/// Delete a memory. The result says whether there was one.
pub fn delete_core(idx: &mut IndexDb, scope: &str, vis_byte: u8, owner: &str, key: &str) -> (existed:
    bool)
    requires
        old(idx).wf(),
    ensures
        final(idx).wf(),
        is_delete(*old(idx), *final(idx), raw_key(scope@, vis_byte, owner@, key@), existed),
{
    let raw = memory_by_key(scope, vis_byte, owner, key);
    let existed: bool = idx.memory_by_key.has(raw.as_slice());
    idx.memory_by_key.remove(raw.as_slice());
    existed
}

// ─── List ────────────────────────────────────────────────────────────────────

/// The most characters of a value that a listing shows.
pub const MEMORY_PREVIEW_CHARS: usize = 200;

/// A value as a listing shows it: clipped to so many characters, with an ellipsis when clipped.
pub open spec fn preview_of(value: Seq<char>) -> Seq<char> {
    if value.len() > MEMORY_PREVIEW_CHARS {
        value.take(MEMORY_PREVIEW_CHARS as int).push('…')
    } else {
        value
    }
}

/// A value as a listing shows it.
pub fn preview(value: &str) -> (p: String)
    ensures
        p@ == preview_of(value@),
{
    let chars = to_chars(value);
    if chars.len() > MEMORY_PREVIEW_CHARS {
        let mut p = from_range(chars.as_slice(), 0, MEMORY_PREVIEW_CHARS);
        p.push('…');
        assert(p@ =~= preview_of(value@));
        p
    } else {
        value.to_string()
    }
}

/// What a listing asks.
pub struct ListQuery<'a> {
    pub vis_byte: u8,
    pub owner: &'a str,
    /// Only keys that start with this.
    pub key_prefix: &'a str,
    /// Only records with this tag.
    pub tag: Option<&'a str>,
    /// Page size.
    pub limit: usize,
    /// Resume after this raw key.
    pub cursor: Option<&'a [u8]>,
}

/// A page of a listing.
pub struct ListPage {
    pub entries: Vec<WireMemoryEntry>,
    /// Matching records seen.
    pub total: usize,
    /// Whether `total` exceeds the page size.
    pub truncated: bool,
    /// The raw key to resume after, when more remain.
    pub next_cursor: Option<Vec<u8>>,
}

/// A page of a listing as an operation answers with it.
pub struct ListResult {
    pub entries: Vec<WireMemoryEntry>,
    /// Matching records seen, as 32 bits hold it.
    pub total: u32,
    /// Whether `total` exceeds the page size.
    pub truncated: bool,
    /// The raw key to resume after, when more remain.
    pub next_cursor: Option<Vec<u8>>,
}

/// Whether a row is listed: its record can be read, its key starts as asked, and it has the tag.
pub open spec fn is_listed(
    row: Row<MemoryRecord>,
    key_prefix: Seq<char>,
    tag: Option<Seq<char>>,
) -> bool {
    &&& record_key_of(row.key@) is Some
    &&& valid_utf8(record_key_of(row.key@)->0)
    &&& encode_utf8(key_prefix).is_prefix_of(record_key_of(row.key@)->0)
    &&& row.value is Some
    &&& tag is Some ==> texts(row.value->0.tags@).contains(tag->0)
}

/// The condition that a row is listed.
pub open spec fn listed(key_prefix: Seq<char>, tag: Option<Seq<char>>) -> spec_fn(
    Row<MemoryRecord>,
) -> bool {
    |r: Row<MemoryRecord>| is_listed(r, key_prefix, tag)
}

/// The rows that a listing ranges over, in key order.
pub open spec fn listing(
    rows: Seq<Row<MemoryRecord>>,
    prefix: Seq<u8>,
    cursor: Option<Seq<u8>>,
    key_prefix: Seq<char>,
    tag: Option<Seq<char>>,
) -> Seq<Row<MemoryRecord>> {
    rows.filter(in_range_and(prefix, cursor, listed(key_prefix, tag)))
}

/// `e` shows the row in a listing.
pub open spec fn lists_row(e: WireMemoryEntry, row: Row<MemoryRecord>) -> bool {
    let r = row.value->0;
    &&& record_key_of(row.key@) == Some(encode_utf8(e.key@))
    &&& e.value@ == preview_of(r.value@)
    &&& texts(e.tags@) == texts(r.tags@)
    &&& e.created_at == r.created_at
    &&& e.updated_at == r.updated_at
}

/// The bytes of an optional key.
pub open spec fn opt_bytes(k: Option<Vec<u8>>) -> Option<Seq<u8>> {
    match k {
        Some(v) => Some(v@),
        None => None,
    }
}

/// These are the entries, the flag and the cursor of a page over the rows `found`: the first of them,
/// whether there are more, and the key of the last one shown when there are.
pub open spec fn shows_page(
    entries: Seq<WireMemoryEntry>,
    truncated: bool,
    next_cursor: Option<Vec<u8>>,
    found: Seq<Row<MemoryRecord>>,
    limit: int,
) -> bool {
    &&& truncated == (found.len() > limit)
    &&& entries.len() == least(found.len() as int, limit)
    &&& forall|i: int| 0 <= i < entries.len() ==> lists_row(#[trigger] entries[i], found[i])
    &&& opt_bytes(next_cursor) == if found.len() > limit && limit > 0 {
        Some(found[limit - 1].key@)
    } else {
        None
    }
}

/// `out` is the page over the rows `found`, with their number, up to `most`.
pub open spec fn is_list_page(
    out: ListPage,
    found: Seq<Row<MemoryRecord>>,
    limit: int,
    most: int,
) -> bool {
    &&& out.total == least(found.len() as int, most)
    &&& shows_page(out.entries@, out.truncated, out.next_cursor, found, limit)
}

/// `out` is the page over the rows `found`, with the low 32 bits of their number, up to `most`.
pub open spec fn is_list_result(
    out: ListResult,
    found: Seq<Row<MemoryRecord>>,
    limit: int,
    most: int,
) -> bool {
    &&& out.total == least(found.len() as int, most) % 0x1_0000_0000
    &&& shows_page(out.entries@, out.truncated, out.next_cursor, found, limit)
}

fn row_is_listed(row: &Row<MemoryRecord>, key_prefix: &str, tag: Option<&str>) -> (key: Option<String>)
    ensures
        match key {
            Some(k) => is_listed(*row, key_prefix@, opt_str(tag)) && record_key_of(
                row.key@,
            ) == Some(encode_utf8(k@)),
            None => !is_listed(*row, key_prefix@, opt_str(tag)),
        },
{
    let key = match parse_memory_key_only(row.key.as_slice()) {
        Some(k) => k,
        None => {
            return None;
        },
    };
    proof {
        vstd::utf8::encode_utf8_valid_utf8(key@);
    }
    if !bytes_start_with(key.as_str().as_bytes(), key_prefix.as_bytes()) {
        return None;
    }
    match &row.value {
        Some(r) => match tag {
            Some(t) => if list_holds(r.tags.as_slice(), t) {
                Some(key)
            } else {
                None
            },
            None => Some(key),
        },
        None => None,
    }
}

fn list_rows(
    rows: &Vec<Row<MemoryRecord>>,
    from: usize,
    to: usize,
    key_prefix: &str,
    tag: Option<&str>,
    limit: usize,
    most: usize,
) -> (out: ListPage)
    requires
        from <= to <= rows@.len(),
        most > limit || most >= rows@.len(),
    ensures
        is_list_page(
            out,
            rows@.subrange(from as int, to as int).filter(
                listed(key_prefix@, opt_str(tag)),
            ),
            limit as int,
            most as int,
        ),
{
    let ghost window = rows@.subrange(from as int, to as int);
    let ghost p = listed(key_prefix@, opt_str(tag));
    let ghost all = window.filter(p);
    let mut entries: Vec<WireMemoryEntry> = Vec::new();
    let mut total: usize = 0;
    let mut last: Option<Vec<u8>> = None;
    let mut i: usize = from;
    proof {
        reveal(Seq::filter);
        assert(window.take(0).filter(p) =~= Seq::empty());
    }
    while i < to && total < most
        invariant
            from <= i <= to <= rows@.len(),
            most > limit || most >= rows@.len(),
            window == rows@.subrange(from as int, to as int),
            p == listed(key_prefix@, opt_str(tag)),
            total == window.take(i - from).filter(p).len(),
            total <= i - from,
            total <= most,
            entries@.len() == least(total as int, limit as int),
            forall|k: int|
                0 <= k < entries@.len() ==> lists_row(
                    #[trigger] entries@[k],
                    window.take(i - from).filter(p)[k],
                ),
            opt_bytes(last) == if entries@.len() > 0 {
                Some(window.take(i - from).filter(p)[entries@.len() - 1].key@)
            } else {
                None
            },
        decreases to - i,
    {
        let row = &rows[i];
        let ghost was = window.take(i - from).filter(p);
        let ghost entries0 = entries@;
        proof {
            lemma_filter_take(window, i - from, p);
            assert(window[i - from] == *row);
        }
        match row_is_listed(row, key_prefix, tag) {
            Some(key) => {
                total += 1;
                assert(window.take(i - from + 1).filter(p) == was.push(*row));
                if entries.len() < limit {
                    match &row.value {
                        Some(r) => {
                            entries.push(
                                WireMemoryEntry {
                                    key,
                                    value: preview(r.value.as_str()),
                                    tags: copy_texts(r.tags.as_slice()),
                                    created_at: r.created_at,
                                    updated_at: r.updated_at,
                                },
                            );
                        },
                        None => {},
                    }
                    last = Some(copy_bytes(row.key.as_slice()));
                }
            },
            None => {},
        }
        i += 1;
    }
    proof {
        let now = window.take(i - from).filter(p);
        crate::seqs::lemma_filter_prefix(window, i - from, p);
        if i == to {
            assert(window.take(i - from) =~= window);
        }
        lemma_filter_fits(window, p);
        assert(now == all || now.len() == most);
        if now.len() == all.len() {
            assert(all.take(now.len() as int) =~= all);
        }
        assert forall|k: int| 0 <= k < now.len() implies now[k] == all[k] by {
            assert(all.take(now.len() as int)[k] == all[k]);
        }
    }
    let more: bool = total > limit;
    ListPage {
        entries,
        total,
        truncated: more,
        next_cursor: if more {
            last
        } else {
            None
        },
    }
}

/// List memories, counting up to `most` matches.
pub fn list_upto(idx: &IndexDb, scope: &str, query: &ListQuery<'_>, most: usize) -> (out: ListPage)
    requires
        idx.wf(),
        most > query.limit || most == usize::MAX,
    ensures
        is_list_page(
            out,
            listing(
                idx.memory_by_key.rows@,
                memory_prefix(encode_utf8(scope@), query.vis_byte, encode_utf8(query.owner@)),
                cursor_bytes(query.cursor),
                query.key_prefix@,
                opt_str(query.tag),
            ),
            query.limit as int,
            most as int,
        ),
{
    let prefix = memory_by_key_ns_prefix(scope, query.vis_byte, query.owner);
    let (from, to) = idx.memory_by_key.range(prefix.as_slice(), query.cursor);
    proof {
        let rows = idx.memory_by_key.rows@;
        let cursor = cursor_bytes(query.cursor);
        let p = listed(query.key_prefix@, opt_str(query.tag));
        let r = |r: Row<MemoryRecord>| in_range(r.key@, prefix@, cursor);
        lemma_filter_window(rows, from as int, to as int, r, p);
        lemma_filter_agree(
            rows,
            in_range_and(prefix@, cursor, p),
            |x: Row<MemoryRecord>| r(x) && p(x),
        );
    }
    assert(idx.memory_by_key.rows.len() <= usize::MAX);
    list_rows(&idx.memory_by_key.rows, from, to, query.key_prefix, query.tag, query.limit, most)
}

/// List memories: a page of entries with shortened values. Counting stops one past the scan cap.
pub fn list_core(idx: &IndexDb, scope: &str, query: &ListQuery<'_>) -> (out: ListResult)
    requires
        idx.wf(),
    ensures
        is_list_result(
            out,
            listing(
                idx.memory_by_key.rows@,
                memory_prefix(encode_utf8(scope@), query.vis_byte, encode_utf8(query.owner@)),
                cursor_bytes(query.cursor),
                query.key_prefix@,
                opt_str(query.tag),
            ),
            query.limit as int,
            scan_cap(query.limit as int) + 1,
        ),
{
    let cap: usize = scan_cap_of(query.limit);
    let most: usize = if cap < usize::MAX {
        cap + 1
    } else {
        cap
    };
    proof {
        let prefix = memory_prefix(encode_utf8(scope@), query.vis_byte, encode_utf8(query.owner@));
        lemma_filter_fits(
            idx.memory_by_key.rows@,
            in_range_and(
                prefix,
                cursor_bytes(query.cursor),
                listed(query.key_prefix@, opt_str(query.tag)),
            ),
        );
        assert(idx.memory_by_key.rows.len() <= usize::MAX);
    }
    let page = list_upto(idx, scope, query, most);
    ListResult {
        entries: page.entries,
        total: low_bits(page.total),
        truncated: page.truncated,
        next_cursor: page.next_cursor,
    }
}

fn low_bits(n: usize) -> (b: u32)
    ensures
        b == n as int % 0x1_0000_0000,
{
    let b: u32 = (n as u64 % 0x1_0000_0000) as u32;
    b
}

// ─── Operations ──────────────────────────────────────────────────────────────

/// An operation on the memories of a scope.
#[derive(Debug)]
pub enum MemoryOp {
    Get { vis_byte: u8, owner: String, key: String },
    Put { vis_byte: u8, owner: String, key: String, value: String, tags: Vec<String> },
    List {
        vis_byte: u8,
        owner: String,
        prefix: String,
        tag: Option<String>,
        limit: u32,
        cursor: Option<Vec<u8>>,
    },
    Delete { vis_byte: u8, owner: String, key: String },
}

/// What an operation came to.
#[derive(Debug)]
pub enum MemoryOutcome {
    Got(Option<WireMemoryEntry>),
    Put { created_at: i64, updated_at: i64 },
    Listed {
        entries: Vec<WireMemoryEntry>,
        total: u32,
        truncated: bool,
        next_cursor: Option<Vec<u8>>,
    },
    Deleted { deleted: bool },
}

/// `entry` is what a get of the raw key finds.
pub open spec fn is_got(
    entry: Option<WireMemoryEntry>,
    idx: IndexDb,
    raw: Seq<u8>,
    key: Seq<char>,
) -> bool {
    match (entry, idx.live(raw)) {
        (Some(e), Some(r)) => shows(e, key, r),
        (None, None) => true,
        _ => false,
    }
}

/// `after` is `before` with the record of a put, whose times are `times`.
pub open spec fn is_put(
    before: IndexDb,
    after: IndexDb,
    raw: Seq<u8>,
    value: Seq<char>,
    tags: Seq<Seq<char>>,
    now: i64,
    times: (i64, i64),
) -> bool {
    &&& after.live(raw) is Some
    &&& is_put_record(after.live(raw)->0, before.live(raw), value, tags, now)
    &&& times == (after.live(raw)->0.created_at, now)
    &&& after.memory_by_key.map() == before.memory_by_key.map().insert(
        raw,
        Some(after.live(raw)->0),
    )
    &&& after.memory_archive == before.memory_archive
    &&& after.proposals == before.proposals
}

/// `after` is `before` without the raw key, and `existed` says whether it was there.
pub open spec fn is_delete(before: IndexDb, after: IndexDb, raw: Seq<u8>, existed: bool) -> bool {
    &&& existed == before.memory_by_key.map().contains_key(raw)
    &&& after.memory_by_key.map() == before.memory_by_key.map().remove(raw)
    &&& after.memory_archive == before.memory_archive
    &&& after.proposals == before.proposals
}

/// `outcome` answers `op` on `before`, and leaves `after`.
pub open spec fn op_is(
    before: IndexDb,
    after: IndexDb,
    scope: Seq<char>,
    op: MemoryOp,
    now: i64,
    outcome: MemoryOutcome,
) -> bool {
    match op {
        MemoryOp::Get { vis_byte, owner, key } => {
            &&& after == before
            &&& outcome matches MemoryOutcome::Got(entry) && is_got(
                entry,
                before,
                raw_key(scope, vis_byte, owner@, key@),
                key@,
            )
        },
        MemoryOp::Put { vis_byte, owner, key, value, tags } => {
            outcome matches MemoryOutcome::Put { created_at, updated_at } && is_put(
                before,
                after,
                raw_key(scope, vis_byte, owner@, key@),
                value@,
                texts(tags@),
                now,
                (created_at, updated_at),
            )
        },
        MemoryOp::List { vis_byte, owner, prefix, tag, limit, cursor } => {
            &&& after == before
            &&& outcome matches MemoryOutcome::Listed { entries, total, truncated, next_cursor }
                && is_list_result(
                (ListResult { entries, total, truncated, next_cursor }),
                listing(
                    before.memory_by_key.rows@,
                    memory_prefix(encode_utf8(scope), vis_byte, encode_utf8(owner@)),
                    opt_bytes(cursor),
                    prefix@,
                    opt_text(tag),
                ),
                limit as int,
                scan_cap(limit as int) + 1,
            )
        },
        MemoryOp::Delete { vis_byte, owner, key } => {
            outcome matches MemoryOutcome::Deleted { deleted } && is_delete(
                before,
                after,
                raw_key(scope, vis_byte, owner@, key@),
                deleted,
            )
        },
    }
}

/// Run an operation on the memories of a scope.
pub fn run_memory_op(idx: &mut IndexDb, scope: &str, op: &MemoryOp, now: i64) -> (outcome:
    MemoryOutcome)
    requires
        old(idx).wf(),
    ensures
        final(idx).wf(),
        op_is(*old(idx), *final(idx), scope@, *op, now, outcome),
{
    match op {
        MemoryOp::Get { vis_byte, owner, key } => MemoryOutcome::Got(
            get_core(idx, scope, *vis_byte, owner.as_str(), key.as_str()),
        ),
        MemoryOp::Put { vis_byte, owner, key, value, tags } => {
            let (created_at, updated_at) = put_core(
                idx,
                scope,
                *vis_byte,
                owner.as_str(),
                key.as_str(),
                value.as_str(),
                tags.as_slice(),
                now,
            );
            MemoryOutcome::Put { created_at, updated_at }
        },
        MemoryOp::List { vis_byte, owner, prefix, tag, limit, cursor } => {
            let query = ListQuery {
                vis_byte: *vis_byte,
                owner: owner.as_str(),
                key_prefix: prefix.as_str(),
                tag: match tag {
                    Some(t) => Some(t.as_str()),
                    None => None,
                },
                limit: *limit as usize,
                cursor: match cursor {
                    Some(c) => Some(c.as_slice()),
                    None => None,
                },
            };
            let result = list_core(idx, scope, &query);
            MemoryOutcome::Listed {
                entries: result.entries,
                total: result.total,
                truncated: result.truncated,
                next_cursor: result.next_cursor,
            }
        },
        MemoryOp::Delete { vis_byte, owner, key } => MemoryOutcome::Deleted {
            deleted: delete_core(idx, scope, *vis_byte, owner.as_str(), key.as_str()),
        },
    }
}

// ─── Laws ────────────────────────────────────────────────────────────────────

/// A get after a put gives back what was put, created when the memory before it was.
pub proof fn law_put_then_get(
    before: IndexDb,
    after: IndexDb,
    raw: Seq<u8>,
    key: Seq<char>,
    value: Seq<char>,
    tags: Seq<Seq<char>>,
    now: i64,
    times: (i64, i64),
    entry: Option<WireMemoryEntry>,
)
    requires
        is_put(before, after, raw, value, tags, now, times),
        is_got(entry, after, raw, key),
    ensures
        entry is Some,
        entry->0.key@ == key,
        entry->0.value@ == value,
        texts(entry->0.tags@) == tags,
        entry->0.created_at == (match before.live(raw) {
            Some(b) => b.created_at,
            None => now,
        }),
        entry->0.updated_at == now,
{
}

/// However often a memory is put again, it was created when it was first put.
pub proof fn law_created_once(
    before: IndexDb,
    mid: IndexDb,
    after: IndexDb,
    raw: Seq<u8>,
    value1: Seq<char>,
    tags1: Seq<Seq<char>>,
    now1: i64,
    times1: (i64, i64),
    value2: Seq<char>,
    tags2: Seq<Seq<char>>,
    now2: i64,
    times2: (i64, i64),
)
    requires
        is_put(before, mid, raw, value1, tags1, now1, times1),
        is_put(mid, after, raw, value2, tags2, now2, times2),
    ensures
        times2.0 == times1.0,
        times2.1 == now2,
{
}

/// A put and a delete leave every other memory as it was.
pub proof fn law_others_untouched(before: IndexDb, after: IndexDb, raw: Seq<u8>, other: Seq<u8>)
    requires
        other != raw,
        (exists|value: Seq<char>, tags: Seq<Seq<char>>, now: i64, times: (i64, i64)|
            #[trigger] is_put(before, after, raw, value, tags, now, times)) || (exists|existed: bool|
            #[trigger] is_delete(before, after, raw, existed)),
    ensures
        after.live(other) == before.live(other),
        after.memory_by_key.map().contains_key(other) == before.memory_by_key.map().contains_key(
            other,
        ),
{
}

/// A deleted memory is gone: a get finds nothing, and a second delete says so.
pub proof fn law_delete_then_get(
    before: IndexDb,
    mid: IndexDb,
    after: IndexDb,
    raw: Seq<u8>,
    key: Seq<char>,
    existed: bool,
    again: bool,
    entry: Option<WireMemoryEntry>,
)
    requires
        is_delete(before, mid, raw, existed),
        is_got(entry, mid, raw, key),
        is_delete(mid, after, raw, again),
    ensures
        entry is None,
        !again,
{
}

/// A memory that was put is listed in its namespace under every front of its key and with each of
/// its tags.
pub proof fn law_put_is_listed(
    before: IndexDb,
    after: IndexDb,
    scope: Seq<char>,
    vis: u8,
    owner: Seq<char>,
    key: Seq<char>,
    value: Seq<char>,
    tags: Seq<Seq<char>>,
    now: i64,
    times: (i64, i64),
    key_prefix: Seq<char>,
    tag: Option<Seq<char>>,
)
    requires
        after.wf(),
        is_put(before, after, raw_key(scope, vis, owner, key), value, tags, now, times),
        nul_free(encode_utf8(scope)),
        nul_free(encode_utf8(owner)),
        encode_utf8(key_prefix).is_prefix_of(encode_utf8(key)),
        tag is Some ==> tags.contains(tag->0),
    ensures
        has_key(
            listing(
                after.memory_by_key.rows@,
                memory_prefix(encode_utf8(scope), vis, encode_utf8(owner)),
                None,
                key_prefix,
                tag,
            ),
            raw_key(scope, vis, owner, key),
        ),
{
    let rows = after.memory_by_key.rows@;
    let raw = raw_key(scope, vis, owner, key);
    let prefix = memory_prefix(encode_utf8(scope), vis, encode_utf8(owner));
    let p = in_range_and(prefix, None, listed(key_prefix, tag));
    assert(after.memory_by_key.map().contains_key(raw));
    let k = key_index(rows, raw);
    assert(rows[k].key@ == raw);
    lemma_row_at(rows, k);
    law_record_key_reads_back(encode_utf8(scope), vis, encode_utf8(owner), encode_utf8(key));
    vstd::utf8::encode_utf8_valid_utf8(key);
    assert(prefix.is_prefix_of(raw));
    law_bounds_are_the_prefix(prefix, raw);
    assert(p(rows[k]));
    lemma_filter_holds(rows, p, k);
    let i = choose|i: int| 0 <= i < rows.filter(p).len() && rows.filter(p)[i] == rows[k];
    assert(rows.filter(p)[i].key@ == raw);
    assert(has_key(rows.filter(p), raw));
}

/// Listing page by page neither skips nor repeats a memory: from the cursor of a page on, the
/// listing is what the page left out.
pub proof fn law_list_pages_chain(
    idx: IndexDb,
    prefix: Seq<u8>,
    cursor: Option<Seq<u8>>,
    key_prefix: Seq<char>,
    tag: Option<Seq<char>>,
    limit: int,
    entries: Seq<WireMemoryEntry>,
    truncated: bool,
    next_cursor: Option<Vec<u8>>,
)
    requires
        idx.wf(),
        limit >= 0,
        shows_page(
            entries,
            truncated,
            next_cursor,
            listing(idx.memory_by_key.rows@, prefix, cursor, key_prefix, tag),
            limit,
        ),
        next_cursor is Some,
    ensures
        listing(
            idx.memory_by_key.rows@,
            prefix,
            opt_bytes(next_cursor),
            key_prefix,
            tag,
        ) == listing(idx.memory_by_key.rows@, prefix, cursor, key_prefix, tag).skip(limit),
{
    law_range_pages_chain(
        idx.memory_by_key.rows@,
        prefix,
        cursor,
        listed(key_prefix, tag),
        limit,
    );
}

} // verus!
