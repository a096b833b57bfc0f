//! Operations on proposals: listing, mining, accepting and rejecting them.
//!
//! A rejected proposal leaves a tombstone, a row without a value, so that mining does not bring it
//! back.
use vstd::prelude::*;
use vstd::utf8::{encode_utf8, valid_utf8};

use crate::governance::{
    audit_persist_core, chosen, fact_of, persisted, pick_rows, record_facts, shelves, AuditMutation,
};
use crate::keys::{
    law_bounds_are_the_prefix, memory_by_key, memory_by_key_ns_prefix, memory_prefix,
    parse_proposal_by_id, proposal_by_id, proposal_id_of, proposal_key, proposal_ns_prefix,
    proposal_prefix, record_key_of, MEMORY_VIS_GROUP, PROPOSAL_KIND_SKILL, PROPOSAL_KIND_TOMBSTONE,
};
use crate::keyspace::{in_range, in_range_and, law_range_pages_chain, Keyspace, Row};
use crate::memory::{opt_bytes, raw_key, IndexDb, MemoryRecord};
use crate::proposals::{ProposalFact, ProposalItem, ProposalRecord};
use crate::seqs::{
    lemma_filter_agree, lemma_filter_all, lemma_filter_member, lemma_filter_prefix,
    lemma_filter_take, lemma_filter_twice, lemma_filter_window,
};
use crate::sort::cursor_bytes;
use crate::tables::entry_at;
use crate::text::{bytes_start_with, copy_bytes, lemma_lex_transitive, lex_less, opt_text};

verus! {

pub const DEFAULT_LIST_LIMIT: u32 = 100;

pub const MAX_LIST_LIMIT: u32 = 1000;

/// How many bytes of an id a derived memory key holds.
pub const SHORT_ID_LEN: usize = 12;

// ─── Listing ─────────────────────────────────────────────────────────────────

/// A page of proposals.
#[derive(Debug)]
pub struct ProposalListResult {
    pub items: Vec<ProposalItem>,
    /// Whether the scan stopped before the end.
    pub truncated: bool,
    /// The raw key to resume after, when the scan stopped.
    pub next_cursor: Option<Vec<u8>>,
}

/// Whether a row is a proposal: its id is text and its record can be read.
pub open spec fn is_proposal_row(row: Row<ProposalRecord>) -> bool {
    &&& proposal_id_of(row.key@) is Some
    &&& valid_utf8(proposal_id_of(row.key@)->0)
    &&& row.value is Some
}

/// The condition that a row is a proposal.
pub open spec fn proposal_row() -> spec_fn(Row<ProposalRecord>) -> bool {
    |r: Row<ProposalRecord>| is_proposal_row(r)
}

/// The condition that holds of every row.
pub open spec fn any_row() -> spec_fn(Row<ProposalRecord>) -> bool {
    |r: Row<ProposalRecord>| true
}

/// The cursor where it lies under the prefix.
pub open spec fn cursor_under(cursor: Option<Seq<u8>>, prefix: Seq<u8>) -> Option<Seq<u8>> {
    match cursor {
        Some(c) => if prefix.is_prefix_of(c) {
            Some(c)
        } else {
            None
        },
        None => None,
    }
}

/// The rows of one kind that a listing walks: from the cursor on, where it is one of this kind.
pub open spec fn kind_rows(
    rows: Seq<Row<ProposalRecord>>,
    scope: Seq<char>,
    kind: u8,
    cursor: Option<Seq<u8>>,
) -> Seq<Row<ProposalRecord>> {
    let prefix = proposal_prefix(encode_utf8(scope), kind);
    rows.filter(in_range_and(prefix, cursor_under(cursor, prefix), any_row()))
}

/// The kind among the first `n` whose range holds the cursor, by its place; the first where none does.
pub open spec fn cursor_kind(
    scope: Seq<char>,
    kinds: Seq<u8>,
    cursor: Option<Seq<u8>>,
    n: int,
) -> int
    decreases n,
{
    if n <= 0 || cursor is None {
        0
    } else if proposal_prefix(encode_utf8(scope), kinds[n - 1]).is_prefix_of(cursor->0) {
        n - 1
    } else {
        cursor_kind(scope, kinds, cursor, n - 1)
    }
}

/// The rows of the kind at place `k` that a listing walks. A kind that comes before the one of the
/// cursor has been listed.
pub open spec fn rows_at(
    rows: Seq<Row<ProposalRecord>>,
    scope: Seq<char>,
    kinds: Seq<u8>,
    cursor: Option<Seq<u8>>,
    k: int,
) -> Seq<Row<ProposalRecord>> {
    if k < cursor_kind(scope, kinds, cursor, kinds.len() as int) {
        Seq::empty()
    } else {
        kind_rows(rows, scope, kinds[k], cursor)
    }
}

fn find_cursor_kind(scope: &str, kinds: &[u8], cursor: Option<&[u8]>) -> (k: usize)
    ensures
        k == cursor_kind(scope@, kinds@, cursor_bytes(cursor), kinds@.len() as int),
{
    match cursor {
        Some(c) => {
            let mut n: usize = kinds.len();
            while n > 0
                invariant
                    n <= kinds@.len(),
                    cursor_bytes(cursor) == Some(c@),
                    cursor_kind(scope@, kinds@, cursor_bytes(cursor), n as int) == cursor_kind(
                        scope@,
                        kinds@,
                        cursor_bytes(cursor),
                        kinds@.len() as int,
                    ),
                decreases n,
            {
                let prefix = proposal_ns_prefix(scope, kinds[n - 1]);
                if bytes_start_with(c, prefix.as_slice()) {
                    return n - 1;
                }
                n -= 1;
            }
            0
        },
        None => 0,
    }
}

/// How many rows a walk looks at that stops after `cap` rows, or once it has `room` proposals.
pub open spec fn walked(rows: Seq<Row<ProposalRecord>>, room: int, cap: int) -> int
    decreases rows.len(),
{
    if rows.len() == 0 || room <= 0 || cap <= 0 {
        0
    } else {
        1 + walked(
            rows.drop_first(),
            if is_proposal_row(rows[0]) {
                room - 1
            } else {
                room
            },
            cap - 1,
        )
    }
}

/// What a listing has found: rows, and whether it stopped before the end.
pub struct Listing {
    pub found: Seq<Row<ProposalRecord>>,
    pub stopped: bool,
}

/// What a listing has found in the first `n` kinds.
pub open spec fn listed_upto(
    rows: Seq<Row<ProposalRecord>>,
    scope: Seq<char>,
    kinds: Seq<u8>,
    limit: int,
    cap: int,
    cursor: Option<Seq<u8>>,
    n: int,
) -> Listing
    decreases n,
{
    if n <= 0 {
        Listing { found: Seq::empty(), stopped: false }
    } else {
        let before = listed_upto(rows, scope, kinds, limit, cap, cursor, n - 1);
        if before.stopped {
            before
        } else {
            let w = rows_at(rows, scope, kinds, cursor, n - 1);
            let end = walked(w, limit - before.found.len(), cap);
            Listing {
                found: before.found + w.take(end).filter(proposal_row()),
                stopped: end < w.len(),
            }
        }
    }
}

/// `item` shows the proposal row.
pub open spec fn shows_row(item: ProposalItem, row: Row<ProposalRecord>) -> bool {
    proposal_id_of(row.key@) == Some(encode_utf8(item.id@)) && item.record@ == row.value->0@
}

/// `items` show the rows, in order.
pub open spec fn show_rows(items: Seq<ProposalItem>, rows: Seq<Row<ProposalRecord>>) -> bool {
    items.len() == rows.len() && forall|i: int|
        0 <= i < items.len() ==> shows_row(#[trigger] items[i], rows[i])
}

/// `out` is the page of what a listing found.
pub open spec fn is_proposal_page(out: ProposalListResult, l: Listing) -> bool {
    &&& show_rows(out.items@, l.found)
    &&& out.truncated == l.stopped
    &&& opt_bytes(out.next_cursor) == if l.stopped && l.found.len() > 0 {
        Some(l.found.last().key@)
    } else {
        None
    }
}

proof fn lemma_walk_split(rows: Seq<Row<ProposalRecord>>, room: int, cap: int, j: int)
    requires
        0 <= j < rows.len(),
        j < cap,
        rows.take(j).filter(proposal_row()).len() < room,
        walked(rows, room, cap) == j + walked(
            rows.skip(j),
            room - rows.take(j).filter(proposal_row()).len(),
            cap - j,
        ),
    ensures
        walked(rows, room, cap) == j + 1 + walked(
            rows.skip(j + 1),
            room - rows.take(j + 1).filter(proposal_row()).len(),
            cap - (j + 1),
        ),
        rows.take(j + 1).filter(proposal_row()) == if is_proposal_row(rows[j]) {
            rows.take(j).filter(proposal_row()).push(rows[j])
        } else {
            rows.take(j).filter(proposal_row())
        },
{
    lemma_filter_take(rows, j, proposal_row());
    assert(rows.skip(j).drop_first() =~= rows.skip(j + 1));
    assert(rows.skip(j)[0] == rows[j]);
}

fn list_kind(
    space: &Keyspace<ProposalRecord>,
    prefix: &[u8],
    limit: usize,
    cap: usize,
    cursor: Option<&[u8]>,
    items: &mut Vec<ProposalItem>,
    last: &mut Option<Vec<u8>>,
    Ghost(found): Ghost<Seq<Row<ProposalRecord>>>,
) -> (stopped: bool)
    requires
        space.wf(),
        show_rows(old(items)@, found),
        found.len() <= limit,
        opt_bytes(*old(last)) == if found.len() > 0 {
            Some(found.last().key@)
        } else {
            None
        },
    ensures
        ({
            let w = space.rows@.filter(in_range_and(prefix@, cursor_bytes(cursor), any_row()));
            let end = walked(w, limit - found.len(), cap as int);
            let now = found + w.take(end).filter(proposal_row());
            &&& stopped == (end < w.len())
            &&& show_rows(final(items)@, now)
            &&& now.len() <= limit
            &&& opt_bytes(*final(last)) == if now.len() > 0 {
                Some(now.last().key@)
            } else {
                None
            }
        }),
{
    let (from, to) = space.range(prefix, cursor);
    let ghost w = space.rows@.subrange(from as int, to as int);
    let ghost room = limit - found.len();
    let ghost p = proposal_row();
    proof {
        let rows = space.rows@;
        let c = cursor_bytes(cursor);
        let r = |r: Row<ProposalRecord>| in_range(r.key@, prefix@, c);
        lemma_filter_window(rows, from as int, to as int, r, any_row());
        lemma_filter_agree(
            rows,
            in_range_and(prefix@, c, any_row()),
            |x: Row<ProposalRecord>| r(x) && any_row()(x),
        );
        lemma_filter_all(w, any_row());
        reveal(Seq::filter);
        assert(w.take(0).filter(p) =~= Seq::empty());
        assert(w.skip(0) =~= w);
        assert(found + w.take(0).filter(p) =~= found);
    }
    let mut j: usize = 0;
    while j < to - from && j < cap && items.len() < limit
        invariant
            from <= to <= space.rows@.len(),
            w == space.rows@.subrange(from as int, to as int),
            p == proposal_row(),
            room == limit - found.len(),
            j <= to - from,
            j <= cap,
            items@.len() <= limit,
            show_rows(items@, found + w.take(j as int).filter(p)),
            walked(w, room, cap as int) == j + walked(
                w.skip(j as int),
                room - w.take(j as int).filter(p).len(),
                cap - j,
            ),
            opt_bytes(*last) == if (found + w.take(j as int).filter(p)).len() > 0 {
                Some((found + w.take(j as int).filter(p)).last().key@)
            } else {
                None
            },
        decreases to - from - j,
    {
        let row = &space.rows[from + j];
        let ghost was = found + w.take(j as int).filter(p);
        proof {
            assert(w[j as int] == *row);
            lemma_walk_split(w, room, cap as int, j as int);
        }
        match (parse_proposal_by_id(row.key.as_slice()), &row.value) {
            (Some(id), Some(record)) => {
                proof {
                    vstd::utf8::encode_utf8_valid_utf8(id@);
                    assert(found + w.take(j + 1).filter(p) =~= was.push(*row));
                }
                *last = Some(copy_bytes(row.key.as_slice()));
                items.push(ProposalItem { id, record: record.copy() });
            },
            _ => {},
        }
        j += 1;
    }
    (to - from) > j
}

/// List the proposals of the kinds given, in this order, from the cursor on. The walk stops after so
/// many rows of one kind, or once the page is full.
pub fn list_core(
    idx: &IndexDb,
    scope: &str,
    kind_bytes: &[u8],
    limit: usize,
    scan_cap: usize,
    cursor: Option<&[u8]>,
) -> (out: ProposalListResult)
    requires
        idx.wf(),
    ensures
        is_proposal_page(
            out,
            listed_upto(
                idx.proposals.rows@,
                scope@,
                kind_bytes@,
                limit as int,
                scan_cap as int,
                cursor_bytes(cursor),
                kind_bytes@.len() as int,
            ),
        ),
{
    let mut items: Vec<ProposalItem> = Vec::new();
    let mut last: Option<Vec<u8>> = None;
    let mut stopped: bool = false;
    let first: usize = find_cursor_kind(scope, kind_bytes, cursor);
    let mut n: usize = 0;
    let ghost rows = idx.proposals.rows@;
    while n < kind_bytes.len() && !stopped
        invariant
            idx.wf(),
            rows == idx.proposals.rows@,
            n <= kind_bytes@.len(),
            first == cursor_kind(
                scope@,
                kind_bytes@,
                cursor_bytes(cursor),
                kind_bytes@.len() as int,
            ),
            ({
                let l = listed_upto(
                    rows,
                    scope@,
                    kind_bytes@,
                    limit as int,
                    scan_cap as int,
                    cursor_bytes(cursor),
                    n as int,
                );
                &&& show_rows(items@, l.found)
                &&& l.stopped == stopped
                &&& l.found.len() <= limit
                &&& opt_bytes(last) == if l.found.len() > 0 {
                    Some(l.found.last().key@)
                } else {
                    None
                }
            }),
        decreases kind_bytes@.len() - n,
    {
        let ghost l = listed_upto(
            rows,
            scope@,
            kind_bytes@,
            limit as int,
            scan_cap as int,
            cursor_bytes(cursor),
            n as int,
        );
        if n < first {
            proof {
                let none = Seq::<Row<ProposalRecord>>::empty();
                assert(rows_at(rows, scope@, kind_bytes@, cursor_bytes(cursor), n as int) == none);
                reveal(Seq::filter);
                assert(none.take(0).filter(proposal_row()) =~= none);
                assert(l.found + none =~= l.found);
            }
        } else {
            let prefix = proposal_ns_prefix(scope, kind_bytes[n]);
            let from = match cursor {
                Some(c) => if bytes_start_with(c, prefix.as_slice()) {
                    Some(c)
                } else {
                    None
                },
                None => None,
            };
            assert(cursor_bytes(from) == cursor_under(cursor_bytes(cursor), prefix@));
            stopped =
            list_kind(
                &idx.proposals,
                prefix.as_slice(),
                limit,
                scan_cap,
                from,
                &mut items,
                &mut last,
                Ghost(l.found),
            );
        }
        n += 1;
    }
    proof {
        if stopped {
            lemma_stopped_stays(
                rows,
                scope@,
                kind_bytes@,
                limit as int,
                scan_cap as int,
                cursor_bytes(cursor),
                n as int,
                kind_bytes@.len() as int,
            );
        }
    }
    ProposalListResult {
        items,
        truncated: stopped,
        next_cursor: if stopped {
            last
        } else {
            None
        },
    }
}

proof fn lemma_stopped_stays(
    rows: Seq<Row<ProposalRecord>>,
    scope: Seq<char>,
    kinds: Seq<u8>,
    limit: int,
    cap: int,
    cursor: Option<Seq<u8>>,
    n: int,
    m: int,
)
    requires
        0 <= n <= m,
        listed_upto(rows, scope, kinds, limit, cap, cursor, n).stopped,
    ensures
        listed_upto(rows, scope, kinds, limit, cap, cursor, m) == listed_upto(
            rows,
            scope,
            kinds,
            limit,
            cap,
            cursor,
            n,
        ),
    decreases m - n,
{
    if n < m {
        lemma_stopped_stays(rows, scope, kinds, limit, cap, cursor, n, m - 1);
    }
}

proof fn lemma_one_kind_chains(
    idx: IndexDb,
    scope: Seq<char>,
    kind: u8,
    cursor: Option<Seq<u8>>,
    n: int,
)
    requires
        idx.wf(),
        0 < n <= kind_proposals(idx.proposals.rows@, scope, kind, cursor).len(),
    ensures
        kind_proposals(
            idx.proposals.rows@,
            scope,
            kind,
            Some(kind_proposals(idx.proposals.rows@, scope, kind, cursor)[n - 1].key@),
        ) == kind_proposals(idx.proposals.rows@, scope, kind, cursor).skip(n),
{
    let prefix = proposal_prefix(encode_utf8(scope), kind);
    lemma_under_prefix(idx.proposals.rows@, scope, kind, cursor, n - 1);
    law_range_pages_chain(
        idx.proposals.rows@,
        prefix,
        cursor_under(cursor, prefix),
        proposal_row(),
        n,
    );
}

/// The proposals of one kind from the cursor on.
pub open spec fn kind_proposals(
    rows: Seq<Row<ProposalRecord>>,
    scope: Seq<char>,
    kind: u8,
    cursor: Option<Seq<u8>>,
) -> Seq<Row<ProposalRecord>> {
    let prefix = proposal_prefix(encode_utf8(scope), kind);
    rows.filter(in_range_and(prefix, cursor_under(cursor, prefix), proposal_row()))
}

pub(crate) proof fn lemma_under_prefix(
    rows: Seq<Row<ProposalRecord>>,
    scope: Seq<char>,
    kind: u8,
    cursor: Option<Seq<u8>>,
    k: int,
)
    requires
        0 <= k < kind_proposals(rows, scope, kind, cursor).len(),
    ensures
        proposal_prefix(encode_utf8(scope), kind).is_prefix_of(
            kind_proposals(rows, scope, kind, cursor)[k].key@,
        ),
{
    let prefix = proposal_prefix(encode_utf8(scope), kind);
    let from = cursor_under(cursor, prefix);
    let key = kind_proposals(rows, scope, kind, cursor)[k].key@;
    lemma_filter_member(rows, in_range_and(prefix, from, proposal_row()), k);
    if from is Some {
        law_bounds_are_the_prefix(prefix, from->0);
        if lex_less(key, prefix) {
            lemma_lex_transitive(from->0, key, prefix);
        }
    }
    law_bounds_are_the_prefix(prefix, key);
}

/// The proposals of the kind at place `k` from the cursor on.
pub open spec fn proposals_at(
    rows: Seq<Row<ProposalRecord>>,
    scope: Seq<char>,
    kinds: Seq<u8>,
    cursor: Option<Seq<u8>>,
    k: int,
) -> Seq<Row<ProposalRecord>> {
    if k < cursor_kind(scope, kinds, cursor, kinds.len() as int) {
        Seq::empty()
    } else {
        kind_proposals(rows, scope, kinds[k], cursor)
    }
}

/// The proposals of the first `n` kinds from the cursor on, kind by kind.
pub open spec fn proposals_upto(
    rows: Seq<Row<ProposalRecord>>,
    scope: Seq<char>,
    kinds: Seq<u8>,
    cursor: Option<Seq<u8>>,
    n: int,
) -> Seq<Row<ProposalRecord>>
    decreases n,
{
    if n <= 0 {
        Seq::empty()
    } else {
        proposals_upto(rows, scope, kinds, cursor, n - 1) + proposals_at(
            rows,
            scope,
            kinds,
            cursor,
            n - 1,
        )
    }
}

/// No kind is listed twice.
pub open spec fn distinct_kinds(kinds: Seq<u8>) -> bool {
    forall|i: int, j: int| 0 <= i < j < kinds.len() ==> kinds[i] != kinds[j]
}

/// A key lies in the range of one kind at most, which is the one of a cursor there.
proof fn lemma_kind_of(scope: Seq<char>, kinds: Seq<u8>, key: Seq<u8>, m: int, n: int)
    requires
        distinct_kinds(kinds),
        0 <= m < n <= kinds.len(),
        proposal_prefix(encode_utf8(scope), kinds[m]).is_prefix_of(key),
    ensures
        cursor_kind(scope, kinds, Some(key), n) == m,
        forall|i: int|
            0 <= i < kinds.len() && i != m ==> !(#[trigger] proposal_prefix(
                encode_utf8(scope),
                kinds[i],
            )).is_prefix_of(key),
    decreases n,
{
    let s = encode_utf8(scope);
    let at = s.len() as int + 1;
    assert forall|i: int| 0 <= i < kinds.len() && i != m implies !(#[trigger] proposal_prefix(
        s,
        kinds[i],
    )).is_prefix_of(key) by {
        let p = proposal_prefix(s, kinds[i]);
        let q = proposal_prefix(s, kinds[m]);
        if p.is_prefix_of(key) {
            assert(key.subrange(0, p.len() as int)[at] == p[at]);
            assert(key.subrange(0, q.len() as int)[at] == q[at]);
        }
    }
    if m < n - 1 {
        assert(!proposal_prefix(s, kinds[n - 1]).is_prefix_of(key));
        lemma_kind_of(scope, kinds, key, m, n - 1);
    }
}

/// The kind of a cursor is the last one whose range holds it.
proof fn lemma_cursor_kind(scope: Seq<char>, kinds: Seq<u8>, cursor: Option<Seq<u8>>, n: int, i: int)
    requires
        0 <= i < n <= kinds.len(),
        i > cursor_kind(scope, kinds, cursor, n),
    ensures
        cursor_under(cursor, proposal_prefix(encode_utf8(scope), kinds[i])) is None,
    decreases n,
{
    if cursor is Some && i < n - 1 {
        lemma_cursor_kind(scope, kinds, cursor, n - 1, i);
    }
}

/// Where the `k`th proposal comes from.
proof fn lemma_place(
    rows: Seq<Row<ProposalRecord>>,
    scope: Seq<char>,
    kinds: Seq<u8>,
    cursor: Option<Seq<u8>>,
    n: int,
    k: int,
) -> (m: int)
    requires
        0 <= n <= kinds.len(),
        0 <= k < proposals_upto(rows, scope, kinds, cursor, n).len(),
    ensures
        0 <= m < n,
        m >= cursor_kind(scope, kinds, cursor, kinds.len() as int),
        proposal_prefix(encode_utf8(scope), kinds[m]).is_prefix_of(
            proposals_upto(rows, scope, kinds, cursor, n)[k].key@,
        ),
    decreases n,
{
    let front = proposals_upto(rows, scope, kinds, cursor, n - 1);
    if k < front.len() {
        lemma_place(rows, scope, kinds, cursor, n - 1, k)
    } else {
        lemma_under_prefix(rows, scope, kinds[n - 1], cursor, k - front.len());
        n - 1
    }
}

/// Nothing is listed of the kinds before the one of the cursor.
proof fn lemma_passed(
    rows: Seq<Row<ProposalRecord>>,
    scope: Seq<char>,
    kinds: Seq<u8>,
    cursor: Option<Seq<u8>>,
    n: int,
)
    requires
        n <= cursor_kind(scope, kinds, cursor, kinds.len() as int),
    ensures
        proposals_upto(rows, scope, kinds, cursor, n).len() == 0,
    decreases n,
{
    if n > 0 {
        lemma_passed(rows, scope, kinds, cursor, n - 1);
    }
}

proof fn lemma_kinds_chain(
    idx: IndexDb,
    scope: Seq<char>,
    kinds: Seq<u8>,
    cursor: Option<Seq<u8>>,
    n: int,
    k: int,
)
    requires
        idx.wf(),
        distinct_kinds(kinds),
        0 <= n <= kinds.len(),
        0 < k <= proposals_upto(idx.proposals.rows@, scope, kinds, cursor, n).len(),
    ensures
        proposals_upto(
            idx.proposals.rows@,
            scope,
            kinds,
            Some(proposals_upto(idx.proposals.rows@, scope, kinds, cursor, n)[k - 1].key@),
            n,
        ) == proposals_upto(idx.proposals.rows@, scope, kinds, cursor, n).skip(k),
    decreases n,
{
    let rows = idx.proposals.rows@;
    let len = kinds.len() as int;
    let front = proposals_upto(rows, scope, kinds, cursor, n - 1);
    let back = proposals_at(rows, scope, kinds, cursor, n - 1);
    let all = front + back;
    let key = all[k - 1].key@;
    let next = Some(key);
    if k <= front.len() {
        let m = lemma_place(rows, scope, kinds, cursor, n - 1, k - 1);
        lemma_kinds_chain(idx, scope, kinds, cursor, n - 1, k);
        lemma_kind_of(scope, kinds, key, m, len);
        lemma_cursor_kind(scope, kinds, cursor, len, n - 1);
        lemma_cursor_kind(scope, kinds, next, len, n - 1);
        assert(proposals_at(rows, scope, kinds, next, n - 1) == back);
        assert(front.skip(k) + back =~= all.skip(k));
    } else {
        let j = k - front.len();
        lemma_under_prefix(rows, scope, kinds[n - 1], cursor, j - 1);
        lemma_kind_of(scope, kinds, key, n - 1, len);
        lemma_passed(rows, scope, kinds, next, n - 1);
        lemma_one_kind_chains(idx, scope, kinds[n - 1], cursor, j);
        assert(proposals_upto(rows, scope, kinds, next, n) =~= back.skip(j));
        assert(back.skip(j) =~= all.skip(k));
    }
}

proof fn lemma_page_is_front(
    rows: Seq<Row<ProposalRecord>>,
    scope: Seq<char>,
    kinds: Seq<u8>,
    limit: int,
    cap: int,
    cursor: Option<Seq<u8>>,
    n: int,
)
    requires
        0 <= n <= kinds.len(),
    ensures
        ({
            let l = listed_upto(rows, scope, kinds, limit, cap, cursor, n);
            let all = proposals_upto(rows, scope, kinds, cursor, n);
            &&& l.found.len() <= all.len()
            &&& l.found == all.take(l.found.len() as int)
            &&& !l.stopped ==> l.found == all
        }),
    decreases n,
{
    let l = listed_upto(rows, scope, kinds, limit, cap, cursor, n);
    let all = proposals_upto(rows, scope, kinds, cursor, n);
    if n <= 0 {
        assert(l.found =~= all.take(0));
    } else {
        lemma_page_is_front(rows, scope, kinds, limit, cap, cursor, n - 1);
        let before = listed_upto(rows, scope, kinds, limit, cap, cursor, n - 1);
        let front = proposals_upto(rows, scope, kinds, cursor, n - 1);
        let back = proposals_at(rows, scope, kinds, cursor, n - 1);
        if before.stopped {
            assert(all.take(l.found.len() as int) =~= front.take(l.found.len() as int));
        } else {
            let w = rows_at(rows, scope, kinds, cursor, n - 1);
            let end = walked(w, limit - before.found.len(), cap);
            lemma_walked(w, limit - before.found.len(), cap);
            assert(back == w.filter(proposal_row())) by {
                if n - 1 < cursor_kind(scope, kinds, cursor, kinds.len() as int) {
                    reveal(Seq::filter);
                    assert(w.filter(proposal_row()) =~= Seq::empty());
                } else {
                    let prefix = proposal_prefix(encode_utf8(scope), kinds[n - 1]);
                    let from = cursor_under(cursor, prefix);
                    lemma_filter_twice(rows, in_range_and(prefix, from, any_row()), proposal_row());
                    lemma_filter_agree(
                        rows,
                        in_range_and(prefix, from, proposal_row()),
                        |r: Row<ProposalRecord>|
                            in_range_and(prefix, from, any_row())(r) && proposal_row()(r),
                    );
                }
            }
            lemma_filter_prefix(w, end, proposal_row());
            let taken = w.take(end).filter(proposal_row());
            assert(l.found == front + taken);
            assert(all.take(l.found.len() as int) =~= front + back.take(taken.len() as int));
            if !l.stopped {
                assert(w.take(end) =~= w);
            }
        }
    }
}

proof fn lemma_walked(rows: Seq<Row<ProposalRecord>>, room: int, cap: int)
    ensures
        0 <= walked(rows, room, cap) <= rows.len(),
    decreases rows.len(),
{
    if rows.len() > 0 && room > 0 && cap > 0 {
        lemma_walked(
            rows.drop_first(),
            if is_proposal_row(rows[0]) {
                room - 1
            } else {
                room
            },
            cap - 1,
        );
    }
}

/// Listing page by page neither skips nor repeats a proposal, however many kinds are listed: a page
/// holds the first of the proposals from its cursor on, all of them unless it stopped; and from the
/// key of its last one on, the proposals are those that it left out.
pub proof fn law_proposal_pages_chain(
    idx: IndexDb,
    scope: Seq<char>,
    kinds: Seq<u8>,
    limit: int,
    cap: int,
    cursor: Option<Seq<u8>>,
)
    requires
        idx.wf(),
        distinct_kinds(kinds),
    ensures
        ({
            let n = kinds.len() as int;
            let rows = idx.proposals.rows@;
            let page = listed_upto(rows, scope, kinds, limit, cap, cursor, n);
            let all = proposals_upto(rows, scope, kinds, cursor, n);
            &&& page.found.len() <= all.len()
            &&& page.found == all.take(page.found.len() as int)
            &&& !page.stopped ==> page.found == all
            &&& page.found.len() > 0 ==> proposals_upto(
                rows,
                scope,
                kinds,
                Some(page.found.last().key@),
                n,
            ) == all.skip(page.found.len() as int)
        }),
{
    let n = kinds.len() as int;
    let rows = idx.proposals.rows@;
    let page = listed_upto(rows, scope, kinds, limit, cap, cursor, n);
    let all = proposals_upto(rows, scope, kinds, cursor, n);
    lemma_page_is_front(rows, scope, kinds, limit, cap, cursor, n);
    if page.found.len() > 0 {
        assert(page.found.last() == all[page.found.len() - 1]);
        lemma_kinds_chain(idx, scope, kinds, cursor, n, page.found.len() as int);
    }
}

// ─── Mining, rejecting, reading ──────────────────────────────────────────────

/// What a proposal row says.
pub open spec fn proposal_fact(r: Option<ProposalRecord>) -> Option<ProposalFact> {
    match r {
        Some(x) => Some(x@),
        None => None,
    }
}

/// What the rows of the proposals say.
pub open spec fn proposal_facts(m: Map<Seq<u8>, Option<ProposalRecord>>) -> Map<
    Seq<u8>,
    Option<ProposalFact>,
> {
    m.map_values(|r: Option<ProposalRecord>| proposal_fact(r))
}

/// The raw key of a mined proposal.
pub open spec fn skill_key(scope: Seq<char>, id: Seq<char>) -> Seq<u8> {
    proposal_key(encode_utf8(scope), PROPOSAL_KIND_SKILL, encode_utf8(id))
}

/// The raw key of the tombstone of a proposal.
pub open spec fn tombstone_key(scope: Seq<char>, id: Seq<char>) -> Seq<u8> {
    proposal_key(encode_utf8(scope), PROPOSAL_KIND_TOMBSTONE, encode_utf8(id))
}

/// Reject a proposal: remove it, and leave a tombstone.
pub fn reject_core(idx: &mut IndexDb, scope: &str, id: &str)
    requires
        old(idx).wf(),
    ensures
        final(idx).wf(),
        final(idx).memory_by_key == old(idx).memory_by_key,
        final(idx).memory_archive == old(idx).memory_archive,
        final(idx).proposals.map() == old(idx).proposals.map().remove(
            skill_key(scope@, id@),
        ).insert(tombstone_key(scope@, id@), None),
{
    let proposal = proposal_by_id(scope, PROPOSAL_KIND_SKILL, id);
    let tombstone = proposal_by_id(scope, PROPOSAL_KIND_TOMBSTONE, id);
    idx.proposals.remove(proposal.as_slice());
    idx.proposals.insert(tombstone, None);
}

/// The rows after the first `n` candidates were written, each unless it has a tombstone.
pub open spec fn mined_upto(
    m: Map<Seq<u8>, Option<ProposalFact>>,
    scope: Seq<char>,
    candidates: Seq<ProposalItem>,
    n: int,
) -> Map<Seq<u8>, Option<ProposalFact>>
    decreases n,
{
    if n <= 0 {
        m
    } else {
        let before = mined_upto(m, scope, candidates, n - 1);
        let c = candidates[n - 1];
        if before.contains_key(tombstone_key(scope, c.id@)) {
            before
        } else {
            before.insert(skill_key(scope, c.id@), Some(c.record@))
        }
    }
}

/// How many of the first `n` candidates were written.
pub open spec fn mined_count(
    m: Map<Seq<u8>, Option<ProposalFact>>,
    scope: Seq<char>,
    candidates: Seq<ProposalItem>,
    n: int,
) -> int
    decreases n,
{
    if n <= 0 {
        0
    } else {
        mined_count(m, scope, candidates, n - 1) + if mined_upto(
            m,
            scope,
            candidates,
            n - 1,
        ).contains_key(tombstone_key(scope, candidates[n - 1].id@)) {
            0int
        } else {
            1
        }
    }
}

/// Write mined candidates, but none that was rejected before. The result says how many were
/// written.
pub fn apply_mine_core(idx: &mut IndexDb, scope: &str, candidates: &Vec<ProposalItem>) -> (mined:
    u32)
    requires
        old(idx).wf(),
        candidates@.len() <= u32::MAX,
    ensures
        final(idx).wf(),
        final(idx).memory_by_key == old(idx).memory_by_key,
        final(idx).memory_archive == old(idx).memory_archive,
        proposal_facts(final(idx).proposals.map()) == mined_upto(
            proposal_facts(old(idx).proposals.map()),
            scope@,
            candidates@,
            candidates@.len() as int,
        ),
        mined == mined_count(
            proposal_facts(old(idx).proposals.map()),
            scope@,
            candidates@,
            candidates@.len() as int,
        ),
{
    let ghost before = proposal_facts(idx.proposals.map());
    let ghost live = idx.memory_by_key;
    let ghost kept = idx.memory_archive;
    let mut mined: u32 = 0;
    let mut i: usize = 0;
    while i < candidates.len()
        invariant
            i <= candidates@.len() <= u32::MAX,
            idx.wf(),
            idx.memory_by_key == live,
            idx.memory_archive == kept,
            proposal_facts(idx.proposals.map()) == mined_upto(
                before,
                scope@,
                candidates@,
                i as int,
            ),
            mined == mined_count(before, scope@, candidates@, i as int),
            mined <= i,
        decreases candidates@.len() - i,
    {
        let c = &candidates[i];
        let tombstone = proposal_by_id(scope, PROPOSAL_KIND_TOMBSTONE, c.id.as_str());
        let ghost m = idx.proposals.map();
        assert(proposal_facts(m).contains_key(tombstone@) == m.contains_key(tombstone@));
        if !idx.proposals.has(tombstone.as_slice()) {
            let raw = proposal_by_id(scope, PROPOSAL_KIND_SKILL, c.id.as_str());
            let record = c.record.copy();
            let ghost r = record;
            let ghost k = raw@;
            idx.proposals.insert(raw, Some(record));
            mined += 1;
            assert(proposal_facts(m.insert(k, Some(r))) =~= proposal_facts(m).insert(
                k,
                Some(r@),
            ));
        }
        i += 1;
    }
    mined
}

/// The record of a proposal row, if one can be read there.
pub open spec fn proposal_at(m: Map<Seq<u8>, Option<ProposalRecord>>, raw: Seq<u8>) -> Option<
    ProposalRecord,
> {
    match entry_at(m, raw) {
        Some(v) => v,
        None => None,
    }
}

/// Read a mined proposal.
pub fn get_core(idx: &IndexDb, scope: &str, id: &str) -> (r: Option<ProposalRecord>)
    requires
        idx.wf(),
    ensures
        proposal_fact(r) == proposal_fact(
            proposal_at(idx.proposals.map(), skill_key(scope@, id@)),
        ),
{
    let raw = proposal_by_id(scope, PROPOSAL_KIND_SKILL, id);
    match idx.proposals.get(raw.as_slice()) {
        Some(p) => Some(p.copy()),
        None => None,
    }
}

/// Promote a proposal: write the memory among those of the group, and remove the proposal.
pub fn promote_core(
    idx: &mut IndexDb,
    scope: &str,
    memory_key: &str,
    record: &MemoryRecord,
    proposal_id: &str,
)
    requires
        old(idx).wf(),
    ensures
        final(idx).wf(),
        final(idx).memory_archive == old(idx).memory_archive,
        record_facts(final(idx).memory_by_key.map()) == record_facts(
            old(idx).memory_by_key.map(),
        ).insert(raw_key(scope@, MEMORY_VIS_GROUP, ""@, memory_key@), Some(record@)),
        final(idx).proposals.map() == old(idx).proposals.map().remove(
            skill_key(scope@, proposal_id@),
        ),
{
    let mem_key = memory_by_key(scope, MEMORY_VIS_GROUP, "", memory_key);
    let ghost m = idx.memory_by_key.map();
    let copy = record.copy();
    let ghost r = copy;
    let ghost k = mem_key@;
    idx.memory_by_key.insert(mem_key, Some(copy));
    let raw = proposal_by_id(scope, PROPOSAL_KIND_SKILL, proposal_id);
    idx.proposals.remove(raw.as_slice());
    assert(record_facts(m.insert(k, Some(r))) =~= record_facts(m).insert(k, Some(r@)));
}

// ─── Scanning for an audit ───────────────────────────────────────────────────

/// What an audit scan asks.
pub struct AuditScanArgs<'a> {
    pub vis_byte: u8,
    pub owner: &'a str,
    /// One key, or everything of the owner.
    pub key: Option<&'a str>,
    /// Whether the archive is read.
    pub from_archive: bool,
    pub limit: usize,
    pub scan_cap: usize,
}

/// A record as an audit scan finds it; without a record where it cannot be read.
#[derive(Debug)]
pub struct AuditRow {
    pub key: String,
    pub record: Option<MemoryRecord>,
}

fn copy_record(r: &Option<MemoryRecord>) -> (copy: Option<MemoryRecord>)
    ensures
        fact_of(copy) == fact_of(*r),
{
    match r {
        Some(x) => Some(x.copy()),
        None => None,
    }
}

/// `items` are what a scan for an audit finds.
pub open spec fn is_audit_scan(
    items: Seq<AuditRow>,
    idx: IndexDb,
    scope: Seq<char>,
    vis: u8,
    owner: Seq<char>,
    key: Option<Seq<char>>,
    from_archive: bool,
    limit: int,
    cap: int,
) -> bool {
    let space = if from_archive {
        idx.memory_archive
    } else {
        idx.memory_by_key
    };
    match key {
        Some(k) => {
            let raw = raw_key(scope, vis, owner, k);
            if space.map().contains_key(raw) {
                items.len() == 1 && items[0].key@ == k && fact_of(items[0].record) == fact_of(
                    space.map()[raw],
                )
            } else {
                items.len() == 0
            }
        },
        None => {
            let found = chosen(
                space.rows@,
                memory_prefix(encode_utf8(scope), vis, encode_utf8(owner)),
                false,
                limit,
                cap,
            );
            items.len() == found.len() && forall|i: int|
                #![trigger items[i]]
                0 <= i < items.len() ==> record_key_of(found[i].key@) == Some(
                    encode_utf8(items[i].key@),
                ) && fact_of(items[i].record) == fact_of(found[i].value)
        },
    }
}

/// Read the records of one keyspace that an audit looks at.
pub fn audit_scan_core(idx: &IndexDb, scope: &str, args: &AuditScanArgs<'_>) -> (items: Vec<
    AuditRow,
>)
    requires
        idx.wf(),
    ensures
        is_audit_scan(
            items@,
            *idx,
            scope@,
            args.vis_byte,
            args.owner@,
            crate::text::opt_str(args.key),
            args.from_archive,
            args.limit as int,
            args.scan_cap as int,
        ),
{
    let space = if args.from_archive {
        &idx.memory_archive
    } else {
        &idx.memory_by_key
    };
    let mut items: Vec<AuditRow> = Vec::new();
    match args.key {
        Some(key) => {
            let raw = memory_by_key(scope, args.vis_byte, args.owner, key);
            let (at, found) = space.locate(raw.as_slice());
            if found {
                items.push(
                    AuditRow { key: key.to_string(), record: copy_record(&space.rows[at].value) },
                );
            }
        },
        None => {
            let prefix = memory_by_key_ns_prefix(scope, args.vis_byte, args.owner);
            let picks = pick_rows(space, prefix.as_slice(), false, args.limit, args.scan_cap);
            let ghost found = chosen(
                space.rows@,
                prefix@,
                false,
                args.limit as int,
                args.scan_cap as int,
            );
            let mut i: usize = 0;
            while i < picks.len()
                invariant
                    i <= picks@.len(),
                    crate::governance::are_picks(picks@, space.rows@, found),
                    items@.len() == i,
                    forall|j: int|
                        #![trigger items@[j]]
                        0 <= j < i ==> record_key_of(found[j].key@) == Some(
                            encode_utf8(items@[j].key@),
                        ) && fact_of(items@[j].record) == fact_of(found[j].value),
                decreases picks@.len() - i,
            {
                let pick = &picks[i];
                items.push(
                    AuditRow {
                        key: pick.key.clone(),
                        record: copy_record(&space.rows[pick.at].value),
                    },
                );
                i += 1;
            }
        },
    }
    items
}

// ─── Operations ──────────────────────────────────────────────────────────────

/// An operation on the proposals of a scope, or a step of an audit.
#[derive(Debug)]
pub enum GovernanceOp {
    ProposalsList { kind_bytes: Vec<u8>, limit: u32, scan_cap: u32, cursor: Option<Vec<u8>> },
    ProposalReject { id: String },
    ProposalsMineApply { candidates: Vec<ProposalItem> },
    ProposalGet { id: String },
    ProposalPromote { proposal_id: String, memory_key: String, record: MemoryRecord },
    AuditScan {
        vis_byte: u8,
        owner: String,
        key: Option<String>,
        from_archive: bool,
        limit: u32,
        scan_cap: u32,
    },
    AuditPersist { mutations: Vec<AuditMutation> },
}

/// What an operation came to.
#[derive(Debug)]
pub enum GovernanceOutcome {
    ProposalsListed {
        items: Vec<ProposalItem>,
        truncated: bool,
        next_cursor: Option<Vec<u8>>,
    },
    Rejected,
    Mined { count: u32 },
    Proposal(Option<ProposalRecord>),
    Promoted,
    AuditScanned { items: Vec<AuditRow> },
    AuditPersisted,
}

/// `outcome` answers `op` on `before`, and leaves `after`.
pub open spec fn governance_is(
    before: IndexDb,
    after: IndexDb,
    scope: Seq<char>,
    op: GovernanceOp,
    outcome: GovernanceOutcome,
) -> bool {
    match op {
        GovernanceOp::ProposalsList { kind_bytes, limit, scan_cap, cursor } => {
            &&& after == before
            &&& outcome matches GovernanceOutcome::ProposalsListed { items, truncated, next_cursor }
                && is_proposal_page(
                (ProposalListResult { items, truncated, next_cursor }),
                listed_upto(
                    before.proposals.rows@,
                    scope,
                    kind_bytes@,
                    limit as int,
                    scan_cap as int,
                    opt_bytes(cursor),
                    kind_bytes@.len() as int,
                ),
            )
        },
        GovernanceOp::ProposalReject { id } => {
            &&& outcome is Rejected
            &&& after.memory_by_key == before.memory_by_key
            &&& after.memory_archive == before.memory_archive
            &&& after.proposals.map() == before.proposals.map().remove(
                skill_key(scope, id@),
            ).insert(tombstone_key(scope, id@), None)
        },
        GovernanceOp::ProposalsMineApply { candidates } => {
            let m = proposal_facts(before.proposals.map());
            let n = candidates@.len() as int;
            &&& outcome matches GovernanceOutcome::Mined { count } && count == mined_count(
                m,
                scope,
                candidates@,
                n,
            )
            &&& after.memory_by_key == before.memory_by_key
            &&& after.memory_archive == before.memory_archive
            &&& proposal_facts(after.proposals.map()) == mined_upto(m, scope, candidates@, n)
        },
        GovernanceOp::ProposalGet { id } => {
            &&& after == before
            &&& outcome matches GovernanceOutcome::Proposal(p) && proposal_fact(p)
                == proposal_fact(proposal_at(before.proposals.map(), skill_key(scope, id@)))
        },
        GovernanceOp::ProposalPromote { proposal_id, memory_key, record } => {
            &&& outcome is Promoted
            &&& after.memory_archive == before.memory_archive
            &&& record_facts(after.memory_by_key.map()) == record_facts(
                before.memory_by_key.map(),
            ).insert(raw_key(scope, MEMORY_VIS_GROUP, ""@, memory_key@), Some(record@))
            &&& after.proposals.map() == before.proposals.map().remove(
                skill_key(scope, proposal_id@),
            )
        },
        GovernanceOp::AuditScan { vis_byte, owner, key, from_archive, limit, scan_cap } => {
            &&& after == before
            &&& outcome matches GovernanceOutcome::AuditScanned { items } && is_audit_scan(
                items@,
                before,
                scope,
                vis_byte,
                owner@,
                opt_text(key),
                from_archive,
                limit as int,
                scan_cap as int,
            )
        },
        GovernanceOp::AuditPersist { mutations } => {
            &&& outcome is AuditPersisted
            &&& after.proposals == before.proposals
            &&& shelves(after) == persisted(
                shelves(before),
                scope,
                mutations@,
                mutations@.len() as int,
            )
        },
    }
}

/// Run an operation on the proposals of a scope, or a step of an audit.
pub fn run_governance_op(idx: &mut IndexDb, scope: &str, op: &GovernanceOp) -> (outcome:
    GovernanceOutcome)
    requires
        old(idx).wf(),
        op matches GovernanceOp::ProposalsMineApply { candidates } ==> candidates@.len() <= u32::MAX,
    ensures
        final(idx).wf(),
        governance_is(*old(idx), *final(idx), scope@, *op, outcome),
{
    match op {
        GovernanceOp::ProposalsList { kind_bytes, limit, scan_cap, cursor } => {
            let from = match cursor {
                Some(c) => Some(c.as_slice()),
                None => None,
            };
            let result = list_core(
                idx,
                scope,
                kind_bytes.as_slice(),
                *limit as usize,
                *scan_cap as usize,
                from,
            );
            GovernanceOutcome::ProposalsListed {
                items: result.items,
                truncated: result.truncated,
                next_cursor: result.next_cursor,
            }
        },
        GovernanceOp::ProposalReject { id } => {
            reject_core(idx, scope, id.as_str());
            GovernanceOutcome::Rejected
        },
        GovernanceOp::ProposalsMineApply { candidates } => {
            let count: u32 = apply_mine_core(idx, scope, candidates);
            GovernanceOutcome::Mined { count }
        },
        GovernanceOp::ProposalGet { id } => GovernanceOutcome::Proposal(
            get_core(idx, scope, id.as_str()),
        ),
        GovernanceOp::ProposalPromote { proposal_id, memory_key, record } => {
            promote_core(idx, scope, memory_key.as_str(), record, proposal_id.as_str());
            GovernanceOutcome::Promoted
        },
        GovernanceOp::AuditScan { vis_byte, owner, key, from_archive, limit, scan_cap } => {
            let args = AuditScanArgs {
                vis_byte: *vis_byte,
                owner: owner.as_str(),
                key: match key {
                    Some(k) => Some(k.as_str()),
                    None => None,
                },
                from_archive: *from_archive,
                limit: *limit as usize,
                scan_cap: *scan_cap as usize,
            };
            GovernanceOutcome::AuditScanned { items: audit_scan_core(idx, scope, &args) }
        },
        GovernanceOp::AuditPersist { mutations } => {
            audit_persist_core(idx, scope, mutations);
            GovernanceOutcome::AuditPersisted
        },
    }
}

// ─── Laws ────────────────────────────────────────────────────────────────────

proof fn lemma_tombstone_blocks(
    m: Map<Seq<u8>, Option<ProposalFact>>,
    scope: Seq<char>,
    id: Seq<char>,
    candidates: Seq<ProposalItem>,
    n: int,
)
    requires
        0 <= n <= candidates.len(),
        m.contains_key(tombstone_key(scope, id)),
    ensures
        mined_upto(m, scope, candidates, n).contains_key(tombstone_key(scope, id)),
        mined_upto(m, scope, candidates, n).contains_key(skill_key(scope, id)) == m.contains_key(
            skill_key(scope, id),
        ),
    decreases n,
{
    if n > 0 {
        lemma_tombstone_blocks(m, scope, id, candidates, n - 1);
        let c = candidates[n - 1];
        if skill_key(scope, c.id@) == skill_key(scope, id) {
            lemma_key_names_id(scope, PROPOSAL_KIND_SKILL, c.id@, id);
        }
    }
}

proof fn lemma_key_names_id(scope: Seq<char>, kind: u8, a: Seq<char>, b: Seq<char>)
    requires
        proposal_key(encode_utf8(scope), kind, encode_utf8(a)) == proposal_key(
            encode_utf8(scope),
            kind,
            encode_utf8(b),
        ),
    ensures
        a == b,
{
    let p = proposal_prefix(encode_utf8(scope), kind);
    let x = proposal_key(encode_utf8(scope), kind, encode_utf8(a));
    let y = proposal_key(encode_utf8(scope), kind, encode_utf8(b));
    assert(encode_utf8(a) =~= x.skip(p.len() as int));
    assert(encode_utf8(b) =~= y.skip(p.len() as int));
    crate::text::lemma_encoding_injective(a, b);
}

/// A rejected proposal does not come back: whatever is mined afterwards, the proposal is not among
/// the rows.
pub proof fn law_rejected_stays_rejected(
    before: IndexDb,
    mid: IndexDb,
    after: IndexDb,
    scope: Seq<char>,
    id: Seq<char>,
    candidates: Seq<ProposalItem>,
)
    requires
        mid.proposals.map() == before.proposals.map().remove(skill_key(scope, id)).insert(
            tombstone_key(scope, id),
            None,
        ),
        proposal_facts(after.proposals.map()) == mined_upto(
            proposal_facts(mid.proposals.map()),
            scope,
            candidates,
            candidates.len() as int,
        ),
    ensures
        !after.proposals.map().contains_key(skill_key(scope, id)),
        proposal_at(after.proposals.map(), skill_key(scope, id)) is None,
{
    let m = proposal_facts(mid.proposals.map());
    assert(skill_key(scope, id) != tombstone_key(scope, id)) by {
        let n = encode_utf8(scope).len() as int + 1;
        assert(skill_key(scope, id)[n] == PROPOSAL_KIND_SKILL);
        assert(tombstone_key(scope, id)[n] == PROPOSAL_KIND_TOMBSTONE);
    }
    lemma_tombstone_blocks(m, scope, id, candidates, candidates.len() as int);
    assert(proposal_facts(after.proposals.map()).contains_key(skill_key(scope, id))
        == after.proposals.map().contains_key(skill_key(scope, id)));
}

/// Mining the same candidates again changes nothing: the rows are those of the first time.
pub proof fn law_mining_again_is_idle(
    m: Map<Seq<u8>, Option<ProposalFact>>,
    scope: Seq<char>,
    candidates: Seq<ProposalItem>,
)
    requires
        forall|i: int, j: int|
            0 <= i < j < candidates.len() ==> (#[trigger] candidates[i]).id@ != (
            #[trigger] candidates[j]).id@,
    ensures
        mined_upto(
            mined_upto(m, scope, candidates, candidates.len() as int),
            scope,
            candidates,
            candidates.len() as int,
        ) == mined_upto(m, scope, candidates, candidates.len() as int),
{
    let full = mined_upto(m, scope, candidates, candidates.len() as int);
    lemma_remined(m, scope, candidates, candidates.len() as int);
}

/// A proposal and a tombstone have different keys.
pub proof fn lemma_kinds_apart(scope: Seq<char>, a: Seq<char>, b: Seq<char>)
    ensures
        skill_key(scope, a) != tombstone_key(scope, b),
{
    let n = encode_utf8(scope).len() as int + 1;
    assert(skill_key(scope, a)[n] == PROPOSAL_KIND_SKILL);
    assert(tombstone_key(scope, b)[n] == PROPOSAL_KIND_TOMBSTONE);
}

proof fn lemma_mined_entry(
    m: Map<Seq<u8>, Option<ProposalFact>>,
    scope: Seq<char>,
    candidates: Seq<ProposalItem>,
    n: int,
    i: int,
)
    requires
        0 <= i < candidates.len(),
        0 <= n <= candidates.len(),
        forall|i: int, j: int|
            0 <= i < j < candidates.len() ==> (#[trigger] candidates[i]).id@ != (
            #[trigger] candidates[j]).id@,
    ensures
        mined_upto(m, scope, candidates, n).contains_key(tombstone_key(scope, candidates[i].id@))
            == m.contains_key(tombstone_key(scope, candidates[i].id@)),
        i < n && !m.contains_key(tombstone_key(scope, candidates[i].id@)) ==> mined_upto(
            m,
            scope,
            candidates,
            n,
        ).contains_key(skill_key(scope, candidates[i].id@)) && mined_upto(m, scope, candidates, n)[skill_key(
            scope,
            candidates[i].id@,
        )] == Some(candidates[i].record@),
    decreases n,
{
    if n > 0 {
        lemma_mined_entry(m, scope, candidates, n - 1, i);
        let c = candidates[n - 1];
        lemma_kinds_apart(scope, c.id@, candidates[i].id@);
        if i < n - 1 && skill_key(scope, c.id@) == skill_key(scope, candidates[i].id@) {
            lemma_key_names_id(scope, PROPOSAL_KIND_SKILL, c.id@, candidates[i].id@);
            assert(candidates[i].id@ != candidates[n - 1].id@);
        }
    }
}

proof fn lemma_remined(
    m: Map<Seq<u8>, Option<ProposalFact>>,
    scope: Seq<char>,
    candidates: Seq<ProposalItem>,
    n: int,
)
    requires
        0 <= n <= candidates.len(),
        forall|i: int, j: int|
            0 <= i < j < candidates.len() ==> (#[trigger] candidates[i]).id@ != (
            #[trigger] candidates[j]).id@,
    ensures
        mined_upto(
            mined_upto(m, scope, candidates, candidates.len() as int),
            scope,
            candidates,
            n,
        ) == mined_upto(m, scope, candidates, candidates.len() as int),
    decreases n,
{
    let full = mined_upto(m, scope, candidates, candidates.len() as int);
    if n > 0 {
        lemma_remined(m, scope, candidates, n - 1);
        lemma_mined_entry(m, scope, candidates, candidates.len() as int, n - 1);
        let c = candidates[n - 1];
        if !full.contains_key(tombstone_key(scope, c.id@)) {
            assert(full.insert(skill_key(scope, c.id@), Some(c.record@)) =~= full);
        }
    }
}

} // verus!
