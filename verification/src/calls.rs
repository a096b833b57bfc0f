//! References and callers: the name scan over call sites, and the resolved refinement over it.
//!
//! The name scan is the floor. It always runs, and it alone decides which same-named call sites
//! are reported. Scope and import resolution annotates those hits and may add call sites whose
//! local binding was renamed; it never removes one.
use vstd::prelude::*;
use vstd::utf8::encode_utf8;

use crate::cursor::{base64, Cursor};
use crate::keys::{call_by_callee, call_key, callee_fits};
use crate::model::{Call, RelPath};
use crate::seek::bytes_hold;
use crate::seqs::{
    lemma_filter_agree, lemma_filter_none, lemma_filter_prefix, lemma_filter_push,
    lemma_filter_split, lemma_filter_twice, lemma_map_multiset,
};
use crate::sort::{comes_after, cursor_bytes, first_after, runs, sort_by_key, Keyed};
use crate::tables::{entry_at, paths_get, paths_held, paths_insert, paths_new};
use crate::text::{
    copy_bytes, holds_seq, lemma_lex_irreflexive, lemma_lex_transitive, lex_less, same_str,
};

verus! {

/// The least number of matching call sites that a scan looks at before it stops counting.
pub const SCAN_FLOOR: usize = 2000;

/// How many matching rows a scan with this page size looks at.
pub open spec fn scan_cap(limit: int) -> int {
    if limit * 8 > usize::MAX {
        usize::MAX as int
    } else if limit * 8 > SCAN_FLOOR {
        limit * 8
    } else {
        SCAN_FLOOR as int
    }
}

/// How many matching rows a scan with this page size looks at.
pub fn scan_cap_of(limit: usize) -> (cap: usize)
    ensures
        cap == scan_cap(limit as int),
        cap >= SCAN_FLOOR,
        cap >= limit,
{
    match limit.checked_mul(8) {
        Some(n) => if n > SCAN_FLOOR {
            n
        } else {
            SCAN_FLOOR
        },
        None => usize::MAX,
    }
}

/// The smaller of two numbers.
pub open spec fn least(a: int, b: int) -> int {
    if a < b {
        a
    } else {
        b
    }
}

// ─── Call sites ──────────────────────────────────────────────────────────────

/// A call site as the index records it.
pub struct CallRow {
    pub key: Seq<u8>,
    pub callee: Seq<char>,
    pub rel: Seq<u8>,
    pub start: u32,
    pub line: u32,
    pub column: u32,
}

/// One entry of the callee index.
#[derive(Debug)]
pub struct InRamCall {
    /// The call key: callee, path and start byte.
    pub key: Vec<u8>,
    pub callee: String,
    pub rel: RelPath,
    /// 0-based byte offset of the call site.
    pub start_byte: u32,
    /// 1-based line.
    pub line: u32,
    /// 0-based byte column.
    pub column: u32,
}

impl View for InRamCall {
    type V = CallRow;

    open spec fn view(&self) -> CallRow {
        CallRow {
            key: self.key@,
            callee: self.callee@,
            rel: self.rel@,
            start: self.start_byte,
            line: self.line,
            column: self.column,
        }
    }
}

impl Keyed for InRamCall {
    open spec fn sort_key(&self) -> Seq<u8> {
        self.key@
    }

    fn key_bytes(&self) -> (k: &[u8]) {
        self.key.as_slice()
    }
}

/// A call site within a file: the callee identifier, its start byte offset, and its position.
#[derive(Debug)]
pub struct CallRef {
    pub callee: String,
    pub start_byte: u32,
    /// 1-based line.
    pub line: u32,
    /// 0-based byte column.
    pub column: u32,
}

/// A call site that a query reports.
#[derive(Debug)]
pub struct ReferenceHit {
    pub path: RelPath,
    pub line: u32,
    pub column: u32,
    pub callee: String,
    /// Whether resolution proved that this site binds to the definition asked about; `None` where
    /// resolution had nothing to say.
    pub resolved: Option<bool>,
}

/// A reported call site together with its key and start byte.
#[derive(Debug)]
pub struct ScanHit {
    pub key: Vec<u8>,
    pub start: u32,
    pub hit: ReferenceHit,
}

/// The call site that a hit reports.
pub open spec fn row_of(h: ScanHit) -> CallRow {
    CallRow {
        key: h.key@,
        callee: h.hit.callee@,
        rel: h.hit.path@,
        start: h.start,
        line: h.hit.line,
        column: h.hit.column,
    }
}

impl Keyed for ScanHit {
    open spec fn sort_key(&self) -> Seq<u8> {
        self.key@
    }

    fn key_bytes(&self) -> (k: &[u8]) {
        self.key.as_slice()
    }
}

/// The call sites of a list of entries.
pub open spec fn rows_of(entries: Seq<InRamCall>) -> Seq<CallRow> {
    entries.map_values(|e: InRamCall| e@)
}

/// Whether the bytes of a callee hold the bytes of `name`.
pub open spec fn callee_holds(callee: Seq<char>, name: Seq<char>) -> bool {
    holds_seq(encode_utf8(callee), encode_utf8(name))
}

/// The condition that a call site's callee holds `name`.
pub open spec fn named(name: Seq<char>) -> spec_fn(CallRow) -> bool {
    |r: CallRow| callee_holds(r.callee, name)
}

/// The condition that a call site comes after `cursor`.
pub open spec fn past(cursor: Option<Seq<u8>>) -> spec_fn(CallRow) -> bool {
    |r: CallRow| comes_after(cursor, r.key)
}

/// The call sites that a query for `name` resumed after `cursor` ranges over, in key order.
pub open spec fn matching(rows: Seq<CallRow>, name: Seq<char>, cursor: Option<Seq<u8>>) -> Seq<
    CallRow,
> {
    rows.filter(past(cursor)).filter(named(name))
}

/// One page of a name scan.
pub struct CallScanPage {
    /// Matching call sites seen, up to the scan cap.
    pub total: u32,
    /// True when the scan stopped at its cap, so that `total` may be short.
    pub total_is_partial: bool,
    pub hits: Vec<ScanHit>,
    pub next_cursor: Option<Cursor>,
}

/// The text of an optional cursor.
pub open spec fn cursor_text(c: Option<Cursor>) -> Option<Seq<char>> {
    match c {
        Some(x) => Some(x.0@),
        None => None,
    }
}

/// `page` is the page of up to `limit` hits over the matching call sites `found`: the first of
/// them, unannotated; their number up to the scan cap; and a cursor at the last hit when the page
/// does not hold all that was counted.
pub open spec fn is_scan_page(page: CallScanPage, found: Seq<CallRow>, limit: int) -> bool {
    let counted = least(found.len() as int, scan_cap(limit));
    &&& page.total == counted
    &&& page.total_is_partial == (found.len() >= scan_cap(limit))
    &&& page.hits@.len() == least(found.len() as int, limit)
    &&& forall|i: int|
        0 <= i < page.hits@.len() ==> row_of(#[trigger] page.hits@[i]) == found[i]
            && page.hits@[i].hit.resolved is None
    &&& cursor_text(page.next_cursor) == if counted > limit && limit > 0 {
        Some(base64(found[limit - 1].key))
    } else {
        None
    }
}

/// A name scan in progress: call sites are offered in key order until it asks to stop.
pub struct CallScan {
    limit: usize,
    cap: usize,
    hits: Vec<ScanHit>,
    total: u32,
    offered: Ghost<Seq<CallRow>>,
    name: Ghost<Seq<char>>,
}

impl CallScan {
    /// The page size.
    pub closed spec fn page_size(&self) -> int {
        self.limit as int
    }

    /// The name asked about.
    pub closed spec fn wanted(&self) -> Seq<char> {
        self.name@
    }

    /// The call sites offered so far.
    pub closed spec fn seen(&self) -> Seq<CallRow> {
        self.offered@
    }

    /// The matching call sites among those offered.
    pub open spec fn found(&self) -> Seq<CallRow> {
        self.seen().filter(named(self.wanted()))
    }

    /// What the scan holds follows from what it was offered.
    pub closed spec fn wf(&self) -> bool {
        &&& self.cap == scan_cap(self.limit as int)
        &&& self.total == self.found().len()
        &&& self.total <= self.cap
        &&& self.hits@.len() == least(self.found().len() as int, self.limit as int)
        &&& forall|i: int|
            0 <= i < self.hits@.len() ==> row_of(#[trigger] self.hits@[i]) == self.found()[i]
                && self.hits@[i].hit.resolved is None
    }

    /// Start a scan for `name` with pages of `limit` hits.
    pub fn start(name: &str, limit: usize) -> (s: CallScan)
        ensures
            s.wf(),
            s.wanted() == name@,
            s.page_size() == limit,
            s.seen().len() == 0,
    {
        let s = CallScan {
            limit,
            cap: scan_cap_of(limit),
            hits: Vec::new(),
            total: 0,
            offered: Ghost(Seq::empty()),
            name: Ghost(name@),
        };
        proof {
            lemma_filter_none(s.offered@, named(s.name@));
        }
        s
    }

    /// Offer the next call site. The result says whether the scan wants another one.
    pub fn offer(&mut self, name: &str, row: &InRamCall) -> (more: bool)
        requires
            old(self).wf(),
            name@ == old(self).wanted(),
            old(self).found().len() < scan_cap(old(self).page_size()),
            old(self).found().len() < u32::MAX,
        ensures
            final(self).wf(),
            final(self).wanted() == old(self).wanted(),
            final(self).page_size() == old(self).page_size(),
            final(self).seen() == old(self).seen().push(row@),
            more == (final(self).found().len() < scan_cap(final(self).page_size())),
    {
        let ghost before = self.found();
        proof {
            lemma_filter_push(self.offered@, row@, named(self.name@));
        }
        self.offered = Ghost(self.offered@.push(row@));
        if !bytes_hold(row.callee.as_str().as_bytes(), name.as_bytes()) {
            return true;
        }
        assert(self.found() =~= before.push(row@));
        self.total = self.total + 1;
        if self.hits.len() < self.limit {
            self.hits.push(
                ScanHit {
                    key: copy_bytes(row.key.as_slice()),
                    start: row.start_byte,
                    hit: ReferenceHit {
                        path: row.rel.copy(),
                        line: row.line,
                        column: row.column,
                        callee: row.callee.clone(),
                        resolved: None,
                    },
                },
            );
        }
        (self.total as usize) < self.cap
    }

    /// End the scan: the page over what was offered.
    pub fn finish(self) -> (page: CallScanPage)
        requires
            self.wf(),
        ensures
            is_scan_page(page, self.found(), self.page_size()),
    {
        let n: usize = self.hits.len();
        let next_cursor = if self.total as usize > self.limit && n > 0 {
            Some(Cursor::encode_fjall(self.hits[n - 1].key.as_slice()))
        } else {
            None
        };
        CallScanPage {
            total: self.total,
            total_is_partial: self.total as usize >= self.cap,
            hits: self.hits,
            next_cursor,
        }
    }
}

// ─── The in-memory call index ────────────────────────────────────────────────

/// The call sites of one file as the index is built from them.
pub struct FileCalls {
    pub rel: RelPath,
    pub calls: Vec<Call>,
}

/// In-memory index of every call site: by callee, and by file.
pub struct InRamCallIndex {
    entries: Vec<InRamCall>,
    by_path: ahash::AHashMap<Vec<u8>, u32>,
    files: Vec<Vec<CallRef>>,
}

/// The row that one call contributes to the callee index.
pub open spec fn row_for(rel: Seq<u8>, c: Call) -> CallRow {
    CallRow {
        key: call_key(c.callee@, rel, c.start_byte),
        callee: c.callee@,
        rel,
        start: c.start_byte,
        line: (c.start_row + 1) as u32,
        column: c.start_col,
    }
}

/// The rows that the first `n` calls of a file contribute. A callee too long for a key gives none.
pub open spec fn file_rows(rel: Seq<u8>, calls: Seq<Call>, n: int) -> Seq<CallRow>
    decreases n,
{
    if n <= 0 {
        Seq::empty()
    } else if callee_fits(calls[n - 1].callee@) {
        file_rows(rel, calls, n - 1).push(row_for(rel, calls[n - 1]))
    } else {
        file_rows(rel, calls, n - 1)
    }
}

/// The rows that the first `n` files contribute.
pub open spec fn all_rows(files: Seq<FileCalls>, n: int) -> Seq<CallRow>
    decreases n,
{
    if n <= 0 {
        Seq::empty()
    } else {
        all_rows(files, n - 1) + file_rows(
            files[n - 1].rel@,
            files[n - 1].calls@,
            files[n - 1].calls@.len() as int,
        )
    }
}

/// `r` is the call `c` as the by-file view keeps it.
pub open spec fn is_ref_of(r: CallRef, c: Call) -> bool {
    r.callee@ == c.callee@ && r.start_byte == c.start_byte && r.line == c.start_row + 1 && r.column
        == c.start_col
}

/// `refs` are the calls `calls`, one for one.
pub open spec fn are_refs_of(refs: Seq<CallRef>, calls: Seq<Call>) -> bool {
    refs.len() == calls.len() && forall|i: int|
        0 <= i < refs.len() ==> is_ref_of(#[trigger] refs[i], calls[i])
}

/// No path stands twice in `files`.
pub open spec fn distinct_files(files: Seq<FileCalls>) -> bool {
    forall|i: int, j: int|
        0 <= i < j < files.len() ==> (#[trigger] files[i]).rel@ != (#[trigger] files[j]).rel@
}

/// The files are distinct, and their number, that of their calls and every row number fit into 32
/// bits.
pub open spec fn indexable(per_file: Seq<FileCalls>) -> bool {
    &&& distinct_files(per_file)
    &&& per_file.len() <= u32::MAX
    &&& all_rows(per_file, per_file.len() as int).len() <= u32::MAX
    &&& forall|i: int, j: int|
        0 <= i < per_file.len() && 0 <= j < per_file[i].calls@.len() ==> (
        #[trigger] per_file[i].calls@[j]).start_row < u32::MAX
}

/// `idx` indexes the calls of the files: by callee those that have a key, and by file all of them.
pub open spec fn is_index_of(idx: InRamCallIndex, per_file: Seq<FileCalls>) -> bool {
    &&& idx.rows().to_multiset() == all_rows(per_file, per_file.len() as int).to_multiset()
    &&& forall|i: int|
        0 <= i < per_file.len() ==> are_refs_of(
            idx.calls_of((#[trigger] per_file[i]).rel@),
            per_file[i].calls@,
        )
    &&& forall|p: Seq<u8>|
        (forall|i: int| 0 <= i < per_file.len() ==> (#[trigger] per_file[i]).rel@ != p) ==> (
        #[trigger] idx.calls_of(p)).len() == 0
}

impl InRamCallIndex {
    /// The entries ascend by key, and every indexed path has its list of calls.
    pub closed spec fn wf(&self) -> bool {
        &&& runs(self.entries@, true)
        &&& self.entries@.len() <= u32::MAX
        &&& forall|p: Seq<u8>|
            #[trigger] paths_held(self.by_path).contains_key(p) ==> paths_held(self.by_path)[p]
                < self.files@.len()
    }

    /// The indexed call sites, in key order.
    pub closed spec fn rows(&self) -> Seq<CallRow> {
        rows_of(self.entries@)
    }

    /// The calls of one file; none for a file that is not indexed.
    pub closed spec fn calls_of(&self, rel: Seq<u8>) -> Seq<CallRef> {
        if paths_held(self.by_path).contains_key(rel) {
            self.files@[paths_held(self.by_path)[rel] as int]@
        } else {
            Seq::empty()
        }
    }

    /// Build the index from the calls of every file.
    pub fn build(per_file: Vec<FileCalls>) -> (idx: InRamCallIndex)
        requires
            indexable(per_file@),
        ensures
            idx.wf(),
            is_index_of(idx, per_file@),
    {
        let mut entries: Vec<InRamCall> = Vec::new();
        let mut by_path = paths_new();
        let mut files: Vec<Vec<CallRef>> = Vec::new();
        let mut i: usize = 0;
        assert(rows_of(entries@) =~= all_rows(per_file@, 0));
        while i < per_file.len()
            invariant
                i <= per_file@.len(),
                per_file@.len() <= u32::MAX,
                distinct_files(per_file@),
                forall|i: int, j: int|
                    0 <= i < per_file@.len() && 0 <= j < per_file@[i].calls@.len() ==> (
                    #[trigger] per_file@[i].calls@[j]).start_row < u32::MAX,
                rows_of(entries@) == all_rows(per_file@, i as int),
                files@.len() == i,
                forall|k: int|
                    0 <= k < i ==> are_refs_of((#[trigger] files@[k])@, per_file@[k].calls@),
                forall|k: int|
                    0 <= k < i ==> entry_at(
                        paths_held(by_path),
                        (#[trigger] per_file@[k]).rel@,
                    ) == Some(k as u32),
                forall|p: Seq<u8>| #[trigger]
                    paths_held(by_path).contains_key(p) ==> paths_held(by_path)[p] < i
                        && per_file@[paths_held(by_path)[p] as int].rel@ == p,
            decreases per_file.len() - i,
        {
            let file = &per_file[i];
            let mut refs: Vec<CallRef> = Vec::new();
            let mut j: usize = 0;
            let ghost base = rows_of(entries@);
            assert(base + file_rows(file.rel@, file.calls@, 0) =~= base);
            while j < file.calls.len()
                invariant
                    j <= file.calls@.len(),
                    forall|j: int|
                        0 <= j < file.calls@.len() ==> (#[trigger] file.calls@[j]).start_row
                            < u32::MAX,
                    rows_of(entries@) == base + file_rows(file.rel@, file.calls@, j as int),
                    refs@.len() == j,
                    forall|k: int| 0 <= k < j ==> is_ref_of(#[trigger] refs@[k], file.calls@[k]),
                decreases file.calls.len() - j,
            {
                let call = &file.calls[j];
                assert(file.calls@[j as int].start_row < u32::MAX);
                let ghost was = entries@;
                match call_by_callee(call.callee.as_str(), &file.rel, call.start_byte) {
                    Some(key) => {
                        entries.push(
                            InRamCall {
                                key,
                                callee: call.callee.clone(),
                                rel: file.rel.copy(),
                                start_byte: call.start_byte,
                                line: call.start_row + 1,
                                column: call.start_col,
                            },
                        );
                        assert(rows_of(entries@) =~= rows_of(was).push(
                            row_for(file.rel@, file.calls@[j as int]),
                        ));
                    },
                    None => {},
                }
                refs.push(
                    CallRef {
                        callee: call.callee.clone(),
                        start_byte: call.start_byte,
                        line: call.start_row + 1,
                        column: call.start_col,
                    },
                );
                j += 1;
                assert(rows_of(entries@) =~= base + file_rows(file.rel@, file.calls@, j as int));
            }
            let ghost old_paths = paths_held(by_path);
            paths_insert(&mut by_path, copy_bytes(file.rel.bytes.as_slice()), i as u32);
            files.push(refs);
            proof {
                assert forall|k: int| 0 <= k < i + 1 implies entry_at(
                    paths_held(by_path),
                    (#[trigger] per_file@[k]).rel@,
                ) == Some(k as u32) by {
                    if k < i {
                        assert(per_file@[k].rel@ != per_file@[i as int].rel@);
                        assert(entry_at(old_paths, per_file@[k].rel@) == Some(k as u32));
                    }
                }
            }
            i += 1;
        }
        let ghost unsorted = entries@;
        let entries = sort_by_key(entries);
        proof {
            lemma_map_multiset(entries@, unsorted, |e: InRamCall| e@);
        }
        let idx = InRamCallIndex { entries, by_path, files };
        proof {
            assert forall|i: int| 0 <= i < per_file@.len() implies are_refs_of(
                idx.calls_of((#[trigger] per_file@[i]).rel@),
                per_file@[i].calls@,
            ) by {
                assert(entry_at(paths_held(by_path), per_file@[i].rel@) == Some(i as u32));
                assert(are_refs_of(files@[i]@, per_file@[i].calls@));
            }
        }
        idx
    }

    /// The positions, in key order, of the call sites whose callee is exactly `name`.
    pub fn callers_of(&self, name: &str) -> (at: Vec<usize>)
        requires
            self.wf(),
        ensures
            forall|k: int|
                0 <= k < at@.len() ==> #[trigger] at@[k] < self.rows().len() && self.rows()[
                at@[k] as int].callee == name@,
            forall|k: int, l: int| 0 <= k < l < at@.len() ==> at@[k] < at@[l],
            forall|i: int|
                0 <= i < self.rows().len() && (#[trigger] self.rows()[i]).callee == name@
                    ==> at@.contains(i as usize),
    {
        let mut at: Vec<usize> = Vec::new();
        let mut i: usize = 0;
        while i < self.entries.len()
            invariant
                i <= self.entries@.len(),
                forall|k: int|
                    0 <= k < at@.len() ==> #[trigger] at@[k] < i && self.rows()[at@[k] as int].callee
                        == name@,
                forall|k: int, l: int| 0 <= k < l < at@.len() ==> at@[k] < at@[l],
                forall|j: int|
                    0 <= j < i && (#[trigger] self.rows()[j]).callee == name@ ==> at@.contains(
                        j as usize,
                    ),
            decreases self.entries.len() - i,
        {
            let ghost was = at@;
            if same_str(self.entries[i].callee.as_str(), name) {
                at.push(i);
                assert(at@[at@.len() - 1] == i);
                assert forall|j: int|
                    0 <= j < i + 1 && (#[trigger] self.rows()[j]).callee
                        == name@ implies at@.contains(j as usize) by {
                    if j < i {
                        let k = was.index_of(j as usize);
                        assert(at@[k] == j as usize);
                    }
                }
            }
            i += 1;
        }
        at
    }

    /// How many call sites the callee index holds.
    pub fn len(&self) -> (n: usize)
        ensures
            n == self.rows().len(),
    {
        self.entries.len()
    }

    /// The call site at position `i` of the callee index.
    pub fn entry(&self, i: usize) -> (e: &InRamCall)
        requires
            i < self.rows().len(),
        ensures
            e@ == self.rows()[i as int],
    {
        &self.entries[i]
    }

    /// All call sites of the file `rel`.
    pub fn calls_in_file(&self, rel: &RelPath) -> (calls: &[CallRef])
        requires
            self.wf(),
        ensures
            calls@ == self.calls_of(rel@),
    {
        match paths_get(&self.by_path, rel.bytes.as_slice()) {
            Some(i) => self.files[i as usize].as_slice(),
            None => {
                let none: &[CallRef] = &[];
                assert(none@ =~= Seq::empty());
                none
            },
        }
    }
}

/// The name scan over the in-memory index: the page of call sites whose callee holds `name`,
/// resumed strictly after `cursor_after`.
pub fn scan_calls_in_ram(
    index: &InRamCallIndex,
    name: &str,
    limit: usize,
    cursor_after: Option<&[u8]>,
) -> (page: CallScanPage)
    requires
        index.wf(),
    ensures
        is_scan_page(
            page,
            matching(index.rows(), name@, cursor_bytes(cursor_after)),
            limit as int,
        ),
{
    let from: usize = first_after(index.entries.as_slice(), cursor_after);
    let ghost cursor = cursor_bytes(cursor_after);
    let ghost rows = index.rows();
    let ghost tail = rows.skip(from as int);
    proof {
        assert forall|i: int| 0 <= i < from implies !past(cursor)(#[trigger] rows[i]) by {
            assert(!comes_after(cursor, index.entries@[i].sort_key()));
        }
        assert forall|i: int| from <= i < rows.len() implies past(cursor)(#[trigger] rows[i]) by {
            assert(comes_after(cursor, index.entries@[i].sort_key()));
        }
        lemma_filter_split(rows, from as int, past(cursor));
    }
    let mut scan = CallScan::start(name, limit);
    let mut i: usize = from;
    let mut more: bool = true;
    assert(scan.seen() =~= tail.take(0));
    while more && i < index.entries.len()
        invariant
            from <= i <= index.entries@.len(),
            index.wf(),
            rows == index.rows(),
            tail == rows.skip(from as int),
            scan.wf(),
            scan.wanted() == name@,
            scan.page_size() == limit,
            scan.seen() == tail.take(i - from),
            more == (scan.found().len() < scan_cap(limit as int)),
        decreases index.entries.len() - i,
    {
        proof {
            scan.seen().lemma_filter_len(named(name@));
        }
        more = scan.offer(name, &index.entries[i]);
        i += 1;
        assert(tail.take(i - from) =~= tail.take(i - 1 - from).push(tail[i - 1 - from]));
    }
    proof {
        let found = tail.filter(named(name@));
        lemma_filter_prefix(tail, i - from, named(name@));
        assert(scan.found() == found.take(scan.found().len() as int));
        if more {
            assert(tail.take(i - from) =~= tail);
        }
        assert(scan.found().len() >= scan_cap(limit as int) || scan.found() == found);
        assert forall|k: int| 0 <= k < scan.found().len() implies scan.found()[k] == found[k] by {
            assert(found.take(scan.found().len() as int)[k] == found[k]);
        }
    }
    scan.finish()
}

/// The page of no hits.
pub fn empty_call_page() -> (page: CallScanPage)
    ensures
        is_scan_page(page, Seq::empty(), 0),
        page.hits@.len() == 0,
        page.next_cursor is None,
{
    CallScanPage { total: 0, total_is_partial: false, hits: Vec::new(), next_cursor: None }
}

/// The name scan where there may be no index: without one nothing is found.
pub fn scan_calls(
    calls: Option<&InRamCallIndex>,
    name: &str,
    limit: usize,
    cursor_after: Option<&[u8]>,
) -> (page: CallScanPage)
    requires
        calls is Some ==> calls->0.wf(),
    ensures
        match calls {
            Some(index) => is_scan_page(
                page,
                matching(index.rows(), name@, cursor_bytes(cursor_after)),
                limit as int,
            ),
            None => is_scan_page(page, Seq::empty(), limit as int),
        },
{
    match calls {
        Some(index) => scan_calls_in_ram(index, name, limit, cursor_after),
        None => empty_call_page(),
    }
}

/// The keys of `rows` strictly ascend.
pub open spec fn keys_ascend(rows: Seq<CallRow>) -> bool {
    forall|i: int, j: int|
        0 <= i < j < rows.len() ==> lex_less((#[trigger] rows[i]).key, (#[trigger] rows[j]).key)
}

proof fn lemma_tail_after(s: Seq<CallRow>, p: spec_fn(CallRow) -> bool, k: int)
    requires
        keys_ascend(s),
        0 <= k < s.filter(p).len(),
    ensures
        s.filter(|r: CallRow| p(r) && lex_less(s.filter(p)[k].key, r.key)) == s.filter(p).skip(
            k + 1,
        ),
    decreases s.len(),
{
    reveal(Seq::filter);
    let f = s.filter(p);
    let q = |r: CallRow| p(r) && lex_less(f[k].key, r.key);
    if s.len() > 0 {
        let front = s.drop_last();
        let x = s.last();
        let ff = front.filter(p);
        assert(keys_ascend(front)) by {
            assert forall|i: int, j: int| 0 <= i < j < front.len() implies lex_less(
                (#[trigger] front[i]).key,
                (#[trigger] front[j]).key,
            ) by {
                assert(front[i] == s[i] && front[j] == s[j]);
            }
        }
        if k < ff.len() {
            assert(f[k] == ff[k]);
            lemma_tail_after(front, p, k);
            let q0 = |r: CallRow| p(r) && lex_less(ff[k].key, r.key);
            lemma_filter_agree(front, q, q0);
            crate::seqs::lemma_filter_member(front, p, k);
            let at = front.index_of(ff[k]);
            assert(front[at] == s[at]);
            assert(lex_less(s[at].key, s[s.len() - 1].key));
            if p(x) {
                assert(f.skip(k + 1) =~= ff.skip(k + 1).push(x));
            }
        } else {
            assert(f[k] == x);
            assert forall|i: int| 0 <= i < front.len() implies !q(#[trigger] front[i]) by {
                assert(front[i] == s[i]);
                assert(lex_less(s[i].key, s[s.len() - 1].key));
                if lex_less(x.key, s[i].key) {
                    lemma_lex_transitive(x.key, s[i].key, x.key);
                    lemma_lex_irreflexive(x.key);
                }
            }
            lemma_filter_none(front, q);
            lemma_lex_irreflexive(x.key);
            assert(s.filter(q) =~= f.skip(k + 1));
        }
    }
}

/// Paging neither skips nor repeats: after a page that does not hold everything, the matching call
/// sites from its cursor on are exactly those that the page left out.
pub proof fn law_pages_chain(
    rows: Seq<CallRow>,
    name: Seq<char>,
    cursor: Option<Seq<u8>>,
    limit: int,
)
    requires
        keys_ascend(rows),
        0 < limit < matching(rows, name, cursor).len(),
    ensures
        matching(rows, name, Some(matching(rows, name, cursor)[limit - 1].key)) == matching(
            rows,
            name,
            cursor,
        ).skip(limit),
{
    let found = matching(rows, name, cursor);
    let last = found[limit - 1];
    let both = |r: CallRow| past(cursor)(r) && named(name)(r);
    lemma_filter_twice(rows, past(cursor), named(name));
    assert(found == rows.filter(both));
    lemma_tail_after(rows, both, limit - 1);
    lemma_filter_twice(rows, past(Some(last.key)), named(name));
    let next = |r: CallRow| past(Some(last.key))(r) && named(name)(r);
    let tail = |r: CallRow| both(r) && lex_less(rows.filter(both)[limit - 1].key, r.key);
    crate::seqs::lemma_filter_member(rows, both, limit - 1);
    assert forall|i: int| 0 <= i < rows.len() implies next(#[trigger] rows[i]) == tail(rows[i]) by {
        if cursor is Some && lex_less(last.key, rows[i].key) {
            lemma_lex_transitive(cursor->0, last.key, rows[i].key);
        }
    }
    lemma_filter_agree(rows, next, tail);
}

} // verus!
