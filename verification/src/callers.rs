//! The resolved refinement of a name scan: which call sites are proven to bind to a definition,
//! and how that is folded into the page of hits.
use vstd::prelude::*;
use vstd::utf8::encode_utf8;

use crate::budget::{is_kept_count, kept_count};
use crate::calls::{
    callee_holds, cursor_text, least, past, row_of, scan_cap, scan_cap_of, CallRef, CallRow,
    CallScanPage, InRamCallIndex, ReferenceHit, ScanHit,
};
use crate::cursor::{base64, Cursor};
use crate::keys::{be4, call_by_callee, call_key, callee_fits};
use crate::model::{RelPath, Symbol};
use crate::resolution::{ExportEdge, ResolvedEdge};
use crate::seek::bytes_hold;
use crate::seqs::lemma_map_multiset;
use crate::sort::{comes_after, cursor_bytes, runs, sort_by_key, strictly_ascends, Keyed};
use crate::tables::SiteTable;
use crate::text::{bytes_less, copy_bytes, lemma_lex_total, lex_less, same_bytes};

verus! {

// ─── Definition candidates ───────────────────────────────────────────────────

/// Whether a byte can stand in an identifier: an ASCII letter or digit, `_`, `$`, or any byte of a
/// character beyond ASCII.
pub open spec fn is_ident_byte(b: u8) -> bool {
    (48 <= b <= 57) || (65 <= b <= 90) || (97 <= b <= 122) || b == 95 || b == 36 || b >= 128
}

/// The end of the run of identifier bytes that starts at `at`.
pub open spec fn ident_end(source: Seq<u8>, at: int) -> int
    decreases source.len() - at,
{
    if 0 <= at < source.len() && is_ident_byte(source[at]) {
        ident_end(source, at + 1)
    } else {
        at
    }
}

/// The identifier that starts at byte `at`; empty past the end of the source.
pub open spec fn identifier(source: Seq<u8>, at: int) -> Seq<u8> {
    if at >= source.len() {
        Seq::empty()
    } else {
        source.subrange(at, ident_end(source, at))
    }
}

/// The identifier that starts at byte `at`; empty past the end of the source.
pub fn identifier_at(source: &[u8], at: u32) -> (ident: &[u8])
    ensures
        ident@ == identifier(source@, at as int),
{
    let from: usize = at as usize;
    if from >= source.len() {
        let none: &[u8] = &[];
        assert(none@ =~= Seq::empty());
        return none;
    }
    let mut end: usize = from;
    while end < source.len() && ((48 <= source[end] && source[end] <= 57) || (65 <= source[end]
        && source[end] <= 90) || (97 <= source[end] && source[end] <= 122) || source[end] == 95
        || source[end] == 36 || source[end] >= 128)
        invariant
            from <= end <= source@.len(),
            ident_end(source@, from as int) == ident_end(source@, end as int),
        decreases source.len() - end,
    {
        end += 1;
    }
    vstd::slice::slice_subrange(source, from, end)
}

/// The bytes at which facts of a file place definitions: the definition ends of its resolved
/// edges, then the names it exports.
pub open spec fn placed(intra: Seq<ResolvedEdge>, exports: Seq<ExportEdge>) -> Seq<u32> {
    intra.map_values(|e: ResolvedEdge| e.def_start) + exports.map_values(
        |e: ExportEdge| e.name_start,
    )
}

/// Whether byte `b` is the identifier of the definition `symbol`: it lies in the definition's
/// span, and the identifier there is the symbol's name.
pub open spec fn names_symbol(b: u32, symbol: Symbol, source: Seq<u8>) -> bool {
    symbol.start_byte <= b < symbol.end_byte && identifier(source, b as int) == encode_utf8(
        symbol.name@,
    )
}

/// The first occurrences of the bytes of `s` that name the symbol.
pub open spec fn candidates(s: Seq<u32>, symbol: Symbol, source: Seq<u8>) -> Seq<u32>
    decreases s.len(),
{
    if s.len() == 0 {
        Seq::empty()
    } else {
        let front = candidates(s.drop_last(), symbol, source);
        if names_symbol(s.last(), symbol, source) && !front.contains(s.last()) {
            front.push(s.last())
        } else {
            front
        }
    }
}

fn holds_start(list: &Vec<u32>, b: u32) -> (yes: bool)
    ensures
        yes == list@.contains(b),
{
    let mut i: usize = 0;
    while i < list.len()
        invariant
            i <= list@.len(),
            forall|k: int| 0 <= k < i ==> list@[k] != b,
        decreases list.len() - i,
    {
        if list[i] == b {
            return true;
        }
        i += 1;
    }
    false
}

fn add_candidate(starts: &mut Vec<u32>, b: u32, symbol: &Symbol, source: &[u8])
    ensures
        final(starts)@ == (if names_symbol(b, *symbol, source@) && !old(starts)@.contains(b) {
            old(starts)@.push(b)
        } else {
            old(starts)@
        }),
{
    if b >= symbol.start_byte && b < symbol.end_byte && same_bytes(
        identifier_at(source, b),
        symbol.name.as_str().as_bytes(),
    ) && !holds_start(starts, b) {
        starts.push(b);
    }
}

/// The identifier bytes of the definition `symbol`, recovered from the file's own facts. A
/// symbol's span starts at its definition node, while facts speak of its identifier.
pub fn definition_starts(
    symbol: &Symbol,
    intra: &[ResolvedEdge],
    exports: &[ExportEdge],
    source: &[u8],
) -> (starts: Vec<u32>)
    ensures
        starts@ == candidates(placed(intra@, exports@), *symbol, source@),
{
    let ghost all = placed(intra@, exports@);
    let mut starts: Vec<u32> = Vec::new();
    let mut i: usize = 0;
    assert(starts@ =~= candidates(all.take(0), *symbol, source@));
    while i < intra.len()
        invariant
            i <= intra@.len(),
            all == placed(intra@, exports@),
            starts@ == candidates(all.take(i as int), *symbol, source@),
        decreases intra.len() - i,
    {
        add_candidate(&mut starts, intra[i].def_start, symbol, source);
        i += 1;
        assert(all.take(i as int).drop_last() =~= all.take(i - 1));
    }
    let mut j: usize = 0;
    while j < exports.len()
        invariant
            j <= exports@.len(),
            all == placed(intra@, exports@),
            starts@ == candidates(all.take(intra@.len() + j), *symbol, source@),
        decreases exports.len() - j,
    {
        add_candidate(&mut starts, exports[j].name_start, symbol, source);
        j += 1;
        assert(all.take(intra@.len() + j).drop_last() =~= all.take(intra@.len() + j - 1));
    }
    assert(all.take(intra@.len() + j) =~= all);
    starts
}

// ─── Proven call sites ───────────────────────────────────────────────────────

/// A use of a definition: the file and the start byte.
#[derive(Debug)]
pub struct UseSite {
    pub path: RelPath,
    pub start: u32,
}

/// A use of a definition: the bytes of the file's path, and the start byte.
pub struct UseAt {
    pub path: Seq<u8>,
    pub start: u32,
}

impl View for UseSite {
    type V = UseAt;

    open spec fn view(&self) -> UseAt {
        UseAt { path: self.path@, start: self.start }
    }
}

/// The positions of a list of uses.
pub open spec fn uses_at(uses: Seq<UseSite>) -> Seq<UseAt> {
    uses.map_values(|u: UseSite| u@)
}

/// The byte string that orders uses by path and, within a path, by position.
pub open spec fn use_key(u: UseAt) -> Seq<u8> {
    u.path.push(0) + be4(u.start)
}

struct UseRow {
    path: RelPath,
    start: u32,
    key: Vec<u8>,
}

impl UseRow {
    spec fn at(&self) -> UseAt {
        UseAt { path: self.path@, start: self.start }
    }
}

impl Keyed for UseRow {
    closed spec fn sort_key(&self) -> Seq<u8> {
        self.key@
    }

    fn key_bytes(&self) -> (k: &[u8]) {
        self.key.as_slice()
    }
}

fn use_key_of(path: &RelPath, start: u32) -> (k: Vec<u8>)
    ensures
        k@ == use_key(UseAt { path: path@, start }),
{
    let mut k: Vec<u8> = copy_bytes(path.bytes.as_slice());
    k.push(0);
    k.push((start / 16777216) as u8);
    k.push(((start / 65536) % 256) as u8);
    k.push(((start / 256) % 256) as u8);
    k.push((start % 256) as u8);
    assert(k@ =~= use_key(UseAt { path: path@, start }));
    k
}

proof fn lemma_use_key_injective(a: UseAt, b: UseAt)
    requires
        use_key(a) == use_key(b),
    ensures
        a == b,
{
    let k = use_key(a);
    let n = k.len() as int;
    assert(a.path =~= k.take(n - 5));
    assert(b.path =~= k.take(n - 5));
    assert(k[n - 4] == be4(a.start)[0] && k[n - 4] == be4(b.start)[0]);
    assert(k[n - 3] == be4(a.start)[1] && k[n - 3] == be4(b.start)[1]);
    assert(k[n - 2] == be4(a.start)[2] && k[n - 2] == be4(b.start)[2]);
    assert(k[n - 1] == be4(a.start)[3] && k[n - 1] == be4(b.start)[3]);
}

/// `order` lists the members of `uses`, each once, in ascending order.
pub open spec fn is_use_order(order: Seq<UseAt>, uses: Seq<UseAt>) -> bool {
    &&& forall|i: int, j: int|
        0 <= i < j < order.len() ==> lex_less(
            use_key(#[trigger] order[i]),
            use_key(#[trigger] order[j]),
        )
    &&& forall|u: UseAt| #[trigger] order.contains(u) <==> uses.contains(u)
}

/// How many files the first `n` uses of an order lie in.
pub open spec fn files_upto(order: Seq<UseAt>, n: int) -> int
    decreases n,
{
    if n <= 0 {
        0
    } else if n == 1 || order[n - 1].path != order[n - 2].path {
        files_upto(order, n - 1) + 1
    } else {
        files_upto(order, n - 1)
    }
}

/// The last of the first `n` calls that starts at `start`.
pub open spec fn call_at(calls: Seq<CallRef>, start: u32, n: int) -> Option<CallRef>
    decreases n,
{
    if n <= 0 {
        None
    } else if calls[n - 1].start_byte == start {
        Some(calls[n - 1])
    } else {
        call_at(calls, start, n - 1)
    }
}

/// The call site that a use coincides with, if it is one.
pub open spec fn site_at(index: InRamCallIndex, u: UseAt) -> Option<CallRef> {
    let calls = index.calls_of(u.path);
    call_at(calls, u.start, calls.len() as int)
}

/// Whether the `i`-th use is a proven call site: its file is among those looked into, and a call
/// stands there.
pub open spec fn is_proven(order: Seq<UseAt>, index: InRamCallIndex, cap: int, i: int) -> bool {
    files_upto(order, i + 1) <= cap && site_at(index, order[i]) is Some
}

/// The proven ones among the first `n` uses.
pub open spec fn proven_upto(order: Seq<UseAt>, index: InRamCallIndex, cap: int, n: int) -> Seq<UseAt>
    decreases n,
{
    if n <= 0 {
        Seq::empty()
    } else if is_proven(order, index, cap, n - 1) {
        proven_upto(order, index, cap, n - 1).push(order[n - 1])
    } else {
        proven_upto(order, index, cap, n - 1)
    }
}

/// Whether a proven use is a call site that the name scan cannot see, because its callee does not
/// hold the name, and that the index has a key for.
pub open spec fn is_alias(index: InRamCallIndex, u: UseAt, name: Seq<char>) -> bool {
    let site = site_at(index, u)->0;
    !callee_holds(site.callee@, name) && callee_fits(site.callee@)
}

/// The row under which a renamed call site is reported.
pub open spec fn alias_row(index: InRamCallIndex, u: UseAt) -> CallRow {
    let site = site_at(index, u)->0;
    CallRow {
        key: call_key(site.callee@, u.path, u.start),
        callee: site.callee@,
        rel: u.path,
        start: u.start,
        line: site.line,
        column: site.column,
    }
}

/// The renamed call sites among `proven`.
pub open spec fn alias_rows(proven: Seq<UseAt>, index: InRamCallIndex, name: Seq<char>) -> Seq<
    CallRow,
>
    decreases proven.len(),
{
    if proven.len() == 0 {
        Seq::empty()
    } else if is_alias(index, proven.last(), name) {
        alias_rows(proven.drop_last(), index, name).push(alias_row(index, proven.last()))
    } else {
        alias_rows(proven.drop_last(), index, name)
    }
}

/// The call sites that resolution proves to bind to one definition.
pub struct ResolvedCallers {
    /// The proven positions.
    pub sites: SiteTable,
    /// Proven call sites that the name scan cannot see, because the binding was renamed.
    pub aliased: Vec<ScanHit>,
    /// How many call sites are proven.
    pub total: u32,
}

/// `r` says what resolution proves of the uses in `order`.
pub open spec fn is_refinement(
    r: ResolvedCallers,
    order: Seq<UseAt>,
    index: InRamCallIndex,
    name: Seq<char>,
    limit: int,
) -> bool {
    let proven = proven_upto(order, index, scan_cap(limit), order.len() as int);
    &&& r.sites.wf()
    &&& r.total == proven.len()
    &&& forall|p: Seq<u8>, s: u32| #[trigger]
        r.sites.holds(p, s) <==> proven.contains(UseAt { path: p, start: s })
    &&& r.aliased@.map_values(|h: ScanHit| row_of(h)) == alias_rows(proven, index, name)
    &&& forall|i: int|
        0 <= i < r.aliased@.len() ==> (#[trigger] r.aliased@[i]).hit.resolved == Some(true)
}

fn last_call_at(calls: &[CallRef], start: u32) -> (at: Option<usize>)
    ensures
        match at {
            Some(j) => j < calls@.len() && call_at(calls@, start, calls@.len() as int) == Some(
                calls@[j as int],
            ),
            None => call_at(calls@, start, calls@.len() as int) is None,
        },
{
    let mut n: usize = calls.len();
    while n > 0
        invariant
            n <= calls@.len(),
            call_at(calls@, start, calls@.len() as int) == call_at(calls@, start, n as int),
        decreases n,
    {
        if calls[n - 1].start_byte == start {
            return Some(n - 1);
        }
        n -= 1;
    }
    None
}

/// The uses of a list of rows.
spec fn rows_at(rows: Seq<UseRow>) -> Seq<UseAt> {
    rows.map_values(|r: UseRow| r.at())
}

/// Every row carries its own key.
spec fn keyed_rows(rows: Seq<UseRow>) -> bool {
    forall|k: int| 0 <= k < rows.len() ==> (#[trigger] rows[k]).key@ == use_key(rows[k].at())
}

proof fn lemma_push_set<T>(s: Seq<T>, x: T)
    ensures
        s.push(x).to_set() == s.to_set().insert(x),
{
    assert forall|y: T| s.push(x).to_set().contains(y) == s.to_set().insert(x).contains(y) by {
        if s.contains(y) {
            assert(s.push(x)[s.index_of(y)] == y);
        }
        if y == x {
            assert(s.push(x)[s.len() as int] == y);
        }
        if s.push(x).contains(y) && y != x {
            assert(s[s.push(x).index_of(y)] == y);
        }
    }
    assert(s.push(x).to_set() =~= s.to_set().insert(x));
}

/// The rows of `uses`, sorted; equal uses are neighbours.
fn sort_uses(uses: &[UseSite]) -> (sorted: Vec<UseRow>)
    ensures
        runs(sorted@, true),
        keyed_rows(sorted@),
        sorted@.len() == uses@.len(),
        rows_at(sorted@).to_set() == uses_at(uses@).to_set(),
{
    let mut rows: Vec<UseRow> = Vec::new();
    let mut i: usize = 0;
    while i < uses.len()
        invariant
            i <= uses@.len(),
            keyed_rows(rows@),
            rows@.len() == i,
            rows_at(rows@) == uses_at(uses@).take(i as int),
        decreases uses.len() - i,
    {
        let ghost was = rows@;
        rows.push(
            UseRow {
                path: uses[i].path.copy(),
                start: uses[i].start,
                key: use_key_of(&uses[i].path, uses[i].start),
            },
        );
        i += 1;
        assert(rows_at(rows@) =~= rows_at(was).push(uses@[i - 1]@));
        assert(rows_at(rows@) =~= uses_at(uses@).take(i as int));
    }
    let ghost unsorted = rows@;
    assert(rows_at(unsorted) =~= uses_at(uses@));
    let sorted = sort_by_key(rows);
    proof {
        assert forall|k: int| 0 <= k < sorted@.len() implies (#[trigger] sorted@[k]).key@ == use_key(
            sorted@[k].at(),
        ) by {
            assert(sorted@.contains(sorted@[k]));
            assert(unsorted.contains(sorted@[k]));
        }
        assert forall|u: UseAt| rows_at(sorted@).contains(u) == rows_at(unsorted).contains(u) by {
            if rows_at(sorted@).contains(u) {
                let x = sorted@[rows_at(sorted@).index_of(u)];
                assert(sorted@.contains(x));
                assert(rows_at(unsorted)[unsorted.index_of(x)] == u);
            }
            if rows_at(unsorted).contains(u) {
                let x = unsorted[rows_at(unsorted).index_of(u)];
                assert(unsorted.contains(x));
                assert(sorted@.contains(x));
                assert(rows_at(sorted@)[sorted@.index_of(x)] == u);
            }
        }
        assert(rows_at(sorted@).to_set() =~= uses_at(uses@).to_set());
    }
    sorted
}

/// The distinct uses of `uses` in ascending order.
fn order_uses(uses: &[UseSite]) -> (rows: Vec<UseRow>)
    ensures
        is_use_order(rows_at(rows@), uses_at(uses@)),
        rows@.len() <= uses@.len(),
{
    let sorted = sort_uses(uses);
    let ghost whole = sorted@;
    let mut out: Vec<UseRow> = Vec::new();
    let mut j: usize = 0;
    assert(rows_at(out@).to_set() =~= rows_at(whole).take(0).to_set());
    while j < sorted.len()
        invariant
            j <= sorted@.len(),
            sorted@ == whole,
            runs(whole, true),
            keyed_rows(whole),
            keyed_rows(out@),
            out@.len() <= j,
            j > 0 ==> out@.len() > 0 && out@.last().key@ == whole[j - 1].key@,
            strictly_ascends(out@),
            rows_at(out@).to_set() == rows_at(whole).take(j as int).to_set(),
        decreases sorted.len() - j,
    {
        let fresh: bool = if out.len() == 0 {
            true
        } else {
            !same_bytes(out[out.len() - 1].key.as_slice(), sorted[j].key.as_slice())
        };
        let ghost was = out@;
        let ghost next = whole[j as int];
        proof {
            assert(rows_at(whole).take(j + 1) =~= rows_at(whole).take(j as int).push(next.at()));
            lemma_push_set(rows_at(whole).take(j as int), next.at());
        }
        if fresh {
            out.push(
                UseRow {
                    path: sorted[j].path.copy(),
                    start: sorted[j].start,
                    key: copy_bytes(sorted[j].key.as_slice()),
                },
            );
            proof {
                assert(rows_at(out@) =~= rows_at(was).push(next.at()));
                lemma_push_set(rows_at(was), next.at());
                lemma_ascend_push(was, out@.last(), whole, j as int);
                assert(out@ =~= was.push(out@.last()));
            }
        } else {
            proof {
                lemma_use_key_injective(was.last().at(), next.at());
                assert(rows_at(was)[was.len() - 1] == next.at());
                assert(rows_at(was).to_set().contains(next.at()));
                assert(rows_at(was).to_set().insert(next.at()) =~= rows_at(was).to_set());
            }
        }
        j += 1;
    }
    proof {
        assert(rows_at(whole).take(j as int) =~= rows_at(whole));
        let order = rows_at(out@);
        assert forall|u: UseAt| #[trigger] order.contains(u) <==> uses_at(uses@).contains(u) by {
            assert(order.contains(u) == order.to_set().contains(u));
            assert(uses_at(uses@).contains(u) == uses_at(uses@).to_set().contains(u));
        }
        assert forall|a: int, b: int| 0 <= a < b < order.len() implies lex_less(
            use_key(#[trigger] order[a]),
            use_key(#[trigger] order[b]),
        ) by {
            assert(out@[a].key@ == use_key(order[a]));
            assert(out@[b].key@ == use_key(order[b]));
            assert(lex_less(out@[a].sort_key(), out@[b].sort_key()));
        }
    }
    out
}

proof fn lemma_ascend_push(was: Seq<UseRow>, x: UseRow, whole: Seq<UseRow>, j: int)
    requires
        strictly_ascends(was),
        runs(whole, true),
        0 <= j < whole.len(),
        x.key@ == whole[j].key@,
        was.len() > 0 ==> j > 0 && was.last().key@ == whole[j - 1].key@ && was.last().key@
            != x.key@,
    ensures
        strictly_ascends(was.push(x)),
{
    if was.len() > 0 {
        assert(crate::sort::may_precede(whole[j - 1].sort_key(), whole[j].sort_key(), true));
        lemma_lex_total(was.last().key@, x.key@);
    }
    let out = was.push(x);
    assert forall|a: int, b: int| 0 <= a < b < out.len() implies lex_less(
        (#[trigger] out[a]).sort_key(),
        (#[trigger] out[b]).sort_key(),
    ) by {
        assert(out[a] == was[a]);
        if b < was.len() {
            assert(out[b] == was[b]);
        } else if a < was.len() - 1 {
            assert(lex_less(was[a].sort_key(), was[was.len() - 1].sort_key()));
            crate::text::lemma_lex_transitive(was[a].key@, was.last().key@, x.key@);
        }
    }
}

proof fn lemma_files_monotone(order: Seq<UseAt>, m: int, n: int)
    requires
        0 <= m <= n <= order.len(),
    ensures
        files_upto(order, m) <= files_upto(order, n),
        files_upto(order, n) <= n,
        m > 0 ==> files_upto(order, m) >= 1,
    decreases n,
{
    if n > 0 {
        if m < n {
            lemma_files_monotone(order, m, n - 1);
        } else {
            lemma_files_monotone(order, m - 1, n - 1);
        }
    }
}

proof fn lemma_no_more_proven(order: Seq<UseAt>, index: InRamCallIndex, cap: int, m: int, n: int)
    requires
        0 <= m <= n <= order.len(),
        m < n ==> files_upto(order, m + 1) > cap,
    ensures
        proven_upto(order, index, cap, n) == proven_upto(order, index, cap, m),
    decreases n,
{
    if m < n {
        lemma_files_monotone(order, m + 1, n);
        lemma_no_more_proven(order, index, cap, m, n - 1);
    }
}

/// What resolution proves of the call sites of `index`, given every use of the definition that it
/// knows. Uses that are not calls are dropped, and at most as many files as a scan's cap are
/// looked into. `None` when nothing is proven.
pub fn resolved_callers(
    uses: &[UseSite],
    index: &InRamCallIndex,
    name: &str,
    limit: usize,
) -> (r: Option<ResolvedCallers>)
    requires
        index.wf(),
        uses@.len() < u32::MAX,
    ensures
        exists|order: Seq<UseAt>| #[trigger]
            is_use_order(order, uses_at(uses@)) && match r {
                Some(found) => is_refinement(found, order, *index, name@, limit as int)
                    && found.total > 0,
                None => proven_upto(
                    order,
                    *index,
                    scan_cap(limit as int),
                    order.len() as int,
                ).len() == 0,
            },
{
    let rows = order_uses(uses);
    let ghost order = rows_at(rows@);
    let cap: usize = scan_cap_of(limit);
    let mut sites = SiteTable::new();
    let mut aliased: Vec<ScanHit> = Vec::new();
    let mut total: u32 = 0;
    let mut probed: usize = 0;
    let mut i: usize = 0;
    let ghost mut proven: Seq<UseAt> = Seq::empty();
    let mut open: bool = true;
    assert(aliased@.map_values(|h: ScanHit| row_of(h)) =~= alias_rows(proven, *index, name@));
    while open && i < rows.len()
        invariant
            i <= rows@.len(),
            rows@.len() < u32::MAX,
            order == rows_at(rows@),
            index.wf(),
            cap == scan_cap(limit as int),
            cap >= 1,
            sites.wf(),
            sites.file_count() <= i,
            total == proven.len(),
            total <= i,
            proven == proven_upto(order, *index, cap as int, i as int),
            probed == files_upto(order, i as int),
            probed <= cap,
            i > 0 ==> probed >= 1,
            forall|p: Seq<u8>, s: u32| #[trigger]
                sites.holds(p, s) <==> proven.contains(UseAt { path: p, start: s }),
            aliased@.map_values(|h: ScanHit| row_of(h)) == alias_rows(proven, *index, name@),
            forall|k: int|
                0 <= k < aliased@.len() ==> (#[trigger] aliased@[k]).hit.resolved == Some(true),
            !open ==> i < rows@.len() && files_upto(order, i + 1) > cap,
        decreases rows.len() - i + (if open { 1int } else { 0 }),
    {
        let row = &rows[i];
        assert(order[i as int] == row.at());
        let new_file: bool = i == 0 || !rows[i - 1].path.same(&row.path);
        assert(i > 0 ==> order[i - 1] == rows@[i - 1].at());
        proof {
            lemma_files_monotone(order, i as int, i + 1);
        }
        if new_file && probed >= cap {
            open = false;
        } else {
            if new_file {
                probed += 1;
            }
            let calls = index.calls_in_file(&row.path);
            match last_call_at(calls, row.start) {
                Some(j) => {
                    let site = &calls[j];
                    let ghost was = proven;
                    let ghost old_sites = sites;
                    proof {
                        proven = proven.push(order[i as int]);
                        assert(proven.drop_last() =~= was);
                    }
                    total += 1;
                    sites.add(row.path.bytes.as_slice(), row.start);
                    proof {
                        assert forall|p: Seq<u8>, s: u32| #[trigger]
                            sites.holds(p, s) <==> proven.contains(UseAt { path: p, start: s }) by {
                            let u = UseAt { path: p, start: s };
                            if was.contains(u) {
                                assert(proven[was.index_of(u)] == u);
                            }
                            if u == order[i as int] {
                                assert(proven[proven.len() - 1] == u);
                            }
                            if proven.contains(u) {
                                let k = proven.index_of(u);
                                if k < was.len() {
                                    assert(was[k] == u);
                                }
                            }
                            assert(old_sites.holds(p, s) <==> was.contains(u));
                        }
                    }
                    if !bytes_hold(site.callee.as_str().as_bytes(), name.as_bytes()) {
                        match call_by_callee(site.callee.as_str(), &row.path, row.start) {
                            Some(key) => {
                                let ghost before = aliased@;
                                aliased.push(
                                    ScanHit {
                                        key,
                                        start: row.start,
                                        hit: ReferenceHit {
                                            path: row.path.copy(),
                                            line: site.line,
                                            column: site.column,
                                            callee: site.callee.clone(),
                                            resolved: Some(true),
                                        },
                                    },
                                );
                                assert(aliased@.map_values(|h: ScanHit| row_of(h))
                                    =~= before.map_values(|h: ScanHit| row_of(h)).push(
                                    alias_row(*index, order[i as int]),
                                ));
                            },
                            None => {},
                        }
                    }
                },
                None => {},
            }
            i += 1;
        }
    }
    proof {
        lemma_no_more_proven(order, *index, cap as int, i as int, order.len() as int);
    }
    let r = if total == 0 {
        None
    } else {
        Some(ResolvedCallers { sites, aliased, total })
    };
    assert(is_use_order(order, uses_at(uses@)));
    r
}

// ─── Folding the refinement into a page ──────────────────────────────────────

/// What a hit says: its call site, and whether resolution proved it.
pub open spec fn said(h: ScanHit) -> (CallRow, Option<bool>) {
    (row_of(h), h.hit.resolved)
}

/// What a list of hits says.
pub open spec fn said_by(hits: Seq<ScanHit>) -> Seq<(CallRow, Option<bool>)> {
    hits.map_values(|h: ScanHit| said(h))
}

/// What the hits say once each is marked as proven or not.
pub open spec fn annotated(hits: Seq<ScanHit>, sites: SiteTable) -> Seq<(CallRow, Option<bool>)> {
    hits.map_values(
        |h: ScanHit| (row_of(h), Some(sites.holds(h.hit.path@, h.start))),
    )
}

/// The condition that what a hit says comes after `cursor`.
pub open spec fn later(cursor: Option<Seq<u8>>) -> spec_fn((CallRow, Option<bool>)) -> bool {
    |x: (CallRow, Option<bool>)| comes_after(cursor, x.0.key)
}

/// The renamed call sites that come after `cursor`, so that no earlier page has reported them.
pub open spec fn fresh_aliases(aliased: Seq<ScanHit>, cursor: Option<Seq<u8>>) -> Seq<
    (CallRow, Option<bool>),
> {
    said_by(aliased).filter(later(cursor))
}

/// The keys of what a list of hits says ascend.
pub open spec fn said_ascends(s: Seq<(CallRow, Option<bool>)>) -> bool {
    forall|i: int, j: int|
        0 <= i < j < s.len() ==> !lex_less((#[trigger] s[j]).0.key, (#[trigger] s[i]).0.key)
}

/// The key of the last hit as a cursor, when there is one and `more` is set.
pub open spec fn last_cursor(hits: Seq<(CallRow, Option<bool>)>, more: bool) -> Option<Seq<char>> {
    if more && hits.len() > 0 {
        Some(base64(hits.last().0.key))
    } else {
        None
    }
}

/// `out` is the page of `full`: up to `limit` leading hits, and a cursor at the last one when hits
/// are left over or the name scan itself had more.
pub open spec fn is_merge_of(
    out: CallScanPage,
    full: Seq<(CallRow, Option<bool>)>,
    limit: int,
    scan_had_more: bool,
) -> bool {
    let page = full.take(least(full.len() as int, limit));
    &&& said_by(out.hits@) == page
    &&& cursor_text(out.next_cursor) == last_cursor(page, full.len() > limit || scan_had_more)
}

/// `full` merges `a` and `b` in key order.
pub open spec fn merges(
    full: Seq<(CallRow, Option<bool>)>,
    a: Seq<(CallRow, Option<bool>)>,
    b: Seq<(CallRow, Option<bool>)>,
) -> bool {
    said_ascends(full) && full.to_multiset() == (a + b).to_multiset()
}

/// Mark each hit as proven or not.
fn annotate(hits: &mut Vec<ScanHit>, sites: &SiteTable)
    requires
        sites.wf(),
    ensures
        said_by(final(hits)@) == annotated(old(hits)@, *sites),
{
    let ghost before = hits@;
    let mut i: usize = 0;
    while i < hits.len()
        invariant
            i <= hits@.len(),
            sites.wf(),
            hits@.len() == before.len(),
            forall|k: int|
                0 <= k < i ==> row_of(#[trigger] hits@[k]) == row_of(before[k])
                    && hits@[k].hit.resolved == Some(
                    sites.holds(before[k].hit.path@, before[k].start),
                ),
            forall|k: int| i <= k < before.len() ==> #[trigger] hits@[k] == before[k],
        decreases hits.len() - i,
    {
        let proven: bool = sites.has(hits[i].hit.path.bytes.as_slice(), hits[i].start);
        hits[i].hit.resolved = Some(proven);
        i += 1;
    }
    assert(said_by(hits@) =~= annotated(before, *sites));
}

/// `out` is the page of the scan with the hits marked that are proven, and the renamed call sites
/// that the scan cannot see merged in.
pub open spec fn is_merged_page(
    out: CallScanPage,
    page: CallScanPage,
    resolved: Option<ResolvedCallers>,
    limit: int,
    cursor: Option<Seq<u8>>,
) -> bool {
    &&& out.total_is_partial == page.total_is_partial
    &&& match resolved {
        None => out == page,
        Some(r) => if r.aliased@.len() == 0 {
            &&& out.total == page.total
            &&& out.next_cursor == page.next_cursor
            &&& said_by(out.hits@) == annotated(page.hits@, r.sites)
        } else {
            &&& out.total == least(page.total + r.aliased@.len(), u32::MAX as int)
            &&& exists|full: Seq<(CallRow, Option<bool>)>| #[trigger]
                merges(
                    full,
                    annotated(page.hits@, r.sites),
                    fresh_aliases(r.aliased@, cursor),
                ) && is_merge_of(out, full, limit, page.next_cursor is Some)
        },
    }
}

/// Fold the resolved refinement into a name-scan page: mark each hit as proven or not, and merge
/// in the renamed call sites that the scan cannot see, in key order. Hits are added, never
/// dropped: what does not fit the page comes on the next one.
pub fn merge_resolved(
    page: CallScanPage,
    resolved: Option<ResolvedCallers>,
    limit: usize,
    cursor_after: Option<&[u8]>,
) -> (out: CallScanPage)
    requires
        resolved is Some ==> resolved->0.sites.wf(),
    ensures
        is_merged_page(out, page, resolved, limit as int, cursor_bytes(cursor_after)),
{
    let resolved = match resolved {
        Some(r) => r,
        None => {
            return page;
        },
    };
    let CallScanPage { total, total_is_partial, hits, next_cursor } = page;
    let mut hits = hits;
    let ghost scan_hits = hits@;
    annotate(&mut hits, &resolved.sites);
    if resolved.aliased.len() == 0 {
        return CallScanPage { total, total_is_partial, hits, next_cursor };
    }
    let extra: usize = resolved.aliased.len();
    let total: u32 = if extra > (u32::MAX - total) as usize {
        u32::MAX
    } else {
        total + extra as u32
    };
    let scan_had_more: bool = next_cursor.is_some();
    let ghost marked = said_by(hits@);
    let ghost cursor = cursor_bytes(cursor_after);
    let ghost after = later(cursor);
    let ghost aliases = said_by(resolved.aliased@);
    let mut merged = hits;
    let mut i: usize = 0;
    proof {
        reveal(Seq::filter);
        assert(aliases.take(0).filter(after) =~= Seq::empty());
        assert(said_by(merged@) =~= marked + aliases.take(0).filter(after));
    }
    while i < resolved.aliased.len()
        invariant
            i <= resolved.aliased@.len(),
            cursor == cursor_bytes(cursor_after),
            after == later(cursor),
            aliases == said_by(resolved.aliased@),
            said_by(merged@) == marked + aliases.take(i as int).filter(after),
        decreases resolved.aliased.len() - i,
    {
        let h = &resolved.aliased[i];
        let fresh: bool = match cursor_after {
            Some(c) => bytes_less(c, h.key.as_slice()),
            None => true,
        };
        proof {
            crate::seqs::lemma_filter_take(aliases, i as int, after);
        }
        let ghost was = merged@;
        if fresh {
            merged.push(
                ScanHit {
                    key: copy_bytes(h.key.as_slice()),
                    start: h.start,
                    hit: ReferenceHit {
                        path: h.hit.path.copy(),
                        line: h.hit.line,
                        column: h.hit.column,
                        callee: h.hit.callee.clone(),
                        resolved: h.hit.resolved,
                    },
                },
            );
            assert(said_by(merged@) =~= said_by(was).push(aliases[i as int]));
        }
        i += 1;
        assert(said_by(merged@) =~= marked + aliases.take(i as int).filter(after));
    }
    assert(aliases.take(i as int) =~= aliases);
    let ghost unsorted = merged@;
    let mut merged = sort_by_key(merged);
    let ghost full = said_by(merged@);
    proof {
        lemma_map_multiset(merged@, unsorted, |h: ScanHit| said(h));
        assert forall|a: int, b: int| 0 <= a < b < full.len() implies !lex_less(
            (#[trigger] full[b]).0.key,
            (#[trigger] full[a]).0.key,
        ) by {
            assert(crate::sort::may_precede(merged@[a].sort_key(), merged@[b].sort_key(), true));
        }
        assert(merges(full, marked, aliases.filter(after)));
    }
    let more: bool = merged.len() > limit || scan_had_more;
    merged.truncate(limit);
    assert(said_by(merged@) =~= full.take(least(full.len() as int, limit as int)));
    let n: usize = merged.len();
    let next_cursor = if more && n > 0 {
        Some(Cursor::encode_fjall(merged[n - 1].key.as_slice()))
    } else {
        None
    };
    let out = CallScanPage { total, total_is_partial, hits: merged, next_cursor };
    proof {
        assert(marked == annotated(scan_hits, resolved.sites));
        assert(aliases.filter(after) == fresh_aliases(resolved.aliased@, cursor));
        assert(merges(full, annotated(scan_hits, resolved.sites), fresh_aliases(resolved.aliased@, cursor)));
        assert(is_merge_of(out, full, limit as int, scan_had_more));
    }
    out
}

/// Resolution never removes a hit of the name scan: after a merge, each marked hit is on the page,
/// or the page is full and the hit comes no earlier than the page's last one.
pub proof fn law_merge_keeps_the_scan(
    full: Seq<(CallRow, Option<bool>)>,
    marked: Seq<(CallRow, Option<bool>)>,
    fresh: Seq<(CallRow, Option<bool>)>,
    limit: int,
    k: int,
)
    requires
        merges(full, marked, fresh),
        0 <= k < marked.len(),
        limit > 0,
    ensures
        ({
            let page = full.take(least(full.len() as int, limit));
            page.contains(marked[k]) || (page.len() == limit && !lex_less(
                marked[k].0.key,
                page.last().0.key,
            ))
        }),
{
    broadcast use vstd::seq_lib::group_to_multiset_ensures;

    let x = marked[k];
    let all = marked + fresh;
    assert(all[k] == x);
    assert(all.contains(x));
    assert(all.to_multiset().count(x) > 0);
    assert(full.contains(x));
    let at = full.index_of(x);
    let page = full.take(least(full.len() as int, limit));
    if at < page.len() {
        assert(page[at] == x);
    } else {
        assert(page.last() == full[limit - 1]);
        assert(!lex_less(full[at].0.key, full[limit - 1].0.key));
    }
}

/// Marking decides nothing but the mark: the call sites of the hits stay, one for one.
pub proof fn law_marking_keeps_the_sites(hits: Seq<ScanHit>, sites: SiteTable)
    ensures
        annotated(hits, sites).len() == hits.len(),
        forall|i: int|
            0 <= i < hits.len() ==> (#[trigger] annotated(hits, sites)[i]).0 == row_of(hits[i]),
{
}

/// Result of applying a token budget to a page.
pub struct BudgetedCallPage {
    pub hits: Vec<ScanHit>,
    pub next_cursor: Option<Cursor>,
    pub budgeted: bool,
}

/// Apply a token budget to a page, given the serialized size of each hit. When the budget drops
/// trailing hits, the cursor moves to the last kept one, so that the next page resumes right after
/// it.
pub fn budget_call_page(
    page: CallScanPage,
    sizes: &[u64],
    max_tokens: Option<u32>,
) -> (out: BudgetedCallPage)
    requires
        sizes@.len() == page.hits@.len(),
    ensures
        is_kept_count(sizes@, max_tokens, out.hits@.len() as int),
        out.hits@ == page.hits@.take(out.hits@.len() as int),
        out.budgeted == (out.hits@.len() < page.hits@.len()),
        if out.budgeted {
            cursor_text(out.next_cursor) == Some(base64(out.hits@.last().key@))
        } else {
            out.next_cursor == page.next_cursor
        },
{
    let kept: usize = kept_count(sizes, max_tokens);
    let mut hits = page.hits;
    let ghost all = hits@;
    if kept >= hits.len() {
        assert(all.take(all.len() as int) =~= all);
        return BudgetedCallPage { hits, next_cursor: page.next_cursor, budgeted: false };
    }
    hits.truncate(kept);
    assert(hits@ =~= all.take(kept as int));
    let next_cursor = Some(Cursor::encode_fjall(hits[kept - 1].key.as_slice()));
    BudgetedCallPage { hits, next_cursor, budgeted: true }
}

} // verus!
