//! The name scan over call sites as they are stored: bytes of keys, with the position that the
//! other table gives for them.
use vstd::prelude::*;

use crate::calls::{is_scan_page, named, scan_cap, CallRow, CallScan, CallScanPage, InRamCall};
use crate::keys::{call_key, callee_fits, law_call_key_injective, parse_call_by_callee};
use crate::seqs::lemma_filter_prefix;
use crate::text::copy_bytes;

verus! {

/// A stored call site.
#[derive(Debug)]
pub struct StoredCall {
    /// The bytes of its key.
    pub key: Vec<u8>,
    /// Its row and column, both from 0; `None` where none is stored or it cannot be read.
    pub position: Option<(u32, u32)>,
}

/// The line, from 1, and the column of a call site; zeros where no position is stored.
pub open spec fn line_col_of(position: Option<(u32, u32)>) -> (int, u32) {
    match position {
        Some(p) => (p.0 + 1, p.1),
        None => (0, 0),
    }
}

/// The line and column of a call site.
pub fn resolve_call_line_col(position: Option<(u32, u32)>) -> (at: (u32, u32))
    requires
        position is Some ==> (position->0).0 < u32::MAX,
    ensures
        (at.0 as int, at.1) == line_col_of(position),
{
    match position {
        Some((row, col)) => (row + 1, col),
        None => (0, 0),
    }
}

/// The key is that of a call of `parts.0` at byte `parts.2` of the file `parts.1`.
pub open spec fn is_key_of(key: Seq<u8>, parts: (Seq<char>, Seq<u8>, u32)) -> bool {
    callee_fits(parts.0) && key == call_key(parts.0, parts.1, parts.2)
}

/// What a stored call site says; `None` where its key is no call key.
pub open spec fn row_read(c: StoredCall) -> Option<CallRow> {
    if exists|parts: (Seq<char>, Seq<u8>, u32)| is_key_of(c.key@, parts) {
        let parts = choose|parts: (Seq<char>, Seq<u8>, u32)| is_key_of(c.key@, parts);
        let at = line_col_of(c.position);
        Some(
            CallRow {
                key: c.key@,
                callee: parts.0,
                rel: parts.1,
                start: parts.2,
                line: at.0 as u32,
                column: at.1,
            },
        )
    } else {
        None
    }
}

/// The call sites that could be read, in order.
pub open spec fn rows_read(calls: Seq<StoredCall>) -> Seq<CallRow>
    decreases calls.len(),
{
    if calls.len() == 0 {
        Seq::empty()
    } else {
        let front = rows_read(calls.drop_last());
        match row_read(calls.last()) {
            Some(row) => front.push(row),
            None => front,
        }
    }
}

fn read_call(c: &StoredCall) -> (call: Option<InRamCall>)
    requires
        c.position is Some ==> (c.position->0).0 < u32::MAX,
    ensures
        match call {
            Some(x) => row_read(*c) == Some(x@),
            None => row_read(*c) is None,
        },
{
    match parse_call_by_callee(c.key.as_slice()) {
        Some(p) => {
            let (line, column) = resolve_call_line_col(c.position);
            proof {
                let mine = (p.callee@, p.rel@, p.start);
                assert(is_key_of(c.key@, mine));
                let parts = choose|parts: (Seq<char>, Seq<u8>, u32)| is_key_of(c.key@, parts);
                law_call_key_injective(mine.0, mine.1, mine.2, parts.0, parts.1, parts.2);
            }
            Some(
                InRamCall {
                    key: copy_bytes(c.key.as_slice()),
                    callee: p.callee,
                    rel: p.rel,
                    start_byte: p.start,
                    line,
                    column,
                },
            )
        },
        None => {
            proof {
                assert forall|parts: (Seq<char>, Seq<u8>, u32)| !is_key_of(c.key@, parts) by {
                    if callee_fits(parts.0) {
                        assert(call_key(parts.0, parts.1, parts.2) != c.key@);
                    }
                }
            }
            None
        },
    }
}

proof fn lemma_rows_prefix(calls: Seq<StoredCall>, n: int)
    requires
        0 <= n <= calls.len(),
    ensures
        rows_read(calls.take(n)).len() <= rows_read(calls).len(),
        rows_read(calls).take(rows_read(calls.take(n)).len() as int) == rows_read(calls.take(n)),
        rows_read(calls.take(n)).len() <= n,
    decreases calls.len(),
{
    if n < calls.len() {
        let front = calls.drop_last();
        lemma_rows_prefix(front, n);
        assert(front.take(n) =~= calls.take(n));
        assert(rows_read(calls).take(rows_read(calls.take(n)).len() as int) =~= rows_read(
            calls.take(n),
        ));
    } else {
        assert(calls.take(n) =~= calls);
        assert(rows_read(calls).take(rows_read(calls).len() as int) =~= rows_read(calls));
        if n > 0 {
            lemma_rows_prefix(calls.drop_last(), n - 1);
            assert(calls.drop_last().take(n - 1) =~= calls.drop_last());
        }
    }
}

/// The name scan over stored call sites, which come in key order after the cursor: the page of those
/// whose callee holds `name`. Keys that are no call keys are passed over.
pub fn scan_calls_by_name(calls: &Vec<StoredCall>, name: &str, limit: usize) -> (page: CallScanPage)
    requires
        calls@.len() < u32::MAX,
        forall|i: int|
            0 <= i < calls@.len() && (#[trigger] calls@[i]).position is Some
                ==> (calls@[i].position->0).0 < u32::MAX,
    ensures
        is_scan_page(page, rows_read(calls@).filter(named(name@)), limit as int),
{
    let mut scan = CallScan::start(name, limit);
    let mut i: usize = 0;
    let mut more: bool = true;
    assert(scan.seen() =~= rows_read(calls@.take(0)));
    proof {
        assert(scan.seen().filter(named(name@)) =~= scan.seen()) by {
            reveal(Seq::filter);
        }
    }
    while more && i < calls.len()
        invariant
            0 <= i <= calls@.len(),
            calls@.len() < u32::MAX,
            forall|k: int|
                0 <= k < calls@.len() && (#[trigger] calls@[k]).position is Some
                    ==> (calls@[k].position->0).0 < u32::MAX,
            scan.wf(),
            scan.wanted() == name@,
            scan.page_size() == limit,
            scan.seen() == rows_read(calls@.take(i as int)),
            more == (scan.found().len() < scan_cap(limit as int)),
        decreases calls.len() - i,
    {
        proof {
            scan.seen().lemma_filter_len(named(name@));
            lemma_rows_prefix(calls@, i as int);
            assert(calls@.take(i + 1).drop_last() =~= calls@.take(i as int));
        }
        if let Some(call) = read_call(&calls[i]) {
            more = scan.offer(name, &call);
        }
        i += 1;
    }
    proof {
        let all = rows_read(calls@);
        let found = all.filter(named(name@));
        lemma_rows_prefix(calls@, i as int);
        let n = scan.seen().len() as int;
        lemma_filter_prefix(all, n, named(name@));
        assert(scan.found() == found.take(scan.found().len() as int));
        if more {
            assert(calls@.take(i as int) =~= calls@);
        }
        assert forall|k: int| 0 <= k < scan.found().len() implies scan.found()[k] == found[k] by {
            assert(found.take(scan.found().len() as int)[k] == found[k]);
        }
    }
    scan.finish()
}

} // verus!
