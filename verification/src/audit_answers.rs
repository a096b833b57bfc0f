//! What an audit of a tier reports on and writes back, and how files are numbered and calls counted.
use vstd::prelude::*;
use vstd::utf8::{encode_utf8, valid_utf8};

use crate::answers::{lemma_filter_place, lemma_filter_source};
use crate::audit::CodeState;
use crate::calls::InRamCallIndex;
use crate::cochange::{changed, is_counted, noted_all, seen_upto, CommitFiles};
use crate::documents::rerank_error;
use crate::governance::{
    any_row, archives, audit_cap, audited, chosen, is_tier_audit, pickable, shelves, stamped, under,
    upto, MemoryAuditResponse, Shelves,
};
use crate::graph::{
    callable, callees_of_name, calls_scanned, defines, file_defines, in_scope, index_calls,
};
use crate::identity::hexadecimal;
use crate::keys::{
    law_bounds_are_the_prefix, law_record_key_reads_back, memory_key, memory_prefix, nul_free,
    record_key_of,
};
use crate::keyspace::{in_range_and, key_index, lemma_row_at, Row};
use crate::lenient::shown_field;
use crate::memory::{raw_key, IndexDb, MemoryRecord};
use crate::model::{MappedFile, ToolError};
use crate::answers::{lemma_part_of, part_of};

verus! {

// ─── Audits of a tier ────────────────────────────────────────────────────────

proof fn lemma_whole_key(scope: Seq<u8>, vis: u8, owner: Seq<u8>, raw: Seq<u8>)
    requires
        nul_free(scope),
        nul_free(owner),
        memory_prefix(scope, vis, owner).is_prefix_of(raw),
    ensures
        record_key_of(raw) is Some,
        memory_prefix(scope, vis, owner) + record_key_of(raw)->0 == raw,
{
    let prefix = memory_prefix(scope, vis, owner);
    let key = raw.skip(prefix.len() as int);
    assert(raw =~= prefix + key) by {
        assert(raw.subrange(0, prefix.len() as int) == prefix);
        assert(raw =~= raw.subrange(0, prefix.len() as int) + key);
    }
    assert(raw == memory_key(scope, vis, owner, key));
    law_record_key_reads_back(scope, vis, owner, key);
}

/// An audit of a tier reports on as many memories as it is asked for, or on all that there are: those rows of the tier whose key is text
/// and whose record can be read, where there are no more rows than it looks at.
pub proof fn law_audits_report_on_all(
    before: IndexDb,
    after: IndexDb,
    code: CodeState,
    prefix: Seq<u8>,
    dry_run: bool,
    limit: int,
    now: i64,
    out: MemoryAuditResponse,
)
    requires
        0 <= limit,
        is_tier_audit(before, after, code, prefix, false, dry_run, limit, now, out),
        before.memory_by_key.rows@.len() <= 1000,
    ensures
        ({
            let n = before.memory_by_key.rows@.filter(
                |r: Row<MemoryRecord>|
                    prefix.is_prefix_of(r.key@) && record_key_of(r.key@) is Some && valid_utf8(
                        record_key_of(r.key@)->0,
                    ) && r.value is Some,
            ).len();
            if n <= limit {
                out.results@.len() == n
            } else {
                out.results@.len() == limit
            }
        }),
{
    let rows = before.memory_by_key.rows@;
    let q = in_range_and(prefix, None, any_row());
    let p = pickable(true);
    let both = |r: Row<MemoryRecord>|
        prefix.is_prefix_of(r.key@) && record_key_of(r.key@) is Some && valid_utf8(
            record_key_of(r.key@)->0,
        ) && r.value is Some;
    let a = under(rows, prefix);
    crate::seqs::lemma_filter_fits(rows, q);
    assert(upto(a, audit_cap(limit)) == a);
    crate::seqs::lemma_filter_twice(rows, q, p);
    assert forall|i: int| 0 <= i < rows.len() implies both(#[trigger] rows[i]) == (q(rows[i]) && p(rows[i])) by {
        law_bounds_are_the_prefix(prefix, rows[i].key@);
    }
    crate::seqs::lemma_filter_agree(rows, both, |r: Row<MemoryRecord>| q(r) && p(r));
}

proof fn lemma_audit_writes(
    s: Shelves,
    prefix: Seq<u8>,
    found: Seq<Row<MemoryRecord>>,
    code: CodeState,
    now: i64,
    n: int,
    i: int,
)
    requires
        0 <= i < n <= found.len(),
        forall|j: int|
            0 <= j < found.len() && j != i ==> record_key_of((#[trigger] found[j]).key@)->0 != record_key_of(
                found[i].key@,
            )->0,
    ensures
        ({
            let raw = prefix + record_key_of(found[i].key@)->0;
            let after = audited(s, prefix, found, code, now, n);
            let fact = Some(stamped(code, found[i].value->0, now));
            if archives(code, found[i].value->0, now) {
                !after.live.contains_key(raw) && after.archive.contains_key(raw) && after.archive[raw] == fact
            } else {
                after.live.contains_key(raw) && after.live[raw] == fact
            }
        }),
    decreases n,
{
    if i < n - 1 {
        lemma_audit_writes(s, prefix, found, code, now, n - 1, i);
        let x = record_key_of(found[n - 1].key@)->0;
        let y = record_key_of(found[i].key@)->0;
        assert(x != y);
        assert(prefix + x != prefix + y) by {
            if prefix + x == prefix + y {
                assert((prefix + x).skip(prefix.len() as int) =~= x);
                assert((prefix + y).skip(prefix.len() as int) =~= y);
            }
        }
    }
}

/// Unless it is a dry run, an audit of a tier writes every memory back as it stamps it, or moves it to the archive where it has been stale
/// for too long; as long as there are no more rows than it is asked for.
pub proof fn law_audits_write_back(
    before: IndexDb,
    after: IndexDb,
    code: CodeState,
    scope: Seq<char>,
    vis: u8,
    owner: Seq<char>,
    limit: int,
    now: i64,
    out: MemoryAuditResponse,
    key: Seq<char>,
)
    requires
        before.wf(),
        nul_free(encode_utf8(scope)),
        nul_free(encode_utf8(owner)),
        is_tier_audit(
            before,
            after,
            code,
            memory_prefix(encode_utf8(scope), vis, encode_utf8(owner)),
            false,
            false,
            limit,
            now,
            out,
        ),
        before.memory_by_key.rows@.len() <= limit,
        before.live(raw_key(scope, vis, owner, key)) is Some,
    ensures
        ({
            let raw = raw_key(scope, vis, owner, key);
            let r = before.live(raw)->0;
            &&& archives(code, r, now) ==> !shelves(after).live.contains_key(raw) && shelves(
                after,
            ).archive.contains_key(raw) && shelves(after).archive[raw] == Some(stamped(code, r, now))
            &&& !archives(code, r, now) ==> shelves(after).live.contains_key(raw) && shelves(after).live[raw]
                == Some(stamped(code, r, now))
        }),
{
    let rows = before.memory_by_key.rows@;
    let raw = raw_key(scope, vis, owner, key);
    let s = encode_utf8(scope);
    let o = encode_utf8(owner);
    let prefix = memory_prefix(s, vis, o);
    assert(before.memory_by_key.map().contains_key(raw));
    let k = key_index(rows, raw);
    assert(rows[k].key@ == raw);
    lemma_row_at(rows, k);
    law_record_key_reads_back(s, vis, o, encode_utf8(key));
    vstd::utf8::encode_utf8_valid_utf8(key);
    assert(prefix.is_prefix_of(raw)) by {
        assert(raw.subrange(0, prefix.len() as int) =~= prefix);
    }
    law_bounds_are_the_prefix(prefix, raw);
    let q = in_range_and(prefix, None, any_row());
    let p = pickable(true);
    let a = under(rows, prefix);
    crate::seqs::lemma_filter_fits(rows, q);
    crate::seqs::lemma_filter_fits(a, p);
    assert(upto(a, audit_cap(limit)) == a);
    let live = chosen(rows, prefix, true, limit, audit_cap(limit));
    assert(live == a.filter(p));
    let j = lemma_filter_place(rows, q, k);
    let i = lemma_filter_place(a, p, j);
    assert(live[i] == rows[k]);
    assert forall|m: int| 0 <= m < live.len() && m != i implies record_key_of((#[trigger] live[m]).key@)->0
        != record_key_of(live[i].key@)->0 by {
        let x = lemma_filter_source(a, p, m);
        let y = lemma_filter_source(rows, q, x);
        let c = lemma_filter_source(a, p, i);
        let d = lemma_filter_source(rows, q, c);
        assert(x != c);
        assert(y != d);
        lemma_row_at(rows, y);
        lemma_row_at(rows, d);
        law_bounds_are_the_prefix(prefix, rows[y].key@);
        lemma_whole_key(s, vis, o, rows[y].key@);
        lemma_whole_key(s, vis, o, rows[d].key@);
        assert(rows[d] == rows[k]);
        if record_key_of(rows[y].key@)->0 == record_key_of(rows[d].key@)->0 {
            assert(rows[y].key@ == rows[d].key@);
        }
    }
    lemma_audit_writes(shelves(before), prefix, live, code, now, live.len() as int, i);
}

// ─── Numbers of files ────────────────────────────────────────────────────────

proof fn lemma_noted_front(seen: Seq<Seq<u8>>, paths: Seq<Seq<u8>>)
    ensures
        seen.len() <= noted_all(seen, paths).len(),
        noted_all(seen, paths).take(seen.len() as int) == seen,
    decreases paths.len(),
{
    if paths.len() == 0 {
        assert(seen.take(seen.len() as int) =~= seen);
    } else {
        lemma_noted_front(seen, paths.drop_last());
        let before = noted_all(seen, paths.drop_last());
        let after = noted_all(seen, paths);
        assert(after.take(seen.len() as int) =~= before.take(seen.len() as int));
    }
}

/// Files are numbered as they are first seen: a commit more changes no number, and the first path of the first commit has the first.
pub proof fn law_numbers_are_stable(commits: Seq<CommitFiles>, max_files: int, n: int)
    requires
        0 < n <= commits.len(),
    ensures
        seen_upto(commits, max_files, n - 1).len() <= seen_upto(commits, max_files, n).len(),
        seen_upto(commits, max_files, n).take(seen_upto(commits, max_files, n - 1).len() as int) == seen_upto(
            commits,
            max_files,
            n - 1,
        ),
        is_counted(commits[0], max_files) && changed(commits[0]).len() > 0 ==> seen_upto(
            commits,
            max_files,
            1,
        ).len() > 0 && seen_upto(commits, max_files, 1)[0] == changed(commits[0])[0],
{
    let before = seen_upto(commits, max_files, n - 1);
    if is_counted(commits[n - 1], max_files) {
        lemma_noted_front(before, changed(commits[n - 1]));
    } else {
        assert(before.take(before.len() as int) =~= before);
    }
    let first = changed(commits[0]);
    if is_counted(commits[0], max_files) && first.len() > 0 {
        lemma_first_noted(first, first.len() as int);
        assert(first.take(first.len() as int) =~= first);
        assert(seen_upto(commits, max_files, 0) =~= Seq::empty());
    }
}

proof fn lemma_first_noted(paths: Seq<Seq<u8>>, n: int)
    requires
        0 < n <= paths.len(),
    ensures
        noted_all(Seq::empty(), paths.take(n)).len() > 0,
        noted_all(Seq::empty(), paths.take(n))[0] == paths[0],
    decreases n,
{
    assert(paths.take(n).drop_last() =~= paths.take(n - 1));
    if n > 1 {
        lemma_first_noted(paths, n - 1);
    } else {
        assert(paths.take(0) =~= Seq::empty());
        assert(noted_all(Seq::empty(), paths.take(0)) =~= Seq::empty());
    }
}

// ─── Calls that are looked at ────────────────────────────────────────────────

proof fn lemma_none_scanned(index: Option<&InRamCallIndex>, scope: Seq<MappedFile>, name: Seq<char>, n: int, f: int)
    requires
        0 <= n <= scope.len(),
        forall|g: int| 0 <= g < scope.len() && g != f ==> !file_defines(#[trigger] scope[g], name),
    ensures
        calls_scanned(index, scope, name, n) == if 0 <= f < n && file_defines(scope[f], name) {
            index_calls(index, scope[f].path@).len() as int
        } else {
            0
        },
    decreases n,
{
    if n > 0 {
        lemma_none_scanned(index, scope, name, n - 1, f);
        if n - 1 != f {
            assert(!file_defines(scope[n - 1], name));
        }
    }
}

/// A search for callees looks at the calls of the files that define the name, and at no others: where one file alone defines it, it is
/// given up exactly when that file has more calls than allowed.
pub proof fn law_the_cap_counts_calls_of_definers(
    index: &InRamCallIndex,
    files: Seq<MappedFile>,
    name: Seq<char>,
    cap: int,
    f: int,
)
    requires
        0 <= cap,
        0 <= f < files.len(),
        exists|s: int|
            0 <= s < files[f].map.symbols@.len() && (#[trigger] files[f].map.symbols@[s]).name@ == name
                && callable(files[f].map.symbols@[s]),
        forall|g: int, s: int|
            0 <= g < files.len() && g != f && 0 <= s < files[g].map.symbols@.len() ==> (
            #[trigger] files[g].map.symbols@[s]).name@ != name || !callable(files[g].map.symbols@[s]),
    ensures
        callees_of_name(Some(index), files, name, None, cap) is None <==> index.calls_of(
            files[f].path@,
        ).len() > cap,
{
    assert(in_scope(files, None) == files);
    let s = choose|s: int|
        0 <= s < files[f].map.symbols@.len() && (#[trigger] files[f].map.symbols@[s]).name@ == name
            && callable(files[f].map.symbols@[s]);
    assert(defines(files[f].map.symbols@[s], name));
    assert(file_defines(files[f], name));
    assert forall|g: int| 0 <= g < files.len() && g != f implies !file_defines(#[trigger] files[g], name) by {
        if file_defines(files[g], name) {
            let t = choose|t: int|
                0 <= t < files[g].map.symbols@.len() && defines(#[trigger] files[g].map.symbols@[t], name);
            assert(files[g].map.symbols@[t].name@ == name);
        }
    }
    lemma_none_scanned(Some(index), files, name, files.len() as int, f);
}

// ─── Words ───────────────────────────────────────────────────────────────────

/// A failed rerank is blamed on the model where the message speaks of a download, of its hub or of a model, and else on the run.
pub proof fn law_rerank_errors(msg: &str, e: ToolError)
    requires
        call_ensures(rerank_error, (msg,), e),
    ensures
        part_of("download"@, msg@) || part_of("HuggingFace"@, msg@) || part_of("model"@, msg@) ==> e.text()
            == "rerank model load: "@ + msg@,
        !part_of("download"@, msg@) && !part_of("HuggingFace"@, msg@) && !part_of("model"@, msg@) ==> e.text()
            == "rerank inference: "@ + msg@,
{
    lemma_part_of("download"@, msg@);
    lemma_part_of("HuggingFace"@, msg@);
    lemma_part_of("model"@, msg@);
}

/// Hexadecimal digits are lower case, the most significant first.
pub proof fn law_hexadecimal(n: nat, d: nat)
    requires
        d < 16,
    ensures
        n > 0 ==> hexadecimal(n * 16 + d) == hexadecimal(n) + hexadecimal(d),
        d < 10 ==> hexadecimal(d) == seq![((48 + d) as u8) as char],
        d >= 10 ==> hexadecimal(d) == seq![((87 + d) as u8) as char],
{
    assert((n * 16 + d) / 16 == n && (n * 16 + d) % 16 == d);
    if n > 0 {
        assert(hexadecimal(n * 16 + d) =~= hexadecimal(n) + hexadecimal(d));
    }
}

/// A field is shown in backquotes, and marked where it is required.
pub proof fn law_shown_fields(field: Seq<char>, required: Seq<Seq<char>>)
    ensures
        required.contains(field) ==> shown_field(field, required) == "`"@ + field + "` (required)"@,
        !required.contains(field) ==> shown_field(field, required) == "`"@ + field + "`"@,
{
}

} // verus!
