//! What is kept up to date: the code map, kept outlines, grammars, and memories after a rescan.
use vstd::prelude::*;
use vstd::utf8::encode_utf8;

use crate::answers::{lemma_filter_place, lemma_filter_source};
use crate::audit::{verdict_state, CodeState};
use crate::cache::{after_updates, table_upto, PathState, PathUpdate, StoredFile};
use crate::governance::{
    archives, law_rescan_leaves_the_rest, rescan_key, rescanned, shelves, stale_row, stale_rows,
    stamped, under, upto, Shelves,
};
use crate::impls::{is_first_impl, is_impl, place_of};
use crate::keys::{
    is_memory_key, law_bounds_are_the_prefix, law_record_key_reads_back, lemma_nul_from, memory_key,
    nul_free, nul_from, owner_in, record_key_of, vis_in,
};
use crate::keyspace::{in_range_and, key_index, lemma_row_at, Row};
use crate::lang::{among, override_names, plan_bootstrap, BootstrapPlan, LangError};
use crate::memory::{raw_key, IndexDb, MemoryRecord, VerifyState};
use crate::model::{file_table, lemma_table_at, paths_ascend, FileMapL1, MappedFile};
use crate::outlines::{after_put, keeps, OutlineEntry};
use crate::sort::strictly_ascends;
use crate::text::texts;

verus! {

// ─── The code map ────────────────────────────────────────────────────────────

proof fn lemma_untouched(t: Map<Seq<u8>, FileMapL1>, updates: Seq<PathUpdate>, m: int, n: int, p: Seq<u8>)
    requires
        0 <= m <= n <= updates.len(),
        forall|j: int| m <= j < n ==> (#[trigger] updates[j]).path@ != p,
    ensures
        after_updates(t, updates, n).contains_key(p) == after_updates(t, updates, m).contains_key(p),
        after_updates(t, updates, m).contains_key(p) ==> after_updates(t, updates, n)[p]
            == after_updates(t, updates, m)[p],
    decreases n - m,
{
    if m < n {
        lemma_untouched(t, updates, m, n - 1, p);
        assert(updates[n - 1].path@ != p);
    }
}

/// What becomes of a path that is updated once: one that was read has its new facts, one that is gone has none, and one that
/// is there but cannot be read keeps those it had.
pub proof fn law_updates_of_paths(t: Map<Seq<u8>, FileMapL1>, updates: Seq<PathUpdate>, i: int)
    requires
        0 <= i < updates.len(),
        forall|j: int|
            0 <= j < updates.len() && j != i ==> (#[trigger] updates[j]).path@ != updates[i].path@,
    ensures
        ({
            let p = updates[i].path@;
            let next = after_updates(t, updates, updates.len() as int);
            match updates[i].state {
                PathState::Read(m) => next.contains_key(p) && next[p] == m,
                PathState::Gone => !next.contains_key(p),
                PathState::Unreadable => next.contains_key(p) == t.contains_key(p) && (t.contains_key(p)
                    ==> next[p] == t[p]),
            }
        }),
{
    let p = updates[i].path@;
    lemma_untouched(t, updates, 0, i, p);
    assert(after_updates(t, updates, 0) == t);
    lemma_untouched(t, updates, i + 1, updates.len() as int, p);
}

/// The map is built of the files whose facts can be read: each has its own, and no other path has any.
pub proof fn law_readable_files_are_mapped(files: Seq<StoredFile>, n: int, i: int, p: Seq<u8>)
    requires
        0 <= i < n <= files.len(),
        forall|a: int, b: int|
            0 <= a < b < files.len() ==> (#[trigger] files[a]).path@ != (#[trigger] files[b]).path@,
    ensures
        files[i].map is Some ==> table_upto(files, n).contains_key(files[i].path@) && table_upto(files, n)[
        files[i].path@] == files[i].map->0,
        files[i].map is None ==> !table_upto(files, n).contains_key(files[i].path@),
        (forall|k: int| 0 <= k < n ==> (#[trigger] files[k]).path@ != p) ==> !table_upto(
            files,
            n,
        ).contains_key(p),
    decreases n,
{
    if forall|k: int| 0 <= k < n ==> (#[trigger] files[k]).path@ != p {
        lemma_unmapped(files, n, p);
    }
    if i == n - 1 {
        assert forall|k: int| 0 <= k < n - 1 implies (#[trigger] files[k]).path@ != files[i].path@ by {}
        lemma_unmapped(files, n - 1, files[i].path@);
    } else {
        law_readable_files_are_mapped(files, n - 1, i, p);
        assert(files[i].path@ != files[n - 1].path@);
    }
}

proof fn lemma_unmapped(files: Seq<StoredFile>, n: int, p: Seq<u8>)
    requires
        0 <= n <= files.len(),
        forall|k: int| 0 <= k < n ==> (#[trigger] files[k]).path@ != p,
    ensures
        !table_upto(files, n).contains_key(p),
    decreases n,
{
    if n > 0 {
        lemma_unmapped(files, n - 1, p);
        assert(files[n - 1].path@ != p);
    }
}

// ─── Places of implementations ───────────────────────────────────────────────

/// An implementation stands where the code map says: at the row, counted from one, and the column of the first one in its file
/// with the same trait, type and start.
pub proof fn law_places_of_implementations(
    files: Seq<MappedFile>,
    f: int,
    k: int,
)
    requires
        paths_ascend(files),
        0 <= f < files.len(),
        0 <= k < files[f].map.implementations@.len(),
        forall|j: int|
            0 <= j < k ==> !((#[trigger] files[f].map.implementations@[j]).trait_name@
                == files[f].map.implementations@[k].trait_name@
                && files[f].map.implementations@[j].impl_type@
                == files[f].map.implementations@[k].impl_type@
                && files[f].map.implementations@[j].start_byte
                == files[f].map.implementations@[k].start_byte),
    ensures
        ({
            let i = files[f].map.implementations@[k];
            place_of(files, files[f].path@, i.trait_name@, i.impl_type@, i.start_byte) == (
                i.start_row + 1,
                i.start_col as int,
            )
        }),
{
    let list = files[f].map.implementations@;
    let i = list[k];
    lemma_table_at(files, f);
    assert forall|j: int| 0 <= j < k implies !is_impl(
        #[trigger] list[j],
        i.trait_name@,
        i.impl_type@,
        i.start_byte,
    ) by {}
    assert(is_first_impl(list, i.trait_name@, i.impl_type@, i.start_byte, k));
    let q = choose|q: int| is_first_impl(list, i.trait_name@, i.impl_type@, i.start_byte, q);
    if q < k {
        assert(!is_impl(list[q], i.trait_name@, i.impl_type@, i.start_byte));
    } else if k < q {
        assert(!is_impl(list[k], i.trait_name@, i.impl_type@, i.start_byte));
    }
}

/// Where no file at the path has such an implementation, the place is not known.
pub proof fn law_no_place_without_implementation(
    files: Seq<MappedFile>,
    rel: Seq<u8>,
    trait_name: Seq<char>,
    impl_type: Seq<char>,
    start: u32,
)
    requires
        paths_ascend(files),
        forall|f: int, k: int|
            0 <= f < files.len() && files[f].path@ == rel && 0 <= k
                < files[f].map.implementations@.len() ==> !((
            #[trigger] files[f].map.implementations@[k]).trait_name@ == trait_name
                && files[f].map.implementations@[k].impl_type@ == impl_type
                && files[f].map.implementations@[k].start_byte == start),
    ensures
        place_of(files, rel, trait_name, impl_type, start) == (0int, 0int),
{
    if file_table(files).contains_key(rel) {
        let f = crate::model::path_index(files, rel);
        assert(files[f].path@ == rel);
        lemma_table_at(files, f);
        let list = files[f].map.implementations@;
        if exists|k: int| is_first_impl(list, trait_name, impl_type, start, k) {
            let k = choose|k: int| is_first_impl(list, trait_name, impl_type, start, k);
            assert(files[f].map.implementations@[k].trait_name@ == trait_name);
        }
    }
}

// ─── Kept outlines ───────────────────────────────────────────────────────────

/// An outline that is put is kept in front. Every other one stays, unless there is no room for a new key: then the one used
/// least recently leaves, and no other.
pub proof fn law_puts_are_kept(
    kept: Seq<(Seq<u8>, OutlineEntry)>,
    cap: int,
    key: Seq<u8>,
    entry: OutlineEntry,
    i: int,
)
    requires
        0 < cap,
        kept.len() <= cap,
        0 <= i < kept.len(),
        kept[i].0 != key,
    ensures
        after_put(kept, cap, key, entry)[0] == (key, entry),
        keeps(kept, key) || kept.len() < cap || i < kept.len() - 1 ==> after_put(
            kept,
            cap,
            key,
            entry,
        ).contains(kept[i]),
{
    let next = after_put(kept, cap, key, entry);
    if keeps(kept, key) {
        let p = crate::outlines::kept_other_than(key);
        let k = lemma_filter_place(kept, p, i);
        assert(next[k + 1] == kept[i]);
    } else if kept.len() < cap {
        assert(next[i + 1] == kept[i]);
    } else if i < kept.len() - 1 {
        assert(next[i + 1] == kept[i]);
    }
}

// ─── Grammars ────────────────────────────────────────────────────────────────

proof fn lemma_among(installed: Seq<Seq<char>>, present: bool, n: int, name: Seq<char>)
    requires
        0 <= n <= override_names().len(),
    ensures
        among(installed, present, n).contains(name) <==> override_names().take(n).contains(name)
            && installed.contains(name) == present,
    decreases n,
{
    let names = override_names();
    if n > 0 {
        lemma_among(installed, present, n - 1, name);
        let front = among(installed, present, n - 1);
        let all = among(installed, present, n);
        let last = names[n - 1];
        assert(names.take(n) =~= names.take(n - 1).push(last));
        assert(names.take(n).contains(name) <==> names.take(n - 1).contains(name) || name == last) by {
            if names.take(n - 1).contains(name) {
                let k = names.take(n - 1).index_of(name);
                assert(names.take(n)[k] == name);
            }
            if name == last {
                assert(names.take(n)[n - 1] == name);
            }
            if names.take(n).contains(name) && name != last {
                let k = names.take(n).index_of(name);
                assert(names.take(n - 1)[k] == name);
            }
        }
        if installed.contains(last) == present {
            assert(all == front.push(last));
            if front.contains(name) {
                assert(all[front.index_of(name)] == name);
            }
            if name == last {
                assert(all[front.len() as int] == name);
            }
            if all.contains(name) && name != last {
                assert(front[all.index_of(name)] == name);
            }
        }
    } else {
        assert(names.take(0) =~= Seq::empty());
    }
}

/// A bootstrap fetches, of the six languages that ship with queries, those whose grammar is not installed, and reports the others
/// as cached. Offline it is refused where one is missing.
pub proof fn law_bootstraps(
    installed: &[String],
    offline: bool,
    r: Result<BootstrapPlan, LangError>,
    name: Seq<char>,
)
    requires
        call_ensures(plan_bootstrap, (installed, offline), r),
    ensures
        r is Ok ==> (texts(r->Ok_0.missing@).contains(name) <==> (name == "rust"@ || name == "python"@ || name
            == "typescript"@ || name == "tsx"@ || name == "javascript"@ || name == "go"@) && !texts(
            installed@,
        ).contains(name)),
        r is Ok ==> (texts(r->Ok_0.already_cached@).contains(name) <==> (name == "rust"@ || name
            == "python"@ || name == "typescript"@ || name == "tsx"@ || name == "javascript"@ || name
            == "go"@) && texts(installed@).contains(name)),
        r is Err ==> offline,
        !offline ==> r is Ok,
        r is Ok && offline ==> r->Ok_0.missing@.len() == 0,
{
    let names = override_names();
    assert(names.take(6) =~= names);
    lemma_among(texts(installed@), false, 6, name);
    lemma_among(texts(installed@), true, 6, name);
    crate::lang::law_overrides_are_bootstrapped(name);
    if r is Ok {
        assert(texts(r->Ok_0.missing@).len() == r->Ok_0.missing@.len());
    }
}

// ─── Memories after a rescan ─────────────────────────────────────────────────

proof fn lemma_ends_in_nul(raw: Seq<u8>, at: int)
    requires
        0 <= at <= raw.len(),
    ensures
        at <= nul_from(raw, at),
        nul_from(raw, at) < raw.len() ==> raw[nul_from(raw, at)] == 0,
    decreases raw.len() - at,
{
    if at < raw.len() && raw[at] != 0 {
        lemma_ends_in_nul(raw, at + 1);
    }
}

proof fn lemma_key_again(scope: Seq<u8>, raw: Seq<u8>)
    requires
        nul_free(scope),
        scope.push(0).is_prefix_of(raw),
        record_key_of(raw) is Some,
    ensures
        memory_key(scope, vis_in(raw), owner_in(raw), record_key_of(raw)->0) == raw,
{
    let n = scope.len() as int;
    assert(raw.subrange(0, n + 1) == scope.push(0));
    assert forall|i: int| 0 <= i < n implies raw[i] != 0 by {
        assert(raw.subrange(0, n + 1)[i] == scope.push(0)[i]);
    }
    assert(raw[n] == 0) by {
        assert(raw.subrange(0, n + 1)[n] == scope.push(0)[n]);
    }
    lemma_nul_from(raw, 0, n);
    let second = nul_from(raw, n + 2);
    lemma_ends_in_nul(raw, n + 2);
    let again = memory_key(scope, vis_in(raw), owner_in(raw), record_key_of(raw)->0);
    assert forall|i: int| 0 <= i < n implies again[i] == raw[i] by {
        assert(raw.subrange(0, n + 1)[i] == scope.push(0)[i]);
    }
    assert(again =~= raw);
}

proof fn lemma_rescan_writes(
    s: Shelves,
    scope: Seq<char>,
    found: Seq<Row<MemoryRecord>>,
    code: CodeState,
    now: i64,
    n: int,
    i: int,
)
    requires
        0 <= i < n <= found.len(),
        forall|j: int|
            0 <= j < found.len() && j != i ==> rescan_key(scope, #[trigger] found[j]) != rescan_key(
                scope,
                found[i],
            ),
    ensures
        ({
            let raw = rescan_key(scope, found[i]);
            let after = rescanned(s, scope, found, code, now, n);
            let fact = Some(stamped(code, found[i].value->0, now));
            if archives(code, found[i].value->0, now) {
                !after.live.contains_key(raw) && after.archive.contains_key(raw) && after.archive[raw] == fact
            } else {
                after.live.contains_key(raw) && after.live[raw] == fact
            }
        }),
    decreases n,
{
    if i < n - 1 {
        lemma_rescan_writes(s, scope, found, code, now, n - 1, i);
        assert(rescan_key(scope, found[n - 1]) != rescan_key(scope, found[i]));
    }
}

/// After a rescan a memory that is stale is stamped as such, or moved to the archive where it has been stale for too long; one
/// that is not is left as it was. That holds of every memory of the scope while there are no more than a
/// hundred.
pub proof fn law_rescans_stamp_stale_memories(
    before: IndexDb,
    after: Shelves,
    code: CodeState,
    scope: Seq<char>,
    vis: u8,
    owner: Seq<char>,
    key: Seq<char>,
    now: i64,
)
    requires
        before.wf(),
        nul_free(encode_utf8(scope)),
        nul_free(encode_utf8(owner)),
        before.memory_by_key.rows@.len() <= 100,
        before.live(raw_key(scope, vis, owner, key)) is Some,
        ({
            let found = stale_rows(before.memory_by_key.rows@, scope, code);
            after == rescanned(shelves(before), scope, found, code, now, found.len() as int)
        }),
    ensures
        ({
            let raw = raw_key(scope, vis, owner, key);
            let r = before.live(raw)->0;
            &&& verdict_state(code, r) != VerifyState::Stale ==> after.live.contains_key(raw)
                && after.live[raw] == Some(r@)
            &&& verdict_state(code, r) == VerifyState::Stale && !archives(code, r, now)
                ==> after.live.contains_key(raw) && after.live[raw] == Some(stamped(code, r, now))
            &&& verdict_state(code, r) == VerifyState::Stale && archives(code, r, now)
                ==> !after.live.contains_key(raw) && after.archive.contains_key(raw) && after.archive[raw]
                == Some(stamped(code, r, now))
        }),
{
    let rows = before.memory_by_key.rows@;
    let raw = raw_key(scope, vis, owner, key);
    let s = encode_utf8(scope);
    let r = before.live(raw)->0;
    let prefix = s.push(0);
    assert(before.memory_by_key.map().contains_key(raw));
    let k = key_index(rows, raw);
    assert(rows[k].key@ == raw);
    lemma_row_at(rows, k);
    law_record_key_reads_back(s, vis, encode_utf8(owner), encode_utf8(key));
    vstd::utf8::encode_utf8_valid_utf8(key);
    vstd::utf8::encode_utf8_valid_utf8(owner);
    assert(prefix.is_prefix_of(raw)) by {
        assert(raw.subrange(0, prefix.len() as int) =~= prefix);
    }
    law_bounds_are_the_prefix(prefix, raw);
    let q = in_range_and(prefix, None, crate::governance::any_row());
    let a = under(rows, prefix);
    crate::seqs::lemma_filter_fits(rows, q);
    assert(upto(a, 100) == a);
    let p = stale_row(code);
    let found = stale_rows(rows, scope, code);
    assert(found == a.filter(p));
    assert(is_memory_key(raw)) by {
        lemma_nul_from(raw, 0, s.len() as int);
        lemma_nul_from(raw, s.len() as int + 2, s.len() as int + 2 + encode_utf8(owner).len());
        assert(owner_in(raw) =~= encode_utf8(owner));
    }
    assert forall|j: int| 0 <= j < found.len() implies rescan_key(scope, #[trigger] found[j])
        == found[j].key@ && exists|m: int| 0 <= m < rows.len() && rows[m] == found[j] by {
        let m = lemma_filter_source(a, p, j);
        let o = lemma_filter_source(rows, q, m);
        law_bounds_are_the_prefix(prefix, rows[o].key@);
        lemma_key_again(s, rows[o].key@);
        assert(rows[o] == found[j]);
    }
    if verdict_state(code, r) == VerifyState::Stale {
        let j = lemma_filter_place(rows, q, k);
        assert(p(a[j]));
        let i = lemma_filter_place(a, p, j);
        assert(found[i] == rows[k]);
        assert forall|j: int| 0 <= j < found.len() && j != i implies rescan_key(
            scope,
            #[trigger] found[j],
        ) != rescan_key(scope, found[i]) by {
            lemma_found_differ(rows, q, p, j, i);
        }
        lemma_rescan_writes(shelves(before), scope, found, code, now, found.len() as int, i);
        assert(rescan_key(scope, found[i]) == raw);
    } else {
        assert forall|i: int| 0 <= i < found.len() implies rescan_key(scope, #[trigger] found[i]) != raw by {
            let m = lemma_filter_source(a, p, i);
            let o = lemma_filter_source(rows, q, m);
            assert(rows[o] == found[i]);
            lemma_row_at(rows, o);
            if rows[o].key@ == raw {
                assert(o == k);
            }
        }
        law_rescan_leaves_the_rest(
            shelves(before),
            scope,
            found,
            code,
            now,
            found.len() as int,
            raw,
        );
        assert(shelves(before).live.contains_key(raw));
        assert(shelves(before).live[raw] == Some(r@));
    }
}

proof fn lemma_found_differ(
    rows: Seq<Row<MemoryRecord>>,
    q: spec_fn(Row<MemoryRecord>) -> bool,
    p: spec_fn(Row<MemoryRecord>) -> bool,
    i: int,
    j: int,
)
    requires
        strictly_ascends(rows),
        0 <= i < rows.filter(q).filter(p).len(),
        0 <= j < rows.filter(q).filter(p).len(),
        i != j,
    ensures
        rows.filter(q).filter(p)[i].key@ != rows.filter(q).filter(p)[j].key@,
{
    let a = rows.filter(q);
    let m = lemma_filter_source(a, p, i);
    let n = lemma_filter_source(a, p, j);
    assert(m != n);
    let x = lemma_filter_source(rows, q, m);
    let y = lemma_filter_source(rows, q, n);
    assert(x != y);
    lemma_row_at(rows, x);
    lemma_row_at(rows, y);
}

} // verus!
