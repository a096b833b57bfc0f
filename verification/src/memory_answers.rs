//! What memory tools answer: which memories a listing shows, what an audit finds and what it leaves.
use vstd::prelude::*;
use vstd::utf8::encode_utf8;

use crate::answers::{lemma_filter_place, lemma_filter_source};
use crate::audit::{
    answers, file_reason, file_reasons, has_symbol, present_hash, symbol_reason, symbol_reasons,
    verdict_reasons, verdict_state, CodeState,
};
use crate::governance::{
    audit_cap, chosen, halved, is_tier_audit, left, pickable, reports, under, upto, EntryOutcome,
    MemoryAuditResponse,
};
use crate::keys::{
    law_bounds_are_the_prefix, law_record_key_reads_back, memory_key, memory_prefix, nul_free,
};
use crate::keyspace::{in_range, in_range_and, key_index, lemma_row_at};
use crate::memory::{
    is_listed, listed, listing, preview_of, raw_key, shows_page, IndexDb, MemoryRecord, SymbolRef,
    VerifyState, WireMemoryEntry,
};
use crate::model::{kind_name, lemma_table_at, paths_ascend, MappedFile, RelPath};
use crate::text::{lemma_lex_transitive, lex_less, texts};

verus! {

// ─── Listings ────────────────────────────────────────────────────────────────

proof fn lemma_in_namespace(k: Seq<u8>, prefix: Seq<u8>, from: Option<Seq<u8>>)
    requires
        from is Some ==> prefix.is_prefix_of(from->0),
    ensures
        in_range(k, prefix, from) <==> prefix.is_prefix_of(k) && (from is Some ==> lex_less(
            from->0,
            k,
        )),
{
    law_bounds_are_the_prefix(prefix, k);
    if from is Some {
        let c = from->0;
        law_bounds_are_the_prefix(prefix, c);
        if lex_less(c, k) && lex_less(k, prefix) {
            lemma_lex_transitive(c, k, prefix);
        }
    }
}

/// A listing shows memories as they are. Each entry is a live memory of the scope, visibility and owner
/// asked about, whose key starts with the front asked for and which has the tag asked for, where one is.
/// Its tags and times are those of the memory, and so is its value, unless that is longer than two hundred
/// characters: then it is the first two hundred of them and an ellipsis.
pub proof fn law_listings_show_live_memories(
    idx: IndexDb,
    scope: Seq<char>,
    vis: u8,
    owner: Seq<char>,
    from: Option<Seq<u8>>,
    key_prefix: Seq<char>,
    tag: Option<Seq<char>>,
    limit: int,
    entries: Seq<WireMemoryEntry>,
    truncated: bool,
    next_cursor: Option<Vec<u8>>,
    i: int,
)
    requires
        idx.wf(),
        nul_free(encode_utf8(scope)),
        nul_free(encode_utf8(owner)),
        from is Some ==> memory_prefix(encode_utf8(scope), vis, encode_utf8(owner)).is_prefix_of(
            from->0,
        ),
        shows_page(
            entries,
            truncated,
            next_cursor,
            listing(
                idx.memory_by_key.rows@,
                memory_prefix(encode_utf8(scope), vis, encode_utf8(owner)),
                from,
                key_prefix,
                tag,
            ),
            limit,
        ),
        0 <= i < entries.len(),
    ensures
        idx.live(raw_key(scope, vis, owner, entries[i].key@)) is Some,
        from is Some ==> lex_less(from->0, raw_key(scope, vis, owner, entries[i].key@)),
        encode_utf8(key_prefix).is_prefix_of(encode_utf8(entries[i].key@)),
        tag is Some ==> exists|t: int|
            0 <= t < entries[i].tags@.len() && (#[trigger] entries[i].tags@[t])@ == tag->0,
        ({
            let r = idx.live(raw_key(scope, vis, owner, entries[i].key@))->0;
            let e = entries[i];
            &&& texts(e.tags@) == texts(r.tags@)
            &&& e.created_at == r.created_at
            &&& e.updated_at == r.updated_at
            &&& r.value@.len() <= 200 ==> e.value@ == r.value@
            &&& r.value@.len() > 200 ==> e.value@.len() == 201 && e.value@[200] == '…' && e.value@.take(
                200,
            ) == r.value@.take(200)
        }),
{
    let rows = idx.memory_by_key.rows@;
    let prefix = memory_prefix(encode_utf8(scope), vis, encode_utf8(owner));
    let p = in_range_and(prefix, from, listed(key_prefix, tag));
    let k = lemma_filter_source(rows, p, i);
    let row = rows[k];
    let e = entries[i];
    lemma_row_at(rows, k);
    lemma_in_namespace(row.key@, prefix, from);
    let key = row.key@.skip(prefix.len() as int);
    assert(row.key@ =~= prefix + key) by {
        assert(row.key@.subrange(0, prefix.len() as int) == prefix);
        assert(row.key@ =~= row.key@.subrange(0, prefix.len() as int) + key);
    }
    assert(row.key@ == memory_key(encode_utf8(scope), vis, encode_utf8(owner), key));
    law_record_key_reads_back(encode_utf8(scope), vis, encode_utf8(owner), key);
    assert(key == encode_utf8(e.key@));
    assert(raw_key(scope, vis, owner, e.key@) == row.key@);
    assert(is_listed(row, key_prefix, tag));
    let r = row.value->0;
    if tag is Some {
        let t = texts(r.tags@).index_of(tag->0);
        assert(texts(e.tags@)[t] == e.tags@[t]@);
    }
    if r.value@.len() > 200 {
        assert(preview_of(r.value@).take(200) =~= r.value@.take(200));
    }
}

/// A listing misses nothing: unless it says that it is cut short, it has an entry for every live memory of
/// the scope, visibility and owner whose key starts with the front asked for and which has the tag asked
/// for, where one is. The result is the entry's place.
pub proof fn law_listings_miss_nothing(
    idx: IndexDb,
    scope: Seq<char>,
    vis: u8,
    owner: Seq<char>,
    key: Seq<char>,
    key_prefix: Seq<char>,
    tag: Option<Seq<char>>,
    limit: int,
    entries: Seq<WireMemoryEntry>,
    next_cursor: Option<Vec<u8>>,
) -> (i: int)
    requires
        idx.wf(),
        nul_free(encode_utf8(scope)),
        nul_free(encode_utf8(owner)),
        shows_page(
            entries,
            false,
            next_cursor,
            listing(
                idx.memory_by_key.rows@,
                memory_prefix(encode_utf8(scope), vis, encode_utf8(owner)),
                None,
                key_prefix,
                tag,
            ),
            limit,
        ),
        idx.live(raw_key(scope, vis, owner, key)) is Some,
        encode_utf8(key_prefix).is_prefix_of(encode_utf8(key)),
        tag is Some ==> exists|t: int|
            0 <= t < idx.live(raw_key(scope, vis, owner, key))->0.tags@.len() && (
            #[trigger] idx.live(raw_key(scope, vis, owner, key))->0.tags@[t])@ == tag->0,
    ensures
        0 <= i < entries.len(),
        encode_utf8(entries[i].key@) == encode_utf8(key),
{
    let rows = idx.memory_by_key.rows@;
    let raw = raw_key(scope, vis, owner, key);
    let prefix = memory_prefix(encode_utf8(scope), vis, encode_utf8(owner));
    let p = in_range_and(prefix, None, listed(key_prefix, tag));
    assert(idx.memory_by_key.map().contains_key(raw));
    let k = key_index(rows, raw);
    assert(rows[k].key@ == raw);
    lemma_row_at(rows, k);
    law_record_key_reads_back(encode_utf8(scope), vis, encode_utf8(owner), encode_utf8(key));
    vstd::utf8::encode_utf8_valid_utf8(key);
    assert(prefix.is_prefix_of(raw)) by {
        assert(raw.subrange(0, prefix.len() as int) =~= prefix);
    }
    lemma_in_namespace(raw, prefix, None);
    if tag is Some {
        let r = idx.live(raw)->0;
        let t = choose|t: int|
            0 <= t < idx.live(raw_key(scope, vis, owner, key))->0.tags@.len() && (
            #[trigger] idx.live(raw_key(scope, vis, owner, key))->0.tags@[t])@ == tag->0;
        assert(texts(r.tags@)[t] == tag->0);
    }
    assert(p(rows[k]));
    lemma_filter_place(rows, p, k)
}

// ─── Verdicts ────────────────────────────────────────────────────────────────

/// A file of the code map has this path.
pub open spec fn mapped(files: Seq<MappedFile>, path: Seq<u8>) -> bool {
    exists|f: int| 0 <= f < files.len() && (#[trigger] files[f]).path@ == path
}

/// A reference to a symbol still finds it: file `f` has the path, and its symbol `s` the name and, where
/// one is given, the kind.
pub open spec fn finds(files: Seq<MappedFile>, r: SymbolRef, f: int, s: int) -> bool {
    &&& 0 <= f < files.len()
    &&& files[f].path@ == r.path@
    &&& 0 <= s < files[f].map.symbols@.len()
    &&& files[f].map.symbols@[s].name@ == r.name@
    &&& r.kind is Some ==> kind_name(files[f].map.symbols@[s].kind) == r.kind->0@
}

/// A reference to a symbol holds no more: nothing finds it, or its body has a fingerprint now that is not
/// the one it had.
pub open spec fn is_broken(code: CodeState, r: SymbolRef) -> bool {
    ||| !exists|f: int, s: int| #[trigger] finds(code.files@, r, f, s)
    ||| r.structural_hash is Some && exists|f: int|
        #![trigger code.files@[f]]
        0 <= f < code.files@.len() && code.files@[f].path@ == r.path@ && {
            let now = present_hash(code, code.files@[f].map, r);
            now is Some && now->0 != r.structural_hash->0@
        }
}

proof fn lemma_broken(code: CodeState, r: SymbolRef)
    requires
        paths_ascend(code.files@),
    ensures
        is_broken(code, r) <==> symbol_reason(code, r) is Some,
{
    let files = code.files@;
    if crate::model::holds_path(files, r.path@) {
        let f = crate::model::path_index(files, r.path@);
        lemma_table_at(files, f);
        let symbols = files[f].map.symbols@;
        if has_symbol(symbols, r) {
            let s = choose|s: int| 0 <= s < symbols.len() && answers(#[trigger] symbols[s], r);
            assert(finds(files, r, f, s));
        } else {
            assert forall|g: int, s: int| !#[trigger] finds(files, r, g, s) by {
                if finds(files, r, g, s) {
                    lemma_table_at(files, g);
                    assert(g == f);
                    assert(answers(symbols[s], r));
                }
            }
        }
        assert forall|g: int| 0 <= g < files.len() && (#[trigger] files[g]).path@ == r.path@ implies g
            == f by {
            lemma_table_at(files, g);
        }
    } else {
        assert forall|g: int, s: int| !#[trigger] finds(files, r, g, s) by {
            if finds(files, r, g, s) {
                assert(files[g].path@ == r.path@);
            }
        }
    }
}

proof fn lemma_file_faults(code: CodeState, files: Seq<RelPath>, n: int)
    requires
        0 <= n <= files.len(),
    ensures
        file_reasons(code, files, n).len() > 0 <==> exists|i: int|
            0 <= i < n && !mapped(code.files@, (#[trigger] files[i])@),
    decreases n,
{
    if n > 0 {
        lemma_file_faults(code, files, n - 1);
        let p = files[n - 1]@;
        assert(mapped(code.files@, p) <==> file_reason(code, p) is None);
    }
}

proof fn lemma_symbol_faults(code: CodeState, refs: Seq<SymbolRef>, n: int)
    requires
        paths_ascend(code.files@),
        0 <= n <= refs.len(),
    ensures
        symbol_reasons(code, refs, n).len() > 0 <==> exists|i: int|
            0 <= i < n && is_broken(code, #[trigger] refs[i]),
    decreases n,
{
    if n > 0 {
        lemma_symbol_faults(code, refs, n - 1);
        lemma_broken(code, refs[n - 1]);
    }
}

/// A memory is stale exactly when a file it rests on is not in the code map, or a symbol it rests on is no
/// longer found or has another body. It is verified exactly when it rests on a file or a symbol and none
/// of them fails, and unverified where it rests on neither.
pub proof fn law_verdicts(code: CodeState, r: MemoryRecord)
    requires
        paths_ascend(code.files@),
    ensures
        verdict_state(code, r) == VerifyState::Stale <==> (exists|i: int|
            0 <= i < r.provenance.files@.len() && !mapped(
                code.files@,
                (#[trigger] r.provenance.files@[i])@,
            )) || (exists|i: int|
            0 <= i < r.provenance.symbols@.len() && is_broken(
                code,
                #[trigger] r.provenance.symbols@[i],
            )),
        verdict_state(code, r) == VerifyState::Unverified <==> r.provenance.files@.len() == 0
            && r.provenance.symbols@.len() == 0,
{
    lemma_file_faults(code, r.provenance.files@, r.provenance.files@.len() as int);
    lemma_symbol_faults(code, r.provenance.symbols@, r.provenance.symbols@.len() as int);
}

/// Every verdict but a good one has a reason: what is stale says why, and so does what rests on nothing.
pub proof fn law_bad_verdicts_say_why(code: CodeState, r: MemoryRecord)
    ensures
        verdict_state(code, r) == VerifyState::Stale ==> verdict_reasons(code, r).len() > 0,
        r.provenance.files@.len() == 0 && r.provenance.symbols@.len() == 0
            && r.provenance.commands@.len() == 0 ==> verdict_reasons(code, r) == seq![
            "no provenance"@,
        ],
        verdict_state(code, r) != VerifyState::Stale && r.provenance.commands@.len() == 0 && (
        r.provenance.files@.len() > 0 || r.provenance.symbols@.len() > 0) ==> verdict_reasons(
            code,
            r,
        ).len() == 0,
{
}

// ─── What an audit leaves ────────────────────────────────────────────────────

/// What an audit leaves of a memory, and what it reports. A dry run, and an audit of an archived memory,
/// leave it as it was and archive nothing. Any other one keeps what the memory says and rests on and puts
/// the verdict on it. A stale memory loses half its importance, and is archived where more than ninety
/// days have passed since it was last found in order, or since its last update where it never was
/// looked at. The time of the audit goes on it, unless it was stale before and still is.
pub proof fn law_what_an_audit_leaves(
    out: EntryOutcome,
    key: Seq<char>,
    code: CodeState,
    r: MemoryRecord,
    read_only: bool,
    now: i64,
)
    requires
        reports(out.audit_result, key, code, r, read_only, now),
        out.record@ == left(code, r, read_only, now),
    ensures
        read_only ==> out.record@ == r@ && !out.audit_result.archived,
        out.record.value@ == r.value@,
        texts(out.record.tags@) == texts(r.tags@),
        out.record.created_at == r.created_at,
        out.record.updated_at == r.updated_at,
        out.record@.files == r@.files,
        out.record@.symbols == r@.symbols,
        out.record@.commands == r@.commands,
        out.audit_result.key@ == key,
        !read_only ==> out.record.verified == out.audit_result.state,
        !read_only && out.audit_result.state != VerifyState::Stale ==> out.record.importance_bits
            == r.importance_bits && out.record.last_verified == now && !out.audit_result.archived,
        !read_only && out.audit_result.state == VerifyState::Stale ==> {
            &&& out.record.importance_bits == halved(r.importance_bits)
            &&& out.record.last_verified == if r.verified == VerifyState::Stale && r.last_verified > 0 {
                r.last_verified
            } else {
                now
            }
            &&& r.last_verified > 0 ==> (out.audit_result.archived <==> now - r.last_verified
                > 90 * 24 * 60 * 60 * 1_000_000)
            &&& r.last_verified <= 0 ==> (out.audit_result.archived <==> now - r.updated_at > 90 * 24
                * 60 * 60 * 1_000_000)
        },
{
    assert(out.record@.value == r@.value);
    assert(out.record@.tags == r@.tags);
    assert(out.record@.created_at == r@.created_at);
    assert(out.record@.verified == out.record.verified);
}

/// To lose half the importance is to halve the number: its sign stays; where its exponent can be lowered
/// that is all that happens; and among the least numbers the result is half the bits, rounded to even. What
/// is no finite number stays.
pub proof fn law_importance_is_halved(bits: u32)
    ensures
        ({
            let h = halved(bits);
            let m = bits % 0x8000_0000;
            let n = h % 0x8000_0000;
            &&& h >= 0x8000_0000 <==> bits >= 0x8000_0000
            &&& m >= 0x7f80_0000 ==> h == bits
            &&& 0x0100_0000 <= m < 0x7f80_0000 ==> n + 0x0080_0000 == m
            &&& m < 0x0100_0000 && m % 2 == 0 ==> 2 * n == m
            &&& m < 0x0100_0000 && m % 2 == 1 ==> (2 * n == m + 1 || 2 * n == m - 1) && n % 2 == 0
        }),
{
}

/// An audit of a tier reports on memories of the tier. For each live memory there is, as long as there are
/// no more rows in the tier than an audit looks at, a result under its key with its verdict. The result is
/// its place.
pub proof fn law_every_memory_is_audited(
    before: IndexDb,
    after: IndexDb,
    code: CodeState,
    scope: Seq<char>,
    vis: u8,
    owner: Seq<char>,
    archived: bool,
    dry_run: bool,
    limit: int,
    now: i64,
    out: MemoryAuditResponse,
    key: Seq<char>,
) -> (i: int)
    requires
        before.wf(),
        nul_free(encode_utf8(scope)),
        nul_free(encode_utf8(owner)),
        is_tier_audit(
            before,
            after,
            code,
            memory_prefix(encode_utf8(scope), vis, encode_utf8(owner)),
            archived,
            dry_run,
            limit,
            now,
            out,
        ),
        before.memory_by_key.rows@.len() <= limit,
        before.live(raw_key(scope, vis, owner, key)) is Some,
    ensures
        0 <= i < out.results@.len(),
        encode_utf8(out.results@[i].key@) == encode_utf8(key),
        out.results@[i].state == verdict_state(code, before.live(raw_key(scope, vis, owner, key))->0),
        dry_run ==> !out.results@[i].archived,
{
    let rows = before.memory_by_key.rows@;
    let raw = raw_key(scope, vis, owner, key);
    let prefix = memory_prefix(encode_utf8(scope), vis, encode_utf8(owner));
    assert(before.memory_by_key.map().contains_key(raw));
    let k = key_index(rows, raw);
    assert(rows[k].key@ == raw);
    lemma_row_at(rows, k);
    law_record_key_reads_back(encode_utf8(scope), vis, encode_utf8(owner), encode_utf8(key));
    vstd::utf8::encode_utf8_valid_utf8(key);
    assert(prefix.is_prefix_of(raw)) by {
        assert(raw.subrange(0, prefix.len() as int) =~= prefix);
    }
    lemma_in_namespace(raw, prefix, None);
    let q = in_range_and(prefix, None, crate::governance::any_row());
    let a = under(rows, prefix);
    let j = lemma_filter_place(rows, q, k);
    crate::seqs::lemma_filter_fits(rows, q);
    assert(a.len() <= limit);
    assert(upto(a, audit_cap(limit)) == a);
    let b = a.filter(pickable(true));
    let i = lemma_filter_place(a, pickable(true), j);
    crate::seqs::lemma_filter_fits(a, pickable(true));
    let live = chosen(rows, prefix, true, limit, audit_cap(limit));
    assert(live == b);
    assert(live[i] == rows[k]);
    assert(out.results@[0 + i] == out.results@[i]);
    i
}

} // verus!
