//! The byte keys of the index keyspaces. Keys order rows, and a key is read back into the parts it
//! was made of.
use vstd::prelude::*;
use vstd::utf8::{encode_utf8, encode_utf8_valid_utf8};

use crate::model::RelPath;
use crate::text::{copy_bytes, lemma_encoding_injective, lex_less, utf8_text};

verus! {

/// Visibility byte of the memory tier that every agent of a repository shares.
pub const MEMORY_VIS_GROUP: u8 = 0;

/// Visibility byte of the memory tier that belongs to one agent.
pub const MEMORY_VIS_INDIVIDUAL: u8 = 1;

/// Kind byte of a proposed memory.
pub const PROPOSAL_KIND_MEMORY: u8 = 1;

/// Kind byte of a proposed skill.
pub const PROPOSAL_KIND_SKILL: u8 = 2;

/// Kind byte of the marker that a rejected proposal leaves behind.
pub const PROPOSAL_KIND_TOMBSTONE: u8 = 3;

// ─── Big-endian integers ─────────────────────────────────────────────────────

/// The two bytes of `n`, most significant first.
pub open spec fn be2(n: int) -> Seq<u8> {
    seq![(n / 256) as u8, (n % 256) as u8]
}

/// The four bytes of `n`, most significant first.
pub open spec fn be4(n: u32) -> Seq<u8> {
    seq![
        (n / 16777216) as u8,
        ((n / 65536) % 256) as u8,
        ((n / 256) % 256) as u8,
        (n % 256) as u8,
    ]
}

/// The number whose four bytes stand in `b` from `at` on.
pub open spec fn be4_at(b: Seq<u8>, at: int) -> int {
    b[at] as int * 16777216 + b[at + 1] as int * 65536 + b[at + 2] as int * 256 + b[at + 3] as int
}

pub(crate) fn push_be4(out: &mut Vec<u8>, n: u32)
    ensures
        final(out)@ == old(out)@ + be4(n),
{
    let ghost before = out@;
    out.push((n / 16777216) as u8);
    out.push(((n / 65536) % 256) as u8);
    out.push(((n / 256) % 256) as u8);
    out.push((n % 256) as u8);
    assert(out@ =~= before + be4(n));
}

proof fn lemma_be4(b0: u8, b1: u8, b2: u8, b3: u8, n: u32)
    requires
        n == b0 as int * 16777216 + b1 as int * 65536 + b2 as int * 256 + b3 as int,
    ensures
        be4(n) == seq![b0, b1, b2, b3],
{
    assert(n / 16777216 == b0);
    assert(n / 65536 == b0 as int * 256 + b1 as int);
    assert(n / 256 == b0 as int * 65536 + b1 as int * 256 + b2 as int);
    assert(be4(n) =~= seq![b0, b1, b2, b3]);
}

fn read_be4(b: &[u8], at: usize) -> (n: u32)
    requires
        at + 4 <= b@.len(),
    ensures
        be4(n) == b@.subrange(at as int, at + 4),
{
    let n: u32 = b[at] as u32 * 16777216 + b[at + 1] as u32 * 65536 + b[at + 2] as u32 * 256 + b[at
        + 3] as u32;
    proof {
        lemma_be4(b@[at as int], b@[at + 1], b@[at + 2], b@[at + 3], n);
        assert(b@.subrange(at as int, at + 4) =~= seq![
            b@[at as int],
            b@[at + 1],
            b@[at + 2],
            b@[at + 3],
        ]);
    }
    n
}

/// Append `b` to `out`.
pub fn push_all(out: &mut Vec<u8>, b: &[u8])
    ensures
        final(out)@ == old(out)@ + b@,
{
    let ghost before = out@;
    let mut i: usize = 0;
    while i < b.len()
        invariant
            i <= b.len(),
            out@ == before + b@.take(i as int),
        decreases b.len() - i,
    {
        out.push(b[i]);
        i += 1;
        assert(out@ =~= before + b@.take(i as int));
    }
    assert(b@.take(i as int) =~= b@);
}

// ─── Calls by callee ─────────────────────────────────────────────────────────

/// The longest callee, in bytes, that a call key can hold.
pub const MAX_CALLEE_BYTES: usize = 65535;

/// The key of a call site: the callee's length and bytes, the path, and the start byte.
pub open spec fn call_key(callee: Seq<char>, rel: Seq<u8>, start: u32) -> Seq<u8> {
    be2(encode_utf8(callee).len() as int) + encode_utf8(callee) + rel + be4(start)
}

/// Whether a callee is short enough for a call key.
pub open spec fn callee_fits(callee: Seq<char>) -> bool {
    encode_utf8(callee).len() <= MAX_CALLEE_BYTES
}

/// The key of a call site, or `None` for a callee that is too long to be indexed.
pub fn call_by_callee(callee: &str, rel: &RelPath, start: u32) -> (key: Option<Vec<u8>>)
    ensures
        match key {
            Some(k) => callee_fits(callee@) && k@ == call_key(callee@, rel@, start),
            None => !callee_fits(callee@),
        },
{
    let bytes = callee.as_bytes();
    if bytes.len() > MAX_CALLEE_BYTES {
        return None;
    }
    let mut key: Vec<u8> = Vec::new();
    key.push((bytes.len() / 256) as u8);
    key.push((bytes.len() % 256) as u8);
    assert(key@ =~= be2(bytes@.len() as int));
    push_all(&mut key, bytes);
    push_all(&mut key, rel.bytes.as_slice());
    push_be4(&mut key, start);
    Some(key)
}

/// The parts of a call key.
pub struct CallKeyParts {
    pub callee: String,
    pub rel: RelPath,
    pub start: u32,
}

proof fn lemma_call_key_parts(callee: Seq<char>, rel: Seq<u8>, start: u32)
    requires
        callee_fits(callee),
    ensures
        ({
            let k = call_key(callee, rel, start);
            let n = encode_utf8(callee).len() as int;
            &&& k.len() == 6 + n + rel.len()
            &&& k[0] as int * 256 + k[1] as int == n
            &&& k.subrange(2, 2 + n) == encode_utf8(callee)
            &&& k.subrange(2 + n, k.len() - 4) == rel
            &&& be4_at(k, k.len() - 4) == start
        }),
{
    let k = call_key(callee, rel, start);
    let n = encode_utf8(callee).len() as int;
    assert(k.subrange(2, 2 + n) =~= encode_utf8(callee));
    assert(k.subrange(2 + n, k.len() - 4) =~= rel);
    assert(k.subrange(k.len() - 4, k.len() as int) =~= be4(start));
    assert(k[k.len() - 4] == be4(start)[0]);
    assert(k[k.len() - 3] == be4(start)[1]);
    assert(k[k.len() - 2] == be4(start)[2]);
    assert(k[k.len() - 1] == be4(start)[3]);
}

/// A call key names its callee, path and position: no other call site has it.
pub proof fn law_call_key_injective(
    c1: Seq<char>,
    r1: Seq<u8>,
    s1: u32,
    c2: Seq<char>,
    r2: Seq<u8>,
    s2: u32,
)
    requires
        callee_fits(c1),
        callee_fits(c2),
        call_key(c1, r1, s1) == call_key(c2, r2, s2),
    ensures
        c1 == c2 && r1 == r2 && s1 == s2,
{
    lemma_call_key_parts(c1, r1, s1);
    lemma_call_key_parts(c2, r2, s2);
    lemma_encoding_injective(c1, c2);
}

/// Read a call key back into its parts; `None` for bytes that are no call key.
pub fn parse_call_by_callee(key: &[u8]) -> (parts: Option<CallKeyParts>)
    ensures
        match parts {
            Some(p) => callee_fits(p.callee@) && key@ == call_key(p.callee@, p.rel@, p.start),
            None => forall|c: Seq<char>, r: Seq<u8>, s: u32|
                callee_fits(c) ==> #[trigger] call_key(c, r, s) != key@,
        },
{
    proof {
        assert forall|c: Seq<char>, r: Seq<u8>, s: u32|
            callee_fits(c) && #[trigger] call_key(c, r, s) == key@ implies key@.len() >= 6 + (
        key@[0] as int * 256 + key@[1] as int) && vstd::utf8::valid_utf8(
            key@.subrange(2, 2 + (key@[0] as int * 256 + key@[1] as int)),
        ) by {
            lemma_call_key_parts(c, r, s);
            encode_utf8_valid_utf8(c);
        }
    }
    if key.len() < 6 {
        return None;
    }
    let n: usize = key[0] as usize * 256 + key[1] as usize;
    if key.len() < 6 + n {
        return None;
    }
    let end: usize = key.len() - 4;
    let callee = match utf8_text(vstd::slice::slice_subrange(key, 2, 2 + n)) {
        Some(t) => t,
        None => {
            return None;
        },
    };
    let rel = RelPath { bytes: copy_bytes(vstd::slice::slice_subrange(key, 2 + n, end)) };
    let start: u32 = read_be4(key, end);
    proof {
        let name = key@.subrange(2, 2 + n);
        assert(name == encode_utf8(callee@));
        assert(be2(n as int) =~= key@.subrange(0, 2));
        assert(key@ =~= key@.subrange(0, 2) + name + key@.subrange(2 + n, end as int)
            + key@.subrange(end as int, end + 4));
        assert(key@ == call_key(callee@, rel@, start));
    }
    Some(CallKeyParts { callee, rel, start })
}

// ─── Memory and proposal keys ────────────────────────────────────────────────

/// Whether `b` is free of NUL bytes.
pub open spec fn nul_free(b: Seq<u8>) -> bool {
    forall|i: int| 0 <= i < b.len() ==> b[i] != 0
}

/// The front that the keys of one memory namespace share.
pub open spec fn memory_prefix(scope: Seq<u8>, vis: u8, owner: Seq<u8>) -> Seq<u8> {
    scope.push(0).push(vis) + owner.push(0)
}

/// The key of a memory record.
pub open spec fn memory_key(scope: Seq<u8>, vis: u8, owner: Seq<u8>, key: Seq<u8>) -> Seq<u8> {
    memory_prefix(scope, vis, owner) + key
}

/// The front that the proposal keys of one scope and kind share.
pub open spec fn proposal_prefix(scope: Seq<u8>, kind: u8) -> Seq<u8> {
    scope.push(0).push(kind)
}

/// The key of a proposal.
pub open spec fn proposal_key(scope: Seq<u8>, kind: u8, id: Seq<u8>) -> Seq<u8> {
    proposal_prefix(scope, kind) + id
}

/// The front that the keys of one memory namespace share.
pub fn memory_by_key_ns_prefix(scope: &str, vis: u8, owner: &str) -> (p: Vec<u8>)
    ensures
        p@ == memory_prefix(encode_utf8(scope@), vis, encode_utf8(owner@)),
{
    let mut p: Vec<u8> = copy_bytes(scope.as_bytes());
    p.push(0);
    p.push(vis);
    push_all(&mut p, owner.as_bytes());
    p.push(0);
    assert(p@ =~= memory_prefix(encode_utf8(scope@), vis, encode_utf8(owner@)));
    p
}

/// The key of a memory record.
pub fn memory_by_key(scope: &str, vis: u8, owner: &str, key: &str) -> (k: Vec<u8>)
    ensures
        k@ == memory_key(encode_utf8(scope@), vis, encode_utf8(owner@), encode_utf8(key@)),
{
    let mut k = memory_by_key_ns_prefix(scope, vis, owner);
    push_all(&mut k, key.as_bytes());
    k
}

/// The front that the proposal keys of one scope and kind share.
pub fn proposal_ns_prefix(scope: &str, kind: u8) -> (p: Vec<u8>)
    ensures
        p@ == proposal_prefix(encode_utf8(scope@), kind),
{
    let mut p: Vec<u8> = copy_bytes(scope.as_bytes());
    p.push(0);
    p.push(kind);
    p
}

/// The key of a proposal.
pub fn proposal_by_id(scope: &str, kind: u8, id: &str) -> (k: Vec<u8>)
    ensures
        k@ == proposal_key(encode_utf8(scope@), kind, encode_utf8(id@)),
{
    let mut k = proposal_ns_prefix(scope, kind);
    push_all(&mut k, id.as_bytes());
    k
}

/// The position of the first NUL of `b` from `at` on, or the length of `b`.
pub open spec fn nul_from(b: Seq<u8>, at: int) -> int
    decreases b.len() - at,
{
    if at < 0 || at >= b.len() {
        b.len() as int
    } else if b[at] == 0 {
        at
    } else {
        nul_from(b, at + 1)
    }
}

fn find_nul(b: &[u8], from: usize) -> (at: usize)
    requires
        from <= b@.len(),
    ensures
        at == nul_from(b@, from as int),
        from <= at <= b@.len(),
        at < b@.len() ==> b@[at as int] == 0,
        forall|i: int| from <= i < at ==> b@[i] != 0,
{
    let mut i: usize = from;
    while i < b.len() && b[i] != 0
        invariant
            from <= i <= b.len(),
            nul_from(b@, from as int) == nul_from(b@, i as int),
            forall|j: int| from <= j < i ==> b@[j] != 0,
        decreases b.len() - i,
    {
        i += 1;
    }
    i
}

pub(crate) proof fn lemma_nul_from(b: Seq<u8>, at: int, to: int)
    requires
        0 <= at <= to < b.len(),
        b[to] == 0,
        forall|i: int| at <= i < to ==> b[i] != 0,
    ensures
        nul_from(b, at) == to,
    decreases to - at,
{
    if at < to {
        lemma_nul_from(b, at + 1, to);
    }
}

/// The record key inside a raw memory key: what follows the scope, the visibility byte and the
/// owner. `None` where the bytes do not have that shape.
pub open spec fn record_key_of(raw: Seq<u8>) -> Option<Seq<u8>> {
    let first = nul_from(raw, 0);
    let second = nul_from(raw, first + 2);
    if first + 2 > raw.len() || second >= raw.len() {
        None
    } else {
        Some(raw.skip(second + 1))
    }
}

/// A record key is read back out of the raw key it was put into, provided that neither the scope
/// nor the owner holds a NUL byte.
pub proof fn law_record_key_reads_back(scope: Seq<u8>, vis: u8, owner: Seq<u8>, key: Seq<u8>)
    requires
        nul_free(scope),
        nul_free(owner),
    ensures
        record_key_of(memory_key(scope, vis, owner, key)) == Some(key),
{
    let raw = memory_key(scope, vis, owner, key);
    lemma_nul_from(raw, 0, scope.len() as int);
    lemma_nul_from(raw, scope.len() as int + 2, scope.len() as int + 2 + owner.len());
    assert(raw.skip(scope.len() as int + 2 + owner.len() + 1) =~= key);
}

/// Memories that differ in scope, visibility, owner or key lie under different raw keys, provided
/// that no scope and no owner holds a NUL byte.
pub proof fn law_memory_key_injective(
    scope1: Seq<u8>,
    vis1: u8,
    owner1: Seq<u8>,
    key1: Seq<u8>,
    scope2: Seq<u8>,
    vis2: u8,
    owner2: Seq<u8>,
    key2: Seq<u8>,
)
    requires
        nul_free(scope1),
        nul_free(owner1),
        nul_free(scope2),
        nul_free(owner2),
        memory_key(scope1, vis1, owner1, key1) == memory_key(scope2, vis2, owner2, key2),
    ensures
        scope1 == scope2,
        vis1 == vis2,
        owner1 == owner2,
        key1 == key2,
{
    let a = memory_key(scope1, vis1, owner1, key1);
    let b = memory_key(scope2, vis2, owner2, key2);
    lemma_nul_from(a, 0, scope1.len() as int);
    lemma_nul_from(b, 0, scope2.len() as int);
    lemma_nul_from(a, scope1.len() as int + 2, scope1.len() as int + 2 + owner1.len());
    lemma_nul_from(b, scope2.len() as int + 2, scope2.len() as int + 2 + owner2.len());
    assert(scope1 =~= a.take(scope1.len() as int));
    assert(scope2 =~= b.take(scope2.len() as int));
    assert(a[scope1.len() as int + 1] == vis1);
    assert(b[scope2.len() as int + 1] == vis2);
    let n = scope1.len() as int + 2;
    assert(owner1 =~= a.subrange(n, n + owner1.len()));
    assert(owner2 =~= b.subrange(n, n + owner2.len()));
    assert(key1 =~= a.skip(n + owner1.len() + 1));
    assert(key2 =~= b.skip(n + owner2.len() + 1));
}

/// The record key inside a raw memory key, as text. `None` where the bytes do not have the shape
/// of a memory key, or the record key is not UTF-8.
pub fn parse_memory_key_only(raw: &[u8]) -> (key: Option<String>)
    ensures
        match key {
            Some(k) => record_key_of(raw@) == Some(encode_utf8(k@)),
            None => record_key_of(raw@) is None || !vstd::utf8::valid_utf8(record_key_of(raw@)->0),
        },
{
    let first: usize = find_nul(raw, 0);
    if raw.len() - first < 2 {
        return None;
    }
    let second: usize = find_nul(raw, first + 2);
    if second >= raw.len() {
        return None;
    }
    let tail = vstd::slice::slice_subrange(raw, second + 1, raw.len());
    assert(tail@ =~= raw@.skip(second + 1));
    utf8_text(tail)
}

/// The front that all memory keys of one scope share.
pub fn memory_scope_prefix(scope: &str) -> (p: Vec<u8>)
    ensures
        p@ == encode_utf8(scope@).push(0),
{
    let mut p = copy_bytes(scope.as_bytes());
    p.push(0);
    p
}

/// The visibility byte inside a raw memory key.
pub open spec fn vis_in(raw: Seq<u8>) -> u8 {
    raw[nul_from(raw, 0) + 1]
}

/// The owner inside a raw memory key.
pub open spec fn owner_in(raw: Seq<u8>) -> Seq<u8> {
    let first = nul_from(raw, 0);
    raw.subrange(first + 2, nul_from(raw, first + 2))
}

/// The parts of a memory key that lie in its scope.
#[derive(Debug)]
pub struct MemoryKeyParts {
    pub vis: u8,
    pub owner: String,
    pub key: String,
}

/// Whether bytes are a memory key whose owner and record key are text.
pub open spec fn is_memory_key(raw: Seq<u8>) -> bool {
    &&& record_key_of(raw) is Some
    &&& vstd::utf8::valid_utf8(owner_in(raw))
    &&& vstd::utf8::valid_utf8(record_key_of(raw)->0)
}

/// Split a memory key.
pub fn parse_memory_by_key(raw: &[u8]) -> (parts: Option<MemoryKeyParts>)
    ensures
        match parts {
            Some(p) => is_memory_key(raw@) && p.vis == vis_in(raw@) && encode_utf8(p.owner@)
                == owner_in(raw@) && record_key_of(raw@) == Some(encode_utf8(p.key@)),
            None => !is_memory_key(raw@),
        },
{
    let first: usize = find_nul(raw, 0);
    if raw.len() - first < 2 {
        return None;
    }
    let second: usize = find_nul(raw, first + 2);
    if second >= raw.len() {
        return None;
    }
    let owner = match utf8_text(vstd::slice::slice_subrange(raw, first + 2, second)) {
        Some(o) => o,
        None => {
            return None;
        },
    };
    let key = match parse_memory_key_only(raw) {
        Some(k) => k,
        None => {
            return None;
        },
    };
    proof {
        vstd::utf8::encode_utf8_valid_utf8(owner@);
        vstd::utf8::encode_utf8_valid_utf8(key@);
    }
    Some(MemoryKeyParts { vis: raw[first + 1], owner, key })
}

/// The id inside a raw proposal key. `None` where the bytes do not have the shape of one.
pub open spec fn proposal_id_of(raw: Seq<u8>) -> Option<Seq<u8>> {
    let first = nul_from(raw, 0);
    if first + 2 > raw.len() {
        None
    } else {
        Some(raw.skip(first + 2))
    }
}

/// A proposal id is read back out of the raw key it was put into, provided that the scope holds no
/// NUL byte.
pub proof fn law_proposal_id_reads_back(scope: Seq<u8>, kind: u8, id: Seq<u8>)
    requires
        nul_free(scope),
    ensures
        proposal_id_of(proposal_key(scope, kind, id)) == Some(id),
{
    let raw = proposal_key(scope, kind, id);
    lemma_nul_from(raw, 0, scope.len() as int);
    assert(raw.skip(scope.len() as int + 2) =~= id);
}

/// The id inside a raw proposal key, as text. `None` where the bytes do not have the shape of a
/// proposal key, or the id is not UTF-8.
pub fn parse_proposal_by_id(raw: &[u8]) -> (id: Option<String>)
    ensures
        match id {
            Some(k) => proposal_id_of(raw@) == Some(encode_utf8(k@)),
            None => proposal_id_of(raw@) is None || !vstd::utf8::valid_utf8(proposal_id_of(raw@)->0),
        },
{
    let first: usize = find_nul(raw, 0);
    if raw.len() - first < 2 {
        return None;
    }
    let tail = vstd::slice::slice_subrange(raw, first + 2, raw.len());
    assert(tail@ =~= raw@.skip(first + 2));
    utf8_text(tail)
}

// ─── Upper bound of a prefix ─────────────────────────────────────────────────

/// The least byte string above every string that starts with `prefix`: the last byte below 255 is
/// raised by one and what follows it is dropped. `None` where no byte is below 255.
pub open spec fn upper_bound_of(prefix: Seq<u8>) -> Option<Seq<u8>>
    decreases prefix.len(),
{
    if prefix.len() == 0 {
        None
    } else if prefix.last() < 255 {
        Some(prefix.drop_last().push((prefix.last() + 1) as u8))
    } else {
        upper_bound_of(prefix.drop_last())
    }
}

/// The least byte string above every string that starts with `prefix`, if there is one.
pub fn prefix_upper_bound(prefix: &[u8]) -> (bound: Option<Vec<u8>>)
    ensures
        match bound {
            Some(b) => upper_bound_of(prefix@) == Some(b@),
            None => upper_bound_of(prefix@) is None,
        },
{
    let mut n: usize = prefix.len();
    assert(prefix@.take(n as int) =~= prefix@);
    while n > 0
        invariant
            n <= prefix.len(),
            upper_bound_of(prefix@) == upper_bound_of(prefix@.take(n as int)),
        decreases n,
    {
        let ghost front = prefix@.take(n as int);
        assert(front.drop_last() =~= prefix@.take(n - 1));
        if prefix[n - 1] < 255 {
            let mut b: Vec<u8> = copy_bytes(vstd::slice::slice_subrange(prefix, 0, n - 1));
            b.push(prefix[n - 1] + 1);
            assert(b@ =~= front.drop_last().push((front.last() + 1) as u8));
            return Some(b);
        }
        n -= 1;
    }
    None
}

/// Whether `k` lies from `prefix` (inclusive) up to the upper bound of `prefix` (exclusive).
pub open spec fn within_bounds(prefix: Seq<u8>, k: Seq<u8>) -> bool {
    !lex_less(k, prefix) && (upper_bound_of(prefix) is None || lex_less(
        k,
        upper_bound_of(prefix)->0,
    ))
}

/// The byte strings between a prefix and its upper bound are those that start with it.
pub proof fn law_bounds_are_the_prefix(prefix: Seq<u8>, k: Seq<u8>)
    ensures
        within_bounds(prefix, k) == prefix.is_prefix_of(k),
    decreases prefix.len(),
{
    if prefix.len() == 0 {
        assert(k.subrange(0, 0) =~= prefix);
    } else if k.len() == 0 {
    } else {
        reveal_with_fuel(lex_less, 2);
        let tail = prefix.drop_first();
        law_bounds_are_the_prefix(tail, k.drop_first());
        lemma_upper_head(prefix);
        if prefix.is_prefix_of(k) {
            assert(k[0] == k.subrange(0, prefix.len() as int)[0]);
            assert(k.drop_first().subrange(0, tail.len() as int) =~= tail) by {
                assert(k.subrange(0, prefix.len() as int).drop_first() =~= tail);
                assert(k.drop_first().subrange(0, tail.len() as int) =~= k.subrange(
                    0,
                    prefix.len() as int,
                ).drop_first());
            }
        }
        if k[0] == prefix[0] && tail.is_prefix_of(k.drop_first()) {
            assert(k.subrange(0, prefix.len() as int) =~= prefix) by {
                assert forall|i: int| 0 <= i < prefix.len() implies k[i] == prefix[i] by {
                    if i > 0 {
                        assert(k.drop_first().subrange(0, tail.len() as int)[i - 1] == tail[i - 1]);
                    }
                }
            }
        }
    }
}

/// How the upper bound of a non-empty prefix comes from that of its tail.
proof fn lemma_upper_head(prefix: Seq<u8>)
    requires
        prefix.len() > 0,
    ensures
        ({
            let tail = prefix.drop_first();
            match upper_bound_of(tail) {
                Some(u) => upper_bound_of(prefix) is Some && upper_bound_of(prefix)->0.len() > 0
                    && upper_bound_of(prefix)->0[0] == prefix[0] && upper_bound_of(
                    prefix,
                )->0.drop_first() == u,
                None => if prefix[0] < 255 {
                    upper_bound_of(prefix) == Some(seq![(prefix[0] + 1) as u8])
                } else {
                    upper_bound_of(prefix) is None
                },
            }
        }),
    decreases prefix.len(),
{
    let tail = prefix.drop_first();
    if prefix.len() == 1 {
        assert(prefix.drop_last() =~= Seq::<u8>::empty());
        assert(prefix.drop_last().push((prefix.last() + 1) as u8) =~= seq![(prefix[0] + 1) as u8]);
    } else {
        assert(tail.last() == prefix.last());
        assert(tail.drop_last() =~= prefix.drop_last().drop_first());
        if prefix.last() < 255 {
            let u = prefix.drop_last().push((prefix.last() + 1) as u8);
            assert(u.drop_first() =~= tail.drop_last().push((tail.last() + 1) as u8));
        } else {
            lemma_upper_head(prefix.drop_last());
        }
    }
}

} // verus!
