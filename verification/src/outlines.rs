//! Outlines of past file contents, kept in memory. A content is known by its object id and the
//! language it is read in, so what is kept never goes out of date; the least recently used outline
//! makes room for a new one.
use vstd::prelude::*;
use vstd::utf8::encode_utf8;

use crate::keys::{be4, be4_at, push_all, push_be4};
use crate::model::FileMapL1;
use crate::seqs::lemma_filter_but_one;

verus! {

/// How many outlines are kept.
pub const OUTLINE_CACHE_CAP: usize = 512;

// ─── The recency index ───────────────────────────────────────────────────────

/// The hasher of the recency index, never looked into.
#[verifier::external_type_specification]
#[verifier::external_body]
pub struct ExRecencyHasher(lru::DefaultHasher);

/// The cache of the `lru` crate: entries under keys, in the order of their last use.
#[verifier::external_type_specification]
#[verifier::external_body]
#[verifier::reject_recursive_types(K)]
#[verifier::reject_recursive_types(V)]
#[verifier::reject_recursive_types(S)]
pub struct ExLruCache<K, V, S>(lru::LruCache<K, V, S>);

/// The entries of a recency index, the most recently used first.
pub uninterp spec fn recency_held(t: lru::LruCache<Vec<u8>, u64>) -> Seq<(Seq<u8>, u64)>;

/// How many entries a recency index can hold.
pub uninterp spec fn recency_cap(t: lru::LruCache<Vec<u8>, u64>) -> nat;

/// Whether one of the entries has this key.
pub open spec fn has_entry(held: Seq<(Seq<u8>, u64)>, key: Seq<u8>) -> bool {
    exists|i: int| 0 <= i < held.len() && (#[trigger] held[i]).0 == key
}

/// The condition that an entry has another key.
pub open spec fn other_than(key: Seq<u8>) -> spec_fn((Seq<u8>, u64)) -> bool {
    |e: (Seq<u8>, u64)| e.0 != key
}

/// The entries with `(key, value)` in front, and no other entry of this key.
pub open spec fn in_front(held: Seq<(Seq<u8>, u64)>, key: Seq<u8>, value: u64) -> Seq<(Seq<u8>, u64)> {
    seq![(key, value)] + held.filter(other_than(key))
}

/// `lru::LruCache::new`: an index without entries that can hold so many.
#[verifier::external_body]
fn recency_new(cap: usize) -> (t: lru::LruCache<Vec<u8>, u64>)
    requires
        cap > 0,
    ensures
        recency_held(t).len() == 0,
        recency_cap(t) == cap,
{
    lru::LruCache::new(std::num::NonZeroUsize::new(cap).expect("a capacity"))
}

/// `lru::LruCache::get`: the value at a key, which becomes the most recently used; an index without
/// the key stays as it is.
#[verifier::external_body]
fn recency_get(t: &mut lru::LruCache<Vec<u8>, u64>, key: &[u8]) -> (v: Option<u64>)
    ensures
        recency_cap(*final(t)) == recency_cap(*old(t)),
        v is None ==> !has_entry(recency_held(*old(t)), key@) && recency_held(*final(t))
            == recency_held(*old(t)),
        v is Some ==> recency_held(*old(t)).contains((key@, v->0)),
        v is Some ==> recency_held(*final(t)) == in_front(recency_held(*old(t)), key@, v->0),
{
    t.get(key).copied()
}

/// `lru::LruCache::pop_lru`: the least recently used entry leaves.
#[verifier::external_body]
fn recency_pop(t: &mut lru::LruCache<Vec<u8>, u64>) -> (e: Option<(Vec<u8>, u64)>)
    ensures
        recency_cap(*final(t)) == recency_cap(*old(t)),
        e is None ==> recency_held(*old(t)).len() == 0 && recency_held(*final(t)).len() == 0,
        e is Some ==> recency_held(*old(t)).len() > 0 && recency_held(*final(t)) == recency_held(
            *old(t),
        ).drop_last(),
        e is Some ==> recency_held(*old(t)).last() == ((e->0).0@, (e->0).1),
{
    t.pop_lru()
}

/// `lru::LruCache::put`, for a new key and an index with room: the entry comes in front.
#[verifier::external_body]
fn recency_put(t: &mut lru::LruCache<Vec<u8>, u64>, key: Vec<u8>, value: u64)
    requires
        !has_entry(recency_held(*old(t)), key@),
        recency_held(*old(t)).len() < recency_cap(*old(t)),
    ensures
        recency_cap(*final(t)) == recency_cap(*old(t)),
        recency_held(*final(t)) == seq![(key@, value)] + recency_held(*old(t)),
{
    t.put(key, value);
}

// ─── The cache ───────────────────────────────────────────────────────────────

/// An outline and the bytes that it is of.
#[derive(Debug)]
pub struct OutlineEntry {
    pub map: FileMapL1,
    pub source: Vec<u8>,
}

/// The key of a content: the length of its object id, the id, and the language.
pub open spec fn outline_key(oid: Seq<u8>, lang: Seq<char>) -> Seq<u8> {
    be4(oid.len() as u32) + oid + encode_utf8(lang)
}

fn key_of(oid: &[u8], lang: &str) -> (key: Vec<u8>)
    requires
        oid@.len() <= u32::MAX,
    ensures
        key@ == outline_key(oid@, lang@),
{
    let mut key: Vec<u8> = Vec::new();
    push_be4(&mut key, oid.len() as u32);
    push_all(&mut key, oid);
    push_all(&mut key, lang.as_bytes());
    assert(key@ =~= outline_key(oid@, lang@));
    key
}

/// Contents that differ in object id or language have different keys.
pub proof fn law_outline_keys_differ(oid1: Seq<u8>, lang1: Seq<char>, oid2: Seq<u8>, lang2: Seq<char>)
    requires
        oid1.len() <= u32::MAX,
        oid2.len() <= u32::MAX,
        outline_key(oid1, lang1) == outline_key(oid2, lang2),
    ensures
        oid1 == oid2,
        lang1 == lang2,
{
    let a = outline_key(oid1, lang1);
    let b = outline_key(oid2, lang2);
    assert(be4(oid1.len() as u32) =~= a.take(4));
    assert(be4(oid2.len() as u32) =~= b.take(4));
    assert(be4_at(a, 0) == oid1.len());
    assert(be4_at(b, 0) == oid2.len());
    assert(oid1 =~= a.subrange(4, (4 + oid1.len()) as int));
    assert(oid2 =~= b.subrange(4, (4 + oid2.len()) as int));
    assert(encode_utf8(lang1) =~= a.skip((4 + oid1.len()) as int));
    assert(encode_utf8(lang2) =~= b.skip((4 + oid2.len()) as int));
    crate::text::lemma_encoding_injective(lang1, lang2);
}

/// The outlines that are kept.
pub struct OutlineCache {
    cap: usize,
    first: u64,
    index: lru::LruCache<Vec<u8>, u64>,
    slots: Vec<OutlineEntry>,
}

/// No key and no slot comes twice, and every slot is below `n`.
spec fn held_wf(held: Seq<(Seq<u8>, u64)>, n: int) -> bool {
    &&& forall|i: int| 0 <= i < held.len() ==> (#[trigger] held[i]).1 < n
    &&& forall|i: int, j: int|
        0 <= i < j < held.len() ==> (#[trigger] held[i]).0 != (#[trigger] held[j]).0 && held[i].1
            != held[j].1
}

/// The kept outlines by recency, given the entries and the slots.
spec fn kept_of(held: Seq<(Seq<u8>, u64)>, slots: Seq<OutlineEntry>) -> Seq<(Seq<u8>, OutlineEntry)> {
    Seq::new(held.len(), |i: int| (held[i].0, slots[held[i].1 as int]))
}

/// Whether one of the kept outlines has this key.
pub open spec fn keeps(kept: Seq<(Seq<u8>, OutlineEntry)>, key: Seq<u8>) -> bool {
    exists|i: int| 0 <= i < kept.len() && (#[trigger] kept[i]).0 == key
}

/// The condition that a kept outline has another key.
pub open spec fn kept_other_than(key: Seq<u8>) -> spec_fn((Seq<u8>, OutlineEntry)) -> bool {
    |e: (Seq<u8>, OutlineEntry)| e.0 != key
}

/// The kept outlines with `(key, entry)` in front, and no other of this key.
pub open spec fn refreshed(
    kept: Seq<(Seq<u8>, OutlineEntry)>,
    key: Seq<u8>,
    entry: OutlineEntry,
) -> Seq<(Seq<u8>, OutlineEntry)> {
    seq![(key, entry)] + kept.filter(kept_other_than(key))
}

/// The kept outlines after one was put: it comes in front. Where its key is new and there is no room,
/// the least recently used one leaves.
pub open spec fn after_put(
    kept: Seq<(Seq<u8>, OutlineEntry)>,
    cap: int,
    key: Seq<u8>,
    entry: OutlineEntry,
) -> Seq<(Seq<u8>, OutlineEntry)> {
    if keeps(kept, key) {
        refreshed(kept, key, entry)
    } else if kept.len() < cap {
        seq![(key, entry)] + kept
    } else {
        seq![(key, entry)] + kept.drop_last()
    }
}

/// An entry that is used comes in front, and its outline with it.
proof fn lemma_front(held: Seq<(Seq<u8>, u64)>, slots: Seq<OutlineEntry>, key: Seq<u8>, value: u64, entry: OutlineEntry)
    requires
        held_wf(held, slots.len() as int),
        held.contains((key, value)),
    ensures
        value < slots.len(),
        held_wf(in_front(held, key, value), slots.len() as int),
        in_front(held, key, value).len() == held.len(),
        kept_of(held, slots).contains((key, slots[value as int])),
        keeps(kept_of(held, slots), key),
        kept_of(in_front(held, key, value), slots) == refreshed(
            kept_of(held, slots),
            key,
            slots[value as int],
        ),
        kept_of(in_front(held, key, value), slots.update(value as int, entry)) == refreshed(
            kept_of(held, slots),
            key,
            entry,
        ),
{
    let kept = kept_of(held, slots);
    let at = choose|i: int| 0 <= i < held.len() && held[i] == (key, value);
    assert(kept[at] == (key, slots[value as int]));
    lemma_filter_but_one(held, other_than(key), at);
    assert forall|i: int| 0 <= i < kept.len() implies kept_other_than(key)(#[trigger] kept[i]) == (i != at) by {
        assert(kept[i].0 == held[i].0);
        assert(held[at].0 == key);
    }
    lemma_filter_but_one(kept, kept_other_than(key), at);
    let front = in_front(held, key, value);
    assert forall|i: int| 1 <= i < front.len() implies #[trigger] front[i] == held[if i <= at {
        i - 1
    } else {
        i
    }] by {}
    assert(kept_of(front, slots) =~= refreshed(kept, key, slots[value as int]));
    assert(kept_of(front, slots.update(value as int, entry)) =~= refreshed(kept, key, entry));
}

/// A key without an entry has no outline.
proof fn lemma_absent(held: Seq<(Seq<u8>, u64)>, slots: Seq<OutlineEntry>, key: Seq<u8>)
    requires
        !has_entry(held, key),
    ensures
        !keeps(kept_of(held, slots), key),
{
    let kept = kept_of(held, slots);
    assert forall|i: int| 0 <= i < kept.len() implies (#[trigger] kept[i]).0 != key by {
        assert(held[i].0 != key);
    }
}

impl OutlineCache {
    /// Every entry has its own slot, and every slot its entry.
    pub closed spec fn wf(&self) -> bool {
        let held = recency_held(self.index);
        &&& held_wf(held, self.slots@.len() as int)
        &&& held.len() == self.slots@.len()
        &&& held.len() <= self.cap
        &&& recency_cap(self.index) == self.cap
        &&& self.cap > 0
        &&& held.len() > 0 ==> held[0].1 == self.first
    }

    /// The outlines that are kept, each under its key, the most recently used first.
    pub closed spec fn kept(&self) -> Seq<(Seq<u8>, OutlineEntry)> {
        kept_of(recency_held(self.index), self.slots@)
    }

    /// How many outlines can be kept.
    pub closed spec fn cap(&self) -> int {
        self.cap as int
    }

    /// A cache that keeps so many outlines.
    pub fn new(cap: usize) -> (c: OutlineCache)
        requires
            cap > 0,
        ensures
            c.wf(),
            c.kept().len() == 0,
            c.cap() == cap,
    {
        OutlineCache { cap, first: 0, index: recency_new(cap), slots: Vec::new() }
    }

    /// Whether the outline of a content is kept; it becomes the most recently used.
    pub fn touch(&mut self, oid: &[u8], lang: &str) -> (found: bool)
        requires
            old(self).wf(),
            oid@.len() <= u32::MAX,
        ensures
            final(self).wf(),
            final(self).cap() == old(self).cap(),
            ({
                let key = outline_key(oid@, lang@);
                let kept = old(self).kept();
                let front = final(self).kept()[0];
                &&& found == keeps(kept, key)
                &&& !found ==> final(self).kept() == kept
                &&& found ==> front.0 == key && kept.contains(front) && final(self).kept()
                    == refreshed(kept, key, front.1)
            }),
    {
        let key = key_of(oid, lang);
        let ghost held = recency_held(self.index);
        let ghost slots = self.slots@;
        match recency_get(&mut self.index, key.as_slice()) {
            Some(v) => {
                proof {
                    lemma_front(held, slots, key@, v, slots[v as int]);
                }
                self.first = v;
                true
            },
            None => {
                proof {
                    lemma_absent(held, slots, key@);
                }
                false
            },
        }
    }

    /// The most recently used outline.
    pub fn front(&self) -> (entry: &OutlineEntry)
        requires
            self.wf(),
            self.kept().len() > 0,
        ensures
            *entry == self.kept()[0].1,
    {
        &self.slots[self.first as usize]
    }

    /// Keep the outline of a content.
    pub fn put(&mut self, oid: &[u8], lang: &str, entry: OutlineEntry)
        requires
            old(self).wf(),
            oid@.len() <= u32::MAX,
        ensures
            final(self).wf(),
            final(self).cap() == old(self).cap(),
            final(self).kept() == after_put(
                old(self).kept(),
                old(self).cap(),
                outline_key(oid@, lang@),
                entry,
            ),
    {
        let key = key_of(oid, lang);
        let ghost held = recency_held(self.index);
        let ghost slots = self.slots@;
        let ghost k = key@;
        match recency_get(&mut self.index, key.as_slice()) {
            Some(v) => {
                proof {
                    lemma_front(held, slots, k, v, entry);
                }
                self.first = v;
                self.slots[v as usize] = entry;
                assert(self.slots@ =~= slots.update(v as int, entry));
            },
            None => {
                proof {
                    lemma_absent(held, slots, k);
                }
                let full: bool = self.slots.len() == self.cap;
                if full {
                    match recency_pop(&mut self.index) {
                        Some((_gone, v)) => {
                            assert(held.last() == held[held.len() - 1]);
                            assert forall|i: int| 0 <= i < held.drop_last().len() implies (
                            #[trigger] held.drop_last()[i]).0 != k by {
                                assert(held[i].0 != k);
                            }
                            recency_put(&mut self.index, key, v);
                            self.first = v;
                            self.slots[v as usize] = entry;
                            assert(self.kept() =~= seq![(k, entry)] + old(self).kept().drop_last());
                        },
                        None => {},
                    }
                } else {
                    let n: u64 = self.slots.len() as u64;
                    recency_put(&mut self.index, key, n);
                    self.first = n;
                    self.slots.push(entry);
                    assert(self.kept() =~= seq![(k, entry)] + old(self).kept());
                }
            },
        }
    }
}

/// No content is kept twice, and no more outlines are kept than there is room for.
pub proof fn law_outlines_are_bounded(cache: OutlineCache)
    requires
        cache.wf(),
    ensures
        cache.kept().len() <= cache.cap(),
        forall|i: int, j: int|
            0 <= i < j < cache.kept().len() ==> (#[trigger] cache.kept()[i]).0 != (
            #[trigger] cache.kept()[j]).0,
{
    let held = recency_held(cache.index);
    assert forall|i: int, j: int| 0 <= i < j < cache.kept().len() implies (#[trigger] cache.kept()[i]).0
        != (#[trigger] cache.kept()[j]).0 by {
        assert(held[i].0 != held[j].0);
    }
}

/// The outline of a content, read in a language: the kept one where there is one, which becomes the
/// most recently used; else what was extracted, which is then kept. A content that is not kept and
/// could not be extracted has none.
pub fn outline_entry_for_blob<'a>(
    cache: &'a mut OutlineCache,
    oid: &[u8],
    lang: &str,
    source: Vec<u8>,
    extracted: Option<FileMapL1>,
) -> (entry: Option<&'a OutlineEntry>)
    requires
        old(cache).wf(),
        oid@.len() <= u32::MAX,
    ensures
        final(cache).wf(),
        final(cache).cap() == old(cache).cap(),
        ({
            let key = outline_key(oid@, lang@);
            let kept = old(cache).kept();
            let after = final(cache).kept();
            if keeps(kept, key) {
                entry is Some && kept.contains((key, *entry->0)) && after == refreshed(
                    kept,
                    key,
                    *entry->0,
                )
            } else if extracted is Some {
                entry is Some && entry->0.map == extracted->0 && entry->0.source == source && after == after_put(kept, old(cache).cap(), key, *entry->0)
            } else {
                entry is None && after == kept
            }
        }),
{
    if !cache.touch(oid, lang) {
        match extracted {
            Some(map) => cache.put(oid, lang, OutlineEntry { map, source }),
            None => {
                return None;
            },
        }
    }
    Some(cache.front())
}

} // verus!
