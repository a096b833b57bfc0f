//! An ordered keyspace: rows under byte keys, in ascending key order. A row whose value could not
//! be decoded, or that is a bare marker, holds no value.
use vstd::prelude::*;

use crate::keys::upper_bound_of;
use crate::sort::{comes_after, first_after, strictly_ascends, Keyed};
use crate::text::{
    bytes_less, lemma_lex_asymmetric, lemma_lex_irreflexive, lemma_lex_total, lemma_lex_transitive,
    lex_less, same_bytes,
};

verus! {

/// A row of a keyspace.
#[derive(Debug)]
pub struct Row<T> {
    pub key: Vec<u8>,
    pub value: Option<T>,
}

impl<T> Keyed for Row<T> {
    open spec fn sort_key(&self) -> Seq<u8> {
        self.key@
    }

    fn key_bytes(&self) -> (k: &[u8]) {
        self.key.as_slice()
    }
}

/// A keyspace: rows in ascending key order, each key once.
#[derive(Debug)]
pub struct Keyspace<T> {
    pub rows: Vec<Row<T>>,
}

/// Whether `rows` hold the key `k`.
pub open spec fn has_key<T>(rows: Seq<Row<T>>, k: Seq<u8>) -> bool {
    exists|i: int| 0 <= i < rows.len() && (#[trigger] rows[i]).key@ == k
}

/// The position of the key `k` in `rows`.
pub open spec fn key_index<T>(rows: Seq<Row<T>>, k: Seq<u8>) -> int {
    choose|i: int| 0 <= i < rows.len() && (#[trigger] rows[i]).key@ == k
}

/// The map from key to value that `rows` stand for.
pub open spec fn row_map<T>(rows: Seq<Row<T>>) -> Map<Seq<u8>, Option<T>> {
    Map::new(|k: Seq<u8>| has_key(rows, k), |k: Seq<u8>| rows[key_index(rows, k)].value)
}

/// In strictly ascending rows a key has one position, and the map gives the value there.
pub proof fn lemma_row_at<T>(rows: Seq<Row<T>>, i: int)
    requires
        strictly_ascends(rows),
        0 <= i < rows.len(),
    ensures
        row_map(rows).contains_key(rows[i].key@),
        key_index(rows, rows[i].key@) == i,
        row_map(rows)[rows[i].key@] == rows[i].value,
{
    let k = rows[i].key@;
    assert(has_key(rows, k));
    let j = key_index(rows, k);
    lemma_lex_irreflexive(k);
    if j < i {
        assert(lex_less(rows[j].sort_key(), rows[i].sort_key()));
    } else if i < j {
        assert(lex_less(rows[i].sort_key(), rows[j].sort_key()));
    }
}

impl<T> Keyspace<T> {
    /// Keys strictly ascend.
    pub open spec fn wf(&self) -> bool {
        strictly_ascends(self.rows@)
    }

    /// The map from key to value.
    pub open spec fn map(&self) -> Map<Seq<u8>, Option<T>> {
        row_map(self.rows@)
    }

    /// The empty keyspace.
    pub fn new() -> (s: Keyspace<T>)
        ensures
            s.wf(),
            s.map() == Map::<Seq<u8>, Option<T>>::empty(),
            s.rows@.len() == 0,
    {
        let s = Keyspace { rows: Vec::new() };
        assert(s.map() =~= Map::<Seq<u8>, Option<T>>::empty());
        s
    }

    /// The place of `key`: every key before it is less, and `found` says whether the key at it is
    /// `key`; every key from it on is greater otherwise.
    pub fn locate(&self, key: &[u8]) -> (r: (usize, bool))
        requires
            self.wf(),
        ensures
            r.0 <= self.rows@.len(),
            forall|i: int| 0 <= i < r.0 ==> lex_less((#[trigger] self.rows@[i]).key@, key@),
            forall|i: int|
                r.0 <= i < self.rows@.len() ==> !lex_less((#[trigger] self.rows@[i]).key@, key@),
            r.1 == self.map().contains_key(key@),
            r.1 ==> r.0 < self.rows@.len() && self.rows@[r.0 as int].key@ == key@
                && self.map()[key@] == self.rows@[r.0 as int].value,
            !r.1 ==> forall|i: int|
                r.0 <= i < self.rows@.len() ==> lex_less(key@, (#[trigger] self.rows@[i]).key@),
    {
        let mut lo: usize = 0;
        let mut hi: usize = self.rows.len();
        while lo < hi
            invariant
                lo <= hi <= self.rows@.len(),
                self.wf(),
                forall|i: int| 0 <= i < lo ==> lex_less((#[trigger] self.rows@[i]).key@, key@),
                forall|i: int|
                    hi <= i < self.rows@.len() ==> !lex_less((#[trigger] self.rows@[i]).key@, key@),
            decreases hi - lo,
        {
            let mid: usize = lo + (hi - lo) / 2;
            let ghost m = self.rows@[mid as int].key@;
            if bytes_less(self.rows[mid].key.as_slice(), key) {
                proof {
                    assert forall|i: int| 0 <= i < mid + 1 implies lex_less(
                        (#[trigger] self.rows@[i]).key@,
                        key@,
                    ) by {
                        if i < mid {
                            assert(lex_less(
                                self.rows@[i].sort_key(),
                                self.rows@[mid as int].sort_key(),
                            ));
                            lemma_lex_transitive(self.rows@[i].key@, m, key@);
                        }
                    }
                }
                lo = mid + 1;
            } else {
                proof {
                    assert forall|i: int| mid <= i < self.rows@.len() implies !lex_less(
                        (#[trigger] self.rows@[i]).key@,
                        key@,
                    ) by {
                        if mid < i && lex_less(self.rows@[i].key@, key@) {
                            assert(lex_less(
                                self.rows@[mid as int].sort_key(),
                                self.rows@[i].sort_key(),
                            ));
                            lemma_lex_transitive(m, self.rows@[i].key@, key@);
                        }
                    }
                }
                hi = mid;
            }
        }
        let found = lo < self.rows.len() && same_bytes(self.rows[lo].key.as_slice(), key);
        proof {
            if found {
                lemma_row_at(self.rows@, lo as int);
            } else {
                assert forall|i: int| lo <= i < self.rows@.len() implies lex_less(
                    key@,
                    (#[trigger] self.rows@[i]).key@,
                ) by {
                    lemma_lex_total(key@, self.rows@[lo as int].key@);
                    if i > lo {
                        assert(lex_less(
                            self.rows@[lo as int].sort_key(),
                            self.rows@[i].sort_key(),
                        ));
                        lemma_lex_transitive(key@, self.rows@[lo as int].key@, self.rows@[i].key@);
                    }
                }
                if has_key(self.rows@, key@) {
                    let k = key_index(self.rows@, key@);
                    lemma_lex_irreflexive(key@);
                    assert(lex_less(self.rows@[k].key@, key@) || lex_less(
                        key@,
                        self.rows@[k].key@,
                    ));
                }
            }
        }
        (lo, found)
    }

    /// Whether there is a row at `key`.
    pub fn has(&self, key: &[u8]) -> (yes: bool)
        requires
            self.wf(),
        ensures
            yes == self.map().contains_key(key@),
    {
        self.locate(key).1
    }

    /// The value at `key`, if there is a row with one.
    pub fn get(&self, key: &[u8]) -> (v: Option<&T>)
        requires
            self.wf(),
        ensures
            match v {
                Some(x) => self.map().contains_key(key@) && self.map()[key@] == Some(*x),
                None => !self.map().contains_key(key@) || self.map()[key@] is None,
            },
    {
        let (at, found) = self.locate(key);
        if found {
            match &self.rows[at].value {
                Some(x) => Some(x),
                None => None,
            }
        } else {
            None
        }
    }

    /// Set the row at `key`.
    pub fn insert(&mut self, key: Vec<u8>, value: Option<T>)
        requires
            old(self).wf(),
        ensures
            final(self).wf(),
            final(self).map() == old(self).map().insert(key@, value),
            final(self).rows@.len() <= old(self).rows@.len() + 1,
    {
        let (at, found) = self.locate(key.as_slice());
        let ghost before = self.rows@;
        let ghost k = key@;
        if found {
            self.rows[at] = Row { key, value };
            proof {
                lemma_insert(before, self.rows@, at as int, k, value, true);
            }
        } else {
            self.rows.insert(at, Row { key, value });
            proof {
                lemma_insert(before, self.rows@, at as int, k, value, false);
            }
        }
    }

    /// Remove the row at `key`, if there is one.
    pub fn remove(&mut self, key: &[u8])
        requires
            old(self).wf(),
        ensures
            final(self).wf(),
            final(self).map() == old(self).map().remove(key@),
            final(self).rows@.len() <= old(self).rows@.len(),
    {
        let (at, found) = self.locate(key);
        let ghost before = self.rows@;
        if found {
            let _gone = self.rows.remove(at);
            proof {
                lemma_remove(before, self.rows@, at as int, key@);
            }
        } else {
            assert(row_map(self.rows@) =~= row_map(before).remove(key@));
        }
    }
}

proof fn lemma_insert<T>(
    before: Seq<Row<T>>,
    after: Seq<Row<T>>,
    at: int,
    key: Seq<u8>,
    value: Option<T>,
    found: bool,
)
    requires
        strictly_ascends(before),
        0 <= at <= before.len(),
        found ==> at < before.len() && before[at].key@ == key && after == before.update(at, after[at]),
        !found ==> after == before.insert(at, after[at]),
        after[at].key@ == key,
        after[at].value == value,
        !found ==> (forall|i: int| 0 <= i < at ==> lex_less((#[trigger] before[i]).key@, key)),
        !found ==> (forall|i: int|
            at <= i < before.len() ==> lex_less(key, (#[trigger] before[i]).key@)),
    ensures
        strictly_ascends(after),
        row_map(after) == row_map(before).insert(key, value),
{
    assert forall|i: int, j: int| 0 <= i < j < after.len() implies lex_less(
        (#[trigger] after[i]).sort_key(),
        (#[trigger] after[j]).sort_key(),
    ) by {
        if found {
            assert(after[i].key@ == before[i].key@);
            assert(after[j].key@ == before[j].key@);
            assert(lex_less(before[i].sort_key(), before[j].sort_key()));
        } else {
            let bi = if i < at { i } else { i - 1 };
            let bj = if j < at { j } else { j - 1 };
            if i != at {
                assert(after[i] == before[bi]);
            }
            if j != at {
                assert(after[j] == before[bj]);
            }
            if i != at && j != at {
                assert(lex_less(before[bi].sort_key(), before[bj].sort_key()));
            }
        }
    }
    assert forall|p: Seq<u8>| #[trigger] row_map(after).contains_key(p) == row_map(before).insert(
        key,
        value,
    ).contains_key(p) by {
        if row_map(before).contains_key(p) {
            let b = key_index(before, p);
            let a = if found || b < at { b } else { b + 1 };
            assert(after[a].key@ == p || p == key);
        }
        if row_map(after).contains_key(p) && p != key {
            let a = key_index(after, p);
            let b = if found || a < at { a } else { a - 1 };
            assert(before[b].key@ == p);
        }
        assert(after[at].key@ == key);
    }
    assert forall|p: Seq<u8>| #[trigger] row_map(after).contains_key(p) implies row_map(after)[p]
        == row_map(before).insert(key, value)[p] by {
        let a = key_index(after, p);
        lemma_row_at(after, a);
        if p == key {
            lemma_row_at(after, at);
        } else {
            let b = if found || a < at { a } else { a - 1 };
            assert(before[b] == after[a]);
            lemma_row_at(before, b);
        }
    }
    assert(row_map(after) =~= row_map(before).insert(key, value));
}

proof fn lemma_remove<T>(before: Seq<Row<T>>, after: Seq<Row<T>>, at: int, key: Seq<u8>)
    requires
        strictly_ascends(before),
        0 <= at < before.len(),
        before[at].key@ == key,
        after == before.remove(at),
    ensures
        strictly_ascends(after),
        row_map(after) == row_map(before).remove(key),
{
    assert forall|i: int, j: int| 0 <= i < j < after.len() implies lex_less(
        (#[trigger] after[i]).sort_key(),
        (#[trigger] after[j]).sort_key(),
    ) by {
        let bi = if i < at { i } else { i + 1 };
        let bj = if j < at { j } else { j + 1 };
        assert(after[i] == before[bi]);
        assert(after[j] == before[bj]);
        assert(lex_less(before[bi].sort_key(), before[bj].sort_key()));
    }
    assert forall|q: Seq<u8>| #[trigger] row_map(after).contains_key(q) == row_map(before).remove(
        key,
    ).contains_key(q) by {
        if row_map(before).contains_key(q) && q != key {
            let b = key_index(before, q);
            let a = if b < at { b } else { b - 1 };
            assert(after[a].key@ == q);
        }
        if row_map(after).contains_key(q) {
            let a = key_index(after, q);
            let b = if a < at { a } else { a + 1 };
            assert(before[b].key@ == q);
            if q == key {
                lemma_row_at(before, b);
                lemma_row_at(before, at);
            }
        }
    }
    assert forall|q: Seq<u8>| #[trigger] row_map(after).contains_key(q) implies row_map(after)[q]
        == row_map(before).remove(key)[q] by {
        let a = key_index(after, q);
        let b = if a < at { a } else { a + 1 };
        assert(before[b] == after[a]);
        lemma_row_at(after, a);
        lemma_row_at(before, b);
    }
    assert(row_map(after) =~= row_map(before).remove(key));
}

// ─── Ranges ──────────────────────────────────────────────────────────────────

/// Whether `k` lies in the range that a scan of `prefix` walks: after the cursor where there is
/// one, else from the prefix on; and in either case below the prefix's upper bound.
pub open spec fn in_range(k: Seq<u8>, prefix: Seq<u8>, cursor: Option<Seq<u8>>) -> bool {
    (match cursor {
        Some(c) => lex_less(c, k),
        None => !lex_less(k, prefix),
    }) && (upper_bound_of(prefix) is None || lex_less(k, upper_bound_of(prefix)->0))
}

/// The rows from `from` up to `to` are those of the range.
pub open spec fn is_range<T>(
    rows: Seq<Row<T>>,
    prefix: Seq<u8>,
    cursor: Option<Seq<u8>>,
    from: int,
    to: int,
) -> bool {
    0 <= from <= to <= rows.len() && forall|i: int|
        0 <= i < rows.len() ==> in_range((#[trigger] rows[i]).key@, prefix, cursor) == (from <= i
            < to)
}

impl<T> Keyspace<T> {
    /// The positions of the rows in a range.
    pub fn range(&self, prefix: &[u8], cursor: Option<&[u8]>) -> (r: (usize, usize))
        requires
            self.wf(),
        ensures
            is_range(
                self.rows@,
                prefix@,
                crate::sort::cursor_bytes(cursor),
                r.0 as int,
                r.1 as int,
            ),
    {
        proof {
            crate::sort::lemma_strict_runs(self.rows@);
        }
        let from: usize = match cursor {
            Some(c) => first_after(self.rows.as_slice(), Some(c)),
            None => self.locate(prefix).0,
        };
        let upper = crate::keys::prefix_upper_bound(prefix);
        let end: usize = match &upper {
            Some(u) => self.locate(u.as_slice()).0,
            None => self.rows.len(),
        };
        let to: usize = if end < from {
            from
        } else {
            end
        };
        proof {
            let c = crate::sort::cursor_bytes(cursor);
            assert forall|i: int| 0 <= i < self.rows@.len() implies in_range(
                (#[trigger] self.rows@[i]).key@,
                prefix@,
                c,
            ) == (from <= i < to) by {
                let k = self.rows@[i].sort_key();
                if cursor is Some {
                    assert(comes_after(c, k) == (i >= from));
                } else {
                    assert(lex_less(k, prefix@) == (i < from));
                }
                if upper is Some {
                    assert(lex_less(k, upper->0@) == (i < end));
                }
            }
        }
        (from, to)
    }
}

/// The condition that a row lies in a range and meets another one.
pub open spec fn in_range_and<T>(
    prefix: Seq<u8>,
    cursor: Option<Seq<u8>>,
    p: spec_fn(Row<T>) -> bool,
) -> spec_fn(Row<T>) -> bool {
    |r: Row<T>| in_range(r.key@, prefix, cursor) && p(r)
}

proof fn lemma_tail_after<T>(s: Seq<Row<T>>, p: spec_fn(Row<T>) -> bool, k: int)
    requires
        strictly_ascends(s),
        0 <= k < s.filter(p).len(),
    ensures
        s.filter(|r: Row<T>| p(r) && lex_less(s.filter(p)[k].key@, r.key@)) == s.filter(p).skip(
            k + 1,
        ),
    decreases s.len(),
{
    reveal(Seq::filter);
    let f = s.filter(p);
    let q = |r: Row<T>| p(r) && lex_less(f[k].key@, r.key@);
    if s.len() > 0 {
        let front = s.drop_last();
        let x = s.last();
        let ff = front.filter(p);
        assert(strictly_ascends(front)) by {
            assert forall|i: int, j: int| 0 <= i < j < front.len() implies lex_less(
                (#[trigger] front[i]).sort_key(),
                (#[trigger] front[j]).sort_key(),
            ) by {
                assert(lex_less(s[i].sort_key(), s[j].sort_key()));
            }
        }
        if k < ff.len() {
            assert(f[k] == ff[k]);
            lemma_tail_after(front, p, k);
            let q0 = |r: Row<T>| p(r) && lex_less(ff[k].key@, r.key@);
            crate::seqs::lemma_filter_agree(front, q, q0);
            crate::seqs::lemma_filter_member(front, p, k);
            let at = front.index_of(ff[k]);
            assert(front[at] == s[at]);
            assert(lex_less(s[at].sort_key(), s[s.len() - 1].sort_key()));
            if p(x) {
                assert(f.skip(k + 1) =~= ff.skip(k + 1).push(x));
            }
        } else {
            assert(f[k] == x);
            assert forall|i: int| 0 <= i < front.len() implies !q(#[trigger] front[i]) by {
                assert(front[i] == s[i]);
                assert(lex_less(s[i].sort_key(), s[s.len() - 1].sort_key()));
                lemma_lex_asymmetric(s[i].key@, x.key@);
            }
            crate::seqs::lemma_filter_none(front, q);
            lemma_lex_irreflexive(x.key@);
            assert(s.filter(q) =~= f.skip(k + 1));
        }
    }
}

/// Paging a range neither skips nor repeats: resuming after the last row of a page finds exactly
/// the rows that the page left out.
pub proof fn law_range_pages_chain<T>(
    rows: Seq<Row<T>>,
    prefix: Seq<u8>,
    cursor: Option<Seq<u8>>,
    p: spec_fn(Row<T>) -> bool,
    n: int,
)
    requires
        strictly_ascends(rows),
        0 < n <= rows.filter(in_range_and(prefix, cursor, p)).len(),
    ensures
        rows.filter(
            in_range_and(
                prefix,
                Some(rows.filter(in_range_and(prefix, cursor, p))[n - 1].key@),
                p,
            ),
        ) == rows.filter(in_range_and(prefix, cursor, p)).skip(n),
{
    let both = in_range_and(prefix, cursor, p);
    let found = rows.filter(both);
    let last = found[n - 1];
    lemma_tail_after(rows, both, n - 1);
    crate::seqs::lemma_filter_member(rows, both, n - 1);
    let next = in_range_and(prefix, Some(last.key@), p);
    let tail = |r: Row<T>| both(r) && lex_less(rows.filter(both)[n - 1].key@, r.key@);
    assert forall|i: int| 0 <= i < rows.len() implies next(#[trigger] rows[i]) == tail(rows[i]) by {
        if lex_less(last.key@, rows[i].key@) {
            if cursor is Some {
                lemma_lex_transitive(cursor->0, last.key@, rows[i].key@);
            } else if lex_less(rows[i].key@, prefix) {
                lemma_lex_transitive(last.key@, rows[i].key@, prefix);
            }
        }
    }
    crate::seqs::lemma_filter_agree(rows, next, tail);
}

} // verus!
