//! Mining the same commits again: what a walk over commits counts decides which proposals there are.
use vstd::prelude::*;

use crate::cochange::{counts_are, numbered, CoChange, CommitFiles};
use crate::memory::IndexDb;
use crate::memory_tools::{is_mining, mines, ProposalsMineResponse};
use crate::proposal_ops::{lemma_kinds_apart, mined_upto, proposal_facts, skill_key, tombstone_key};
use crate::proposals::{
    anchors_pair, are_proposals, cluster_of, has_id, id_of, in_cluster, is_anchor, is_cluster,
    lemma_cluster_unique, proposes, shared, MineBounds, ProposalFact, ProposalItem,
};
use crate::text::{lemma_lex_total, lemma_lex_transitive, lex_ascends, lex_less};

verus! {

// ─── Every cluster can be listed ─────────────────────────────────────────────

/// An ascending list with one more path in its place.
proof fn lemma_inserted(t: Seq<Seq<u8>>, x: Seq<u8>) -> (s: Seq<Seq<u8>>)
    requires
        lex_ascends(t),
        !t.contains(x),
    ensures
        lex_ascends(s),
        forall|p: Seq<u8>| #[trigger] s.contains(p) <==> t.contains(p) || p == x,
    decreases t.len(),
{
    if t.len() == 0 || lex_less(t.last(), x) {
        let s = t.push(x);
        assert forall|i: int, j: int| 0 <= i < j < s.len() implies lex_less(
            #[trigger] s[i],
            #[trigger] s[j],
        ) by {
            if j == t.len() && i < t.len() - 1 {
                assert(lex_less(t[i], t[t.len() - 1]));
                lemma_lex_transitive(t[i], t.last(), x);
            }
        }
        assert forall|p: Seq<u8>| #[trigger] s.contains(p) <==> t.contains(p) || p == x by {
            if t.contains(p) {
                assert(s[t.index_of(p)] == p);
            }
            assert(s[t.len() as int] == x);
        }
        s
    } else {
        let front = t.drop_last();
        let last = t.last();
        assert(t[t.len() - 1] == last);
        lemma_lex_total(last, x);
        assert(!front.contains(x)) by {
            if front.contains(x) {
                assert(t[front.index_of(x)] == x);
            }
        }
        let low = lemma_inserted(front, x);
        let s = low.push(last);
        assert forall|i: int, j: int| 0 <= i < j < s.len() implies lex_less(
            #[trigger] s[i],
            #[trigger] s[j],
        ) by {
            if j == low.len() {
                assert(low.contains(low[i]));
                if low[i] != x {
                    let k = front.index_of(low[i]);
                    assert(lex_less(t[k], t[t.len() - 1]));
                }
            }
        }
        assert forall|p: Seq<u8>| #[trigger] s.contains(p) <==> t.contains(p) || p == x by {
            if t.contains(p) {
                let k = t.index_of(p);
                if k < front.len() {
                    assert(front[k] == p);
                    assert(low.contains(p));
                    assert(s[low.index_of(p)] == p);
                } else {
                    assert(s[low.len() as int] == p);
                }
            }
            if p == x {
                assert(low.contains(x));
                assert(s[low.index_of(x)] == x);
            }
            if s.contains(p) {
                let k = s.index_of(p);
                if k < low.len() {
                    assert(low.contains(low[k]));
                    if p != x {
                        assert(t[front.index_of(p)] == p);
                    }
                }
            }
        }
        s
    }
}

/// `p` is the path of a file below `n` in the cluster of `a`.
spec fn clustered<F: Fn(u32, u32) -> bool>(
    cc: CoChange,
    a: int,
    min_support: u32,
    f: F,
    n: int,
    p: Seq<u8>,
) -> bool {
    exists|i: int|
        0 <= i < n && (#[trigger] cc.files@[i])@ == p && in_cluster(cc, a, i, min_support, f)
}

proof fn lemma_listed<F: Fn(u32, u32) -> bool>(
    cc: CoChange,
    a: int,
    min_support: u32,
    f: F,
    n: int,
) -> (s: Seq<Seq<u8>>)
    requires
        0 <= n <= cc.files@.len(),
    ensures
        lex_ascends(s),
        forall|p: Seq<u8>| #[trigger] s.contains(p) <==> clustered(cc, a, min_support, f, n, p),
    decreases n,
{
    if n == 0 {
        Seq::empty()
    } else {
        let t = lemma_listed(cc, a, min_support, f, n - 1);
        let x = cc.files@[n - 1]@;
        let more = in_cluster(cc, a, n - 1, min_support, f);
        let s = if more && !t.contains(x) {
            lemma_inserted(t, x)
        } else {
            t
        };
        assert forall|p: Seq<u8>| #[trigger] s.contains(p) <==> clustered(
            cc,
            a,
            min_support,
            f,
            n,
            p,
        ) by {
            assert(t.contains(p) <==> clustered(cc, a, min_support, f, n - 1, p));
            if clustered(cc, a, min_support, f, n - 1, p) {
                let i = choose|i: int|
                    0 <= i < n - 1 && (#[trigger] cc.files@[i])@ == p && in_cluster(
                        cc,
                        a,
                        i,
                        min_support,
                        f,
                    );
                assert(cc.files@[i]@ == p);
            }
            if more && p == x {
                assert(cc.files@[n - 1]@ == p);
            }
        }
        s
    }
}

/// The cluster of a file is what its definition says.
proof fn lemma_cluster<F: Fn(u32, u32) -> bool>(cc: CoChange, a: int, min_support: u32, f: F)
    ensures
        is_cluster(cluster_of(cc, a, min_support, f), cc, a, min_support, f),
{
    let s = lemma_listed(cc, a, min_support, f, cc.files@.len() as int);
    assert(is_cluster(s, cc, a, min_support, f)) by {
        assert forall|p: Seq<u8>| #[trigger] s.contains(p) <==> exists|i: int|
            0 <= i < cc.files@.len() && (#[trigger] cc.files@[i])@ == p && in_cluster(
                cc,
                a,
                i,
                min_support,
                f,
            ) by {
            assert(s.contains(p) <==> clustered(
                cc,
                a,
                min_support,
                f,
                cc.files@.len() as int,
                p,
            ));
        }
    }
}

// ─── The counts decide the proposals ─────────────────────────────────────────

/// Two walks counted the same.
spec fn alike(x: CoChange, y: CoChange) -> bool {
    &&& x.wf()
    &&& y.wf()
    &&& numbered(x.files@) == numbered(y.files@)
    &&& x.freq@ == y.freq@
    &&& forall|i: int, j: int|
        0 <= i <= j < x.files@.len() ==> #[trigger] x.count(i, j) == y.count(i, j)
}

proof fn lemma_counted_alike(x: CoChange, y: CoChange, commits: Seq<CommitFiles>, max: int, n: int)
    requires
        x.wf(),
        y.wf(),
        counts_are(x, commits, max, n),
        counts_are(y, commits, max, n),
    ensures
        alike(x, y),
        alike(y, x),
{
    x.lemma_facts();
    y.lemma_facts();
    assert(numbered(x.files@).len() == x.files@.len());
    assert(numbered(y.files@).len() == y.files@.len());
    assert forall|i: int| 0 <= i < x.files@.len() implies (#[trigger] x.files@[i])@
        == y.files@[i]@ by {
        assert(numbered(x.files@)[i] == numbered(y.files@)[i]);
    }
    assert forall|i: int| 0 <= i < x.freq@.len() implies x.freq@[i] == y.freq@[i] by {
        assert(x.files@[i]@ == y.files@[i]@);
        let f = y.files@[i];
    }
    assert(x.freq@ =~= y.freq@);
    assert forall|i: int, j: int| 0 <= i <= j < x.files@.len() implies #[trigger] x.count(i, j)
        == y.count(i, j) by {
        assert(x.files@[i]@ == y.files@[i]@ && x.files@[j]@ == y.files@[j]@);
        assert(y.count(i, j) == y.count(i, j));
    }
}

proof fn lemma_anchor_alike<F: Fn(u32, u32) -> bool>(
    x: CoChange,
    y: CoChange,
    a: int,
    min_support: u32,
    f: F,
)
    requires
        alike(x, y),
        is_anchor(x, a, min_support, f),
    ensures
        is_anchor(y, a, min_support, f),
{
    x.lemma_facts();
    y.lemma_facts();
    let k = choose|k: int| 0 <= k < x.pairs@.len() && anchors_pair(x, a, k, min_support, f);
    let pair = x.pairs@[k];
    assert(numbered(x.files@).len() == x.files@.len());
    assert(x.count(pair.0 as int, pair.1 as int) == y.count(pair.0 as int, pair.1 as int));
    assert(y.pairs@.contains((pair.0, pair.1)));
    let l = y.pairs@.index_of(pair);
    assert(anchors_pair(y, a, l, min_support, f));
}

proof fn lemma_cluster_alike<F: Fn(u32, u32) -> bool>(
    x: CoChange,
    y: CoChange,
    a: int,
    min_support: u32,
    f: F,
)
    requires
        alike(x, y),
        0 <= a < x.files@.len(),
    ensures
        cluster_of(x, a, min_support, f) == cluster_of(y, a, min_support, f),
{
    let s = cluster_of(x, a, min_support, f);
    lemma_cluster(x, a, min_support, f);
    assert(numbered(x.files@).len() == x.files@.len());
    assert(numbered(y.files@).len() == y.files@.len());
    assert forall|i: int| 0 <= i < x.files@.len() implies (#[trigger] x.files@[i])@ == y.files@[i]@
        && in_cluster(x, a, i, min_support, f) == in_cluster(y, a, i, min_support, f) by {
        assert(numbered(x.files@)[i] == numbered(y.files@)[i]);
        assert(shared(x, a, i) == shared(y, a, i));
    }
    assert(is_cluster(s, y, a, min_support, f)) by {
        assert forall|p: Seq<u8>| #[trigger] s.contains(p) <==> exists|i: int|
            0 <= i < y.files@.len() && (#[trigger] y.files@[i])@ == p && in_cluster(
                y,
                a,
                i,
                min_support,
                f,
            ) by {
            if s.contains(p) {
                let i = choose|i: int|
                    0 <= i < x.files@.len() && (#[trigger] x.files@[i])@ == p && in_cluster(
                        x,
                        a,
                        i,
                        min_support,
                        f,
                    );
                assert(y.files@[i]@ == p);
            }
            if exists|i: int|
                0 <= i < y.files@.len() && (#[trigger] y.files@[i])@ == p && in_cluster(
                    y,
                    a,
                    i,
                    min_support,
                    f,
                ) {
                let i = choose|i: int|
                    0 <= i < y.files@.len() && (#[trigger] y.files@[i])@ == p && in_cluster(
                        y,
                        a,
                        i,
                        min_support,
                        f,
                    );
                assert(x.files@[i]@ == p);
            }
        }
    }
    lemma_cluster_unique(s, y, a, min_support, f);
}

/// Every proposal of the one walk has its id among those of the other.
proof fn lemma_same_ids<F: Fn(u32, u32) -> bool>(
    x: CoChange,
    y: CoChange,
    mine: Seq<ProposalItem>,
    at: Seq<int>,
    theirs: Seq<ProposalItem>,
    there: Seq<int>,
    b: MineBounds,
    now: i64,
    later: i64,
    f: F,
    k: int,
)
    requires
        alike(x, y),
        are_proposals(mine, at, x, b, now, f, x.files@.len() as int),
        are_proposals(theirs, there, y, b, later, f, y.files@.len() as int),
        0 <= k < mine.len(),
    ensures
        has_id(theirs, mine[k].id@),
{
    let a = at[k];
    assert(proposes(x, a, b, f));
    assert(numbered(x.files@).len() == x.files@.len());
    assert(numbered(y.files@).len() == y.files@.len());
    lemma_anchor_alike(x, y, a, b.min_support, f);
    lemma_cluster_alike(x, y, a, b.min_support, f);
    assert(proposes(y, a, b, f));
    let l = choose|l: int|
        0 <= l < theirs.len() && (#[trigger] theirs[l]).id@ == id_of(
            cluster_of(y, a, b.min_support, f),
        ) && there[l] <= a;
    assert(theirs[l].id@ == mine[k].id@);
}

// ─── The rows ────────────────────────────────────────────────────────────────

/// `raw` is the key of one of the first `n` candidates, which has no tombstone.
spec fn adds(
    m: Map<Seq<u8>, Option<ProposalFact>>,
    scope: Seq<char>,
    items: Seq<ProposalItem>,
    n: int,
    raw: Seq<u8>,
) -> bool {
    exists|k: int|
        0 <= k < n && raw == skill_key(scope, (#[trigger] items[k]).id@) && !m.contains_key(
            tombstone_key(scope, items[k].id@),
        )
}

/// Mining adds the keys of its candidates, but for those with a tombstone, and no tombstone.
proof fn lemma_rows(
    m: Map<Seq<u8>, Option<ProposalFact>>,
    scope: Seq<char>,
    items: Seq<ProposalItem>,
    n: int,
)
    requires
        0 <= n <= items.len(),
    ensures
        forall|raw: Seq<u8>| #[trigger]
            mined_upto(m, scope, items, n).contains_key(raw) <==> m.contains_key(raw) || adds(
                m,
                scope,
                items,
                n,
                raw,
            ),
        forall|id: Seq<char>|
            mined_upto(m, scope, items, n).contains_key(#[trigger] tombstone_key(scope, id))
                == m.contains_key(tombstone_key(scope, id)),
    decreases n,
{
    let after = mined_upto(m, scope, items, n);
    if n > 0 {
        lemma_rows(m, scope, items, n - 1);
        let before = mined_upto(m, scope, items, n - 1);
        let id = items[n - 1].id@;
        assert(before.contains_key(tombstone_key(scope, id)) == m.contains_key(
            tombstone_key(scope, id),
        ));
        assert forall|raw: Seq<u8>| #[trigger] after.contains_key(raw) <==> m.contains_key(raw)
            || adds(m, scope, items, n, raw) by {
            assert(before.contains_key(raw) <==> m.contains_key(raw) || adds(
                m,
                scope,
                items,
                n - 1,
                raw,
            ));
            if adds(m, scope, items, n - 1, raw) {
                let k = choose|k: int|
                    0 <= k < n - 1 && raw == skill_key(scope, (#[trigger] items[k]).id@)
                        && !m.contains_key(tombstone_key(scope, items[k].id@));
                assert(raw == skill_key(scope, items[k].id@));
            }
            if raw == skill_key(scope, id) && !m.contains_key(tombstone_key(scope, id)) {
                assert(raw == skill_key(scope, items[n - 1].id@));
            }
        }
        assert forall|t: Seq<char>|
            after.contains_key(#[trigger] tombstone_key(scope, t)) == m.contains_key(
                tombstone_key(scope, t),
            ) by {
            lemma_kinds_apart(scope, id, t);
        }
    }
}

/// Mining the same commits again leaves the same proposals: after the second time the rows are under
/// the keys that they were under after the first. A cluster that is mined again is overwritten.
pub proof fn law_mining_twice_keeps_the_ids<F: Fn(u32, u32) -> bool>(
    before: IndexDb,
    once: IndexDb,
    twice: IndexDb,
    scope: Seq<char>,
    commits: Seq<CommitFiles>,
    b: MineBounds,
    now: i64,
    later: i64,
    f: F,
    first: ProposalsMineResponse,
    second: ProposalsMineResponse,
)
    requires
        mines(before, once, scope, commits, b, now, f, first),
        mines(once, twice, scope, commits, b, later, f, second),
    ensures
        twice.proposals.map().dom() == once.proposals.map().dom(),
{
    let (x, mine) = choose|x: CoChange, mine: Seq<ProposalItem>| #[trigger]
        is_mining(before, once, scope, commits, b, now, f, first, x, mine);
    let (y, theirs) = choose|y: CoChange, theirs: Seq<ProposalItem>| #[trigger]
        is_mining(once, twice, scope, commits, b, later, f, second, y, theirs);
    let at = choose|at: Seq<int>| #[trigger]
        are_proposals(mine, at, x, b, now, f, x.files@.len() as int);
    let there = choose|there: Seq<int>| #[trigger]
        are_proposals(theirs, there, y, b, later, f, y.files@.len() as int);
    let m = proposal_facts(before.proposals.map());
    let m1 = proposal_facts(once.proposals.map());
    let m2 = proposal_facts(twice.proposals.map());
    lemma_counted_alike(x, y, commits, b.max_files_per_commit as int, commits.len() as int);
    lemma_rows(m, scope, mine, mine.len() as int);
    lemma_rows(m1, scope, theirs, theirs.len() as int);
    assert forall|raw: Seq<u8>| #[trigger]
        twice.proposals.map().dom().contains(raw) <==> once.proposals.map().dom().contains(raw) by {
        assert(m1.contains_key(raw) == once.proposals.map().contains_key(raw));
        assert(m2.contains_key(raw) == twice.proposals.map().contains_key(raw));
        if adds(m1, scope, theirs, theirs.len() as int, raw) {
            let k = choose|k: int|
                0 <= k < theirs.len() && raw == skill_key(scope, (#[trigger] theirs[k]).id@)
                    && !m1.contains_key(tombstone_key(scope, theirs[k].id@));
            lemma_same_ids(y, x, theirs, there, mine, at, b, later, now, f, k);
            let l = choose|l: int| 0 <= l < mine.len() && (#[trigger] mine[l]).id@ == theirs[k].id@;
            assert(raw == skill_key(scope, mine[l].id@));
            assert(adds(m, scope, mine, mine.len() as int, raw));
        }
    }
    assert(twice.proposals.map().dom() =~= once.proposals.map().dom());
}

} // verus!
