//! Facts about filtering and counting sequences that several modules share.
use vstd::prelude::*;

verus! {

/// Filtering a sequence with one more element at its end.
pub proof fn lemma_filter_push<T>(s: Seq<T>, x: T, p: spec_fn(T) -> bool)
    ensures
        s.push(x).filter(p) == (if p(x) { s.filter(p).push(x) } else { s.filter(p) }),
{
    reveal(Seq::filter);
    assert(s.push(x).drop_last() =~= s);
}

/// Filtering the first `n + 1` elements against filtering the first `n`.
pub proof fn lemma_filter_take<T>(s: Seq<T>, n: int, p: spec_fn(T) -> bool)
    requires
        0 <= n < s.len(),
    ensures
        s.take(n + 1).filter(p) == (if p(s[n]) { s.take(n).filter(p).push(s[n]) } else {
            s.take(n).filter(p)
        }),
{
    assert(s.take(n + 1) =~= s.take(n).push(s[n]));
    lemma_filter_push(s.take(n), s[n], p);
}

/// A condition that fails on one element only takes that one out.
pub proof fn lemma_filter_but_one<T>(s: Seq<T>, p: spec_fn(T) -> bool, at: int)
    requires
        0 <= at < s.len(),
        forall|i: int| 0 <= i < s.len() ==> p(#[trigger] s[i]) == (i != at),
    ensures
        s.filter(p) == s.remove(at),
{
    let a = s.take(at);
    let b = s.skip(at);
    assert(s =~= a + b);
    Seq::filter_distributes_over_add(a, b, p);
    assert forall|i: int| 0 <= i < a.len() implies p(#[trigger] a[i]) by {
        assert(a[i] == s[i]);
    }
    lemma_filter_all(a, p);
    assert forall|i: int| 0 <= i < 1 implies !p(#[trigger] b[i]) by {
        assert(b[i] == s[at + i]);
    }
    assert forall|i: int| 1 <= i < b.len() implies p(#[trigger] b[i]) by {
        assert(b[i] == s[at + i]);
    }
    lemma_filter_split(b, 1, p);
    assert(s.remove(at) =~= a + b.skip(1));
}

/// Filters that agree on every element give the same result.
pub proof fn lemma_filter_agree<T>(s: Seq<T>, p: spec_fn(T) -> bool, q: spec_fn(T) -> bool)
    requires
        forall|i: int| 0 <= i < s.len() ==> p(#[trigger] s[i]) == q(s[i]),
    ensures
        s.filter(p) == s.filter(q),
    decreases s.len(),
{
    reveal(Seq::filter);
    if s.len() > 0 {
        assert forall|i: int| 0 <= i < s.drop_last().len() implies p(#[trigger] s.drop_last()[i])
            == q(s.drop_last()[i]) by {
            assert(s.drop_last()[i] == s[i]);
        }
        lemma_filter_agree(s.drop_last(), p, q);
        assert(p(s[s.len() - 1]) == q(s[s.len() - 1]));
    }
}

/// A filter that every element passes keeps the sequence.
pub proof fn lemma_filter_all<T>(s: Seq<T>, p: spec_fn(T) -> bool)
    requires
        forall|i: int| 0 <= i < s.len() ==> p(#[trigger] s[i]),
    ensures
        s.filter(p) == s,
    decreases s.len(),
{
    reveal(Seq::filter);
    if s.len() > 0 {
        assert forall|i: int| 0 <= i < s.drop_last().len() implies p(#[trigger] s.drop_last()[i]) by {
            assert(s.drop_last()[i] == s[i]);
        }
        lemma_filter_all(s.drop_last(), p);
        assert(p(s[s.len() - 1]));
        assert(s.drop_last().push(s.last()) =~= s);
    }
}

/// A filter that no element passes leaves nothing.
pub proof fn lemma_filter_none<T>(s: Seq<T>, p: spec_fn(T) -> bool)
    requires
        forall|i: int| 0 <= i < s.len() ==> !p(#[trigger] s[i]),
    ensures
        s.filter(p).len() == 0,
    decreases s.len(),
{
    reveal(Seq::filter);
    if s.len() > 0 {
        assert forall|i: int| 0 <= i < s.drop_last().len() implies !p(#[trigger] s.drop_last()[i]) by {
            assert(s.drop_last()[i] == s[i]);
        }
        lemma_filter_none(s.drop_last(), p);
        assert(!p(s[s.len() - 1]));
    }
}

/// Where the first `n` elements fail a filter and the rest pass it, the rest is what is left.
pub proof fn lemma_filter_split<T>(s: Seq<T>, n: int, p: spec_fn(T) -> bool)
    requires
        0 <= n <= s.len(),
        forall|i: int| 0 <= i < n ==> !p(#[trigger] s[i]),
        forall|i: int| n <= i < s.len() ==> p(#[trigger] s[i]),
    ensures
        s.filter(p) == s.skip(n),
{
    assert(s =~= s.take(n) + s.skip(n));
    Seq::filter_distributes_over_add(s.take(n), s.skip(n), p);
    assert forall|i: int| 0 <= i < s.take(n).len() implies !p(#[trigger] s.take(n)[i]) by {
        assert(s.take(n)[i] == s[i]);
    }
    lemma_filter_none(s.take(n), p);
    assert forall|i: int| 0 <= i < s.skip(n).len() implies p(#[trigger] s.skip(n)[i]) by {
        assert(s.skip(n)[i] == s[n + i]);
    }
    lemma_filter_all(s.skip(n), p);
    assert(s.take(n).filter(p) + s.skip(n) =~= s.skip(n));
}

/// Filtering twice is filtering by both conditions.
pub proof fn lemma_filter_twice<T>(s: Seq<T>, p: spec_fn(T) -> bool, q: spec_fn(T) -> bool)
    ensures
        s.filter(p).filter(q) == s.filter(|x: T| p(x) && q(x)),
    decreases s.len(),
{
    reveal(Seq::filter);
    if s.len() > 0 {
        lemma_filter_twice(s.drop_last(), p, q);
        if p(s.last()) {
            lemma_filter_push(s.drop_last().filter(p), s.last(), q);
        }
    }
}

/// Filtering a prefix gives a prefix of the filtered sequence.
pub proof fn lemma_filter_prefix<T>(s: Seq<T>, n: int, p: spec_fn(T) -> bool)
    requires
        0 <= n <= s.len(),
    ensures
        s.take(n).filter(p).len() <= s.filter(p).len(),
        s.filter(p).take(s.take(n).filter(p).len() as int) == s.take(n).filter(p),
{
    assert(s =~= s.take(n) + s.skip(n));
    Seq::filter_distributes_over_add(s.take(n), s.skip(n), p);
    assert(s.filter(p).take(s.take(n).filter(p).len() as int) =~= s.take(n).filter(p));
}

/// Where a condition holds exactly on a window, filtering by it and another one is filtering the
/// window by the other.
pub proof fn lemma_filter_window<T>(
    s: Seq<T>,
    from: int,
    to: int,
    p: spec_fn(T) -> bool,
    q: spec_fn(T) -> bool,
)
    requires
        0 <= from <= to <= s.len(),
        forall|i: int| 0 <= i < s.len() ==> p(#[trigger] s[i]) == (from <= i < to),
    ensures
        s.filter(|x: T| p(x) && q(x)) == s.subrange(from, to).filter(q),
{
    let both = |x: T| p(x) && q(x);
    let a = s.take(from);
    let w = s.subrange(from, to);
    let b = s.skip(to);
    assert(s =~= a + w + b);
    Seq::filter_distributes_over_add(a + w, b, both);
    Seq::filter_distributes_over_add(a, w, both);
    assert forall|i: int| 0 <= i < a.len() implies !both(#[trigger] a[i]) by {
        assert(a[i] == s[i]);
    }
    lemma_filter_none(a, both);
    assert forall|i: int| 0 <= i < b.len() implies !both(#[trigger] b[i]) by {
        assert(b[i] == s[to + i]);
    }
    lemma_filter_none(b, both);
    assert forall|i: int| 0 <= i < w.len() implies both(#[trigger] w[i]) == q(w[i]) by {
        assert(w[i] == s[from + i]);
    }
    lemma_filter_agree(w, both, q);
    assert(a.filter(both) + w.filter(q) + b.filter(both) =~= w.filter(q));
}

/// What a filter keeps was there before, and passes.
pub proof fn lemma_filter_member<T>(s: Seq<T>, p: spec_fn(T) -> bool, k: int)
    requires
        0 <= k < s.filter(p).len(),
    ensures
        s.contains(s.filter(p)[k]),
        p(s.filter(p)[k]),
    decreases s.len(),
{
    reveal(Seq::filter);
    if s.len() > 0 {
        let front = s.drop_last();
        if k < front.filter(p).len() {
            lemma_filter_member(front, p, k);
            let i = front.index_of(front.filter(p)[k]);
            assert(s[i] == s.filter(p)[k]);
        } else {
            assert(s[s.len() - 1] == s.filter(p)[k]);
        }
    }
}

/// Sequences with the same elements have the same images.
pub proof fn lemma_map_multiset<A, B>(s: Seq<A>, t: Seq<A>, f: spec_fn(A) -> B)
    requires
        s.to_multiset() == t.to_multiset(),
    ensures
        s.map_values(f).to_multiset() == t.map_values(f).to_multiset(),
    decreases s.len(),
{
    broadcast use vstd::seq_lib::group_to_multiset_ensures;

    assert(s.len() == s.to_multiset().len());
    assert(t.len() == t.to_multiset().len());
    if s.len() == 0 {
        assert(s.map_values(f) =~= t.map_values(f));
    } else {
        let x = s.last();
        assert(s.to_multiset().count(x) > 0) by {
            assert(s[s.len() - 1] == x);
            assert(s.contains(x));
        }
        assert(t.contains(x));
        let k = t.index_of(x);
        let t2 = t.remove(k);
        assert(s.remove(s.len() - 1) =~= s.drop_last());
        assert(s.drop_last().to_multiset() =~= s.to_multiset().remove(x));
        assert(t2.to_multiset() =~= t.to_multiset().remove(x));
        lemma_map_multiset(s.drop_last(), t2, f);
        assert(s.map_values(f) =~= s.drop_last().map_values(f).push(f(x)));
        assert(t.map_values(f).remove(k) =~= t2.map_values(f));
        assert(t.map_values(f)[k] == f(x));
        let ms = s.map_values(f);
        let mt = t.map_values(f);
        assert(ms.to_multiset() =~= s.drop_last().map_values(f).to_multiset().insert(f(x)));
        assert(mt.remove(k).to_multiset() =~= mt.to_multiset().remove(f(x)));
        assert(mt.contains(f(x)));
        assert(mt.to_multiset().remove(f(x)).insert(f(x)) =~= mt.to_multiset());
    }
}

/// A filter keeps no more than there was.
pub proof fn lemma_filter_fits<T>(s: Seq<T>, p: spec_fn(T) -> bool)
    ensures
        s.filter(p).len() <= s.len(),
    decreases s.len(),
{
    reveal(Seq::filter);
    if s.len() > 0 {
        lemma_filter_fits(s.drop_last(), p);
    }
}

/// What meets the condition is kept.
pub proof fn lemma_filter_holds<T>(s: Seq<T>, p: spec_fn(T) -> bool, k: int)
    requires
        0 <= k < s.len(),
        p(s[k]),
    ensures
        exists|i: int| 0 <= i < s.filter(p).len() && #[trigger] s.filter(p)[i] == s[k],
    decreases s.len(),
{
    reveal(Seq::filter);
    let front = s.drop_last();
    let f = front.filter(p);
    if k < front.len() {
        lemma_filter_holds(front, p, k);
        let i = choose|i: int| 0 <= i < f.len() && #[trigger] f[i] == front[k];
        assert(s.filter(p)[i] == s[k]);
    } else {
        assert(s.filter(p)[f.len() as int] == s[k]);
    }
}

} // verus!
