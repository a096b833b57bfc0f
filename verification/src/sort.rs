//! Sorting by a byte-string key.
use vstd::prelude::*;

use crate::text::{
    bytes_less, lemma_lex_asymmetric, lemma_lex_total, lemma_lex_transitive, lex_less,
};

verus! {

/// A value that is ordered by a byte string.
pub trait Keyed {
    /// The byte string by which the value is ordered.
    spec fn sort_key(&self) -> Seq<u8>;

    /// The byte string by which the value is ordered.
    fn key_bytes(&self) -> (k: &[u8])
        ensures
            k@ == self.sort_key(),
    ;
}

/// `x` may stand before `y` in the given direction.
pub open spec fn may_precede(x: Seq<u8>, y: Seq<u8>, ascending: bool) -> bool {
    if ascending {
        !lex_less(y, x)
    } else {
        !lex_less(x, y)
    }
}

/// The keys of `s` run in the given direction.
pub open spec fn runs<T: Keyed>(s: Seq<T>, ascending: bool) -> bool {
    forall|i: int, j: int|
        0 <= i < j < s.len() ==> may_precede(
            (#[trigger] s[i]).sort_key(),
            (#[trigger] s[j]).sort_key(),
            ascending,
        )
}

/// The keys of `s` strictly ascend.
pub open spec fn strictly_ascends<T: Keyed>(s: Seq<T>) -> bool {
    forall|i: int, j: int|
        0 <= i < j < s.len() ==> lex_less((#[trigger] s[i]).sort_key(), (#[trigger] s[j]).sort_key())
}

/// Strictly ascending keys ascend.
pub proof fn lemma_strict_runs<T: Keyed>(s: Seq<T>)
    requires
        strictly_ascends(s),
    ensures
        runs(s, true),
{
    assert forall|i: int, j: int| 0 <= i < j < s.len() implies may_precede(
        (#[trigger] s[i]).sort_key(),
        (#[trigger] s[j]).sort_key(),
        true,
    ) by {
        lemma_lex_asymmetric(s[i].sort_key(), s[j].sort_key());
    }
}

proof fn lemma_precede_chain(x: Seq<u8>, y: Seq<u8>, z: Seq<u8>, ascending: bool)
    requires
        may_precede(x, y, ascending),
        may_precede(y, z, ascending),
    ensures
        may_precede(x, z, ascending),
{
    lemma_lex_total(x, y);
    lemma_lex_total(y, z);
    if ascending {
        if lex_less(z, x) {
            if lex_less(x, y) {
                lemma_lex_transitive(z, x, y);
            }
        }
    } else {
        if lex_less(x, z) {
            if lex_less(y, x) {
                lemma_lex_transitive(y, x, z);
            }
        }
    }
}

/// Every element of `front` may stand before every element of `back`.
spec fn all_precede<T: Keyed>(front: Seq<T>, back: Seq<T>, ascending: bool) -> bool {
    forall|i: int, j: int|
        0 <= i < front.len() && 0 <= j < back.len() ==> may_precede(
            (#[trigger] front[i]).sort_key(),
            (#[trigger] back[j]).sort_key(),
            ascending,
        )
}

proof fn lemma_take_one<T: Keyed>(
    out: Seq<T>,
    from: Seq<T>,
    other: Seq<T>,
    ascending: bool,
)
    requires
        from.len() > 0,
        runs(out, ascending),
        runs(from, !ascending),
        runs(other, !ascending),
        all_precede(out, from, ascending),
        all_precede(out, other, ascending),
        other.len() > 0 ==> may_precede(
            from.last().sort_key(),
            other.last().sort_key(),
            ascending,
        ),
    ensures
        runs(out.push(from.last()), ascending),
        runs(from.drop_last(), !ascending),
        all_precede(out.push(from.last()), from.drop_last(), ascending),
        all_precede(out.push(from.last()), other, ascending),
        out.push(from.last()).to_multiset().add(from.drop_last().to_multiset()).add(
            other.to_multiset(),
        ) == out.to_multiset().add(from.to_multiset()).add(other.to_multiset()),
{
    broadcast use vstd::seq_lib::group_to_multiset_ensures;

    let x = from.last();
    let grown = out.push(x);
    let left = from.drop_last();
    assert(from =~= left.push(x));
    assert forall|i: int, j: int| 0 <= i < grown.len() && 0 <= j < left.len() implies may_precede(
        (#[trigger] grown[i]).sort_key(),
        (#[trigger] left[j]).sort_key(),
        ascending,
    ) by {
        assert(left[j] == from[j]);
        if i < out.len() {
            assert(grown[i] == out[i]);
        } else {
            assert(may_precede(from[j].sort_key(), from[from.len() - 1].sort_key(), !ascending));
        }
    }
    assert forall|i: int, j: int| 0 <= i < grown.len() && 0 <= j < other.len() implies may_precede(
        (#[trigger] grown[i]).sort_key(),
        (#[trigger] other[j]).sort_key(),
        ascending,
    ) by {
        if i < out.len() {
            assert(grown[i] == out[i]);
        } else if j < other.len() - 1 {
            assert(may_precede(other[j].sort_key(), other[other.len() - 1].sort_key(), !ascending));
            lemma_precede_chain(
                x.sort_key(),
                other.last().sort_key(),
                other[j].sort_key(),
                ascending,
            );
        }
    }
    assert forall|i: int, j: int| 0 <= i < j < grown.len() implies may_precede(
        (#[trigger] grown[i]).sort_key(),
        (#[trigger] grown[j]).sort_key(),
        ascending,
    ) by {
        assert(grown[i] == out[i]);
        if j < out.len() {
            assert(grown[j] == out[j]);
        } else {
            assert(grown[j] == from[from.len() - 1]);
        }
    }
    assert(out.push(x).to_multiset() =~= out.to_multiset().insert(x));
    assert(from.to_multiset() =~= left.to_multiset().insert(x));
    assert(grown.to_multiset().add(left.to_multiset()).add(other.to_multiset())
        =~= out.to_multiset().add(from.to_multiset()).add(other.to_multiset()));
}

/// Merge two lists that run against `ascending` into one that runs along it.
fn merge<T: Keyed>(a: Vec<T>, b: Vec<T>, ascending: bool) -> (out: Vec<T>)
    requires
        runs(a@, !ascending),
        runs(b@, !ascending),
    ensures
        runs(out@, ascending),
        out@.to_multiset() == a@.to_multiset().add(b@.to_multiset()),
{
    broadcast use vstd::seq_lib::group_to_multiset_ensures;

    let ghost all = a@.to_multiset().add(b@.to_multiset());
    let mut a = a;
    let mut b = b;
    let mut out: Vec<T> = Vec::new();
    assert(out@.to_multiset().add(a@.to_multiset()).add(b@.to_multiset()) =~= all);
    while a.len() > 0 || b.len() > 0
        invariant
            runs(a@, !ascending),
            runs(b@, !ascending),
            runs(out@, ascending),
            all_precede(out@, a@, ascending),
            all_precede(out@, b@, ascending),
            out@.to_multiset().add(a@.to_multiset()).add(b@.to_multiset()) == all,
        decreases a.len() + b.len(),
    {
        let from_a: bool = if a.len() == 0 {
            false
        } else if b.len() == 0 {
            true
        } else {
            let x = a[a.len() - 1].key_bytes();
            let y = b[b.len() - 1].key_bytes();
            if ascending {
                !bytes_less(y, x)
            } else {
                !bytes_less(x, y)
            }
        };
        proof {
            if from_a {
                lemma_take_one(out@, a@, b@, ascending);
            } else {
                if a.len() > 0 {
                    lemma_lex_total(a@.last().sort_key(), b@.last().sort_key());
                    if ascending {
                        lemma_lex_asymmetric(b@.last().sort_key(), a@.last().sort_key());
                    } else {
                        lemma_lex_asymmetric(a@.last().sort_key(), b@.last().sort_key());
                    }
                }
                lemma_take_one(out@, b@, a@, ascending);
                assert(out@.push(b@.last()).to_multiset().add(a@.to_multiset()).add(
                    b@.drop_last().to_multiset(),
                ) =~= out@.push(b@.last()).to_multiset().add(b@.drop_last().to_multiset()).add(
                    a@.to_multiset(),
                ));
                assert(out@.to_multiset().add(b@.to_multiset()).add(a@.to_multiset()) =~= all);
            }
        }
        let next = if from_a {
            a.pop()
        } else {
            b.pop()
        };
        match next {
            Some(x) => out.push(x),
            None => {},
        }
    }
    assert(a@ =~= Seq::empty());
    assert(b@ =~= Seq::empty());
    assert(out@.to_multiset() =~= all);
    out
}

/// The elements of `v` with their keys running in the given direction.
pub fn sort_toward<T: Keyed>(v: Vec<T>, ascending: bool) -> (out: Vec<T>)
    ensures
        runs(out@, ascending),
        out@.to_multiset() == v@.to_multiset(),
    decreases v@.len(),
{
    broadcast use vstd::seq_lib::group_to_multiset_ensures;

    if v.len() < 2 {
        return v;
    }
    let ghost whole = v@;
    let mut left = v;
    let mid: usize = left.len() / 2;
    let right = left.split_off(mid);
    proof {
        assert(whole =~= left@ + right@);
        vstd::seq_lib::lemma_multiset_commutative(left@, right@);
    }
    let l = sort_toward(left, !ascending);
    let r = sort_toward(right, !ascending);
    merge(l, r, ascending)
}

/// The elements of `v` in ascending order of their keys.
pub fn sort_by_key<T: Keyed>(v: Vec<T>) -> (out: Vec<T>)
    ensures
        runs(out@, true),
        out@.to_multiset() == v@.to_multiset(),
        out@.len() == v@.len(),
        forall|x: T| #[trigger] out@.contains(x) == v@.contains(x),
{
    broadcast use vstd::seq_lib::group_to_multiset_ensures;

    let ghost whole = v@;
    let out = sort_toward(v, true);
    assert(out@.to_multiset().len() == whole.to_multiset().len());
    assert forall|x: T| #[trigger] out@.contains(x) == whole.contains(x) by {
        assert(out@.contains(x) <==> out@.to_multiset().count(x) > 0);
        assert(whole.contains(x) <==> whole.to_multiset().count(x) > 0);
    }
    out
}

/// Whether `k` comes after `cursor`; every key comes after no cursor at all.
pub open spec fn comes_after(cursor: Option<Seq<u8>>, k: Seq<u8>) -> bool {
    match cursor {
        Some(c) => lex_less(c, k),
        None => true,
    }
}

/// The bytes of an optional cursor.
pub open spec fn cursor_bytes(cursor: Option<&[u8]>) -> Option<Seq<u8>> {
    match cursor {
        Some(c) => Some(c@),
        None => None,
    }
}

/// The first position of the ascending list `s` whose key comes after `cursor`.
pub fn first_after<T: Keyed>(s: &[T], cursor: Option<&[u8]>) -> (at: usize)
    requires
        runs(s@, true),
    ensures
        at <= s@.len(),
        forall|i: int|
            0 <= i < at ==> !comes_after(cursor_bytes(cursor), (#[trigger] s@[i]).sort_key()),
        forall|i: int|
            at <= i < s@.len() ==> comes_after(cursor_bytes(cursor), (#[trigger] s@[i]).sort_key()),
{
    let c = match cursor {
        None => {
            return 0;
        },
        Some(c) => c,
    };
    let mut lo: usize = 0;
    let mut hi: usize = s.len();
    while lo < hi
        invariant
            lo <= hi <= s@.len(),
            runs(s@, true),
            forall|i: int| 0 <= i < lo ==> !lex_less(c@, (#[trigger] s@[i]).sort_key()),
            forall|i: int| hi <= i < s@.len() ==> lex_less(c@, (#[trigger] s@[i]).sort_key()),
        decreases hi - lo,
    {
        let mid: usize = lo + (hi - lo) / 2;
        let ghost m = s@[mid as int].sort_key();
        if bytes_less(c, s[mid].key_bytes()) {
            proof {
                assert forall|i: int| mid <= i < s@.len() implies lex_less(
                    c@,
                    (#[trigger] s@[i]).sort_key(),
                ) by {
                    if mid < i {
                        assert(may_precede(m, s@[i].sort_key(), true));
                        lemma_lex_total(m, s@[i].sort_key());
                        if lex_less(m, s@[i].sort_key()) {
                            lemma_lex_transitive(c@, m, s@[i].sort_key());
                        }
                    }
                }
            }
            hi = mid;
        } else {
            proof {
                assert forall|i: int| 0 <= i < mid + 1 implies !lex_less(
                    c@,
                    (#[trigger] s@[i]).sort_key(),
                ) by {
                    if i < mid && lex_less(c@, s@[i].sort_key()) {
                        assert(may_precede(s@[i].sort_key(), m, true));
                        lemma_lex_total(s@[i].sort_key(), m);
                        if lex_less(s@[i].sort_key(), m) {
                            lemma_lex_transitive(c@, s@[i].sort_key(), m);
                        }
                    }
                }
            }
            lo = mid + 1;
        }
    }
    lo
}

} // verus!
