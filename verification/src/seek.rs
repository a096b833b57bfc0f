//! Byte search. The calls into `memchr` stand here, each with the contract that the rest of the
//! library relies on.
use vstd::prelude::*;

use crate::text::{holds_seq, occurs_at};

verus! {

/// The positions at which `needle` stands in `hay`, in ascending order.
pub open spec fn positions_of(needle: u8, hay: Seq<u8>) -> Seq<usize>
    decreases hay.len(),
{
    if hay.len() == 0 {
        Seq::empty()
    } else if hay.last() == needle {
        positions_of(needle, hay.drop_last()).push((hay.len() - 1) as usize)
    } else {
        positions_of(needle, hay.drop_last())
    }
}

/// How often `needle` stands in `hay`.
pub open spec fn count_of(needle: u8, hay: Seq<u8>) -> nat {
    positions_of(needle, hay).len()
}

/// `memchr::memchr`: the first position of `needle` in `hay`, or `None` where it does not occur.
#[verifier::external_body]
pub(crate) fn first_byte(needle: u8, hay: &[u8]) -> (at: Option<usize>)
    ensures
        match at {
            Some(i) => i < hay@.len() && hay@[i as int] == needle && forall|j: int|
                0 <= j < i ==> hay@[j] != needle,
            None => forall|j: int| 0 <= j < hay@.len() ==> hay@[j] != needle,
        },
{
    memchr::memchr(needle, hay)
}

/// `memchr::memrchr`: the last position of `needle` in `hay`, or `None` where it does not occur.
#[verifier::external_body]
pub(crate) fn last_byte(needle: u8, hay: &[u8]) -> (at: Option<usize>)
    ensures
        match at {
            Some(i) => i < hay@.len() && hay@[i as int] == needle && forall|j: int|
                i < j < hay@.len() ==> hay@[j] != needle,
            None => forall|j: int| 0 <= j < hay@.len() ==> hay@[j] != needle,
        },
{
    memchr::memrchr(needle, hay)
}

/// `memchr::memchr_iter`: every position of `needle` in `hay`, in ascending order.
#[verifier::external_body]
pub(crate) fn byte_positions(needle: u8, hay: &[u8]) -> (at: Vec<usize>)
    ensures
        at@ == positions_of(needle, hay@),
{
    memchr::memchr_iter(needle, hay).collect()
}

/// `memchr::memmem::find`: the first position at which the byte string `needle` stands in `hay`,
/// or `None` where it does not occur. The empty needle stands at position 0.
#[verifier::external_body]
pub(crate) fn first_match(hay: &[u8], needle: &[u8]) -> (at: Option<usize>)
    ensures
        match at {
            Some(i) => occurs_at(hay@, needle@, i as int) && forall|j: int|
                0 <= j < i ==> !#[trigger] occurs_at(hay@, needle@, j),
            None => forall|j: int| !#[trigger] occurs_at(hay@, needle@, j),
        },
{
    memchr::memmem::find(hay, needle)
}

/// Whether the byte string `needle` stands anywhere in `hay`.
pub fn bytes_hold(hay: &[u8], needle: &[u8]) -> (yes: bool)
    ensures
        yes == holds_seq(hay@, needle@),
{
    match first_match(hay, needle) {
        Some(i) => {
            assert(occurs_at(hay@, needle@, i as int));
            true
        },
        None => false,
    }
}

/// Every position lies inside the searched bytes and holds the needle, every holding position is
/// listed, and the list ascends.
pub proof fn lemma_positions(needle: u8, hay: Seq<u8>)
    requires
        hay.len() <= usize::MAX,
    ensures
        forall|k: int|
            0 <= k < positions_of(needle, hay).len() ==> {
                let p = #[trigger] positions_of(needle, hay)[k] as int;
                0 <= p < hay.len() && hay[p] == needle
            },
        forall|k: int, l: int|
            0 <= k < l < positions_of(needle, hay).len() ==> positions_of(needle, hay)[k]
                < positions_of(needle, hay)[l],
        forall|j: int|
            0 <= j < hay.len() && hay[j] == needle ==> #[trigger] positions_of(
                needle,
                hay,
            ).contains(j as usize),
        positions_of(needle, hay).len() <= hay.len(),
    decreases hay.len(),
{
    if hay.len() > 0 {
        let front = hay.drop_last();
        lemma_positions(needle, front);
        let ps = positions_of(needle, hay);
        let fs = positions_of(needle, front);
        assert forall|j: int| 0 <= j < hay.len() && hay[j] == needle implies #[trigger] ps.contains(
            j as usize,
        ) by {
            if j == hay.len() - 1 {
                assert(ps[ps.len() - 1] == j as usize);
            } else {
                assert(front[j] == needle);
                assert(fs.contains(j as usize));
                let k = fs.index_of(j as usize);
                assert(ps[k] == j as usize);
            }
        }
    }
}

/// Counting the bytes of a concatenation adds up.
pub proof fn lemma_count_add(needle: u8, a: Seq<u8>, b: Seq<u8>)
    ensures
        count_of(needle, a + b) == count_of(needle, a) + count_of(needle, b),
    decreases b.len(),
{
    if b.len() == 0 {
        assert(a + b =~= a);
    } else {
        assert((a + b).drop_last() =~= a + b.drop_last());
        lemma_count_add(needle, a, b.drop_last());
    }
}

/// Bytes without the needle count zero.
pub proof fn lemma_count_none(needle: u8, a: Seq<u8>)
    requires
        forall|j: int| 0 <= j < a.len() ==> a[j] != needle,
    ensures
        count_of(needle, a) == 0,
    decreases a.len(),
{
    if a.len() > 0 {
        lemma_count_none(needle, a.drop_last());
    }
}

} // verus!
