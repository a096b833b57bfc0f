//! Token budgeting for high-volume responses.
//!
//! A result list is already best-first, so a budget keeps the longest leading run of items whose
//! estimated cost fits. The first item is always kept, so that a client that pages with too small
//! a budget still moves forward. An item costs its serialized bytes divided by four.
use vstd::prelude::*;

use crate::savings::bytes_to_tokens;

verus! {

/// Outcome of applying a token budget to an already-ranked result list.
pub struct Budgeted<T> {
    /// The kept leading run of items.
    pub items: Vec<T>,
    /// True when at least one trailing item was dropped.
    pub budgeted: bool,
}

/// The token cost of the first `n` items, given the serialized size of each.
pub open spec fn cost_of(sizes: Seq<u64>, n: int) -> int
    decreases n,
{
    if n <= 0 {
        0
    } else {
        cost_of(sizes, n - 1) + sizes[n - 1] as int / 4
    }
}

/// `kept` is the number of leading items that a budget keeps: all but the first must fit, and one
/// more would not.
pub open spec fn is_kept_count(sizes: Seq<u64>, max_tokens: Option<u32>, kept: int) -> bool {
    match max_tokens {
        None => kept == sizes.len(),
        Some(budget) => {
            &&& 0 <= kept <= sizes.len()
            &&& sizes.len() > 0 ==> kept >= 1
            &&& kept >= 2 ==> cost_of(sizes, kept) <= budget
            &&& kept < sizes.len() ==> cost_of(sizes, kept + 1) > budget
        },
    }
}

/// A budget keeps one number of items and no other.
pub proof fn law_kept_count_unique(sizes: Seq<u64>, max_tokens: Option<u32>, a: int, b: int)
    requires
        is_kept_count(sizes, max_tokens, a),
        is_kept_count(sizes, max_tokens, b),
    ensures
        a == b,
{
    if a < b {
        lemma_cost_grows(sizes, a + 1, b);
    } else if b < a {
        lemma_cost_grows(sizes, b + 1, a);
    }
}

/// More items never cost less.
pub proof fn lemma_cost_grows(sizes: Seq<u64>, m: int, n: int)
    requires
        0 <= m <= n <= sizes.len(),
    ensures
        cost_of(sizes, m) <= cost_of(sizes, n),
    decreases n - m,
{
    if m < n {
        lemma_cost_grows(sizes, m, n - 1);
    }
}

/// How many leading items `max_tokens` keeps, given the serialized size of each item in bytes.
pub fn kept_count(sizes: &[u64], max_tokens: Option<u32>) -> (kept: usize)
    ensures
        is_kept_count(sizes@, max_tokens, kept as int),
{
    let budget: u64 = match max_tokens {
        None => {
            return sizes.len();
        },
        Some(b) => b as u64,
    };
    let mut used: u64 = 0;
    let mut i: usize = 0;
    while i < sizes.len()
        invariant
            i <= sizes.len(),
            max_tokens == Some(budget as u32),
            budget <= u32::MAX,
            i >= 2 ==> cost_of(sizes@, i as int) <= budget,
            used == crate::savings::clamp_u64(cost_of(sizes@, i as int)),
            cost_of(sizes@, i as int) >= 0,
        decreases sizes.len() - i,
    {
        let cost: u64 = bytes_to_tokens(sizes[i]);
        assert(cost_of(sizes@, i + 1) == cost_of(sizes@, i as int) + sizes@[i as int] as int / 4);
        if i == 0 || used.saturating_add(cost) <= budget {
            used = used.saturating_add(cost);
            i += 1;
        } else {
            return i;
        }
    }
    i
}

/// Keep the longest leading run of `items` whose cost fits `max_tokens`, and always the first.
/// `sizes` holds the serialized size of each item in bytes.
pub fn apply_budget<T>(items: Vec<T>, sizes: &[u64], max_tokens: Option<u32>) -> (out: Budgeted<T>)
    requires
        sizes@.len() == items@.len(),
    ensures
        is_kept_count(sizes@, max_tokens, out.items@.len() as int),
        out.items@ == items@.take(out.items@.len() as int),
        out.budgeted == (out.items@.len() < items@.len()),
{
    let total: usize = items.len();
    let kept: usize = kept_count(sizes, max_tokens);
    let mut items = items;
    let ghost all = items@;
    items.truncate(kept);
    assert(items@ =~= all.take(kept as int));
    Budgeted { items, budgeted: kept < total }
}

} // verus!
