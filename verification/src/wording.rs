//! What near misses and patterns come to.
use vstd::prelude::*;

use crate::lenient::{
    distance, is_before, is_closest, is_near, law_one_edit, law_triangle, law_zero_means_equal,
    lemma_distance_bound, none_near,
};
use crate::tags::{
    blank_run, capture_run, comment_end, is_capture_char, is_gap, pattern_end, patterns_from,
    patterns_of, string_end,
};

verus! {

// ─── Edit distance ───────────────────────────────────────────────────────────

/// `b` is `a` with one element more, one less, or one replaced, at place `p`.
pub open spec fn edited<T>(a: Seq<T>, b: Seq<T>, p: int) -> bool {
    ||| 0 <= p <= a.len() && b.len() == a.len() + 1 && b == a.insert(p, b[p])
    ||| 0 <= p < a.len() && b == a.remove(p)
    ||| 0 <= p < a.len() && b.len() == a.len() && b == a.update(p, b[p])
}

proof fn lemma_edit_under<T>(a: Seq<T>, c: Seq<T>, p: int, x: T)
    requires
        edited(a, c, p),
    ensures
        edited(a.push(x), c.push(x), p),
{
    if 0 <= p <= a.len() && c.len() == a.len() + 1 && c == a.insert(p, c[p]) {
        assert(c.push(x)[p] == c[p]);
        assert(a.push(x).insert(p, c[p]) =~= a.insert(p, c[p]).push(x));
    } else if 0 <= p < a.len() && c == a.remove(p) {
        assert(a.push(x).remove(p) =~= a.remove(p).push(x));
    } else {
        assert(c.push(x)[p] == c[p]);
        assert(a.push(x).update(p, c[p]) =~= a.update(p, c[p]).push(x));
    }
}

proof fn lemma_edit_costs<T>(a: Seq<T>, c: Seq<T>, p: int)
    requires
        edited(a, c, p),
    ensures
        distance(a, c) <= 1,
{
    if 0 <= p <= a.len() && c.len() == a.len() + 1 && c == a.insert(p, c[p]) {
        law_one_edit(a.take(p), c[p], c[p], a.skip(p));
        assert(a.take(p) + a.skip(p) =~= a);
        assert(a.take(p).push(c[p]) + a.skip(p) =~= c);
    } else if 0 <= p < a.len() && c == a.remove(p) {
        law_one_edit(a.take(p), a[p], a[p], a.skip(p + 1));
        assert(a.take(p) + a.skip(p + 1) =~= c);
        assert(a.take(p).push(a[p]) + a.skip(p + 1) =~= a);
    } else {
        law_one_edit(a.take(p), a[p], c[p], a.skip(p + 1));
        assert(a.take(p).push(a[p]) + a.skip(p + 1) =~= a);
        assert(a.take(p).push(c[p]) + a.skip(p + 1) =~= c);
    }
}

proof fn lemma_step<T>(a: Seq<T>, b: Seq<T>) -> (r: (Seq<T>, int))
    requires
        distance(a, b) > 0,
    ensures
        edited(a, r.0, r.1),
        distance(r.0, b) <= distance(a, b) - 1,
    decreases a.len() + b.len(),
{
    let d = distance(a, b);
    let n = a.len() as int;
    if a.len() == 0 {
        let c = a.push(b.last());
        assert(c =~= a.insert(n, c[n]));
        assert(c.drop_last() =~= a);
        assert(c.last() == b.last());
        assert(distance(c, b) <= distance(c.drop_last(), b.drop_last()));
        (c, n)
    } else if b.len() == 0 {
        let c = a.drop_last();
        assert(c =~= a.remove(n - 1));
        assert(distance(c, b) == n - 1);
        (c, n - 1)
    } else {
        let p = a.drop_last();
        let q = b.drop_last();
        if d == distance(p, b) + 1 {
            assert(p =~= a.remove(n - 1));
            (p, n - 1)
        } else if d == distance(a, q) + 1 {
            let c = a.push(b.last());
            assert(c =~= a.insert(n, c[n]));
            assert(c.drop_last() =~= a);
            assert(c.last() == b.last());
            assert(distance(c, b) <= distance(c.drop_last(), b.drop_last()));
            (c, n)
        } else if a.last() != b.last() {
            let c = p.push(b.last());
            assert(c =~= a.update(n - 1, c[n - 1]));
            assert(c.drop_last() =~= p);
            assert(c.last() == b.last());
            assert(distance(c, b) <= distance(c.drop_last(), b.drop_last()));
            (c, n - 1)
        } else {
            let (e, at) = lemma_step(p, q);
            let c = e.push(a.last());
            lemma_edit_under(p, e, at, a.last());
            assert(p.push(a.last()) =~= a);
            assert(c.drop_last() =~= e);
            assert(c.last() == b.last());
            assert(distance(c, b) <= distance(c.drop_last(), b.drop_last()));
            (c, at)
        }
    }
}

/// The distance is the least number of edits. No edit changes the distance to a text by more than one; and
/// from a text that is not there yet, some edit leads one step closer.
pub proof fn law_distance_counts_edits<T>(a: Seq<T>, b: Seq<T>, c: Seq<T>, p: int) -> (r: (Seq<T>, int))
    requires
        edited(a, c, p),
    ensures
        distance(a, b) - 1 <= distance(c, b) <= distance(a, b) + 1,
        distance(a, b) > 0 ==> edited(a, r.0, r.1) && distance(r.0, b) == distance(a, b) - 1,
        distance(a, b) == 0 ==> a == b,
{
    lemma_edit_costs(a, c, p);
    crate::lenient::law_distance_is_symmetric(a, c);
    law_triangle(a, c, b);
    law_triangle(c, a, b);
    law_zero_means_equal(a, b);
    lemma_distance_bound(a, b);
    if distance(a, b) > 0 {
        let r = lemma_step(a, b);
        lemma_edit_costs(a, r.0, r.1);
        law_triangle(a, r.0, b);
        r
    } else {
        (a, 0)
    }
}

/// A suggestion is a near miss: some key that is no field is at most two edits away from it, and no key that is
/// no field is closer to any field.
pub proof fn law_suggestions_are_near(keys: Seq<Seq<char>>, expected: Seq<Seq<char>>, i: int, j: int)
    requires
        is_closest(keys, expected, i, j, keys.len() as int, 0),
    ensures
        0 <= i < keys.len(),
        0 <= j < expected.len(),
        distance(keys[i], expected[j]) <= 2,
        forall|f: int| 0 <= f < expected.len() ==> #[trigger] expected[f] != keys[i],
        forall|k: int, l: int|
            0 <= k < keys.len() && 0 <= l < expected.len() && !expected.contains(keys[k]) ==> distance(
                keys[i],
                expected[j],
            ) <= #[trigger] distance(keys[k], expected[l]),
{
    assert(is_near(keys, expected, i, j));
    assert forall|k: int, l: int|
        0 <= k < keys.len() && 0 <= l < expected.len() && !expected.contains(keys[k]) implies distance(
        keys[i],
        expected[j],
    ) <= #[trigger] distance(keys[k], expected[l]) by {
        if distance(keys[k], expected[l]) <= 2 {
            assert(is_near(keys, expected, k, l));
        }
    }
}

/// Nothing is suggested only where nothing is near: every key is a field or more than two edits away from each.
pub proof fn law_no_suggestion_no_near_miss(keys: Seq<Seq<char>>, expected: Seq<Seq<char>>, k: int, l: int)
    requires
        none_near(keys, expected, keys.len() as int, 0),
        0 <= k < keys.len(),
        0 <= l < expected.len(),
    ensures
        expected.contains(keys[k]) || distance(keys[k], expected[l]) > 2,
{
    assert(is_before(k, l, keys.len() as int, 0));
    if !expected.contains(keys[k]) && distance(keys[k], expected[l]) <= 2 {
        assert(is_near(keys, expected, k, l));
    }
}

// ─── Splitting patterns ──────────────────────────────────────────────────────

/// The character has a meaning of its own when patterns are split.
pub open spec fn splits(c: char) -> bool {
    c == '(' || c == ')' || c == ';' || c == '"'
}

pub(crate) proof fn lemma_pass_over(b: Seq<char>, at: int, n: int, depth: int, start: Option<int>)
    requires
        0 <= at <= n <= b.len(),
        forall|i: int| at <= i < n ==> !splits(#[trigger] b[i]),
    ensures
        patterns_from(b, at, depth, start) == patterns_from(b, n, depth, start),
    decreases n - at,
{
    if at < n {
        assert(!splits(b[at]));
        lemma_pass_over(b, at + 1, n, depth, start);
    }
}

pub(crate) proof fn lemma_string(b: Seq<char>, at: int, n: int)
    requires
        0 <= at <= n < b.len(),
        forall|i: int| at <= i < n ==> #[trigger] b[i] != '"' && b[i] != '\\',
        b[n] == '"',
    ensures
        string_end(b, at) == n + 1,
    decreases n - at,
{
    if at < n {
        lemma_string(b, at + 1, n);
    }
}

pub(crate) proof fn lemma_gap(b: Seq<char>, at: int, n: int)
    requires
        0 <= at <= n <= b.len(),
        forall|i: int| at <= i < n ==> is_gap(#[trigger] b[i]),
        n == b.len() || !is_gap(b[n]),
    ensures
        blank_run(b, at) == n,
    decreases n - at,
{
    if at < n {
        lemma_gap(b, at + 1, n);
    }
}

proof fn lemma_name(b: Seq<char>, at: int, n: int)
    requires
        0 <= at <= n <= b.len(),
        forall|i: int| at <= i < n ==> is_capture_char(#[trigger] b[i]),
        n == b.len() || !is_capture_char(b[n]),
    ensures
        capture_run(b, at) == n,
    decreases n - at,
{
    if at < n {
        lemma_name(b, at + 1, n);
    }
}

/// A pattern is what stands between parentheses, with a string in it that may hold anything but a quote or a
/// backslash, and with the capture that follows after spaces, tabs or line breaks.
pub proof fn law_a_pattern_keeps_its_capture(
    front: Seq<char>,
    left: Seq<char>,
    string: Seq<char>,
    right: Seq<char>,
    gap: Seq<char>,
    cap: Seq<char>,
)
    requires
        forall|i: int| 0 <= i < front.len() ==> !splits(#[trigger] front[i]),
        forall|i: int| 0 <= i < left.len() ==> !splits(#[trigger] left[i]),
        forall|i: int| 0 <= i < right.len() ==> !splits(#[trigger] right[i]),
        forall|i: int| 0 <= i < string.len() ==> #[trigger] string[i] != '"' && string[i] != '\\',
        forall|i: int|
            0 <= i < gap.len() ==> #[trigger] gap[i] == ' ' || gap[i] == '\t' || gap[i] == '\n' || gap[i]
                == '\r',
        forall|i: int| 0 <= i < cap.len() ==> is_capture_char(#[trigger] cap[i]),
    ensures
        ({
            let pattern = seq!['('] + left + seq!['"'] + string + seq!['"'] + right + seq![')'] + gap
                + seq!['@'] + cap;
            patterns_of(front + pattern) == seq![pattern]
        }),
{
    let pattern = seq!['('] + left + seq!['"'] + string + seq!['"'] + right + seq![')'] + gap + seq![
        '@',
    ] + cap;
    let b = front + pattern;
    let p0 = front.len() as int;
    let p1 = p0 + 1 + left.len();
    let p2 = p1 + 1 + string.len();
    let p3 = p2 + 1 + right.len();
    let p4 = p3 + 1 + gap.len();
    let p5 = p4 + 1 + cap.len();
    assert(b.len() == p5);
    assert forall|i: int| 0 <= i < p0 implies !splits(#[trigger] b[i]) by {
        assert(b[i] == front[i]);
    }
    lemma_pass_over(b, 0, p0, 0, None);
    assert(b[p0] == '(');
    assert forall|i: int| p0 + 1 <= i < p1 implies !splits(#[trigger] b[i]) by {
        assert(b[i] == left[i - p0 - 1]);
    }
    lemma_pass_over(b, p0 + 1, p1, 1, Some(p0));
    assert(b[p1] == '"');
    assert forall|i: int| p1 + 1 <= i < p2 implies #[trigger] b[i] != '"' && b[i] != '\\' by {
        assert(b[i] == string[i - p1 - 1]);
    }
    assert(b[p2] == '"');
    lemma_string(b, p1 + 1, p2);
    assert forall|i: int| p2 + 1 <= i < p3 implies !splits(#[trigger] b[i]) by {
        assert(b[i] == right[i - p2 - 1]);
    }
    lemma_pass_over(b, p2 + 1, p3, 1, Some(p0));
    assert(b[p3] == ')');
    assert forall|i: int| p3 + 1 <= i < p4 implies is_gap(#[trigger] b[i]) by {
        assert(b[i] == gap[i - p3 - 1]);
    }
    assert(b[p4] == '@');
    lemma_gap(b, p3 + 1, p4);
    assert forall|i: int| p4 + 1 <= i < p5 implies is_capture_char(#[trigger] b[i]) by {
        assert(b[i] == cap[i - p4 - 1]);
    }
    lemma_name(b, p4 + 1, p5);
    assert(pattern_end(b, p3 + 1) == p5);
    let ranges = patterns_from(b, 0, 0, None);
    assert(patterns_from(b, p5, 0, None) =~= Seq::empty());
    assert(ranges =~= seq![(p0, p5)]);
    assert(b.subrange(p0, p5) =~= pattern);
    assert(patterns_of(b) =~= seq![pattern]);
}

/// A comment hides what it holds: patterns on a comment line do not count.
pub proof fn law_comments_hide_patterns(comment: Seq<char>, rest: Seq<char>)
    requires
        forall|i: int| 0 <= i < comment.len() ==> #[trigger] comment[i] != '\n',
    ensures
        patterns_of(seq![';'] + comment + seq!['\n'] + rest) == patterns_of(rest),
{
    let head = seq![';'] + comment;
    let b = head + seq!['\n'] + rest;
    let n = head.len() as int;
    assert(b[0] == ';');
    assert(b[n] == '\n');
    assert forall|i: int| 1 <= i < n implies #[trigger] b[i] != '\n' by {
        assert(b[i] == comment[i - 1]);
    }
    lemma_comment(b, 1, n);
    assert(patterns_from(b, 0, 0, None) == patterns_from(b, n, 0, None));
    assert(!splits(b[n]));
    lemma_pass_over(b, n, n + 1, 0, None);
    assert(patterns_from(b, 0, 0, None) == patterns_from(b, n + 1, 0, None));
    let front = head + seq!['\n'];
    assert(b =~= front + rest);
    lemma_patterns_shift(front, rest, 0, 0, None);
    let x = patterns_from(b, front.len() as int, 0, None);
    let y = patterns_from(rest, 0, 0, None);
    crate::tags::law_patterns_in_order(rest, 0, 0, None);
    assert forall|k: int| 0 <= k < y.len() implies b.subrange(x[k].0, x[k].1) == rest.subrange(
        #[trigger] y[k].0,
        y[k].1,
    ) by {
        assert(x[k] == (y[k].0 + front.len(), y[k].1 + front.len()));
        assert(b.subrange(x[k].0, x[k].1) =~= rest.subrange(y[k].0, y[k].1));
    }
    assert(patterns_of(b) =~= patterns_of(rest));
}

proof fn lemma_comment(b: Seq<char>, at: int, n: int)
    requires
        0 <= at <= n < b.len(),
        forall|i: int| at <= i < n ==> #[trigger] b[i] != '\n',
        b[n] == '\n',
    ensures
        comment_end(b, at) == n,
    decreases n - at,
{
    if at < n {
        lemma_comment(b, at + 1, n);
    }
}

/// A range moved on by `n`.
pub open spec fn moved(r: (int, int), n: int) -> (int, int) {
    (r.0 + n, r.1 + n)
}

proof fn lemma_runs_shift(a: Seq<char>, b: Seq<char>, at: int)
    requires
        0 <= at <= b.len(),
    ensures
        comment_end(a + b, a.len() + at) == a.len() + comment_end(b, at),
        string_end(a + b, a.len() + at) == a.len() + string_end(b, at),
        blank_run(a + b, a.len() + at) == a.len() + blank_run(b, at),
        capture_run(a + b, a.len() + at) == a.len() + capture_run(b, at),
    decreases b.len() - at,
{
    let s = a + b;
    if at < b.len() {
        assert(s[a.len() + at] == b[at]);
        lemma_runs_shift(a, b, at + 1);
        if at + 1 < b.len() {
            lemma_runs_shift(a, b, at + 2);
        }
    }
}

pub(crate) proof fn lemma_patterns_shift(a: Seq<char>, b: Seq<char>, at: int, depth: int, start: Option<int>)
    requires
        0 <= at <= b.len(),
    ensures
        patterns_from(
            a + b,
            a.len() + at,
            depth,
            match start {
                Some(x) => Some(x + a.len()),
                None => None,
            },
        ) == patterns_from(b, at, depth, start).map_values(|r: (int, int)| moved(r, a.len() as int)),
    decreases b.len() - at,
{
    let s = a + b;
    let n = a.len() as int;
    let begun = match start {
        Some(x) => Some(x + n),
        None => None,
    };
    let shift = |r: (int, int)| moved(r, n);
    if at < b.len() {
        assert(s[n + at] == b[at]);
        lemma_runs_shift(a, b, at + 1);
        crate::tags::lemma_runs(b, at + 1);
        crate::tags::lemma_pattern_end(b, at + 1);
        if b[at] == ';' {
            lemma_patterns_shift(a, b, comment_end(b, at + 1), depth, start);
        } else if b[at] == '"' {
            lemma_patterns_shift(a, b, string_end(b, at + 1), depth, start);
        } else if b[at] == '(' {
            let next = if depth == 0 && start is None {
                Some(at)
            } else {
                start
            };
            lemma_patterns_shift(a, b, at + 1, depth + 1, next);
        } else if b[at] == ')' {
            if depth == 1 {
                let e = pattern_end(b, at + 1);
                let j = blank_run(b, at + 1);
                if j < b.len() {
                    assert(s[n + j] == b[j]);
                    lemma_runs_shift(a, b, j + 1);
                }
                assert(pattern_end(s, n + at + 1) == n + e);
                lemma_patterns_shift(a, b, e, 0, None);
                match start {
                    Some(x) => {
                        let rest = patterns_from(b, e, 0, None);
                        assert((seq![(x, e)] + rest).map_values(shift) =~= seq![(x + n, e + n)]
                            + rest.map_values(shift));
                    },
                    None => {},
                }
            } else {
                lemma_patterns_shift(a, b, at + 1, depth - 1, start);
            }
        } else {
            lemma_patterns_shift(a, b, at + 1, depth, start);
        }
    } else {
        assert(patterns_from(b, at, depth, start).map_values(shift) =~= Seq::empty());
    }
}

} // verus!
