//! Instructive errors for tool parameters: the fields that a tool expects, and the one that a
//! misspelt key most likely means.
use vstd::prelude::*;

use crate::text::{join, joined, list_holds, same_str, texts, to_chars};

verus! {

/// The most edits between a key and the field that it may be a misspelling of.
pub const NEAR_MISS_MAX_DISTANCE: usize = 2;

// ─── Edit distance ───────────────────────────────────────────────────────────

/// The smaller of two numbers.
pub open spec fn lesser(a: int, b: int) -> int {
    if a <= b {
        a
    } else {
        b
    }
}

/// The edit distance of two texts: the least number of characters to insert, delete or replace that
/// turns one into the other.
pub open spec fn distance<T>(a: Seq<T>, b: Seq<T>) -> int
    decreases a.len() + b.len(),
{
    if a.len() == 0 {
        b.len() as int
    } else if b.len() == 0 {
        a.len() as int
    } else {
        lesser(
            lesser(distance(a.drop_last(), b) + 1, distance(a, b.drop_last()) + 1),
            distance(a.drop_last(), b.drop_last()) + if a.last() == b.last() {
                0int
            } else {
                1
            },
        )
    }
}

pub(crate) proof fn lemma_distance_bound<T>(a: Seq<T>, b: Seq<T>)
    ensures
        0 <= distance(a, b),
        distance(a, b) <= a.len() || distance(a, b) <= b.len(),
        a.len() - b.len() <= distance(a, b),
        b.len() - a.len() <= distance(a, b),
    decreases a.len() + b.len(),
{
    if a.len() > 0 && b.len() > 0 {
        lemma_distance_bound(a.drop_last(), b);
        lemma_distance_bound(a, b.drop_last());
        lemma_distance_bound(a.drop_last(), b.drop_last());
    }
}

/// The edit distance of two texts, over Unicode scalar values.
pub fn levenshtein(a: &str, b: &str) -> (d: usize)
    requires
        a@.len() < usize::MAX,
        b@.len() < usize::MAX,
    ensures
        d == distance(a@, b@),
{
    let a_chars = to_chars(a);
    let b_chars = to_chars(b);
    let mut previous: Vec<usize> = Vec::new();
    let mut n: usize = 0;
    while n <= b_chars.len()
        invariant
            b_chars@ == b@,
            b_chars@.len() < usize::MAX,
            n <= b_chars@.len() + 1,
            previous@.len() == n,
            forall|k: int| 0 <= k < n ==> #[trigger] previous@[k] == k,
        decreases b_chars@.len() + 1 - n,
    {
        previous.push(n);
        n += 1;
    }
    let mut i: usize = 0;
    proof {
        assert forall|k: int| 0 <= k < previous@.len() implies #[trigger] previous@[k] == distance(
            a@.take(0),
            b@.take(k),
        ) by {}
    }
    while i < a_chars.len()
        invariant
            a_chars@ == a@,
            b_chars@ == b@,
            a@.len() < usize::MAX,
            b@.len() < usize::MAX,
            i <= a@.len(),
            previous@.len() == b@.len() + 1,
            forall|k: int|
                0 <= k < previous@.len() ==> #[trigger] previous@[k] == distance(
                    a@.take(i as int),
                    b@.take(k),
                ),
        decreases a@.len() - i,
    {
        let ghost above = a@.take(i as int);
        let ghost here = a@.take(i + 1);
        assert(here.drop_last() =~= above);
        assert(here.last() == a@[i as int]);
        let mut diagonal: usize = previous[0];
        previous.set(0, i + 1);
        assert(b@.take(0).len() == 0);
        let mut j: usize = 0;
        while j < b_chars.len()
            invariant
                a_chars@ == a@,
                b_chars@ == b@,
                a@.len() < usize::MAX,
                b@.len() < usize::MAX,
                i < a@.len(),
                j <= b@.len(),
                above == a@.take(i as int),
                here == a@.take(i + 1),
                here.drop_last() == above,
                here.last() == a@[i as int],
                previous@.len() == b@.len() + 1,
                diagonal == distance(above, b@.take(j as int)),
                forall|k: int|
                    0 <= k <= j ==> #[trigger] previous@[k] == distance(here, b@.take(k)),
                forall|k: int|
                    j < k < previous@.len() ==> #[trigger] previous@[k] == distance(
                        above,
                        b@.take(k),
                    ),
            decreases b@.len() - j,
        {
            proof {
                assert(b@.take(j + 1).drop_last() =~= b@.take(j as int));
                assert(b@.take(j + 1).last() == b@[j as int]);
                lemma_distance_bound(above, b@.take(j + 1));
                lemma_distance_bound(here, b@.take(j as int));
                lemma_distance_bound(above, b@.take(j as int));
            }
            let cost: usize = if a_chars[i] != b_chars[j] {
                1
            } else {
                0
            };
            let down: usize = previous[j + 1] + 1;
            let right: usize = previous[j] + 1;
            let across: usize = diagonal + cost;
            let step: usize = if down <= right {
                down
            } else {
                right
            };
            let next: usize = if step <= across {
                step
            } else {
                across
            };
            diagonal = previous[j + 1];
            previous.set(j + 1, next);
            j += 1;
        }
        i += 1;
    }
    assert(a@.take(i as int) =~= a@);
    assert(b@.take(b@.len() as int) =~= b@);
    previous[b_chars.len()]
}

/// Equal texts, and no others, are at distance zero.
pub proof fn law_zero_means_equal<T>(a: Seq<T>, b: Seq<T>)
    ensures
        distance(a, b) == 0 <==> a == b,
    decreases a.len() + b.len(),
{
    lemma_distance_bound(a, b);
    if a.len() > 0 && b.len() > 0 {
        law_zero_means_equal(a.drop_last(), b.drop_last());
        lemma_distance_bound(a.drop_last(), b);
        lemma_distance_bound(a, b.drop_last());
        lemma_distance_bound(a.drop_last(), b.drop_last());
        if distance(a, b) == 0 {
            assert(a =~= a.drop_last().push(a.last()));
            assert(b =~= b.drop_last().push(b.last()));
        }
    } else {
        if a.len() == b.len() {
            assert(a =~= b);
        }
    }
}

/// The distance is the same from either side.
pub proof fn law_distance_is_symmetric<T>(a: Seq<T>, b: Seq<T>)
    ensures
        distance(a, b) == distance(b, a),
    decreases a.len() + b.len(),
{
    if a.len() > 0 && b.len() > 0 {
        law_distance_is_symmetric(a.drop_last(), b);
        law_distance_is_symmetric(a, b.drop_last());
        law_distance_is_symmetric(a.drop_last(), b.drop_last());
    }
}

proof fn lemma_one_more<T>(a: Seq<T>, b: Seq<T>)
    requires
        a.len() > 0,
    ensures
        distance(a, b) <= distance(a.drop_last(), b) + 1,
        distance(a.drop_last(), b) <= distance(a, b) + 1,
    decreases a.len() + b.len(),
{
    lemma_distance_bound(a, b);
    lemma_distance_bound(a.drop_last(), b);
    if b.len() > 0 {
        lemma_one_more(a, b.drop_last());
        let p = a.drop_last();
        let q = b.drop_last();
        lemma_distance_bound(p, q);
        // distance(p, b) is at most distance(p, q) + 1, and at most distance(a, q) + 2.
        if p.len() > 0 {
            assert(distance(p, b) <= distance(p, q) + 1);
        } else {
            assert(distance(p, b) == b.len());
            assert(distance(p, q) == q.len());
        }
    }
}

/// A detour is never shorter: the distance of two texts is at most the sum of their distances to a
/// third.
pub proof fn law_triangle<T>(a: Seq<T>, b: Seq<T>, c: Seq<T>)
    ensures
        distance(a, c) <= distance(a, b) + distance(b, c),
    decreases a.len() + b.len() + c.len(),
{
    lemma_distance_bound(a, b);
    lemma_distance_bound(b, c);
    lemma_distance_bound(a, c);
    if a.len() > 0 && b.len() > 0 && c.len() > 0 {
        let p = a.drop_last();
        let q = b.drop_last();
        let r = c.drop_last();
        let ab = distance(a, b);
        let bc = distance(b, c);
        law_triangle(p, b, c);
        law_triangle(a, b, r);
        law_triangle(a, q, c);
        law_triangle(p, q, c);
        law_triangle(a, q, r);
        law_triangle(p, q, r);
        lemma_one_more(a, c);
        lemma_last_of_second(a, c);
        if ab == distance(p, b) + 1 {
        } else if bc == distance(b, r) + 1 {
        } else if ab == distance(a, q) + 1 {
            // The last of b is inserted, and then deleted or replaced.
            if bc == distance(q, c) + 1 {
            } else {
                assert(distance(a, c) <= distance(a, r) + 1);
            }
        } else {
            if bc == distance(q, c) + 1 {
                assert(distance(a, c) <= distance(p, c) + 1);
            }
        }
    }
}

proof fn lemma_last_of_second<T>(a: Seq<T>, b: Seq<T>)
    requires
        b.len() > 0,
    ensures
        distance(a, b) <= distance(a, b.drop_last()) + 1,
{
    law_distance_is_symmetric(a, b);
    law_distance_is_symmetric(a, b.drop_last());
    lemma_one_more(b, a);
}

/// One edit, wherever in the text, is a distance of at most one: a character inserted, deleted or
/// replaced.
pub proof fn law_one_edit<T>(front: Seq<T>, x: T, y: T, back: Seq<T>)
    ensures
        distance(front + back, front.push(x) + back) <= 1,
        distance(front.push(x) + back, front + back) <= 1,
        distance(front.push(x) + back, front.push(y) + back) <= 1,
    decreases back.len(),
{
    let none = front + back;
    let one = front.push(x) + back;
    let other = front.push(y) + back;
    if back.len() == 0 {
        assert(none =~= front);
        assert(one.drop_last() =~= front);
        assert(other.drop_last() =~= front);
        law_zero_means_equal(front, front);
        lemma_last_of_second(front, one);
        lemma_one_more(one, front);
        assert(distance(one, other) <= distance(front, front) + 1);
    } else {
        let rest = back.drop_last();
        law_one_edit(front, x, y, rest);
        assert(none.drop_last() =~= front + rest);
        assert(one.drop_last() =~= front.push(x) + rest);
        assert(other.drop_last() =~= front.push(y) + rest);
        assert(none.last() == back.last());
        assert(one.last() == back.last());
        assert(other.last() == back.last());
    }
}

// ─── Messages ────────────────────────────────────────────────────────────────

/// A field as the list of expected fields shows it.
pub open spec fn shown_field(field: Seq<char>, required: Seq<Seq<char>>) -> Seq<char> {
    if required.contains(field) {
        "`"@ + field + "` (required)"@
    } else {
        "`"@ + field + "`"@
    }
}

/// The list of expected fields, the required ones marked.
pub open spec fn field_list(expected: Seq<Seq<char>>, required: Seq<Seq<char>>) -> Seq<char> {
    joined(Seq::new(expected.len(), |i: int| shown_field(expected[i], required)), ", "@)
}

/// The list of expected fields, the required ones marked.
pub fn join_fields(expected: &Vec<String>, required: &Vec<String>) -> (list: String)
    ensures
        list@ == field_list(texts(expected@), texts(required@)),
{
    let mut parts: Vec<String> = Vec::new();
    let mut i: usize = 0;
    while i < expected.len()
        invariant
            i <= expected@.len(),
            parts@.len() == i,
            forall|k: int|
                0 <= k < i ==> (#[trigger] parts@[k])@ == shown_field(
                    texts(expected@)[k],
                    texts(required@),
                ),
        decreases expected@.len() - i,
    {
        let field = expected[i].as_str();
        let mut t = String::from_str("`");
        t.append(field);
        if list_holds(required.as_slice(), field) {
            t.append("` (required)");
        } else {
            t.append("`");
        }
        parts.push(t);
        i += 1;
    }
    let ghost all = Seq::new(
        expected@.len(),
        |k: int| shown_field(texts(expected@)[k], texts(required@)),
    );
    assert(texts(parts@) =~= all);
    assert(Seq::new(
        texts(expected@).len(),
        |k: int| shown_field(texts(expected@)[k], texts(required@)),
    ) =~= all);
    join(parts.as_slice(), ", ")
}

/// Whether key `i` is no expected field, but close to field `j`.
pub open spec fn is_near(keys: Seq<Seq<char>>, expected: Seq<Seq<char>>, i: int, j: int) -> bool {
    !expected.contains(keys[i]) && distance(keys[i], expected[j]) <= NEAR_MISS_MAX_DISTANCE
}

/// Whether the pair `(k, l)` comes before the pair `(i, j)`.
pub open spec fn is_before(k: int, l: int, i: int, j: int) -> bool {
    k < i || (k == i && l < j)
}

/// Key `i` and field `j` are the closest pair among the first `n` keys, and, of key `n`, the first
/// `m` fields: no pair is closer, and none before it is as close.
pub open spec fn is_closest(
    keys: Seq<Seq<char>>,
    expected: Seq<Seq<char>>,
    i: int,
    j: int,
    n: int,
    m: int,
) -> bool {
    &&& 0 <= i && 0 <= j < expected.len() && is_before(i, j, n, m)
    &&& is_near(keys, expected, i, j)
    &&& forall|k: int, l: int|
        0 <= k && 0 <= l < expected.len() && is_before(k, l, n, m) && #[trigger] is_near(
            keys,
            expected,
            k,
            l,
        ) ==> distance(keys[i], expected[j]) <= distance(keys[k], expected[l]) && (is_before(
            k,
            l,
            i,
            j,
        ) ==> distance(keys[i], expected[j]) < distance(keys[k], expected[l]))
}

/// No pair is close, among the first `n` keys and, of key `n`, the first `m` fields.
pub open spec fn none_near(keys: Seq<Seq<char>>, expected: Seq<Seq<char>>, n: int, m: int) -> bool {
    forall|k: int, l: int|
        0 <= k && 0 <= l < expected.len() && is_before(k, l, n, m) ==> !(#[trigger] is_near(
            keys,
            expected,
            k,
            l,
        ))
}

/// Every text is short enough for its distances to be counted.
pub open spec fn short(list: Seq<Seq<char>>) -> bool {
    forall|i: int| 0 <= i < list.len() ==> (#[trigger] list[i]).len() < usize::MAX
}

fn closer_of(
    keys: &Vec<String>,
    expected: &Vec<String>,
    n: usize,
    best: Option<(usize, usize)>,
    Ghost(at): Ghost<int>,
) -> (r: (Option<(usize, usize)>, Ghost<int>))
    requires
        n < keys@.len(),
        short(texts(keys@)),
        short(texts(expected@)),
        match best {
            Some((d, j)) => is_closest(texts(keys@), texts(expected@), at, j as int, n as int, 0)
                && d == distance(texts(keys@)[at], texts(expected@)[j as int]),
            None => none_near(texts(keys@), texts(expected@), n as int, 0),
        },
        !texts(expected@).contains(texts(keys@)[n as int]),
    ensures
        match r.0 {
            Some((d, j)) => is_closest(
                texts(keys@),
                texts(expected@),
                r.1@,
                j as int,
                n as int,
                expected@.len() as int,
            ) && d == distance(texts(keys@)[r.1@], texts(expected@)[j as int]),
            None => none_near(texts(keys@), texts(expected@), n as int, expected@.len() as int),
        },
{
    let ghost ks = texts(keys@);
    let ghost es = texts(expected@);
    let mut best = best;
    let ghost mut at = at;
    let mut m: usize = 0;
    while m < expected.len()
        invariant
            n < keys@.len(),
            ks == texts(keys@),
            es == texts(expected@),
            short(ks),
            short(es),
            m <= expected@.len(),
            !es.contains(ks[n as int]),
            match best {
                Some((d, j)) => is_closest(ks, es, at, j as int, n as int, m as int) && d
                    == distance(ks[at], es[j as int]),
                None => none_near(ks, es, n as int, m as int),
            },
        decreases expected@.len() - m,
    {
        assert(ks[n as int] == keys@[n as int]@);
        assert(es[m as int] == expected@[m as int]@);
        let d: usize = levenshtein(keys[n].as_str(), expected[m].as_str());
        let closer: bool = match best {
            Some((b, _)) => d < b,
            None => true,
        };
        let ghost was = best;
        let ghost was_at = at;
        if d <= NEAR_MISS_MAX_DISTANCE && closer {
            best = Some((d, m));
            proof {
                at = n as int;
            }
        }
        proof {
            assert forall|k: int, l: int|
                0 <= k && 0 <= l < es.len() && is_before(k, l, n as int, m + 1) implies is_before(
                k,
                l,
                n as int,
                m as int,
            ) || (k == n && l == m) by {}
            assert(is_near(ks, es, n as int, m as int) == (d <= NEAR_MISS_MAX_DISTANCE));
        }
        m += 1;
    }
    (best, Ghost(at))
}

/// The field that a misspelt key most likely means: the closest one to a key that is no field, if it
/// is close enough. Of equally close ones the first.
pub fn did_you_mean(keys: &Vec<String>, expected: &Vec<String>) -> (field: Option<String>)
    requires
        short(texts(keys@)),
        short(texts(expected@)),
    ensures
        match field {
            Some(f) => exists|i: int, j: int| #[trigger]
                is_closest(texts(keys@), texts(expected@), i, j, keys@.len() as int, 0) && f@
                    == texts(expected@)[j],
            None => none_near(texts(keys@), texts(expected@), keys@.len() as int, 0),
        },
{
    let ghost ks = texts(keys@);
    let ghost es = texts(expected@);
    let mut best: Option<(usize, usize)> = None;
    let ghost mut at: int = 0;
    let mut n: usize = 0;
    while n < keys.len()
        invariant
            n <= keys@.len(),
            ks == texts(keys@),
            es == texts(expected@),
            short(ks),
            short(es),
            match best {
                Some((d, j)) => is_closest(ks, es, at, j as int, n as int, 0) && d == distance(
                    ks[at],
                    es[j as int],
                ),
                None => none_near(ks, es, n as int, 0),
            },
        decreases keys@.len() - n,
    {
        if list_holds(expected.as_slice(), keys[n].as_str()) {
            proof {
                assert(ks[n as int] == keys@[n as int]@);
                assert forall|k: int, l: int|
                    0 <= k && 0 <= l < es.len() && is_before(k, l, n + 1, 0) && #[trigger] is_near(
                        ks,
                        es,
                        k,
                        l,
                    ) implies is_before(k, l, n as int, 0) by {}
            }
        } else {
            assert(ks[n as int] == keys@[n as int]@);
            let (next, place) = closer_of(keys, expected, n, best, Ghost(at));
            best = next;
            proof {
                at = place@;
                assert forall|k: int, l: int|
                    0 <= k && 0 <= l < es.len() && is_before(k, l, n + 1, 0) implies is_before(
                    k,
                    l,
                    n as int,
                    es.len() as int,
                ) by {}
            }
        }
        n += 1;
    }
    match best {
        Some((_d, j)) => {
            assert(is_closest(ks, es, at, j as int, keys@.len() as int, 0));
            Some(expected[j].clone())
        },
        None => None,
    }
}

/// `m` is the message for parameters that do not parse, with this error, where these fields are
/// expected and these keys were given.
pub open spec fn is_message(
    m: Seq<char>,
    error: Seq<char>,
    expected: Seq<Seq<char>>,
    required: Seq<Seq<char>>,
    keys: Seq<Seq<char>>,
) -> bool {
    let head = if expected.len() > 0 {
        error + ". expected fields: "@ + field_list(expected, required)
    } else {
        error
    };
    if none_near(keys, expected, keys.len() as int, 0) {
        m == head
    } else {
        exists|i: int, j: int| #[trigger]
            is_closest(keys, expected, i, j, keys.len() as int, 0) && m == head
                + ". did you mean `"@ + expected[j] + "`?"@
    }
}

// ─── The fields of a schema ──────────────────────────────────────────────────

/// A JSON value, as far as the fields of a schema are read from it.
#[derive(Debug)]
pub enum SchemaNode {
    Object(Vec<SchemaEntry>),
    List(Vec<SchemaNode>),
    Text(String),
    Other,
}

/// A member of an object.
#[derive(Debug)]
pub struct SchemaEntry {
    pub key: String,
    pub value: SchemaNode,
}

/// `i` is the first member of this name.
pub open spec fn is_member(entries: Seq<SchemaEntry>, key: Seq<char>, i: int) -> bool {
    &&& 0 <= i < entries.len()
    &&& entries[i].key@ == key
    &&& forall|j: int| 0 <= j < i ==> (#[trigger] entries[j]).key@ != key
}

/// The member of this name; anything else than an object has none.
pub open spec fn member_of(node: SchemaNode, key: Seq<char>) -> Option<SchemaNode> {
    match node {
        SchemaNode::Object(entries) => if exists|i: int| is_member(entries@, key, i) {
            Some(entries@[choose|i: int| is_member(entries@, key, i)].value)
        } else {
            None
        },
        _ => None,
    }
}

/// The names of the members of an object.
pub open spec fn member_names(entries: Seq<SchemaEntry>) -> Seq<Seq<char>> {
    Seq::new(entries.len(), |i: int| entries[i].key@)
}

/// The texts among the first `n` values.
pub open spec fn texts_among(list: Seq<SchemaNode>, n: int) -> Seq<Seq<char>>
    decreases n,
{
    if n <= 0 {
        Seq::empty()
    } else {
        match list[n - 1] {
            SchemaNode::Text(t) => texts_among(list, n - 1).push(t@),
            _ => texts_among(list, n - 1),
        }
    }
}

/// The fields that a schema speaks of: the names under `properties`, where that is an object.
pub open spec fn property_names(schema: SchemaNode) -> Seq<Seq<char>> {
    match member_of(schema, "properties"@) {
        Some(SchemaNode::Object(entries)) => member_names(entries@),
        _ => Seq::empty(),
    }
}

/// The fields that a schema demands: the texts under `required`, where that is a list.
pub open spec fn required_names(schema: SchemaNode) -> Seq<Seq<char>> {
    match member_of(schema, "required"@) {
        Some(SchemaNode::List(list)) => texts_among(list@, list@.len() as int),
        _ => Seq::empty(),
    }
}

fn find_member<'a>(node: &'a SchemaNode, key: &str) -> (v: Option<&'a SchemaNode>)
    ensures
        match v {
            Some(x) => member_of(*node, key@) == Some(*x),
            None => member_of(*node, key@) is None,
        },
{
    match node {
        SchemaNode::Object(entries) => {
            let mut i: usize = 0;
            while i < entries.len()
                invariant
                    i <= entries@.len(),
                    *node == SchemaNode::Object(*entries),
                    forall|j: int| 0 <= j < i ==> (#[trigger] entries@[j]).key@ != key@,
                decreases entries@.len() - i,
            {
                if same_str(entries[i].key.as_str(), key) {
                    proof {
                        assert(is_member(entries@, key@, i as int));
                        let k = choose|k: int| is_member(entries@, key@, k);
                        assert(k == i);
                    }
                    return Some(&entries[i].value);
                }
                i += 1;
            }
            None
        },
        _ => None,
    }
}

/// The fields of a tool's parameters by their schema: all of them, and those that are required. A
/// schema that is no object has none.
pub fn expected_fields(schema: &SchemaNode) -> (fields: (Vec<String>, Vec<String>))
    ensures
        texts(fields.0@) == property_names(*schema),
        texts(fields.1@) == required_names(*schema),
{
    let mut all: Vec<String> = Vec::new();
    let mut required: Vec<String> = Vec::new();
    assert(texts(all@) =~= Seq::empty());
    assert(texts(required@) =~= Seq::empty());
    match find_member(schema, "properties") {
        Some(SchemaNode::Object(entries)) => {
            let mut i: usize = 0;
            while i < entries.len()
                invariant
                    i <= entries@.len(),
                    texts(all@) == member_names(entries@).take(i as int),
                decreases entries@.len() - i,
            {
                let ghost before = all@;
                all.push(entries[i].key.clone());
                i += 1;
                assert(texts(all@) =~= texts(before).push(entries@[i - 1].key@));
                assert(member_names(entries@).take(i as int) =~= member_names(entries@).take(
                    i - 1,
                ).push(entries@[i - 1].key@));
            }
            assert(member_names(entries@).take(i as int) =~= member_names(entries@));
        },
        _ => {},
    }
    match find_member(schema, "required") {
        Some(SchemaNode::List(list)) => {
            let mut i: usize = 0;
            while i < list.len()
                invariant
                    i <= list@.len(),
                    texts(required@) == texts_among(list@, i as int),
                decreases list@.len() - i,
            {
                match &list[i] {
                    SchemaNode::Text(t) => {
                        let ghost before = required@;
                        required.push(t.clone());
                        assert(texts(required@) =~= texts(before).push(t@));
                    },
                    _ => {},
                }
                i += 1;
            }
        },
        _ => {},
    }
    (all, required)
}

// ─── The message ─────────────────────────────────────────────────────────────

/// The message for parameters that do not parse: the error, the fields that are expected, and what a
/// misspelt key most likely means.
pub fn build_message(
    error: &str,
    expected: &Vec<String>,
    required: &Vec<String>,
    keys: &Vec<String>,
) -> (m: String)
    requires
        short(texts(keys@)),
        short(texts(expected@)),
    ensures
        is_message(m@, error@, texts(expected@), texts(required@), texts(keys@)),
{
    let mut m = error.to_string();
    if expected.len() > 0 {
        m.append(". expected fields: ");
        m.append(join_fields(expected, required).as_str());
    }
    let ghost head = m@;
    match did_you_mean(keys, expected) {
        Some(f) => {
            m.append(". did you mean `");
            m.append(f.as_str());
            m.append("`?");
            proof {
                let (i, j) = choose|i: int, j: int| #[trigger]
                    is_closest(texts(keys@), texts(expected@), i, j, keys@.len() as int, 0) && f@
                        == texts(expected@)[j];
                assert(is_near(texts(keys@), texts(expected@), i, j));
                assert(!none_near(texts(keys@), texts(expected@), keys@.len() as int, 0));
            }
        },
        None => {},
    }
    m
}

} // verus!
