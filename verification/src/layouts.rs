//! How keys are laid out, how patterns nest and follow each other, and how ties are broken.
use vstd::prelude::*;
use vstd::utf8::encode_utf8;

use crate::bound_answers::{is_hit, lemma_hit, lemma_parts};
use crate::history::{hex_value, snapshot_of};
use crate::keys::{call_key, proposal_key};
use crate::lenient::{distance, is_before, is_closest, is_near};
use crate::memory::raw_key;
use crate::proposals::id_bytes;
use crate::resolution::{export_facts, import_facts};
use crate::restitch::{
    affected, candidates_wf, is_part, is_plan, parts_upto, CandidateFile, RestitchPlan,
};
use crate::tags::{is_gap, pattern_end, patterns_from, patterns_of, string_end};
use crate::text::joined;
use crate::wording::{lemma_gap, lemma_pass_over, lemma_patterns_shift, lemma_string, moved, splits};

verus! {

// ─── Keys ────────────────────────────────────────────────────────────────────

/// How keys are laid out: a memory's is its scope, a NUL, its visibility, its owner, a NUL and its key; a proposal's its scope, a NUL, its
/// kind and its id; and a call's the length of the callee in two bytes and the callee, the path, and the
/// position in four bytes, the most significant first.
pub proof fn law_key_layouts(
    scope: Seq<char>,
    vis: u8,
    owner: Seq<char>,
    key: Seq<char>,
    callee: Seq<char>,
    rel: Seq<u8>,
    start: u32,
)
    requires
        encode_utf8(callee).len() <= 65535,
    ensures
        raw_key(scope, vis, owner, key) == encode_utf8(scope) + seq![0u8, vis] + encode_utf8(owner) + seq![0u8]
            + encode_utf8(key),
        proposal_key(encode_utf8(scope), vis, encode_utf8(key)) == encode_utf8(scope) + seq![0u8, vis]
            + encode_utf8(key),
        ({
            let n = encode_utf8(callee).len() as int;
            call_key(callee, rel, start) == seq![(n / 256) as u8, (n % 256) as u8] + encode_utf8(callee) + rel
                + seq![
                (start / 0x100_0000) as u8,
                ((start / 0x1_0000) % 256) as u8,
                ((start / 0x100) % 256) as u8,
                (start % 256) as u8,
            ]
        }),
{
    assert(raw_key(scope, vis, owner, key) =~= encode_utf8(scope) + seq![0u8, vis] + encode_utf8(owner) + seq![
        0u8,
    ] + encode_utf8(key));
    assert(proposal_key(encode_utf8(scope), vis, encode_utf8(key)) =~= encode_utf8(scope) + seq![0u8, vis]
        + encode_utf8(key));
    let n = encode_utf8(callee).len() as int;
    assert(crate::keys::be2(n) =~= seq![(n / 256) as u8, (n % 256) as u8]);
}

/// The bytes that name a set of files are its paths in order, each with a NUL behind it.
pub proof fn law_id_bytes(files: Seq<Seq<u8>>, path: Seq<u8>)
    ensures
        id_bytes(Seq::empty()).len() == 0,
        id_bytes(files.push(path)) == id_bytes(files) + path + seq![0u8],
{
    assert(files.push(path).drop_last() =~= files);
    assert(id_bytes(files.push(path)) =~= id_bytes(files) + path + seq![0u8]);
}

/// Joined texts have the separator between each two, and none at the ends.
pub proof fn law_joined(parts: Seq<Seq<char>>, last: Seq<char>, sep: Seq<char>)
    ensures
        joined(Seq::empty(), sep).len() == 0,
        joined(seq![last], sep) == last,
        parts.len() > 0 ==> joined(parts.push(last), sep) == joined(parts, sep) + sep + last,
{
    assert(parts.push(last).drop_last() =~= parts);
}

proof fn lemma_hex_case(a: Seq<u8>, b: Seq<u8>, n: int)
    requires
        0 <= n <= a.len(),
        a.len() == b.len(),
        forall|i: int|
            0 <= i < n ==> #[trigger] a[i] == b[i] || (65 <= a[i] <= 70 && b[i] == a[i] + 32),
    ensures
        hex_value(a, n) == hex_value(b, n),
    decreases n,
{
    if n > 0 {
        lemma_hex_case(a, b, n - 1);
        assert(a[n - 1] == b[n - 1] || (65 <= a[n - 1] <= 70 && b[n - 1] == a[n - 1] + 32));
    }
}

/// The letter case of a commit's id does not matter to its snapshot id; one that is too short, or starts with anything but digits, has zero.
pub proof fn law_snapshot_spelling(a: Seq<u8>, b: Seq<u8>, k: int)
    requires
        a.len() == b.len(),
        forall|i: int|
            0 <= i < a.len() ==> #[trigger] a[i] == b[i] || (65 <= a[i] <= 70 && b[i] == a[i] + 32),
    ensures
        snapshot_of(a) == snapshot_of(b),
        a.len() < 8 ==> snapshot_of(a) == 0,
        0 <= k < 8 <= a.len() && !(48 <= a[k] <= 57) && !(65 <= a[k] <= 70) && !(97 <= a[k] <= 102)
            ==> snapshot_of(a) == 0,
{
    if a.len() >= 8 {
        lemma_hex_case(a, b, 8);
        if 0 <= k < 8 && !(48 <= a[k] <= 57) && !(65 <= a[k] <= 70) && !(97 <= a[k] <= 102) {
            lemma_no_hex(a, 8, k);
        }
    }
}

proof fn lemma_no_hex(a: Seq<u8>, n: int, k: int)
    requires
        0 <= k < n <= a.len(),
        !(48 <= a[k] <= 57),
        !(65 <= a[k] <= 70),
        !(97 <= a[k] <= 102),
    ensures
        hex_value(a, n) is None,
    decreases n,
{
    if k < n - 1 {
        lemma_no_hex(a, n - 1, k);
    }
}

/// Which characters are white space: the control characters from tab to carriage return, the next-line character, and every kind of
/// space and separator.
pub proof fn law_white_space(c: char)
    ensures
        crate::text::is_space(c) <==> {
            let n = c as u32;
            ||| 0x9 <= n <= 0xd
            ||| n == 0x20
            ||| n == 0x85
            ||| n == 0xa0
            ||| n == 0x1680
            ||| 0x2000 <= n <= 0x200a
            ||| n == 0x2028
            ||| n == 0x2029
            ||| n == 0x202f
            ||| n == 0x205f
            ||| n == 0x3000
        },
{
}

// ─── Ties ────────────────────────────────────────────────────────────────────

/// Of several suggestions as near, the first key's first comes out.
pub proof fn law_the_first_near_miss_wins(keys: Seq<Seq<char>>, expected: Seq<Seq<char>>, i: int, j: int, k: int, l: int)
    requires
        is_closest(keys, expected, i, j, keys.len() as int, 0),
        0 <= k < keys.len(),
        0 <= l < expected.len(),
        k < i || (k == i && l < j),
        !expected.contains(keys[k]),
    ensures
        distance(keys[i], expected[j]) < distance(keys[k], expected[l]),
{
    assert(is_near(keys, expected, i, j));
    if distance(keys[k], expected[l]) <= 2 {
        assert(is_near(keys, expected, k, l));
        assert(is_before(k, l, i, j));
    }
}

/// A file that is joined again goes in whole, with its imports and exports; one that only supplies others goes in with its exports alone.
pub proof fn law_how_files_are_joined_again(
    plan: RestitchPlan,
    c: Seq<CandidateFile>,
    changed: Set<Seq<char>>,
    a: int,
    k: int,
)
    requires
        candidates_wf(c),
        is_plan(plan, c, changed),
        0 <= a < c.len(),
        0 <= k < plan.stitch@.len(),
        plan.stitch@[k].key@ == c[a].file.key@,
    ensures
        is_hit(c, changed, a) ==> import_facts(plan.stitch@[k].imports@) == import_facts(c[a].file.imports@),
        !is_hit(c, changed, a) ==> plan.stitch@[k].imports@.len() == 0,
        export_facts(plan.stitch@[k].exports@) == export_facts(c[a].file.exports@),
{
    let n = c.len() as int;
    lemma_hit(c, changed, a);
    lemma_parts(c, changed, n, k);
    let i = parts_upto(c, changed, n)[k];
    assert(is_part(plan.stitch@[k], c[i].file, affected(c, changed, i)));
    assert(i == a) by {
        if i < a {
            assert(c[i].file.key@ != c[a].file.key@);
        } else if a < i {
            assert(c[a].file.key@ != c[i].file.key@);
        }
    }
}

// ─── Patterns ────────────────────────────────────────────────────────────────

/// A pattern holds the ones nested in it, and ends where its own parenthesis does. What follows it, unless that is a capture, is split on
/// its own.
pub proof fn law_patterns_nest_and_follow(
    left: Seq<char>,
    inner: Seq<char>,
    right: Seq<char>,
    gap: Seq<char>,
    rest: Seq<char>,
)
    requires
        forall|i: int| 0 <= i < left.len() ==> !splits(#[trigger] left[i]),
        forall|i: int| 0 <= i < inner.len() ==> !splits(#[trigger] inner[i]),
        forall|i: int| 0 <= i < right.len() ==> !splits(#[trigger] right[i]),
        forall|i: int|
            0 <= i < gap.len() ==> #[trigger] gap[i] == ' ' || gap[i] == '\t' || gap[i] == '\n' || gap[i]
                == '\r',
        rest.len() == 0 || (rest[0] != '@' && !is_gap(rest[0])),
    ensures
        ({
            let pattern = seq!['('] + left + seq!['('] + inner + seq![')'] + right + seq![')'];
            patterns_of(pattern + (gap + rest)) == seq![pattern] + patterns_of(gap + rest)
        }),
{
    let pattern = seq!['('] + left + seq!['('] + inner + seq![')'] + right + seq![')'];
    let tail = gap + rest;
    let b = pattern + tail;
    let p1 = 1 + left.len() as int;
    let p2 = p1 + 1 + inner.len();
    let p3 = p2 + 1 + right.len();
    let e = p3 + 1;
    assert(pattern.len() == e);
    assert(b[0] == '(');
    assert forall|i: int| 1 <= i < p1 implies !splits(#[trigger] b[i]) by {
        assert(b[i] == left[i - 1]);
    }
    lemma_pass_over(b, 1, p1, 1, Some(0int));
    assert(b[p1] == '(');
    assert forall|i: int| p1 + 1 <= i < p2 implies !splits(#[trigger] b[i]) by {
        assert(b[i] == inner[i - p1 - 1]);
    }
    lemma_pass_over(b, p1 + 1, p2, 2, Some(0int));
    assert(b[p2] == ')');
    assert forall|i: int| p2 + 1 <= i < p3 implies !splits(#[trigger] b[i]) by {
        assert(b[i] == right[i - p2 - 1]);
    }
    lemma_pass_over(b, p2 + 1, p3, 1, Some(0int));
    assert(b[p3] == ')');
    let g = e + gap.len();
    assert forall|i: int| e <= i < g implies is_gap(#[trigger] b[i]) by {
        assert(b[i] == gap[i - e]);
    }
    if rest.len() > 0 {
        assert(b[g] == rest[0]);
    }
    lemma_gap(b, e, g);
    assert(pattern_end(b, e) == e);
    let x = patterns_from(b, 0, 0, None);
    assert(patterns_from(b, 0, 0, None) == patterns_from(b, 1, 1, Some(0int)));
    assert(patterns_from(b, p1, 1, Some(0int)) == patterns_from(b, p1 + 1, 2, Some(0int)));
    assert(patterns_from(b, p2, 2, Some(0int)) == patterns_from(b, p2 + 1, 1, Some(0int)));
    assert(patterns_from(b, p3, 1, Some(0int)) == seq![(0int, e)] + patterns_from(b, e, 0, None));
    lemma_patterns_shift(pattern, tail, 0, 0, None);
    let y = patterns_from(tail, 0, 0, None);
    crate::tags::law_patterns_in_order(tail, 0, 0, None);
    assert(b.subrange(0, e) =~= pattern);
    let all = patterns_of(b);
    let want = seq![pattern] + patterns_of(tail);
    assert(all.len() == want.len());
    assert forall|k: int| 0 <= k < all.len() implies all[k] == want[k] by {
        if k > 0 {
            let r = y[k - 1];
            assert(x[k] == moved(r, e));
            assert(b.subrange(r.0 + e, r.1 + e) =~= tail.subrange(r.0, r.1));
            assert(patterns_of(tail)[k - 1] == tail.subrange(r.0, r.1));
        }
    }
    assert(all =~= want);
}

/// A backslash in a string hides the character behind it, be it a quote.
pub proof fn law_strings_may_escape(left: Seq<char>, string: Seq<char>, hidden: char, more: Seq<char>, right: Seq<char>)
    requires
        forall|i: int| 0 <= i < left.len() ==> !splits(#[trigger] left[i]),
        forall|i: int| 0 <= i < right.len() ==> !splits(#[trigger] right[i]),
        forall|i: int| 0 <= i < string.len() ==> #[trigger] string[i] != '"' && string[i] != '\\',
        forall|i: int| 0 <= i < more.len() ==> #[trigger] more[i] != '"' && more[i] != '\\',
    ensures
        ({
            let pattern = seq!['('] + left + seq!['"'] + string + seq!['\\', hidden] + more + seq!['"'] + right
                + seq![')'];
            patterns_of(pattern) == seq![pattern]
        }),
{
    let b = seq!['('] + left + seq!['"'] + string + seq!['\\', hidden] + more + seq!['"'] + right + seq![')'];
    let p1 = 1 + left.len() as int;
    let p2 = p1 + 1 + string.len();
    let p3 = p2 + 2 + more.len();
    let p4 = p3 + 1 + right.len();
    assert(b.len() == p4 + 1);
    assert(b[0] == '(');
    assert forall|i: int| 1 <= i < p1 implies !splits(#[trigger] b[i]) by {
        assert(b[i] == left[i - 1]);
    }
    lemma_pass_over(b, 1, p1, 1, Some(0int));
    assert(b[p1] == '"');
    assert forall|i: int| p1 + 1 <= i < p2 implies #[trigger] b[i] != '"' && b[i] != '\\' by {
        assert(b[i] == string[i - p1 - 1]);
    }
    lemma_inside_string(b, p1 + 1, p2);
    assert(b[p2] == '\\' && b[p2 + 1] == hidden);
    assert(string_end(b, p2) == string_end(b, p2 + 2));
    assert forall|i: int| p2 + 2 <= i < p3 implies #[trigger] b[i] != '"' && b[i] != '\\' by {
        assert(b[i] == more[i - p2 - 2]);
    }
    assert(b[p3] == '"');
    lemma_string(b, p2 + 2, p3);
    assert(patterns_from(b, p1, 1, Some(0int)) == patterns_from(b, p3 + 1, 1, Some(0int)));
    assert forall|i: int| p3 + 1 <= i < p4 implies !splits(#[trigger] b[i]) by {
        assert(b[i] == right[i - p3 - 1]);
    }
    lemma_pass_over(b, p3 + 1, p4, 1, Some(0int));
    assert(b[p4] == ')');
    lemma_gap(b, p4 + 1, p4 + 1);
    assert(pattern_end(b, p4 + 1) == p4 + 1);
    assert(patterns_from(b, p4 + 1, 0, None) =~= Seq::empty());
    assert(patterns_from(b, 0, 0, None) =~= seq![(0int, p4 + 1)]);
    assert(b.subrange(0, p4 + 1) =~= b);
    assert(patterns_of(b) =~= seq![b]);
}

proof fn lemma_inside_string(b: Seq<char>, at: int, n: int)
    requires
        0 <= at <= n <= b.len(),
        forall|i: int| at <= i < n ==> #[trigger] b[i] != '"' && b[i] != '\\',
    ensures
        string_end(b, at) == string_end(b, n),
    decreases n - at,
{
    if at < n {
        lemma_inside_string(b, at + 1, n);
    }
}

} // verus!
