//! Symbol history: byte-level normalization of a symbol's source, snapshot ids, and line ranges.
use vstd::prelude::*;

use crate::model::{Symbol, ToolError};
use crate::seek::{byte_positions, count_of, first_byte, first_match};
use crate::text::{bytes_start_with, lower_of, occurs_at, same_str, str_lower};

verus! {

// ─── Comment syntax ──────────────────────────────────────────────────────────

/// Whether a language comments a line with `#`.
pub open spec fn hash_comments(lang: Seq<char>) -> bool {
    ||| lang == "python"@
    ||| lang == "ruby"@
    ||| lang == "shell"@
    ||| lang == "bash"@
    ||| lang == "yaml"@
    ||| lang == "toml"@
    ||| lang == "make"@
}

/// Whether a language comments a line with `//`.
pub open spec fn slash_comments(lang: Seq<char>) -> bool {
    ||| lang == "rust"@
    ||| lang == "typescript"@
    ||| lang == "tsx"@
    ||| lang == "javascript"@
    ||| lang == "go"@
    ||| lang == "cpp"@
    ||| lang == "c"@
    ||| lang == "java"@
    ||| lang == "csharp"@
    ||| lang == "kotlin"@
    ||| lang == "swift"@
    ||| lang == "scala"@
    ||| lang == "zig"@
}

/// Whether a language has `/* … */` comments.
pub open spec fn block_comments(lang: Seq<char>) -> bool {
    ||| lang == "rust"@
    ||| lang == "typescript"@
    ||| lang == "tsx"@
    ||| lang == "javascript"@
    ||| lang == "go"@
    ||| lang == "cpp"@
    ||| lang == "c"@
    ||| lang == "java"@
    ||| lang == "csharp"@
    ||| lang == "kotlin"@
    ||| lang == "swift"@
    ||| lang == "scala"@
    ||| lang == "css"@
    ||| lang == "json"@
}

/// The bytes that open a line comment; none for a language whose comments are not known.
pub open spec fn marker_of(lang: Seq<char>) -> Seq<u8> {
    if hash_comments(lang) {
        seq![35u8]
    } else if slash_comments(lang) {
        seq![47u8, 47u8]
    } else {
        Seq::empty()
    }
}

/// The bytes that open a line comment; none for a language whose comments are not known.
pub fn line_comment_marker(lang: &str) -> (marker: Vec<u8>)
    ensures
        marker@ == marker_of(lang@),
{
    let mut marker: Vec<u8> = Vec::new();
    if same_str(lang, "python") || same_str(lang, "ruby") || same_str(lang, "shell") || same_str(
        lang,
        "bash",
    ) || same_str(lang, "yaml") || same_str(lang, "toml") || same_str(lang, "make") {
        marker.push(35);
        assert(marker@ =~= marker_of(lang@));
    } else if same_str(lang, "rust") || same_str(lang, "typescript") || same_str(lang, "tsx")
        || same_str(lang, "javascript") || same_str(lang, "go") || same_str(lang, "cpp")
        || same_str(lang, "c") || same_str(lang, "java") || same_str(lang, "csharp") || same_str(
        lang,
        "kotlin",
    ) || same_str(lang, "swift") || same_str(lang, "scala") || same_str(lang, "zig") {
        marker.push(47);
        marker.push(47);
        assert(marker@ =~= marker_of(lang@));
    }
    marker
}

/// Whether a language has `/* … */` comments.
pub fn has_block_comments(lang: &str) -> (yes: bool)
    ensures
        yes == block_comments(lang@),
{
    same_str(lang, "rust") || same_str(lang, "typescript") || same_str(lang, "tsx") || same_str(
        lang,
        "javascript",
    ) || same_str(lang, "go") || same_str(lang, "cpp") || same_str(lang, "c") || same_str(
        lang,
        "java",
    ) || same_str(lang, "csharp") || same_str(lang, "kotlin") || same_str(lang, "swift")
        || same_str(lang, "scala") || same_str(lang, "css") || same_str(lang, "json")
}

// ─── Normalization ───────────────────────────────────────────────────────────

/// ASCII white space: space, tab, line feed, form feed, carriage return.
pub open spec fn is_white(b: u8) -> bool {
    b == 32 || b == 9 || b == 10 || b == 12 || b == 13
}

/// The bytes that open a block comment.
pub open spec fn block_open() -> Seq<u8> {
    seq![47u8, 42u8]
}

/// The bytes that close a block comment.
pub open spec fn block_close() -> Seq<u8> {
    seq![42u8, 47u8]
}

/// The first line feed from `at` on, or the end.
pub open spec fn feed_from(raw: Seq<u8>, at: int) -> int
    decreases raw.len() - at,
{
    if 0 <= at < raw.len() && raw[at] != 10 {
        feed_from(raw, at + 1)
    } else {
        at
    }
}

/// Past the first `*/` from `at` on, or the end.
pub open spec fn close_from(raw: Seq<u8>, at: int) -> int
    decreases raw.len() - at,
{
    if at < 0 || at >= raw.len() {
        raw.len() as int
    } else if occurs_at(raw, block_close(), at) {
        at + 2
    } else {
        close_from(raw, at + 1)
    }
}

/// A scan forward never goes back, nor past the end.
pub proof fn lemma_scans(raw: Seq<u8>, at: int)
    requires
        0 <= at <= raw.len(),
    ensures
        at <= feed_from(raw, at) <= raw.len(),
        at <= close_from(raw, at) <= raw.len(),
    decreases raw.len() - at,
{
    if at < raw.len() {
        lemma_scans(raw, at + 1);
    }
}

/// What is left of `raw` from `at` on without its comments. The line feed that ends a line comment
/// stays; a block comment that is never closed reaches to the end.
pub open spec fn stripped(raw: Seq<u8>, at: int, marker: Seq<u8>, block: bool) -> Seq<u8>
    decreases raw.len() - at,
{
    if at < 0 || at >= raw.len() {
        Seq::empty()
    } else if marker.len() > 0 && occurs_at(raw, marker, at) {
        proof {
            lemma_scans(raw, at + marker.len());
        }
        stripped(raw, feed_from(raw, at + marker.len()), marker, block)
    } else if block && occurs_at(raw, block_open(), at) {
        proof {
            lemma_scans(raw, at + 2);
        }
        stripped(raw, close_from(raw, at + 2), marker, block)
    } else {
        seq![raw[at]] + stripped(raw, at + 1, marker, block)
    }
}

/// `out` with one more byte: white space becomes a space, unless one is there or nothing is.
pub open spec fn squeeze_one(out: Seq<u8>, b: u8) -> Seq<u8> {
    if !is_white(b) {
        out.push(b)
    } else if out.len() > 0 && out.last() != 32 {
        out.push(32)
    } else {
        out
    }
}

/// `out` followed by `s`, every run of white space squeezed to one space.
pub open spec fn squeezed(out: Seq<u8>, s: Seq<u8>) -> Seq<u8>
    decreases s.len(),
{
    if s.len() == 0 {
        out
    } else {
        squeezed(squeeze_one(out, s[0]), s.drop_first())
    }
}

/// `s` without trailing spaces.
pub open spec fn unpadded(s: Seq<u8>) -> Seq<u8>
    decreases s.len(),
{
    if s.len() > 0 && s.last() == 32 {
        unpadded(s.drop_last())
    } else {
        s
    }
}

/// Source text with white-space runs squeezed to one space and none at the ends.
pub open spec fn collapsed(s: Seq<u8>) -> Seq<u8> {
    unpadded(squeezed(Seq::empty(), s))
}

/// The normal form of a symbol's source: comments stripped, white space collapsed.
pub open spec fn normal_form(lang: Seq<char>, raw: Seq<u8>) -> Seq<u8> {
    collapsed(stripped(raw, 0, marker_of(lang), block_comments(lang)))
}

fn white(b: u8) -> (yes: bool)
    ensures
        yes == is_white(b),
{
    b == 32 || b == 9 || b == 10 || b == 12 || b == 13
}

proof fn lemma_feed_is_first(raw: Seq<u8>, at: int, off: Option<usize>)
    requires
        0 <= at <= raw.len(),
        match off {
            Some(i) => i < raw.len() - at && raw[at + i] == 10 && forall|k: int|
                at <= k < at + i ==> #[trigger] raw[k] != 10,
            None => forall|k: int| at <= k < raw.len() ==> #[trigger] raw[k] != 10,
        },
    ensures
        feed_from(raw, at) == (match off {
            Some(i) => at + i,
            None => raw.len() as int,
        }),
    decreases raw.len() - at,
{
    if at < raw.len() {
        match off {
            Some(i) => {
                if i > 0 {
                    lemma_feed_is_first(raw, at + 1, Some((i - 1) as usize));
                }
            },
            None => {
                lemma_feed_is_first(raw, at + 1, None);
            },
        }
    }
}

proof fn lemma_close_is_first(raw: Seq<u8>, at: int, off: Option<usize>)
    requires
        0 <= at <= raw.len(),
        match off {
            Some(i) => occurs_at(raw, block_close(), at + i) && forall|j: int|
                at <= j < at + i ==> !#[trigger] occurs_at(raw, block_close(), j),
            None => forall|j: int| at <= j ==> !#[trigger] occurs_at(raw, block_close(), j),
        },
    ensures
        close_from(raw, at) == (match off {
            Some(i) => at + i + 2,
            None => raw.len() as int,
        }),
    decreases raw.len() - at,
{
    if at < raw.len() {
        match off {
            Some(i) => {
                if i > 0 {
                    lemma_close_is_first(raw, at + 1, Some((i - 1) as usize));
                }
            },
            None => {
                lemma_close_is_first(raw, at + 1, None);
            },
        }
    }
}

/// Where `needle` stands in a tail of `raw`, it stands in `raw`.
proof fn lemma_occurs_tail(raw: Seq<u8>, needle: Seq<u8>, at: int)
    requires
        0 <= at <= raw.len(),
    ensures
        forall|j: int| #[trigger]
            occurs_at(raw.skip(at), needle, j) == (j >= 0 && occurs_at(raw, needle, at + j)),
        forall|j: int| #![trigger occurs_at(raw, needle, j)]
            j >= at ==> occurs_at(raw, needle, j) == occurs_at(raw.skip(at), needle, j - at),
{
    assert forall|j: int| #[trigger] occurs_at(raw.skip(at), needle, j) == (j >= 0 && occurs_at(
        raw,
        needle,
        at + j,
    )) by {
        if 0 <= j && j + needle.len() <= raw.len() - at {
            assert(raw.skip(at).subrange(j, j + needle.len()) =~= raw.subrange(
                at + j,
                at + j + needle.len(),
            ));
        }
    }
    assert forall|j: int| #![trigger occurs_at(raw, needle, j)]
        j >= at implies occurs_at(raw, needle, j) == occurs_at(raw.skip(at), needle, j - at) by {
        assert(occurs_at(raw.skip(at), needle, j - at) == occurs_at(raw, needle, at + (j - at)));
    }
}

/// The end of a line comment whose text starts at `at`.
fn skip_line(raw: &[u8], at: usize) -> (end: usize)
    requires
        at <= raw@.len(),
    ensures
        end == feed_from(raw@, at as int),
        at <= end <= raw@.len(),
{
    let tail = vstd::slice::slice_subrange(raw, at, raw.len());
    let found = first_byte(10, tail);
    proof {
        assert forall|k: int|
            at <= k < raw@.len() && (found is Some ==> k < at + found->0) implies #[trigger] raw@[k]
            != 10 by {
            assert(tail@[k - at] == raw@[k]);
        }
        lemma_feed_is_first(raw@, at as int, found);
    }
    match found {
        Some(off) => at + off,
        None => raw.len(),
    }
}

/// The end of a block comment whose text starts at `at`.
fn skip_block(raw: &[u8], at: usize) -> (end: usize)
    requires
        at <= raw@.len(),
    ensures
        end == close_from(raw@, at as int),
        at <= end <= raw@.len(),
{
    let tail = vstd::slice::slice_subrange(raw, at, raw.len());
    let mut close: Vec<u8> = Vec::new();
    close.push(42);
    close.push(47);
    assert(close@ =~= block_close());
    let found = first_match(tail, close.as_slice());
    proof {
        assert(tail@ =~= raw@.skip(at as int));
        lemma_occurs_tail(raw@, close@, at as int);
        lemma_close_is_first(raw@, at as int, found);
        lemma_scans(raw@, at as int);
    }
    match found {
        Some(off) => at + off + 2,
        None => raw.len(),
    }
}

fn stands_at(raw: &[u8], needle: &[u8], at: usize) -> (yes: bool)
    requires
        at <= raw@.len(),
    ensures
        yes == occurs_at(raw@, needle@, at as int),
{
    let tail = vstd::slice::slice_subrange(raw, at, raw.len());
    let yes = bytes_start_with(tail, needle);
    proof {
        if needle@.len() <= tail@.len() {
            assert(tail@.subrange(0, needle@.len() as int) =~= raw@.subrange(
                at as int,
                at + needle@.len(),
            ));
        }
    }
    yes
}

/// Normalize a symbol's source for comparison across revisions: line and block comments are
/// stripped as the language writes them, and every run of ASCII white space becomes one space.
/// White space inside string literals is squeezed too.
pub fn normalize_for_history(lang: &str, raw: &[u8]) -> (out: Vec<u8>)
    ensures
        out@ == normal_form(lang@, raw@),
{
    let marker = line_comment_marker(lang);
    let has_block: bool = has_block_comments(lang);
    let mut open: Vec<u8> = Vec::new();
    open.push(47);
    open.push(42);
    assert(open@ =~= block_open());
    let mut out: Vec<u8> = Vec::new();
    let mut i: usize = 0;
    let ghost whole = squeezed(Seq::empty(), stripped(raw@, 0, marker@, has_block));
    while i < raw.len()
        invariant
            i <= raw@.len(),
            open@ == block_open(),
            squeezed(out@, stripped(raw@, i as int, marker@, has_block)) == whole,
        decreases raw.len() - i,
    {
        if marker.len() > 0 && stands_at(raw, marker.as_slice(), i) {
            i = skip_line(raw, i + marker.len());
        } else if has_block && stands_at(raw, open.as_slice(), i) {
            i = skip_block(raw, i + 2);
        } else {
            let ghost rest = stripped(raw@, i as int, marker@, has_block);
            let ghost next = stripped(raw@, i + 1, marker@, has_block);
            assert(rest.drop_first() =~= next);
            let ghost before = out@;
            let b: u8 = raw[i];
            if !white(b) {
                out.push(b);
            } else if out.len() > 0 && out[out.len() - 1] != 32 {
                out.push(32);
            }
            assert(out@ == squeeze_one(before, b));
            i += 1;
        }
    }
    assert(out@ == whole);
    while out.len() > 0 && out[out.len() - 1] == 32
        invariant
            unpadded(out@) == unpadded(whole),
        decreases out.len(),
    {
        let _space = out.pop();
    }
    out
}

/// Squeezed text: no white space but single spaces, and none in front.
pub open spec fn is_squeezed(s: Seq<u8>) -> bool {
    &&& forall|i: int| 0 <= i < s.len() && is_white(#[trigger] s[i]) ==> s[i] == 32
    &&& forall|i: int| 0 <= i < s.len() - 1 && s[i] == 32 ==> #[trigger] s[i + 1] != 32
    &&& s.len() > 0 ==> s[0] != 32
}

proof fn lemma_squeezed_is(out: Seq<u8>, s: Seq<u8>)
    requires
        is_squeezed(out),
    ensures
        is_squeezed(squeezed(out, s)),
    decreases s.len(),
{
    if s.len() > 0 {
        lemma_squeezed_is(squeeze_one(out, s[0]), s.drop_first());
    }
}

proof fn lemma_unpadded_is(s: Seq<u8>)
    requires
        is_squeezed(s),
    ensures
        is_squeezed(unpadded(s)),
        unpadded(s).len() > 0 ==> unpadded(s).last() != 32,
    decreases s.len(),
{
    if s.len() > 0 && s.last() == 32 {
        lemma_unpadded_is(s.drop_last());
    }
}

/// A normal form has no white space but single spaces between other bytes: none at either end,
/// and never two in a row.
pub proof fn law_normal_form_is_tight(lang: Seq<char>, raw: Seq<u8>)
    ensures
        is_squeezed(normal_form(lang, raw)),
        normal_form(lang, raw).len() > 0 ==> normal_form(lang, raw).last() != 32,
{
    let s = stripped(raw, 0, marker_of(lang), block_comments(lang));
    lemma_squeezed_is(Seq::empty(), s);
    lemma_unpadded_is(squeezed(Seq::empty(), s));
}

pub(crate) proof fn lemma_squeezed_add(out: Seq<u8>, a: Seq<u8>, b: Seq<u8>)
    ensures
        squeezed(out, a + b) == squeezed(squeezed(out, a), b),
    decreases a.len(),
{
    if a.len() == 0 {
        assert(a + b =~= b);
    } else {
        assert((a + b).drop_first() =~= a.drop_first() + b);
        lemma_squeezed_add(squeeze_one(out, a[0]), a.drop_first(), b);
    }
}

pub(crate) proof fn lemma_squeezed_white(out: Seq<u8>, w: Seq<u8>)
    requires
        w.len() > 0,
        forall|i: int| 0 <= i < w.len() ==> is_white(#[trigger] w[i]),
    ensures
        squeezed(out, w) == squeeze_one(out, 32),
    decreases w.len(),
{
    let one = squeeze_one(out, w[0]);
    assert(one == squeeze_one(out, 32));
    let rest = w.drop_first();
    if rest.len() > 0 {
        assert forall|i: int| 0 <= i < rest.len() implies is_white(#[trigger] rest[i]) by {
            assert(rest[i] == w[i + 1]);
        }
        lemma_squeezed_white(one, rest);
        assert(squeeze_one(one, 32) == one);
    }
}

/// Where stripping goes on after what stands at `at`: past a comment, or to the next byte.
pub open spec fn step_end(raw: Seq<u8>, at: int, marker: Seq<u8>, block: bool) -> int {
    if marker.len() > 0 && occurs_at(raw, marker, at) {
        feed_from(raw, at + marker.len())
    } else if block && occurs_at(raw, block_open(), at) {
        close_from(raw, at + 2)
    } else {
        at + 1
    }
}

/// Whether stripping from `at` on comes by `n`, which is then in no comment.
pub open spec fn comes_by(raw: Seq<u8>, at: int, n: int, marker: Seq<u8>, block: bool) -> bool
    decreases n - at,
{
    at == n || (0 <= at < raw.len() && at < step_end(raw, at, marker, block) <= n && comes_by(
        raw,
        step_end(raw, at, marker, block),
        n,
        marker,
        block,
    ))
}

/// Whether position `n` of a source is in no comment.
pub open spec fn outside_comments(lang: Seq<char>, raw: Seq<u8>, n: int) -> bool {
    comes_by(raw, 0, n, marker_of(lang), block_comments(lang))
}

proof fn lemma_feed_alike(x: Seq<u8>, y: Seq<u8>, n: int, at: int)
    requires
        0 <= at <= n <= x.len(),
        n <= y.len(),
        x.take(n) == y.take(n),
        feed_from(x, at) <= n,
        feed_from(y, at) <= n,
    ensures
        feed_from(x, at) == feed_from(y, at),
    decreases n - at,
{
    if at < n {
        assert(x[at] == x.take(n)[at] && y[at] == y.take(n)[at]);
        if x[at] != 10 {
            lemma_feed_alike(x, y, n, at + 1);
        }
    } else {
        lemma_scans(x, at);
        lemma_scans(y, at);
    }
}

proof fn lemma_close_alike(x: Seq<u8>, y: Seq<u8>, n: int, at: int)
    requires
        0 <= at,
        n < x.len(),
        n <= y.len(),
        x.take(n) == y.take(n),
        close_from(x, at) <= n,
    ensures
        close_from(x, at) == close_from(y, at),
    decreases x.len() - at,
{
    if at < x.len() {
        if occurs_at(x, block_close(), at) {
            assert(y.subrange(at, at + 2) =~= y.take(n).subrange(at, at + 2));
            assert(x.subrange(at, at + 2) =~= x.take(n).subrange(at, at + 2));
        } else {
            lemma_close_alike(x, y, n, at + 1);
            lemma_past_close(x, at + 1);
            if occurs_at(y, block_close(), at) {
                assert(y.subrange(at, at + 2) =~= y.take(n).subrange(at, at + 2));
                assert(x.subrange(at, at + 2) =~= x.take(n).subrange(at, at + 2));
            }
        }
    }
}

proof fn lemma_past_close(raw: Seq<u8>, at: int)
    requires
        0 <= at <= raw.len(),
    ensures
        close_from(raw, at) == raw.len() || close_from(raw, at) >= at + 2,
    decreases raw.len() - at,
{
    if at < raw.len() && !occurs_at(raw, block_close(), at) {
        lemma_past_close(raw, at + 1);
    }
}

/// Two sources that begin alike up to a place in no comment, and are stripped alike from there on,
/// are stripped alike.
proof fn lemma_same_front(x: Seq<u8>, y: Seq<u8>, at: int, n: int, marker: Seq<u8>, block: bool)
    requires
        n < x.len(),
        n <= y.len(),
        x.take(n) == y.take(n),
        comes_by(x, at, n, marker, block),
        comes_by(y, at, n, marker, block),
        0 <= at,
        stripped(x, n, marker, block) == stripped(y, n, marker, block),
    ensures
        stripped(x, at, marker, block) == stripped(y, at, marker, block),
    decreases n - at,
{
    if at != n {
        let e = step_end(x, at, marker, block);
        let f = step_end(y, at, marker, block);
        if at + marker.len() <= n {
            lemma_scans(x, at + marker.len());
            lemma_scans(y, at + marker.len());
            assert(x.subrange(at, at + marker.len()) =~= x.take(n).subrange(at, at + marker.len()));
            assert(y.subrange(at, at + marker.len()) =~= y.take(n).subrange(at, at + marker.len()));
        } else {
            if occurs_at(x, marker, at) {
                lemma_scans(x, at + marker.len());
            }
            if occurs_at(y, marker, at) {
                lemma_scans(y, at + marker.len());
            }
        }
        if at + 2 <= n {
            assert(x.subrange(at, at + 2) =~= x.take(n).subrange(at, at + 2));
            assert(y.subrange(at, at + 2) =~= y.take(n).subrange(at, at + 2));
        } else {
            if occurs_at(x, block_open(), at) {
                lemma_scans(x, at + 2);
            }
            if occurs_at(y, block_open(), at) {
                lemma_scans(y, at + 2);
            }
        }
        assert(x[at] == x.take(n)[at] && y[at] == y.take(n)[at]);
        if marker.len() > 0 && occurs_at(x, marker, at) {
            lemma_feed_alike(x, y, n, at + marker.len());
        } else if block && occurs_at(x, block_open(), at) {
            lemma_close_alike(x, y, n, at + 2);
        }
        assert(e == f);
        lemma_same_front(x, y, e, n, marker, block);
    }
}

/// What is left from a place on depends on what stands there alone.
proof fn lemma_shifted(x: Seq<u8>, i: int, y: Seq<u8>, j: int, marker: Seq<u8>, block: bool)
    requires
        0 <= i <= x.len(),
        0 <= j <= y.len(),
        x.skip(i) == y.skip(j),
    ensures
        stripped(x, i, marker, block) == stripped(y, j, marker, block),
    decreases x.len() - i,
{
    assert(x.skip(i).len() == x.len() - i && y.skip(j).len() == y.len() - j);
    if i < x.len() {
        lemma_occurs_tail(x, marker, i);
        lemma_occurs_tail(y, marker, j);
        lemma_occurs_tail(x, block_open(), i);
        lemma_occurs_tail(y, block_open(), j);
        assert(occurs_at(x, marker, i) == occurs_at(x.skip(i), marker, 0));
        assert(occurs_at(y, marker, j) == occurs_at(y.skip(j), marker, 0));
        assert(occurs_at(x, block_open(), i) == occurs_at(x.skip(i), block_open(), 0));
        assert(occurs_at(y, block_open(), j) == occurs_at(y.skip(j), block_open(), 0));
        assert(x[i] == x.skip(i)[0] && y[j] == y.skip(j)[0]);
        if marker.len() > 0 && occurs_at(x, marker, i) {
            let m = marker.len() as int;
            assert(x.skip(i + m) =~= x.skip(i).skip(m));
            assert(y.skip(j + m) =~= y.skip(j).skip(m));
            lemma_scans(x, i + m);
            lemma_feed_shifted(x, i + m, y, j + m);
            let k = feed_from(x, i + m) - i;
            assert(x.skip(i + k) =~= x.skip(i).skip(k));
            assert(y.skip(j + k) =~= y.skip(j).skip(k));
            lemma_shifted(x, i + k, y, j + k, marker, block);
        } else if block && occurs_at(x, block_open(), i) {
            assert(x.skip(i + 2) =~= x.skip(i).skip(2));
            assert(y.skip(j + 2) =~= y.skip(j).skip(2));
            lemma_scans(x, i + 2);
            lemma_close_shifted(x, i + 2, y, j + 2);
            let k = close_from(x, i + 2) - i;
            assert(x.skip(i + k) =~= x.skip(i).skip(k));
            assert(y.skip(j + k) =~= y.skip(j).skip(k));
            lemma_shifted(x, i + k, y, j + k, marker, block);
        } else {
            assert(x.skip(i + 1) =~= x.skip(i).skip(1));
            assert(y.skip(j + 1) =~= y.skip(j).skip(1));
            lemma_shifted(x, i + 1, y, j + 1, marker, block);
        }
    }
}

proof fn lemma_feed_shifted(x: Seq<u8>, i: int, y: Seq<u8>, j: int)
    requires
        0 <= i <= x.len(),
        0 <= j <= y.len(),
        x.skip(i) == y.skip(j),
    ensures
        feed_from(x, i) - i == feed_from(y, j) - j,
    decreases x.len() - i,
{
    assert(x.skip(i).len() == x.len() - i && y.skip(j).len() == y.len() - j);
    if i < x.len() {
        assert(x[i] == x.skip(i)[0] && y[j] == y.skip(j)[0]);
        assert(x.skip(i + 1) =~= x.skip(i).skip(1));
        assert(y.skip(j + 1) =~= y.skip(j).skip(1));
        lemma_feed_shifted(x, i + 1, y, j + 1);
    }
}

proof fn lemma_close_shifted(x: Seq<u8>, i: int, y: Seq<u8>, j: int)
    requires
        0 <= i <= x.len(),
        0 <= j <= y.len(),
        x.skip(i) == y.skip(j),
    ensures
        close_from(x, i) - i == close_from(y, j) - j,
    decreases x.len() - i,
{
    assert(x.skip(i).len() == x.len() - i && y.skip(j).len() == y.len() - j);
    if i < x.len() {
        lemma_occurs_tail(x, block_close(), i);
        lemma_occurs_tail(y, block_close(), j);
        assert(occurs_at(x, block_close(), i) == occurs_at(x.skip(i), block_close(), 0));
        assert(occurs_at(y, block_close(), j) == occurs_at(y.skip(j), block_close(), 0));
        assert(x.skip(i + 1) =~= x.skip(i).skip(1));
        assert(y.skip(j + 1) =~= y.skip(j).skip(1));
        assert(i < x.len() && j < y.len());
        lemma_close_shifted(x, i + 1, y, j + 1);
    }
}

proof fn lemma_feed_at(raw: Seq<u8>, at: int, n: int)
    requires
        0 <= at <= n < raw.len(),
        raw[n] == 10,
        forall|i: int| at <= i < n ==> #[trigger] raw[i] != 10,
    ensures
        feed_from(raw, at) == n,
    decreases n - at,
{
    if at < n {
        lemma_feed_at(raw, at + 1, n);
    }
}

proof fn lemma_close_at(raw: Seq<u8>, at: int, n: int)
    requires
        0 <= at <= n,
        occurs_at(raw, block_close(), n),
        forall|i: int| at <= i < n ==> !#[trigger] occurs_at(raw, block_close(), i),
    ensures
        close_from(raw, at) == n + 2,
    decreases n - at,
{
    if at < n {
        lemma_close_at(raw, at + 1, n);
    }
}

proof fn lemma_line_comment(
    marker: Seq<u8>,
    block: bool,
    before: Seq<u8>,
    comment: Seq<u8>,
    after: Seq<u8>,
)
    requires
        marker.len() > 0,
        forall|i: int| 0 <= i < comment.len() ==> #[trigger] comment[i] != 10,
    ensures
        ({
            let x = before + marker + comment + seq![10u8] + after;
            let y = before + seq![10u8] + after;
            let n = before.len() as int;
            &&& n < x.len() && n < y.len()
            &&& x.take(n) == y.take(n)
            &&& stripped(x, n, marker, block) == stripped(y, n, marker, block)
        }),
{
    let x = before + marker + comment + seq![10u8] + after;
    let y = before + seq![10u8] + after;
    let n = before.len() as int;
    let end = n + marker.len() + comment.len();
    assert(x.take(n) =~= y.take(n));
    assert(x.subrange(n, n + marker.len()) =~= marker);
    assert(x.skip(end) =~= seq![10u8] + after);
    assert(y.skip(n) =~= seq![10u8] + after);
    assert forall|i: int| n + marker.len() <= i < end implies #[trigger] x[i] != 10 by {
        assert(x[i] == comment[i - n - marker.len()]);
    }
    lemma_feed_at(x, n + marker.len(), end);
    lemma_shifted(x, end, y, n, marker, block);
}

/// A line comment does not matter: a line with one at its end, outside any other comment, and the
/// line without it have the same normal form.
pub proof fn law_line_comments_do_not_matter(
    lang: Seq<char>,
    before: Seq<u8>,
    comment: Seq<u8>,
    after: Seq<u8>,
)
    requires
        marker_of(lang).len() > 0,
        forall|i: int| 0 <= i < comment.len() ==> #[trigger] comment[i] != 10,
        outside_comments(
            lang,
            before + marker_of(lang) + comment + seq![10u8] + after,
            before.len() as int,
        ),
        outside_comments(lang, before + seq![10u8] + after, before.len() as int),
    ensures
        normal_form(lang, before + marker_of(lang) + comment + seq![10u8] + after) == normal_form(
            lang,
            before + seq![10u8] + after,
        ),
{
    let marker = marker_of(lang);
    let block = block_comments(lang);
    let x = before + marker + comment + seq![10u8] + after;
    let y = before + seq![10u8] + after;
    lemma_line_comment(marker, block, before, comment, after);
    lemma_same_front(x, y, 0, before.len() as int, marker, block);
}

/// A block comment does not matter: a source with one, outside any other comment, and the source
/// without it have the same normal form.
pub proof fn law_block_comments_do_not_matter(
    lang: Seq<char>,
    before: Seq<u8>,
    comment: Seq<u8>,
    after: Seq<u8>,
)
    requires
        block_comments(lang),
        forall|i: int|
            0 <= i < comment.len() ==> !#[trigger] occurs_at(
                comment + block_close(),
                block_close(),
                i,
            ),
        outside_comments(
            lang,
            before + block_open() + comment + block_close() + after,
            before.len() as int,
        ),
        outside_comments(lang, before + after, before.len() as int),
    ensures
        normal_form(lang, before + block_open() + comment + block_close() + after) == normal_form(
            lang,
            before + after,
        ),
{
    let marker = marker_of(lang);
    let x = before + block_open() + comment + block_close() + after;
    let y = before + after;
    let n = before.len() as int;
    let end = n + 2 + comment.len();
    assert(x.subrange(n, n + 2) =~= block_open());
    assert(!(marker.len() > 0 && occurs_at(x, marker, n))) by {
        if marker.len() > 0 && occurs_at(x, marker, n) {
            let head = x.subrange(n, n + marker.len());
            assert(head[0] == x[n]);
            assert(x[n] == 47 && x[n + 1] == 42);
            if marker.len() == 2 {
                assert(head[1] == x[n + 1]);
            }
        }
    }
    assert(x.subrange(end, end + 2) =~= block_close());
    assert forall|i: int| n + 2 <= i < end implies !#[trigger] occurs_at(x, block_close(), i) by {
        let inner = comment + block_close();
        assert(!occurs_at(inner, block_close(), i - n - 2));
        assert(x.subrange(i, i + 2) =~= inner.subrange(i - n - 2, i - n));
    }
    lemma_close_at(x, n + 2, end);
    assert(x.skip(end + 2) =~= after);
    assert(y.skip(n) =~= after);
    lemma_shifted(x, end + 2, y, n, marker, true);
    assert(x.take(n) =~= y.take(n));
    lemma_same_front(x, y, 0, n, marker, true);
}

/// How white space is laid out does not matter: any run of it between the same two texts collapses
/// to the same form.
pub proof fn law_white_space_runs_are_alike(a: Seq<u8>, w1: Seq<u8>, w2: Seq<u8>, b: Seq<u8>)
    requires
        w1.len() > 0,
        w2.len() > 0,
        forall|i: int| 0 <= i < w1.len() ==> is_white(#[trigger] w1[i]),
        forall|i: int| 0 <= i < w2.len() ==> is_white(#[trigger] w2[i]),
    ensures
        collapsed(a + w1 + b) == collapsed(a + w2 + b),
{
    let e = Seq::<u8>::empty();
    lemma_squeezed_add(e, a + w1, b);
    lemma_squeezed_add(e, a + w2, b);
    lemma_squeezed_add(e, a, w1);
    lemma_squeezed_add(e, a, w2);
    lemma_squeezed_white(squeezed(e, a), w1);
    lemma_squeezed_white(squeezed(e, a), w2);
}

// ─── Snapshot ids ────────────────────────────────────────────────────────────

/// The value of a hexadecimal digit, of either letter case.
pub open spec fn nibble(b: u8) -> Option<int> {
    if 48 <= b <= 57 {
        Some(b - 48)
    } else if 97 <= b <= 102 {
        Some(b - 97 + 10)
    } else if 65 <= b <= 70 {
        Some(b - 65 + 10)
    } else {
        None
    }
}

/// The number that the first `n` digits spell; `None` where one is no digit.
pub open spec fn hex_value(b: Seq<u8>, n: int) -> Option<int>
    decreases n,
{
    if n <= 0 {
        Some(0)
    } else {
        match (hex_value(b, n - 1), nibble(b[n - 1])) {
            (Some(v), Some(d)) => Some(v * 16 + d),
            _ => None,
        }
    }
}

/// The snapshot id of a commit: the number that the first eight digits of its id spell, or 0 where
/// there are fewer, or not all are digits.
pub open spec fn snapshot_of(sha: Seq<u8>) -> int {
    if sha.len() < 8 {
        0
    } else {
        match hex_value(sha, 8) {
            Some(v) => v,
            None => 0,
        }
    }
}

/// Derive a stable 32-bit snapshot id from the id of the head commit, so that a cursor of another
/// head is told apart.
pub fn head_snapshot_id(head_sha: &str) -> (id: u32)
    ensures
        id == snapshot_of(vstd::utf8::encode_utf8(head_sha@)),
{
    let bytes = head_sha.as_bytes();
    if bytes.len() < 8 {
        return 0;
    }
    let mut out: u64 = 0;
    let mut i: usize = 0;
    assert(pow16(8) == 0x1_0000_0000) by {
        reveal_with_fuel(pow16, 9);
    }
    while i < 8
        invariant
            i <= 8,
            bytes@.len() >= 8,
            bytes@ == vstd::utf8::encode_utf8(head_sha@),
            hex_value(bytes@, i as int) == Some(out as int),
            out < pow16(i as int),
            pow16(8) == 0x1_0000_0000,
        decreases 8 - i,
    {
        let b: u8 = bytes[i];
        let d: u8 = if 48 <= b && b <= 57 {
            b - 48
        } else if 97 <= b && b <= 102 {
            b - 97 + 10
        } else if 65 <= b && b <= 70 {
            b - 65 + 10
        } else {
            proof {
                lemma_hex_none(bytes@, i + 1, 8);
            }
            return 0;
        };
        proof {
            lemma_pow16(i + 1, 8);
        }
        out = out * 16 + d as u64;
        i += 1;
    }
    out as u32
}

spec fn pow16(n: int) -> int
    decreases n,
{
    if n <= 0 {
        1
    } else {
        pow16(n - 1) * 16
    }
}

proof fn lemma_pow16(m: int, n: int)
    requires
        0 <= m <= n,
    ensures
        1 <= pow16(m) <= pow16(n),
    decreases n,
{
    if m < n {
        lemma_pow16(m, n - 1);
    } else if n > 0 {
        lemma_pow16(m - 1, n - 1);
    }
}

proof fn lemma_hex_none(b: Seq<u8>, m: int, n: int)
    requires
        0 <= m <= n,
        hex_value(b, m) is None,
    ensures
        hex_value(b, n) is None,
    decreases n - m,
{
    if m < n {
        lemma_hex_none(b, m, n - 1);
    }
}

// ─── Line ranges ─────────────────────────────────────────────────────────────

/// The bytes of a symbol in a blob, as far as the blob reaches.
pub open spec fn symbol_bytes(sym: Symbol, bytes: Seq<u8>) -> Seq<u8> {
    let s = sym.start_byte as int;
    let e = if (sym.end_byte as int) < bytes.len() {
        sym.end_byte as int
    } else {
        bytes.len() as int
    };
    if s < e {
        bytes.subrange(s, e)
    } else {
        Seq::empty()
    }
}

/// The 1-based first and last line of a symbol in a blob: its start row, and as many lines further
/// as line feeds stand in its bytes. A blob that ends early bounds the range.
pub fn line_range_in_blob(sym: &Symbol, bytes: &[u8]) -> (lines: (u32, u32))
    requires
        sym.start_row + 1 + bytes@.len() <= u32::MAX,
    ensures
        lines.0 == sym.start_row + 1,
        lines.1 == sym.start_row + 1 + count_of(10, symbol_bytes(*sym, bytes@)),
{
    let start_line: u32 = sym.start_row + 1;
    let s: usize = sym.start_byte as usize;
    let e: usize = if (sym.end_byte as usize) < bytes.len() {
        sym.end_byte as usize
    } else {
        bytes.len()
    };
    if s < e {
        let slice = vstd::slice::slice_subrange(bytes, s, e);
        let feeds = byte_positions(10, slice);
        proof {
            crate::seek::lemma_positions(10, slice@);
        }
        (start_line, start_line + feeds.len() as u32)
    } else {
        (start_line, start_line)
    }
}

// ─── Fingerprint modes ───────────────────────────────────────────────────────

/// How a symbol's body is fingerprinted.
#[derive(Debug, Clone, Copy, PartialEq, Eq, Structural)]
pub enum HashMode {
    /// The normalized bytes.
    Normalized,
    /// The shape of the syntax tree, with identifiers and literals.
    StructuralExact,
    /// The shape of the syntax tree, with identifiers, without what literals hold.
    StructuralLoose,
}

impl HashMode {
    /// The wire name of the mode.
    pub open spec fn tag(self) -> Seq<char> {
        match self {
            HashMode::Normalized => "normalized"@,
            HashMode::StructuralExact => "structural"@,
            HashMode::StructuralLoose => "structural_loose"@,
        }
    }

    /// The wire name of the mode.
    pub fn as_str(self) -> (s: &'static str)
        ensures
            s@ == self.tag(),
    {
        match self {
            HashMode::Normalized => "normalized",
            HashMode::StructuralExact => "structural",
            HashMode::StructuralLoose => "structural_loose",
        }
    }
}

/// The mode that a name stands for.
pub open spec fn mode_named(s: Seq<char>) -> Option<HashMode> {
    if s == "normalized"@ {
        Some(HashMode::Normalized)
    } else if s == "structural"@ {
        Some(HashMode::StructuralExact)
    } else if s == "structural_loose"@ {
        Some(HashMode::StructuralLoose)
    } else {
        None
    }
}

/// Parse a mode. Letter case of ASCII letters is ignored; an unknown name is refused.
pub fn parse_hash_mode(s: &str) -> (r: Result<HashMode, ToolError>)
    ensures
        match r {
            Ok(m) => mode_named(lower_of(s@)) == Some(m),
            Err(e) => mode_named(lower_of(s@)) is None && e is InvalidParams && e.text()
                == "unknown hash_mode: "@ + lower_of(s@)
                + " (expected normalized|structural|structural_loose)"@,
        },
{
    let low = str_lower(s);
    if same_str(low.as_str(), "normalized") {
        Ok(HashMode::Normalized)
    } else if same_str(low.as_str(), "structural") {
        Ok(HashMode::StructuralExact)
    } else if same_str(low.as_str(), "structural_loose") {
        Ok(HashMode::StructuralLoose)
    } else {
        let mut m = String::from_str("unknown hash_mode: ");
        m.append(low.as_str());
        m.append(" (expected normalized|structural|structural_loose)");
        Err(ToolError::InvalidParams(m))
    }
}

/// A mode is read back from its own wire name.
pub proof fn law_hash_modes_parse_back(m: HashMode)
    ensures
        mode_named(lower_of(m.tag())) == Some(m),
{
    reveal_strlit("normalized");
    reveal_strlit("structural");
    reveal_strlit("structural_loose");
    assert(lower_of(m.tag()) =~= m.tag());
    assert("normalized"@[0] == 'n' && "structural"@[0] == 's');
}

} // verus!
