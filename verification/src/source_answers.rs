//! What a symbol's normal form keeps and drops, and what blame, line ranges and snapshot ids say.
use vstd::prelude::*;

use crate::answers::{lemma_filter_place, lemma_filter_source};
use crate::git::{is_blame_page, starts_after, BlameHunk};
use crate::cursor::Cursor;
use crate::history::{
    block_comments, block_open, comes_by, hex_value, law_line_comments_do_not_matter,
    lemma_squeezed_add, lemma_squeezed_white, marker_of, nibble, normal_form, snapshot_of,
    squeeze_one, squeezed, stripped, symbol_bytes, unpadded,
};
use crate::model::Symbol;
use crate::seek::count_of;
use crate::text::occurs_at;

verus! {

// ─── Comment syntax ──────────────────────────────────────────────────────────

/// Which languages comment a line with a number sign, which with two slashes, and which have block
/// comments.
pub proof fn law_comment_syntax(lang: Seq<char>)
    ensures
        lang == "python"@ || lang == "ruby"@ || lang == "shell"@ || lang == "bash"@ || lang == "yaml"@
            || lang == "toml"@ || lang == "make"@ <==> marker_of(lang) == seq![35u8],
        lang == "rust"@ || lang == "typescript"@ || lang == "tsx"@ || lang == "javascript"@ || lang
            == "go"@ || lang == "cpp"@ || lang == "c"@ || lang == "java"@ || lang == "csharp"@ || lang
            == "kotlin"@ || lang == "swift"@ || lang == "scala"@ || lang == "zig"@ <==> marker_of(lang)
            == seq![47u8, 47u8],
        marker_of(lang).len() == 0 || marker_of(lang) == seq![35u8] || marker_of(lang) == seq![
            47u8,
            47u8,
        ],
        block_comments(lang) <==> lang == "rust"@ || lang == "typescript"@ || lang == "tsx"@ || lang
            == "javascript"@ || lang == "go"@ || lang == "cpp"@ || lang == "c"@ || lang == "java"@
            || lang == "csharp"@ || lang == "kotlin"@ || lang == "swift"@ || lang == "scala"@ || lang
            == "css"@ || lang == "json"@,
{
    reveal_strlit("python");
    reveal_strlit("ruby");
    reveal_strlit("shell");
    reveal_strlit("bash");
    reveal_strlit("yaml");
    reveal_strlit("toml");
    reveal_strlit("make");
    reveal_strlit("rust");
    reveal_strlit("typescript");
    reveal_strlit("tsx");
    reveal_strlit("javascript");
    reveal_strlit("go");
    reveal_strlit("cpp");
    reveal_strlit("c");
    reveal_strlit("java");
    reveal_strlit("csharp");
    reveal_strlit("kotlin");
    reveal_strlit("swift");
    reveal_strlit("scala");
    reveal_strlit("zig");
    assert("python"@[0] == 'p' && "ruby"@[1] == 'u' && "shell"@[1] == 'h' && "bash"@[0] == 'b'
        && "yaml"@[0] == 'y' && "toml"@[1] == 'o' && "make"@[0] == 'm');
    assert("rust"@.len() == 4 && "rust"@[0] == 'r' && "ruby"@[3] == 'y' && "rust"@[3] == 't');
    assert("typescript"@[1] == 'y' && "tsx"@[1] == 's' && "javascript"@[0] == 'j' && "go"@[0] == 'g'
        && "cpp"@[0] == 'c' && "c"@[0] == 'c' && "java"@[0] == 'j' && "csharp"@[0] == 'c' && "kotlin"@[0]
        == 'k' && "swift"@[1] == 'w' && "scala"@[1] == 'c' && "zig"@[0] == 'z');
    assert(seq![35u8].len() == 1);
    assert(seq![47u8, 47u8].len() == 2);
}

proof fn lemma_plain_front(lang: Seq<char>, raw: Seq<u8>, at: int, n: int)
    requires
        0 <= at <= n <= raw.len(),
        forall|i: int| at <= i < n ==> #[trigger] raw[i] != 35 && raw[i] != 47,
    ensures
        comes_by(raw, at, n, marker_of(lang), block_comments(lang)),
    decreases n - at,
{
    if at < n {
        lemma_no_comment_at(lang, raw, at);
        lemma_plain_front(lang, raw, at + 1, n);
    }
}

proof fn lemma_no_comment_at(lang: Seq<char>, raw: Seq<u8>, at: int)
    requires
        0 <= at < raw.len(),
        raw[at] != 35,
        raw[at] != 47,
    ensures
        !(marker_of(lang).len() > 0 && occurs_at(raw, marker_of(lang), at)),
        !occurs_at(raw, block_open(), at),
{
    let marker = marker_of(lang);
    if marker.len() > 0 && occurs_at(raw, marker, at) {
        assert(raw.subrange(at, at + marker.len())[0] == raw[at]);
        assert(marker[0] == 35 || marker[0] == 47);
    }
    if occurs_at(raw, block_open(), at) {
        assert(raw.subrange(at, at + 2)[0] == raw[at]);
    }
}

/// A comment after code does not matter. In a language that comments with a number sign, what stands from
/// one to the end of the line can be left out.
pub proof fn law_hash_comments_do_not_matter(
    lang: Seq<char>,
    code: Seq<u8>,
    comment: Seq<u8>,
    after: Seq<u8>,
)
    requires
        lang == "python"@ || lang == "ruby"@ || lang == "shell"@ || lang == "bash"@ || lang == "yaml"@
            || lang == "toml"@ || lang == "make"@,
        forall|i: int| 0 <= i < code.len() ==> #[trigger] code[i] != 35 && code[i] != 47,
        forall|i: int| 0 <= i < comment.len() ==> #[trigger] comment[i] != 10,
    ensures
        normal_form(lang, code + seq![35u8] + comment + seq![10u8] + after) == normal_form(
            lang,
            code + seq![10u8] + after,
        ),
{
    law_comment_syntax(lang);
    let n = code.len() as int;
    lemma_plain_front(lang, code + marker_of(lang) + comment + seq![10u8] + after, 0, n);
    lemma_plain_front(lang, code + seq![10u8] + after, 0, n);
    law_line_comments_do_not_matter(lang, code, comment, after);
}

/// A comment after code does not matter. In a language that comments with two slashes, what stands from
/// them to the end of the line can be left out.
pub proof fn law_slash_comments_do_not_matter(
    lang: Seq<char>,
    code: Seq<u8>,
    comment: Seq<u8>,
    after: Seq<u8>,
)
    requires
        lang == "rust"@ || lang == "typescript"@ || lang == "tsx"@ || lang == "javascript"@ || lang
            == "go"@ || lang == "cpp"@ || lang == "c"@ || lang == "java"@ || lang == "csharp"@ || lang
            == "kotlin"@ || lang == "swift"@ || lang == "scala"@ || lang == "zig"@,
        forall|i: int| 0 <= i < code.len() ==> #[trigger] code[i] != 35 && code[i] != 47,
        forall|i: int| 0 <= i < comment.len() ==> #[trigger] comment[i] != 10,
    ensures
        normal_form(lang, code + seq![47u8, 47u8] + comment + seq![10u8] + after) == normal_form(
            lang,
            code + seq![10u8] + after,
        ),
{
    law_comment_syntax(lang);
    let n = code.len() as int;
    lemma_plain_front(lang, code + marker_of(lang) + comment + seq![10u8] + after, 0, n);
    lemma_plain_front(lang, code + seq![10u8] + after, 0, n);
    law_line_comments_do_not_matter(lang, code, comment, after);
}

// ─── Code ────────────────────────────────────────────────────────────────────

proof fn lemma_plain_stays(lang: Seq<char>, raw: Seq<u8>, at: int)
    requires
        0 <= at <= raw.len(),
        forall|i: int| at <= i < raw.len() ==> #[trigger] raw[i] != 35 && raw[i] != 47,
    ensures
        stripped(raw, at, marker_of(lang), block_comments(lang)) == raw.skip(at),
    decreases raw.len() - at,
{
    if at < raw.len() {
        lemma_no_comment_at(lang, raw, at);
        lemma_plain_stays(lang, raw, at + 1);
        assert(seq![raw[at]] + raw.skip(at + 1) =~= raw.skip(at));
    } else {
        assert(raw.skip(at) =~= Seq::empty());
    }
}

/// The bytes of a text that are no white space.
pub open spec fn ink(s: Seq<u8>) -> Seq<u8> {
    s.filter(|b: u8| b != 32 && b != 9 && b != 10 && b != 12 && b != 13)
}

proof fn lemma_ink_push(s: Seq<u8>, b: u8)
    ensures
        ink(s.push(b)) == if b != 32 && b != 9 && b != 10 && b != 12 && b != 13 {
            ink(s).push(b)
        } else {
            ink(s)
        },
{
    crate::seqs::lemma_filter_push(
        s,
        b,
        |b: u8| b != 32 && b != 9 && b != 10 && b != 12 && b != 13,
    );
}

proof fn lemma_squeezed_ink(out: Seq<u8>, s: Seq<u8>)
    ensures
        ink(squeezed(out, s)) == ink(out) + ink(s),
    decreases s.len(),
{
    let p = |b: u8| b != 32 && b != 9 && b != 10 && b != 12 && b != 13;
    if s.len() == 0 {
        reveal(Seq::filter);
        assert(ink(out) + ink(s) =~= ink(out));
    } else {
        let next = squeeze_one(out, s[0]);
        lemma_squeezed_ink(next, s.drop_first());
        lemma_ink_push(out, s[0]);
        lemma_ink_push(out, 32);
        assert(s =~= seq![s[0]] + s.drop_first());
        Seq::filter_distributes_over_add(seq![s[0]], s.drop_first(), p);
        lemma_ink_push(Seq::empty(), s[0]);
        assert(Seq::<u8>::empty().push(s[0]) =~= seq![s[0]]);
        assert(ink(Seq::empty()) =~= Seq::empty()) by {
            reveal(Seq::filter);
        }
        assert(ink(squeezed(out, s)) =~= ink(out) + ink(s));
    }
}

proof fn lemma_unpadded_ink(s: Seq<u8>)
    ensures
        ink(unpadded(s)) == ink(s),
    decreases s.len(),
{
    if s.len() > 0 && s.last() == 32 {
        lemma_unpadded_ink(s.drop_last());
        lemma_ink_push(s.drop_last(), 32);
        assert(s.drop_last().push(32) =~= s);
    }
}

/// Code is kept: of a source in which no comment can start, the normal form has every byte that is no white
/// space, in order, and no other such byte. So two such sources whose code differs have normal forms that
/// differ.
pub proof fn law_code_is_kept(lang: Seq<char>, raw: Seq<u8>)
    requires
        forall|i: int| 0 <= i < raw.len() ==> #[trigger] raw[i] != 35 && raw[i] != 47,
    ensures
        ink(normal_form(lang, raw)) == ink(raw),
{
    lemma_plain_stays(lang, raw, 0);
    assert(raw.skip(0) =~= raw);
    lemma_squeezed_ink(Seq::empty(), raw);
    lemma_unpadded_ink(squeezed(Seq::empty(), raw));
    assert(ink(Seq::empty()) =~= Seq::empty()) by {
        reveal(Seq::filter);
    }
    assert(ink(Seq::empty()) + ink(raw) =~= ink(raw));
}

/// Words stay apart: white space between two pieces of code becomes one space between their normal forms.
pub proof fn law_words_stay_apart(lang: Seq<char>, a: Seq<u8>, space: Seq<u8>, b: Seq<u8>)
    requires
        forall|i: int| 0 <= i < a.len() ==> #[trigger] a[i] != 35 && a[i] != 47,
        forall|i: int| 0 <= i < b.len() ==> #[trigger] b[i] != 35 && b[i] != 47,
        forall|i: int|
            0 <= i < a.len() ==> #[trigger] a[i] != 32 && a[i] != 9 && a[i] != 10 && a[i] != 12 && a[i]
                != 13,
        forall|i: int|
            0 <= i < b.len() ==> #[trigger] b[i] != 32 && b[i] != 9 && b[i] != 10 && b[i] != 12 && b[i]
                != 13,
        a.len() > 0,
        b.len() > 0,
        space.len() > 0,
        forall|i: int|
            0 <= i < space.len() ==> #[trigger] space[i] == 32 || space[i] == 9 || space[i] == 10
                || space[i] == 12 || space[i] == 13,
    ensures
        normal_form(lang, a + space + b) == a + seq![32u8] + b,
{
    let none = Seq::<u8>::empty();
    let raw = a + space + b;
    assert forall|i: int| 0 <= i < raw.len() implies #[trigger] raw[i] != 35 && raw[i] != 47 by {
        if i < a.len() {
            assert(raw[i] == a[i]);
        } else if i < a.len() + space.len() {
            assert(raw[i] == space[i - a.len()]);
        } else {
            assert(raw[i] == b[i - a.len() - space.len()]);
        }
    }
    lemma_plain_stays(lang, raw, 0);
    assert(raw.skip(0) =~= raw);
    lemma_squeezed_add(none, a + space, b);
    lemma_squeezed_add(none, a, space);
    lemma_squeezed_black(none, a);
    assert(none + a =~= a);
    lemma_squeezed_white(a, space);
    assert(squeeze_one(a, 32) =~= a + seq![32u8]);
    lemma_squeezed_black(a + seq![32u8], b);
    let all = a + seq![32u8] + b;
    assert(all.last() == b.last());
    assert(b.last() == b[b.len() - 1]);
    assert(unpadded(all) == all);
}

proof fn lemma_squeezed_black(out: Seq<u8>, s: Seq<u8>)
    requires
        forall|i: int|
            0 <= i < s.len() ==> #[trigger] s[i] != 32 && s[i] != 9 && s[i] != 10 && s[i] != 12 && s[i]
                != 13,
    ensures
        squeezed(out, s) == out + s,
    decreases s.len(),
{
    if s.len() == 0 {
        assert(out + s =~= out);
    } else {
        let rest = s.drop_first();
        assert(s[0] != 32);
        assert forall|i: int| 0 <= i < rest.len() implies #[trigger] rest[i] != 32 && rest[i] != 9
            && rest[i] != 10 && rest[i] != 12 && rest[i] != 13 by {
            assert(rest[i] == s[i + 1]);
        }
        lemma_squeezed_black(out.push(s[0]), rest);
        assert(out.push(s[0]) + rest =~= out + s);
    }
}

// ─── Snapshot ids ────────────────────────────────────────────────────────────

proof fn lemma_hex_differs(a: Seq<u8>, b: Seq<u8>, n: int)
    requires
        0 <= n <= a.len(),
        n <= b.len(),
        forall|i: int|
            0 <= i < n ==> (48 <= #[trigger] a[i] <= 57 || 97 <= a[i] <= 102),
        forall|i: int|
            0 <= i < n ==> (48 <= #[trigger] b[i] <= 57 || 97 <= b[i] <= 102),
    ensures
        hex_value(a, n) is Some,
        hex_value(b, n) is Some,
        hex_value(a, n) == hex_value(b, n) ==> a.take(n) == b.take(n),
    decreases n,
{
    if n > 0 {
        lemma_hex_differs(a, b, n - 1);
        let x = hex_value(a, n - 1)->0;
        let y = hex_value(b, n - 1)->0;
        let d = nibble(a[n - 1])->0;
        let e = nibble(b[n - 1])->0;
        assert(a[n - 1] <= 102 && b[n - 1] <= 102);
        if x * 16 + d == y * 16 + e {
            assert(x == y && d == e);
            assert(a.take(n) =~= a.take(n - 1).push(a[n - 1]));
            assert(b.take(n) =~= b.take(n - 1).push(b[n - 1]));
        }
    } else {
        assert(a.take(0) =~= b.take(0));
    }
}

/// Snapshot ids tell heads apart: two commit ids have the same snapshot id exactly when their first eight
/// digits are the same.
pub proof fn law_snapshots_differ(a: Seq<u8>, b: Seq<u8>)
    requires
        a.len() >= 8,
        b.len() >= 8,
        forall|i: int| 0 <= i < 8 ==> (48 <= #[trigger] a[i] <= 57 || 97 <= a[i] <= 102),
        forall|i: int| 0 <= i < 8 ==> (48 <= #[trigger] b[i] <= 57 || 97 <= b[i] <= 102),
    ensures
        snapshot_of(a) == snapshot_of(b) <==> a.take(8) == b.take(8),
{
    lemma_hex_differs(a, b, 8);
    if a.take(8) == b.take(8) {
        lemma_hex_alike(a, b, 8);
    }
}

proof fn lemma_hex_alike(a: Seq<u8>, b: Seq<u8>, n: int)
    requires
        0 <= n <= 8 <= a.len(),
        8 <= b.len(),
        a.take(8) == b.take(8),
    ensures
        hex_value(a, n) == hex_value(b, n),
    decreases n,
{
    if n > 0 {
        lemma_hex_alike(a, b, n - 1);
        assert(a.take(8)[n - 1] == b.take(8)[n - 1]);
        assert(a.take(8)[n - 1] == a[n - 1]);
        assert(b.take(8)[n - 1] == b[n - 1]);
    }
}

// ─── Lines ───────────────────────────────────────────────────────────────────

/// A symbol's last line is its first one and as many more as there are line feeds in its range, as far as
/// the source reaches.
pub proof fn law_symbols_span_their_lines(sym: Symbol, bytes: Seq<u8>, lines: (u32, u32))
    requires
        lines.0 == sym.start_row + 1,
        lines.1 == sym.start_row + 1 + count_of(10, symbol_bytes(sym, bytes)),
    ensures
        lines.1 >= lines.0,
        sym.start_byte <= sym.end_byte <= bytes.len() ==> lines.1 - lines.0 == bytes.subrange(
            sym.start_byte as int,
            sym.end_byte as int,
        ).filter(|b: u8| b == 10).len(),
        sym.start_byte <= bytes.len() < sym.end_byte ==> lines.1 - lines.0 == bytes.subrange(
            sym.start_byte as int,
            bytes.len() as int,
        ).filter(|b: u8| b == 10).len(),
        sym.start_byte >= bytes.len() ==> lines.1 == lines.0,
{
    lemma_feeds(symbol_bytes(sym, bytes));
    if sym.start_byte == sym.end_byte <= bytes.len() || sym.start_byte == bytes.len() {
        assert(symbol_bytes(sym, bytes) =~= bytes.subrange(
            sym.start_byte as int,
            sym.start_byte as int,
        ));
    }
    if sym.start_byte >= bytes.len() {
        assert(symbol_bytes(sym, bytes) =~= Seq::empty());
        assert(count_of(10, Seq::empty()) == 0);
    }
}

proof fn lemma_feeds(s: Seq<u8>)
    ensures
        count_of(10, s) == s.filter(|b: u8| b == 10).len(),
    decreases s.len(),
{
    reveal(Seq::filter);
    if s.len() > 0 {
        lemma_feeds(s.drop_last());
    }
}

// ─── Blame ───────────────────────────────────────────────────────────────────

/// A page of blame shows hunks behind the line it resumes after, no more than asked for, and never more than
/// a thousand where a number is asked for. The result is the place of the hunk at `i`.
pub proof fn law_blame_shows_later_hunks(
    hunks: Seq<BlameHunk>,
    resume_after: u32,
    limit: Option<u32>,
    shown: Seq<BlameHunk>,
    cursor: Option<Cursor>,
    i: int,
) -> (h: int)
    requires
        is_blame_page(shown, cursor, hunks.filter(starts_after(resume_after)), limit),
        0 <= i < shown.len(),
    ensures
        0 <= h < hunks.len(),
        shown[i].start_line == hunks[h].start_line,
        shown[i].len == hunks[h].len,
        shown[i].commit_sha@ == hunks[h].commit_sha@,
        shown[i].author@ == hunks[h].author@,
        shown[i].summary@ == hunks[h].summary@,
        shown[i].start_line > resume_after,
        limit is Some ==> shown.len() <= limit->0 && shown.len() <= 1000,
{
    let h = lemma_filter_source(hunks, starts_after(resume_after), i);
    assert(shown[i]@ == hunks[h]@);
    assert(shown[i]@.commit_sha == hunks[h]@.commit_sha);
    assert(shown[i]@.author == hunks[h]@.author);
    assert(shown[i]@.summary == hunks[h]@.summary);
    assert(shown[i]@.start_line == hunks[h]@.start_line && shown[i]@.len == hunks[h]@.len);
    h
}

/// A page of blame without a cursor has every hunk behind the line it resumes after. One with a cursor is
/// full. The result is the place of the hunk on the page.
pub proof fn law_blame_misses_nothing(
    hunks: Seq<BlameHunk>,
    resume_after: u32,
    limit: Option<u32>,
    shown: Seq<BlameHunk>,
    cursor: Option<Cursor>,
    h: int,
) -> (i: int)
    requires
        is_blame_page(shown, cursor, hunks.filter(starts_after(resume_after)), limit),
        0 <= h < hunks.len(),
        hunks[h].start_line > resume_after,
    ensures
        cursor is None ==> 0 <= i < shown.len() && shown[i]@ == hunks[h]@,
        cursor is Some ==> limit is Some && (shown.len() == limit->0 || shown.len() == 1000),
{
    lemma_filter_place(hunks, starts_after(resume_after), h)
}

} // verus!
