//! Which sections an adapted query source has.
use vstd::prelude::*;

use crate::tags::{
    adapted, capture_at, capture_run, is_capture_char, law_patterns_in_order, lemma_line_end,
    lemma_runs, line_end, line_from, opened_section, pattern_kind, patterns_from, patterns_of,
    rewritten, rewritten_from, section_from, section_of, section_text, PatternKind,
};
use crate::text::{is_blank, is_space, trim_end_of, trim_start_of};

verus! {

// ─── Lines that open a section ───────────────────────────────────────────────

/// Whether a line starts at `at`.
pub open spec fn is_line_start(s: Seq<char>, at: int) -> bool {
    0 <= at < s.len() && (at == 0 || s[at - 1] == '\n')
}

/// Whether no line of a source opens a section.
pub open spec fn opens_no_section(s: Seq<char>) -> bool {
    forall|at: int|
        is_line_start(s, at) ==> #[trigger] opened_section(line_from(s, at)) is None
}

/// The text from `at` on, past white space of the same line, begins with the section mark.
spec fn leads(s: Seq<char>, at: int) -> bool
    decreases s.len() - at,
{
    if 0 <= at < s.len() && is_space(s[at]) && s[at] != '\n' {
        leads(s, at + 1)
    } else {
        0 <= at <= s.len() && ";; section:"@.is_prefix_of(s.skip(at))
    }
}

proof fn lemma_mark()
    ensures
        ";; section:"@.len() == 11,
        ";; section:"@[0] == ';',
        forall|i: int|
            0 <= i < ";; section:"@.len() ==> #[trigger] ";; section:"@[i] != '\n'
                && ";; section:"@[i] != '\r' && ";; section:"@[i] != '@',
{
    reveal_strlit(";; section:");
}

/// A line opens a section exactly where its text leads with the section mark.
proof fn lemma_leads(s: Seq<char>, at: int)
    requires
        0 <= at <= s.len(),
    ensures
        leads(s, at) == (opened_section(line_from(s, at)) is Some),
    decreases s.len() - at,
{
    let mark = ";; section:"@;
    let line = line_from(s, at);
    let e = line_end(s, at);
    lemma_mark();
    lemma_line_end(s, at);
    if at < s.len() && is_space(s[at]) && s[at] != '\n' {
        lemma_leads(s, at + 1);
        let next = line_from(s, at + 1);
        lemma_line_end(s, at + 1);
        assert(e == line_end(s, at + 1));
        if line.len() > 0 {
            assert(line.drop_first() =~= next);
            assert(trim_start_of(line) == trim_start_of(next));
        } else {
            assert(next.len() == 0);
            assert(trim_start_of(next) == next);
        }
    } else {
        assert(trim_start_of(line) == line);
        lemma_line_chars(s, at);
        if mark.is_prefix_of(s.skip(at)) {
            assert forall|i: int| 0 <= i < mark.len() implies s[at + i] == #[trigger] mark[i] by {
                assert(s.skip(at).subrange(0, mark.len() as int)[i] == mark[i]);
            }
            assert forall|i: int| at <= i < at + mark.len() implies #[trigger] s[i] != '\n' && s[i]
                != '\r' by {
                assert(s[at + (i - at)] == mark[i - at]);
            }
            lemma_inside(s, at, mark.len() as int);
            assert(line.subrange(0, mark.len() as int) =~= mark);
        }
        if mark.is_prefix_of(line) {
            assert(s.skip(at).subrange(0, mark.len() as int) =~= line.subrange(
                0,
                mark.len() as int,
            ));
        }
    }
}

/// The characters of a line are those of the source, and none of them is a line feed.
pub(crate) proof fn lemma_line_chars(s: Seq<char>, at: int)
    requires
        0 <= at <= s.len(),
    ensures
        at + line_from(s, at).len() <= line_end(s, at) <= s.len(),
        forall|i: int|
            0 <= i < line_from(s, at).len() ==> #[trigger] line_from(s, at)[i] == s[at + i],
        forall|i: int| at <= i < line_end(s, at) ==> #[trigger] s[i] != '\n',
        line_end(s, at) < s.len() ==> s[line_end(s, at)] == '\n',
    decreases s.len() - at,
{
    lemma_line_end(s, at);
    if at < s.len() && s[at] != '\n' {
        lemma_line_chars(s, at + 1);
    }
}

/// Characters that are neither line feeds nor carriage returns lie within the line.
proof fn lemma_inside(s: Seq<char>, at: int, n: int)
    requires
        0 <= at,
        at + n <= s.len(),
        n > 0,
        forall|i: int| at <= i < at + n ==> #[trigger] s[i] != '\n' && s[i] != '\r',
    ensures
        line_from(s, at).len() >= n,
{
    lemma_line_chars(s, at);
    if line_end(s, at) < at + n {
        assert(s[line_end(s, at)] == '\n');
    }
}

// ─── Plain texts ─────────────────────────────────────────────────────────────

/// Whole lines none of which opens a section.
spec fn plain(t: Seq<char>) -> bool {
    &&& t.len() > 0 ==> t.last() == '\n'
    &&& forall|at: int| is_line_start(t, at) ==> !#[trigger] leads(t, at)
}

/// What leads a line is decided within that line.
proof fn lemma_leads_within(t: Seq<char>, rest: Seq<char>, at: int)
    requires
        0 <= at < t.len(),
        t.last() == '\n',
    ensures
        leads(t + rest, at) == leads(t, at),
    decreases t.len() - at,
{
    let s = t + rest;
    let mark = ";; section:"@;
    lemma_mark();
    assert(s[at] == t[at]);
    if is_space(t[at]) && t[at] != '\n' {
        lemma_leads_within(t, rest, at + 1);
    } else {
        if mark.is_prefix_of(t.skip(at)) {
            assert(s.skip(at).subrange(0, 11) =~= t.skip(at).subrange(0, 11));
        }
        if mark.is_prefix_of(s.skip(at)) {
            if t.len() - at < 11 {
                let k = t.len() - 1 - at;
                assert(s.skip(at).subrange(0, 11)[k] == t[t.len() - 1]);
                assert(mark[k] != '\n');
            } else {
                assert(s.skip(at).subrange(0, 11) =~= t.skip(at).subrange(0, 11));
            }
        }
    }
}

/// What leads a line does not depend on what stands before it.
proof fn lemma_leads_shift(a: Seq<char>, b: Seq<char>, at: int)
    requires
        0 <= at <= b.len(),
    ensures
        leads(a + b, a.len() + at) == leads(b, at),
    decreases b.len() - at,
{
    let s = a + b;
    if at < b.len() {
        assert(s[a.len() + at] == b[at]);
        lemma_leads_shift(a, b, at + 1);
    }
    assert(s.skip(a.len() + at) =~= b.skip(at));
}

proof fn lemma_plain_add(a: Seq<char>, b: Seq<char>)
    requires
        plain(a),
        plain(b),
    ensures
        plain(a + b),
{
    let s = a + b;
    assert forall|at: int| is_line_start(s, at) implies !#[trigger] leads(s, at) by {
        if at < a.len() {
            lemma_leads_within(a, b, at);
            assert(is_line_start(a, at));
        } else {
            lemma_leads_shift(a, b, at - a.len());
            if at > a.len() {
                assert(s[at - 1] == b[at - 1 - a.len()]);
            }
            assert(is_line_start(b, at - a.len()));
        }
    }
    if b.len() == 0 {
        assert(s =~= a);
    }
}

// ─── Sections of a text in parts ─────────────────────────────────────────────

/// A section does not depend on what stands before the place it is read from.
pub(crate) proof fn lemma_section_shift(a: Seq<char>, b: Seq<char>, at: int, name: Seq<char>, open: bool)
    requires
        0 <= at,
    ensures
        section_from(a + b, a.len() + at, name, open) == section_from(b, at, name, open),
    decreases b.len() + 1 - at,
{
    let s = a + b;
    if at < b.len() {
        lemma_end_shift(a, b, at);
        lemma_line_end(b, at);
        let e = line_end(b, at);
        assert(line_from(s, a.len() + at) =~= line_from(b, at));
        lemma_section_shift(a, b, e + 1, name, open);
        match opened_section(line_from(b, at)) {
            Some(opened) => {
                lemma_section_shift(a, b, e + 1, name, opened == name);
            },
            None => {},
        }
    }
}

proof fn lemma_end_shift(a: Seq<char>, b: Seq<char>, at: int)
    requires
        0 <= at <= b.len(),
    ensures
        line_end(a + b, a.len() + at) == a.len() + line_end(b, at),
    decreases b.len() - at,
{
    if at < b.len() {
        assert((a + b)[a.len() + at] == b[at]);
        lemma_end_shift(a, b, at + 1);
    }
}

/// The end of a line that lies in the front part.
pub(crate) proof fn lemma_end_within(t: Seq<char>, rest: Seq<char>, at: int)
    requires
        0 <= at < t.len(),
        t.last() == '\n',
    ensures
        line_end(t + rest, at) == line_end(t, at),
        line_end(t, at) < t.len(),
        line_from(t + rest, at) == line_from(t, at),
    decreases t.len() - at,
{
    let s = t + rest;
    assert(s[at] == t[at]);
    if t[at] != '\n' {
        lemma_end_within(t, rest, at + 1);
    }
    lemma_line_end(t, at);
    let e = line_end(t, at);
    assert(line_from(s, at) =~= line_from(t, at)) by {
        if e > at {
            assert(s[e - 1] == t[e - 1]);
        }
    }
}

/// Plain lines leave the section open or shut, and go into it line by line.
proof fn lemma_section_plain(t: Seq<char>, rest: Seq<char>, at: int, name: Seq<char>, open: bool)
    requires
        plain(t),
        0 <= at <= t.len(),
        at == t.len() || is_line_start(t, at),
    ensures
        section_from(t + rest, at, name, open) == section_from(t, at, name, open) + section_from(
            rest,
            0,
            name,
            open,
        ),
        !open ==> section_from(t, at, name, open).len() == 0,
        open ==> forall|i: int|
            at <= i < t.len() && #[trigger] t[i] == '(' ==> section_from(t, at, name, open).contains('('),
    decreases t.len() - at,
{
    let s = t + rest;
    if at == t.len() {
        lemma_section_shift(t, rest, 0, name, open);
        assert(section_from(t, at, name, open) =~= Seq::empty());
        assert(Seq::<char>::empty() + section_from(rest, 0, name, open) =~= section_from(
            rest,
            0,
            name,
            open,
        ));
    } else {
        assert(!leads(t, at));
        lemma_leads(t, at);
        lemma_end_within(t, rest, at);
        lemma_line_end(t, at);
        lemma_line_chars(t, at);
        let line = line_from(t, at);
        let next = line_end(t, at) + 1;
        assert(next == t.len() || is_line_start(t, next));
        lemma_section_plain(t, rest, next, name, open);
        let tail = section_from(t, next, name, open);
        let after = section_from(rest, 0, name, open);
        if open {
            let mine = section_from(t, at, name, open);
            assert(mine == line.push('\n') + tail);
            assert((line.push('\n') + tail) + after =~= line.push('\n') + (tail + after));
            assert forall|i: int| at <= i < t.len() && #[trigger] t[i] == '(' implies mine.contains('(') by {
                if i < next {
                    assert(i != next - 1);
                    let k = i - at;
                    assert(k < line.len()) by {
                        if k >= line.len() {
                            assert(t[i] == '\r');
                        }
                    }
                    assert(mine[k] == line[k]);
                } else {
                    let k = choose|k: int| 0 <= k < tail.len() && tail[k] == '(';
                    assert(mine[line.len() + 1 + k] == '(');
                }
            }
        }
    }
}

// ─── Rewritten patterns ──────────────────────────────────────────────────────

proof fn lemma_no_feed(cap: Seq<char>, kind: PatternKind)
    requires
        forall|i: int| 0 <= i < cap.len() ==> is_capture_char(#[trigger] cap[i]),
    ensures
        forall|i: int| 0 <= i < rewritten(cap, kind).len() ==> #[trigger] rewritten(cap, kind)[i] != '\n',
{
    reveal_strlit("symbol.name");
    reveal_strlit("call.callee");
    reveal_strlit("impl.trait_name");
    reveal_strlit("name");
    reveal_strlit("symbol.");
    reveal_strlit("definition.");
    reveal_strlit("call.range");
    reveal_strlit("impl.range");
    let r = rewritten(cap, kind);
    assert forall|i: int| 0 <= i < r.len() implies #[trigger] r[i] != '\n' by {
        if cap == "name"@ || cap == "reference.call"@ || cap == "reference.implementation"@ {
        } else if "definition."@.is_prefix_of(cap) {
            if i >= "symbol."@.len() {
                let k = i - "symbol."@.len() + "definition."@.len();
                assert(r[i] == cap[k]);
                assert(is_capture_char(cap[k]));
            }
        } else {
            assert(is_capture_char(cap[i]));
        }
    }
}

proof fn lemma_run_chars(b: Seq<char>, at: int)
    requires
        0 <= at <= b.len(),
    ensures
        forall|i: int| at <= i < capture_run(b, at) ==> is_capture_char(#[trigger] b[i]),
        at <= capture_run(b, at) <= b.len(),
    decreases b.len() - at,
{
    if at < b.len() && is_capture_char(b[at]) {
        lemma_run_chars(b, at + 1);
    }
}

/// A text without `@` and line feeds that stands at the front of a rewritten pattern stands in the
/// pattern.
proof fn lemma_front_kept(m: Seq<char>, p: Seq<char>, at: int, kind: PatternKind)
    requires
        0 <= at <= p.len(),
        forall|i: int| 0 <= i < m.len() ==> #[trigger] m[i] != '@' && m[i] != '\n',
        m.is_prefix_of(rewritten_from(p, at, kind)),
    ensures
        m.is_prefix_of(p.skip(at)),
    decreases m.len(),
{
    let r = rewritten_from(p, at, kind);
    if m.len() == 0 {
        assert(p.skip(at).subrange(0, 0) =~= m);
    } else {
        assert(r.subrange(0, m.len() as int)[0] == m[0]);
        assert(r[0] == m[0]);
        assert(at < p.len() && p[at] != '@') by {
            if at < p.len() && p[at] == '@' {
                assert(r[0] == '@');
            }
        }
        let rest = rewritten_from(p, at + 1, kind);
        assert(r == seq![p[at]] + rest);
        let n = m.drop_first();
        assert forall|i: int| 0 <= i < n.len() implies #[trigger] n[i] != '@' && n[i] != '\n' by {
            assert(n[i] == m[i + 1]);
        }
        assert(rest.subrange(0, n.len() as int) =~= n) by {
            assert forall|i: int| 0 <= i < n.len() implies rest[i] == #[trigger] n[i] by {
                assert(r.subrange(0, m.len() as int)[i + 1] == m[i + 1]);
                assert(r[i + 1] == rest[i]);
            }
        }
        lemma_front_kept(n, p, at + 1, kind);
        assert(p.skip(at).subrange(0, m.len() as int) =~= m) by {
            assert forall|i: int| 0 <= i < m.len() implies p[at + i] == #[trigger] m[i] by {
                if i > 0 {
                    assert(p.skip(at + 1).subrange(0, n.len() as int)[i - 1] == n[i - 1]);
                }
            }
        }
    }
}

/// A rewritten pattern leads with the section mark only where the pattern does.
proof fn lemma_leads_kept(p: Seq<char>, at: int, kind: PatternKind)
    requires
        0 <= at <= p.len(),
        leads(rewritten_from(p, at, kind), 0),
    ensures
        leads(p, at),
    decreases p.len() - at,
{
    let r = rewritten_from(p, at, kind);
    let mark = ";; section:"@;
    lemma_mark();
    if at >= p.len() {
        assert(r == seq!['\n']);
        assert(r.skip(0).len() == 1);
    } else if p[at] == '@' {
        assert(r[0] == '@');
        assert(r.skip(0).subrange(0, 11)[0] == r[0]);
    } else {
        let rest = rewritten_from(p, at + 1, kind);
        assert(r == seq![p[at]] + rest);
        if is_space(p[at]) && p[at] != '\n' {
            lemma_leads_shift(seq![p[at]], rest, 0);
            lemma_leads_kept(p, at + 1, kind);
        } else {
            assert(r.skip(0) =~= r);
            lemma_front_kept(mark, p, at, kind);
        }
    }
}

/// No line of a rewritten pattern but perhaps its first opens a section, where none of the pattern's
/// does.
proof fn lemma_lines_kept(p: Seq<char>, at: int, kind: PatternKind, q: int)
    requires
        0 <= at <= p.len(),
        forall|i: int| 0 < i < p.len() && p[i - 1] == '\n' ==> !#[trigger] leads(p, i),
        0 < q < rewritten_from(p, at, kind).len(),
        rewritten_from(p, at, kind)[q - 1] == '\n',
    ensures
        !leads(rewritten_from(p, at, kind), q),
    decreases p.len() - at,
{
    let r = rewritten_from(p, at, kind);
    if at < p.len() {
        lemma_runs(p, at + 1);
        if p[at] != '@' {
            let front = seq![p[at]];
            let rest = rewritten_from(p, at + 1, kind);
            assert(r == front + rest);
            lemma_leads_shift(front, rest, q - 1);
            if q == 1 {
                if leads(rest, 0) {
                    lemma_leads_kept(p, at + 1, kind);
                    if at + 1 == p.len() {
                        lemma_mark();
                        assert(p.skip(at + 1).len() == 0);
                    }
                }
            } else {
                assert(r[q - 1] == rest[q - 2]);
                lemma_lines_kept(p, at + 1, kind, q - 1);
            }
        } else {
            let cap = capture_at(p, at + 1);
            let end = capture_run(p, at + 1);
            let front = seq!['@'] + rewritten(cap, kind);
            let rest = rewritten_from(p, end, kind);
            lemma_run_chars(p, at + 1);
            assert forall|i: int| 0 <= i < cap.len() implies is_capture_char(#[trigger] cap[i]) by {
                assert(cap[i] == p[at + 1 + i]);
            }
            lemma_no_feed(cap, kind);
            assert(r == front + rest);
            if q - 1 < front.len() {
                assert(r[q - 1] == front[q - 1]);
                if q - 1 > 0 {
                    assert(front[q - 1] == rewritten(cap, kind)[q - 2]);
                }
            }
            lemma_leads_shift(front, rest, q - front.len());
            assert(r[q - 1] == rest[q - 1 - front.len()]);
            lemma_lines_kept(p, end, kind, q - front.len());
        }
    }
}

proof fn lemma_ends_with_feed(p: Seq<char>, at: int, kind: PatternKind)
    requires
        0 <= at <= p.len(),
    ensures
        rewritten_from(p, at, kind).len() > 0,
        rewritten_from(p, at, kind).last() == '\n',
    decreases p.len() - at,
{
    if at < p.len() {
        lemma_runs(p, at + 1);
        if p[at] != '@' {
            lemma_ends_with_feed(p, at + 1, kind);
        } else {
            lemma_ends_with_feed(p, capture_run(p, at + 1), kind);
        }
    }
}

/// A pattern that opens with a parenthesis and whose other lines open no section is plain when
/// rewritten.
proof fn lemma_rewritten_plain(p: Seq<char>, kind: PatternKind)
    requires
        p.len() > 0,
        p[0] == '(',
        forall|i: int| 0 < i < p.len() && p[i - 1] == '\n' ==> !#[trigger] leads(p, i),
    ensures
        plain(rewritten_from(p, 0, kind)),
        rewritten_from(p, 0, kind)[0] == '(',
{
    let r = rewritten_from(p, 0, kind);
    lemma_ends_with_feed(p, 0, kind);
    lemma_mark();
    assert(r == seq![p[0]] + rewritten_from(p, 1, kind));
    assert(!leads(r, 0)) by {
        if leads(r, 0) {
            assert(r.skip(0).subrange(0, 11)[0] == r[0]);
        }
    }
    assert forall|q: int| is_line_start(r, q) implies !#[trigger] leads(r, q) by {
        if q > 0 {
            lemma_lines_kept(p, 0, kind, q);
        }
    }
}

/// What leads a line of a part leads that line of the whole.
proof fn lemma_leads_part(s: Seq<char>, a: int, e: int, i: int)
    requires
        0 <= a <= e <= s.len(),
        0 <= i <= e - a,
        leads(s.subrange(a, e), i),
    ensures
        leads(s, a + i),
    decreases e - a - i,
{
    let p = s.subrange(a, e);
    lemma_mark();
    if i < p.len() && is_space(p[i]) && p[i] != '\n' {
        lemma_leads_part(s, a, e, i + 1);
    } else {
        assert(p.skip(i).len() >= 11);
        assert(s.skip(a + i).subrange(0, 11) =~= p.skip(i).subrange(0, 11));
        assert(p.skip(i).subrange(0, 11)[0] == p[i]);
    }
}

/// Whether a source has a pattern of this kind.
pub open spec fn has_kind(s: Seq<char>, kind: PatternKind) -> bool {
    exists|k: int| 0 <= k < patterns_of(s).len() && #[trigger] pattern_kind(patterns_of(s)[k]) == kind
}

proof fn lemma_pattern_lines(s: Seq<char>, k: int)
    requires
        opens_no_section(s),
        0 <= k < patterns_of(s).len(),
    ensures
        patterns_of(s)[k].len() > 0,
        patterns_of(s)[k][0] == '(',
        forall|i: int|
            0 < i < patterns_of(s)[k].len() && patterns_of(s)[k][i - 1] == '\n'
                ==> !#[trigger] leads(patterns_of(s)[k], i),
{
    let ranges = patterns_from(s, 0, 0, None);
    law_patterns_in_order(s, 0, 0, None);
    let r = ranges[k];
    let p = patterns_of(s)[k];
    assert(p == s.subrange(r.0, r.1));
    assert forall|i: int| 0 < i < p.len() && p[i - 1] == '\n' implies !#[trigger] leads(p, i) by {
        if leads(p, i) {
            lemma_leads_part(s, r.0, r.1, i);
            lemma_leads(s, r.0 + i);
            assert(s[r.0 + i - 1] == p[i - 1]);
            assert(is_line_start(s, r.0 + i));
        }
    }
}

proof fn lemma_text_plain(s: Seq<char>, kind: PatternKind, n: int)
    requires
        opens_no_section(s),
        0 <= n <= patterns_of(s).len(),
    ensures
        plain(section_text(patterns_of(s), kind, n)),
        section_text(patterns_of(s), kind, n).len() == 0 || section_text(
            patterns_of(s),
            kind,
            n,
        ).contains('('),
        (section_text(patterns_of(s), kind, n).len() > 0) == exists|k: int|
            0 <= k < n && #[trigger] pattern_kind(patterns_of(s)[k]) == kind,
    decreases n,
{
    if n > 0 {
        let ps = patterns_of(s);
        let before = section_text(ps, kind, n - 1);
        lemma_text_plain(s, kind, n - 1);
        if pattern_kind(ps[n - 1]) == kind {
            lemma_pattern_lines(s, n - 1);
            lemma_rewritten_plain(ps[n - 1], kind);
            let r = rewritten_from(ps[n - 1], 0, kind);
            lemma_plain_add(before, r);
            assert((before + r)[before.len() as int] == '(');
        } else if before.len() > 0 {
            let k = choose|k: int| 0 <= k < n - 1 && #[trigger] pattern_kind(ps[k]) == kind;
            assert(pattern_kind(ps[k]) == kind);
        }
    }
}

// ─── The adapted source ──────────────────────────────────────────────────────

/// The header line of a section.
spec fn header(name: Seq<char>) -> Seq<char> {
    ";; section: "@ + name + seq!['\n']
}

/// A name without white space.
spec fn is_word(name: Seq<char>) -> bool {
    name.len() > 0 && forall|i: int| 0 <= i < name.len() ==> !is_space(#[trigger] name[i])
}

proof fn lemma_header(word: Seq<char>, rest: Seq<char>, name: Seq<char>, open: bool)
    requires
        is_word(word),
    ensures
        section_from(header(word) + rest, 0, name, open) == section_from(
            rest,
            0,
            name,
            word == name,
        ),
{
    reveal_strlit(";; section: ");
    reveal_strlit(";; section:");
    let h = header(word);
    let s = h + rest;
    let mark = ";; section:"@;
    let line = ";; section: "@ + word;
    let n = line.len() as int;
    assert(h =~= line.push('\n'));
    assert(s[n] == '\n');
    assert forall|i: int| 0 <= i < n implies #[trigger] s[i] != '\n' && s[i] != '\r' by {
        if i >= 12 {
            assert(s[i] == word[i - 12]);
            assert(!is_space(word[i - 12]));
        }
    }
    lemma_inside(s, 0, n);
    lemma_line_chars(s, 0);
    assert(line_end(s, 0) == n) by {
        if line_end(s, 0) < n {
            assert(s[line_end(s, 0)] == '\n');
        }
    }
    assert(line_from(s, 0) =~= line);
    assert(trim_start_of(line) == line);
    assert(line.subrange(0, 11) =~= mark);
    let tail = line.skip(11);
    assert(tail =~= seq![' '] + word);
    assert(tail.drop_first() =~= word);
    assert(!is_space(word[0]));
    assert(trim_start_of(tail) == trim_start_of(word));
    assert(trim_start_of(word) == word);
    assert(!is_space(word[word.len() - 1]));
    assert(trim_end_of(word) == word);
    assert(opened_section(line) == Some(word));
    lemma_section_shift(h, rest, 0, name, word == name);
}

proof fn lemma_blank(a: Seq<char>, b: Seq<char>)
    ensures
        is_blank(a + b) == (is_blank(a) && is_blank(b)),
{
    if is_blank(a + b) {
        assert forall|i: int| 0 <= i < a.len() implies is_space(#[trigger] a[i]) by {
            assert((a + b)[i] == a[i]);
        }
        assert forall|i: int| 0 <= i < b.len() implies is_space(#[trigger] b[i]) by {
            assert((a + b)[a.len() + i] == b[i]);
        }
    }
}

/// The part of a source that one section makes: its header, its text, and a blank line.
proof fn lemma_part(word: Seq<char>, t: Seq<char>, rest: Seq<char>, name: Seq<char>, open: bool)
    requires
        is_word(word),
        plain(t),
        t.len() == 0 || t.contains('('),
    ensures
        is_blank(section_from(header(word) + (t + rest), 0, name, open)) == ((word == name ==> t.len()
            == 0) && is_blank(section_from(rest, 0, name, word == name))),
{
    let inside = word == name;
    lemma_header(word, t + rest, name, open);
    lemma_section_plain(t, rest, 0, name, inside);
    let mine = section_from(t, 0, name, inside);
    let after = section_from(rest, 0, name, inside);
    lemma_blank(mine, after);
    if inside && t.len() > 0 {
        let i = choose|i: int| 0 <= i < t.len() && t[i] == '(';
        assert(t[i] == '(');
        let k = choose|k: int| 0 <= k < mine.len() && mine[k] == '(';
        assert(!is_space(mine[k]));
    }
    if t.len() == 0 {
        assert(mine =~= Seq::empty());
    }
}

/// The sections of an adapted source: where no line of the source opens a section itself, there are
/// symbols, calls and implementations exactly where the source has a pattern of that kind, and there
/// is no other section.
pub proof fn law_sections_of_the_adapted_source(s: Seq<char>, name: Seq<char>)
    requires
        opens_no_section(s),
    ensures
        is_blank(section_of(adapted(s), name)) == !{
            ||| name == "symbols"@ && has_kind(s, PatternKind::Definition)
            ||| name == "calls"@ && has_kind(s, PatternKind::ReferenceCall)
            ||| name == "implementations"@ && has_kind(s, PatternKind::ReferenceImplementation)
        },
{
    reveal_strlit("symbols");
    reveal_strlit("calls");
    reveal_strlit("implementations");
    reveal_strlit(";; section: ");
    reveal_strlit(";; section: symbols\n");
    reveal_strlit("\n;; section: calls\n");
    reveal_strlit("\n;; section: implementations\n");
    let ps = patterns_of(s);
    let n = ps.len() as int;
    let a = section_text(ps, PatternKind::Definition, n);
    let b = section_text(ps, PatternKind::ReferenceCall, n);
    let c = section_text(ps, PatternKind::ReferenceImplementation, n);
    lemma_text_plain(s, PatternKind::Definition, n);
    lemma_text_plain(s, PatternKind::ReferenceCall, n);
    lemma_text_plain(s, PatternKind::ReferenceImplementation, n);
    let feed = seq!['\n'];
    let none = Seq::<char>::empty();
    let third = header("implementations"@) + (c + none);
    let second = header("calls"@) + (b + (feed + third));
    let first = header("symbols"@) + (a + (feed + second));
    assert(header("symbols"@) =~= ";; section: symbols\n"@);
    assert(feed + header("calls"@) =~= "\n;; section: calls\n"@);
    assert(feed + header("implementations"@) =~= "\n;; section: implementations\n"@);
    assert(adapted(s) =~= first);
    let in_first = "symbols"@ == name;
    let in_second = "calls"@ == name;
    let in_third = "implementations"@ == name;
    lemma_part("symbols"@, a, feed + second, name, false);
    lemma_feed_line(second, name, in_first);
    lemma_part("calls"@, b, feed + third, name, in_first);
    lemma_feed_line(third, name, in_second);
    lemma_part("implementations"@, c, none, name, in_second);
    assert(section_from(none, 0, name, in_third) =~= none);
    assert("symbols"@.len() == 7 && "calls"@.len() == 5 && "implementations"@.len() == 15);
}

/// A blank line makes no section.
proof fn lemma_feed_line(rest: Seq<char>, name: Seq<char>, open: bool)
    ensures
        is_blank(section_from(seq!['\n'] + rest, 0, name, open)) == is_blank(
            section_from(rest, 0, name, open),
        ),
{
    let feed = seq!['\n'];
    assert(plain(feed)) by {
        assert forall|at: int| is_line_start(feed, at) implies !#[trigger] leads(feed, at) by {
            lemma_mark();
            assert(feed.skip(0).len() == 1);
        }
    }
    lemma_section_plain(feed, rest, 0, name, open);
    let mine = section_from(feed, 0, name, open);
    lemma_blank(mine, section_from(rest, 0, name, open));
    lemma_leads(feed, 0);
    assert(line_end(feed, 0) == 0);
    assert(line_from(feed, 0) =~= Seq::empty());
    assert(section_from(feed, 1, name, open) =~= Seq::empty());
    assert(mine.len() <= 1);
    if open {
        assert(mine =~= seq!['\n']);
    }
}

} // verus!
