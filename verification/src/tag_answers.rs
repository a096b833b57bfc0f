//! What becomes of captures, patterns and sections of query sources.
use vstd::prelude::*;

use crate::answers::{part_of, starts};
use crate::tag_sections::{lemma_line_chars, lemma_section_shift};
use crate::tags::{
    adapted, capture_at, capture_kind, capture_run, is_capture_char, last_at_sign, line_end,
    line_from, opened_section, pattern_kind, patterns_of, rewritten, rewritten_from, section_from,
    section_of, section_text, PatternKind,
};
use crate::text::{is_space, trim_of, trim_start_of};

verus! {

// ─── Captures ────────────────────────────────────────────────────────────────

/// What captures are called afterwards: what follows `definition.` follows `symbol.` instead; a call's range
/// and an implementation's range have their own names; `name` is named after what its pattern stands for; and
/// any other capture keeps its name.
pub proof fn law_capture_names(cap: Seq<char>, rest: Seq<char>, kind: PatternKind)
    ensures
        rewritten("definition."@ + rest, kind) == "symbol."@ + rest,
        rewritten("reference.call"@, kind) == "call.range"@,
        rewritten("reference.implementation"@, kind) == "impl.range"@,
        rewritten("name"@, PatternKind::Definition) == "symbol.name"@,
        rewritten("name"@, PatternKind::ReferenceCall) == "call.callee"@,
        rewritten("name"@, PatternKind::ReferenceImplementation) == "impl.trait_name"@,
        cap != "name"@ && cap != "reference.call"@ && cap != "reference.implementation"@ && (cap.len()
            < 11 || cap.take(11) != "definition."@) ==> rewritten(cap, kind) == cap,
{
    reveal_strlit("definition.");
    reveal_strlit("reference.call");
    reveal_strlit("reference.implementation");
    reveal_strlit("name");
    let d = "definition."@;
    assert(d.len() == 11);
    assert("name"@[0] == 'n' && "reference.call"@[0] == 'r' && "reference.implementation"@[0] == 'r'
        && d[0] == 'd');
    assert("reference.call"@.len() == 14 && "reference.implementation"@.len() == 24);
    let full = d + rest;
    assert(full.subrange(0, 11) =~= d);
    assert(full[0] == 'd');
    assert(full.skip(11) =~= rest);
    assert(d.is_prefix_of(full));
    if d.is_prefix_of("reference.call"@) {
        assert("reference.call"@.subrange(0, 11)[0] == 'r');
    }
    if d.is_prefix_of("reference.implementation"@) {
        assert("reference.implementation"@.subrange(0, 11)[0] == 'r');
    }
    if d.is_prefix_of(cap) {
        assert(cap.take(11) =~= cap.subrange(0, 11));
    }
}

/// What captures stand for: whatever starts with `definition.` for a definition, the two references for a
/// call and an implementation, and any other for nothing.
pub proof fn law_capture_kinds(cap: Seq<char>, rest: Seq<char>)
    ensures
        capture_kind("definition."@ + rest) == PatternKind::Definition,
        capture_kind("reference.call"@) == PatternKind::ReferenceCall,
        capture_kind("reference.implementation"@) == PatternKind::ReferenceImplementation,
        cap != "reference.call"@ && cap != "reference.implementation"@ && (cap.len() < 11 || cap.take(
            11,
        ) != "definition."@) ==> capture_kind(cap) == PatternKind::Other,
{
    reveal_strlit("definition.");
    reveal_strlit("reference.call");
    reveal_strlit("reference.implementation");
    let d = "definition."@;
    assert(d.len() == 11);
    assert(d[0] == 'd' && "reference.call"@[0] == 'r' && "reference.implementation"@[0] == 'r');
    assert("reference.call"@.len() == 14 && "reference.implementation"@.len() == 24);
    let full = d + rest;
    assert(full.subrange(0, 11) =~= d);
    assert(d.is_prefix_of(full));
    if d.is_prefix_of("reference.call"@) {
        assert("reference.call"@.subrange(0, 11)[0] == 'r');
    }
    if d.is_prefix_of("reference.implementation"@) {
        assert("reference.implementation"@.subrange(0, 11)[0] == 'r');
    }
    if d.is_prefix_of(cap) {
        assert(cap.take(11) =~= cap.subrange(0, 11));
    }
}

proof fn lemma_run(b: Seq<char>, at: int, end: int)
    requires
        0 <= at <= end <= b.len(),
        forall|i: int| at <= i < end ==> is_capture_char(#[trigger] b[i]),
        end == b.len() || !is_capture_char(b[end]),
    ensures
        capture_run(b, at) == end,
    decreases end - at,
{
    if at < end {
        lemma_run(b, at + 1, end);
    }
}

proof fn lemma_rewrite_shift(a: Seq<char>, b: Seq<char>, at: int, kind: PatternKind)
    requires
        0 <= at <= b.len(),
    ensures
        rewritten_from(a + b, a.len() + at, kind) == rewritten_from(b, at, kind),
    decreases b.len() - at,
{
    let s = a + b;
    if at < b.len() {
        assert(s[a.len() + at] == b[at]);
        if b[at] != '@' {
            lemma_rewrite_shift(a, b, at + 1, kind);
        } else {
            lemma_run_shift(a, b, at + 1);
            let e = capture_run(b, at + 1);
            crate::tags::lemma_runs(b, at + 1);
            assert(capture_at(s, a.len() + at + 1) =~= capture_at(b, at + 1));
            lemma_rewrite_shift(a, b, e, kind);
        }
    }
}

proof fn lemma_run_shift(a: Seq<char>, b: Seq<char>, at: int)
    requires
        0 <= at <= b.len(),
    ensures
        capture_run(a + b, a.len() + at) == a.len() + capture_run(b, at),
    decreases b.len() - at,
{
    if at < b.len() {
        assert((a + b)[a.len() + at] == b[at]);
        lemma_run_shift(a, b, at + 1);
    }
}

proof fn lemma_rewrite_plain(a: Seq<char>, b: Seq<char>, at: int, kind: PatternKind)
    requires
        0 <= at <= a.len(),
        forall|i: int| 0 <= i < a.len() ==> #[trigger] a[i] != '@',
    ensures
        rewritten_from(a + b, at, kind) == a.skip(at) + rewritten_from(b, 0, kind),
    decreases a.len() - at,
{
    let s = a + b;
    if at < a.len() {
        assert(s[at] == a[at]);
        lemma_rewrite_plain(a, b, at + 1, kind);
        assert(seq![a[at]] + (a.skip(at + 1) + rewritten_from(b, 0, kind)) =~= a.skip(at)
            + rewritten_from(b, 0, kind));
    } else {
        lemma_rewrite_shift(a, b, 0, kind);
        assert(a.skip(at) + rewritten_from(b, 0, kind) =~= rewritten_from(b, 0, kind));
    }
}

/// Rewriting a pattern replaces captures and nothing else: the text before a capture stays, the capture gets
/// its other name, and what follows is rewritten in the same way.
pub proof fn law_rewriting_replaces_captures(
    before: Seq<char>,
    cap: Seq<char>,
    after: Seq<char>,
    kind: PatternKind,
)
    requires
        forall|i: int| 0 <= i < before.len() ==> #[trigger] before[i] != '@',
        forall|i: int| 0 <= i < cap.len() ==> is_capture_char(#[trigger] cap[i]),
        after.len() == 0 || !is_capture_char(after[0]),
    ensures
        rewritten_from(before + seq!['@'] + cap + after, 0, kind) == before + seq!['@'] + rewritten(
            cap,
            kind,
        ) + rewritten_from(after, 0, kind),
{
    let tail = seq!['@'] + cap + after;
    assert(before + seq!['@'] + cap + after =~= before + tail);
    lemma_rewrite_plain(before, tail, 0, kind);
    assert(before.skip(0) =~= before);
    let e = 1 + cap.len() as int;
    assert forall|i: int| 1 <= i < e implies is_capture_char(#[trigger] tail[i]) by {
        assert(tail[i] == cap[i - 1]);
    }
    lemma_run(tail, 1, e);
    assert(capture_at(tail, 1) =~= cap);
    lemma_rewrite_shift(seq!['@'] + cap, after, 0, kind);
    assert(seq!['@'] + cap + after =~= tail);
    assert(rewritten_from(tail, 0, kind) == seq!['@'] + rewritten(cap, kind) + rewritten_from(
        tail,
        e,
        kind,
    ));
    assert(before + (seq!['@'] + rewritten(cap, kind) + rewritten_from(after, 0, kind)) =~= before
        + seq!['@'] + rewritten(cap, kind) + rewritten_from(after, 0, kind));
}

proof fn lemma_last_at(b: Seq<char>, n: int, k: int)
    requires
        0 <= k < n <= b.len(),
        b[k] == '@',
        forall|i: int| k < i < n ==> #[trigger] b[i] != '@',
    ensures
        last_at_sign(b, n) == Some(k),
    decreases n,
{
    if k < n - 1 {
        assert(b[n - 1] != '@');
        lemma_last_at(b, n - 1, k);
    }
}

/// A pattern is of the kind that its last capture stands for.
pub proof fn law_the_last_capture_decides(before: Seq<char>, cap: Seq<char>, after: Seq<char>)
    requires
        forall|i: int| 0 <= i < cap.len() ==> is_capture_char(#[trigger] cap[i]) && cap[i] != '@',
        forall|i: int| 0 <= i < after.len() ==> #[trigger] after[i] != '@',
        after.len() == 0 || !is_capture_char(after[0]),
    ensures
        pattern_kind(before + seq!['@'] + cap + after) == capture_kind(cap),
{
    let s = before + seq!['@'] + cap + after;
    let k = before.len() as int;
    let e = k + 1 + cap.len();
    assert(s[k] == '@');
    assert forall|i: int| k < i < s.len() implies #[trigger] s[i] != '@' by {
        if i < e {
            assert(s[i] == cap[i - k - 1]);
        } else {
            assert(s[i] == after[i - e]);
        }
    }
    lemma_last_at(s, s.len() as int, k);
    assert forall|i: int| k + 1 <= i < e implies is_capture_char(#[trigger] s[i]) by {
        assert(s[i] == cap[i - k - 1]);
    }
    if after.len() > 0 {
        assert(s[e] == after[0]);
    }
    lemma_run(s, k + 1, e);
    assert(capture_at(s, k + 1) =~= cap);
}

// ─── Patterns ────────────────────────────────────────────────────────────────

proof fn lemma_in_section(ps: Seq<Seq<char>>, kind: PatternKind, n: int, k: int)
    requires
        0 <= k < n <= ps.len(),
        pattern_kind(ps[k]) == kind,
    ensures
        part_of(rewritten_from(ps[k], 0, kind), section_text(ps, kind, n)),
    decreases n,
{
    let front = section_text(ps, kind, n - 1);
    let all = section_text(ps, kind, n);
    let piece = rewritten_from(ps[k], 0, kind);
    if k == n - 1 {
        assert forall|i: int| 0 <= i < piece.len() implies #[trigger] piece[i] == all[front.len() + i] by {}
        assert(starts(front.len() as int));
    } else {
        lemma_in_section(ps, kind, n - 1, k);
        lemma_part_grows(piece, Seq::empty(), front, all.skip(front.len() as int));
        assert(Seq::empty() + front + all.skip(front.len() as int) =~= all) by {
            if pattern_kind(ps[n - 1]) != kind {
                assert(all == front);
            }
        }
    }
}

proof fn lemma_part_grows(piece: Seq<char>, a: Seq<char>, b: Seq<char>, c: Seq<char>)
    requires
        part_of(piece, b),
    ensures
        part_of(piece, a + b + c),
{
    let all = a + b + c;
    let at = choose|at: int|
        0 <= at <= b.len() - piece.len() && (forall|i: int|
            0 <= i < piece.len() ==> #[trigger] piece[i] == b[at + i]) && #[trigger] starts(at);
    assert forall|i: int| 0 <= i < piece.len() implies #[trigger] piece[i] == all[a.len() + at + i] by {
        assert(piece[i] == b[at + i]);
    }
    assert(starts(a.len() + at));
}

/// Every pattern that stands for something is part of the adapted source, rewritten as what it stands for.
pub proof fn law_patterns_are_adapted(s: Seq<char>, k: int)
    requires
        0 <= k < patterns_of(s).len(),
        pattern_kind(patterns_of(s)[k]) != PatternKind::Other,
    ensures
        part_of(
            rewritten_from(patterns_of(s)[k], 0, pattern_kind(patterns_of(s)[k])),
            adapted(s),
        ),
{
    let ps = patterns_of(s);
    let n = ps.len() as int;
    let kind = pattern_kind(ps[k]);
    let piece = rewritten_from(ps[k], 0, kind);
    lemma_in_section(ps, kind, n, k);
    let a = section_text(ps, PatternKind::Definition, n);
    let b = section_text(ps, PatternKind::ReferenceCall, n);
    let c = section_text(ps, PatternKind::ReferenceImplementation, n);
    let x = ";; section: symbols\n"@;
    let y = "\n;; section: calls\n"@;
    let z = "\n;; section: implementations\n"@;
    let all = adapted(s);
    if kind == PatternKind::Definition {
        lemma_part_grows(piece, x, a, y + b + z + c);
        assert(x + a + (y + b + z + c) =~= all);
    } else if kind == PatternKind::ReferenceCall {
        lemma_part_grows(piece, x + a + y, b, z + c);
        assert(x + a + y + b + (z + c) =~= all);
    } else {
        lemma_part_grows(piece, x + a + y + b + z, c, Seq::empty());
        assert(x + a + y + b + z + c + Seq::empty() =~= all);
    }
}

// ─── Sections ────────────────────────────────────────────────────────────────

/// A section is what stands under its heading: the line after a heading that names it is its first line, and
/// belongs to no section of another name.
pub proof fn law_lines_belong_to_their_heading(
    name: Seq<char>,
    line: Seq<char>,
    rest: Seq<char>,
    asked: Seq<char>,
)
    requires
        trim_of(name) == name,
        forall|i: int| 0 <= i < name.len() ==> #[trigger] name[i] != '\n' && name[i] != '\r',
        forall|i: int| 0 <= i < line.len() ==> #[trigger] line[i] != '\n' && line[i] != '\r',
        !";; section:"@.is_prefix_of(trim_start_of(line)),
    ensures
        section_of(";; section:"@ + name + seq!['\n'] + line + seq!['\n'] + rest, asked) == if asked
            == name {
            line + seq!['\n'] + section_from(rest, 0, asked, true)
        } else {
            section_from(rest, 0, asked, false)
        },
{
    let mark = ";; section:"@;
    reveal_strlit(";; section:");
    assert(mark.len() == 11 && mark[0] == ';');
    let head = mark + name + seq!['\n'];
    let body = line + seq!['\n'];
    let s = head + (body + rest);
    assert(mark + name + seq!['\n'] + line + seq!['\n'] + rest =~= s);
    lemma_one_line(mark + name, body + rest);
    assert(mark + name + seq!['\n'] + (body + rest) =~= s);
    assert(line_from(s, 0) == mark + name);
    assert(trim_start_of(mark + name) == mark + name) by {
        assert((mark + name)[0] == ';');
        assert(!is_space(';'));
    }
    assert((mark + name).subrange(0, 11) =~= mark);
    assert((mark + name).skip(11) =~= name);
    assert(opened_section(mark + name) == Some(name));
    let open = asked == name;
    assert(name == asked <==> open);
    lemma_section_shift(head, body + rest, 0, asked, open);
    assert(section_of(s, asked) == section_from(s, head.len() as int, asked, open));
    let t = body + rest;
    lemma_one_line(line, rest);
    assert(line + seq!['\n'] + rest =~= t);
    assert(line_from(t, 0) == line);
    assert(opened_section(line) is None);
    lemma_section_shift(body, rest, 0, asked, open);
    assert(section_from(t, body.len() as int, asked, open) == section_from(rest, 0, asked, open));
    assert(line.push('\n') =~= body);
}

proof fn lemma_one_line(line: Seq<char>, rest: Seq<char>)
    requires
        forall|i: int| 0 <= i < line.len() ==> #[trigger] line[i] != '\n' && line[i] != '\r',
    ensures
        line_end(line + seq!['\n'] + rest, 0) == line.len(),
        line_from(line + seq!['\n'] + rest, 0) == line,
{
    let s = line + seq!['\n'] + rest;
    lemma_line_chars(s, 0);
    let e = line_end(s, 0);
    assert(s[line.len() as int] == '\n');
    if e < line.len() {
        assert(s[e] == line[e]);
    } else if e > line.len() {
        assert(s[line.len() as int] != '\n');
    }
    if e > 0 {
        assert(s[e - 1] == line[e - 1]);
    }
    assert(s.subrange(0, e) =~= line);
}

} // verus!
