//! Query sources: the sections of an override file, and the adaptation of an upstream `tags.scm`
//! to the same convention.
//!
//! A `tags.scm` captures `@definition.<kind>`, `@reference.call` and `@reference.implementation`
//! with the identifier as `@name`. The adapted source captures `@symbol.<kind>`, `@call.range` and
//! `@impl.range` instead, sorted into the sections that read them.
use vstd::prelude::*;

use crate::text::{
    chars_start_with, from_range, is_blank, same_str, str_is_blank, str_starts_with, str_trim,
    texts, to_chars, trim_of, trim_start_index, trim_start_of,
};

verus! {

// ─── Sections ────────────────────────────────────────────────────────────────

/// The position of the first line feed of `s` from `at` on, or the length of `s`.
pub open spec fn line_end(s: Seq<char>, at: int) -> int
    decreases s.len() - at,
{
    if at >= s.len() {
        s.len() as int
    } else if s[at] == '\n' {
        at
    } else {
        line_end(s, at + 1)
    }
}

/// The text from `at` up to its line end, without a carriage return before the line feed.
pub open spec fn line_from(s: Seq<char>, at: int) -> Seq<char> {
    let e = line_end(s, at);
    if e < s.len() && e > at && s[e - 1] == '\r' {
        s.subrange(at, e - 1)
    } else {
        s.subrange(at, e)
    }
}

/// A line end lies at or after the position it is looked for from.
pub proof fn lemma_line_end(s: Seq<char>, at: int)
    requires
        0 <= at <= s.len(),
    ensures
        at <= line_end(s, at) <= s.len(),
    decreases s.len() - at,
{
    if at < s.len() && s[at] != '\n' {
        lemma_line_end(s, at + 1);
    }
}

/// The section that a line opens: the trimmed text after `;; section:`.
pub open spec fn opened_section(line: Seq<char>) -> Option<Seq<char>> {
    let t = trim_start_of(line);
    if ";; section:"@.is_prefix_of(t) {
        Some(trim_of(t.skip(";; section:"@.len() as int)))
    } else {
        None
    }
}

/// The lines of the section `name` from position `at` on, each ended by a line feed. `open` says
/// whether `at` lies in that section.
pub open spec fn section_from(s: Seq<char>, at: int, name: Seq<char>, open: bool) -> Seq<char>
    decreases s.len() + 1 - at,
{
    if at < 0 || at >= s.len() {
        Seq::empty()
    } else {
        proof {
            lemma_line_end(s, at);
        }
        let line = line_from(s, at);
        let next = line_end(s, at) + 1;
        match opened_section(line) {
            Some(opened) => section_from(s, next, name, opened == name),
            None => if open {
                line.push('\n') + section_from(s, next, name, open)
            } else {
                section_from(s, next, name, open)
            },
        }
    }
}

/// The text of the section `name`.
pub open spec fn section_of(s: Seq<char>, name: Seq<char>) -> Seq<char> {
    section_from(s, 0, name, false)
}

/// Extract one named section from a query source. Sections are opened by lines of the form
/// `;; section: <name>`. `None` when the section is absent or blank.
pub fn extract_section(source: &str, name: &str) -> (section: Option<String>)
    ensures
        match section {
            Some(text) => text@ == section_of(source@, name@) && !is_blank(text@),
            None => is_blank(section_of(source@, name@)),
        },
{
    let chars = to_chars(source);
    let marker = to_chars(";; section:");
    let mut out = String::new();
    let mut open: bool = false;
    let mut at: usize = 0;
    assert(out@ + section_from(source@, 0, name@, false) =~= section_of(source@, name@));
    while at < chars.len()
        invariant
            at <= chars@.len(),
            chars@ == source@,
            marker@ == ";; section:"@,
            out@ + section_from(source@, at as int, name@, open) == section_of(source@, name@),
        decreases chars.len() - at,
    {
        let mut end: usize = at;
        while end < chars.len() && chars[end] != '\n'
            invariant
                at <= end <= chars@.len(),
                chars@ == source@,
                line_end(source@, at as int) == line_end(source@, end as int),
            decreases chars.len() - end,
        {
            end += 1;
        }
        let stop: usize = if end < chars.len() && end > at && chars[end - 1] == '\r' {
            end - 1
        } else {
            end
        };
        let line = vstd::slice::slice_subrange(chars.as_slice(), at, stop);
        assert(line@ == line_from(source@, at as int));
        let lead: usize = trim_start_index(line);
        let rest = vstd::slice::slice_subrange(line, lead, line.len());
        assert(rest@ =~= trim_start_of(line@));
        let ghost before = out@;
        let ghost was_open = open;
        if chars_start_with(rest, marker.as_slice()) {
            let tail = from_range(rest, marker.len(), rest.len());
            assert(tail@ =~= rest@.skip(marker@.len() as int));
            let opened = str_trim(tail.as_str());
            open = same_str(opened.as_str(), name);
        } else if open {
            out.append(from_range(line, 0, line.len()).as_str());
            out.push('\n');
            assert(line@.subrange(0, line@.len() as int) =~= line@);
            assert(out@ =~= before + line@.push('\n'));
        }
        at = if end < chars.len() {
            end + 1
        } else {
            end
        };
        proof {
            let next = end + 1;
            if end == chars.len() {
                assert(section_from(source@, next as int, name@, open) =~= Seq::empty());
                assert(section_from(source@, at as int, name@, open) =~= Seq::empty());
            }
            assert(before + line@.push('\n') + section_from(source@, at as int, name@, open)
                =~= before + (line@.push('\n') + section_from(source@, at as int, name@, open)));
        }
    }
    assert(out@ + Seq::<char>::empty() =~= out@);
    if str_is_blank(out.as_str()) {
        None
    } else {
        Some(out)
    }
}

// ─── Top-level patterns ──────────────────────────────────────────────────────

/// Whether a byte can stand in a capture name.
pub open spec fn is_capture_byte(b: u8) -> bool {
    (48 <= b <= 57) || (65 <= b <= 90) || (97 <= b <= 122) || b == 95 || b == 46 || b == 63 || b
        == 33
}

/// Whether a byte can stand in a capture name: an ASCII letter or digit, `_`, `.`, `?` or `!`.
pub fn is_capture_ident_byte(b: u8) -> (yes: bool)
    ensures
        yes == is_capture_byte(b),
{
    (48 <= b && b <= 57) || (65 <= b && b <= 90) || (97 <= b && b <= 122) || b == 95 || b == 46 || b
        == 63 || b == 33
}

/// Whether a character can stand in a capture name.
pub open spec fn is_capture_char(c: char) -> bool {
    (c as u32) < 128 && is_capture_byte(c as u8)
}

fn is_capture_ident(c: char) -> (yes: bool)
    ensures
        yes == is_capture_char(c),
{
    (c as u32) < 128 && is_capture_ident_byte(c as u8)
}

/// The end of the run of capture-name characters from `at` on.
pub open spec fn capture_run(b: Seq<char>, at: int) -> int
    decreases b.len() - at,
{
    if 0 <= at < b.len() && is_capture_char(b[at]) {
        capture_run(b, at + 1)
    } else {
        at
    }
}

/// The end of a comment: the next line feed, or the end of the source.
pub open spec fn comment_end(b: Seq<char>, at: int) -> int
    decreases b.len() - at,
{
    if 0 <= at < b.len() && b[at] != '\n' {
        comment_end(b, at + 1)
    } else {
        at
    }
}

/// The end of a string literal whose content starts at `at`: past the closing quote, or the end of
/// the source. A backslash hides the character after it.
pub open spec fn string_end(b: Seq<char>, at: int) -> int
    decreases b.len() - at,
{
    if at < 0 || at >= b.len() {
        at
    } else if b[at] == '\\' && at + 1 < b.len() {
        string_end(b, at + 2)
    } else if b[at] == '"' {
        at + 1
    } else {
        string_end(b, at + 1)
    }
}

/// Whether a character may stand between a pattern and its root capture: a space, a tab or a line
/// break.
pub open spec fn is_gap(c: char) -> bool {
    c == ' ' || c == '\t' || c == '\n' || c == '\r'
}

/// The end of the run of spaces, tabs and line breaks from `at` on.
pub open spec fn blank_run(b: Seq<char>, at: int) -> int
    decreases b.len() - at,
{
    if 0 <= at < b.len() && is_gap(b[at]) {
        blank_run(b, at + 1)
    } else {
        at
    }
}

/// The end of a pattern whose last parenthesis ends at `at`: past the capture that follows
/// it, if one does.
pub open spec fn pattern_end(b: Seq<char>, at: int) -> int {
    let j = blank_run(b, at);
    if j < b.len() && b[j] == '@' {
        capture_run(b, j + 1)
    } else {
        at
    }
}

/// Runs end at or after where they start, inside the source.
pub proof fn lemma_runs(b: Seq<char>, at: int)
    requires
        0 <= at <= b.len(),
    ensures
        at <= capture_run(b, at) <= b.len(),
        at <= comment_end(b, at) <= b.len(),
        at <= blank_run(b, at) <= b.len(),
        at <= string_end(b, at) <= b.len(),
    decreases b.len() - at,
{
    if at < b.len() {
        lemma_runs(b, at + 1);
        if at + 1 < b.len() {
            lemma_runs(b, at + 2);
        }
    }
}

/// A pattern ends at or after its last parenthesis, inside the source.
pub proof fn lemma_pattern_end(b: Seq<char>, at: int)
    requires
        0 <= at <= b.len(),
    ensures
        at <= pattern_end(b, at) <= b.len(),
{
    lemma_runs(b, at);
    let j = blank_run(b, at);
    if j < b.len() {
        lemma_runs(b, j + 1);
    }
}

/// The top-level patterns from `at` on, as ranges. `depth` is the number of open parentheses
/// and `start` the place of the one that opened the current pattern. Comments and string literals
/// carry no structure.
pub open spec fn patterns_from(b: Seq<char>, at: int, depth: int, start: Option<int>) -> Seq<(int, int)>
    decreases b.len() - at,
{
    if at < 0 || at >= b.len() {
        Seq::empty()
    } else {
        proof {
            lemma_runs(b, at + 1);
            lemma_pattern_end(b, at + 1);
        }
        if b[at] == ';' {
            patterns_from(b, comment_end(b, at + 1), depth, start)
        } else if b[at] == '"' {
            patterns_from(b, string_end(b, at + 1), depth, start)
        } else if b[at] == '(' {
            patterns_from(
                b,
                at + 1,
                depth + 1,
                if depth == 0 && start is None {
                    Some(at)
                } else {
                    start
                },
            )
        } else if b[at] == ')' {
            if depth == 1 {
                let e = pattern_end(b, at + 1);
                match start {
                    Some(s) => seq![(s, e)] + patterns_from(b, e, 0, None),
                    None => patterns_from(b, e, 0, None),
                }
            } else {
                patterns_from(b, at + 1, depth - 1, start)
            }
        } else {
            patterns_from(b, at + 1, depth, start)
        }
    }
}

/// A range of a source.
#[derive(Debug, Clone, Copy)]
pub struct Span {
    pub start: usize,
    pub end: usize,
}

/// The ranges of a list of spans.
pub open spec fn ranges_of(spans: Seq<Span>) -> Seq<(int, int)> {
    spans.map_values(|s: Span| (s.start as int, s.end as int))
}

/// The top-level patterns of a query source.
pub open spec fn patterns_of(s: Seq<char>) -> Seq<Seq<char>> {
    patterns_from(s, 0, 0, None).map_values(|r: (int, int)| s.subrange(r.0, r.1))
}

fn pattern_ranges(source: &[char]) -> (patterns: Vec<Span>)
    ensures
        ranges_of(patterns@) == patterns_from(source@, 0, 0, None),
        forall|k: int|
            0 <= k < patterns@.len() ==> (#[trigger] patterns@[k]).start <= patterns@[k].end
                <= source@.len(),
{
    let b = source;
    let mut patterns: Vec<Span> = Vec::new();
    let mut i: usize = 0;
    let mut start: Option<usize> = None;
    let mut depth: i128 = 0;
    let ghost all = patterns_from(b@, 0, 0, None);
    assert(ranges_of(patterns@) + all =~= all);
    while i < b.len()
        invariant
            i <= b@.len(),
            b@ == source@,
            -(i as int) <= depth <= i,
            match start {
                Some(s) => s <= i,
                None => true,
            },
            all == patterns_from(source@, 0, 0, None),
            ranges_of(patterns@) + patterns_from(
                b@,
                i as int,
                depth as int,
                match start {
                    Some(s) => Some(s as int),
                    None => None,
                },
            ) == all,
            forall|k: int|
                0 <= k < patterns@.len() ==> (#[trigger] patterns@[k]).start <= patterns@[k].end
                    <= b@.len(),
        decreases b.len() - i,
    {
        let c: char = b[i];
        let ghost at = i as int;
        proof {
            lemma_runs(b@, at + 1);
            lemma_pattern_end(b@, at + 1);
        }
        if c == ';' {
            i += 1;
            while i < b.len() && b[i] != '\n'
                invariant
                    at + 1 <= i <= b@.len(),
                    comment_end(b@, at + 1) == comment_end(b@, i as int),
                decreases b.len() - i,
            {
                i += 1;
            }
        } else if c == '"' {
            i += 1;
            let mut closed: bool = false;
            while !closed && i < b.len()
                invariant
                    at + 1 <= i <= b@.len(),
                    if closed {
                        string_end(b@, at + 1) == i
                    } else {
                        string_end(b@, at + 1) == string_end(b@, i as int)
                    },
                decreases b.len() - i + (if closed { 0int } else { 1 }),
            {
                if b[i] == '\\' && i + 1 < b.len() {
                    i += 2;
                } else {
                    closed = b[i] == '"';
                    i += 1;
                }
            }
        } else if c == '(' {
            if depth == 0 && start.is_none() {
                start = Some(i);
            }
            depth += 1;
            i += 1;
        } else if c == ')' {
            depth -= 1;
            i += 1;
            if depth == 0 {
                let mut j: usize = i;
                while j < b.len() && (b[j] == ' ' || b[j] == '\t' || b[j] == '\n' || b[j] == '\r')
                    invariant
                        i <= j <= b@.len(),
                        blank_run(b@, i as int) == blank_run(b@, j as int),
                    decreases b.len() - j,
                {
                    j += 1;
                }
                if j < b.len() && b[j] == '@' {
                    j += 1;
                    let ghost from = j as int;
                    while j < b.len() && is_capture_ident(b[j])
                        invariant
                            from <= j <= b@.len(),
                            capture_run(b@, from) == capture_run(b@, j as int),
                        decreases b.len() - j,
                    {
                        j += 1;
                    }
                    i = j;
                }
                assert(i == pattern_end(b@, at + 1));
                let ghost before = patterns@;
                match start {
                    Some(s) => {
                        patterns.push(Span { start: s, end: i });
                        assert(ranges_of(patterns@) =~= ranges_of(before).push((s as int, i as int)));
                        assert(ranges_of(patterns@) + patterns_from(b@, i as int, 0, None)
                            =~= ranges_of(before) + (seq![(s as int, i as int)] + patterns_from(
                            b@,
                            i as int,
                            0,
                            None,
                        )));
                    },
                    None => {},
                }
                start = None;
            }
        } else {
            i += 1;
        }
    }
    assert(ranges_of(patterns@) + Seq::<(int, int)>::empty() =~= ranges_of(patterns@));
    patterns
}

/// The top-level S-expression patterns of a query source, each with the root capture that follows
/// it, white space and line breaks between the two included. Text between patterns is skipped.
pub fn split_top_level_patterns(source: &str) -> (patterns: Vec<String>)
    ensures
        texts(patterns@) == patterns_of(source@),
{
    let chars = to_chars(source);
    let ranges = pattern_ranges(chars.as_slice());
    let ghost all = patterns_of(source@);
    let mut patterns: Vec<String> = Vec::new();
    let mut i: usize = 0;
    while i < ranges.len()
        invariant
            i <= ranges@.len(),
            chars@ == source@,
            all == patterns_of(source@),
            ranges_of(ranges@) == patterns_from(source@, 0, 0, None),
            forall|k: int|
                0 <= k < ranges@.len() ==> (#[trigger] ranges@[k]).start <= ranges@[k].end
                    <= chars@.len(),
            texts(patterns@) == all.take(i as int),
        decreases ranges.len() - i,
    {
        let r = ranges[i];
        let ghost before = patterns@;
        assert(ranges@[i as int].start <= ranges@[i as int].end);
        assert(ranges_of(ranges@)[i as int] == (r.start as int, r.end as int));
        patterns.push(from_range(chars.as_slice(), r.start, r.end));
        i += 1;
        assert(texts(patterns@) =~= texts(before).push(all[i - 1]));
        assert(all.take(i as int) =~= all.take(i - 1).push(all[i - 1]));
    }
    assert(ranges_of(ranges@).len() == ranges@.len());
    assert(all.take(i as int) =~= all);
    patterns
}

// ─── Classification ──────────────────────────────────────────────────────────

/// What a pattern captures at its root.
#[derive(Debug, Clone, Copy, PartialEq, Eq, Structural)]
pub enum PatternKind {
    Definition,
    ReferenceCall,
    ReferenceImplementation,
    Other,
}

/// What a capture name stands for.
pub open spec fn capture_kind(cap: Seq<char>) -> PatternKind {
    if "definition."@.is_prefix_of(cap) {
        PatternKind::Definition
    } else if cap == "reference.call"@ {
        PatternKind::ReferenceCall
    } else if cap == "reference.implementation"@ {
        PatternKind::ReferenceImplementation
    } else {
        PatternKind::Other
    }
}

/// What a capture name stands for.
pub fn classify_capture(cap: &str) -> (kind: PatternKind)
    ensures
        kind == capture_kind(cap@),
{
    if str_starts_with(cap, "definition.") {
        PatternKind::Definition
    } else if same_str(cap, "reference.call") {
        PatternKind::ReferenceCall
    } else if same_str(cap, "reference.implementation") {
        PatternKind::ReferenceImplementation
    } else {
        PatternKind::Other
    }
}

/// The last position before `n` at which an `@` stands.
pub open spec fn last_at_sign(b: Seq<char>, n: int) -> Option<int>
    decreases n,
{
    if n <= 0 {
        None
    } else if b[n - 1] == '@' {
        Some(n - 1)
    } else {
        last_at_sign(b, n - 1)
    }
}

/// The capture name that starts at `at`.
pub open spec fn capture_at(b: Seq<char>, at: int) -> Seq<char> {
    b.subrange(at, capture_run(b, at))
}

/// The kind of a pattern: that of its last capture, which is the root capture.
pub open spec fn pattern_kind(b: Seq<char>) -> PatternKind {
    match last_at_sign(b, b.len() as int) {
        Some(i) => capture_kind(capture_at(b, i + 1)),
        None => PatternKind::Other,
    }
}

fn run_end(b: &[char], from: usize) -> (end: usize)
    requires
        from <= b@.len(),
    ensures
        end == capture_run(b@, from as int),
        from <= end <= b@.len(),
{
    let mut j: usize = from;
    while j < b.len() && is_capture_ident(b[j])
        invariant
            from <= j <= b@.len(),
            capture_run(b@, from as int) == capture_run(b@, j as int),
        decreases b.len() - j,
    {
        j += 1;
    }
    j
}

/// The kind of a pattern: that of its last capture, which is the root capture.
pub fn classify_pattern(pattern: &str) -> (kind: PatternKind)
    ensures
        kind == pattern_kind(pattern@),
{
    let chars = to_chars(pattern);
    let mut i: usize = chars.len();
    while i > 0
        invariant
            chars@ == pattern@,
            i <= pattern@.len(),
            last_at_sign(pattern@, pattern@.len() as int) == last_at_sign(pattern@, i as int),
        decreases i,
    {
        i -= 1;
        if chars[i] == '@' {
            let end: usize = run_end(chars.as_slice(), i + 1);
            return classify_capture(from_range(chars.as_slice(), i + 1, end).as_str());
        }
    }
    PatternKind::Other
}

// ─── Rewriting ───────────────────────────────────────────────────────────────

/// The capture name that takes the place of `cap` in a pattern of the given kind.
pub open spec fn rewritten(cap: Seq<char>, kind: PatternKind) -> Seq<char> {
    if cap == "name"@ {
        match kind {
            PatternKind::Definition => "symbol.name"@,
            PatternKind::ReferenceCall => "call.callee"@,
            PatternKind::ReferenceImplementation => "impl.trait_name"@,
            PatternKind::Other => "name"@,
        }
    } else if "definition."@.is_prefix_of(cap) {
        "symbol."@ + cap.skip("definition."@.len() as int)
    } else if cap == "reference.call"@ {
        "call.range"@
    } else if cap == "reference.implementation"@ {
        "impl.range"@
    } else {
        cap
    }
}

/// The capture name that takes the place of `cap` in a pattern of the given kind.
pub fn rewrite_capture(cap: &str, kind: PatternKind) -> (name: String)
    ensures
        name@ == rewritten(cap@, kind),
{
    if same_str(cap, "name") {
        return match kind {
            PatternKind::Definition => "symbol.name".to_string(),
            PatternKind::ReferenceCall => "call.callee".to_string(),
            PatternKind::ReferenceImplementation => "impl.trait_name".to_string(),
            PatternKind::Other => "name".to_string(),
        };
    }
    if str_starts_with(cap, "definition.") {
        let chars = to_chars(cap);
        let lead: usize = to_chars("definition.").len();
        let mut out = "symbol.".to_string();
        out.append(from_range(chars.as_slice(), lead, chars.len()).as_str());
        assert(cap@.subrange(lead as int, cap@.len() as int) =~= cap@.skip(lead as int));
        return out;
    }
    if same_str(cap, "reference.call") {
        return "call.range".to_string();
    }
    if same_str(cap, "reference.implementation") {
        return "impl.range".to_string();
    }
    cap.to_string()
}

/// A pattern from `at` on with its captures rewritten, ended by a line feed. Every character outside
/// a capture stays.
pub open spec fn rewritten_from(b: Seq<char>, at: int, kind: PatternKind) -> Seq<char>
    decreases b.len() - at,
{
    if at < 0 || at >= b.len() {
        seq!['\n']
    } else {
        proof {
            lemma_runs(b, at + 1);
        }
        if b[at] != '@' {
            seq![b[at]] + rewritten_from(b, at + 1, kind)
        } else {
            seq!['@'] + rewritten(capture_at(b, at + 1), kind) + rewritten_from(
                b,
                capture_run(b, at + 1),
                kind,
            )
        }
    }
}

/// A pattern with its captures rewritten, ended by a line feed.
pub fn rewrite_pattern(pattern: &str, kind: PatternKind) -> (out: String)
    ensures
        out@ == rewritten_from(pattern@, 0, kind),
{
    let chars = to_chars(pattern);
    let mut out = String::new();
    let mut i: usize = 0;
    assert(out@ + rewritten_from(pattern@, 0, kind) =~= rewritten_from(pattern@, 0, kind));
    while i < chars.len()
        invariant
            chars@ == pattern@,
            i <= pattern@.len(),
            out@ + rewritten_from(pattern@, i as int, kind) == rewritten_from(pattern@, 0, kind),
        decreases chars.len() - i,
    {
        let ghost before = out@;
        let ghost at = i as int;
        if chars[i] != '@' {
            out.push(chars[i]);
            i += 1;
            assert(out@ + rewritten_from(pattern@, i as int, kind) =~= before + rewritten_from(
                pattern@,
                at,
                kind,
            ));
        } else {
            let end: usize = run_end(chars.as_slice(), i + 1);
            let name = rewrite_capture(from_range(chars.as_slice(), i + 1, end).as_str(), kind);
            out.push('@');
            out.append(name.as_str());
            i = end;
            assert(out@ + rewritten_from(pattern@, i as int, kind) =~= before + rewritten_from(
                pattern@,
                at,
                kind,
            ));
        }
    }
    out.push('\n');
    assert(out@.drop_last() + seq!['\n'] =~= out@);
    out
}

/// The rewritten patterns of one kind among the first `n`, one after the other.
pub open spec fn section_text(patterns: Seq<Seq<char>>, kind: PatternKind, n: int) -> Seq<char>
    decreases n,
{
    if n <= 0 {
        Seq::empty()
    } else if pattern_kind(patterns[n - 1]) == kind {
        section_text(patterns, kind, n - 1) + rewritten_from(patterns[n - 1], 0, kind)
    } else {
        section_text(patterns, kind, n - 1)
    }
}

/// The adapted source: the definitions, calls and implementations of `s`, each in its section.
pub open spec fn adapted(s: Seq<char>) -> Seq<char> {
    let ps = patterns_of(s);
    let n = ps.len() as int;
    ";; section: symbols\n"@ + section_text(ps, PatternKind::Definition, n)
        + "\n;; section: calls\n"@ + section_text(ps, PatternKind::ReferenceCall, n)
        + "\n;; section: implementations\n"@ + section_text(
        ps,
        PatternKind::ReferenceImplementation,
        n,
    )
}

/// Adapt an upstream `tags.scm` to the section convention. Patterns whose root capture is neither
/// a definition, a call nor an implementation are dropped.
pub fn adapt_tslp_tags(source: &str) -> (out: String)
    ensures
        out@ == adapted(source@),
{
    let patterns = split_top_level_patterns(source);
    let ghost ps = texts(patterns@);
    let mut symbols = String::new();
    let mut calls = String::new();
    let mut impls = String::new();
    let mut i: usize = 0;
    while i < patterns.len()
        invariant
            i <= patterns@.len(),
            ps == texts(patterns@),
            symbols@ == section_text(ps, PatternKind::Definition, i as int),
            calls@ == section_text(ps, PatternKind::ReferenceCall, i as int),
            impls@ == section_text(ps, PatternKind::ReferenceImplementation, i as int),
        decreases patterns.len() - i,
    {
        let pattern = patterns[i].as_str();
        assert(ps[i as int] == pattern@);
        let kind = classify_pattern(pattern);
        match kind {
            PatternKind::Definition => symbols.append(rewrite_pattern(pattern, kind).as_str()),
            PatternKind::ReferenceCall => calls.append(rewrite_pattern(pattern, kind).as_str()),
            PatternKind::ReferenceImplementation => impls.append(
                rewrite_pattern(pattern, kind).as_str(),
            ),
            PatternKind::Other => {},
        }
        i += 1;
    }
    let mut out = String::from_str(";; section: symbols\n");
    out.append(symbols.as_str());
    out.append("\n;; section: calls\n");
    out.append(calls.as_str());
    out.append("\n;; section: implementations\n");
    out.append(impls.as_str());
    out
}

// ─── Laws ────────────────────────────────────────────────────────────────────

/// No upstream root capture survives the adaptation: whatever a capture was, its rewritten name is
/// neither a call reference, nor an implementation reference, nor a definition.
pub proof fn law_no_upstream_capture_leaks(cap: Seq<char>, kind: PatternKind)
    ensures
        rewritten(cap, kind) != "reference.call"@,
        rewritten(cap, kind) != "reference.implementation"@,
        !"definition."@.is_prefix_of(rewritten(cap, kind)),
{
    reveal_strlit("reference.call");
    reveal_strlit("reference.implementation");
    reveal_strlit("definition.");
    reveal_strlit("symbol.name");
    reveal_strlit("call.callee");
    reveal_strlit("impl.trait_name");
    reveal_strlit("name");
    reveal_strlit("symbol.");
    reveal_strlit("call.range");
    reveal_strlit("impl.range");
    let r = rewritten(cap, kind);
    let d = "definition."@;
    assert("reference.call"@[0] == 'r' && "reference.implementation"@[0] == 'r' && d[0] == 'd');
    if d.is_prefix_of(r) {
        assert(r.subrange(0, d.len() as int)[0] == 'd');
        assert(r[0] == 'd');
    }
    assert("symbol.name"@[0] == 's' && "call.callee"@[0] == 'c' && "impl.trait_name"@[0] == 'i'
        && "name"@[0] == 'n' && "symbol."@[0] == 's' && "call.range"@[0] == 'c' && "impl.range"@[0]
        == 'i');
}

/// Patterns open with a parenthesis, are not empty, and follow one another without overlap.
pub proof fn law_patterns_in_order(b: Seq<char>, at: int, depth: int, start: Option<int>)
    requires
        0 <= at <= b.len(),
        start is Some ==> 0 <= start->0 < at && b[start->0] == '(',
    ensures
        ({
            let ps = patterns_from(b, at, depth, start);
            &&& forall|k: int|
                0 <= k < ps.len() ==> {
                    &&& 0 <= (#[trigger] ps[k]).0 < ps[k].1 <= b.len()
                    &&& b[ps[k].0] == '('
                    &&& ps[k].0 >= (if start is Some {
                        start->0
                    } else {
                        at
                    })
                    &&& ps[k].1 > at
                }
            &&& forall|k: int, l: int|
                0 <= k < l < ps.len() ==> (#[trigger] ps[k]).1 <= (#[trigger] ps[l]).0
        }),
    decreases b.len() - at,
{
    let ps = patterns_from(b, at, depth, start);
    if at < b.len() {
        lemma_runs(b, at + 1);
        lemma_pattern_end(b, at + 1);
        if b[at] == ';' {
            let e = comment_end(b, at + 1);
            law_patterns_in_order(b, e, depth, start);
            assert(ps == patterns_from(b, e, depth, start));
        } else if b[at] == '"' {
            let e = string_end(b, at + 1);
            law_patterns_in_order(b, e, depth, start);
            assert(ps == patterns_from(b, e, depth, start));
        } else if b[at] == '(' {
            let opened = if depth == 0 && start is None {
                Some(at)
            } else {
                start
            };
            law_patterns_in_order(b, at + 1, depth + 1, opened);
            assert(ps == patterns_from(b, at + 1, depth + 1, opened));
        } else if b[at] == ')' {
            if depth == 1 {
                let e = pattern_end(b, at + 1);
                law_patterns_in_order(b, e, 0, None);
                let rest = patterns_from(b, e, 0, None);
                if start is Some {
                    assert(ps == seq![(start->0, e)] + rest);
                    assert(ps[0] == (start->0, e));
                    assert forall|k: int| 1 <= k < ps.len() implies #[trigger] ps[k] == rest[k
                        - 1] by {}
                    assert forall|k: int, l: int| 0 <= k < l < ps.len() implies (#[trigger] ps[k]).1
                        <= (#[trigger] ps[l]).0 by {
                        assert(ps[l] == rest[l - 1]);
                        if k > 0 {
                            assert(ps[k] == rest[k - 1]);
                        }
                    }
                } else {
                    assert(ps == rest);
                }
            } else {
                law_patterns_in_order(b, at + 1, depth - 1, start);
                assert(ps == patterns_from(b, at + 1, depth - 1, start));
            }
        } else {
            law_patterns_in_order(b, at + 1, depth, start);
            assert(ps == patterns_from(b, at + 1, depth, start));
        }
    }
}

/// Only captures are rewritten: a pattern without one is kept to the letter.
pub proof fn law_text_is_kept(p: Seq<char>, at: int, kind: PatternKind)
    requires
        0 <= at <= p.len(),
        forall|i: int| at <= i < p.len() ==> #[trigger] p[i] != '@',
    ensures
        rewritten_from(p, at, kind) == p.skip(at).push('\n'),
    decreases p.len() - at,
{
    if at < p.len() {
        law_text_is_kept(p, at + 1, kind);
        assert(rewritten_from(p, at, kind) =~= p.skip(at).push('\n'));
    } else {
        assert(rewritten_from(p, at, kind) =~= p.skip(at).push('\n'));
    }
}

} // verus!
