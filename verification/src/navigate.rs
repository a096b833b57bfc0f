//! Go to definition: positions in a file, and the resolved edge under one.
use vstd::prelude::*;

use crate::history::feed_from;
use crate::model::{RelPath, ToolError};
use crate::resolution::{FileResolvedRefs, ResolvedEdge};
use crate::seek::{byte_positions, count_of, first_byte, last_byte, lemma_positions};
use crate::text::{decimal, decimal_of};

verus! {

/// Whether an edge's use covers `pos`. A use of no width covers its start byte.
pub open spec fn use_covers(e: ResolvedEdge, pos: u32) -> bool {
    e.use_start <= pos && (pos < e.use_end || pos == e.use_start)
}

/// The first edge whose use covers `pos`.
pub fn containing_edge(edges: &[ResolvedEdge], pos: u32) -> (edge: Option<ResolvedEdge>)
    ensures
        match edge {
            Some(e) => exists|i: int|
                0 <= i < edges@.len() && edges@[i] == e && use_covers(#[trigger] edges@[i], pos)
                    && forall|j: int| 0 <= j < i ==> !use_covers(#[trigger] edges@[j], pos),
            None => forall|j: int| 0 <= j < edges@.len() ==> !use_covers(#[trigger] edges@[j], pos),
        },
{
    let mut i: usize = 0;
    while i < edges.len()
        invariant
            i <= edges@.len(),
            forall|j: int| 0 <= j < i ==> !use_covers(#[trigger] edges@[j], pos),
        decreases edges.len() - i,
    {
        let e = edges[i];
        if pos >= e.use_start && (pos < e.use_end || pos == e.use_start) {
            assert(use_covers(edges@[i as int], pos));
            return Some(e);
        }
        i += 1;
    }
    None
}

// ─── Lines and columns ───────────────────────────────────────────────────────

/// The byte at which the 1-based line `line` starts: past that many line feeds less one. `None`
/// where the source has fewer lines.
pub open spec fn line_start(source: Seq<u8>, line: int) -> Option<int>
    decreases line,
{
    if line <= 0 {
        None
    } else if line == 1 {
        Some(0)
    } else {
        match line_start(source, line - 1) {
            Some(p) => if feed_from(source, p) < source.len() {
                Some(feed_from(source, p) + 1)
            } else {
                None
            },
            None => None,
        }
    }
}

/// The byte at a 1-based line and a 0-based byte column. `None` where the line does not exist or
/// the column leads past the end of the source.
pub open spec fn offset_at(source: Seq<u8>, line: int, column: int) -> Option<int> {
    match line_start(source, line) {
        Some(p) => if p + column <= source.len() {
            Some(p + column)
        } else {
            None
        },
        None => None,
    }
}

proof fn lemma_line_start_bound(source: Seq<u8>, line: int)
    ensures
        line_start(source, line) is Some ==> 0 <= line_start(source, line)->0 <= source.len(),
    decreases line,
{
    if line > 1 {
        lemma_line_start_bound(source, line - 1);
        if line_start(source, line - 1) is Some {
            crate::history::lemma_scans(source, line_start(source, line - 1)->0);
        }
    }
}

proof fn lemma_no_line_after(source: Seq<u8>, m: int, n: int)
    requires
        m <= n,
        line_start(source, m) is None,
        m >= 1,
    ensures
        line_start(source, n) is None,
    decreases n - m,
{
    if m < n {
        lemma_no_line_after(source, m, n - 1);
    }
}

/// The position of the first line feed of `source` from `at` on.
fn next_feed(source: &[u8], at: usize) -> (found: Option<usize>)
    requires
        at <= source@.len(),
    ensures
        match found {
            Some(p) => p == feed_from(source@, at as int) && at <= p < source@.len(),
            None => feed_from(source@, at as int) == source@.len(),
        },
{
    let tail = vstd::slice::slice_subrange(source, at, source.len());
    let off = first_byte(10, tail);
    proof {
        match off {
            Some(i) => {
                assert forall|k: int| at <= k < at + i implies #[trigger] source@[k] != 10 by {
                    assert(tail@[k - at] == source@[k]);
                }
                lemma_feed_at(source@, at as int, at + i);
            },
            None => {
                assert forall|k: int| at <= k < source@.len() implies #[trigger] source@[k] != 10 by {
                    assert(tail@[k - at] == source@[k]);
                }
                lemma_feed_at(source@, at as int, source@.len() as int);
            },
        }
    }
    match off {
        Some(i) => Some(at + i),
        None => None,
    }
}

proof fn lemma_feed_at(source: Seq<u8>, at: int, to: int)
    requires
        0 <= at <= to <= source.len(),
        to < source.len() ==> source[to] == 10,
        forall|k: int| at <= k < to ==> #[trigger] source[k] != 10,
    ensures
        feed_from(source, at) == to,
    decreases to - at,
{
    if at < to {
        lemma_feed_at(source, at + 1, to);
    }
}

/// Convert a 1-based line and a 0-based byte column into a byte offset. `None` where the line is
/// past the end of the file or the offset would exceed the source.
pub fn line_col_to_offset(source: &[u8], line: u32, column: u32) -> (offset: Option<u32>)
    requires
        source@.len() <= u32::MAX,
    ensures
        match offset {
            Some(o) => offset_at(source@, line as int, column as int) == Some(o as int),
            None => offset_at(source@, line as int, column as int) is None,
        },
{
    if line == 0 {
        return None;
    }
    let mut start: usize = 0;
    let mut current: u32 = 1;
    while current < line
        invariant
            1 <= current <= line,
            source@.len() <= u32::MAX,
            start <= source@.len(),
            line_start(source@, current as int) == Some(start as int),
        decreases line - current,
    {
        match next_feed(source, start) {
            Some(p) => {
                start = p + 1;
            },
            None => {
                proof {
                    lemma_no_line_after(source@, current + 1, line as int);
                }
                return None;
            },
        }
        current += 1;
    }
    if column as usize <= source.len() - start {
        Some((start + column as usize) as u32)
    } else {
        None
    }
}

/// The start of the line that byte `offset` lies on.
pub open spec fn line_begin(source: Seq<u8>, offset: int) -> int
    decreases offset,
{
    if offset <= 0 {
        0
    } else if source[offset - 1] == 10 {
        offset
    } else {
        line_begin(source, offset - 1)
    }
}

/// An offset, but no further than the source reaches.
pub open spec fn clamped(source: Seq<u8>, offset: int) -> int {
    if offset < source.len() {
        offset
    } else {
        source.len() as int
    }
}

/// The 1-based line and 0-based byte column of a byte offset; an offset past the end counts as the
/// end.
pub open spec fn position_of(source: Seq<u8>, offset: int) -> (int, int) {
    let o = clamped(source, offset);
    (1 + count_of(10, source.take(o)) as int, o - line_begin(source, o))
}

/// A line begins after the last line feed before the position.
pub proof fn lemma_line_begin(source: Seq<u8>, offset: int, start: int)
    requires
        0 <= start <= offset <= source.len(),
        start == 0 || source[start - 1] == 10,
        forall|k: int| start <= k < offset ==> #[trigger] source[k] != 10,
    ensures
        line_begin(source, offset) == start,
    decreases offset - start,
{
    if start < offset {
        assert(source[offset - 1] != 10);
        lemma_line_begin(source, offset - 1, start);
    }
}

/// A longer front of a source has no fewer line feeds.
pub proof fn lemma_count_grows(source: Seq<u8>, m: int, n: int)
    requires
        0 <= m <= n <= source.len(),
    ensures
        count_of(10, source.take(m)) <= count_of(10, source.take(n)),
    decreases n,
{
    if m < n {
        lemma_count_grows(source, m, n - 1);
        assert(source.take(n).drop_last() =~= source.take(n - 1));
    }
}

/// Convert a byte offset into a 1-based line and a 0-based byte column. An offset past the end
/// counts as the end.
pub fn offset_to_line_col(source: &[u8], offset: u32) -> (position: (u32, u32))
    requires
        source@.len() <= u32::MAX,
        1 + count_of(10, source@) <= u32::MAX,
    ensures
        position.0 == position_of(source@, offset as int).0,
        position.1 == position_of(source@, offset as int).1,
{
    let o: usize = if (offset as usize) < source.len() {
        offset as usize
    } else {
        source.len()
    };
    let before = vstd::slice::slice_subrange(source, 0, o);
    assert(before@ =~= source@.take(o as int));
    let feeds = byte_positions(10, before);
    proof {
        lemma_positions(10, before@);
        lemma_count_grows(source@, o as int, source@.len() as int);
        assert(source@.take(source@.len() as int) =~= source@);
    }
    let line: u32 = 1 + feeds.len() as u32;
    let start: usize = match last_byte(10, before) {
        Some(p) => p + 1,
        None => 0,
    };
    proof {
        assert forall|k: int| start <= k < o implies #[trigger] source@[k] != 10 by {
            assert(before@[k] == source@[k]);
        }
        if start > 0 {
            assert(before@[start - 1] == source@[start - 1]);
        }
        lemma_line_begin(source@, o as int, start as int);
    }
    (line, (o - start) as u32)
}

/// The line that a byte lies on starts where that line's number says.
pub(crate) proof fn lemma_line_of(source: Seq<u8>, o: int)
    requires
        0 <= o <= source.len(),
    ensures
        line_start(source, 1 + count_of(10, source.take(o)) as int) == Some(line_begin(source, o)),
        0 <= line_begin(source, o) <= o,
        forall|k: int| line_begin(source, o) <= k < o ==> #[trigger] source[k] != 10,
    decreases o,
{
    if o == 0 {
        assert(source.take(0) =~= Seq::empty());
    } else {
        lemma_line_of(source, o - 1);
        let front = source.take(o - 1);
        assert(source.take(o).drop_last() =~= front);
        assert(source.take(o).last() == source[o - 1]);
        if source[o - 1] == 10 {
            let p = line_begin(source, o - 1);
            lemma_feed_at(source, p, o - 1);
            let n = 1 + count_of(10, front) as int;
            assert(line_start(source, n) == Some(p));
            assert(count_of(10, source.take(o)) == count_of(10, front) + 1);
            assert(line_start(source, n + 1) == Some(o));
        }
    }
}

/// A position leads back to the offset it was made from.
pub proof fn law_positions_round_trip(source: Seq<u8>, offset: int)
    requires
        0 <= offset,
    ensures
        offset_at(
            source,
            position_of(source, offset).0,
            position_of(source, offset).1,
        ) == Some(clamped(source, offset)),
{
    lemma_line_of(source, clamped(source, offset));
}

/// The two conversions undo each other: where `at` is the position of an offset in the source and
/// `back` the offset of that position, `back` is that offset.
pub proof fn law_offset_reads_back(source: Seq<u8>, offset: u32, at: (u32, u32), back: Option<u32>)
    requires
        offset <= source.len(),
        at.0 == position_of(source, offset as int).0,
        at.1 == position_of(source, offset as int).1,
        match back {
            Some(o) => offset_at(source, at.0 as int, at.1 as int) == Some(o as int),
            None => offset_at(source, at.0 as int, at.1 as int) is None,
        },
    ensures
        back == Some(offset),
{
    law_positions_round_trip(source, offset as int);
}

// ─── Spans ───────────────────────────────────────────────────────────────────

/// The text of bytes, with what is no UTF-8 replaced.
pub uninterp spec fn lossy_text(bytes: Seq<u8>) -> Seq<char>;

/// `String::from_utf8_lossy`: the text is a function of the bytes, and is the text that UTF-8
/// bytes encode.
#[verifier::external_body]
pub(crate) fn lossy(bytes: &[u8]) -> (s: String)
    ensures
        s@ == lossy_text(bytes@),
        forall|t: Seq<char>| #[trigger] vstd::utf8::encode_utf8(t) == bytes@ ==> s@ == t,
{
    String::from_utf8_lossy(bytes).into_owned()
}

/// The text of a span, as far as the source reaches; empty for a span of no width.
pub open spec fn span_text(source: Seq<u8>, start: int, end: int) -> Seq<char> {
    let e = clamped(source, end);
    if e > start {
        lossy_text(source.subrange(start, e))
    } else {
        Seq::empty()
    }
}

/// The text of a span, as far as the source reaches; empty for a span of no width.
pub fn slice_span(source: &[u8], start: u32, end: u32) -> (text: String)
    ensures
        text@ == span_text(source@, start as int, end as int),
{
    let s: usize = start as usize;
    let e: usize = if (end as usize) < source.len() {
        end as usize
    } else {
        source.len()
    };
    if e > s {
        lossy(vstd::slice::slice_subrange(source, s, e))
    } else {
        String::new()
    }
}

// ─── The tool ────────────────────────────────────────────────────────────────

/// Where a definition stands.
#[derive(Debug)]
pub struct DefinitionLocation {
    pub path: RelPath,
    pub line: u32,
    pub column: u32,
    pub name: String,
}

/// The answer to a go-to-definition query.
#[derive(Debug)]
pub struct GotoDefinitionResponse {
    pub path: RelPath,
    pub line: u32,
    pub column: u32,
    pub definition: Option<DefinitionLocation>,
}

/// `d` is where the edge `e` leads.
pub open spec fn is_definition_of(
    d: DefinitionLocation,
    e: ResolvedEdge,
    path: Seq<u8>,
    source: Seq<u8>,
) -> bool {
    &&& d.path@ == path
    &&& d.line == position_of(source, e.def_start as int).0
    &&& d.column == position_of(source, e.def_start as int).1
    &&& d.name@ == span_text(source, e.def_start as int, e.def_end as int)
}

/// The edges of optional facts.
pub open spec fn intra_of(refs: Option<&FileResolvedRefs>) -> Seq<ResolvedEdge> {
    match refs {
        Some(r) => r.intra@,
        None => Seq::empty(),
    }
}

/// `i` is the first edge whose use covers `pos`.
pub open spec fn is_first_edge(edges: Seq<ResolvedEdge>, pos: u32, i: int) -> bool {
    0 <= i < edges.len() && use_covers(edges[i], pos) && forall|j: int|
        0 <= j < i ==> !use_covers(#[trigger] edges[j], pos)
}

/// `out` answers for byte `pos` of a file: the position, and where the first edge that covers it
/// leads, if one does.
pub open spec fn is_goto_answer(
    out: GotoDefinitionResponse,
    edges: Seq<ResolvedEdge>,
    path: Seq<u8>,
    source: Seq<u8>,
    pos: u32,
) -> bool {
    &&& out.path@ == path
    &&& out.line == position_of(source, pos as int).0
    &&& out.column == position_of(source, pos as int).1
    &&& out.definition is Some ==> exists|i: int| #[trigger]
        is_first_edge(edges, pos, i) && is_definition_of(
            out.definition->0,
            edges[i],
            path,
            source,
        )
    &&& out.definition is None ==> forall|j: int|
        0 <= j < edges.len() ==> !use_covers(#[trigger] edges[j], pos)
}

/// Resolve the reference at a line and column to its definition. A position out of range is
/// refused; one that holds no resolved binding has no definition.
pub fn goto_definition(
    refs: Option<&FileResolvedRefs>,
    path: RelPath,
    path_text: &str,
    source: &[u8],
    line: u32,
    column: u32,
) -> (r: Result<GotoDefinitionResponse, ToolError>)
    requires
        source@.len() <= u32::MAX,
        1 + count_of(10, source@) <= u32::MAX,
    ensures
        match (r, offset_at(source@, line as int, column as int)) {
            (Ok(out), Some(pos)) => is_goto_answer(
                out,
                intra_of(refs),
                path@,
                source@,
                pos as u32,
            ),
            (Err(e), None) => e is InvalidParams && e.text() == "goto_definition: position "@
                + decimal(line as nat) + ":"@ + decimal(column as nat) + " is out of range in "@
                + path_text@,
            _ => false,
        },
{
    let pos: u32 = match line_col_to_offset(source, line, column) {
        Some(p) => p,
        None => {
            let mut m = String::from_str("goto_definition: position ");
            m.append(decimal_of(line as u64).as_str());
            m.append(":");
            m.append(decimal_of(column as u64).as_str());
            m.append(" is out of range in ");
            m.append(path_text);
            return Err(ToolError::InvalidParams(m));
        },
    };
    let definition = match refs {
        Some(found) => match containing_edge(found.intra.as_slice(), pos) {
            Some(e) => {
                let (dl, dc) = offset_to_line_col(source, e.def_start);
                let d = DefinitionLocation {
                    path: path.copy(),
                    line: dl,
                    column: dc,
                    name: slice_span(source, e.def_start, e.def_end),
                };
                proof {
                    let i = choose|i: int|
                        0 <= i < found.intra@.len() && found.intra@[i] == e && use_covers(
                            #[trigger] found.intra@[i],
                            pos,
                        ) && forall|j: int|
                            0 <= j < i ==> !use_covers(#[trigger] found.intra@[j], pos);
                    assert(is_first_edge(intra_of(refs), pos, i));
                    assert(is_definition_of(d, intra_of(refs)[i], path@, source@));
                }
                Some(d)
            },
            None => None,
        },
        None => None,
    };
    let (l, c) = offset_to_line_col(source, pos);
    let out = GotoDefinitionResponse { path, line: l, column: c, definition };
    assert(is_goto_answer(out, intra_of(refs), path@, source@, pos));
    Ok(out)
}

} // verus!
