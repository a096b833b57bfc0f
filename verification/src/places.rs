//! What places mean: lines and columns, definitions under a position, and matches of a search.
use vstd::prelude::*;
use vstd::utf8::encode_utf8;

use crate::answers::{lemma_part_of, part_of};
use crate::grep::{
    file_matches, grep_upto, is_hit, is_match_at, law_complete_unless_stopped, law_page_is_bounded,
    lemma_hits, lemma_line_index, lemma_starts, line_bytes, line_starts, scan_is, without_trailing,
    GrepFile, GrepQuery, GrepScan,
};
use crate::navigate::{
    clamped, is_definition_of, is_first_edge, is_goto_answer, lemma_line_of, line_begin,
    position_of, use_covers, GotoDefinitionResponse,
};
use crate::pattern::regex_matches;
use crate::resolution::ResolvedEdge;
use crate::seek::{count_of, lemma_positions, positions_of};

verus! {

// ─── Lines and columns ───────────────────────────────────────────────────────

proof fn lemma_feeds_filtered(s: Seq<u8>)
    ensures
        count_of(10, s) == s.filter(|b: u8| b == 10).len(),
    decreases s.len(),
{
    reveal(Seq::filter);
    if s.len() > 0 {
        lemma_feeds_filtered(s.drop_last());
    }
}

/// A byte's line is one more than the line feeds before it; its column is the number of bytes between it
/// and the last of those, or the start of the source. An offset past the end stands for the end.
pub proof fn law_positions(source: Seq<u8>, offset: int)
    requires
        0 <= offset,
    ensures
        ({
            let o = if offset <= source.len() {
                offset
            } else {
                source.len() as int
            };
            let (line, column) = position_of(source, offset);
            &&& line == source.subrange(0, o).filter(|b: u8| b == 10).len() + 1
            &&& 0 <= column <= o
            &&& column == o || source[o - column - 1] == 10
            &&& forall|k: int| o - column <= k < o ==> #[trigger] source[k] != 10
        }),
{
    let o = clamped(source, offset);
    lemma_line_of(source, o);
    lemma_feeds_filtered(source.take(o));
    assert(source.take(o) =~= source.subrange(0, o));
    lemma_line_begins(source, o);
}

proof fn lemma_line_begins(source: Seq<u8>, o: int)
    requires
        0 <= o <= source.len(),
    ensures
        line_begin(source, o) == 0 || source[line_begin(source, o) - 1] == 10,
        0 <= line_begin(source, o),
    decreases o,
{
    if o > 0 && source[o - 1] != 10 {
        lemma_line_begins(source, o - 1);
    }
}

/// Line `i` of a source, counted from zero, is what stands between the line feed before it and the next one,
/// or the ends of the source, without the carriage returns at its end. The result gives where it starts,
/// where its text ends, and where the line ends.
pub proof fn law_lines(source: Seq<u8>, i: int) -> (at: (int, int, int))
    requires
        source.len() <= usize::MAX,
        0 <= i < line_starts(source).len(),
    ensures
        0 <= at.0 <= at.1 <= at.2 <= source.len(),
        source.subrange(0, at.0).filter(|b: u8| b == 10).len() == i,
        at.0 == 0 || source[at.0 - 1] == 10,
        at.2 == source.len() || source[at.2] == 10,
        forall|k: int| at.0 <= k < at.2 ==> #[trigger] source[k] != 10,
        forall|k: int| at.1 <= k < at.2 ==> #[trigger] source[k] == 13,
        at.1 == at.0 || source[at.1 - 1] != 13,
        line_bytes(source, i) == source.subrange(at.0, at.1),
{
    lemma_starts(source);
    lemma_positions(10, source);
    let starts = line_starts(source);
    let ps = positions_of(10, source);
    let s = starts[i];
    let end = if i + 1 < starts.len() {
        starts[i + 1]
    } else {
        source.len() as int
    };
    if i + 1 < starts.len() {
        assert(starts[i] < starts[i + 1]);
    }
    let e = if i + 1 < starts.len() {
        end - 1
    } else {
        end
    };
    assert forall|k: int| s <= k < e implies #[trigger] source[k] != 10 by {
        if source[k] == 10 {
            assert(ps.contains(k as usize));
            let j = ps.index_of(k as usize);
            assert(starts[j + 1] == k + 1);
            if j + 1 < i {
                assert(starts[j + 1] < starts[i]);
            } else if j + 1 > i + 1 {
                assert(starts[i + 1] < starts[j + 1]);
            } else if j + 1 == i {
                assert(starts[i] == k + 1);
            }
        }
    }
    let raw = source.subrange(s, end);
    let fed = without_trailing(raw, 10);
    lemma_trimmed(raw, 10);
    assert(fed =~= source.subrange(s, e)) by {
        let n = fed.len() as int;
        if i + 1 < starts.len() {
            assert(source[e] == 10);
            if n < e - s {
                assert(raw[n] == source[s + n]);
            }
            if n > e - s {
                assert(raw[n - 1] == source[s + n - 1]);
            }
        } else if n < e - s {
            assert(raw[n] == source[s + n]);
        }
    }
    let line = without_trailing(fed, 13);
    lemma_trimmed(fed, 13);
    let m = s + line.len();
    assert(line =~= source.subrange(s, m));
    assert forall|k: int| m <= k < e implies #[trigger] source[k] == 13 by {
        assert(fed[k - s] == source[k]);
    }
    lemma_line_index(source, s);
    lemma_feeds_filtered(source.take(s));
    assert(source.take(s) =~= source.subrange(0, s));
    let n = count_of(10, source.take(s)) as int;
    if n < i {
        assert(starts[i] > s);
    }
    if i < n {
        assert(starts[i] < starts[n]);
    }
    (s, m, e)
}

proof fn lemma_trimmed(s: Seq<u8>, b: u8)
    ensures
        without_trailing(s, b).len() <= s.len(),
        without_trailing(s, b) == s.take(without_trailing(s, b).len() as int),
        forall|k: int| without_trailing(s, b).len() <= k < s.len() ==> #[trigger] s[k] == b,
        without_trailing(s, b).len() > 0 ==> s[without_trailing(s, b).len() - 1] != b,
    decreases s.len(),
{
    if s.len() > 0 && s.last() == b {
        let front = s.drop_last();
        lemma_trimmed(front, b);
        let n = without_trailing(front, b).len() as int;
        assert(front.take(n) =~= s.take(n));
        assert forall|k: int| n <= k < s.len() implies #[trigger] s[k] == b by {
            if k < front.len() {
                assert(front[k] == b);
            }
        }
        if n > 0 {
            assert(front[n - 1] == s[n - 1]);
        }
    } else {
        assert(s.take(s.len() as int) =~= s);
    }
}

// ─── Going to a definition ───────────────────────────────────────────────────

/// A definition is answered exactly when some edge's use lies over the position, from its first byte up to
/// but not with its end; a use without width lies over its start. What is answered is where the first
/// such edge leads: its line is one more than the line feeds before the definition, its column counts
/// the bytes since the last of them, and its file is the one asked about.
pub proof fn law_definitions_are_where_edges_lead(
    out: GotoDefinitionResponse,
    edges: Seq<ResolvedEdge>,
    path: Seq<u8>,
    source: Seq<u8>,
    pos: u32,
    i: int,
)
    requires
        is_goto_answer(out, edges, path, source, pos),
        0 <= i < edges.len(),
        edges[i].use_start <= pos,
        pos < edges[i].use_end || (edges[i].use_end <= edges[i].use_start && pos == edges[i].use_start),
        forall|j: int|
            0 <= j < i && (#[trigger] edges[j]).use_start <= pos ==> pos >= edges[j].use_end && pos
                != edges[j].use_start,
        edges[i].def_start <= source.len(),
    ensures
        out.definition is Some,
        ({
            let d = out.definition->0;
            let o = edges[i].def_start as int;
            &&& d.path@ == path
            &&& d.line == source.subrange(0, o).filter(|b: u8| b == 10).len() + 1
            &&& 0 <= d.column <= o
            &&& d.column == o || source[o - d.column - 1] == 10
            &&& forall|k: int| o - d.column <= k < o ==> #[trigger] source[k] != 10
        }),
{
    assert(use_covers(edges[i], pos));
    if out.definition is None {
        assert(!use_covers(edges[i], pos));
    }
    let k = choose|k: int| #[trigger]
        is_first_edge(edges, pos, k) && is_definition_of(out.definition->0, edges[k], path, source);
    if k < i {
        assert(use_covers(edges[k], pos));
    } else if i < k {
        assert(!use_covers(edges[i], pos));
    }
    law_positions(source, edges[i].def_start as int);
}

/// Where no edge's use lies over the position, there is no definition.
pub proof fn law_no_edge_no_definition(
    out: GotoDefinitionResponse,
    edges: Seq<ResolvedEdge>,
    path: Seq<u8>,
    source: Seq<u8>,
    pos: u32,
)
    requires
        is_goto_answer(out, edges, path, source, pos),
        forall|j: int|
            0 <= j < edges.len() && (#[trigger] edges[j]).use_start <= pos ==> pos >= edges[j].use_end
                && pos != edges[j].use_start,
    ensures
        out.definition is None,
{
    if out.definition is Some {
        let k = choose|k: int| #[trigger]
            is_first_edge(edges, pos, k) && is_definition_of(
                out.definition->0,
                edges[k],
                path,
                source,
            );
        assert(use_covers(edges[k], pos));
    }
}

// ─── Searching text ──────────────────────────────────────────────────────────

/// Every hit is a match of the pattern, in a file that was asked for: its path holds the text asked for,
/// and its language is the one asked for, where such are. The hit's text is what the match covers, its line
/// is one more than the line feeds before the match, and its column counts the bytes since the last of
/// them. Lines around it come only where they are asked for. The result gives the file and the match.
pub proof fn law_hits_are_matches(scan: GrepScan, files: Seq<GrepFile>, q: GrepQuery, n: int, k: int) -> (at: (
    int,
    int,
))
    requires
        0 <= n <= files.len(),
        scan_is(scan, grep_upto(files, q, n), files, q),
        0 <= k < scan.hits@.len(),
    ensures
        0 <= at.0 < n,
        files[at.0].source is Some,
        scan.hits@[k].path@ == files[at.0].path@,
        q.path_contains is Some ==> part_of(encode_utf8(q.path_contains->0@), files[at.0].path@),
        q.language is Some ==> files[at.0].language@ == q.language->0@,
        ({
            let matches = regex_matches(q.pattern.text(), files[at.0].source->0@);
            let source = encode_utf8(files[at.0].source->0@);
            let h = scan.hits@[k];
            &&& 0 <= at.1 < matches.len()
            &&& 0 <= matches[at.1].0 <= matches[at.1].1 <= source.len()
            &&& encode_utf8(h.matched_text@) == source.subrange(matches[at.1].0, matches[at.1].1)
            &&& h.line_num == source.subrange(0, matches[at.1].0).filter(|b: u8| b == 10).len() + 1
            &&& 0 <= h.column <= matches[at.1].0
            &&& h.column == matches[at.1].0 || source[matches[at.1].0 - h.column - 1] == 10
            &&& forall|j: int|
                matches[at.1].0 - h.column <= j < matches[at.1].0 ==> #[trigger] source[j] != 10
            &&& !q.include_context ==> h.context_before is None && h.context_after is None
            &&& q.include_context && h.line_num > 1 ==> h.context_before is Some && encode_utf8(
                h.context_before->0@,
            ) == line_bytes(source, h.line_num - 2)
            &&& h.line_num == 1 ==> h.context_before is None
            &&& h.context_after is Some ==> encode_utf8(h.context_after->0@) == line_bytes(
                source,
                h.line_num as int,
            )
            &&& q.include_context && h.context_after is None ==> h.line_num >= line_starts(source).len()
        }),
{
    let st = grep_upto(files, q, n);
    lemma_hits(files, q, n);
    let hit = st.hits[k];
    assert(is_match_at(files, q, n, hit));
    let f = files[hit.file];
    assert(is_hit(scan.hits@[k], f, hit, q.include_context));
    let m = file_matches(q, f).index_of((hit.start, hit.end));
    law_positions(encode_utf8(f.source->0@), hit.start);
    if q.path_contains is Some {
        lemma_part_of(encode_utf8(q.path_contains->0@), f.path@);
    }
    (hit.file, m)
}

/// A search from the start misses nothing unless it stops short: every match in a readable file that was
/// asked for is a hit. The result is its place.
pub proof fn law_every_match_is_a_hit(
    scan: GrepScan,
    files: Seq<GrepFile>,
    q: GrepQuery,
    n: int,
    i: int,
    m: int,
) -> (k: int)
    requires
        0 <= i < n <= files.len(),
        scan_is(scan, grep_upto(files, q, n), files, q),
        !scan.stopped,
        q.skip == 0,
        q.path_contains is Some ==> part_of(encode_utf8(q.path_contains->0@), files[i].path@),
        q.language is Some ==> files[i].language@ == q.language->0@,
        files[i].source is Some,
        0 <= m < regex_matches(q.pattern.text(), files[i].source->0@).len(),
    ensures
        0 <= k < scan.hits@.len(),
        scan.hits@[k].path@ == files[i].path@,
        encode_utf8(scan.hits@[k].matched_text@) == encode_utf8(files[i].source->0@).subrange(
            regex_matches(q.pattern.text(), files[i].source->0@)[m].0,
            regex_matches(q.pattern.text(), files[i].source->0@)[m].1,
        ),
        scan.hits@[k].line_num == position_of(
            encode_utf8(files[i].source->0@),
            regex_matches(q.pattern.text(), files[i].source->0@)[m].0,
        ).0,
{
    if q.path_contains is Some {
        lemma_part_of(encode_utf8(q.path_contains->0@), files[i].path@);
    }
    law_page_is_bounded(files, q, i);
    law_complete_unless_stopped(files, q, n, i, m);
    let st = grep_upto(files, q, n);
    let k = choose|k: int|
        0 <= k < st.hits.len() && (#[trigger] st.hits[k]).file == i && st.hits[k].start
            == file_matches(q, files[i])[m].0 && st.hits[k].end == file_matches(q, files[i])[m].1;
    assert(is_hit(scan.hits@[k], files[i], st.hits[k], q.include_context));
    k
}

/// A search stops short for two reasons only: the page is full and there is another match, or as many files
/// as are allowed have been searched, of which there are at least two thousand.
pub proof fn law_searches_stop_for_a_reason(files: Seq<GrepFile>, q: GrepQuery, n: int)
    requires
        0 <= n <= files.len(),
        grep_upto(files, q, n).stopped,
    ensures
        (grep_upto(files, q, n).hits.len() == q.limit && grep_upto(files, q, n).matches == q.limit + 1)
            || (grep_upto(files, q, n).visited >= 2000 && grep_upto(files, q, n).visited >= q.limit),
    decreases n,
{
    if n > 0 && grep_upto(files, q, n - 1).stopped {
        law_searches_stop_for_a_reason(files, q, n - 1);
    } else if n > 0 {
        law_page_is_bounded(files, q, n - 1);
    }
}

} // verus!
