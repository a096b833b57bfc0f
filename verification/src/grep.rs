//! Regular-expression search over the indexed files.
use vstd::prelude::*;
use vstd::utf8::{encode_utf8, encode_utf8_valid_utf8, is_char_boundary, valid_utf8};

use crate::budget::{is_kept_count, kept_count};
use crate::calls::{cursor_text, least, scan_cap, scan_cap_of};
use crate::cursor::{in_memory_text, Cursor};
use crate::model::{RelPath, ToolError};
use crate::navigate::{law_positions_round_trip, line_begin, offset_at, position_of};
use crate::pattern::{regex_fault, regex_matches, Pattern};
use crate::seek::{byte_positions, bytes_hold, count_of, lemma_positions, positions_of};
use crate::tags::{ranges_of, Span};
use crate::text::{holds_seq, same_str, utf8_text};

verus! {

// ─── Slices of text ──────────────────────────────────────────────────────────

/// A range between character boundaries is text.
proof fn lemma_range_valid(bytes: Seq<u8>, s: int, e: int)
    requires
        valid_utf8(bytes),
        0 <= s <= e <= bytes.len(),
        is_char_boundary(bytes, s),
        is_char_boundary(bytes, e),
    ensures
        valid_utf8(bytes.subrange(s, e)),
{
    let front = bytes.subrange(0, e);
    vstd::utf8::valid_utf8_split(bytes, e);
    if s < e {
        vstd::utf8::is_char_boundary_iff_not_is_continuation_byte(bytes, s);
        vstd::utf8::is_char_boundary_iff_not_is_continuation_byte(front, s);
        assert(front[s] == bytes[s]);
        vstd::utf8::valid_utf8_split(front, s);
        assert(front.subrange(s, front.len() as int) =~= bytes.subrange(s, e));
    } else {
        assert(bytes.subrange(s, e) =~= Seq::empty());
    }
}

/// The position after an ASCII byte is a character boundary.
proof fn lemma_after_ascii(bytes: Seq<u8>, p: int)
    requires
        valid_utf8(bytes),
        0 < p <= bytes.len(),
        bytes[p - 1] < 128,
    ensures
        is_char_boundary(bytes, p),
        is_char_boundary(bytes, p - 1),
{
    let b = bytes[p - 1];
    assert(!vstd::utf8::is_continuation_byte(b)) by (bit_vector)
        requires
            b < 128,
    ;
    vstd::utf8::is_char_boundary_iff_not_is_continuation_byte(bytes, p - 1);
    vstd::utf8::valid_utf8_split(bytes, p - 1);
    let tail = bytes.subrange(p - 1, bytes.len() as int);
    assert(tail[0] == b);
    assert(vstd::utf8::is_leading_byte_width_1(b)) by (bit_vector)
        requires
            b < 128,
    ;
    if p < bytes.len() {
        let rest = vstd::utf8::pop_first_scalar(tail);
        assert(valid_utf8(rest));
        assert(rest =~= bytes.subrange(p, bytes.len() as int));
        vstd::utf8::is_char_boundary_iff_not_is_continuation_byte(rest, 0);
        assert(rest[0] == bytes[p]);
        assert(is_char_boundary(rest, 0));
        vstd::utf8::is_char_boundary_iff_not_is_continuation_byte(bytes, p);
    } else {
        vstd::utf8::is_char_boundary_start_end_of_seq(bytes);
    }
}

/// The text of a range of valid bytes.
fn text_of(bytes: &[u8], s: usize, e: usize) -> (t: String)
    requires
        s <= e <= bytes@.len(),
        valid_utf8(bytes@.subrange(s as int, e as int)),
    ensures
        encode_utf8(t@) == bytes@.subrange(s as int, e as int),
{
    match utf8_text(vstd::slice::slice_subrange(bytes, s, e)) {
        Some(t) => t,
        None => String::new(),
    }
}

// ─── Lines ───────────────────────────────────────────────────────────────────

/// The start of every line of a source.
pub open spec fn line_starts(source: Seq<u8>) -> Seq<int> {
    seq![0int] + positions_of(10, source).map_values(|p: usize| p as int + 1)
}

/// `s` without trailing bytes of one value.
pub open spec fn without_trailing(s: Seq<u8>, b: u8) -> Seq<u8>
    decreases s.len(),
{
    if s.len() > 0 && s.last() == b {
        without_trailing(s.drop_last(), b)
    } else {
        s
    }
}

/// Line `i` of a source, without its line end.
pub open spec fn line_bytes(source: Seq<u8>, i: int) -> Seq<u8> {
    let starts = line_starts(source);
    let end = if i + 1 < starts.len() {
        starts[i + 1]
    } else {
        source.len() as int
    };
    without_trailing(without_trailing(source.subrange(starts[i], end), 10), 13)
}

pub(crate) proof fn lemma_starts(source: Seq<u8>)
    requires
        source.len() <= usize::MAX,
    ensures
        forall|i: int|
            0 <= i < line_starts(source).len() ==> 0 <= #[trigger] line_starts(source)[i]
                <= source.len() && (i > 0 ==> source[line_starts(source)[i] - 1] == 10
                && line_starts(source)[i] >= 1),
        forall|i: int, j: int|
            0 <= i < j < line_starts(source).len() ==> line_starts(source)[i] < line_starts(
                source,
            )[j],
        line_starts(source).len() == positions_of(10, source).len() + 1,
{
    lemma_positions(10, source);
    let ps = positions_of(10, source);
    let ls = line_starts(source);
    assert forall|i: int| 0 < i < ls.len() implies #[trigger] ls[i] == ps[i - 1] + 1 by {}
}

proof fn lemma_trim_valid(s: Seq<u8>, b: u8)
    requires
        valid_utf8(s),
        b < 128,
    ensures
        valid_utf8(without_trailing(s, b)),
        without_trailing(s, b).is_prefix_of(s),
    decreases s.len(),
{
    if s.len() > 0 && s.last() == b {
        lemma_after_ascii(s, s.len() as int);
        vstd::utf8::valid_utf8_split(s, s.len() - 1);
        assert(s.subrange(0, s.len() - 1) =~= s.drop_last());
        lemma_trim_valid(s.drop_last(), b);
        let t = without_trailing(s, b);
        assert(s.subrange(0, t.len() as int) =~= s.drop_last().subrange(0, t.len() as int));
    } else {
        assert(s.subrange(0, s.len() as int) =~= s);
    }
}

fn trimmed_len(s: &[u8], b: u8) -> (n: usize)
    ensures
        n <= s@.len(),
        s@.take(n as int) == without_trailing(s@, b),
{
    let mut n: usize = s.len();
    assert(s@.take(n as int) =~= s@);
    while n > 0 && s[n - 1] == b
        invariant
            n <= s@.len(),
            without_trailing(s@.take(n as int), b) == without_trailing(s@, b),
        decreases n,
    {
        assert(s@.take(n as int).drop_last() =~= s@.take(n - 1));
        n -= 1;
    }
    n
}

/// `starts` is the line table of `source`.
pub open spec fn is_line_table(starts: Seq<usize>, source: Seq<u8>) -> bool {
    starts.len() == line_starts(source).len() && forall|i: int|
        0 <= i < starts.len() ==> #[trigger] starts[i] == line_starts(source)[i]
}

fn line_table(source: &[u8]) -> (starts: Vec<usize>)
    requires
        source@.len() < usize::MAX,
    ensures
        is_line_table(starts@, source@),
{
    let feeds = byte_positions(10, source);
    proof {
        lemma_positions(10, source@);
        lemma_starts(source@);
    }
    let mut starts: Vec<usize> = Vec::new();
    starts.push(0);
    let mut i: usize = 0;
    while i < feeds.len()
        invariant
            i <= feeds@.len(),
            source@.len() < usize::MAX,
            feeds@ == positions_of(10, source@),
            forall|k: int|
                0 <= k < feeds@.len() ==> #[trigger] positions_of(10, source@)[k] < source@.len(),
            starts@.len() == i + 1,
            forall|k: int| 0 <= k < i + 1 ==> #[trigger] starts@[k] == line_starts(source@)[k],
        decreases feeds.len() - i,
    {
        assert(positions_of(10, source@)[i as int] < source@.len());
        starts.push(feeds[i] + 1);
        i += 1;
    }
    starts
}

/// The content of line `line_idx`, without its line end.
pub fn extract_line(source: &str, line_starts_of: &[usize], line_idx: usize) -> (line: String)
    requires
        is_line_table(line_starts_of@, encode_utf8(source@)),
        line_idx < line_starts_of@.len(),
    ensures
        encode_utf8(line@) == line_bytes(encode_utf8(source@), line_idx as int),
{
    let bytes = source.as_bytes();
    let len: usize = bytes.len();
    proof {
        lemma_starts(bytes@);
        encode_utf8_valid_utf8(source@);
    }
    let start: usize = line_starts_of[line_idx];
    let end: usize = if line_idx + 1 < line_starts_of.len() {
        line_starts_of[line_idx + 1]
    } else {
        len
    };
    proof {
        let ls = line_starts(bytes@);
        assert(start == ls[line_idx as int]);
        if line_idx > 0 {
            lemma_after_ascii(bytes@, start as int);
        } else {
            vstd::utf8::is_char_boundary_start_end_of_seq(bytes@);
        }
        if line_idx + 1 < ls.len() {
            assert(end == ls[line_idx + 1]);
            lemma_after_ascii(bytes@, end as int);
            assert(ls[line_idx as int] < ls[line_idx + 1]);
        } else {
            vstd::utf8::is_char_boundary_start_end_of_seq(bytes@);
        }
        lemma_range_valid(bytes@, start as int, end as int);
    }
    let raw = vstd::slice::slice_subrange(bytes, start, end);
    let n: usize = trimmed_len(raw, 10);
    let fed = vstd::slice::slice_subrange(raw, 0, n);
    assert(fed@ =~= without_trailing(raw@, 10));
    let m: usize = trimmed_len(fed, 13);
    proof {
        lemma_trim_valid(raw@, 10);
        lemma_trim_valid(fed@, 13);
        assert(fed@.subrange(0, m as int) =~= without_trailing(fed@, 13));
    }
    text_of(fed, 0, m)
}

/// The line table before a position: as many starts as line feeds stand before it, and the last of
/// them is where the position's line begins.
pub(crate) proof fn lemma_line_index(source: Seq<u8>, at: int)
    requires
        0 <= at <= source.len(),
        source.len() <= usize::MAX,
    ensures
        ({
            let n = count_of(10, source.take(at)) as int;
            &&& 0 <= n < line_starts(source).len()
            &&& line_starts(source)[n] == line_begin(source, at)
            &&& line_starts(source)[n] <= at
            &&& forall|k: int| n < k < line_starts(source).len() ==> #[trigger] line_starts(
                source,
            )[k] > at
        }),
{
    lemma_prefix_positions(source, at);
    lemma_positions(10, source);
    lemma_positions(10, source.take(at));
    lemma_starts(source);
    let n = count_of(10, source.take(at)) as int;
    let ps = positions_of(10, source);
    let ls = line_starts(source);
    let front = positions_of(10, source.take(at));
    assert(front == ps.take(n));
    if n > 0 {
        assert(front[n - 1] == ps[n - 1]);
        assert(ls[n] == ps[n - 1] + 1);
        assert(front[n - 1] < at);
        assert(source.take(at)[front[n - 1] as int] == 10);
    }
    assert forall|k: int| ls[n] <= k < at implies #[trigger] source[k] != 10 by {
        if source[k] == 10 {
            assert(source.take(at)[k] == 10);
            assert(front.contains(k as usize));
            let i = front.index_of(k as usize);
            if i < n - 1 {
                assert(front[i] < front[n - 1]);
            }
        }
    }
    crate::navigate::lemma_line_begin(source, at, ls[n]);
    assert forall|k: int| n < k < ls.len() implies #[trigger] ls[k] > at by {
        assert(ls[k] == ps[k - 1] + 1);
        if ps[k - 1] < at {
            assert(source[ps[k - 1] as int] == 10);
            assert(source.take(at)[ps[k - 1] as int] == 10);
            assert(front.contains(ps[k - 1]));
            let i = front.index_of(ps[k - 1]);
            assert(ps[i] == front[i]);
            assert(i < k - 1);
            assert(ps[i] < ps[k - 1]);
        }
    }
}

proof fn lemma_prefix_positions(source: Seq<u8>, at: int)
    requires
        0 <= at <= source.len(),
    ensures
        positions_of(10, source.take(at)).len() <= positions_of(10, source).len(),
        positions_of(10, source).take(positions_of(10, source.take(at)).len() as int)
            == positions_of(10, source.take(at)),
    decreases source.len() - at,
{
    if at == source.len() {
        assert(source.take(at) =~= source);
        assert(positions_of(10, source).take(positions_of(10, source).len() as int)
            =~= positions_of(10, source));
    } else {
        lemma_prefix_positions(source, at + 1);
        let small = positions_of(10, source.take(at));
        let big = positions_of(10, source.take(at + 1));
        assert(source.take(at + 1).drop_last() =~= source.take(at));
        assert(big.take(small.len() as int) =~= small);
        assert(positions_of(10, source).take(small.len() as int) =~= big.take(small.len() as int));
    }
}

fn line_index(starts: &[usize], at: usize, Ghost(source): Ghost<Seq<u8>>) -> (i: usize)
    requires
        is_line_table(starts@, source),
        at <= source.len() <= usize::MAX,
    ensures
        i == count_of(10, source.take(at as int)),
        i < starts@.len(),
        starts@[i as int] == line_begin(source, at as int),
        starts@[i as int] <= at,
{
    proof {
        lemma_line_index(source, at as int);
        lemma_starts(source);
    }
    let ghost n = count_of(10, source.take(at as int)) as int;
    let mut lo: usize = 0;
    let mut hi: usize = starts.len();
    while hi - lo > 1
        invariant
            lo <= n < hi <= starts@.len(),
            is_line_table(starts@, source),
            line_starts(source)[n] <= at,
            forall|k: int| n < k < line_starts(source).len() ==> #[trigger] line_starts(source)[k]
                > at,
            forall|i: int, j: int|
                0 <= i < j < line_starts(source).len() ==> line_starts(source)[i] < line_starts(
                    source,
                )[j],
        decreases hi - lo,
    {
        let mid: usize = lo + (hi - lo) / 2;
        assert(starts@[mid as int] == line_starts(source)[mid as int]);
        if starts[mid] <= at {
            lo = mid;
        } else {
            proof {
                if mid < n {
                    assert(line_starts(source)[mid as int] < line_starts(source)[n]);
                }
            }
            hi = mid;
        }
    }
    assert(starts@[lo as int] == line_starts(source)[lo as int]);
    lo
}

// ─── The search ──────────────────────────────────────────────────────────────

/// An indexed file as a search sees it. `source` is `None` where the file could not be read or is
/// not UTF-8.
pub struct GrepFile {
    pub path: RelPath,
    pub language: String,
    pub source: Option<String>,
}

/// What a search looks for.
pub struct GrepQuery {
    pub pattern: Pattern,
    pub path_contains: Option<String>,
    pub language: Option<String>,
    pub include_context: bool,
    /// The most hits on a page.
    pub limit: usize,
    /// How many wanted files earlier pages have passed.
    pub skip: usize,
}

/// One match.
#[derive(Debug)]
pub struct GrepHit {
    pub path: RelPath,
    /// 1-based.
    pub line_num: u32,
    /// 0-based byte column.
    pub column: u32,
    pub matched_text: String,
    pub context_before: Option<String>,
    pub context_after: Option<String>,
}

/// Where a hit comes from: its file, its byte range, and how many wanted files had been passed
/// once that file was.
pub struct HitAt {
    pub file: int,
    pub start: int,
    pub end: int,
    pub seen: int,
}

/// The progress of a search.
pub struct GrepState {
    pub hits: Seq<HitAt>,
    /// Matches counted.
    pub matches: int,
    /// Files searched to the end that hold a match.
    pub files_matched: int,
    /// Files searched.
    pub visited: int,
    /// Wanted files passed, on this page and earlier ones.
    pub seen: int,
    /// Whether the search stopped short.
    pub stopped: bool,
}

/// The state of a search before its first file.
pub open spec fn grep_start() -> GrepState {
    GrepState {
        hits: Seq::empty(),
        matches: 0,
        files_matched: 0,
        visited: 0,
        seen: 0,
        stopped: false,
    }
}

/// Whether a search wants a file: its path holds the asked-for part, and its language is the one
/// asked for.
pub open spec fn is_wanted(q: GrepQuery, f: GrepFile) -> bool {
    (q.path_contains is Some ==> holds_seq(f.path@, encode_utf8(q.path_contains->0@))) && (
    q.language is Some ==> f.language@ == q.language->0@)
}

/// The ranges of a file that the pattern matches.
pub open spec fn file_matches(q: GrepQuery, f: GrepFile) -> Seq<(int, int)> {
    match f.source {
        Some(s) => regex_matches(q.pattern.text(), s@),
        None => Seq::empty(),
    }
}

/// The first `n` matches of file `i` as hits.
pub open spec fn hits_of(ranges: Seq<(int, int)>, i: int, seen: int, n: int) -> Seq<HitAt> {
    Seq::new(n as nat, |k: int| HitAt { file: i, start: ranges[k].0, end: ranges[k].1, seen })
}

/// Searching file `i`: its matches fill the page; where they do not all fit, one more is counted
/// and the search stops.
pub open spec fn searched(st: GrepState, q: GrepQuery, f: GrepFile, i: int) -> GrepState {
    let ranges = file_matches(q, f);
    let room = q.limit - st.hits.len();
    let taken = least(ranges.len() as int, room);
    let seen = st.seen + 1;
    let full = ranges.len() > room;
    GrepState {
        hits: st.hits + hits_of(ranges, i, seen, taken),
        matches: st.matches + taken + (if full { 1int } else { 0 }),
        files_matched: st.files_matched + (if !full && ranges.len() > 0 { 1int } else { 0 }),
        visited: st.visited + 1,
        seen,
        stopped: full,
    }
}

/// One step of a search. It stops before a file once it has searched as many as its cap allows;
/// it passes over files it does not want, and over those that earlier pages have passed.
pub open spec fn grep_step(st: GrepState, q: GrepQuery, f: GrepFile, i: int) -> GrepState {
    if st.stopped {
        st
    } else if st.visited >= scan_cap(q.limit as int) {
        GrepState { stopped: true, ..st }
    } else if !is_wanted(q, f) {
        st
    } else if st.seen < q.skip {
        GrepState { seen: st.seen + 1, ..st }
    } else {
        searched(st, q, f, i)
    }
}

/// The state of a search after the first `n` files.
pub open spec fn grep_upto(files: Seq<GrepFile>, q: GrepQuery, n: int) -> GrepState
    decreases n,
{
    if n <= 0 {
        grep_start()
    } else {
        grep_step(grep_upto(files, q, n - 1), q, files[n - 1], n - 1)
    }
}

/// `h` reports the match `at`, which lies in the file's text.
pub open spec fn is_hit(h: GrepHit, f: GrepFile, at: HitAt, context: bool) -> bool {
    let source = encode_utf8(f.source->0@);
    let line = count_of(10, source.take(at.start)) as int;
    &&& f.source is Some
    &&& 0 <= at.start <= at.end <= source.len()
    &&& h.path@ == f.path@
    &&& h.line_num == position_of(source, at.start).0
    &&& h.column == position_of(source, at.start).1
    &&& encode_utf8(h.matched_text@) == source.subrange(at.start, at.end)
    &&& match h.context_before {
        Some(t) => context && line > 0 && encode_utf8(t@) == line_bytes(source, line - 1),
        None => !(context && line > 0),
    }
    &&& match h.context_after {
        Some(t) => context && line + 1 < line_starts(source).len() && encode_utf8(t@) == line_bytes(
            source,
            line + 1,
        ),
        None => !(context && line + 1 < line_starts(source).len()),
    }
}

/// A search in progress, file by file.
pub struct GrepScan {
    pub hits: Vec<GrepHit>,
    /// For each hit, how many wanted files had been passed once its file was.
    pub hit_seen: Vec<usize>,
    pub total_matches: u32,
    pub total_files_matched: usize,
    pub visited: usize,
    pub seen: usize,
    pub stopped: bool,
}

/// `scan` holds the state `st` of a search over `files`.
pub open spec fn scan_is(
    scan: GrepScan,
    st: GrepState,
    files: Seq<GrepFile>,
    q: GrepQuery,
) -> bool {
    &&& scan.hits@.len() == st.hits.len()
    &&& scan.hit_seen@.len() == st.hits.len()
    &&& forall|k: int|
        0 <= k < st.hits.len() ==> 0 <= (#[trigger] st.hits[k]).file < files.len() && is_hit(
            scan.hits@[k],
            files[st.hits[k].file],
            st.hits[k],
            q.include_context,
        ) && scan.hit_seen@[k] == st.hits[k].seen && st.hits[k].seen >= 1
    &&& scan.total_matches == least(st.matches, u32::MAX as int)
    &&& st.matches >= 0
    &&& scan.total_files_matched == st.files_matched
    &&& scan.visited == st.visited
    &&& scan.seen == st.seen
    &&& scan.stopped == st.stopped
}

/// Whether a search wants a file: its path holds the asked-for part, and its language is the one
/// asked for.
pub fn wants(q: &GrepQuery, path: &RelPath, language: &String) -> (yes: bool)
    ensures
        yes == ((q.path_contains is Some ==> holds_seq(
            path@,
            encode_utf8(q.path_contains->0@),
        )) && (q.language is Some ==> language@ == q.language->0@)),
{
    let path_ok: bool = match &q.path_contains {
        Some(n) => bytes_hold(path.bytes.as_slice(), n.as_str().as_bytes()),
        None => true,
    };
    let lang_ok: bool = match &q.language {
        Some(l) => same_str(language.as_str(), l.as_str()),
        None => true,
    };
    path_ok && lang_ok
}

fn make_hit(path: &RelPath, source: &String, starts: &Vec<usize>, span: Span, context: bool) -> (h:
    GrepHit)
    requires
        encode_utf8(source@).len() < u32::MAX,
        is_line_table(starts@, encode_utf8(source@)),
        span.start <= span.end <= encode_utf8(source@).len(),
        is_char_boundary(encode_utf8(source@), span.start as int),
        is_char_boundary(encode_utf8(source@), span.end as int),
    ensures
        forall|f: GrepFile, i: int, seen: int|
            #![trigger is_hit(h, f, HitAt { file: i, start: span.start as int, end: span.end as int, seen }, context)]
            f.path@ == path@ && f.source is Some && f.source->0@ == source@ ==> is_hit(
                h,
                f,
                HitAt { file: i, start: span.start as int, end: span.end as int, seen },
                context,
            ),
{
    let bytes = source.as_str().as_bytes();
    let line: usize = line_index(starts.as_slice(), span.start, Ghost(bytes@));
    proof {
        lemma_line_index(bytes@, span.start as int);
        lemma_starts(bytes@);
        lemma_positions(10, bytes@.take(span.start as int));
        encode_utf8_valid_utf8(source@);
        lemma_range_valid(bytes@, span.start as int, span.end as int);
        assert(bytes@.take(span.start as int).len() == span.start);
    }
    let column: usize = span.start - starts[line];
    let context_before = if context && line > 0 {
        Some(extract_line(source.as_str(), starts.as_slice(), line - 1))
    } else {
        None
    };
    let context_after = if context && line + 1 < starts.len() {
        Some(extract_line(source.as_str(), starts.as_slice(), line + 1))
    } else {
        None
    };
    GrepHit {
        path: path.copy(),
        line_num: line as u32 + 1,
        column: column as u32,
        matched_text: text_of(bytes, span.start, span.end),
        context_before,
        context_after,
    }
}

impl GrepScan {
    /// A search before its first file.
    fn start() -> (s: GrepScan)
        ensures
            forall|files: Seq<GrepFile>, q: GrepQuery| #[trigger]
                scan_is(s, grep_start(), files, q),
    {
        GrepScan {
            hits: Vec::new(),
            hit_seen: Vec::new(),
            total_matches: 0,
            total_files_matched: 0,
            visited: 0,
            seen: 0,
            stopped: false,
        }
    }

    /// Take the next file.
    fn step(&mut self, q: &GrepQuery, f: &GrepFile, Ghost(files): Ghost<Seq<GrepFile>>, Ghost(st): Ghost<GrepState>, Ghost(i): Ghost<int>)
        requires
            scan_is(*old(self), st, files, *q),
            0 <= i < files.len(),
            files[i] == *f,
            files.len() < usize::MAX,
            st.seen <= i,
            st.visited <= i,
            st.files_matched <= i,
            st.hits.len() <= q.limit,
            f.source is Some ==> encode_utf8(f.source->0@).len() < u32::MAX,
        ensures
            scan_is(*final(self), grep_step(st, *q, *f, i), files, *q),
            grep_step(st, *q, *f, i).hits.len() <= q.limit,
            grep_step(st, *q, *f, i).seen <= i + 1,
            grep_step(st, *q, *f, i).visited <= i + 1,
            grep_step(st, *q, *f, i).files_matched <= i + 1,
    {
        if self.stopped {
            return;
        }
        if self.visited >= scan_cap_of(q.limit) {
            self.stopped = true;
            return;
        }
        if !wants(q, &f.path, &f.language) {
            return;
        }
        if self.seen < q.skip {
            self.seen = self.seen + 1;
            return;
        }
        self.seen = self.seen + 1;
        self.visited = self.visited + 1;
        let source = match &f.source {
            Some(s) => s,
            None => {
                assert(hits_of(file_matches(*q, *f), i, st.seen + 1, 0) =~= Seq::empty());
                assert(st.hits + Seq::<HitAt>::empty() =~= st.hits);
                return;
            },
        };
        let bytes = source.as_str().as_bytes();
        let len: usize = bytes.len();
        let starts = line_table(bytes);
        let found = q.pattern.find_all(source.as_str());
        let ghost ranges = ranges_of(found@);
        let ghost base = st.hits;
        let ghost seen = st.seen + 1;
        let mut k: usize = 0;
        assert(base + hits_of(ranges, i, seen, 0) =~= base);
        while k < found.len() && self.hits.len() < q.limit
            invariant
                k <= found@.len(),
                0 <= i < files.len(),
                files[i] == *f,
                f.source == Some(*source),
                ranges == ranges_of(found@),
                encode_utf8(source@).len() < u32::MAX,
                is_line_table(starts@, encode_utf8(source@)),
                forall|k: int|
                    0 <= k < found@.len() ==> {
                        &&& (#[trigger] found@[k]).start <= found@[k].end
                        &&& found@[k].end <= encode_utf8(source@).len()
                        &&& is_char_boundary(encode_utf8(source@), found@[k].start as int)
                        &&& is_char_boundary(encode_utf8(source@), found@[k].end as int)
                    },
                base.len() + k == self.hits@.len(),
                self.hits@.len() <= q.limit,
                self.seen == seen,
                seen >= 1,
                self.visited == st.visited + 1,
                self.total_files_matched == st.files_matched,
                self.stopped == false,
                st.matches >= 0,
                scan_is(
                    *self,
                    GrepState {
                        hits: base + hits_of(ranges, i, seen, k as int),
                        matches: st.matches + k,
                        files_matched: st.files_matched,
                        visited: st.visited + 1,
                        seen,
                        stopped: false,
                    },
                    files,
                    *q,
                ),
            decreases found.len() - k,
        {
            let span = found[k];
            let ghost before = *self;
            let ghost was = base + hits_of(ranges, i, seen, k as int);
            let ghost now = base + hits_of(ranges, i, seen, k + 1);
            let h = make_hit(&f.path, source, &starts, span, q.include_context);
            let ghost at = HitAt { file: i, start: span.start as int, end: span.end as int, seen };
            assert(is_hit(h, *f, at, q.include_context));
            self.hits.push(h);
            self.hit_seen.push(self.seen);
            if self.total_matches < u32::MAX {
                self.total_matches = self.total_matches + 1;
            }
            proof {
                assert(now =~= was.push(at));
                assert forall|j: int| 0 <= j < now.len() implies 0 <= (#[trigger] now[j]).file
                    < files.len() && is_hit(
                    self.hits@[j],
                    files[now[j].file],
                    now[j],
                    q.include_context,
                ) && self.hit_seen@[j] == now[j].seen && now[j].seen >= 1 by {
                    if j < was.len() {
                        assert(now[j] == was[j]);
                        assert(self.hits@[j] == before.hits@[j]);
                    }
                }
            }
            k += 1;
        }
        if k < found.len() {
            if self.total_matches < u32::MAX {
                self.total_matches = self.total_matches + 1;
            }
            self.stopped = true;
        } else if found.len() > 0 {
            self.total_files_matched = self.total_files_matched + 1;
        }
    }
}

/// A page of a search.
pub struct GrepPage {
    pub total_files_matched: usize,
    pub total_matches: u32,
    pub truncated: bool,
    pub budgeted: bool,
    pub hits: Vec<GrepHit>,
    pub next_cursor: Option<Cursor>,
}

/// Search `files` in order: the state after the last of them.
pub fn grep_files(q: &GrepQuery, files: &Vec<GrepFile>) -> (scan: GrepScan)
    requires
        files@.len() < usize::MAX,
        forall|i: int|
            0 <= i < files@.len() && (#[trigger] files@[i]).source is Some ==> encode_utf8(
                files@[i].source->0@,
            ).len() < u32::MAX,
    ensures
        scan_is(scan, grep_upto(files@, *q, files@.len() as int), files@, *q),
        scan.hit_seen@.len() == scan.hits@.len(),
        scan.hits@.len() <= q.limit,
        forall|k: int| 0 <= k < scan.hit_seen@.len() ==> #[trigger] scan.hit_seen@[k] >= 1,
{
    let mut scan = GrepScan::start();
    let mut i: usize = 0;
    assert(scan_is(scan, grep_start(), files@, *q));
    while i < files.len()
        invariant
            i <= files@.len(),
            files@.len() < usize::MAX,
            forall|i: int|
                0 <= i < files@.len() && (#[trigger] files@[i]).source is Some ==> encode_utf8(
                    files@[i].source->0@,
                ).len() < u32::MAX,
            scan_is(scan, grep_upto(files@, *q, i as int), files@, *q),
            grep_upto(files@, *q, i as int).hits.len() <= q.limit,
            grep_upto(files@, *q, i as int).seen <= i,
            grep_upto(files@, *q, i as int).visited <= i,
            grep_upto(files@, *q, i as int).files_matched <= i,
        decreases files.len() - i,
    {
        scan.step(
            q,
            &files[i],
            Ghost(files@),
            Ghost(grep_upto(files@, *q, i as int)),
            Ghost(i as int),
        );
        i += 1;
    }
    proof {
        let st = grep_upto(files@, *q, files@.len() as int);
        assert forall|k: int| 0 <= k < scan.hit_seen@.len() implies #[trigger] scan.hit_seen@[k]
            >= 1 by {
            assert(st.hits[k].seen >= 1);
        }
    }
    scan
}

/// The page of a finished search, under a token budget. A search that stopped short has a cursor
/// past the last file it passed. A budget that drops hits moves the cursor back to just before the
/// file of the last kept hit, so that no dropped hit is lost.
pub fn grep_page(scan: GrepScan, sizes: &[u64], max_tokens: Option<u32>, generation: u32) -> (page:
    GrepPage)
    requires
        sizes@.len() == scan.hits@.len(),
        scan.hit_seen@.len() == scan.hits@.len(),
        forall|k: int| 0 <= k < scan.hit_seen@.len() ==> #[trigger] scan.hit_seen@[k] >= 1,
    ensures
        page.total_files_matched == scan.total_files_matched,
        page.total_matches == scan.total_matches,
        page.truncated == scan.stopped,
        is_kept_count(sizes@, max_tokens, page.hits@.len() as int),
        page.hits@ == scan.hits@.take(page.hits@.len() as int),
        page.budgeted == (page.hits@.len() < scan.hits@.len()),
        cursor_text(page.next_cursor) == (if page.budgeted {
            Some(
                in_memory_text(
                    (scan.hit_seen@[page.hits@.len() - 1] - 1) as u64,
                    generation,
                ),
            )
        } else if scan.stopped {
            Some(in_memory_text(scan.seen as u64, generation))
        } else {
            None
        }),
{
    let kept: usize = kept_count(sizes, max_tokens);
    let total: usize = scan.hits.len();
    let mut hits = scan.hits;
    let ghost all = hits@;
    let budgeted: bool = kept < total;
    hits.truncate(kept);
    assert(hits@ =~= all.take(kept as int));
    let next_cursor = if budgeted {
        assert(scan.hit_seen@[kept - 1] >= 1);
        Some(Cursor::encode_in_memory((scan.hit_seen[kept - 1] - 1) as u64, generation))
    } else if scan.stopped {
        Some(Cursor::encode_in_memory(scan.seen as u64, generation))
    } else {
        None
    };
    GrepPage {
        total_files_matched: scan.total_files_matched,
        total_matches: scan.total_matches,
        truncated: scan.stopped,
        budgeted,
        hits,
        next_cursor,
    }
}

// ─── The request ─────────────────────────────────────────────────────────────

/// What a client asks of a search.
pub struct GrepParams {
    pub pattern: String,
    pub path_contains: Option<String>,
    pub language: Option<String>,
    pub include_context: bool,
    pub limit: Option<u32>,
    pub cursor: Option<Cursor>,
}

/// What a request comes to: a search, or the news that its cursor belongs to an older snapshot.
pub enum GrepPlan {
    CursorInvalidated,
    Search(GrepQuery),
}

/// The offset and snapshot that a cursor holds.
pub open spec fn cursor_pair(c: Cursor) -> Option<(u64, u32)> {
    if exists|b: Seq<u8>| #[trigger]
        crate::cursor::base64(b) == c.0@ && crate::cursor::unpacked_pair(b) is Some {
        crate::cursor::unpacked_pair(
            choose|b: Seq<u8>| #[trigger]
                crate::cursor::base64(b) == c.0@ && crate::cursor::unpacked_pair(b) is Some,
        )
    } else {
        None
    }
}

proof fn lemma_cursor_pair(c: Cursor, b: Seq<u8>, p: (u64, u32))
    requires
        crate::cursor::base64(b) == c.0@,
        crate::cursor::unpacked_pair(b) == Some(p),
    ensures
        cursor_pair(c) == Some(p),
{
    let d = choose|d: Seq<u8>| #[trigger]
        crate::cursor::base64(d) == c.0@ && crate::cursor::unpacked_pair(d) is Some;
    crate::cursor::law_base64_injective(b, d);
}

/// Turn a request into a search against the snapshot `generation`. A cursor that is none, and a
/// pattern that does not compile, are refused; a cursor of another snapshot restarts the client.
pub fn plan_grep(params: GrepParams, generation: u32) -> (r: Result<GrepPlan, ToolError>)
    ensures
        ({
            let pair = match params.cursor {
                Some(c) => cursor_pair(c),
                None => Some((0u64, generation)),
            };
            match r {
                Ok(GrepPlan::CursorInvalidated) => pair is Some && (pair->0).1 != generation,
                Ok(GrepPlan::Search(q)) => {
                    &&& pair is Some && (pair->0).1 == generation
                    &&& regex_fault(params.pattern@) is None
                    &&& q.pattern.text() == params.pattern@
                    &&& q.path_contains == params.path_contains
                    &&& q.language == params.language
                    &&& q.include_context == params.include_context
                    &&& q.limit == crate::walk::bounded(
                        params.limit,
                        SEARCH_LIMIT_DEFAULT,
                        SEARCH_LIMIT_MAX,
                    )
                    &&& q.skip == (pair->0).0 as usize
                },
                Err(e) => {
                    &&& e is InvalidParams
                    &&& if pair is None {
                        e.text() == "invalid cursor"@
                    } else {
                        &&& (pair->0).1 == generation
                        &&& regex_fault(params.pattern@) is Some
                        &&& e.text() == "invalid regex: "@ + regex_fault(params.pattern@)->0
                    }
                },
            }
        }),
{
    let skip: usize = match &params.cursor {
        Some(c) => match c.decode_in_memory() {
            Ok((offset, snapshot_id)) => {
                proof {
                    let b = choose|b: Seq<u8>| #[trigger]
                        crate::cursor::base64(b) == c.0@ && crate::cursor::unpacked_pair(b) == Some(
                            (offset, snapshot_id),
                        );
                    lemma_cursor_pair(*c, b, (offset, snapshot_id));
                }
                if snapshot_id != generation {
                    return Ok(GrepPlan::CursorInvalidated);
                }
                offset as usize
            },
            Err(e) => {
                return Err(e);
            },
        },
        None => 0,
    };
    let limit: usize = crate::walk::bound(params.limit, SEARCH_LIMIT_DEFAULT, SEARCH_LIMIT_MAX) as usize;
    match Pattern::compile(params.pattern.as_str()) {
        Ok(pattern) => Ok(
            GrepPlan::Search(
                GrepQuery {
                    pattern,
                    path_contains: params.path_contains,
                    language: params.language,
                    include_context: params.include_context,
                    limit,
                    skip,
                },
            ),
        ),
        Err(fault) => {
            let mut m = String::from_str("invalid regex: ");
            m.append(fault.as_str());
            Err(ToolError::InvalidParams(m))
        },
    }
}

/// Default and ceiling of the page size of a search.
pub const SEARCH_LIMIT_DEFAULT: u32 = 100;

pub const SEARCH_LIMIT_MAX: u32 = 1000;

// ─── Laws ────────────────────────────────────────────────────────────────────

/// A hit is where it says: its line and column lead to a place in the file, and the text there begins
/// with what was matched.
pub proof fn law_hit_is_where_it_says(h: GrepHit, f: GrepFile, at: HitAt, context: bool)
    requires
        is_hit(h, f, at, context),
    ensures
        ({
            let source = encode_utf8(f.source->0@);
            let matched = encode_utf8(h.matched_text@);
            &&& offset_at(source, h.line_num as int, h.column as int) == Some(at.start)
            &&& matched.is_prefix_of(source.skip(at.start))
            &&& matched.len() == at.end - at.start
        }),
{
    let source = encode_utf8(f.source->0@);
    let matched = encode_utf8(h.matched_text@);
    law_positions_round_trip(source, at.start);
    assert(source.skip(at.start).subrange(0, matched.len() as int) =~= source.subrange(
        at.start,
        at.end,
    ));
}

/// A page never holds more hits than asked for, and counts at least those it holds.
pub proof fn law_page_is_bounded(files: Seq<GrepFile>, q: GrepQuery, n: int)
    requires
        0 <= n <= files.len(),
    ensures
        grep_upto(files, q, n).hits.len() <= q.limit,
        grep_upto(files, q, n).matches >= grep_upto(files, q, n).hits.len(),
        grep_upto(files, q, n).matches <= grep_upto(files, q, n).hits.len() + 1,
        !grep_upto(files, q, n).stopped ==> grep_upto(files, q, n).matches == grep_upto(
            files,
            q,
            n,
        ).hits.len(),
        0 <= grep_upto(files, q, n).visited <= grep_upto(files, q, n).seen <= n,
    decreases n,
{
    if n > 0 {
        law_page_is_bounded(files, q, n - 1);
    }
}

/// A search that did not stop short has reported every match of every wanted file that it did not
/// skip: each file's matches are on the page.
pub proof fn law_complete_unless_stopped(files: Seq<GrepFile>, q: GrepQuery, n: int, i: int, k: int)
    requires
        0 <= i < n <= files.len(),
        !grep_upto(files, q, n).stopped,
        is_wanted(q, files[i]),
        grep_upto(files, q, i).seen >= q.skip,
        0 <= k < file_matches(q, files[i]).len(),
    ensures
        exists|h: int|
            0 <= h < grep_upto(files, q, n).hits.len() && (#[trigger] grep_upto(
                files,
                q,
                n,
            ).hits[h]).file == i && grep_upto(files, q, n).hits[h].start == file_matches(
                q,
                files[i],
            )[k].0 && grep_upto(files, q, n).hits[h].end == file_matches(q, files[i])[k].1,
    decreases n,
{
    let before = grep_upto(files, q, n - 1);
    let after = grep_upto(files, q, n);
    law_page_is_bounded(files, q, n - 1);
    if n - 1 > i {
        law_complete_unless_stopped(files, q, n - 1, i, k);
        let h = choose|h: int|
            0 <= h < before.hits.len() && (#[trigger] before.hits[h]).file == i
                && before.hits[h].start == file_matches(q, files[i])[k].0 && before.hits[h].end
                == file_matches(q, files[i])[k].1;
        assert(after.hits[h] == before.hits[h]);
    } else {
        let h = before.hits.len() + k;
        assert(after.hits[h].file == i);
    }
}

/// How many of the first `n` files a search wants.
pub open spec fn wanted_upto(files: Seq<GrepFile>, q: GrepQuery, n: int) -> int
    decreases n,
{
    if n <= 0 {
        0
    } else {
        wanted_upto(files, q, n - 1) + (if is_wanted(q, files[n - 1]) {
            1int
        } else {
            0
        })
    }
}

/// The same search, past the first `skip` wanted files.
pub open spec fn resumed(q: GrepQuery, skip: usize) -> GrepQuery {
    GrepQuery { skip, ..q }
}

proof fn lemma_wanted_grows(files: Seq<GrepFile>, q: GrepQuery, m: int, n: int)
    requires
        0 <= m <= n <= files.len(),
    ensures
        wanted_upto(files, q, m) <= wanted_upto(files, q, n),
    decreases n,
{
    if m < n {
        lemma_wanted_grows(files, q, m, n - 1);
    }
}

proof fn lemma_wanted_same(files: Seq<GrepFile>, q: GrepQuery, skip: usize, n: int)
    requires
        0 <= n <= files.len(),
    ensures
        wanted_upto(files, resumed(q, skip), n) == wanted_upto(files, q, n),
    decreases n,
{
    if n > 0 {
        lemma_wanted_same(files, q, skip, n - 1);
    }
}

/// A search that goes on has passed every wanted file; one that stopped stays stopped.
proof fn lemma_passed(files: Seq<GrepFile>, q: GrepQuery, m: int, n: int)
    requires
        0 <= m <= n <= files.len(),
    ensures
        !grep_upto(files, q, n).stopped ==> !grep_upto(files, q, m).stopped,
        !grep_upto(files, q, m).stopped ==> grep_upto(files, q, m).seen == wanted_upto(files, q, m),
        grep_upto(files, q, m).seen <= grep_upto(files, q, n).seen,
    decreases n,
{
    if m < n {
        lemma_passed(files, q, m, n - 1);
    } else if n > 0 {
        lemma_passed(files, q, n - 1, n - 1);
    }
}

/// `at` is a match of a wanted file among the first `n`, past the skipped ones.
pub open spec fn is_match_at(files: Seq<GrepFile>, q: GrepQuery, n: int, at: HitAt) -> bool {
    &&& 0 <= at.file < n
    &&& is_wanted(q, files[at.file])
    &&& at.seen == wanted_upto(files, q, at.file + 1)
    &&& at.seen > q.skip
    &&& file_matches(q, files[at.file]).contains((at.start, at.end))
}

pub(crate) proof fn lemma_hits(files: Seq<GrepFile>, q: GrepQuery, n: int)
    requires
        0 <= n <= files.len(),
    ensures
        forall|h: int|
            0 <= h < grep_upto(files, q, n).hits.len() ==> is_match_at(
                files,
                q,
                n,
                #[trigger] grep_upto(files, q, n).hits[h],
            ) && grep_upto(files, q, n).hits[h].seen <= grep_upto(files, q, n).seen,
        forall|h: int, l: int|
            0 <= h <= l < grep_upto(files, q, n).hits.len() ==> (#[trigger] grep_upto(
                files,
                q,
                n,
            ).hits[h]).seen <= (#[trigger] grep_upto(files, q, n).hits[l]).seen,
    decreases n,
{
    if n > 0 {
        let before = grep_upto(files, q, n - 1);
        let after = grep_upto(files, q, n);
        lemma_hits(files, q, n - 1);
        lemma_passed(files, q, n - 1, n - 1);
        law_page_is_bounded(files, q, n - 1);
        assert forall|h: int| 0 <= h < after.hits.len() implies is_match_at(
            files,
            q,
            n,
            #[trigger] after.hits[h],
        ) && after.hits[h].seen <= after.seen by {
            if h < before.hits.len() {
                assert(after.hits[h] == before.hits[h]);
                assert(is_match_at(files, q, n - 1, before.hits[h]));
            } else {
                let ranges = file_matches(q, files[n - 1]);
                let k = h - before.hits.len();
                assert(ranges[k] == (after.hits[h].start, after.hits[h].end));
            }
        }
        assert forall|h: int, l: int| 0 <= h <= l < after.hits.len() implies (
        #[trigger] after.hits[h]).seen <= (#[trigger] after.hits[l]).seen by {
            if l < before.hits.len() {
                assert(after.hits[h] == before.hits[h] && after.hits[l] == before.hits[l]);
            } else if h < before.hits.len() {
                assert(after.hits[h] == before.hits[h]);
                assert(before.hits[h].seen <= before.seen);
            }
        }
    }
}

/// A budget loses no hit: a search resumed at the cursor of a page that keeps `kept` of its hits
/// reports every dropped one, unless it stops short itself.
pub proof fn law_budget_loses_no_hit(files: Seq<GrepFile>, q: GrepQuery, kept: int, h: int, skip: usize)
    requires
        ({
            let hits = grep_upto(files, q, files.len() as int).hits;
            1 <= kept <= h < hits.len() && skip == hits[kept - 1].seen - 1
        }),
        !grep_upto(files, resumed(q, skip), files.len() as int).stopped,
    ensures
        ({
            let dropped = grep_upto(files, q, files.len() as int).hits[h];
            let next = grep_upto(files, resumed(q, skip), files.len() as int).hits;
            exists|l: int|
                0 <= l < next.len() && (#[trigger] next[l]).file == dropped.file && next[l].start
                    == dropped.start && next[l].end == dropped.end
        }),
{
    let n = files.len() as int;
    let hits = grep_upto(files, q, n).hits;
    let r = resumed(q, skip);
    lemma_hits(files, q, n);
    let dropped = hits[h];
    assert(is_match_at(files, q, n, dropped));
    assert(hits[kept - 1].seen <= hits[h].seen);
    lemma_passed(files, r, dropped.file, n);
    lemma_wanted_same(files, q, skip, dropped.file);
    let ranges = file_matches(q, files[dropped.file]);
    let k = choose|k: int| 0 <= k < ranges.len() && ranges[k] == (dropped.start, dropped.end);
    law_complete_unless_stopped(files, r, n, dropped.file, k);
}

/// A search resumed at the cursor of a page that stopped short reports only files past those of the
/// page.
pub proof fn law_next_page_goes_on(files: Seq<GrepFile>, q: GrepQuery, skip: usize, h: int, l: int)
    requires
        skip == grep_upto(files, q, files.len() as int).seen,
        0 <= h < grep_upto(files, q, files.len() as int).hits.len(),
        0 <= l < grep_upto(files, resumed(q, skip), files.len() as int).hits.len(),
    ensures
        grep_upto(files, q, files.len() as int).hits[h].file < grep_upto(
            files,
            resumed(q, skip),
            files.len() as int,
        ).hits[l].file,
{
    let n = files.len() as int;
    let r = resumed(q, skip);
    lemma_hits(files, q, n);
    lemma_hits(files, r, n);
    let a = grep_upto(files, q, n).hits[h];
    let b = grep_upto(files, r, n).hits[l];
    assert(is_match_at(files, q, n, a) && is_match_at(files, r, n, b));
    if b.file <= a.file {
        lemma_wanted_grows(files, q, b.file + 1, a.file + 1);
        lemma_wanted_same(files, q, skip, b.file + 1);
    }
}

} // verus!
