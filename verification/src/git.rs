//! Git answers: commits, blame pages, and when the history index may be used.
use vstd::prelude::*;

use crate::calls::least;
use crate::cursor::{in_memory_text, Cursor};
use crate::history::{line_range_in_blob, symbol_bytes};
use crate::model::{kind_name, kind_to_str, RelPath, Symbol, ToolError};
use crate::seek::count_of;
use crate::seqs::{lemma_filter_agree, lemma_filter_all, lemma_filter_take, lemma_filter_window};
use crate::sort::cursor_bytes;
use crate::text::{opt_is, opt_text};

verus! {

/// The most hunks that a page of blame holds.
pub const BLAME_LIMIT_MAX: u32 = 1000;

/// Refuse a request that needs a git repository where there is none.
pub fn require_git_repo(has_repo: bool) -> (r: Result<(), ToolError>)
    ensures
        match r {
            Ok(_) => has_repo,
            Err(e) => !has_repo && e is InvalidRequest && e.text()
                == "this tool requires `basemind serve` to be run inside a git repository"@,
        },
{
    if has_repo {
        Ok(())
    } else {
        Err(
            ToolError::InvalidRequest(
                String::from_str(
                    "this tool requires `basemind serve` to be run inside a git repository",
                ),
            ),
        )
    }
}

/// The commit that HEAD names. `info` is what the repository says of it, or why it does not.
pub fn head_sha(info: Result<Option<String>, String>) -> (r: Result<String, ToolError>)
    ensures
        match r {
            Ok(sha) => info is Ok && info->Ok_0 == Some(sha),
            Err(e) => e is Internal && match info {
                Ok(None) => e.text() == "repository has no HEAD"@,
                Ok(Some(_)) => false,
                Err(why) => e.text() == "HEAD: "@ + why@,
            },
        },
{
    match info {
        Ok(Some(sha)) => Ok(sha),
        Ok(None) => Err(ToolError::Internal(String::from_str("repository has no HEAD"))),
        Err(why) => {
            let mut t = String::from_str("HEAD: ");
            t.append(why.as_str());
            Err(ToolError::Internal(t))
        },
    }
}

/// Whether the history index answers for this HEAD: only where it was built for exactly this commit.
pub fn git_history_if_fresh(last_indexed: &Option<String>, head: &str) -> (fresh: bool)
    ensures
        fresh == (opt_text(*last_indexed) == Some(head@)),
{
    opt_is(last_indexed, head)
}

// ─── Commits ─────────────────────────────────────────────────────────────────

/// How a commit changed a file.
#[derive(Debug, Clone, Copy, PartialEq, Eq, Structural)]
pub enum ChangeKind {
    Added,
    Modified,
    Deleted,
    Renamed,
}

/// A file that a commit changed.
#[derive(Debug)]
pub struct CommitFile {
    pub path: RelPath,
    pub change: ChangeKind,
}

/// A commit.
#[derive(Debug)]
pub struct CommitInfo {
    pub sha: String,
    pub short_sha: String,
    pub summary: String,
    pub author: String,
    pub author_time_unix: i64,
    pub files: Vec<CommitFile>,
}

/// A commit as an answer shows it.
#[derive(Debug)]
pub struct CommitView {
    pub sha: String,
    pub short_sha: String,
    pub summary: String,
    pub author: String,
    pub author_time_unix: i64,
    pub files: Option<Vec<CommitFile>>,
}

/// A commit as an answer shows it, with its files where they are asked for.
pub fn commit_to_view(c: CommitInfo, include_files: bool) -> (v: CommitView)
    ensures
        v.sha == c.sha,
        v.short_sha == c.short_sha,
        v.summary == c.summary,
        v.author == c.author,
        v.author_time_unix == c.author_time_unix,
        v.files == (if include_files {
            Some(c.files)
        } else {
            None
        }),
{
    let files = if include_files {
        Some(c.files)
    } else {
        None
    };
    CommitView {
        sha: c.sha,
        short_sha: c.short_sha,
        summary: c.summary,
        author: c.author,
        author_time_unix: c.author_time_unix,
        files,
    }
}

// ─── Blame ───────────────────────────────────────────────────────────────────

/// Lines that one commit last changed.
#[derive(Debug)]
pub struct BlameHunk {
    pub commit_sha: String,
    pub short_sha: String,
    pub start_line: u32,
    pub len: u32,
    pub source_start_line: u32,
    pub author: String,
    pub author_time_unix: i64,
    pub summary: String,
    pub source_path: Option<RelPath>,
}

/// What a hunk says.
pub struct HunkFact {
    pub commit_sha: Seq<char>,
    pub short_sha: Seq<char>,
    pub start_line: u32,
    pub len: u32,
    pub source_start_line: u32,
    pub author: Seq<char>,
    pub author_time_unix: i64,
    pub summary: Seq<char>,
    pub source_path: Option<Seq<u8>>,
}

impl View for BlameHunk {
    type V = HunkFact;

    open spec fn view(&self) -> HunkFact {
        HunkFact {
            commit_sha: self.commit_sha@,
            short_sha: self.short_sha@,
            start_line: self.start_line,
            len: self.len,
            source_start_line: self.source_start_line,
            author: self.author@,
            author_time_unix: self.author_time_unix,
            summary: self.summary@,
            source_path: match self.source_path {
                Some(p) => Some(p@),
                None => None,
            },
        }
    }
}

/// A hunk as an answer shows it.
pub fn blame_hunk_view(h: &BlameHunk) -> (v: BlameHunk)
    ensures
        v@ == h@,
{
    BlameHunk {
        commit_sha: h.commit_sha.clone(),
        short_sha: h.short_sha.clone(),
        start_line: h.start_line,
        len: h.len,
        source_start_line: h.source_start_line,
        author: h.author.clone(),
        author_time_unix: h.author_time_unix,
        summary: h.summary.clone(),
        source_path: match &h.source_path {
            Some(p) => Some(p.copy()),
            None => None,
        },
    }
}

/// The condition that a hunk starts after a line.
pub open spec fn starts_after(line: u32) -> spec_fn(BlameHunk) -> bool {
    |h: BlameHunk| h.start_line > line
}

/// How many hunks a page holds: all of them where no limit is asked for.
pub open spec fn page_size(limit: Option<u32>, n: int) -> int {
    match limit {
        Some(l) => least(n, least(l as int, BLAME_LIMIT_MAX as int)),
        None => n,
    }
}

/// `hunks` and `cursor` are the page over `rest`: the first of them, and a cursor at the line of the
/// last one shown where there are more.
pub open spec fn is_blame_page(
    hunks: Seq<BlameHunk>,
    cursor: Option<Cursor>,
    rest: Seq<BlameHunk>,
    limit: Option<u32>,
) -> bool {
    let n = page_size(limit, rest.len() as int);
    &&& hunks.len() == n
    &&& forall|i: int| 0 <= i < n ==> (#[trigger] hunks[i])@ == rest[i]@
    &&& match cursor {
        Some(c) => n < rest.len() && c.0@ == in_memory_text(
            if n > 0 {
                rest[n - 1].start_line as u64
            } else {
                0
            },
            0,
        ),
        None => n == rest.len(),
    }
}

/// A page of blame: the hunks that start after a line. The cursor holds the line of the last hunk
/// shown, after which the next page goes on.
pub fn paginate_blame_hunks(hunks: &Vec<BlameHunk>, resume_after: u32, limit: Option<u32>) -> (page: (
    Vec<BlameHunk>,
    Option<Cursor>,
))
    ensures
        is_blame_page(page.0@, page.1, hunks@.filter(starts_after(resume_after)), limit),
{
    let ghost p = starts_after(resume_after);
    let cap: Option<usize> = match limit {
        Some(l) => Some(
            if l < BLAME_LIMIT_MAX {
                l as usize
            } else {
                BLAME_LIMIT_MAX as usize
            },
        ),
        None => None,
    };
    let mut out: Vec<BlameHunk> = Vec::new();
    let mut last_line: u32 = 0;
    let mut has_more: bool = false;
    let mut i: usize = 0;
    proof {
        reveal(Seq::filter);
        assert(hunks@.take(0).filter(p) =~= Seq::empty());
    }
    while i < hunks.len() && !has_more
        invariant
            i <= hunks@.len(),
            p == starts_after(resume_after),
            cap == (match limit {
                Some(l) => Some(least(l as int, BLAME_LIMIT_MAX as int) as usize),
                None => None,
            }),
            cap is Some ==> out@.len() <= cap->0,
            ({
                let seen = hunks@.take(i as int).filter(p);
                if has_more {
                    &&& cap == Some(out@.len() as usize)
                    &&& seen.len() == out@.len() + 1
                } else {
                    seen.len() == out@.len()
                }
            }),
            forall|k: int|
                0 <= k < out@.len() ==> (#[trigger] out@[k])@ == hunks@.take(i as int).filter(p)[k]@,
            last_line == (if out@.len() > 0 {
                hunks@.take(i as int).filter(p)[out@.len() - 1].start_line
            } else {
                0
            }),
        decreases hunks@.len() - i,
    {
        let h = &hunks[i];
        let ghost was = hunks@.take(i as int).filter(p);
        proof {
            lemma_filter_take(hunks@, i as int, p);
        }
        if h.start_line > resume_after {
            assert(hunks@.take(i + 1).filter(p) == was.push(*h));
            let full: bool = match cap {
                Some(c) => out.len() >= c,
                None => false,
            };
            if full {
                has_more = true;
            } else {
                last_line = h.start_line;
                out.push(blame_hunk_view(h));
            }
        }
        i += 1;
    }
    let ghost all = hunks@.filter(p);
    proof {
        let seen = hunks@.take(i as int).filter(p);
        crate::seqs::lemma_filter_prefix(hunks@, i as int, p);
        if i == hunks@.len() {
            assert(hunks@.take(i as int) =~= hunks@);
        }
        assert forall|k: int| 0 <= k < seen.len() implies seen[k] == all[k] by {
            assert(all.take(seen.len() as int)[k] == all[k]);
        }
    }
    let next_cursor = if has_more {
        Some(Cursor::encode_in_memory(last_line as u64, 0))
    } else {
        None
    };
    (out, next_cursor)
}

/// The answer to a request for blame.
#[derive(Debug)]
pub struct BlameResponse {
    pub path: RelPath,
    pub suspect_sha: String,
    pub hunks: Vec<BlameHunk>,
    pub truncated: bool,
    pub truncated_reason: Option<&'static str>,
    pub next_cursor: Option<Cursor>,
}

/// The answer where a file is too large to blame; none where blame failed for another reason.
pub fn blame_too_large_response(path: &RelPath, suspect_sha: &str, too_large: bool) -> (r: Option<
    BlameResponse,
>)
    ensures
        match r {
            Some(out) => too_large && out.path@ == path@ && out.suspect_sha@ == suspect_sha@
                && out.hunks@.len() == 0 && out.truncated && out.truncated_reason is Some
                && out.truncated_reason->0@ == "too_large"@ && out.next_cursor is None,
            None => !too_large,
        },
{
    if too_large {
        Some(
            BlameResponse {
                path: path.copy(),
                suspect_sha: suspect_sha.to_string(),
                hunks: Vec::new(),
                truncated: true,
                truncated_reason: Some("too_large"),
                next_cursor: None,
            },
        )
    } else {
        None
    }
}

/// The answer to a request for the blame of a symbol.
#[derive(Debug)]
pub struct BlameSymbolResponse {
    pub path: RelPath,
    pub suspect_sha: String,
    pub name: String,
    pub kind: &'static str,
    pub line_start: u32,
    pub line_end: u32,
    pub hunks: Vec<BlameHunk>,
    pub truncated: bool,
    pub truncated_reason: Option<&'static str>,
    pub next_cursor: Option<Cursor>,
}

/// The answer where the file of a symbol is too large to blame; none where blame failed for another
/// reason.
pub fn blame_symbol_too_large_response(
    path: &RelPath,
    suspect_sha: &str,
    sym: &Symbol,
    line_start: u32,
    line_end: u32,
    too_large: bool,
) -> (r: Option<BlameSymbolResponse>)
    ensures
        match r {
            Some(out) => {
                &&& too_large
                &&& out.path@ == path@
                &&& out.suspect_sha@ == suspect_sha@
                &&& out.name@ == sym.name@
                &&& out.kind@ == kind_name(sym.kind)
                &&& out.line_start == line_start
                &&& out.line_end == line_end
                &&& out.hunks@.len() == 0
                &&& out.truncated
                &&& out.truncated_reason is Some
                &&& out.truncated_reason->0@ == "too_large"@
                &&& out.next_cursor is None
            },
            None => !too_large,
        },
{
    if too_large {
        Some(
            BlameSymbolResponse {
                path: path.copy(),
                suspect_sha: suspect_sha.to_string(),
                name: sym.name.clone(),
                kind: kind_to_str(sym.kind),
                line_start,
                line_end,
                hunks: Vec::new(),
                truncated: true,
                truncated_reason: Some("too_large"),
                next_cursor: None,
            },
        )
    } else {
        None
    }
}

// ─── The lines of a symbol ───────────────────────────────────────────────────

/// The blob whose lines are blamed: that of HEAD, else the staged one, else the file on disk, else
/// nothing.
pub open spec fn blamed_bytes(
    head: Option<Seq<u8>>,
    staged: Option<Seq<u8>>,
    working: Option<Seq<u8>>,
) -> Seq<u8> {
    match (head, staged, working) {
        (Some(b), _, _) => b,
        (None, Some(b), _) => b,
        (None, None, Some(b)) => b,
        (None, None, None) => Seq::empty(),
    }
}

/// The 1-based first and last line of a symbol in the blob that is blamed.
pub fn symbol_line_range(
    head: Option<&[u8]>,
    staged: Option<&[u8]>,
    working: Option<&[u8]>,
    sym: &Symbol,
) -> (lines: (u32, u32))
    requires
        sym.start_row + 1 + blamed_bytes(
            cursor_bytes(head),
            cursor_bytes(staged),
            cursor_bytes(working),
        ).len() <= u32::MAX,
    ensures
        lines.0 == sym.start_row + 1,
        lines.1 == sym.start_row + 1 + count_of(
            10,
            symbol_bytes(
                *sym,
                blamed_bytes(cursor_bytes(head), cursor_bytes(staged), cursor_bytes(working)),
            ),
        ),
{
    let nothing: Vec<u8> = Vec::new();
    let bytes = match head {
        Some(b) => b,
        None => match staged {
            Some(b) => b,
            None => match working {
                Some(b) => b,
                None => nothing.as_slice(),
            },
        },
    };
    assert(bytes@ =~= blamed_bytes(
        cursor_bytes(head),
        cursor_bytes(staged),
        cursor_bytes(working),
    ));
    line_range_in_blob(sym, bytes)
}

// ─── Laws ────────────────────────────────────────────────────────────────────

/// Hunks come in the order of their lines.
pub open spec fn lines_ascend(hunks: Seq<BlameHunk>) -> bool {
    forall|i: int, j: int|
        0 <= i < j < hunks.len() ==> (#[trigger] hunks[i]).start_line < (
        #[trigger] hunks[j]).start_line
}

spec fn first_after(hunks: Seq<BlameHunk>, line: u32) -> int
    decreases hunks.len(),
{
    if hunks.len() == 0 || hunks.last().start_line <= line {
        hunks.len() as int
    } else {
        first_after(hunks.drop_last(), line)
    }
}

proof fn lemma_first_after(hunks: Seq<BlameHunk>, line: u32)
    requires
        lines_ascend(hunks),
    ensures
        0 <= first_after(hunks, line) <= hunks.len(),
        forall|i: int|
            0 <= i < hunks.len() ==> ((#[trigger] hunks[i]).start_line > line) == (i
                >= first_after(hunks, line)),
    decreases hunks.len(),
{
    if hunks.len() > 0 {
        let front = hunks.drop_last();
        assert(lines_ascend(front)) by {
            assert forall|i: int, j: int| 0 <= i < j < front.len() implies (
            #[trigger] front[i]).start_line < (#[trigger] front[j]).start_line by {
                assert(hunks[i].start_line < hunks[j].start_line);
            }
        }
        lemma_first_after(front, line);
        assert forall|i: int| 0 <= i < hunks.len() implies ((#[trigger] hunks[i]).start_line > line)
            == (i >= first_after(hunks, line)) by {
            let last = hunks.len() - 1;
            if i < last {
                assert(hunks[i].start_line < hunks[last].start_line);
                assert(front[i] == hunks[i]);
            }
        }
    }
}

proof fn lemma_after_is_suffix(hunks: Seq<BlameHunk>, line: u32)
    requires
        lines_ascend(hunks),
    ensures
        hunks.filter(starts_after(line)) == hunks.skip(first_after(hunks, line)),
        0 <= first_after(hunks, line) <= hunks.len(),
{
    let a = first_after(hunks, line);
    let p = starts_after(line);
    let all = |h: BlameHunk| true;
    lemma_first_after(hunks, line);
    assert forall|i: int| 0 <= i < hunks.len() implies p(#[trigger] hunks[i]) == (a <= i
        < hunks.len()) by {}
    lemma_filter_window(hunks, a, hunks.len() as int, p, all);
    lemma_filter_agree(hunks, p, |h: BlameHunk| p(h) && all(h));
    lemma_filter_all(hunks.subrange(a, hunks.len() as int), all);
    assert(hunks.subrange(a, hunks.len() as int) =~= hunks.skip(a));
}

/// Paging blame neither skips nor repeats a hunk: from the line of a page's last hunk on, the hunks
/// are those that the page left out.
pub proof fn law_blame_pages_chain(hunks: Seq<BlameHunk>, resume_after: u32, n: int)
    requires
        lines_ascend(hunks),
        0 < n <= hunks.filter(starts_after(resume_after)).len(),
    ensures
        hunks.filter(
            starts_after(hunks.filter(starts_after(resume_after))[n - 1].start_line),
        ) == hunks.filter(starts_after(resume_after)).skip(n),
{
    let rest = hunks.filter(starts_after(resume_after));
    let a = first_after(hunks, resume_after);
    lemma_after_is_suffix(hunks, resume_after);
    let line = rest[n - 1].start_line;
    assert(rest[n - 1] == hunks[a + n - 1]);
    let b = first_after(hunks, line);
    lemma_after_is_suffix(hunks, line);
    lemma_first_after(hunks, line);
    assert(b == a + n) by {
        assert(!(hunks[a + n - 1].start_line > line));
        if b > a + n {
            assert(hunks[a + n - 1].start_line < hunks[a + n].start_line);
        }
    }
    assert(hunks.skip(b) =~= rest.skip(n));
}

} // verus!
