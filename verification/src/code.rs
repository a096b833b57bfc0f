//! Code search: which lane answers, and how a chunk is picked.
use vstd::prelude::*;

use crate::budget::{apply_budget, is_kept_count};
use crate::model::ToolError;
use crate::numbers::{
    all_digits, lemma_decimal_reads_back, number_of, parse_number, unsigned_digits,
};
use crate::text::{
    decimal, decimal_of, from_range, join, joined, lower_of, opt_str, quoted, quoted_text, same_str,
    str_lower, str_trim, texts, to_chars, trim_of,
};

verus! {

// ─── Requests ────────────────────────────────────────────────────────────────

/// Whether an answer is wanted as TOON: as asked for, else as configured.
pub open spec fn toon_wanted(format: Option<Seq<char>>, configured: bool) -> bool {
    match format {
        Some(f) => if lower_of(trim_of(f)) == "toon"@ {
            true
        } else if lower_of(trim_of(f)) == "json"@ {
            false
        } else {
            configured
        },
        None => configured,
    }
}

/// Whether an answer is wanted as TOON. `configured` is what the configuration says.
pub fn wants_toon(format: Option<&str>, configured: bool) -> (yes: bool)
    ensures
        yes == toon_wanted(opt_str(format), configured),
{
    match format {
        Some(f) => {
            let low = str_lower(str_trim(f).as_str());
            if same_str(low.as_str(), "toon") {
                true
            } else if same_str(low.as_str(), "json") {
                false
            } else {
                configured
            }
        },
        None => configured,
    }
}

/// How code is searched.
#[derive(Debug, Clone, Copy, PartialEq, Eq, Structural)]
pub enum SearchLane {
    /// By meaning.
    Semantic,
    /// By the words of each chunk.
    Keyword,
}

/// The mode of a request, trimmed; by meaning where none is given.
pub open spec fn mode_text(mode: Option<Seq<char>>) -> Seq<char> {
    match mode {
        Some(m) => trim_of(m),
        None => "semantic"@,
    }
}

/// The lane of a request. A mode that does not exist is refused.
pub fn search_lane(mode: Option<&str>) -> (r: Result<SearchLane, ToolError>)
    ensures
        ({
            let m = mode_text(opt_str(mode));
            match r {
                Ok(SearchLane::Semantic) => m.len() == 0 || lower_of(m) == "semantic"@,
                Ok(SearchLane::Keyword) => m.len() > 0 && lower_of(m) == "keyword"@,
                Err(e) => m.len() > 0 && lower_of(m) != "semantic"@ && lower_of(m) != "keyword"@
                    && e is InvalidRequest && e.text() == "search_code: unknown mode "@
                    + quoted_text(m) + "; valid modes are \"semantic\" or \"keyword\""@,
            }
        }),
{
    let m = match mode {
        Some(s) => str_trim(s),
        None => String::from_str("semantic"),
    };
    let low = str_lower(m.as_str());
    assert(lower_of(m@).len() == m@.len());
    proof {
        reveal_strlit("semantic");
        reveal_strlit("keyword");
        reveal_strlit("");
        assert("semantic"@.len() == 8);
        assert("keyword"@.len() == 7);
        assert(""@.len() == 0);
        if m@.len() == 0 {
            assert(m@ =~= ""@);
        }
    }
    if same_str(m.as_str(), "") || same_str(low.as_str(), "semantic") {
        return Ok(SearchLane::Semantic);
    }
    if same_str(low.as_str(), "keyword") {
        return Ok(SearchLane::Keyword);
    }
    let mut t = String::from_str("search_code: unknown mode ");
    t.append(quoted(m.as_str()).as_str());
    t.append("; valid modes are \"semantic\" or \"keyword\"");
    Err(ToolError::InvalidRequest(t))
}

// ─── Chunk ids ───────────────────────────────────────────────────────────────

/// The position of the last `c` in `s`, or -1.
pub open spec fn last_of(s: Seq<char>, c: char) -> int
    decreases s.len(),
{
    if s.len() == 0 {
        -1
    } else if s.last() == c {
        s.len() - 1
    } else {
        last_of(s.drop_last(), c)
    }
}

/// The content hash and the ordinal inside a chunk id: what stands before and after its last colon.
pub open spec fn chunk_parts(id: Seq<char>) -> Option<(Seq<char>, int)> {
    let at = last_of(id, ':');
    if at < 0 {
        None
    } else {
        match number_of(id.skip(at + 1), usize::MAX as int) {
            Some(n) => Some((id.take(at), n)),
            None => None,
        }
    }
}

/// Split a chunk id into content hash and ordinal.
pub fn split_chunk_id(id: &str) -> (parts: Option<(String, usize)>)
    ensures
        match parts {
            Some(p) => chunk_parts(id@) == Some((p.0@, p.1 as int)),
            None => chunk_parts(id@) is None,
        },
{
    let chars = to_chars(id);
    let mut n: usize = chars.len();
    assert(id@.take(n as int) =~= id@);
    while n > 0 && chars[n - 1] != ':'
        invariant
            chars@ == id@,
            n <= chars@.len(),
            last_of(id@, ':') == last_of(id@.take(n as int), ':'),
        decreases n,
    {
        assert(id@.take(n as int).drop_last() =~= id@.take(n - 1));
        n -= 1;
    }
    if n == 0 {
        return None;
    }
    assert(id@.take(n as int).last() == ':');
    let hash = from_range(chars.as_slice(), 0, n - 1);
    let tail = from_range(chars.as_slice(), n, chars.len());
    proof {
        assert(hash@ =~= id@.take(n - 1));
        assert(tail@ =~= id@.skip(n as int));
    }
    match parse_number(tail.as_str()) {
        Some(v) => if v <= usize::MAX as u64 {
            Some((hash, v as usize))
        } else {
            None
        },
        None => None,
    }
}

// ─── Chunks ──────────────────────────────────────────────────────────────────

/// A chunk of a file.
#[derive(Debug)]
pub struct CodeChunk {
    pub path: String,
    pub chunk_id: String,
    pub symbol: Option<String>,
    pub kind: Option<String>,
    pub lang: String,
    pub signature: Option<String>,
    pub doc: Option<String>,
    pub line_start: u32,
    pub line_end: u32,
    pub byte_start: u32,
    pub byte_end: u32,
    pub text: String,
}

/// What the store says when the chunks of a file are asked for.
#[derive(Debug)]
pub enum ChunkLookup {
    NotIndexed,
    /// The blob could not be read, for this reason.
    Failed(String),
    /// The file has no chunk blob.
    Missing,
    Found(Vec<CodeChunk>),
}

/// A request for a chunk.
#[derive(Debug)]
pub struct GetChunkParams {
    pub path: String,
    pub chunk_id: Option<String>,
    pub byte_start: Option<u32>,
}

/// `i` is the first chunk with this id.
pub open spec fn is_first_with_id(chunks: Seq<CodeChunk>, id: Seq<char>, i: int) -> bool {
    &&& 0 <= i < chunks.len()
    &&& chunks[i].chunk_id@ == id
    &&& forall|j: int| 0 <= j < i ==> (#[trigger] chunks[j]).chunk_id@ != id
}

/// `i` is the first chunk that starts at this byte.
pub open spec fn is_first_at(chunks: Seq<CodeChunk>, start: u32, i: int) -> bool {
    &&& 0 <= i < chunks.len()
    &&& chunks[i].byte_start == start
    &&& forall|j: int| 0 <= j < i ==> (#[trigger] chunks[j]).byte_start != start
}

/// The ids of chunks.
pub open spec fn chunk_ids(chunks: Seq<CodeChunk>) -> Seq<Seq<char>> {
    Seq::new(chunks.len(), |i: int| chunks[i].chunk_id@)
}

/// Chunk `i` is the one that a request means: the one with its id; else the one at its byte; else the
/// only one.
pub open spec fn is_picked(chunks: Seq<CodeChunk>, params: GetChunkParams, i: int) -> bool {
    match (params.chunk_id, params.byte_start) {
        (Some(id), _) => is_first_with_id(chunks, id@, i),
        (None, Some(start)) => is_first_at(chunks, start, i),
        (None, None) => chunks.len() == 1 && i == 0,
    }
}

/// The text in which a request is refused that means no chunk, or more than one.
pub open spec fn pick_error(chunks: Seq<CodeChunk>, params: GetChunkParams) -> Seq<char> {
    if chunks.len() == 0 {
        "get_chunk: "@ + params.path@ + " has no chunks"@
    } else {
        match (params.chunk_id, params.byte_start) {
            (Some(id), _) => "get_chunk: chunk_id "@ + quoted_text(id@) + " not found in "@
                + params.path@,
            (None, Some(start)) => "get_chunk: no chunk at byte_start "@ + decimal(start as nat)
                + " in "@ + params.path@,
            (None, None) => "get_chunk: "@ + params.path@ + " has "@ + decimal(chunks.len())
                + " chunks; pass `chunk_id` or `byte_start` to disambiguate: "@ + joined(
                chunk_ids(chunks),
                ", "@,
            ),
        }
    }
}

fn pick_chunk(chunks: &Vec<CodeChunk>, params: &GetChunkParams) -> (r: Result<usize, ToolError>)
    ensures
        match r {
            Ok(i) => is_picked(chunks@, *params, i as int) && i < chunks@.len(),
            Err(e) => (forall|i: int| !is_picked(chunks@, *params, i)) && e is InvalidParams && e.text()
                == pick_error(chunks@, *params),
        },
{
    if chunks.len() == 0 {
        let mut t = String::from_str("get_chunk: ");
        t.append(params.path.as_str());
        t.append(" has no chunks");
        return Err(ToolError::InvalidParams(t));
    }
    match (&params.chunk_id, params.byte_start) {
        (Some(id), _) => {
            let mut i: usize = 0;
            while i < chunks.len()
                invariant
                    i <= chunks@.len(),
                    params.chunk_id == Some(*id),
                    forall|j: int| 0 <= j < i ==> (#[trigger] chunks@[j]).chunk_id@ != id@,
                decreases chunks@.len() - i,
            {
                if same_str(chunks[i].chunk_id.as_str(), id.as_str()) {
                    return Ok(i);
                }
                i += 1;
            }
            let mut t = String::from_str("get_chunk: chunk_id ");
            t.append(quoted(id.as_str()).as_str());
            t.append(" not found in ");
            t.append(params.path.as_str());
            Err(ToolError::InvalidParams(t))
        },
        (None, Some(start)) => {
            let mut i: usize = 0;
            while i < chunks.len()
                invariant
                    i <= chunks@.len(),
                    params.chunk_id is None,
                    params.byte_start == Some(start),
                    forall|j: int| 0 <= j < i ==> (#[trigger] chunks@[j]).byte_start != start,
                decreases chunks@.len() - i,
            {
                if chunks[i].byte_start == start {
                    return Ok(i);
                }
                i += 1;
            }
            let mut t = String::from_str("get_chunk: no chunk at byte_start ");
            t.append(decimal_of(start as u64).as_str());
            t.append(" in ");
            t.append(params.path.as_str());
            Err(ToolError::InvalidParams(t))
        },
        (None, None) => {
            if chunks.len() == 1 {
                return Ok(0);
            }
            let mut ids: Vec<String> = Vec::new();
            let mut i: usize = 0;
            while i < chunks.len()
                invariant
                    i <= chunks@.len(),
                    ids@.len() == i,
                    forall|j: int| 0 <= j < i ==> (#[trigger] ids@[j])@ == chunks@[j].chunk_id@,
                decreases chunks@.len() - i,
            {
                ids.push(chunks[i].chunk_id.clone());
                i += 1;
            }
            assert(texts(ids@) =~= chunk_ids(chunks@));
            let mut t = String::from_str("get_chunk: ");
            t.append(params.path.as_str());
            t.append(" has ");
            t.append(decimal_of(chunks.len() as u64).as_str());
            t.append(" chunks; pass `chunk_id` or `byte_start` to disambiguate: ");
            t.append(join(ids.as_slice(), ", ").as_str());
            Err(ToolError::InvalidParams(t))
        },
    }
}

/// The text in which a request is refused whose file has no chunks to pick from.
pub open spec fn lookup_error(path: Seq<char>, l: ChunkLookup) -> Option<Seq<char>> {
    match l {
        ChunkLookup::NotIndexed => Some("get_chunk: file not indexed: "@ + path),
        ChunkLookup::Failed(why) => Some("get_chunk: read chunk blob: "@ + why@),
        ChunkLookup::Missing => Some(
            "get_chunk: no code chunks indexed for "@ + path
                + " (scan with --features code-search)"@,
        ),
        ChunkLookup::Found(_) => None,
    }
}

/// Pick the chunk that a request means.
pub fn run_get_chunk<'a>(lookup: &'a ChunkLookup, params: &GetChunkParams) -> (r: Result<
    &'a CodeChunk,
    ToolError,
>)
    ensures
        match r {
            Ok(c) => lookup matches ChunkLookup::Found(chunks) && exists|i: int| #[trigger]
                is_picked(chunks@, *params, i) && *c == chunks@[i],
            Err(e) => match lookup {
                ChunkLookup::Found(chunks) => (forall|i: int| !is_picked(chunks@, *params, i))
                    && e is InvalidParams && e.text() == pick_error(chunks@, *params),
                ChunkLookup::Failed(_) => e is Internal && lookup_error(params.path@, *lookup)
                    == Some(e.text()),
                _ => e is InvalidParams && lookup_error(params.path@, *lookup) == Some(e.text()),
            },
        },
{
    match lookup {
        ChunkLookup::NotIndexed => {
            let mut t = String::from_str("get_chunk: file not indexed: ");
            t.append(params.path.as_str());
            Err(ToolError::InvalidParams(t))
        },
        ChunkLookup::Failed(why) => {
            let mut t = String::from_str("get_chunk: read chunk blob: ");
            t.append(why.as_str());
            Err(ToolError::Internal(t))
        },
        ChunkLookup::Missing => {
            let mut t = String::from_str("get_chunk: no code chunks indexed for ");
            t.append(params.path.as_str());
            t.append(" (scan with --features code-search)");
            Err(ToolError::InvalidParams(t))
        },
        ChunkLookup::Found(chunks) => match pick_chunk(chunks, params) {
            Ok(i) => {
                assert(is_picked(chunks@, *params, i as int));
                Ok(&chunks[i])
            },
            Err(e) => Err(e),
        },
    }
}

// ─── Keyword hits ────────────────────────────────────────────────────────────

/// A chunk that the keyword index ranks; `score_bits` are the bits of its score.
#[derive(Debug)]
pub struct RankedChunk {
    pub chunk_id: String,
    pub score_bits: u32,
}

/// The chunks of one file content, as far as they could be read.
#[derive(Debug)]
pub struct ChunkBlob {
    pub hash: String,
    pub chunks: Vec<CodeChunk>,
}

/// A hit of a code search. The bits of its distance come with a search by meaning, those of its score
/// with a search by words.
#[derive(Debug)]
pub struct CodeSearchHit {
    pub path: String,
    pub chunk_id: String,
    pub symbol: String,
    pub kind: String,
    pub lang: String,
    pub line_start: u32,
    pub line_end: u32,
    pub byte_start: u32,
    pub byte_end: u32,
    pub distance_bits: Option<u32>,
    pub score_bits: Option<u32>,
}

/// `i` is the first blob with this hash.
pub open spec fn is_blob_of(blobs: Seq<ChunkBlob>, hash: Seq<char>, i: int) -> bool {
    &&& 0 <= i < blobs.len()
    &&& blobs[i].hash@ == hash
    &&& forall|j: int| 0 <= j < i ==> (#[trigger] blobs[j]).hash@ != hash
}

/// The first blob with this hash.
pub open spec fn blob_of(blobs: Seq<ChunkBlob>, hash: Seq<char>) -> Option<ChunkBlob> {
    if exists|i: int| is_blob_of(blobs, hash, i) {
        Some(blobs[choose|i: int| is_blob_of(blobs, hash, i)])
    } else {
        None
    }
}

/// The chunk that a ranked id stands for, if it can be found.
pub open spec fn chunk_of(blobs: Seq<ChunkBlob>, id: Seq<char>) -> Option<CodeChunk> {
    match chunk_parts(id) {
        None => None,
        Some(p) => match blob_of(blobs, p.0) {
            Some(b) => if 0 <= p.1 < b.chunks@.len() {
                Some(b.chunks@[p.1])
            } else {
                None
            },
            None => None,
        },
    }
}

/// The text, or nothing.
pub open spec fn or_empty(s: Option<String>) -> Seq<char> {
    match s {
        Some(t) => t@,
        None => ""@,
    }
}

/// `h` points at the chunk `c`, ranked as `r` says.
pub open spec fn points_at(h: CodeSearchHit, c: CodeChunk, r: RankedChunk) -> bool {
    &&& h.path@ == c.path@
    &&& h.chunk_id@ == r.chunk_id@
    &&& h.symbol@ == or_empty(c.symbol)
    &&& h.kind@ == or_empty(c.kind)
    &&& h.lang@ == c.lang@
    &&& h.line_start == c.line_start
    &&& h.line_end == c.line_end
    &&& h.byte_start == c.byte_start
    &&& h.byte_end == c.byte_end
    &&& h.distance_bits is None
    &&& h.score_bits == Some(r.score_bits)
}

/// The ranks of the first `n` ids whose chunk can be found.
pub open spec fn found_upto(raw: Seq<RankedChunk>, blobs: Seq<ChunkBlob>, n: int) -> Seq<int>
    decreases n,
{
    if n <= 0 {
        Seq::empty()
    } else if chunk_of(blobs, raw[n - 1].chunk_id@) is Some {
        found_upto(raw, blobs, n - 1).push(n - 1)
    } else {
        found_upto(raw, blobs, n - 1)
    }
}

fn find_chunk<'a>(blobs: &'a Vec<ChunkBlob>, id: &str) -> (c: Option<&'a CodeChunk>)
    ensures
        match c {
            Some(x) => chunk_of(blobs@, id@) == Some(*x),
            None => chunk_of(blobs@, id@) is None,
        },
{
    let (hash, ordinal) = match split_chunk_id(id) {
        Some(p) => p,
        None => {
            return None;
        },
    };
    let mut i: usize = 0;
    while i < blobs.len()
        invariant
            i <= blobs@.len(),
            chunk_parts(id@) == Some((hash@, ordinal as int)),
            forall|j: int| 0 <= j < i ==> (#[trigger] blobs@[j]).hash@ != hash@,
        decreases blobs@.len() - i,
    {
        if same_str(blobs[i].hash.as_str(), hash.as_str()) {
            proof {
                assert(is_blob_of(blobs@, hash@, i as int));
                let k = choose|k: int| is_blob_of(blobs@, hash@, k);
                assert(k == i);
            }
            assert(blob_of(blobs@, hash@) == Some(blobs@[i as int]));
            let chunks = &blobs[i].chunks;
            if ordinal < chunks.len() {
                return Some(&chunks[ordinal]);
            }
            return None;
        }
        i += 1;
    }
    None
}

fn text_or_empty(s: &Option<String>) -> (t: String)
    ensures
        t@ == or_empty(*s),
{
    match s {
        Some(x) => x.clone(),
        None => String::from_str(""),
    }
}

/// The hits of a search by words: each ranked id with its chunk, in rank order. Ids whose chunk
/// cannot be found are passed over.
pub fn keyword_hits(raw: &Vec<RankedChunk>, blobs: &Vec<ChunkBlob>) -> (hits: Vec<CodeSearchHit>)
    ensures
        hits@.len() == found_upto(raw@, blobs@, raw@.len() as int).len(),
        forall|k: int|
            #![trigger hits@[k]]
            0 <= k < hits@.len() ==> ({
                let r = raw@[found_upto(raw@, blobs@, raw@.len() as int)[k]];
                points_at(hits@[k], chunk_of(blobs@, r.chunk_id@)->0, r)
            }),
{
    let mut hits: Vec<CodeSearchHit> = Vec::new();
    let mut i: usize = 0;
    while i < raw.len()
        invariant
            i <= raw@.len(),
            hits@.len() == found_upto(raw@, blobs@, i as int).len(),
            forall|k: int|
                #![trigger hits@[k]]
                0 <= k < hits@.len() ==> ({
                    let r = raw@[found_upto(raw@, blobs@, i as int)[k]];
                    points_at(hits@[k], chunk_of(blobs@, r.chunk_id@)->0, r)
                }),
        decreases raw@.len() - i,
    {
        let r = &raw[i];
        match find_chunk(blobs, r.chunk_id.as_str()) {
            Some(c) => {
                assert(found_upto(raw@, blobs@, i + 1) == found_upto(raw@, blobs@, i as int).push(
                    i as int,
                ));
                hits.push(
                    CodeSearchHit {
                        path: c.path.clone(),
                        chunk_id: r.chunk_id.clone(),
                        symbol: text_or_empty(&c.symbol),
                        kind: text_or_empty(&c.kind),
                        lang: c.lang.clone(),
                        line_start: c.line_start,
                        line_end: c.line_end,
                        byte_start: c.byte_start,
                        byte_end: c.byte_end,
                        distance_bits: None,
                        score_bits: Some(r.score_bits),
                    },
                );
            },
            None => {},
        }
        i += 1;
    }
    hits
}

// ─── Hits by meaning ─────────────────────────────────────────────────────────

/// A chunk that lies near the query; `distance_bits` are the bits of its distance.
#[derive(Debug)]
pub struct NearChunk {
    pub path: String,
    pub chunk_id: String,
    pub symbol: String,
    pub kind: String,
    pub lang: String,
    pub line_start: u32,
    pub line_end: u32,
    pub byte_start: u32,
    pub byte_end: u32,
    pub distance_bits: u32,
}

/// The hit that a near chunk becomes.
pub open spec fn is_near_hit(h: CodeSearchHit, c: NearChunk) -> bool {
    &&& h.path@ == c.path@
    &&& h.chunk_id@ == c.chunk_id@
    &&& h.symbol@ == c.symbol@
    &&& h.kind@ == c.kind@
    &&& h.lang@ == c.lang@
    &&& h.line_start == c.line_start
    &&& h.line_end == c.line_end
    &&& h.byte_start == c.byte_start
    &&& h.byte_end == c.byte_end
    &&& h.distance_bits == Some(c.distance_bits)
    &&& h.score_bits is None
}

/// The hits of a search by meaning, in the order of the chunks.
pub fn semantic_hits(raw: &Vec<NearChunk>) -> (hits: Vec<CodeSearchHit>)
    ensures
        hits@.len() == raw@.len(),
        forall|k: int| 0 <= k < hits@.len() ==> is_near_hit(#[trigger] hits@[k], raw@[k]),
{
    let mut hits: Vec<CodeSearchHit> = Vec::new();
    let mut i: usize = 0;
    while i < raw.len()
        invariant
            i <= raw@.len(),
            hits@.len() == i,
            forall|k: int| 0 <= k < hits@.len() ==> is_near_hit(#[trigger] hits@[k], raw@[k]),
        decreases raw@.len() - i,
    {
        let c = &raw[i];
        hits.push(
            CodeSearchHit {
                path: c.path.clone(),
                chunk_id: c.chunk_id.clone(),
                symbol: c.symbol.clone(),
                kind: c.kind.clone(),
                lang: c.lang.clone(),
                line_start: c.line_start,
                line_end: c.line_end,
                byte_start: c.byte_start,
                byte_end: c.byte_end,
                distance_bits: Some(c.distance_bits),
                score_bits: None,
            },
        );
        i += 1;
    }
    hits
}

/// The answer to a code search.
#[derive(Debug)]
pub struct SearchCodeResponse {
    pub query: String,
    pub budgeted: bool,
    pub hits: Vec<CodeSearchHit>,
}

/// Answer a code search: the best hits, as many as the token budget admits. `sizes` are the lengths
/// of the hits as they are written out.
pub fn run_search_code(query: String, hits: Vec<CodeSearchHit>, sizes: &[u64], max_tokens: Option<u32>) -> (out:
    SearchCodeResponse)
    requires
        sizes@.len() == hits@.len(),
    ensures
        out.query == query,
        is_kept_count(sizes@, max_tokens, out.hits@.len() as int),
        out.hits@ == hits@.take(out.hits@.len() as int),
        out.budgeted == (out.hits@.len() < hits@.len()),
{
    let kept = apply_budget(hits, sizes, max_tokens);
    SearchCodeResponse { query, budgeted: kept.budgeted, hits: kept.items }
}

proof fn lemma_last_colon(hash: Seq<char>, tail: Seq<char>)
    requires
        all_digits(tail),
    ensures
        last_of(hash.push(':') + tail, ':') == hash.len(),
    decreases tail.len(),
{
    let s = hash.push(':') + tail;
    if tail.len() == 0 {
        assert(s.last() == ':');
    } else {
        assert(s.last() == tail.last());
        assert('0' <= tail[tail.len() - 1] <= '9');
        assert(s.drop_last() =~= hash.push(':') + tail.drop_last());
        assert(all_digits(tail.drop_last())) by {
            assert forall|i: int| 0 <= i < tail.drop_last().len() implies '0'
                <= #[trigger] tail.drop_last()[i] <= '9' by {
                assert(tail.drop_last()[i] == tail[i]);
            }
        }
        lemma_last_colon(hash, tail.drop_last());
    }
}

/// A chunk id made of a content hash and an ordinal is split into the same two.
pub proof fn law_chunk_id_splits_back(hash: Seq<char>, ordinal: usize)
    ensures
        chunk_parts(hash.push(':') + decimal(ordinal as nat)) == Some((hash, ordinal as int)),
{
    let tail = decimal(ordinal as nat);
    let id = hash.push(':') + tail;
    lemma_decimal_reads_back(ordinal as nat);
    lemma_last_colon(hash, tail);
    assert(id.skip(hash.len() as int + 1) =~= tail);
    assert(id.take(hash.len() as int) =~= hash);
    assert('0' <= tail[0] <= '9');
    assert(unsigned_digits(tail) == tail);
}

} // verus!
