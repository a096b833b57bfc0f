//! What document, code and web tools answer: which hits pass, which chunk is meant, which pages are
//! indexed.
use vstd::prelude::*;

use crate::answers::{lemma_part_of, part_of};
use crate::code::{
    blob_of, chunk_of, found_upto, is_blob_of, is_picked, law_chunk_id_splits_back, points_at,
    toon_wanted, ChunkBlob, CodeChunk, CodeSearchHit, GetChunkParams, RankedChunk,
};
use crate::documents::{
    any_holds, attached, attached_upto, categories_of, hit_facts, is_meta_of, keywords_of,
    lowercase_text, passes, place_of, placed, DocMeta, DocumentSearchHit, HitFact, Reranked,
};
use crate::text::{decimal, is_space, lower_of, texts, trim_of};
use crate::web::{is_task, task_slots, FetchedPage, PageTask};

verus! {

// ─── Documents ───────────────────────────────────────────────────────────────

/// Entry `m` is what is known of the document at the path: the first that has it.
pub open spec fn is_about(meta: Seq<DocMeta>, path: Seq<char>, m: int) -> bool {
    0 <= m < meta.len() && meta[m].path@ == path && forall|j: int|
        0 <= j < m ==> (#[trigger] meta[j]).path@ != path
}

proof fn lemma_about(meta: Seq<DocMeta>, path: Seq<char>, m: int)
    requires
        meta.len() <= usize::MAX,
        is_about(meta, path, m),
    ensures
        place_of(meta, path) == Some(m as usize),
{
    assert(is_meta_of(meta, path, m));
    let k = choose|k: int| is_meta_of(meta, path, k);
    assert(k == m);
}

proof fn lemma_passed_source(
    hits: Seq<HitFact>,
    meta: Seq<DocMeta>,
    category: Option<Seq<char>>,
    keyword: Option<Seq<char>>,
    n: int,
    i: int,
) -> (h: int)
    requires
        0 <= n <= hits.len(),
        0 <= i < attached_upto(hits, meta, category, keyword, n).len(),
    ensures
        0 <= h < n,
        attached_upto(hits, meta, category, keyword, n)[i] == attached(meta, hits[h]),
        passes(meta, hits[h].path, category, keyword),
        attached_upto(hits, meta, category, keyword, h).len() == i,
    decreases n,
{
    if i < attached_upto(hits, meta, category, keyword, n - 1).len() {
        lemma_passed_source(hits, meta, category, keyword, n - 1, i)
    } else {
        n - 1
    }
}

proof fn lemma_passed_kept(
    hits: Seq<HitFact>,
    meta: Seq<DocMeta>,
    category: Option<Seq<char>>,
    keyword: Option<Seq<char>>,
    n: int,
    h: int,
) -> (i: int)
    requires
        0 <= h < n <= hits.len(),
        passes(meta, hits[h].path, category, keyword),
    ensures
        0 <= i < attached_upto(hits, meta, category, keyword, n).len(),
        attached_upto(hits, meta, category, keyword, n)[i] == attached(meta, hits[h]),
    decreases n,
{
    if h == n - 1 {
        attached_upto(hits, meta, category, keyword, n - 1).len() as int
    } else {
        lemma_passed_kept(hits, meta, category, keyword, n - 1, h)
    }
}

proof fn lemma_passed_grows(
    hits: Seq<HitFact>,
    meta: Seq<DocMeta>,
    category: Option<Seq<char>>,
    keyword: Option<Seq<char>>,
    m: int,
    n: int,
)
    requires
        m <= n,
    ensures
        attached_upto(hits, meta, category, keyword, m).len() <= attached_upto(
            hits,
            meta,
            category,
            keyword,
            n,
        ).len(),
    decreases n - m,
{
    if m < n {
        lemma_passed_grows(hits, meta, category, keyword, m, n - 1);
    }
}

/// The document has a keyword in which the text stands, letter case aside.
pub open spec fn has_keyword(meta: Seq<DocMeta>, path: Seq<char>, text: Seq<char>) -> bool {
    exists|m: int, k: int|
        is_about(meta, path, m) && 0 <= k < meta[m].keywords@.len() && part_of(
            lowercase_text(text),
            lowercase_text((#[trigger] meta[m].keywords@[k])@),
        )
}

/// The document has an entity in whose category the text stands, letter case aside.
pub open spec fn has_category(meta: Seq<DocMeta>, path: Seq<char>, text: Seq<char>) -> bool {
    exists|m: int, k: int|
        is_about(meta, path, m) && 0 <= k < meta[m].categories@.len() && part_of(
            lowercase_text(text),
            lowercase_text((#[trigger] meta[m].categories@[k])@),
        )
}

proof fn lemma_filters(meta: Seq<DocMeta>, path: Seq<char>, text: Seq<char>)
    requires
        meta.len() <= usize::MAX,
    ensures
        any_holds(keywords_of(meta, path), text) <==> has_keyword(meta, path, text),
        any_holds(categories_of(meta, path), text) <==> has_category(meta, path, text),
{
    let keywords = keywords_of(meta, path);
    let categories = categories_of(meta, path);
    if place_of(meta, path) is Some {
        let m = choose|m: int| is_meta_of(meta, path, m);
        assert(is_about(meta, path, m));
        lemma_about(meta, path, m);
    }
    if any_holds(keywords, text) {
        let m = place_of(meta, path)->0 as int;
        let k = choose|k: int|
            0 <= k < keywords.len() && crate::text::holds_seq(
                lowercase_text(#[trigger] keywords[k]),
                lowercase_text(text),
            );
        lemma_part_of(lowercase_text(text), lowercase_text(keywords[k]));
        assert(keywords[k] == meta[m].keywords@[k]@);
    }
    if any_holds(categories, text) {
        let m = place_of(meta, path)->0 as int;
        let k = choose|k: int|
            0 <= k < categories.len() && crate::text::holds_seq(
                lowercase_text(#[trigger] categories[k]),
                lowercase_text(text),
            );
        lemma_part_of(lowercase_text(text), lowercase_text(categories[k]));
        assert(categories[k] == meta[m].categories@[k]@);
    }
    if has_keyword(meta, path, text) {
        let (m, k) = choose|m: int, k: int|
            is_about(meta, path, m) && 0 <= k < meta[m].keywords@.len() && part_of(
                lowercase_text(text),
                lowercase_text((#[trigger] meta[m].keywords@[k])@),
            );
        lemma_about(meta, path, m);
        lemma_part_of(lowercase_text(text), lowercase_text(meta[m].keywords@[k]@));
        assert(keywords[k] == meta[m].keywords@[k]@);
    }
    if has_category(meta, path, text) {
        let (m, k) = choose|m: int, k: int|
            is_about(meta, path, m) && 0 <= k < meta[m].categories@.len() && part_of(
                lowercase_text(text),
                lowercase_text((#[trigger] meta[m].categories@[k])@),
            );
        lemma_about(meta, path, m);
        lemma_part_of(lowercase_text(text), lowercase_text(meta[m].categories@[k]@));
        assert(categories[k] == meta[m].categories@[k]@);
    }
}

/// A hit that is kept is one of the hits, unchanged but for what is known of its document, and it passes:
/// where a category or a keyword is asked for, its document has one in which the text stands. Of two
/// hits that are kept the earlier stays the earlier. The result gives the places of the two among the
/// hits.
pub proof fn law_kept_hits_pass(
    hits: Seq<DocumentSearchHit>,
    meta: Seq<DocMeta>,
    category: Option<Seq<char>>,
    keyword: Option<Seq<char>>,
    out: Seq<DocumentSearchHit>,
    i: int,
    j: int,
) -> (at: (int, int))
    requires
        meta.len() <= usize::MAX,
        hit_facts(out) == attached_upto(
            hit_facts(hits),
            meta,
            category,
            keyword,
            hits.len() as int,
        ),
        0 <= i <= j < out.len(),
    ensures
        0 <= at.0 <= at.1 < hits.len(),
        i < j ==> at.0 < at.1,
        out[i].path@ == hits[at.0].path@,
        out[i].chunk_idx == hits[at.0].chunk_idx,
        out[i].text@ == hits[at.0].text@,
        out[i].mime_type@ == hits[at.0].mime_type@,
        out[i].byte_start == hits[at.0].byte_start,
        out[i].byte_end == hits[at.0].byte_end,
        out[i].distance_bits == hits[at.0].distance_bits,
        out[j].path@ == hits[at.1].path@,
        out[j].chunk_idx == hits[at.1].chunk_idx,
        category is Some ==> has_category(meta, out[i].path@, category->0),
        keyword is Some ==> has_keyword(meta, out[i].path@, keyword->0),
{
    let facts = hit_facts(hits);
    let n = hits.len() as int;
    assert(hit_facts(out)[i] == out[i]@);
    assert(hit_facts(out)[j] == out[j]@);
    let g = lemma_passed_source(facts, meta, category, keyword, n, i);
    let h = lemma_passed_source(facts, meta, category, keyword, n, j);
    if h < g {
        lemma_passed_grows(facts, meta, category, keyword, h + 1, g);
    }
    if category is Some {
        lemma_filters(meta, facts[g].path, category->0);
    }
    if keyword is Some {
        lemma_filters(meta, facts[g].path, keyword->0);
    }
    (g, h)
}

/// A hit that passes is kept: one whose document has a category and a keyword in which the texts asked for
/// stand, where such are. The result is its place among those that are kept.
pub proof fn law_passing_hits_are_kept(
    hits: Seq<DocumentSearchHit>,
    meta: Seq<DocMeta>,
    category: Option<Seq<char>>,
    keyword: Option<Seq<char>>,
    out: Seq<DocumentSearchHit>,
    h: int,
) -> (i: int)
    requires
        meta.len() <= usize::MAX,
        hit_facts(out) == attached_upto(
            hit_facts(hits),
            meta,
            category,
            keyword,
            hits.len() as int,
        ),
        0 <= h < hits.len(),
        category is Some ==> has_category(meta, hits[h].path@, category->0),
        keyword is Some ==> has_keyword(meta, hits[h].path@, keyword->0),
    ensures
        0 <= i < out.len(),
        out[i].path@ == hits[h].path@,
        out[i].chunk_idx == hits[h].chunk_idx,
        out[i].text@ == hits[h].text@,
{
    let facts = hit_facts(hits);
    assert(facts[h] == hits[h]@);
    if category is Some {
        lemma_filters(meta, facts[h].path, category->0);
    }
    if keyword is Some {
        lemma_filters(meta, facts[h].path, keyword->0);
    }
    let i = lemma_passed_kept(facts, meta, category, keyword, hits.len() as int, h);
    assert(hit_facts(out)[i] == out[i]@);
    i
}

/// Reranking moves hits and gives them scores, and changes nothing else.
pub proof fn law_reranking_moves_hits(hits: Seq<DocumentSearchHit>, r: Reranked, out: DocumentSearchHit)
    requires
        r.index < hits.len(),
        out@ == placed(hit_facts(hits), r),
    ensures
        out.rerank_bits == Some(r.score_bits),
        out.path@ == hits[r.index as int].path@,
        out.chunk_idx == hits[r.index as int].chunk_idx,
        out.text@ == hits[r.index as int].text@,
        out.mime_type@ == hits[r.index as int].mime_type@,
        out.byte_start == hits[r.index as int].byte_start,
        out.byte_end == hits[r.index as int].byte_end,
        out.distance_bits == hits[r.index as int].distance_bits,
        out.document == hits[r.index as int].document,
        texts(out.keywords@) == texts(hits[r.index as int].keywords@),
        texts(out.categories@) == texts(hits[r.index as int].categories@),
{
    let f = hit_facts(hits)[r.index as int];
    assert(f == hits[r.index as int]@);
    assert(out@.path == f.path && out@.text == f.text && out@.mime_type == f.mime_type);
    assert(out@.keywords == f.keywords && out@.categories == f.categories);
}

// ─── Code ────────────────────────────────────────────────────────────────────

/// The chunk that is picked is the one asked for. Where an id is given it has that id, whatever else is asked;
/// else, where a byte is given, it starts there; and where neither is, it is the only one. Of several it is
/// the first.
pub proof fn law_the_chunk_picked(chunks: Seq<CodeChunk>, params: GetChunkParams, i: int)
    requires
        is_picked(chunks, params, i),
    ensures
        0 <= i < chunks.len(),
        params.chunk_id is Some ==> chunks[i].chunk_id@ == params.chunk_id->0@,
        params.chunk_id is None && params.byte_start is Some ==> chunks[i].byte_start
            == params.byte_start->0,
        params.chunk_id is None && params.byte_start is None ==> chunks.len() == 1,
        forall|j: int|
            0 <= j < i ==> if params.chunk_id is Some {
                (#[trigger] chunks[j]).chunk_id@ != params.chunk_id->0@
            } else {
                params.byte_start is Some && chunks[j].byte_start != params.byte_start->0
            },
{
}

/// A chunk is picked where one is asked for that is there: one has the id; or none is given, and one starts
/// at the byte; or neither is given, and there is just one.
pub proof fn law_a_chunk_is_picked(chunks: Seq<CodeChunk>, params: GetChunkParams, c: int)
    requires
        0 <= c < chunks.len(),
        params.chunk_id is Some ==> chunks[c].chunk_id@ == params.chunk_id->0@,
        params.chunk_id is None && params.byte_start is Some ==> chunks[c].byte_start
            == params.byte_start->0,
        params.chunk_id is None && params.byte_start is None ==> chunks.len() == 1,
    ensures
        exists|i: int| is_picked(chunks, params, i),
    decreases c,
{
    if !is_picked(chunks, params, c) {
        let j = if params.chunk_id is Some {
            choose|j: int| 0 <= j < c && (#[trigger] chunks[j]).chunk_id@ == params.chunk_id->0@
        } else {
            choose|j: int| 0 <= j < c && (#[trigger] chunks[j]).byte_start == params.byte_start->0
        };
        law_a_chunk_is_picked(chunks, params, j);
    }
}

proof fn lemma_found_source(raw: Seq<RankedChunk>, blobs: Seq<ChunkBlob>, n: int, k: int)
    requires
        0 <= n <= raw.len(),
        0 <= k < found_upto(raw, blobs, n).len(),
    ensures
        0 <= found_upto(raw, blobs, n)[k] < n,
        chunk_of(blobs, raw[found_upto(raw, blobs, n)[k]].chunk_id@) is Some,
    decreases n,
{
    if k < found_upto(raw, blobs, n - 1).len() {
        lemma_found_source(raw, blobs, n - 1, k);
    }
}

proof fn lemma_found_kept(raw: Seq<RankedChunk>, blobs: Seq<ChunkBlob>, n: int, r: int) -> (k: int)
    requires
        0 <= r < n <= raw.len(),
        chunk_of(blobs, raw[r].chunk_id@) is Some,
    ensures
        0 <= k < found_upto(raw, blobs, n).len(),
        found_upto(raw, blobs, n)[k] == r,
    decreases n,
{
    if r == n - 1 {
        found_upto(raw, blobs, n - 1).len() as int
    } else {
        lemma_found_kept(raw, blobs, n - 1, r)
    }
}

/// A search by words shows the chunk that each ranked id names: the one of that ordinal in the first blob of
/// that hash, with the score of its rank. The result is its place among the hits.
pub proof fn law_ranked_chunks_are_shown(
    raw: Seq<RankedChunk>,
    blobs: Seq<ChunkBlob>,
    hits: Seq<CodeSearchHit>,
    r: int,
    b: int,
    ordinal: usize,
) -> (k: int)
    requires
        hits.len() == found_upto(raw, blobs, raw.len() as int).len(),
        forall|k: int|
            #![trigger hits[k]]
            0 <= k < hits.len() ==> ({
                let r = raw[found_upto(raw, blobs, raw.len() as int)[k]];
                points_at(hits[k], chunk_of(blobs, r.chunk_id@)->0, r)
            }),
        0 <= r < raw.len(),
        0 <= b < blobs.len(),
        forall|j: int| 0 <= j < b ==> (#[trigger] blobs[j]).hash@ != blobs[b].hash@,
        raw[r].chunk_id@ == blobs[b].hash@.push(':') + decimal(ordinal as nat),
        ordinal < blobs[b].chunks@.len(),
    ensures
        0 <= k < hits.len(),
        hits[k].chunk_id@ == raw[r].chunk_id@,
        hits[k].score_bits == Some(raw[r].score_bits),
        hits[k].distance_bits is None,
        hits[k].path@ == blobs[b].chunks@[ordinal as int].path@,
        hits[k].lang@ == blobs[b].chunks@[ordinal as int].lang@,
        hits[k].line_start == blobs[b].chunks@[ordinal as int].line_start,
        hits[k].line_end == blobs[b].chunks@[ordinal as int].line_end,
        hits[k].byte_start == blobs[b].chunks@[ordinal as int].byte_start,
        hits[k].byte_end == blobs[b].chunks@[ordinal as int].byte_end,
        blobs[b].chunks@[ordinal as int].symbol is Some ==> hits[k].symbol@
            == blobs[b].chunks@[ordinal as int].symbol->0@,
        blobs[b].chunks@[ordinal as int].kind is Some ==> hits[k].kind@
            == blobs[b].chunks@[ordinal as int].kind->0@,
{
    let hash = blobs[b].hash@;
    law_chunk_id_splits_back(hash, ordinal);
    assert(is_blob_of(blobs, hash, b));
    let c = choose|c: int| is_blob_of(blobs, hash, c);
    assert(c == b);
    assert(blob_of(blobs, hash) == Some(blobs[b]));
    assert(chunk_of(blobs, raw[r].chunk_id@) == Some(blobs[b].chunks@[ordinal as int]));
    let k = lemma_found_kept(raw, blobs, raw.len() as int, r);
    assert(points_at(hits[k], blobs[b].chunks@[ordinal as int], raw[r]));
    k
}

/// Every hit of a search by words comes from a ranked id, with that id and its score. The result is the rank.
pub proof fn law_word_hits_are_ranked(
    raw: Seq<RankedChunk>,
    blobs: Seq<ChunkBlob>,
    hits: Seq<CodeSearchHit>,
    k: int,
) -> (r: int)
    requires
        hits.len() == found_upto(raw, blobs, raw.len() as int).len(),
        forall|k: int|
            #![trigger hits[k]]
            0 <= k < hits.len() ==> ({
                let r = raw[found_upto(raw, blobs, raw.len() as int)[k]];
                points_at(hits[k], chunk_of(blobs, r.chunk_id@)->0, r)
            }),
        0 <= k < hits.len(),
    ensures
        0 <= r < raw.len(),
        hits[k].chunk_id@ == raw[r].chunk_id@,
        hits[k].score_bits == Some(raw[r].score_bits),
{
    lemma_found_source(raw, blobs, raw.len() as int, k);
    found_upto(raw, blobs, raw.len() as int)[k]
}

/// A format that is named, in whatever letter case and with white space around it, wins over the
/// configuration; any other word leaves it to that.
pub proof fn law_named_formats_win(format: Option<Seq<char>>, configured: bool)
    ensures
        format is None ==> toon_wanted(format, configured) == configured,
        format is Some && lower_of(trim_of(format->0)) == "toon"@ ==> toon_wanted(format, configured),
        format is Some && lower_of(trim_of(format->0)) == "json"@ ==> !toon_wanted(format, configured),
        format is Some && lower_of(trim_of(format->0)) != "toon"@ && lower_of(trim_of(format->0))
            != "json"@ ==> toon_wanted(format, configured) == configured,
{
    reveal_strlit("toon");
    reveal_strlit("json");
    assert("toon"@[0] == 't');
    assert("json"@[0] == 'j');
}

// ─── Web pages ───────────────────────────────────────────────────────────────

/// A page is handed to the indexer exactly when its URL is allowed. The scope that is asked for goes with
/// it, or else the one that its URL belongs to; and so does its markdown, or its HTML where the markdown is
/// missing or nothing but white space.
pub proof fn law_allowed_pages_are_indexed(
    pages: Seq<FetchedPage>,
    explicit: Option<Seq<char>>,
    seed: Seq<char>,
    tasks: Seq<PageTask>,
    p: int,
)
    requires
        pages.len() <= usize::MAX,
        tasks.map_values(|t: PageTask| t.slot as int) == task_slots(pages, pages.len() as int),
        forall|k: int| 0 <= k < tasks.len() ==> is_task(#[trigger] tasks[k], pages, explicit, seed),
        0 <= p < pages.len(),
    ensures
        pages[p].check is Allowed <==> exists|k: int|
            0 <= k < tasks.len() && (#[trigger] tasks[k]).slot == p,
        forall|k: int|
            0 <= k < tasks.len() && (#[trigger] tasks[k]).slot == p ==> {
                &&& explicit is Some ==> tasks[k].scope@ == explicit->0
                &&& explicit is None ==> tasks[k].scope@ == pages[p].check->Allowed_0@
                &&& pages[p].markdown is None ==> tasks[k].body@ == pages[p].html@
                &&& pages[p].markdown is Some && (exists|c: int|
                    0 <= c < pages[p].markdown->0@.len() && !is_space(
                        #[trigger] pages[p].markdown->0@[c],
                    )) ==> tasks[k].body@ == pages[p].markdown->0@
                &&& pages[p].markdown is Some && (forall|c: int|
                    0 <= c < pages[p].markdown->0@.len() ==> is_space(
                        #[trigger] pages[p].markdown->0@[c],
                    )) ==> tasks[k].body@ == pages[p].html@
            },
{
    let slots = tasks.map_values(|t: PageTask| t.slot as int);
    let n = pages.len() as int;
    if pages[p].check is Allowed {
        let k = lemma_task_kept(pages, n, p);
        assert(slots[k] == tasks[k].slot);
    }
    assert forall|k: int| 0 <= k < tasks.len() && (#[trigger] tasks[k]).slot == p implies pages[p].check
        is Allowed by {
        assert(slots[k] == tasks[k].slot);
        crate::web::law_private_pages_are_not_indexed(pages, n, k);
    }
}

proof fn lemma_task_kept(pages: Seq<FetchedPage>, n: int, p: int) -> (k: int)
    requires
        0 <= p < n <= pages.len(),
        pages[p].check is Allowed,
    ensures
        0 <= k < task_slots(pages, n).len(),
        task_slots(pages, n)[k] == p,
    decreases n,
{
    if p == n - 1 {
        task_slots(pages, n - 1).len() as int
    } else {
        lemma_task_kept(pages, n - 1, p)
    }
}

} // verus!
