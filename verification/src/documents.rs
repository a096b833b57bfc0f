//! Document search: attaching what is known of a document to its hits, filtering by it, and
//! putting hits into the order of a reranker.
use vstd::prelude::*;

use crate::model::ToolError;
use crate::tables::{names_get, names_held, names_insert, names_new};
use crate::text::{
    copy_texts, decimal, decimal_of, holds_seq, opt_str, quoted, quoted_text, same_str, str_holds,
    texts,
};

verus! {

/// A chunk of a document that a search found. `distance_bits` and `rerank_bits` are the bits of
/// 32-bit numbers.
#[derive(Debug)]
pub struct DocumentSearchHit {
    pub path: String,
    pub chunk_idx: u32,
    pub text: String,
    pub mime_type: String,
    pub byte_start: u32,
    pub byte_end: u32,
    pub distance_bits: u32,
    pub rerank_bits: Option<u32>,
    /// The place of the document among those whose metadata was read, where it is one of them. Its
    /// keyword and entity records are the ones at that place.
    pub document: Option<usize>,
    /// The texts of the keywords of the document.
    pub keywords: Vec<String>,
    /// The categories of the entities of the document.
    pub categories: Vec<String>,
}

/// What a hit says.
pub struct HitFact {
    pub path: Seq<char>,
    pub chunk_idx: u32,
    pub text: Seq<char>,
    pub mime_type: Seq<char>,
    pub byte_start: u32,
    pub byte_end: u32,
    pub distance_bits: u32,
    pub rerank_bits: Option<u32>,
    pub document: Option<usize>,
    pub keywords: Seq<Seq<char>>,
    pub categories: Seq<Seq<char>>,
}

impl View for DocumentSearchHit {
    type V = HitFact;

    open spec fn view(&self) -> HitFact {
        HitFact {
            path: self.path@,
            chunk_idx: self.chunk_idx,
            text: self.text@,
            mime_type: self.mime_type@,
            byte_start: self.byte_start,
            byte_end: self.byte_end,
            distance_bits: self.distance_bits,
            rerank_bits: self.rerank_bits,
            document: self.document,
            keywords: texts(self.keywords@),
            categories: texts(self.categories@),
        }
    }
}

/// What the hits of a list say.
pub open spec fn hit_facts(hits: Seq<DocumentSearchHit>) -> Seq<HitFact> {
    Seq::new(hits.len(), |i: int| hits[i]@)
}

impl DocumentSearchHit {
    /// A copy of the hit.
    pub fn copy(&self) -> (h: DocumentSearchHit)
        ensures
            h@ == self@,
    {
        DocumentSearchHit {
            path: self.path.clone(),
            chunk_idx: self.chunk_idx,
            text: self.text.clone(),
            mime_type: self.mime_type.clone(),
            byte_start: self.byte_start,
            byte_end: self.byte_end,
            distance_bits: self.distance_bits,
            rerank_bits: self.rerank_bits,
            document: self.document,
            keywords: copy_texts(self.keywords.as_slice()),
            categories: copy_texts(self.categories.as_slice()),
        }
    }
}

// ─── Distinct paths ──────────────────────────────────────────────────────────

/// The paths of the first `n` hits, each once, in the order in which they first come.
pub open spec fn distinct_paths(hits: Seq<DocumentSearchHit>, n: int) -> Seq<Seq<char>>
    decreases n,
{
    if n <= 0 {
        Seq::empty()
    } else {
        let before = distinct_paths(hits, n - 1);
        if before.contains(hits[n - 1].path@) {
            before
        } else {
            before.push(hits[n - 1].path@)
        }
    }
}

/// The paths of the hits, each once: the documents whose metadata is to be read.
pub fn unique_paths(hits: &Vec<DocumentSearchHit>) -> (paths: Vec<String>)
    ensures
        texts(paths@) == distinct_paths(hits@, hits@.len() as int),
{
    let mut seen = names_new();
    let mut paths: Vec<String> = Vec::new();
    let mut i: usize = 0;
    assert(texts(paths@) =~= Seq::empty());
    while i < hits.len()
        invariant
            i <= hits@.len(),
            texts(paths@) == distinct_paths(hits@, i as int),
            forall|p: Seq<char>| #[trigger]
                names_held(seen).contains_key(p) <==> texts(paths@).contains(p),
        decreases hits@.len() - i,
    {
        let p = &hits[i].path;
        if names_get(&seen, p.as_str()).is_none() {
            let ghost before = texts(paths@);
            let ghost held = names_held(seen);
            names_insert(&mut seen, p.clone(), 0);
            paths.push(p.clone());
            proof {
                assert(texts(paths@) =~= before.push(p@));
                assert forall|q: Seq<char>| #[trigger]
                    names_held(seen).contains_key(q) <==> texts(paths@).contains(q) by {
                    if q == p@ {
                        assert(texts(paths@)[before.len() as int] == q);
                    } else {
                        if before.contains(q) {
                            let k = before.index_of(q);
                            assert(texts(paths@)[k] == q);
                        }
                        if texts(paths@).contains(q) {
                            let k = texts(paths@).index_of(q);
                            assert(before[k] == q);
                        }
                        assert(held.contains_key(q) == names_held(seen).contains_key(q));
                    }
                }
            }
        }
        i += 1;
    }
    paths
}

// ─── Metadata ────────────────────────────────────────────────────────────────

/// What is known of a document, as far as a search reads it: the text of each of its keyword records,
/// and the category of each of its entity records.
#[derive(Debug)]
pub struct DocMeta {
    pub path: String,
    pub keywords: Vec<String>,
    pub categories: Vec<String>,
}

/// Text in lower case.
pub uninterp spec fn lowercase_text(s: Seq<char>) -> Seq<char>;

/// `str::to_lowercase`: the Unicode lower-case form is a function of the text.
#[verifier::external_body]
fn lowercase(s: &str) -> (l: String)
    ensures
        l@ == lowercase_text(s@),
{
    s.to_lowercase()
}

/// `i` is the first entry of `meta` at the path.
pub open spec fn is_meta_of(meta: Seq<DocMeta>, path: Seq<char>, i: int) -> bool {
    &&& 0 <= i < meta.len()
    &&& meta[i].path@ == path
    &&& forall|j: int| 0 <= j < i ==> (#[trigger] meta[j]).path@ != path
}

/// The place of the document at a path; none where nothing is known of it.
pub open spec fn place_of(meta: Seq<DocMeta>, path: Seq<char>) -> Option<usize> {
    if exists|i: int| is_meta_of(meta, path, i) {
        Some((choose|i: int| is_meta_of(meta, path, i)) as usize)
    } else {
        None
    }
}

/// The keywords known of the document at a path; none where nothing is known.
pub open spec fn keywords_of(meta: Seq<DocMeta>, path: Seq<char>) -> Seq<Seq<char>> {
    match place_of(meta, path) {
        Some(i) => texts(meta[i as int].keywords@),
        None => Seq::empty(),
    }
}

/// The categories of the entities known of the document at a path; none where nothing is known.
pub open spec fn categories_of(meta: Seq<DocMeta>, path: Seq<char>) -> Seq<Seq<char>> {
    match place_of(meta, path) {
        Some(i) => texts(meta[i as int].categories@),
        None => Seq::empty(),
    }
}

fn find_meta(meta: &Vec<DocMeta>, path: &str) -> (at: Option<usize>)
    ensures
        at == place_of(meta@, path@),
        at is Some ==> at->0 < meta@.len(),
{
    let mut i: usize = 0;
    while i < meta.len()
        invariant
            i <= meta@.len(),
            forall|j: int| 0 <= j < i ==> (#[trigger] meta@[j]).path@ != path@,
        decreases meta@.len() - i,
    {
        if same_str(meta[i].path.as_str(), path) {
            proof {
                assert(is_meta_of(meta@, path@, i as int));
                let k = choose|k: int| is_meta_of(meta@, path@, k);
                assert(k == i);
            }
            return Some(i);
        }
        i += 1;
    }
    None
}

/// Whether one of the texts holds the needle, letter case aside.
pub open spec fn any_holds(list: Seq<Seq<char>>, needle: Seq<char>) -> bool {
    exists|i: int|
        0 <= i < list.len() && holds_seq(
            lowercase_text(#[trigger] list[i]),
            lowercase_text(needle),
        )
}

fn some_holds(list: &Vec<String>, needle: &str) -> (yes: bool)
    ensures
        yes == any_holds(texts(list@), needle@),
{
    let low = lowercase(needle);
    let mut i: usize = 0;
    while i < list.len()
        invariant
            low@ == lowercase_text(needle@),
            i <= list@.len(),
            forall|j: int|
                0 <= j < i ==> !holds_seq(
                    lowercase_text(#[trigger] texts(list@)[j]),
                    lowercase_text(needle@),
                ),
        decreases list@.len() - i,
    {
        let l = lowercase(list[i].as_str());
        if str_holds(l.as_str(), low.as_str()) {
            assert(texts(list@)[i as int] == list@[i as int]@);
            return true;
        }
        i += 1;
    }
    false
}

/// Whether the document of a hit passes the filters that are set.
pub open spec fn passes(
    meta: Seq<DocMeta>,
    path: Seq<char>,
    category: Option<Seq<char>>,
    keyword: Option<Seq<char>>,
) -> bool {
    &&& category is Some ==> any_holds(categories_of(meta, path), category->0)
    &&& keyword is Some ==> any_holds(keywords_of(meta, path), keyword->0)
}

/// A hit with what is known of its document, and where in `meta` that stands.
pub open spec fn attached(meta: Seq<DocMeta>, h: HitFact) -> HitFact {
    HitFact {
        document: place_of(meta, h.path),
        keywords: keywords_of(meta, h.path),
        categories: categories_of(meta, h.path),
        ..h
    }
}

/// The first `n` hits that pass the filters, each with what is known of its document.
pub open spec fn attached_upto(
    hits: Seq<HitFact>,
    meta: Seq<DocMeta>,
    category: Option<Seq<char>>,
    keyword: Option<Seq<char>>,
    n: int,
) -> Seq<HitFact>
    decreases n,
{
    if n <= 0 {
        Seq::empty()
    } else {
        let before = attached_upto(hits, meta, category, keyword, n - 1);
        if passes(meta, hits[n - 1].path, category, keyword) {
            before.push(attached(meta, hits[n - 1]))
        } else {
            before
        }
    }
}

/// Attach to each hit its document's place in `meta`, keywords and entity categories, and drop the
/// hits whose document does not pass the filters that are set.
pub fn attach_doc_metadata(
    hits: &Vec<DocumentSearchHit>,
    meta: &Vec<DocMeta>,
    entity_category: Option<&str>,
    keywords_contains: Option<&str>,
) -> (out: Vec<DocumentSearchHit>)
    ensures
        hit_facts(out@) == attached_upto(
            hit_facts(hits@),
            meta@,
            opt_str(entity_category),
            opt_str(keywords_contains),
            hits@.len() as int,
        ),
{
    let mut out: Vec<DocumentSearchHit> = Vec::new();
    let none: Vec<String> = Vec::new();
    let mut i: usize = 0;
    assert(texts(none@) =~= Seq::empty());
    assert(hit_facts(out@) =~= Seq::empty());
    while i < hits.len()
        invariant
            i <= hits@.len(),
            texts(none@) == Seq::<Seq<char>>::empty(),
            hit_facts(out@) == attached_upto(
                hit_facts(hits@),
                meta@,
                opt_str(entity_category),
                opt_str(keywords_contains),
                i as int,
            ),
        decreases hits@.len() - i,
    {
        let hit = &hits[i];
        assert(hit_facts(hits@)[i as int] == hit@);
        let document = find_meta(meta, hit.path.as_str());
        let (keywords, categories) = match document {
            Some(at) => (&meta[at].keywords, &meta[at].categories),
            None => (&none, &none),
        };
        let category_fits: bool = match entity_category {
            Some(c) => some_holds(categories, c),
            None => true,
        };
        let keyword_fits: bool = match keywords_contains {
            Some(k) => some_holds(keywords, k),
            None => true,
        };
        if category_fits && keyword_fits {
            let mut kept = hit.copy();
            kept.document = document;
            kept.keywords = copy_texts(keywords.as_slice());
            kept.categories = copy_texts(categories.as_slice());
            let ghost before = out@;
            let ghost k = kept;
            assert(k@ == attached(meta@, hit@));
            out.push(kept);
            assert(hit_facts(out@) =~= hit_facts(before).push(k@));
        }
        i += 1;
    }
    out
}

/// A hit carries its own document's records: the place that it names is the first in `meta` with the
/// hit's path, and what it shows of them is what stands there.
pub proof fn law_hits_carry_their_document(meta: Seq<DocMeta>, h: HitFact)
    requires
        meta.len() <= usize::MAX,
    ensures
        match attached(meta, h).document {
            Some(i) => {
                &&& is_meta_of(meta, h.path, i as int)
                &&& attached(meta, h).keywords == texts(meta[i as int].keywords@)
                &&& attached(meta, h).categories == texts(meta[i as int].categories@)
            },
            None => {
                &&& forall|j: int| 0 <= j < meta.len() ==> (#[trigger] meta[j]).path@ != h.path
                &&& attached(meta, h).keywords.len() == 0
                &&& attached(meta, h).categories.len() == 0
            },
        },
{
    if place_of(meta, h.path) is None {
        assert forall|j: int| 0 <= j < meta.len() implies (#[trigger] meta[j]).path@ != h.path by {
            lemma_no_meta(meta, h.path, j);
        }
    }
}

proof fn lemma_no_meta(meta: Seq<DocMeta>, path: Seq<char>, j: int)
    requires
        place_of(meta, path) is None,
        0 <= j < meta.len(),
    ensures
        meta[j].path@ != path,
    decreases j,
{
    assert forall|i: int| 0 <= i < j implies (#[trigger] meta[i]).path@ != path by {
        lemma_no_meta(meta, path, i);
    }
    if meta[j].path@ == path {
        assert(is_meta_of(meta, path, j));
    }
}

// ─── Reranking ───────────────────────────────────────────────────────────────

/// What follows once metadata is attached.
pub enum RerankStep {
    /// The hits are the answer.
    Done,
    /// These texts are to be reranked.
    Rerank(Vec<String>),
}

/// The texts of hits.
pub open spec fn hit_texts(hits: Seq<DocumentSearchHit>) -> Seq<Seq<char>> {
    Seq::new(hits.len(), |i: int| hits[i].text@)
}

/// Decide whether hits are reranked: where reranking is on and there are any. A preset that is not
/// known is refused then.
pub fn rerank_step(
    hits: &Vec<DocumentSearchHit>,
    enabled: bool,
    preset: &str,
    known_preset: bool,
) -> (r: Result<RerankStep, ToolError>)
    ensures
        match r {
            Ok(RerankStep::Done) => !enabled || hits@.len() == 0,
            Ok(RerankStep::Rerank(documents)) => enabled && hits@.len() > 0 && known_preset && texts(
                documents@,
            ) == hit_texts(hits@),
            Err(e) => enabled && hits@.len() > 0 && !known_preset && e is InvalidParams && e.text()
                == "unknown reranker preset: "@ + quoted_text(preset@),
        },
{
    if !enabled || hits.len() == 0 {
        return Ok(RerankStep::Done);
    }
    if !known_preset {
        let mut t = String::from_str("unknown reranker preset: ");
        t.append(quoted(preset).as_str());
        return Err(ToolError::InvalidParams(t));
    }
    let mut documents: Vec<String> = Vec::new();
    let mut i: usize = 0;
    while i < hits.len()
        invariant
            i <= hits@.len(),
            documents@.len() == i,
            forall|j: int| 0 <= j < i ==> (#[trigger] documents@[j])@ == hits@[j].text@,
        decreases hits@.len() - i,
    {
        documents.push(hits[i].text.clone());
        i += 1;
    }
    assert(texts(documents@) =~= hit_texts(hits@));
    Ok(RerankStep::Rerank(documents))
}

/// Whether the message of a failed rerank speaks of the model rather than of its run.
pub open spec fn is_load_failure(msg: Seq<char>) -> bool {
    holds_seq(msg, "download"@) || holds_seq(msg, "HuggingFace"@) || holds_seq(msg, "model"@)
}

/// The error of a failed rerank.
pub fn rerank_error(msg: &str) -> (e: ToolError)
    ensures
        e is Internal,
        e.text() == if is_load_failure(msg@) {
            "rerank model load: "@ + msg@
        } else {
            "rerank inference: "@ + msg@
        },
{
    let load: bool = str_holds(msg, "download") || str_holds(msg, "HuggingFace") || str_holds(
        msg,
        "model",
    );
    let mut t = if load {
        String::from_str("rerank model load: ")
    } else {
        String::from_str("rerank inference: ")
    };
    t.append(msg);
    ToolError::Internal(t)
}

/// A document as the reranker places it: its index among the hits, and the bits of its score.
#[derive(Debug, Clone, Copy)]
pub struct Reranked {
    pub index: usize,
    pub score_bits: u32,
}

/// The hit that the reranker places, with its score.
pub open spec fn placed(hits: Seq<HitFact>, r: Reranked) -> HitFact {
    HitFact { rerank_bits: Some(r.score_bits), ..hits[r.index as int] }
}

/// `i` is the first place whose index is out of range.
pub open spec fn is_first_stray(order: Seq<Reranked>, n: int, i: int) -> bool {
    &&& 0 <= i < order.len()
    &&& order[i].index >= n
    &&& forall|j: int| 0 <= j < i ==> (#[trigger] order[j]).index < n
}

/// Put hits into the order of the reranker, each with its score. An index that is out of range is
/// an error.
pub fn apply_rerank(hits: &Vec<DocumentSearchHit>, order: &Vec<Reranked>) -> (r: Result<
    Vec<DocumentSearchHit>,
    ToolError,
>)
    ensures
        match r {
            Ok(out) => {
                &&& forall|i: int|
                    0 <= i < order@.len() ==> (#[trigger] order@[i]).index < hits@.len()
                &&& out@.len() == order@.len()
                &&& forall|i: int|
                    0 <= i < out@.len() ==> (#[trigger] out@[i])@ == placed(
                        hit_facts(hits@),
                        order@[i],
                    )
            },
            Err(e) => exists|i: int|
                #![trigger order@[i]]
                is_first_stray(order@, hits@.len() as int, i) && e is Internal && e.text()
                    == "reranker returned out-of-range index "@ + decimal(order@[i].index as nat)
                    + " (got "@ + decimal(hits@.len()) + " hits)"@,
        },
{
    let mut out: Vec<DocumentSearchHit> = Vec::new();
    let mut i: usize = 0;
    while i < order.len()
        invariant
            i <= order@.len(),
            out@.len() == i,
            forall|j: int| 0 <= j < i ==> (#[trigger] order@[j]).index < hits@.len(),
            forall|j: int|
                0 <= j < i ==> (#[trigger] out@[j])@ == placed(hit_facts(hits@), order@[j]),
        decreases order@.len() - i,
    {
        let r = order[i];
        if r.index >= hits.len() {
            let mut t = String::from_str("reranker returned out-of-range index ");
            t.append(decimal_of(r.index as u64).as_str());
            t.append(" (got ");
            t.append(decimal_of(hits.len() as u64).as_str());
            t.append(" hits)");
            assert(is_first_stray(order@, hits@.len() as int, i as int));
            return Err(ToolError::Internal(t));
        }
        let mut hit = hits[r.index].copy();
        hit.rerank_bits = Some(r.score_bits);
        assert(hit@ == placed(hit_facts(hits@), r));
        out.push(hit);
        i += 1;
    }
    Ok(out)
}

proof fn lemma_attached_all(hits: Seq<HitFact>, meta: Seq<DocMeta>, n: int)
    requires
        0 <= n <= hits.len(),
    ensures
        attached_upto(hits, meta, None, None, n) == Seq::new(
            n as nat,
            |i: int| attached(meta, hits[i]),
        ),
    decreases n,
{
    let all = Seq::new(n as nat, |i: int| attached(meta, hits[i]));
    if n > 0 {
        lemma_attached_all(hits, meta, n - 1);
        assert(attached_upto(hits, meta, None, None, n) =~= all);
    } else {
        assert(attached_upto(hits, meta, None, None, n) =~= all);
    }
}

/// Without a filter no hit is dropped, whatever is known of the documents.
pub proof fn law_no_filter_keeps_all(hits: Seq<HitFact>, meta: Seq<DocMeta>)
    ensures
        attached_upto(hits, meta, None, None, hits.len() as int) == Seq::new(
            hits.len(),
            |i: int| attached(meta, hits[i]),
        ),
{
    lemma_attached_all(hits, meta, hits.len() as int);
}

proof fn lemma_distinct(hits: Seq<DocumentSearchHit>, n: int)
    requires
        0 <= n <= hits.len(),
    ensures
        distinct_paths(hits, n).no_duplicates(),
        forall|i: int| 0 <= i < n ==> distinct_paths(hits, n).contains((#[trigger] hits[i]).path@),
    decreases n,
{
    if n > 0 {
        lemma_distinct(hits, n - 1);
        let before = distinct_paths(hits, n - 1);
        let now = distinct_paths(hits, n);
        let p = hits[n - 1].path@;
        if !before.contains(p) {
            assert(now[now.len() - 1] == p);
            assert forall|i: int| 0 <= i < n implies now.contains((#[trigger] hits[i]).path@) by {
                if i < n - 1 {
                    let k = before.index_of(hits[i].path@);
                    assert(now[k] == hits[i].path@);
                }
            }
            assert forall|i: int, j: int|
                0 <= i < now.len() && 0 <= j < now.len() && i != j implies now[i] != now[j] by {
                if i < before.len() && j < before.len() {
                    assert(before[i] != before[j]);
                } else if i < before.len() {
                    assert(before.contains(before[i]));
                } else {
                    assert(before.contains(before[j]));
                }
            }
        }
    }
}

/// Each document is read once, and every hit's document is read.
pub proof fn law_each_document_once(hits: Seq<DocumentSearchHit>)
    ensures
        distinct_paths(hits, hits.len() as int).no_duplicates(),
        forall|i: int|
            0 <= i < hits.len() ==> distinct_paths(hits, hits.len() as int).contains(
                (#[trigger] hits[i]).path@,
            ),
{
    lemma_distinct(hits, hits.len() as int);
}

} // verus!
