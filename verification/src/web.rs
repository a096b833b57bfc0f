//! Web ingestion: which fetched pages are indexed, under which scope, and what is reported of them.
//!
//! Fetching and indexing happen outside. A page that a redirect took to a private host is never
//! indexed, whatever was asked for.
use vstd::prelude::*;

use crate::model::ToolError;
use crate::text::{is_blank, opt_str, opt_text, quoted, quoted_text, str_is_blank};

verus! {

/// What the parser says of a URL.
#[derive(Debug)]
pub enum UrlCheck {
    /// It may be fetched; pages from it belong to this scope unless told otherwise.
    Allowed(String),
    /// Its host is private, loopback or link-local.
    PrivateHost(String),
    /// It cannot be parsed, for this reason.
    Unparsable(String),
}

/// The text in which a fetched URL is refused; `None` where it is not.
pub open spec fn refusal(context: Seq<char>, url: Seq<char>, check: UrlCheck) -> Option<Seq<char>> {
    match check {
        UrlCheck::Allowed(_) => None,
        UrlCheck::PrivateHost(host) => Some(
            context + ": refusing to index private/loopback host reached via redirect: "@ + host@
                + " (set BASEMIND_ALLOW_PRIVATE_HOSTS=1 to allow)"@,
        ),
        UrlCheck::Unparsable(why) => Some(
            context + ": refusing to index unparsable fetched URL "@ + quoted_text(url) + ": "@
                + why@,
        ),
    }
}

/// Refuse a URL that was fetched but may not be indexed: one on a private host, and one that cannot
/// be parsed.
pub fn reject_redirected_private_url(context: &str, fetched_url: &str, check: &UrlCheck) -> (r:
    Result<(), ToolError>)
    ensures
        match r {
            Ok(_) => refusal(context@, fetched_url@, *check) is None,
            Err(e) => e is InvalidParams && refusal(context@, fetched_url@, *check) == Some(
                e.text(),
            ),
        },
{
    match check {
        UrlCheck::Allowed(_) => Ok(()),
        UrlCheck::PrivateHost(host) => {
            let mut t = context.to_string();
            t.append(": refusing to index private/loopback host reached via redirect: ");
            t.append(host.as_str());
            t.append(" (set BASEMIND_ALLOW_PRIVATE_HOSTS=1 to allow)");
            Err(ToolError::InvalidParams(t))
        },
        UrlCheck::Unparsable(why) => {
            let mut t = context.to_string();
            t.append(": refusing to index unparsable fetched URL ");
            t.append(quoted(fetched_url).as_str());
            t.append(": ");
            t.append(why.as_str());
            Err(ToolError::InvalidParams(t))
        },
    }
}

/// The scope of a page: the one asked for, else that of the URL it came from, else that of the URL
/// that was requested.
pub open spec fn scope_of(
    explicit: Option<Seq<char>>,
    requested: Seq<char>,
    check: UrlCheck,
) -> Seq<char> {
    match explicit {
        Some(s) => s,
        None => match check {
            UrlCheck::Allowed(s) => s@,
            _ => requested,
        },
    }
}

/// The scope of a page. `requested_scope` is that of the URL that was requested, and `check` what
/// the parser says of the URL that the page came from.
pub fn resolve_scope(explicit: Option<&str>, requested_scope: &str, check: &UrlCheck) -> (scope:
    String)
    ensures
        scope@ == scope_of(opt_str(explicit), requested_scope@, *check),
{
    match explicit {
        Some(s) => s.to_string(),
        None => match check {
            UrlCheck::Allowed(s) => s.clone(),
            _ => requested_scope.to_string(),
        },
    }
}

/// Refuse an override of zero. No override, and one of at least one, pass.
pub fn reject_zero_override(field: &str, value: Option<u32>) -> (r: Result<(), ToolError>)
    ensures
        match r {
            Ok(_) => value != Some(0u32),
            Err(e) => value == Some(0u32) && e is InvalidParams && e.text() == field@
                + " must be >= 1"@,
        },
{
    match value {
        Some(n) => {
            if n == 0 {
                let mut t = field.to_string();
                t.append(" must be >= 1");
                Err(ToolError::InvalidParams(t))
            } else {
                Ok(())
            }
        },
        None => Ok(()),
    }
}

/// The caps of a crawl.
#[derive(Debug, Clone, Copy, PartialEq, Eq, Structural)]
pub struct CrawlCaps {
    pub max_pages: u32,
    pub max_depth: u32,
}

/// Which engine a crawl runs on.
#[derive(Debug, Clone, Copy, PartialEq, Eq, Structural)]
pub enum EngineChoice {
    /// The engine that all crawls share.
    Shared,
    /// One made for this call, with these caps.
    PerCall(CrawlCaps),
}

/// Choose the engine of a crawl: the shared one where nothing is overridden, else one with the
/// overrides over the defaults. Without a live engine, and with an override of zero, the request is
/// refused.
pub fn plan_crawl(
    engine_is_live: bool,
    max_pages: Option<u32>,
    max_depth: Option<u32>,
    defaults: CrawlCaps,
) -> (r: Result<EngineChoice, ToolError>)
    ensures
        match r {
            Ok(choice) => engine_is_live && max_pages != Some(0u32) && max_depth != Some(0u32)
                && choice == (if max_pages is None && max_depth is None {
                EngineChoice::Shared
            } else {
                EngineChoice::PerCall(
                    CrawlCaps {
                        max_pages: match max_pages {
                            Some(n) => n,
                            None => defaults.max_pages,
                        },
                        max_depth: match max_depth {
                            Some(n) => n,
                            None => defaults.max_depth,
                        },
                    },
                )
            }),
            Err(e) => if !engine_is_live {
                e is Internal && e.text()
                    == "crawl engine not initialised; check basemind serve startup logs"@
            } else if max_pages == Some(0u32) {
                e is InvalidParams && e.text() == "max_pages must be >= 1"@
            } else {
                max_depth == Some(0u32) && e is InvalidParams && e.text()
                    == "max_depth must be >= 1"@
            },
        },
{
    proof {
        reveal_strlit("max_pages");
        reveal_strlit("max_depth");
        reveal_strlit(" must be >= 1");
        reveal_strlit("max_pages must be >= 1");
        reveal_strlit("max_depth must be >= 1");
        assert("max_pages"@ + " must be >= 1"@ =~= "max_pages must be >= 1"@);
        assert("max_depth"@ + " must be >= 1"@ =~= "max_depth must be >= 1"@);
    }
    if !engine_is_live {
        return Err(
            ToolError::Internal(
                String::from_str("crawl engine not initialised; check basemind serve startup logs"),
            ),
        );
    }
    match reject_zero_override("max_pages", max_pages) {
        Ok(_) => {},
        Err(e) => {
            return Err(e);
        },
    }
    match reject_zero_override("max_depth", max_depth) {
        Ok(_) => {},
        Err(e) => {
            return Err(e);
        },
    }
    if max_pages.is_none() && max_depth.is_none() {
        return Ok(EngineChoice::Shared);
    }
    let mut caps = defaults;
    match max_pages {
        Some(n) => {
            caps.max_pages = n;
        },
        None => {},
    }
    match max_depth {
        Some(n) => {
            caps.max_depth = n;
        },
        None => {},
    }
    Ok(EngineChoice::PerCall(caps))
}

/// The text of a page: its markdown, or its HTML where the markdown is missing or blank.
pub open spec fn body_of(markdown: Option<Seq<char>>, html: Seq<char>) -> Seq<char> {
    match markdown {
        Some(m) => if is_blank(m) {
            html
        } else {
            m
        },
        None => html,
    }
}

/// The text of a page that is indexed.
pub fn body_text(markdown: &Option<String>, html: &str) -> (body: String)
    ensures
        body@ == body_of(opt_text(*markdown), html@),
{
    match markdown {
        Some(m) => if str_is_blank(m.as_str()) {
            html.to_string()
        } else {
            m.clone()
        },
        None => html.to_string(),
    }
}

// ─── Scraping one page ───────────────────────────────────────────────────────

/// A fetched page.
#[derive(Debug)]
pub struct FetchedPage {
    /// The URL that the page came from.
    pub url: String,
    pub status_code: u16,
    pub content_type: String,
    pub markdown: Option<String>,
    pub html: String,
    /// What the parser says of `url`.
    pub check: UrlCheck,
}

/// A page to index, or to report as it is.
#[derive(Debug)]
pub struct PagePlan {
    pub scope: String,
    pub body: String,
}

/// What indexing one page came to.
#[derive(Debug, Clone, Copy)]
pub struct IndexedPage {
    pub bytes: usize,
    pub chunks_indexed: usize,
}

/// The answer to a scrape.
#[derive(Debug)]
pub struct WebScrapeResponse {
    pub url: String,
    pub final_url: String,
    pub status_code: u16,
    pub content_type: String,
    pub bytes: usize,
    pub chunks_indexed: usize,
    pub indexed: bool,
    pub scope: String,
}

/// Decide on a scraped page: refuse it, or give its scope and text.
pub fn plan_scrape(scope: Option<&str>, requested_scope: &str, page: &FetchedPage) -> (r: Result<
    PagePlan,
    ToolError,
>)
    ensures
        match r {
            Ok(p) => refusal("web_scrape"@, page.url@, page.check) is None && p.scope@ == scope_of(
                opt_str(scope),
                requested_scope@,
                page.check,
            ) && p.body@ == body_of(opt_text(page.markdown), page.html@),
            Err(e) => e is InvalidParams && refusal("web_scrape"@, page.url@, page.check) == Some(
                e.text(),
            ),
        },
{
    match reject_redirected_private_url("web_scrape", page.url.as_str(), &page.check) {
        Ok(_) => Ok(
            PagePlan {
                scope: resolve_scope(scope, requested_scope, &page.check),
                body: body_text(&page.markdown, page.html.as_str()),
            },
        ),
        Err(e) => Err(e),
    }
}

/// The answer to a scrape: what indexing came to, or the length of the text where nothing was
/// indexed.
pub fn scrape_response(url: &str, page: &FetchedPage, plan: PagePlan, indexed: Option<IndexedPage>) -> (out:
    WebScrapeResponse)
    ensures
        out.url@ == url@,
        out.final_url@ == page.url@,
        out.status_code == page.status_code,
        out.content_type@ == page.content_type@,
        out.scope == plan.scope,
        out.bytes == (match indexed {
            Some(i) => i.bytes as int,
            None => vstd::utf8::encode_utf8(plan.body@).len() as int,
        }),
        out.chunks_indexed == (match indexed {
            Some(i) => i.chunks_indexed,
            None => 0,
        }),
        out.indexed == (out.chunks_indexed > 0),
{
    let (bytes, chunks_indexed) = match indexed {
        Some(i) => (i.bytes, i.chunks_indexed),
        None => (plan.body.as_str().as_bytes().len(), 0),
    };
    WebScrapeResponse {
        url: url.to_string(),
        final_url: page.url.clone(),
        status_code: page.status_code,
        content_type: page.content_type.clone(),
        bytes,
        chunks_indexed,
        indexed: chunks_indexed > 0,
        scope: plan.scope,
    }
}

// ─── Crawling ────────────────────────────────────────────────────────────────

/// What became of one page of a crawl.
#[derive(Debug)]
pub struct WebCrawlPageOutcome {
    pub url: String,
    pub status_code: u16,
    pub chunks_indexed: usize,
    pub indexed: bool,
    pub error: Option<String>,
}

/// How indexing one page ended.
#[derive(Debug)]
pub enum IndexEnd {
    Indexed(usize),
    Failed(String),
    /// The task that indexed it did not finish.
    Lost(String),
}

/// The number of chunks that indexing wrote.
pub open spec fn chunks_of(end: IndexEnd) -> usize {
    match end {
        IndexEnd::Indexed(n) => n,
        _ => 0,
    }
}

/// The error that indexing ended with.
pub open spec fn error_of(end: IndexEnd) -> Option<Seq<char>> {
    match end {
        IndexEnd::Indexed(_) => None,
        IndexEnd::Failed(e) => Some(e@),
        IndexEnd::Lost(e) => Some("spawn_blocking: "@ + e@),
    }
}

/// What became of a page whose indexing ended so.
pub fn page_outcome(url: &str, status_code: u16, end: IndexEnd) -> (out: WebCrawlPageOutcome)
    ensures
        out.url@ == url@,
        out.status_code == status_code,
        out.chunks_indexed == chunks_of(end),
        out.indexed == (chunks_of(end) > 0),
        opt_text(out.error) == error_of(end),
{
    match end {
        IndexEnd::Indexed(n) => WebCrawlPageOutcome {
            url: url.to_string(),
            status_code,
            chunks_indexed: n,
            indexed: n > 0,
            error: None,
        },
        IndexEnd::Failed(e) => WebCrawlPageOutcome {
            url: url.to_string(),
            status_code,
            chunks_indexed: 0,
            indexed: false,
            error: Some(e),
        },
        IndexEnd::Lost(e) => {
            let mut t = String::from_str("spawn_blocking: ");
            t.append(e.as_str());
            WebCrawlPageOutcome {
                url: url.to_string(),
                status_code,
                chunks_indexed: 0,
                indexed: false,
                error: Some(t),
            }
        },
    }
}

/// How many of the first `n` slots hold an indexed page.
pub open spec fn indexed_upto(slots: Seq<Option<WebCrawlPageOutcome>>, n: int) -> int
    decreases n,
{
    if n <= 0 {
        0
    } else {
        indexed_upto(slots, n - 1) + (if slots[n - 1] is Some && slots[n - 1]->0.indexed {
            1int
        } else {
            0
        })
    }
}

/// How many chunks the indexed pages of the first `n` slots hold.
pub open spec fn chunks_upto(slots: Seq<Option<WebCrawlPageOutcome>>, n: int) -> int
    decreases n,
{
    if n <= 0 {
        0
    } else {
        chunks_upto(slots, n - 1) + (if slots[n - 1] is Some && slots[n - 1]->0.indexed {
            slots[n - 1]->0.chunks_indexed as int
        } else {
            0
        })
    }
}

/// The outcomes of the first `n` slots that have one, in order.
pub open spec fn outcomes_upto(slots: Seq<Option<WebCrawlPageOutcome>>, n: int) -> Seq<
    WebCrawlPageOutcome,
>
    decreases n,
{
    if n <= 0 {
        Seq::empty()
    } else if slots[n - 1] is Some {
        outcomes_upto(slots, n - 1).push(slots[n - 1]->0)
    } else {
        outcomes_upto(slots, n - 1)
    }
}

/// A crawl whose pages are being indexed: a slot for each page, filled once its outcome is known.
#[derive(Debug)]
pub struct CrawlRun {
    pub slots: Vec<Option<WebCrawlPageOutcome>>,
    pub pages_indexed: usize,
    pub total_chunks: usize,
}

/// A page that is to be indexed: its slot, scope and text.
#[derive(Debug)]
pub struct PageTask {
    pub slot: usize,
    pub scope: String,
    pub body: String,
}

/// Whether a page of a crawl may be indexed.
pub open spec fn may_index(p: FetchedPage) -> bool {
    refusal("web_crawl"@, p.url@, p.check) is None
}

/// What becomes of a page that is refused.
pub open spec fn is_refused(o: WebCrawlPageOutcome, p: FetchedPage) -> bool {
    &&& o.url@ == p.url@
    &&& o.status_code == p.status_code
    &&& o.chunks_indexed == 0
    &&& !o.indexed
    &&& opt_text(o.error) == refusal("web_crawl"@, p.url@, p.check)
}

/// The slots of the first `n` pages that may be indexed.
pub open spec fn task_slots(pages: Seq<FetchedPage>, n: int) -> Seq<int>
    decreases n,
{
    if n <= 0 {
        Seq::empty()
    } else if may_index(pages[n - 1]) {
        task_slots(pages, n - 1).push(n - 1)
    } else {
        task_slots(pages, n - 1)
    }
}

/// `t` is the task of its page.
pub open spec fn is_task(t: PageTask, pages: Seq<FetchedPage>, explicit: Option<Seq<char>>, seed: Seq<char>) -> bool {
    &&& t.slot < pages.len()
    &&& t.scope@ == scope_of(explicit, seed, pages[t.slot as int].check)
    &&& t.body@ == body_of(
        opt_text(pages[t.slot as int].markdown),
        pages[t.slot as int].html@,
    )
}

impl CrawlRun {
    /// The totals are those of the slots.
    pub open spec fn wf(&self) -> bool {
        &&& self.pages_indexed == indexed_upto(self.slots@, self.slots@.len() as int)
        &&& self.total_chunks == chunks_upto(self.slots@, self.slots@.len() as int)
    }

    /// Start indexing the pages of a crawl. Pages that may not be indexed are done at once; the
    /// tasks say what is to be indexed. `seed_scope` is the scope of the crawl as a whole.
    pub fn start(pages: &Vec<FetchedPage>, explicit: Option<&str>, seed_scope: &str) -> (r: (
        CrawlRun,
        Vec<PageTask>,
    ))
        ensures
            r.0.wf(),
            r.0.slots@.len() == pages@.len(),
            forall|i: int|
                0 <= i < pages@.len() ==> match #[trigger] r.0.slots@[i] {
                    Some(o) => !may_index(pages@[i]) && is_refused(o, pages@[i]),
                    None => may_index(pages@[i]),
                },
            r.1@.map_values(|t: PageTask| t.slot as int) == task_slots(
                pages@,
                pages@.len() as int,
            ),
            forall|k: int|
                0 <= k < r.1@.len() ==> is_task(
                    #[trigger] r.1@[k],
                    pages@,
                    opt_str(explicit),
                    seed_scope@,
                ),
    {
        let mut slots: Vec<Option<WebCrawlPageOutcome>> = Vec::new();
        let mut tasks: Vec<PageTask> = Vec::new();
        let mut i: usize = 0;
        let ghost slot_of = |t: PageTask| t.slot as int;
        assert(tasks@.map_values(slot_of) =~= Seq::empty());
        while i < pages.len()
            invariant
                i <= pages@.len(),
                slots@.len() == i,
                slot_of == (|t: PageTask| t.slot as int),
                forall|j: int|
                    0 <= j < i ==> match #[trigger] slots@[j] {
                        Some(o) => !may_index(pages@[j]) && is_refused(o, pages@[j]),
                        None => may_index(pages@[j]),
                    },
                tasks@.map_values(slot_of) == task_slots(pages@, i as int),
                forall|k: int|
                    0 <= k < tasks@.len() ==> is_task(
                        #[trigger] tasks@[k],
                        pages@,
                        opt_str(explicit),
                        seed_scope@,
                    ),
            decreases pages@.len() - i,
        {
            let page = &pages[i];
            match reject_redirected_private_url("web_crawl", page.url.as_str(), &page.check) {
                Err(e) => {
                    slots.push(
                        Some(
                            WebCrawlPageOutcome {
                                url: page.url.clone(),
                                status_code: page.status_code,
                                chunks_indexed: 0,
                                indexed: false,
                                error: Some(e.message().to_string()),
                            },
                        ),
                    );
                },
                Ok(_) => {
                    let ghost before = tasks@;
                    let task = PageTask {
                        slot: i,
                        scope: resolve_scope(explicit, seed_scope, &page.check),
                        body: body_text(&page.markdown, page.html.as_str()),
                    };
                    let ghost t = task;
                    tasks.push(task);
                    slots.push(None);
                    proof {
                        assert(tasks@.map_values(slot_of) =~= before.map_values(slot_of).push(
                            slot_of(t),
                        ));
                    }
                },
            }
            i += 1;
        }
        proof {
            lemma_nothing_indexed(slots@, pages@, slots@.len() as int);
        }
        (CrawlRun { slots, pages_indexed: 0, total_chunks: 0 }, tasks)
    }

    /// The outcome of the page in a slot has come in.
    pub fn complete(&mut self, slot: usize, outcome: WebCrawlPageOutcome)
        requires
            old(self).wf(),
            slot < old(self).slots@.len(),
            old(self).slots@[slot as int] is None,
            old(self).total_chunks + outcome.chunks_indexed <= usize::MAX,
        ensures
            final(self).wf(),
            final(self).slots@ == old(self).slots@.update(slot as int, Some(outcome)),
    {
        let ghost before = self.slots@;
        assert(self.slots.len() <= usize::MAX);
        proof {
            lemma_slot_counted(
                before,
                before.update(slot as int, Some(outcome)),
                slot as int,
                before.len() as int,
            );
            lemma_indexed_fits(before, before.len() as int, slot as int);
        }
        if outcome.indexed {
            self.pages_indexed = self.pages_indexed + 1;
            self.total_chunks = self.total_chunks + outcome.chunks_indexed;
        }
        self.slots[slot] = Some(outcome);
        assert(self.slots@ =~= before.update(slot as int, Some(outcome)));
    }

    /// The answer to the crawl.
    pub fn finish(self, seed_url: &str, scope: &str, error: Option<String>) -> (out: WebCrawlResponse)
        requires
            self.wf(),
        ensures
            out.seed_url@ == seed_url@,
            out.pages_visited == self.slots@.len(),
            out.pages_indexed == self.pages_indexed,
            out.total_chunks == self.total_chunks,
            out.scope@ == scope@,
            out.pages@ == outcomes_upto(self.slots@, self.slots@.len() as int),
            out.error == error,
    {
        let pages_visited: usize = self.slots.len();
        let pages_indexed: usize = self.pages_indexed;
        let total_chunks: usize = self.total_chunks;
        let ghost all = self.slots@;
        let mut slots = self.slots;
        let mut pages: Vec<WebCrawlPageOutcome> = Vec::new();
        let mut i: usize = 0;
        while i < slots.len()
            invariant
                i <= slots@.len(),
                slots@.len() == all.len(),
                forall|j: int| i <= j < all.len() ==> slots@[j] == all[j],
                pages@ == outcomes_upto(all, i as int),
            decreases slots@.len() - i,
        {
            let slot = slots[i].take();
            assert(slot == all[i as int]);
            match slot {
                Some(o) => {
                    pages.push(o);
                },
                None => {},
            }
            i += 1;
        }
        WebCrawlResponse {
            seed_url: seed_url.to_string(),
            pages_visited,
            pages_indexed,
            total_chunks,
            scope: scope.to_string(),
            pages,
            error,
        }
    }
}

/// The answer to a crawl.
#[derive(Debug)]
pub struct WebCrawlResponse {
    pub seed_url: String,
    pub pages_visited: usize,
    pub pages_indexed: usize,
    pub total_chunks: usize,
    pub scope: String,
    pub pages: Vec<WebCrawlPageOutcome>,
    pub error: Option<String>,
}

proof fn lemma_nothing_indexed(
    slots: Seq<Option<WebCrawlPageOutcome>>,
    pages: Seq<FetchedPage>,
    n: int,
)
    requires
        0 <= n <= slots.len() == pages.len(),
        forall|j: int|
            0 <= j < slots.len() ==> match #[trigger] slots[j] {
                Some(o) => !may_index(pages[j]) && is_refused(o, pages[j]),
                None => may_index(pages[j]),
            },
    ensures
        indexed_upto(slots, n) == 0,
        chunks_upto(slots, n) == 0,
    decreases n,
{
    if n > 0 {
        lemma_nothing_indexed(slots, pages, n - 1);
        let s = slots[n - 1];
    }
}

proof fn lemma_slot_counted(
    before: Seq<Option<WebCrawlPageOutcome>>,
    after: Seq<Option<WebCrawlPageOutcome>>,
    slot: int,
    n: int,
)
    requires
        0 <= slot < before.len(),
        before[slot] is None,
        after == before.update(slot, after[slot]),
        after[slot] is Some,
        0 <= n <= before.len(),
    ensures
        indexed_upto(after, n) == indexed_upto(before, n) + (if slot < n && after[slot]->0.indexed {
            1int
        } else {
            0
        }),
        chunks_upto(after, n) == chunks_upto(before, n) + (if slot < n && after[slot]->0.indexed {
            after[slot]->0.chunks_indexed as int
        } else {
            0
        }),
    decreases n,
{
    if n > 0 {
        lemma_slot_counted(before, after, slot, n - 1);
    }
}

proof fn lemma_indexed_fits(slots: Seq<Option<WebCrawlPageOutcome>>, n: int, free: int)
    requires
        0 <= n <= slots.len(),
        0 <= free < slots.len(),
        slots[free] is None,
    ensures
        0 <= indexed_upto(slots, n) <= n - (if free < n { 1int } else { 0 }),
    decreases n,
{
    if n > 0 {
        lemma_indexed_fits(slots, n - 1, free);
    }
}

proof fn lemma_outcomes_full(slots: Seq<Option<WebCrawlPageOutcome>>, n: int)
    requires
        0 <= n <= slots.len(),
        forall|i: int| 0 <= i < slots.len() ==> (#[trigger] slots[i]) is Some,
    ensures
        outcomes_upto(slots, n) == Seq::new(n as nat, |i: int| slots[i]->0),
    decreases n,
{
    let all = Seq::new(n as nat, |i: int| slots[i]->0);
    if n > 0 {
        lemma_outcomes_full(slots, n - 1);
    }
    assert(outcomes_upto(slots, n) =~= all);
}

/// Once every page has its outcome, the answer lists one outcome for each page, in the order of the
/// crawl, whatever the order in which they came in.
pub proof fn law_pages_keep_their_order(run: CrawlRun, out: WebCrawlResponse)
    requires
        forall|i: int| 0 <= i < run.slots@.len() ==> (#[trigger] run.slots@[i]) is Some,
        out.pages@ == outcomes_upto(run.slots@, run.slots@.len() as int),
    ensures
        out.pages@.len() == run.slots@.len(),
        forall|i: int| 0 <= i < out.pages@.len() ==> #[trigger] out.pages@[i] == run.slots@[i]->0,
{
    lemma_outcomes_full(run.slots@, run.slots@.len() as int);
}

/// Two pages may come in either way round: the run ends up the same.
pub proof fn law_order_does_not_matter(
    slots: Seq<Option<WebCrawlPageOutcome>>,
    i: int,
    a: WebCrawlPageOutcome,
    j: int,
    b: WebCrawlPageOutcome,
)
    requires
        0 <= i < slots.len(),
        0 <= j < slots.len(),
        i != j,
    ensures
        slots.update(i, Some(a)).update(j, Some(b)) == slots.update(j, Some(b)).update(i, Some(a)),
{
    assert(slots.update(i, Some(a)).update(j, Some(b)) =~= slots.update(j, Some(b)).update(
        i,
        Some(a),
    ));
}

/// A page on a private host is never handed to the indexer.
pub proof fn law_private_pages_are_not_indexed(pages: Seq<FetchedPage>, n: int, k: int)
    requires
        0 <= n <= pages.len(),
        0 <= k < task_slots(pages, n).len(),
    ensures
        0 <= task_slots(pages, n)[k] < n,
        pages[task_slots(pages, n)[k]].check is Allowed,
    decreases n,
{
    if n > 0 && k < task_slots(pages, n - 1).len() {
        law_private_pages_are_not_indexed(pages, n - 1, k);
    }
}

} // verus!
