use basemind::documents::{
    apply_rerank, attach_doc_metadata, rerank_error, rerank_step, unique_paths, DocMeta, DocumentSearchHit, RerankStep,
    Reranked,
};
use basemind::web::{
    body_text, page_outcome, plan_crawl, plan_scrape, reject_redirected_private_url, reject_zero_override,
    resolve_scope, scrape_response, CrawlCaps, CrawlRun, EngineChoice, FetchedPage, IndexEnd, IndexedPage, UrlCheck,
};

#[test]
fn rejects_zero_max_pages_and_depth() {
    assert!(reject_zero_override("max_pages", Some(0)).is_err());
    assert!(reject_zero_override("max_depth", Some(0)).is_err());
    assert!(reject_zero_override("max_pages", None).is_ok());
    assert!(reject_zero_override("max_pages", Some(1)).is_ok());
    assert!(reject_zero_override("max_depth", Some(50)).is_ok());
}

#[test]
fn zero_override_error_names_the_field_and_bound() {
    let err = reject_zero_override("max_pages", Some(0)).expect_err("0 must reject");
    assert!(
        err.message().contains("max_pages") && err.message().contains(">= 1"),
        "error should name the field and the >= 1 bound; got: {}",
        err.message()
    );
}

#[test]
fn rejects_private_redirect_target() {
    let private = UrlCheck::PrivateHost("169.254.169.254".to_string());
    let err = reject_redirected_private_url("web_scrape", "http://169.254.169.254/latest/meta-data/", &private)
        .expect_err("link-local redirect target must be rejected");
    assert!(
        err.message().contains("169.254.169.254"),
        "rejection should name the private host; got: {}",
        err.message()
    );
}

#[test]
fn rejects_loopback_redirect_target() {
    let loopback = UrlCheck::PrivateHost("127.0.0.1".to_string());
    assert!(reject_redirected_private_url("web_crawl", "http://127.0.0.1:9000/", &loopback).is_err());
    let local = UrlCheck::PrivateHost("localhost".to_string());
    assert!(reject_redirected_private_url("web_crawl", "http://localhost/admin", &local).is_err());
}

#[test]
fn allows_public_redirect_target() {
    let public = UrlCheck::Allowed("web:example.com".to_string());
    assert!(reject_redirected_private_url("web_scrape", "https://example.com/landing", &public).is_ok());
}

#[test]
fn an_unparsable_url_is_refused() {
    let bad = UrlCheck::Unparsable("no scheme".to_string());
    assert_eq!(
        reject_redirected_private_url("web_crawl", "x\"y", &bad).unwrap_err().message(),
        "web_crawl: refusing to index unparsable fetched URL \"x\\\"y\": no scheme"
    );
}

#[test]
fn scopes_follow_the_final_url() {
    let landed = UrlCheck::Allowed("web:cdn.example.net".to_string());
    assert_eq!(resolve_scope(Some("mine"), "web:example.com", &landed), "mine");
    assert_eq!(resolve_scope(None, "web:example.com", &landed), "web:cdn.example.net");
    let bad = UrlCheck::Unparsable("?".to_string());
    assert_eq!(resolve_scope(None, "web:example.com", &bad), "web:example.com");
}

fn page(url: &str, check: UrlCheck, markdown: Option<&str>) -> FetchedPage {
    FetchedPage {
        url: url.to_string(),
        status_code: 200,
        content_type: "text/html".to_string(),
        markdown: markdown.map(str::to_string),
        html: "<p>hi</p>".to_string(),
        check,
    }
}

fn public(host: &str) -> UrlCheck {
    UrlCheck::Allowed(format!("web:{host}"))
}

#[test]
fn blank_markdown_gives_way_to_html() {
    assert_eq!(body_text(&Some("# hi".to_string()), "<p>"), "# hi");
    assert_eq!(body_text(&Some(" \n".to_string()), "<p>"), "<p>");
    assert_eq!(body_text(&None, "<p>"), "<p>");
}

#[test]
fn a_scrape_reports_what_was_indexed() {
    let p = page("https://a/x", public("a"), None);
    let plan = plan_scrape(None, "web:seed", &p).unwrap();
    assert_eq!((plan.scope.as_str(), plan.body.as_str()), ("web:a", "<p>hi</p>"));
    let out = scrape_response("https://a", &p, plan, None);
    assert_eq!((out.bytes, out.chunks_indexed, out.indexed), (9, 0, false));
    let plan = plan_scrape(Some("s"), "web:seed", &p).unwrap();
    let out = scrape_response("https://a", &p, plan, Some(IndexedPage { bytes: 70, chunks_indexed: 2 }));
    assert_eq!((out.bytes, out.chunks_indexed, out.indexed, out.scope.as_str()), (70, 2, true, "s"));
    assert!(plan_scrape(None, "s", &page("u", UrlCheck::PrivateHost("h".to_string()), None)).is_err());
}

#[test]
fn crawls_choose_their_engine() {
    let d = CrawlCaps { max_pages: 10, max_depth: 2 };
    assert_eq!(plan_crawl(true, None, None, d).unwrap(), EngineChoice::Shared);
    assert_eq!(
        plan_crawl(true, Some(3), None, d).unwrap(),
        EngineChoice::PerCall(CrawlCaps { max_pages: 3, max_depth: 2 })
    );
    assert_eq!(
        plan_crawl(false, Some(0), None, d).unwrap_err().message(),
        "crawl engine not initialised; check basemind serve startup logs"
    );
    assert_eq!(plan_crawl(true, Some(0), Some(0), d).unwrap_err().message(), "max_pages must be >= 1");
    assert_eq!(plan_crawl(true, None, Some(0), d).unwrap_err().message(), "max_depth must be >= 1");
}

#[test]
fn a_crawl_keeps_the_order_of_its_pages() {
    let pages = vec![
        page("https://a/1", public("a"), Some("one")),
        page("http://10.0.0.1/", UrlCheck::PrivateHost("10.0.0.1".to_string()), None),
        page("https://b/2", public("b"), None),
        page("https://b/3", public("b"), None),
    ];
    let (mut run, tasks) = CrawlRun::start(&pages, None, "web:seed");
    let slots: Vec<usize> = tasks.iter().map(|t| t.slot).collect();
    assert_eq!(slots, [0, 2, 3]);
    assert_eq!((tasks[0].scope.as_str(), tasks[0].body.as_str()), ("web:a", "one"));
    run.complete(3, page_outcome("https://b/3", 200, IndexEnd::Lost("gone".to_string())));
    run.complete(2, page_outcome("https://b/2", 200, IndexEnd::Failed("disk".to_string())));
    run.complete(0, page_outcome("https://a/1", 200, IndexEnd::Indexed(4)));
    let out = run.finish("https://a", "web:a", None);
    assert_eq!((out.pages_visited, out.pages_indexed, out.total_chunks), (4, 1, 4));
    let urls: Vec<&str> = out.pages.iter().map(|p| p.url.as_str()).collect();
    assert_eq!(urls, ["https://a/1", "http://10.0.0.1/", "https://b/2", "https://b/3"]);
    assert!(out.pages[1].error.as_ref().unwrap().starts_with("web_crawl: refusing to index private/loopback host"));
    assert_eq!(out.pages[2].error.as_deref(), Some("disk"));
    assert_eq!(out.pages[3].error.as_deref(), Some("spawn_blocking: gone"));
}

// ─── Documents ───────────────────────────────────────────────────────────────

fn hit(path: &str, chunk: u32) -> DocumentSearchHit {
    DocumentSearchHit {
        path: path.to_string(),
        chunk_idx: chunk,
        text: format!("{path}#{chunk}"),
        mime_type: "text/plain".to_string(),
        byte_start: 0,
        byte_end: 1,
        distance_bits: 0.5f32.to_bits(),
        rerank_bits: None,
        document: None,
        keywords: vec![],
        categories: vec![],
    }
}

fn meta() -> Vec<DocMeta> {
    vec![
        DocMeta {
            path: "a.pdf".to_string(),
            keywords: vec!["Straße".to_string()],
            categories: vec!["PERSON".to_string()],
        },
        DocMeta { path: "b.pdf".to_string(), keywords: vec![], categories: vec!["Place".to_string()] },
    ]
}

#[test]
fn metadata_is_attached_and_filtered() {
    let hits = vec![hit("a.pdf", 0), hit("b.pdf", 1), hit("c.pdf", 2), hit("a.pdf", 3)];
    assert_eq!(unique_paths(&hits), ["a.pdf", "b.pdf", "c.pdf"]);
    let all = attach_doc_metadata(&hits, &meta(), None, None);
    assert_eq!(all.len(), 4);
    assert_eq!(all[3].keywords, ["Straße"]);
    assert_eq!(all.iter().map(|h| h.document).collect::<Vec<_>>(), [Some(0), Some(1), None, Some(0)]);
    assert!(all[2].keywords.is_empty() && all[2].categories.is_empty());
    let people = attach_doc_metadata(&hits, &meta(), Some("pErs"), None);
    assert_eq!(people.iter().map(|h| h.chunk_idx).collect::<Vec<_>>(), [0, 3]);
    let streets = attach_doc_metadata(&hits, &meta(), None, Some("STRA"));
    assert_eq!(streets.len(), 2);
    assert!(attach_doc_metadata(&hits, &meta(), Some("place"), Some("stra")).is_empty());
}

#[test]
fn reranking_is_decided_before_it_is_run() {
    let hits = vec![hit("a", 0), hit("b", 1)];
    assert!(matches!(rerank_step(&hits, false, "x", false), Ok(RerankStep::Done)));
    assert!(matches!(rerank_step(&vec![], true, "x", false), Ok(RerankStep::Done)));
    match rerank_step(&hits, true, "fast", true) {
        Ok(RerankStep::Rerank(texts)) => assert_eq!(texts, ["a#0", "b#1"]),
        _ => panic!("a rerank was due"),
    }
    assert_eq!(
        rerank_step(&hits, true, "no\"pe", false).err().unwrap().message(),
        "unknown reranker preset: \"no\\\"pe\""
    );
    assert_eq!(rerank_error("cannot download").message(), "rerank model load: cannot download");
    assert_eq!(rerank_error("shape mismatch").message(), "rerank inference: shape mismatch");
}

#[test]
fn hits_take_the_order_of_the_reranker() {
    let hits = vec![hit("a", 0), hit("b", 1)];
    let order = vec![Reranked { index: 1, score_bits: 7 }, Reranked { index: 0, score_bits: 3 }];
    let out = apply_rerank(&hits, &order).unwrap();
    assert_eq!(out.iter().map(|h| (h.path.as_str(), h.rerank_bits)).collect::<Vec<_>>(), [
        ("b", Some(7)),
        ("a", Some(3))
    ]);
    let stray = vec![Reranked { index: 0, score_bits: 1 }, Reranked { index: 2, score_bits: 1 }];
    assert_eq!(
        apply_rerank(&hits, &stray).err().unwrap().message(),
        "reranker returned out-of-range index 2 (got 2 hits)"
    );
}
