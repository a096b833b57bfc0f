use basemind::savings::{bytes_to_tokens, estimate};

#[test]
fn outline_baseline_is_5x_response() {
    let s = estimate("outline", 1_000_000, 400);
    assert_eq!(s.actual_tokens, 100);
    assert_eq!(s.baseline_tokens, 500);
    assert_eq!(s.est_tokens_saved, 400);
    assert_eq!(s.baseline, "full_file_read");
}

#[test]
fn search_symbols_savings_independent_of_corpus() {
    let big = estimate("search_symbols", 1_000_000, 400);
    let empty = estimate("search_symbols", 0, 400);
    assert_eq!(big.est_tokens_saved, empty.est_tokens_saved);
    assert_eq!(big.actual_tokens, 100);
    assert_eq!(big.baseline_tokens, 300);
    assert_eq!(big.est_tokens_saved, 200);
    assert_eq!(big.baseline, "grep_plus_read_top_hits");
}

#[test]
fn find_references_grep_baseline_floors_at_zero_for_empty_corpus() {
    let s = estimate("find_references", 0, 200);
    assert_eq!(s.actual_tokens, 50);
    assert_eq!(s.baseline_tokens, 150);
    assert_eq!(s.est_tokens_saved, 100);
    assert_eq!(s.baseline, "grep_top_hits");
}

#[test]
fn grep_savings_scale_with_response_not_corpus() {
    let small = estimate("search_symbols", 1_000_000, 400);
    let large = estimate("search_symbols", 1_000_000, 4_000);
    assert!(
        large.est_tokens_saved > small.est_tokens_saved,
        "bigger response must yield bigger savings: {} !> {}",
        large.est_tokens_saved,
        small.est_tokens_saved
    );
    assert_eq!(large.est_tokens_saved, 2_000);
}

#[test]
fn no_baseline_tools_claim_zero_savings() {
    for tool in [
        "memory_get",
        "memory_put",
        "search_documents",
        "status",
        "web_scrape",
        "web_crawl",
        "web_map",
        "workspace_grep",
    ] {
        let s = estimate(tool, 1_000_000, 500);
        assert_eq!(s.est_tokens_saved, 0, "{tool} must not claim savings");
        assert_eq!(s.baseline, "no_baseline", "{tool} must label no_baseline");
    }
}

#[test]
fn unknown_tool_is_unclassified() {
    let s = estimate("not_a_real_tool", 1_000_000, 100);
    assert_eq!(s.baseline, "unclassified");
    assert_eq!(s.est_tokens_saved, 0);
}

#[test]
fn dependents_read_twice_the_response() {
    let s = estimate("dependents", 7, 800);
    assert_eq!(s.actual_tokens, 200);
    assert_eq!(s.baseline_tokens, 400);
    assert_eq!(s.baseline, "grep_imports_top_hits");
}

#[test]
fn a_baseline_saturates_instead_of_wrapping() {
    let s = estimate("outline", 0, u64::MAX);
    assert_eq!(s.actual_tokens, u64::MAX / 4);
    assert_eq!(s.baseline_tokens, u64::MAX);
}

#[test]
fn four_bytes_make_a_token() {
    assert_eq!(bytes_to_tokens(0), 0);
    assert_eq!(bytes_to_tokens(3), 0);
    assert_eq!(bytes_to_tokens(401), 100);
}
