//! Heuristic estimator for how many tokens a tool call saved the agent against the grep-and-read
//! baseline. Every row carries the name of the baseline, so that the assumption is disclosed.
//!
//! Bytes become tokens by the `bytes / 4` rule of thumb.
use vstd::prelude::*;

use crate::text::same_str;

verus! {

/// One row of "tokens saved" reasoning.
#[derive(Debug, Clone, Copy)]
pub struct SavingsRow {
    /// Estimated tokens the agent would have spent without the tool.
    pub baseline_tokens: u64,
    /// Estimated tokens spent on this call's response.
    pub actual_tokens: u64,
    /// `baseline_tokens - actual_tokens`, saturating at 0.
    pub est_tokens_saved: u64,
    /// Disclosed name of the baseline model.
    pub baseline: &'static str,
}

/// `bytes / 4` token estimate.
pub fn bytes_to_tokens(bytes: u64) -> (tokens: u64)
    ensures
        tokens == bytes / 4,
{
    bytes / 4
}

/// Grep-style name searches: the agent pays for the grep output and for opening a few top hits.
pub const GREP_READ_MULTIPLIER: u64 = 3;

/// Reverse-import lookups leave less follow-up reading than a name search.
pub const DEPENDENTS_READ_MULTIPLIER: u64 = 2;

/// Tools with no honest grep-and-read baseline: recorded, but credited with nothing.
pub open spec fn without_baseline(tool: Seq<char>) -> bool {
    ||| tool == "workspace_grep"@
    ||| tool == "call_graph"@
    ||| tool == "memory_get"@
    ||| tool == "memory_put"@
    ||| tool == "memory_list"@
    ||| tool == "memory_search"@
    ||| tool == "memory_delete"@
    ||| tool == "search_documents"@
    ||| tool == "telemetry_summary"@
    ||| tool == "rescan"@
    ||| tool == "cache_stats"@
    ||| tool == "cache_gc"@
    ||| tool == "cache_clear"@
    ||| tool == "status"@
    ||| tool == "repo_info"@
    ||| tool == "list_files"@
    ||| tool == "working_tree_status"@
    ||| tool == "recent_changes"@
    ||| tool == "commits_touching"@
    ||| tool == "find_commits_by_path"@
    ||| tool == "diff_file"@
    ||| tool == "diff_outline"@
    ||| tool == "blame_file"@
    ||| tool == "blame_symbol"@
    ||| tool == "web_scrape"@
    ||| tool == "web_crawl"@
    ||| tool == "web_map"@
}

/// The baseline of a tool: how many times the response the agent would have read, and the name
/// under which that assumption is disclosed.
pub open spec fn baseline_of(tool: Seq<char>) -> (nat, Seq<char>) {
    if tool == "outline"@ {
        (5, "full_file_read"@)
    } else if tool == "search_symbols"@ {
        (GREP_READ_MULTIPLIER as nat, "grep_plus_read_top_hits"@)
    } else if tool == "find_references"@ || tool == "find_callers"@ || tool
        == "find_implementations"@ {
        (GREP_READ_MULTIPLIER as nat, "grep_top_hits"@)
    } else if tool == "dependents"@ {
        (DEPENDENTS_READ_MULTIPLIER as nat, "grep_imports_top_hits"@)
    } else if tool == "hot_files"@ {
        (3, "git_log_per_file"@)
    } else if tool == "symbol_history"@ {
        (4, "per_commit_outline_diff"@)
    } else if without_baseline(tool) {
        (1, "no_baseline"@)
    } else {
        (1, "unclassified"@)
    }
}

fn lacks_baseline(tool: &str) -> (yes: bool)
    ensures
        yes == without_baseline(tool@),
{
    same_str(tool, "workspace_grep") || same_str(tool, "call_graph") || same_str(tool, "memory_get")
        || same_str(tool, "memory_put") || same_str(tool, "memory_list") || same_str(
        tool,
        "memory_search",
    ) || same_str(tool, "memory_delete") || same_str(tool, "search_documents") || same_str(
        tool,
        "telemetry_summary",
    ) || same_str(tool, "rescan") || same_str(tool, "cache_stats") || same_str(tool, "cache_gc")
        || same_str(tool, "cache_clear") || same_str(tool, "status") || same_str(tool, "repo_info")
        || same_str(tool, "list_files") || same_str(tool, "working_tree_status") || same_str(
        tool,
        "recent_changes",
    ) || same_str(tool, "commits_touching") || same_str(tool, "find_commits_by_path") || same_str(
        tool,
        "diff_file",
    ) || same_str(tool, "diff_outline") || same_str(tool, "blame_file") || same_str(
        tool,
        "blame_symbol",
    ) || same_str(tool, "web_scrape") || same_str(tool, "web_crawl") || same_str(tool, "web_map")
}

fn baseline_row(tool: &str) -> (r: (u64, &'static str))
    ensures
        r.0 == baseline_of(tool@).0,
        r.1@ == baseline_of(tool@).1,
        1 <= r.0 <= 5,
{
    if same_str(tool, "outline") {
        (5, "full_file_read")
    } else if same_str(tool, "search_symbols") {
        (GREP_READ_MULTIPLIER, "grep_plus_read_top_hits")
    } else if same_str(tool, "find_references") || same_str(tool, "find_callers") || same_str(
        tool,
        "find_implementations",
    ) {
        (GREP_READ_MULTIPLIER, "grep_top_hits")
    } else if same_str(tool, "dependents") {
        (DEPENDENTS_READ_MULTIPLIER, "grep_imports_top_hits")
    } else if same_str(tool, "hot_files") {
        (3, "git_log_per_file")
    } else if same_str(tool, "symbol_history") {
        (4, "per_commit_outline_diff")
    } else if lacks_baseline(tool) {
        (1, "no_baseline")
    } else {
        (1, "unclassified")
    }
}

/// The least of a count and the largest `u64`.
pub open spec fn clamp_u64(n: int) -> int {
    if n > u64::MAX {
        u64::MAX as int
    } else {
        n
    }
}

/// Estimate baseline and actual tokens for one tool call.
///
/// `_corpus_bytes` is the byte count of every indexed file. The baselines derive from the response
/// payload alone, so it does not enter the estimate.
pub fn estimate(tool: &str, _corpus_bytes: u64, resp_bytes: u64) -> (row: SavingsRow)
    ensures
        row.actual_tokens == resp_bytes / 4,
        row.baseline_tokens == clamp_u64((resp_bytes / 4) * baseline_of(tool@).0),
        row.est_tokens_saved == row.baseline_tokens - row.actual_tokens,
        row.baseline@ == baseline_of(tool@).1,
{
    let actual: u64 = bytes_to_tokens(resp_bytes);
    let (times, name) = baseline_row(tool);
    proof {
        assert(actual * times >= actual) by (nonlinear_arith)
            requires
                times >= 1,
                actual >= 0,
        ;
    }
    let baseline: u64 = match actual.checked_mul(times) {
        Some(b) => b,
        None => u64::MAX,
    };
    SavingsRow {
        baseline_tokens: baseline,
        actual_tokens: actual,
        est_tokens_saved: baseline.saturating_sub(actual),
        baseline: name,
    }
}

/// The tokens that a call of `tool` with a response of `resp_bytes` is credited with.
pub open spec fn saved(tool: Seq<char>, resp_bytes: u64) -> int {
    clamp_u64((resp_bytes / 4) * baseline_of(tool).0) - resp_bytes / 4
}

/// Savings grow with the response: a larger payload is never credited with less, as long as its
/// baseline does not saturate; and with more, where the tool has a baseline above the response and
/// the payload is larger by a token.
pub proof fn law_savings_scale_with_response(tool: Seq<char>, small: u64, large: u64)
    requires
        small <= large,
        (large / 4) * baseline_of(tool).0 <= u64::MAX,
    ensures
        saved(tool, small) <= saved(tool, large),
        baseline_of(tool).0 > 1 && small / 4 < large / 4 ==> saved(tool, small) < saved(tool, large),
{
    let times = baseline_of(tool).0 as int;
    let a = (small / 4) as int;
    let b = (large / 4) as int;
    assert(a * times - a == a * (times - 1)) by (nonlinear_arith);
    assert(b * times - b == b * (times - 1)) by (nonlinear_arith);
    assert(a * (times - 1) <= b * (times - 1)) by (nonlinear_arith)
        requires
            0 <= a <= b,
            times >= 1,
    ;
    assert(a * times <= b * times) by (nonlinear_arith)
        requires
            0 <= a <= b,
            times >= 1,
    ;
    if times > 1 && a < b {
        assert(a * (times - 1) < b * (times - 1)) by (nonlinear_arith)
            requires
                0 <= a < b,
                times > 1,
        ;
    }
}

/// A tool without a baseline claims nothing, whatever its response.
pub proof fn law_no_baseline_claims_nothing(tool: Seq<char>, resp_bytes: u64)
    requires
        baseline_of(tool).1 == "no_baseline"@ || baseline_of(tool).1 == "unclassified"@,
    ensures
        saved(tool, resp_bytes) == 0,
{
    reveal_strlit("no_baseline");
    reveal_strlit("unclassified");
    reveal_strlit("full_file_read");
    reveal_strlit("grep_plus_read_top_hits");
    reveal_strlit("grep_top_hits");
    reveal_strlit("grep_imports_top_hits");
    reveal_strlit("git_log_per_file");
    reveal_strlit("per_commit_outline_diff");
    assert("unclassified"@[0] == 'u' && "no_baseline"@[0] == 'n');
    assert("full_file_read"@[0] == 'f');
    assert("grep_top_hits"@[0] == 'g');
}

} // verus!
