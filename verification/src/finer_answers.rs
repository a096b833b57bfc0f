//! Orders, bounds, totals and texts that the answers rest on.
use vstd::prelude::*;
use vstd::utf8::encode_utf8;

use crate::answers::{lemma_part_of, part_of};
use crate::audit::{command_reason, first_token, word_len, CodeState};
use crate::callers::{use_key, UseAt};
use crate::calls::{
    is_scan_page, matching, named, past, scan_cap, CallRow, CallScanPage, InRamCallIndex,
};
use crate::cursor::symbol_of;
use crate::documents::{distinct_paths, DocumentSearchHit};
use crate::git::blamed_bytes;
use crate::governance::audit_cap;
use crate::graph::{
    callable, callee_in, callee_upto, callees_of_name, definition_sites, defines, in_scope,
    index_calls, inside, sites_at, CallGraphNode, SiteAt,
};
use crate::keys::{be4, call_key};
use crate::lang::{query_text, section_if_any, QueryKind};
use crate::memory_answers::mapped;
use crate::memory_tools::list_cap;
use crate::model::{path_index, paths_ascend, MappedFile};
use crate::navigate::lossy_text;
use crate::proposals::{description_of, mine_bounds, partner_names, MineBounds};
use crate::stackgraph::{without, without_from};
use crate::text::{
    decimal, is_space, joined, lex_less, lower_of, occurs_at, trim_end_of, trim_of, trim_start_of,
};
use crate::tools::count_cap;
use crate::walk::{
    around, callee_neighbours, expandable, found_from, has_finder, is_call_graph, linked,
    Truncation,
};
use crate::web::{chunks_upto, indexed_upto, WebCrawlPageOutcome};

verus! {

// ─── Orders ──────────────────────────────────────────────────────────────────

/// Byte strings come in the order of the first byte in which they differ, and a front before what goes on from it.
pub proof fn law_byte_order(front: Seq<u8>, a: Seq<u8>, b: Seq<u8>)
    ensures
        a.len() > 0 && b.len() > 0 && a[0] != b[0] ==> (lex_less(front + a, front + b) <==> a[0] < b[0]),
        b.len() > 0 ==> lex_less(front, front + b) && !lex_less(front + b, front),
    decreases front.len(),
{
    reveal_with_fuel(lex_less, 2);
    if front.len() == 0 {
        assert(front + a =~= a);
        assert(front + b =~= b);
    } else {
        let rest = front.drop_first();
        law_byte_order(rest, a, b);
        assert((front + a).drop_first() =~= rest + a);
        assert((front + b).drop_first() =~= rest + b);
        assert((front + a)[0] == front[0] && (front + b)[0] == front[0]);
    }
}

proof fn lemma_be4_order(front: Seq<u8>, a: u32, b: u32)
    requires
        a < b,
    ensures
        lex_less(front + be4(a), front + be4(b)),
{
    let x = be4(a);
    let y = be4(b);
    let d = if x[0] != y[0] {
        0int
    } else if x[1] != y[1] {
        1int
    } else if x[2] != y[2] {
        2int
    } else {
        3int
    };
    assert(x[0] as int * 16777216 + x[1] as int * 65536 + x[2] as int * 256 + x[3] as int == a);
    assert(y[0] as int * 16777216 + y[1] as int * 65536 + y[2] as int * 256 + y[3] as int == b);
    assert(x[d] < y[d]);
    assert(x.take(d) =~= y.take(d));
    law_byte_order(front + x.take(d), x.skip(d), y.skip(d));
    assert(front + x.take(d) + x.skip(d) =~= front + x);
    assert(front + x.take(d) + y.skip(d) =~= front + y);
    assert(x.skip(d)[0] == x[d] && y.skip(d)[0] == y[d]);
}

/// The call sites of one callee in one file come in the order of their positions, and so do the uses in one file.
pub proof fn law_sites_come_in_order(callee: Seq<char>, rel: Seq<u8>, a: u32, b: u32)
    requires
        a < b,
    ensures
        lex_less(call_key(callee, rel, a), call_key(callee, rel, b)),
        lex_less(use_key(UseAt { path: rel, start: a }), use_key(UseAt { path: rel, start: b })),
{
    let front = crate::keys::be2(encode_utf8(callee).len() as int) + encode_utf8(callee) + rel;
    lemma_be4_order(front, a, b);
    lemma_be4_order(rel.push(0), a, b);
}

// ─── Bounds ──────────────────────────────────────────────────────────────────

/// How far scans go: eight rows for each that is asked for, sixty-four symbols for each; and never less than two thousand, or a
/// thousand for proposals and audits.
pub proof fn law_scan_bounds(limit: int)
    requires
        0 <= limit <= 1_000_000,
    ensures
        limit > 250 ==> scan_cap(limit) == 8 * limit,
        limit <= 250 ==> scan_cap(limit) == 2000,
        limit * 64 > 2000 ==> count_cap(limit) == limit * 64,
        limit * 64 <= 2000 ==> count_cap(limit) == 2000,
        limit > 125 ==> list_cap(limit) == 8 * limit && audit_cap(limit) == 8 * limit,
        limit <= 125 ==> list_cap(limit) == 1000 && audit_cap(limit) == 1000,
{
}

/// Mining walks two hundred commits and at most two thousand, asks for five common changes, and passes over commits of more than
/// twenty-five files and in any case of more than two hundred, unless told otherwise.
pub proof fn law_mining_bounds(
    window: Option<u32>,
    min_support: Option<u32>,
    max_files: Option<u32>,
    b: MineBounds,
)
    requires
        call_ensures(mine_bounds, (window, min_support, max_files), b),
    ensures
        window is None ==> b.window == 200,
        window is Some && window->0 <= 2000 ==> b.window == window->0,
        window is Some && window->0 > 2000 ==> b.window == 2000,
        min_support is None ==> b.min_support == 5,
        min_support is Some ==> b.min_support == min_support->0,
        max_files is None ==> b.max_files_per_commit == 25,
        max_files is Some && max_files->0 <= 200 ==> b.max_files_per_commit == max_files->0,
        max_files is Some && max_files->0 > 200 ==> b.max_files_per_commit == 200,
{
}

// ─── Totals ──────────────────────────────────────────────────────────────────

/// The total of a scan is the number of rows behind the cursor in whose callee the bytes of the name stand, unless it is said to be
/// partial.
pub proof fn law_reference_totals(
    rows: Seq<CallRow>,
    name: Seq<char>,
    cursor: Option<Seq<u8>>,
    limit: int,
    page: CallScanPage,
)
    requires
        is_scan_page(page, matching(rows, name, cursor), limit),
        !page.total_is_partial,
    ensures
        page.total == rows.filter(
            |r: CallRow|
                (cursor is Some ==> lex_less(cursor->0, r.key)) && part_of(
                    encode_utf8(name),
                    encode_utf8(r.callee),
                ),
        ).len(),
{
    let p = |r: CallRow|
        (cursor is Some ==> lex_less(cursor->0, r.key)) && part_of(
            encode_utf8(name),
            encode_utf8(r.callee),
        );
    crate::seqs::lemma_filter_twice(rows, past(cursor), named(name));
    assert forall|i: int| 0 <= i < rows.len() implies p(#[trigger] rows[i]) == (past(cursor)(rows[i]) && named(
        name,
    )(rows[i])) by {
        lemma_part_of(encode_utf8(name), encode_utf8(rows[i].callee));
    }
    crate::seqs::lemma_filter_agree(
        rows,
        p,
        |r: CallRow| past(cursor)(r) && named(name)(r),
    );
}

/// A crawl counts the pages that were indexed, and the chunks of those pages.
pub proof fn law_crawl_totals(slots: Seq<Option<WebCrawlPageOutcome>>, n: int)
    requires
        0 <= n <= slots.len(),
    ensures
        indexed_upto(slots, n) == slots.take(n).filter(
            |s: Option<WebCrawlPageOutcome>| s is Some && s->0.indexed,
        ).len(),
        chunks_upto(slots, n) == slots.take(n).fold_left(
            0int,
            |sum: int, s: Option<WebCrawlPageOutcome>|
                if s is Some && s->0.indexed {
                    sum + s->0.chunks_indexed
                } else {
                    sum
                },
        ),
    decreases n,
{
    reveal(Seq::filter);
    let f = |sum: int, s: Option<WebCrawlPageOutcome>|
        if s is Some && s->0.indexed {
            sum + s->0.chunks_indexed
        } else {
            sum
        };
    if n > 0 {
        law_crawl_totals(slots, n - 1);
        assert(slots.take(n).drop_last() =~= slots.take(n - 1));
        assert(slots.take(n).fold_left(0int, f) == f(
            slots.take(n).drop_last().fold_left(0int, f),
            slots.take(n).last(),
        ));
    }
}

/// Every document that is read is that of a hit.
pub proof fn law_documents_are_of_hits(hits: Seq<DocumentSearchHit>, n: int, k: int) -> (h: int)
    requires
        0 <= n <= hits.len(),
        0 <= k < distinct_paths(hits, n).len(),
    ensures
        0 <= h < n,
        distinct_paths(hits, n)[k] == hits[h].path@,
    decreases n,
{
    if k < distinct_paths(hits, n - 1).len() {
        law_documents_are_of_hits(hits, n - 1, k)
    } else {
        n - 1
    }
}

// ─── Call graphs ─────────────────────────────────────────────────────────────

/// A call graph starts at the name asked for, goes no deeper than allowed, has no more nodes than allowed, and no two of one name.
pub proof fn law_call_graphs_are_bounded(
    nodes: Seq<CallGraphNode>,
    reason: Option<Truncation>,
    nbr: crate::walk::Neighbourhood,
    root: Seq<char>,
    root_sites: Seq<SiteAt>,
    max_depth: u32,
    max_nodes: int,
    upward: bool,
    i: int,
    j: int,
)
    requires
        is_call_graph(nodes, reason, nbr, root, root_sites, max_depth, max_nodes, upward),
        0 <= i < j < nodes.len(),
    ensures
        nodes[0].name@ == root,
        nodes[0].depth == 0,
        nodes.len() <= max_nodes,
        nodes[i].depth <= nodes[j].depth,
        nodes[j].depth <= max_depth,
        nodes[j].depth >= 1,
        nodes[i].name@ != nodes[j].name@,
        reason == Some(Truncation::MaxNodes) ==> nodes.len() >= max_nodes,
        reason is None ==> nodes[j].depth < max_depth,
{
    assert(has_finder(nodes, nbr, upward, j));
    let k = choose|k: int| 0 <= k < j && #[trigger] found_from(nodes, nbr, upward, j, k);
    assert(linked(nodes, upward, j, k));
    assert(expandable(nodes, nbr, max_depth, k));
    if reason is None {
        assert(!crate::walk::hits_depth(nodes, max_depth, nodes.len() as int));
    }
}

/// Every edge of a graph towards callees is a call: in a file, the one asked about where the edge leaves the root and one is, a call
/// of the name that the edge leads to lies in a callable symbol of the name that it leaves. The result gives the
/// file, the symbol and the call.
pub proof fn law_callee_edges_are_calls(
    index: &InRamCallIndex,
    files: Seq<MappedFile>,
    path: Option<Seq<u8>>,
    cap: int,
    nodes: Seq<CallGraphNode>,
    reason: Option<Truncation>,
    root: Seq<char>,
    root_sites: Seq<SiteAt>,
    max_depth: u32,
    max_nodes: int,
    b: int,
    e: int,
) -> (at: (int, int, int))
    requires
        paths_ascend(files),
        is_call_graph(
            nodes,
            reason,
            callee_neighbours(Some(index), files, path, cap),
            root,
            root_sites,
            max_depth,
            max_nodes,
            false,
        ),
        0 <= b < nodes.len(),
        0 <= e < nodes[b].edges_to@.len(),
    ensures
        nodes[b].edges_to@[e] < nodes.len(),
        0 <= at.0 < files.len(),
        b == 0 && path is Some ==> files[at.0].path@ == path->0,
        0 <= at.1 < files[at.0].map.symbols@.len(),
        files[at.0].map.symbols@[at.1].name@ == nodes[b].name@,
        callable(files[at.0].map.symbols@[at.1]),
        ({
            let calls = index.calls_of(files[at.0].path@);
            &&& 0 <= at.2 < calls.len()
            &&& calls[at.2].callee@ == nodes[nodes[b].edges_to@[e] as int].name@
            &&& files[at.0].map.symbols@[at.1].start_byte <= calls[at.2].start_byte
            &&& calls[at.2].start_byte < files[at.0].map.symbols@[at.1].end_byte
        }),
{
    let nbr = callee_neighbours(Some(index), files, path, cap);
    let a = nodes[b].edges_to@[e] as int;
    assert(nodes[b].edges_to@[e] < nodes.len());
    assert(linked(nodes, false, a, b));
    let asked = if b == 0 {
        path
    } else {
        None
    };
    let name = nodes[b].name@;
    let callee = nodes[a].name@;
    let scope = in_scope(files, asked);
    assert(around(nodes, nbr, b) == callees_of_name(Some(index), files, name, asked, cap));
    assert(callee_upto(Some(index), scope, name, callee, scope.len() as int));
    let at = choose|at: int|
        0 <= at < scope.len() && callee_in(
            #[trigger] scope[at],
            index_calls(Some(index), scope[at].path@),
            name,
            callee,
            index_calls(Some(index), scope[at].path@).len() as int,
        );
    let f = match asked {
        Some(p) => path_index(files, p),
        None => at,
    };
    assert(scope[at] == files[f]);
    let calls = index_calls(Some(index), files[f].path@);
    let symbols = files[f].map.symbols@;
    assert(callee_in(files[f], calls, name, callee, calls.len() as int));
    let c = choose|c: int|
        0 <= c < calls.len() && (#[trigger] calls[c]).callee@ == callee && inside(
            symbols,
            name,
            calls[c].start_byte,
        );
    let s = choose|s: int|
        0 <= s < symbols.len() && defines(#[trigger] symbols[s], name) && symbols[s].start_byte
            <= calls[c].start_byte < symbols[s].end_byte;
    (f, s, c)
}

/// A node of a graph towards callees shows every definition of its name.
pub proof fn law_callee_nodes_show_their_definitions(
    index: &InRamCallIndex,
    files: Seq<MappedFile>,
    path: Option<Seq<u8>>,
    cap: int,
    nodes: Seq<CallGraphNode>,
    reason: Option<Truncation>,
    root: Seq<char>,
    root_sites: Seq<SiteAt>,
    max_depth: u32,
    max_nodes: int,
    a: int,
    f: int,
    s: int,
) -> (k: int)
    requires
        paths_ascend(files),
        is_call_graph(
            nodes,
            reason,
            callee_neighbours(Some(index), files, path, cap),
            root,
            root_sites,
            max_depth,
            max_nodes,
            false,
        ),
        0 < a < nodes.len(),
        0 <= f < files.len(),
        0 <= s < files[f].map.symbols@.len(),
        files[f].map.symbols@[s].name@ == nodes[a].name@,
        callable(files[f].map.symbols@[s]),
    ensures
        0 <= k < nodes[a].sites@.len(),
        nodes[a].sites@[k].path@ == files[f].path@,
        nodes[a].sites@[k].start_row == files[f].map.symbols@[s].start_row,
        nodes[a].sites@[k].start_col == files[f].map.symbols@[s].start_col,
{
    let nbr = callee_neighbours(Some(index), files, path, cap);
    assert(has_finder(nodes, nbr, false, a));
    let b = choose|b: int| 0 <= b < a && #[trigger] found_from(nodes, nbr, false, a, b);
    let asked = if b == 0 {
        path
    } else {
        None
    };
    assert(around(nodes, nbr, b) == callees_of_name(Some(index), files, nodes[b].name@, asked, cap));
    assert(sites_at(nodes[a].sites@) == definition_sites(files, nodes[a].name@, None));
    crate::graph::law_every_definition_is_a_site(files, nodes[a].name@, None, nodes[a].sites@, f, s)
}

// ─── Commands ────────────────────────────────────────────────────────────────

proof fn lemma_word(word: Seq<char>, rest: Seq<char>)
    requires
        forall|i: int| 0 <= i < word.len() ==> !is_space(#[trigger] word[i]),
        rest.len() == 0 || is_space(rest[0]),
    ensures
        word_len(word + rest) == word.len(),
    decreases word.len(),
{
    if word.len() > 0 {
        let tail = word.drop_first();
        assert((word + rest)[0] == word[0]);
        assert forall|i: int| 0 <= i < tail.len() implies !is_space(#[trigger] tail[i]) by {
            assert(tail[i] == word[i + 1]);
        }
        lemma_word(tail, rest);
        assert((word + rest).drop_first() =~= tail + rest);
    } else {
        assert(word + rest =~= rest);
    }
}

proof fn lemma_skip_space(space: Seq<char>, rest: Seq<char>)
    requires
        forall|i: int| 0 <= i < space.len() ==> is_space(#[trigger] space[i]),
        rest.len() == 0 || !is_space(rest[0]),
    ensures
        trim_start_of(space + rest) == rest,
    decreases space.len(),
{
    if space.len() > 0 {
        let tail = space.drop_first();
        assert((space + rest)[0] == space[0]);
        assert forall|i: int| 0 <= i < tail.len() implies is_space(#[trigger] tail[i]) by {
            assert(tail[i] == space[i + 1]);
        }
        lemma_skip_space(tail, rest);
        assert((space + rest).drop_first() =~= tail + rest);
    } else {
        assert(space + rest =~= rest);
    }
}

/// A command is warned of exactly when its first word, past white space, is a path of the code map that the store has no longer.
pub proof fn law_command_warnings(code: CodeState, space: Seq<char>, word: Seq<char>, rest: Seq<char>)
    requires
        forall|i: int| 0 <= i < space.len() ==> is_space(#[trigger] space[i]),
        word.len() > 0,
        forall|i: int| 0 <= i < word.len() ==> !is_space(#[trigger] word[i]),
        rest.len() == 0 || is_space(rest[0]),
    ensures
        command_reason(code, space + word + rest) is Some <==> mapped(code.files@, encode_utf8(word)) && forall|
            i: int,
        |
            0 <= i < code.indexed@.len() ==> (#[trigger] code.indexed@[i])@ != encode_utf8(word),
{
    let cmd = space + word + rest;
    let s = word + rest;
    assert(cmd =~= space + s);
    assert(s[0] == word[0]);
    lemma_skip_space(space, s);
    lemma_word(word, rest);
    assert(s.take(word.len() as int) =~= word);
    assert(first_token(cmd) == word);
    assert(mapped(code.files@, encode_utf8(word)) <==> crate::model::file_table(
        code.files@,
    ).contains_key(encode_utf8(word)));
}

// ─── Texts ───────────────────────────────────────────────────────────────────

/// Trimming takes white space off both ends and nothing else.
pub proof fn law_trimming(before: Seq<char>, text: Seq<char>, after: Seq<char>)
    requires
        forall|i: int| 0 <= i < before.len() ==> is_space(#[trigger] before[i]),
        forall|i: int| 0 <= i < after.len() ==> is_space(#[trigger] after[i]),
        text.len() > 0,
        !is_space(text[0]),
        !is_space(text.last()),
    ensures
        trim_of(before + text + after) == text,
{
    let s = text + after;
    assert(before + text + after =~= before + s);
    assert(s[0] == text[0]);
    lemma_skip_space(before, s);
    lemma_drop_space(text, after);
}

proof fn lemma_drop_space(text: Seq<char>, after: Seq<char>)
    requires
        forall|i: int| 0 <= i < after.len() ==> is_space(#[trigger] after[i]),
        text.len() > 0,
        !is_space(text.last()),
    ensures
        trim_end_of(text + after) == text,
    decreases after.len(),
{
    let s = text + after;
    if after.len() > 0 {
        let front = after.drop_last();
        assert(s.last() == after[after.len() - 1]);
        assert forall|i: int| 0 <= i < front.len() implies is_space(#[trigger] front[i]) by {
            assert(front[i] == after[i]);
        }
        lemma_drop_space(text, front);
        assert(s.drop_last() =~= text + front);
    } else {
        assert(s =~= text);
    }
}

/// Lower case is that of the letters of ASCII, one for one: any other character stays.
pub proof fn law_lower_case(s: Seq<char>, i: int)
    requires
        0 <= i < s.len(),
    ensures
        lower_of(s).len() == s.len(),
        'A' <= s[i] <= 'Z' ==> lower_of(s)[i] as int == s[i] as int + 32,
        !('A' <= s[i] <= 'Z') ==> lower_of(s)[i] == s[i],
{
}

/// What is taken out of the rules is every occurrence of a text, and nothing else: where what comes before holds no character that
/// the text starts with, the first occurrence goes and the rest is gone through in the same way.
pub proof fn law_occurrences_are_taken_out(before: Seq<char>, pat: Seq<char>, rest: Seq<char>)
    requires
        pat.len() > 0,
        forall|i: int| 0 <= i < before.len() ==> #[trigger] before[i] != pat[0],
    ensures
        without(before + pat + rest, pat) == before + without(rest, pat),
        without(before, pat) == before,
{
    let s = before + (pat + rest);
    assert(before + pat + rest =~= s);
    lemma_keep(before, pat + rest, pat, 0);
    assert(before.skip(0) =~= before);
    let n = before.len() as int;
    assert(s.subrange(n, n + pat.len()) =~= pat);
    assert(occurs_at(s, pat, n));
    lemma_without_shift(before + pat, rest, pat, 0);
    assert(before + pat + rest =~= s);
    lemma_keep(before, Seq::empty(), pat, 0);
    assert(before + Seq::empty() =~= before);
    assert(without_from(before, pat, n) =~= Seq::empty());
    assert(before + Seq::<char>::empty() =~= before);
}

proof fn lemma_keep(a: Seq<char>, b: Seq<char>, pat: Seq<char>, at: int)
    requires
        pat.len() > 0,
        0 <= at <= a.len(),
        forall|i: int| 0 <= i < a.len() ==> #[trigger] a[i] != pat[0],
    ensures
        without_from(a + b, pat, at) == a.skip(at) + without_from(a + b, pat, a.len() as int),
    decreases a.len() - at,
{
    let s = a + b;
    if at < a.len() {
        assert(s[at] == a[at]);
        assert(!occurs_at(s, pat, at)) by {
            if occurs_at(s, pat, at) {
                assert(s.subrange(at, at + pat.len())[0] == s[at]);
            }
        }
        lemma_keep(a, b, pat, at + 1);
        assert(seq![a[at]] + (a.skip(at + 1) + without_from(s, pat, a.len() as int)) =~= a.skip(at)
            + without_from(s, pat, a.len() as int));
    } else {
        assert(a.skip(at) + without_from(s, pat, at) =~= without_from(s, pat, at));
    }
}

proof fn lemma_without_shift(a: Seq<char>, b: Seq<char>, pat: Seq<char>, at: int)
    requires
        pat.len() > 0,
        0 <= at,
    ensures
        without_from(a + b, pat, a.len() + at) == without_from(b, pat, at),
    decreases b.len() - at,
{
    let s = a + b;
    if at < b.len() {
        assert(s[a.len() + at] == b[at]);
        assert(occurs_at(s, pat, a.len() + at) <==> occurs_at(b, pat, at)) by {
            if at + pat.len() <= b.len() {
                assert(s.subrange(a.len() + at, a.len() + at + pat.len()) =~= b.subrange(
                    at,
                    at + pat.len(),
                ));
            }
        }
        if occurs_at(b, pat, at) {
            lemma_without_shift(a, b, pat, at + pat.len());
        } else {
            lemma_without_shift(a, b, pat, at + 1);
        }
    }
}

/// A proposal of two files reads as advice: who edits the one should check the other, with how often they changed together, and out
/// of how many changes of the one.
pub proof fn law_advice(anchor: Seq<u8>, partner: Seq<u8>, support: u32, freq: u32)
    requires
        anchor != partner,
    ensures
        description_of(anchor, seq![anchor, partner], support, freq) == "When editing "@ + lossy_text(anchor)
            + ", also check "@ + lossy_text(partner) + " — co-changed in "@ + decimal(support as nat)
            + " of "@ + decimal(freq as nat) + " recent commits."@,
        description_of(anchor, seq![partner, anchor], support, freq) == description_of(
            anchor,
            seq![anchor, partner],
            support,
            freq,
        ),
{
    let one = seq![anchor, partner];
    let two = seq![partner, anchor];
    reveal_with_fuel(partner_names, 4);
    assert(one.drop_last() =~= seq![anchor]);
    assert(seq![anchor].drop_last() =~= Seq::empty());
    assert(two.drop_last() =~= seq![partner]);
    assert(seq![partner].drop_last() =~= Seq::empty());
    assert(partner_names(anchor, one) =~= seq![lossy_text(partner)]);
    assert(partner_names(anchor, two) =~= seq![lossy_text(partner)]);
    assert(joined(seq![lossy_text(partner)], ", "@) == lossy_text(partner));
}

/// Where the query of a kind comes from: the override file alone, where there is one; else the tags, which have no imports and no doc
/// comments.
pub proof fn law_query_sources(over: Option<Seq<char>>, tags: Option<Seq<char>>, other: Option<Seq<char>>, kind: QueryKind)
    ensures
        over is Some ==> query_text(over, tags, kind) == query_text(over, other, kind),
        over is None && tags is None ==> query_text(over, tags, kind) is None,
        over is None && (kind == QueryKind::Imports || kind == QueryKind::Docs) ==> query_text(
            over,
            tags,
            kind,
        ) is None,
        over is Some && kind == QueryKind::Symbols ==> query_text(over, tags, kind) == section_if_any(
            over->0,
            "symbols"@,
        ),
        over is Some && kind == QueryKind::Imports ==> query_text(over, tags, kind) == section_if_any(
            over->0,
            "imports"@,
        ),
        over is Some && kind == QueryKind::Calls ==> query_text(over, tags, kind) == section_if_any(
            over->0,
            "calls"@,
        ),
        over is Some && kind == QueryKind::Docs ==> query_text(over, tags, kind) == section_if_any(
            over->0,
            "docs"@,
        ),
        over is Some && kind == QueryKind::Implementations ==> query_text(over, tags, kind)
            == section_if_any(over->0, "implementations"@),
{
}

/// Blame reads the file as it is at HEAD, else as it is staged, else as it is on disk.
pub proof fn law_blamed_bytes(head: Option<Seq<u8>>, staged: Option<Seq<u8>>, working: Option<Seq<u8>>)
    ensures
        head is Some ==> blamed_bytes(head, staged, working) == head->0,
        head is None && staged is Some ==> blamed_bytes(head, staged, working) == staged->0,
        head is None && staged is None && working is Some ==> blamed_bytes(head, staged, working)
            == working->0,
        head is None && staged is None && working is None ==> blamed_bytes(head, staged, working).len() == 0,
{
}

/// The symbols of a cursor's text are those of URL-safe base64, by value.
pub proof fn law_cursor_alphabet()
    ensures
        forall|n: int| 0 <= n < 26 ==> #[trigger] symbol_of(n) as int == 'A' as int + n,
        forall|n: int| 26 <= n < 52 ==> #[trigger] symbol_of(n) as int == 'a' as int + n - 26,
        forall|n: int| 52 <= n < 62 ==> #[trigger] symbol_of(n) as int == '0' as int + n - 52,
        symbol_of(62) == '-',
        symbol_of(63) == '_',
{
}

} // verus!
