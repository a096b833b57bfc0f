//! What the paged tools promise of their first page.
use vstd::prelude::*;
use vstd::utf8::encode_utf8;

use crate::answers::part_of;
use crate::audit::{kind_asked, present_hash, CodeState};
use crate::calls::{CallScanPage, InRamCallIndex};
use crate::call_answers::is_used_call;
use crate::callers::UseSite;
use crate::find::{
    find_callers_page, find_definition, scan_references, CallersPage, FindCallersParams,
    FindReferencesParams,
};
use crate::grep::{SEARCH_LIMIT_DEFAULT, SEARCH_LIMIT_MAX};
use crate::history::HashMode;
use crate::impls::{
    run_find_implementations, FindImplementationsParams, FindImplementationsResponse, ImplRow,
};
use crate::keys::nul_free;
use crate::memory::{raw_key, Store, SymbolRef};
use crate::memory_tools::{run_memory_get, run_memory_list, MemoryListParams, MemoryListResponse};
use crate::memory::WireMemoryEntry;
use crate::model::{paths_ascend, FileMapL1, MappedFile, Symbol, ToolError};
use crate::syntax::fingerprint;
use crate::text::texts;
use crate::graph::{callable, innermost};
use crate::walk::{bounded, run_call_graph, CallGraphParams, CallGraphResponse};

verus! {

/// `scan_references` shows call sites in whose callee the bytes of the name stand, on a first page no more than asked for; and all of
/// them on a page that is not full.
pub proof fn law_scan_references(
    index: &InRamCallIndex,
    params: &FindReferencesParams,
    r: Result<CallScanPage, ToolError>,
    i: int,
    row: int,
) -> (k: int)
    requires
        params.cursor is None,
        call_ensures(scan_references, (Some(index), params), r),
        0 <= row < index.rows().len(),
        part_of(encode_utf8(params.name@), encode_utf8(index.rows()[row].callee)),
        params.limit is Some ==> params.limit->0 > 0,
    ensures
        r is Ok,
        0 <= i < r->Ok_0.hits@.len() ==> part_of(
            encode_utf8(params.name@),
            encode_utf8(r->Ok_0.hits@[i].hit.callee@),
        ),
        params.limit is Some ==> r->Ok_0.hits@.len() <= params.limit->0,
        params.limit is Some && params.limit->0 <= 1000 && r->Ok_0.hits@.len() < params.limit->0 ==> 0 <= k
            < r->Ok_0.hits@.len() && r->Ok_0.hits@[k].hit.callee@ == index.rows()[row].callee
            && r->Ok_0.hits@[k].hit.path@ == index.rows()[row].rel && r->Ok_0.hits@[k].start
            == index.rows()[row].start,
{
    let limit = bounded(params.limit, SEARCH_LIMIT_DEFAULT, SEARCH_LIMIT_MAX) as int;
    let page = r->Ok_0;
    if 0 <= i < page.hits@.len() {
        let at = crate::call_answers::law_references_hold_the_name(
            index.rows(),
            params.name@,
            None,
            limit,
            page,
            i,
        );
    }
    crate::call_answers::law_references_miss_nothing(index.rows(), params.name@, None, limit, page, row)
}

/// `find_callers_page` shows callers whose callee holds the name or which are proven, and what it marks as proven is a use at which a call
/// stands.
pub proof fn law_find_callers_page(
    index: &InRamCallIndex,
    params: &FindCallersParams,
    uses: &[UseSite],
    r: Result<CallersPage, ToolError>,
    i: int,
)
    requires
        params.cursor is None,
        call_ensures(find_callers_page, (Some(index), params, uses), r),
        r is Ok,
        0 <= i < r->Ok_0.page.hits@.len(),
    ensures
        ({
            let h = r->Ok_0.page.hits@[i];
            &&& part_of(encode_utf8(params.name@), encode_utf8(h.hit.callee@)) || h.hit.resolved == Some(true)
            &&& h.hit.resolved == Some(true) ==> is_used_call(*index, uses@, h.hit.path@, h.start)
            &&& uses@.len() <= 2000 && h.hit.resolved == Some(false) ==> !is_used_call(
                *index,
                uses@,
                h.hit.path@,
                h.start,
            )
        }),
{
    let limit = bounded(params.limit, SEARCH_LIMIT_DEFAULT, SEARCH_LIMIT_MAX) as int;
    crate::finer_answers::law_scan_bounds(limit);
    crate::call_answers::law_callers_are_marked_truly(
        r->Ok_0,
        index,
        uses@,
        params.name@,
        None,
        limit,
        i,
    );
}

/// `find_definition` finds the first symbol of the file that has the name and, where one is asked for, the kind of that name.
pub proof fn law_find_definition(
    files: &Vec<MappedFile>,
    params: &FindCallersParams,
    r: Result<Option<&Symbol>, ToolError>,
    f: int,
    s: int,
)
    requires
        paths_ascend(files@),
        params.kind is None,
        call_ensures(find_definition, (files, params), r),
        0 <= f < files@.len(),
        files@[f].path@ == params.path@,
        0 <= s < files@[f].map.symbols@.len(),
        files@[f].map.symbols@[s].name@ == params.name@,
        forall|j: int| 0 <= j < s ==> (#[trigger] files@[f].map.symbols@[j]).name@ != params.name@,
    ensures
        r is Ok,
        r->Ok_0 is Some,
        *(r->Ok_0->0) == files@[f].map.symbols@[s],
{
    crate::call_answers::law_the_symbol_meant(files@, *params, f, s);
}

/// `run_find_implementations` shows implementations of traits in whose name the bytes asked for stand, in files of the language asked for;
/// and all of them on a page that is not full.
pub proof fn law_find_implementations(
    rows: &Vec<ImplRow>,
    params: &FindImplementationsParams,
    files: &Vec<MappedFile>,
    r: Result<FindImplementationsResponse, ToolError>,
    i: int,
    row: int,
    f: int,
) -> (k: int)
    requires
        paths_ascend(files@),
        params.cursor is None,
        call_ensures(run_find_implementations, (Some(rows), params, files), r),
        0 <= row < rows@.len(),
        part_of(encode_utf8(params.trait_name@), encode_utf8(rows@[row].trait_name@)),
        params.language is Some ==> 0 <= f < files@.len() && files@[f].path@ == rows@[row].path@
            && files@[f].map.language@ == params.language->0@,
    ensures
        r is Ok,
        0 <= i < r->Ok_0.hits@.len() ==> part_of(
            encode_utf8(params.trait_name@),
            encode_utf8(r->Ok_0.hits@[i].trait_name@),
        ),
        0 <= i < r->Ok_0.hits@.len() && params.language is Some ==> exists|g: int|
            0 <= g < files@.len() && (#[trigger] files@[g]).path@ == r->Ok_0.hits@[i].path@
                && files@[g].map.language@ == params.language->0@,
        params.limit is Some && params.limit->0 <= 1000 && r->Ok_0.hits@.len() < params.limit->0 ==> 0 <= k
            < r->Ok_0.hits@.len() && r->Ok_0.hits@[k].path@ == rows@[row].path@
            && r->Ok_0.hits@[k].trait_name@ == rows@[row].trait_name@ && r->Ok_0.hits@[k].impl_type@
            == rows@[row].impl_type@,
{
    let limit = bounded(params.limit, SEARCH_LIMIT_DEFAULT, SEARCH_LIMIT_MAX) as int;
    let out = r->Ok_0;
    if 0 <= i < out.hits@.len() {
        let at = crate::answers::law_implementations_are_asked_for(
            rows@,
            None,
            *params,
            limit,
            files@,
            out,
            i,
        );
    }
    if out.hits@.len() < limit {
        crate::answers::law_implementations_are_found(
            rows@,
            None,
            *params,
            limit,
            files@,
            out,
            row,
            f,
        )
    } else {
        0
    }
}

/// `run_memory_list` shows memories of the group that start with the front and have the tag asked for, and all of them unless it says
/// that there are more; and each can be got under the key that it shows.
pub proof fn law_memory_list(
    store: &Store,
    scope: &str,
    params: &MemoryListParams,
    r: Result<MemoryListResponse, ToolError>,
    i: int,
    key: &str,
    got: Result<Option<WireMemoryEntry>, ToolError>,
)
    requires
        store.wf(),
        store.index_db is Some,
        nul_free(encode_utf8(scope@)),
        params.cursor is None,
        call_ensures(run_memory_list, (store, scope, params), r),
        call_ensures(run_memory_get, (store, scope, key), got),
    ensures
        r is Ok,
        0 <= i < r->Ok_0.entries@.len() ==> (params.prefix is Some ==> encode_utf8(
            params.prefix->0@,
        ).is_prefix_of(encode_utf8(r->Ok_0.entries@[i].key@))) && (params.tag is Some ==> texts(
            r->Ok_0.entries@[i].tags@,
        ).contains(params.tag->0@)),
        0 <= i < r->Ok_0.entries@.len() && key@ == r->Ok_0.entries@[i].key@ ==> got is Ok && got->Ok_0 is Some
            && texts(got->Ok_0->0.tags@) == texts(r->Ok_0.entries@[i].tags@)
            && got->Ok_0->0.updated_at == r->Ok_0.entries@[i].updated_at,
        !r->Ok_0.truncated && got is Ok && got->Ok_0 is Some && (params.prefix is Some ==> encode_utf8(
            params.prefix->0@,
        ).is_prefix_of(encode_utf8(key@))) && (params.tag is Some ==> texts(
            got->Ok_0->0.tags@,
        ).contains(params.tag->0@)) ==> exists|k: int|
            0 <= k < r->Ok_0.entries@.len() && encode_utf8((#[trigger] r->Ok_0.entries@[k]).key@)
                == encode_utf8(key@),
{
    let idx = store.index_db->0;
    let out = r->Ok_0;
    let limit = bounded(params.limit, SEARCH_LIMIT_DEFAULT, SEARCH_LIMIT_MAX) as int;
    let front = crate::memory_tools::text_or_empty(params.prefix);
    let tag = crate::text::opt_text(params.tag);
    reveal_strlit("");
    assert(""@ =~= Seq::empty());
    assert(encode_utf8(""@).len() == 0);
    assert(nul_free(encode_utf8(""@)));
    let next = choose|next: Option<Vec<u8>>| #[trigger]
        crate::memory_tools::cursor_is(out.next_cursor, crate::memory::opt_bytes(next))
            && crate::memory::is_list_page(
            (crate::memory::ListPage {
                entries: out.entries,
                total: out.total,
                truncated: out.truncated,
                next_cursor: next,
            }),
            crate::memory::listing(
                idx.memory_by_key.rows@,
                crate::keys::memory_prefix(
                    encode_utf8(scope@),
                    crate::keys::MEMORY_VIS_GROUP,
                    encode_utf8(""@),
                ),
                None,
                front,
                tag,
            ),
            limit,
            usize::MAX as int,
        );
    if 0 <= i < out.entries@.len() {
        crate::memory_answers::law_listings_show_live_memories(
            idx,
            scope@,
            crate::keys::MEMORY_VIS_GROUP,
            ""@,
            None,
            front,
            tag,
            limit,
            out.entries@,
            out.truncated,
            next,
            i,
        );
        if params.tag is Some {
            let t = choose|t: int|
                0 <= t < out.entries@[i].tags@.len() && (#[trigger] out.entries@[i].tags@[t])@ == tag->0;
            assert(texts(out.entries@[i].tags@)[t] == params.tag->0@);
        }
    }
    if !out.truncated && got is Ok && got->Ok_0 is Some && (params.prefix is Some ==> encode_utf8(
        params.prefix->0@,
    ).is_prefix_of(encode_utf8(key@))) && (params.tag is Some ==> texts(got->Ok_0->0.tags@).contains(
        params.tag->0@,
    )) {
        let raw = raw_key(scope@, crate::keys::MEMORY_VIS_GROUP, ""@, key@);
        let rec = idx.live(raw)->0;
        assert(texts(rec.tags@) == texts(got->Ok_0->0.tags@));
        if params.tag is Some {
            let t = texts(rec.tags@).index_of(params.tag->0@);
            assert(idx.live(raw)->0.tags@[t]@ == params.tag->0@);
        }
        if params.prefix is None {
            assert(encode_utf8(key@).subrange(0, 0) =~= encode_utf8(""@));
        }
        let k = crate::memory_answers::law_listings_miss_nothing(
            idx,
            scope@,
            crate::keys::MEMORY_VIS_GROUP,
            ""@,
            key@,
            front,
            tag,
            limit,
            out.entries@,
            next,
        );
        assert(encode_utf8(out.entries@[k].key@) == encode_utf8(key@));
    }
}

/// The present fingerprint of a symbol that a memory rests on is its exact structural one, in the first source at its path, and in the
/// language of the file where that ships with queries or is known.
pub proof fn law_present_fingerprints(code: CodeState, l1: FileMapL1, r: SymbolRef, i: int)
    requires
        0 <= i < code.sources@.len(),
        code.sources@[i].path@ == r.path@,
        forall|j: int| 0 <= j < i ==> (#[trigger] code.sources@[j]).path@ != r.path@,
    ensures
        ({
            let lang = l1.language@;
            let known = lang == "rust"@ || lang == "python"@ || lang == "typescript"@ || lang == "tsx"@ || lang
                == "javascript"@ || lang == "go"@ || texts(code.known@).contains(lang);
            &&& !known ==> present_hash(code, l1, r) is None
            &&& known ==> present_hash(code, l1, r) == fingerprint(
                l1,
                code.sources@[i].source@,
                code.sources@[i].tree,
                r.name@,
                kind_asked(r.kind),
                lang,
                HashMode::StructuralExact,
            )
        }),
        r.kind is None ==> kind_asked(r.kind) is None,
{
    let sources = code.sources@;
    assert(crate::audit::is_source_of(sources, r.path@, i));
    let k = choose|k: int| crate::audit::is_source_of(sources, r.path@, k);
    assert(k == i);
}

/// `run_call_graph` towards callers starts at the name asked for and, unless it says that it was cut short, has an edge for every call:
/// where a call of a node's name lies in a callable symbol, the innermost one, at whose start no other name
/// stands, is a node, and an edge leads from it to that node.
pub proof fn law_run_call_graph(
    index: &InRamCallIndex,
    params: CallGraphParams,
    files: &Vec<MappedFile>,
    r: Result<CallGraphResponse, ToolError>,
    b: int,
    row: int,
    f: int,
    s: int,
) -> (a: int)
    requires
        paths_ascend(files@),
        params.direction@ == "callers"@,
        call_ensures(run_call_graph, (Some(index), params, files), r),
        r is Ok ==> !r->Ok_0.truncated && 0 <= b < r->Ok_0.nodes@.len() && 0 <= row < index.rows().len()
            && index.rows()[row].callee == r->Ok_0.nodes@[b].name@,
        0 <= f < files@.len(),
        files@[f].path@ == index.rows()[row].rel,
        innermost(files@[f].map.symbols@, index.rows()[row].start, s),
        forall|j: int|
            0 <= j < files@[f].map.symbols@.len() && callable(#[trigger] files@[f].map.symbols@[j])
                && files@[f].map.symbols@[j].start_row == files@[f].map.symbols@[s].start_row
                && files@[f].map.symbols@[j].start_col == files@[f].map.symbols@[s].start_col
                ==> files@[f].map.symbols@[j].name@ == files@[f].map.symbols@[s].name@,
    ensures
        r is Ok,
        r->Ok_0.root@ == params.name@,
        r->Ok_0.nodes@[0].name@ == params.name@,
        0 <= a < r->Ok_0.nodes@.len(),
        r->Ok_0.nodes@[a].name@ == files@[f].map.symbols@[s].name@,
        r->Ok_0.nodes@[a].edges_to@.contains(b as u32),
{
    let out = r->Ok_0;
    let max_depth = bounded(
        params.max_depth,
        crate::graph::DEFAULT_MAX_DEPTH,
        crate::graph::MAX_DEPTH_CEILING,
    );
    let max_nodes = bounded(
        params.max_nodes,
        crate::graph::DEFAULT_MAX_NODES,
        crate::graph::MAX_NODES_CEILING,
    ) as int;
    let path = match params.path {
        Some(p) => Some(p@),
        None => None,
    };
    let cap = crate::calls::scan_cap(max_nodes);
    let nbr = crate::walk::caller_neighbours(files@, index.rows(), cap);
    assert(out.truncation_reason is None);
    assert(!crate::walk::hits_depth(out.nodes@, max_depth, out.nodes@.len() as int));
    assert(out.nodes@[b].depth < max_depth);
    crate::walk::law_callers_reach_the_graph(
        files@,
        index.rows(),
        cap,
        out.nodes@,
        out.truncation_reason,
        params.name@,
        crate::graph::definition_sites(files@, params.name@, path),
        max_depth,
        max_nodes,
        b,
        row,
        f,
        s,
    )
}

/// A call graph goes three levels deep and has a hundred nodes where nothing else is asked for, and never more than six levels and five
/// hundred nodes; a direction that is neither towards callers nor towards callees is refused.
pub proof fn law_call_graph_bounds(
    index: Option<&InRamCallIndex>,
    params: CallGraphParams,
    files: &Vec<MappedFile>,
    r: Result<CallGraphResponse, ToolError>,
    i: int,
)
    requires
        call_ensures(run_call_graph, (index, params, files), r),
        r is Ok ==> 0 < i < r->Ok_0.nodes@.len(),
    ensures
        r is Ok <==> params.direction@ == "callers"@ || params.direction@ == "callees"@,
        r is Ok ==> r->Ok_0.nodes@[i].depth <= 6,
        r is Ok && params.max_depth is Some ==> r->Ok_0.nodes@[i].depth <= params.max_depth->0,
        r is Ok && params.max_depth is None ==> r->Ok_0.nodes@[i].depth <= 3,
        r is Ok ==> r->Ok_0.nodes@.len() <= 500,
        r is Ok && params.max_nodes is Some ==> r->Ok_0.nodes@.len() <= params.max_nodes->0,
        r is Ok && params.max_nodes is None ==> r->Ok_0.nodes@.len() <= 100,
{
    if r is Ok {
        let out = r->Ok_0;
        let upward = params.direction@ == "callers"@;
        let max_depth = bounded(
            params.max_depth,
            crate::graph::DEFAULT_MAX_DEPTH,
            crate::graph::MAX_DEPTH_CEILING,
        );
        let max_nodes = bounded(
            params.max_nodes,
            crate::graph::DEFAULT_MAX_NODES,
            crate::graph::MAX_NODES_CEILING,
        ) as int;
        let path = match params.path {
            Some(p) => Some(p@),
            None => None,
        };
        let cap = crate::calls::scan_cap(max_nodes);
        crate::finer_answers::law_call_graphs_are_bounded(
            out.nodes@,
            out.truncation_reason,
            if upward {
                crate::walk::caller_neighbours(files@, crate::graph::index_rows(index), cap)
            } else {
                crate::walk::callee_neighbours(index, files@, path, cap)
            },
            params.name@,
            crate::graph::definition_sites(files@, params.name@, path),
            max_depth,
            max_nodes,
            upward,
            0,
            i,
        );
    }
}

} // verus!
