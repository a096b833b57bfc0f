//! What single calls promise, and how two of them relate.
use vstd::prelude::*;
use vstd::utf8::encode_utf8;

use crate::answers::{lemma_filter_place, lemma_filter_source, part_of};
use crate::cli::{
    check_served_view, default_log_directive, list_languages, parse_end, rescans_all, scan_target,
    unsupported, warn_ignored_global_flags, CommandKind, IgnoredFlags, LanguageListing, ParseEnd,
    ScanTarget, Verbosity,
};
use crate::code::{search_lane, SearchLane};
use crate::comms::{
    check_ack, clamp_limit, is_created, law_dm_room_is_shared, route_dm, scope_label, DmRoute,
    RoomScope,
};
use crate::documents::{apply_rerank, rerank_step, DocumentSearchHit, RerankStep, Reranked};
use crate::git::{
    commit_to_view, git_history_if_fresh, head_sha, require_git_repo, CommitInfo, CommitView,
};
use crate::lang::intern;
use crate::lean::{lean_call_tool, LeanAction, ToolInput};
use crate::model::{kind_name, MappedFile, RelPath, ToolError};
use crate::navigate::{goto_definition, GotoDefinitionResponse};
use crate::resolution::FileResolvedRefs;
use crate::savings::{estimate, SavingsRow};
use crate::shells::{build_environment, check_spawn, loader_keys, CwdRequest, ShellEnv};
use crate::text::{is_space, lex_less, lower_of, texts, trim_of};
use crate::tools::{
    dependents, list_files, outline, status, DependentsParams, DependentsResponse, IndexEntry,
    L2Lookup, ListFilesParams, ListFilesResponse, OutlineParams, OutlineResponse, StatusResponse,
};
use crate::web::{plan_crawl, plan_scrape, CrawlCaps, EngineChoice, FetchedPage, PagePlan};

verus! {

// ─── Listings ────────────────────────────────────────────────────────────────

/// `list_files` shows files of the index that were asked for, and all of them unless it says that there are more.
pub proof fn law_list_files(
    entries: &Vec<IndexEntry>,
    params: &ListFilesParams,
    out: ListFilesResponse,
    i: int,
    e: int,
)
    requires
        call_ensures(list_files, (entries, params), out),
    ensures
        0 <= i < out.files@.len() ==> (params.path_contains is Some ==> part_of(
            params.path_contains->0@,
            out.files@[i].path@,
        )) && (params.language is Some ==> out.files@[i].language@ == params.language->0@) && exists|
            k: int,
        |
            0 <= k < entries@.len() && (#[trigger] entries@[k]).path@ == out.files@[i].path@
                && entries@[k].size_bytes == out.files@[i].size_bytes,
        !out.truncated && 0 <= e < entries@.len() && (params.path_contains is Some ==> part_of(
            params.path_contains->0@,
            entries@[e].path@,
        )) && (params.language is Some ==> entries@[e].language@ == params.language->0@) ==> exists|
            k: int,
        |
            0 <= k < out.files@.len() && (#[trigger] out.files@[k]).path@ == entries@[e].path@,
        out.returned == out.files@.len(),
        out.returned <= out.total,
        !out.truncated ==> out.returned == out.total,
        params.limit is Some ==> out.returned <= params.limit->0,
        params.limit is None ==> out.returned <= 200,
        out.returned <= 5000,
{
    let limit = crate::walk::bounded(
        params.limit,
        crate::tools::LIST_LIMIT_DEFAULT,
        crate::tools::LIST_LIMIT_MAX,
    ) as int;
    if 0 <= i < out.files@.len() {
        let k = crate::answers::law_listing_shows_what_was_asked_for(entries@, *params, limit, out, i);
        assert(entries@[k].path@ == out.files@[i].path@);
    }
    if !out.truncated && 0 <= e < entries@.len() && (params.path_contains is Some ==> part_of(
        params.path_contains->0@,
        entries@[e].path@,
    )) && (params.language is Some ==> entries@[e].language@ == params.language->0@) {
        let k = crate::answers::law_listing_misses_nothing(entries@, *params, limit, out, e);
        assert(out.files@[k].path@ == entries@[e].path@);
    }
}

/// `dependents` names a file of the code map exactly when one of its imports has a module path in which the module stands.
pub proof fn law_call_of_dependents(
    files: &Vec<MappedFile>,
    params: &DependentsParams,
    out: DependentsResponse,
    f: int,
)
    requires
        crate::model::paths_ascend(files@),
        call_ensures(dependents, (files, params), out),
        0 <= f < files@.len(),
    ensures
        (exists|i: int| 0 <= i < out.paths@.len() && (#[trigger] out.paths@[i])@ == files@[f].path@) <==> (
        exists|k: int|
            0 <= k < files@[f].map.imports@.len() && (#[trigger] files@[f].map.imports@[k]).module is Some
                && part_of(params.module@, files@[f].map.imports@[k].module->0@)),
{
    crate::answers::law_dependents(files@, params.module@, out.paths@, f);
}

/// `outline` shows every symbol of the file, in order, with its name, kind and range; calls and doc comments only where they
/// are asked for and were found.
pub proof fn law_outline(
    params: &OutlineParams,
    l1: Result<&crate::model::FileMapL1, String>,
    l2: L2Lookup,
    r: Result<OutlineResponse, ToolError>,
    i: int,
)
    requires
        call_ensures(outline, (params, l1, l2), r),
        r is Ok,
    ensures
        l1 is Ok,
        r->Ok_0.symbols@.len() == l1->Ok_0.symbols@.len(),
        0 <= i < r->Ok_0.symbols@.len() ==> {
            let v = r->Ok_0.symbols@[i];
            let s = l1->Ok_0.symbols@[i];
            &&& v.name@ == s.name@
            &&& v.kind@ == kind_name(s.kind)
            &&& v.start_row == s.start_row && v.start_col == s.start_col
            &&& v.start_byte == s.start_byte && v.end_byte == s.end_byte
        },
        r->Ok_0.path@ == params.path@,
        r->Ok_0.language@ == l1->Ok_0.language@,
        r->Ok_0.had_errors == l1->Ok_0.had_errors,
        !params.l2 || !(l2 is Found) ==> r->Ok_0.calls is None && r->Ok_0.docs is None,
        params.l2 && l2 is Found ==> r->Ok_0.calls is Some && r->Ok_0.calls->0@.len()
            == l2->Found_0.calls@.len() && r->Ok_0.docs == Some(l2->Found_0.docs),
        params.l2 && l2 is Missing <==> r->Ok_0.l2_status is Some,
{
}

/// `status` counts the files, and beside each language those of that language.
pub proof fn law_call_of_status(
    entries: &Vec<IndexEntry>,
    cache_dir: Option<&str>,
    root: &str,
    out: StatusResponse,
    lang: Seq<char>,
)
    requires
        call_ensures(status, (entries, cache_dir, root), out),
    ensures
        out.file_count == entries@.len(),
        forall|i: int|
            0 <= i < out.languages@.len() && (#[trigger] out.languages@[i]).language@ == lang
                ==> out.languages@[i].count == entries@.filter(|e: IndexEntry| e.language@ == lang).len(),
        (exists|i: int| 0 <= i < out.languages@.len() && (#[trigger] out.languages@[i]).language@ == lang)
            <==> (exists|e: int| 0 <= e < entries@.len() && (#[trigger] entries@[e]).language@ == lang),
        out.root@ == root@,
        cache_dir is Some ==> out.cache_dir@ == cache_dir->0@,
{
    crate::answers::law_status_counts_files(out.languages@, entries@, lang);
}

// ─── Definitions ─────────────────────────────────────────────────────────────

/// `goto_definition` answers with a definition exactly when an edge's use lies over the position, and then with the line at
/// which the definition of the first such edge starts.
pub proof fn law_goto_definition(
    refs: &FileResolvedRefs,
    path: RelPath,
    path_text: &str,
    source: &[u8],
    line: u32,
    column: u32,
    r: Result<GotoDefinitionResponse, ToolError>,
    pos: int,
    i: int,
)
    requires
        source@.len() <= u32::MAX,
        call_ensures(goto_definition, (Some(refs), path, path_text, source, line, column), r),
        0 <= pos <= source@.len(),
        line == source@.subrange(0, pos).filter(|b: u8| b == 10).len() + 1,
        0 <= column <= pos,
        column == pos || source@[pos - column - 1] == 10,
        forall|k: int| pos - column <= k < pos ==> #[trigger] source@[k] != 10,
        0 <= i < refs.intra@.len(),
        refs.intra@[i].use_start <= pos < refs.intra@[i].use_end,
        forall|j: int|
            0 <= j < i && (#[trigger] refs.intra@[j]).use_start <= pos ==> pos >= refs.intra@[j].use_end
                && pos != refs.intra@[j].use_start,
        refs.intra@[i].def_start <= source@.len(),
    ensures
        r is Ok,
        r->Ok_0.definition is Some,
        r->Ok_0.definition->0.path@ == path@,
        r->Ok_0.definition->0.line == source@.subrange(0, refs.intra@[i].def_start as int).filter(
            |b: u8| b == 10,
        ).len() + 1,
{
    crate::places::law_positions(source@, pos);
    crate::navigate::law_positions_round_trip(source@, pos);
    let (l, c) = crate::navigate::position_of(source@, pos);
    assert(l == line);
    assert(c == column) by {
        if c < column {
            assert(source@[pos - c - 1] == 10);
        } else if column < c {
            assert(source@[pos - column - 1] == 10);
        }
    }
    crate::places::law_definitions_are_where_edges_lead(
        r->Ok_0,
        refs.intra@,
        path@,
        source@,
        pos as u32,
        i,
    );
}

// ─── Git ─────────────────────────────────────────────────────────────────────

/// A view of a commit has the commit's own id, summary, author and time, and its files exactly where they are asked for.
pub proof fn law_commit_views(c: CommitInfo, include_files: bool, v: CommitView)
    requires
        call_ensures(commit_to_view, (c, include_files), v),
    ensures
        v.sha == c.sha && v.short_sha == c.short_sha && v.summary == c.summary && v.author == c.author
            && v.author_time_unix == c.author_time_unix,
        include_files ==> v.files == Some(c.files),
        !include_files ==> v.files is None,
{
}

/// The history index answers only for the commit that it was built for.
pub proof fn law_fresh_history(last: &Option<String>, head: &str, fresh: bool)
    requires
        call_ensures(git_history_if_fresh, (last, head), fresh),
    ensures
        fresh <==> last is Some && (*last)->0@ == head@,
{
}

/// A tool that needs a repository is refused without one, and HEAD is named where the repository has one.
pub proof fn law_repositories(
    has_repo: bool,
    r: Result<(), ToolError>,
    info: Result<Option<String>, String>,
    sha: Result<String, ToolError>,
)
    requires
        call_ensures(require_git_repo, (has_repo,), r),
        call_ensures(head_sha, (info,), sha),
    ensures
        r is Ok <==> has_repo,
        sha is Ok <==> info is Ok && info->Ok_0 is Some,
        sha is Ok ==> sha->Ok_0 == info->Ok_0->0,
{
}

// ─── Messages ────────────────────────────────────────────────────────────────

/// Two agents that write to each other do so in one room, which is scoped to itself; nobody writes to themselves.
pub proof fn law_direct_messages(
    a: &str,
    b: &str,
    there: Result<DmRoute, ToolError>,
    back: Result<DmRoute, ToolError>,
)
    requires
        call_ensures(route_dm, (a, b), there),
        call_ensures(route_dm, (b, a), back),
    ensures
        there is Ok <==> a@ != b@,
        back is Ok <==> a@ != b@,
        there is Ok ==> there->Ok_0.room@ == back->Ok_0.room@ && there->Ok_0.title@ == back->Ok_0.title@,
        there is Ok ==> there->Ok_0.scope is Session && there->Ok_0.scope->Session_0@
            == there->Ok_0.room@,
        there is Ok && lex_less(encode_utf8(a@), encode_utf8(b@)) ==> there->Ok_0.room@ == "dm:"@ + a@
            + ":"@ + b@,
{
    law_dm_room_is_shared(a@, b@);
    if lex_less(encode_utf8(a@), encode_utf8(b@)) {
        crate::service_answers::law_rooms_name_both(a@, b@);
    }
}

/// A page has at least one message and at most as many as the broker allows; within that a request gets what it asks for,
/// and a hundred where it asks for nothing.
pub proof fn law_message_limits(limit: Option<u32>, max_limit: u32, n: u32)
    requires
        max_limit >= 1,
        call_ensures(clamp_limit, (limit, max_limit), n),
    ensures
        1 <= n <= max_limit,
        limit is Some && 1 <= limit->0 <= max_limit ==> n == limit->0,
        limit is Some && limit->0 > max_limit ==> n == max_limit,
        limit is Some && limit->0 == 0 ==> n == 1,
        limit is None && max_limit >= 100 ==> n == 100,
        limit is None && max_limit < 100 ==> n == max_limit,
{
}

/// An acknowledgement is good where it names a message, or a room and a position in it; and a room is new where no other
/// has its id.
pub proof fn law_acknowledgements(
    ids: &Vec<String>,
    has_room: bool,
    has_to_seq: bool,
    r: Result<(), ToolError>,
    existing: &Vec<String>,
    room: &str,
    created: bool,
)
    requires
        call_ensures(check_ack, (ids, has_room, has_to_seq), r),
        call_ensures(is_created, (existing, room), created),
    ensures
        r is Ok <==> ids@.len() > 0 || (has_room && has_to_seq),
        created <==> forall|i: int| 0 <= i < existing@.len() ==> (#[trigger] existing@[i])@ != room@,
{
    if !created {
        let i = texts(existing@).index_of(room@);
        assert(existing@[i]@ == room@);
    } else {
        assert forall|i: int| 0 <= i < existing@.len() implies (#[trigger] existing@[i])@ != room@ by {
            assert(texts(existing@)[i] == existing@[i]@);
        }
    }
}

/// The labels of scopes.
pub proof fn law_scope_labels(scope: &RoomScope, label: &'static str)
    requires
        call_ensures(scope_label, (scope,), label),
    ensures
        *scope is Remote ==> label@ == "remote"@,
        *scope is PathPrefix ==> label@ == "path"@,
        *scope is Session ==> label@ == "session"@,
        *scope is Global ==> label@ == "global"@,
{
}

// ─── Shells ──────────────────────────────────────────────────────────────────

/// An environment is passed on exactly when every variable of it is fit: a key that is not empty and without equals sign, and
/// no NUL, line feed or carriage return in key or value. Each entry is then the key, an equals sign and the
/// value, in order.
pub proof fn law_environments(env: &Vec<ShellEnv>, r: Result<Vec<String>, ToolError>)
    requires
        call_ensures(build_environment, (env,), r),
    ensures
        r is Ok <==> forall|i: int|
            0 <= i < env@.len() ==> ({
                let e = #[trigger] env@[i];
                &&& e.key@.len() > 0
                &&& forall|c: int|
                    0 <= c < e.key@.len() ==> #[trigger] e.key@[c] != '=' && e.key@[c] != '\0'
                        && e.key@[c] != '\n' && e.key@[c] != '\r'
                &&& forall|c: int|
                    0 <= c < e.value@.len() ==> #[trigger] e.value@[c] != '\0' && e.value@[c] != '\n'
                        && e.value@[c] != '\r'
            }),
        r is Ok ==> r->Ok_0@.len() == env@.len(),
        r is Ok ==> forall|i: int|
            0 <= i < env@.len() ==> (#[trigger] r->Ok_0@[i])@ == env@[i].key@ + "="@ + env@[i].value@,
{
    assert forall|i: int| 0 <= i < env@.len() implies (crate::shells::is_clean(#[trigger] env@[i]) <==> {
        let e = env@[i];
        &&& e.key@.len() > 0
        &&& forall|c: int|
            0 <= c < e.key@.len() ==> #[trigger] e.key@[c] != '=' && e.key@[c] != '\0' && e.key@[c]
                != '\n' && e.key@[c] != '\r'
        &&& forall|c: int|
            0 <= c < e.value@.len() ==> #[trigger] e.value@[c] != '\0' && e.value@[c] != '\n'
                && e.value@[c] != '\r'
    }) by {
        crate::service_answers::law_clean_variables(env@[i]);
    }
    if r is Err {
        let i = choose|i: int|
            #![trigger env@[i]]
            crate::shells::is_first_unclean(env@, i) && r->Err_0.text() == crate::shells::env_error(
                env@[i],
            );
        assert(!crate::shells::is_clean(env@[i]));
    }
}

/// A shell is started only where shells are switched on, and in no directory outside the repository.
pub proof fn law_spawns(enabled: bool, cwd: CwdRequest, r: Result<Option<String>, ToolError>)
    requires
        call_ensures(check_spawn, (enabled, cwd), r),
    ensures
        r is Ok <==> enabled && !(cwd is NotText) && !(cwd is Outside),
        r is Ok && cwd is Default ==> r->Ok_0 is None,
        r is Ok && cwd is Inside ==> r->Ok_0 == Some(cwd->Inside_0),
{
}

/// The keys warned of are those of variables that a loader reads.
pub proof fn law_loader_keys(env: &Vec<ShellEnv>, keys: Vec<String>, i: int)
    requires
        call_ensures(loader_keys, (env,), keys),
        0 <= i < env@.len(),
        env@[i].key@ == "LD_PRELOAD"@ || env@[i].key@ == "LD_AUDIT"@ || env@[i].key@
            == "DYLD_INSERT_LIBRARIES"@ || env@[i].key@ == "DYLD_LIBRARY_PATH"@ || env@[i].key@
            == "DYLD_FALLBACK_LIBRARY_PATH"@,
    ensures
        texts(keys@).contains(env@[i].key@),
{
    lemma_loader_kept(env@, env@.len() as int, i);
}

proof fn lemma_loader_kept(env: Seq<ShellEnv>, n: int, i: int)
    requires
        0 <= i < n <= env.len(),
        crate::shells::loader_var(env[i].key@),
    ensures
        crate::shells::loader_keys_upto(env, n).contains(env[i].key@),
    decreases n,
{
    let front = crate::shells::loader_keys_upto(env, n - 1);
    let all = crate::shells::loader_keys_upto(env, n);
    if i == n - 1 {
        assert(all[front.len() as int] == env[i].key@);
    } else {
        lemma_loader_kept(env, n - 1, i);
        assert(all[front.index_of(env[i].key@)] == env[i].key@);
    }
}

// ─── The lean surface ────────────────────────────────────────────────────────

/// On the lean surface a call lists, describes or runs tools, as the one of three names that it bears says. It describes or
/// runs the tool that it aims at, and only one that is known and is none of the three; and it runs none on
/// arguments that are no object.
pub proof fn law_lean_calls(
    name: &str,
    target: Option<&str>,
    known: bool,
    input: &ToolInput,
    r: Result<LeanAction, ToolError>,
)
    requires
        call_ensures(lean_call_tool, (name, target, known, input), r),
    ensures
        name@ == "list_tools"@ ==> r is Ok && r->Ok_0 is List,
        name@ != "list_tools"@ && name@ != "get_tool_schema"@ && name@ != "invoke_tool"@ ==> r is Err,
        name@ == "get_tool_schema"@ ==> (r is Ok <==> target is Some && known && target->0@ != "list_tools"@
            && target->0@ != "get_tool_schema"@ && target->0@ != "invoke_tool"@),
        name@ == "get_tool_schema"@ && r is Ok ==> r->Ok_0 is Describe && r->Ok_0->Describe_0@ == target->0@,
        name@ == "invoke_tool"@ ==> (r is Ok <==> target is Some && known && target->0@ != "list_tools"@
            && target->0@ != "get_tool_schema"@ && target->0@ != "invoke_tool"@ && !(*input is Other)),
        name@ == "invoke_tool"@ && r is Ok ==> (r->Ok_0 matches LeanAction::Invoke { tool, with_arguments }
            && tool@ == target->0@ && with_arguments == (*input is Object)),
{
    reveal_strlit("list_tools");
    reveal_strlit("get_tool_schema");
    reveal_strlit("invoke_tool");
    assert("list_tools"@[0] == 'l' && "get_tool_schema"@[0] == 'g' && "invoke_tool"@[0] == 'i');
    match target {
        Some(t) => {
            crate::service_answers::law_dispatch_targets(Some(t@), known);
        },
        None => {
            crate::service_answers::law_dispatch_targets(None, known);
        },
    }
}

// ─── The command line ────────────────────────────────────────────────────────

/// What a scan reads: the staging area where it is asked for, else a revision where one is given, else the working tree. A
/// rescan takes in the whole tree where that is asked for or no path is given. A view can be served that was
/// scanned, and the working tree in any case. A parse counts where it has a tree.
pub proof fn law_scans(
    staged: bool,
    has_rev: bool,
    t: ScanTarget,
    full: bool,
    paths: &Vec<String>,
    all: bool,
    view: &str,
    has_index: bool,
    served: Result<(), String>,
    has_tree: bool,
    timed_out: bool,
    end: ParseEnd,
)
    requires
        call_ensures(scan_target, (staged, has_rev), t),
        call_ensures(rescans_all, (full, paths), all),
        call_ensures(check_served_view, (view, has_index), served),
        call_ensures(parse_end, (has_tree, timed_out), end),
    ensures
        t == ScanTarget::Staged <==> staged,
        t == ScanTarget::Revision <==> !staged && has_rev,
        all <==> full || paths@.len() == 0,
        served is Ok <==> view@ == "working"@ || has_index,
        end == ParseEnd::Parsed <==> has_tree,
        end == ParseEnd::TimedOut <==> !has_tree && timed_out,
{
}

/// To be quiet wins over to be verbose, and each has its level; flags are warned of where a command has no use for them.
pub proof fn law_flags(
    quiet: bool,
    verbose: bool,
    v: Verbosity,
    d: &'static str,
    cmd: CommandKind,
    json: bool,
    view: &str,
    w: IgnoredFlags,
)
    requires
        call_ensures(Verbosity::from_flags, (quiet, verbose), v),
        call_ensures(default_log_directive, (v,), d),
        call_ensures(warn_ignored_global_flags, (cmd, json, view), w),
    ensures
        quiet ==> d@ == "warn"@,
        !quiet && verbose ==> d@ == "debug"@,
        !quiet && !verbose ==> d@ == "info"@,
        w.json ==> json,
        w.view ==> view@ != "working"@,
        cmd == CommandKind::Query || cmd == CommandKind::Git || cmd == CommandKind::Memory || cmd
            == CommandKind::Web || cmd == CommandKind::Telemetry || cmd == CommandKind::Cache || cmd
            == CommandKind::Comms ==> !w.json && !w.view,
        cmd == CommandKind::Serve ==> !w.view && w.json == json,
        cmd == CommandKind::Scan ==> w.json == json && w.view == (view@ != "working"@),
{
}

/// A language with queries is ready exactly when its grammar is installed, and the extras are the installed grammars of the
/// languages without.
pub proof fn law_languages_listed(
    supported: &Vec<String>,
    installed: &Vec<String>,
    l: LanguageListing,
    i: int,
    name: Seq<char>,
)
    requires
        call_ensures(list_languages, (supported, installed), l),
        0 <= i < supported@.len(),
    ensures
        l.ready@.len() == supported@.len(),
        l.ready@[i] <==> exists|k: int|
            0 <= k < installed@.len() && (#[trigger] installed@[k])@ == supported@[i]@,
        texts(l.extras@).contains(name) <==> texts(installed@).contains(name) && !texts(
            supported@,
        ).contains(name),
{
    let all = texts(installed@);
    let p = unsupported(texts(supported@));
    assert(l.ready@[i] == all.contains(supported@[i]@));
    if all.contains(supported@[i]@) {
        let k = all.index_of(supported@[i]@);
        assert(installed@[k]@ == supported@[i]@);
    }
    if exists|k: int| 0 <= k < installed@.len() && (#[trigger] installed@[k])@ == supported@[i]@ {
        let k = choose|k: int| 0 <= k < installed@.len() && (#[trigger] installed@[k])@ == supported@[i]@;
        assert(all[k] == supported@[i]@);
    }
    if texts(l.extras@).contains(name) {
        let k = lemma_filter_source(all, p, texts(l.extras@).index_of(name));
        assert(all[k] == name);
    }
    if all.contains(name) && !texts(supported@).contains(name) {
        let k = lemma_filter_place(all, p, all.index_of(name));
        assert(texts(l.extras@)[k] == name);
    }
}

/// A language name stands for itself where queries ship with it or the language pack knows it.
pub proof fn law_language_names(name: &str, known: bool, id: Option<String>)
    requires
        call_ensures(intern, (name, known), id),
    ensures
        id is Some ==> id->0@ == name@,
        id is Some <==> known || name@ == "rust"@ || name@ == "python"@ || name@ == "typescript"@ || name@
            == "tsx"@ || name@ == "javascript"@ || name@ == "go"@,
{
}

// ─── Documents, code and web ─────────────────────────────────────────────────

/// Code is searched by meaning where nothing else is said, and by words where that is asked for; any other word is refused.
pub proof fn law_search_lanes(mode: Option<&str>, r: Result<SearchLane, ToolError>)
    requires
        call_ensures(search_lane, (mode,), r),
    ensures
        mode is None ==> r == Ok::<SearchLane, ToolError>(SearchLane::Semantic),
        mode is Some && lower_of(trim_of(mode->0@)) == "keyword"@ ==> r == Ok::<SearchLane, ToolError>(
            SearchLane::Keyword,
        ),
        mode is Some && (trim_of(mode->0@).len() == 0 || lower_of(trim_of(mode->0@)) == "semantic"@)
            ==> r == Ok::<SearchLane, ToolError>(SearchLane::Semantic),
        mode is Some && trim_of(mode->0@).len() > 0 && lower_of(trim_of(mode->0@)) != "semantic"@
            && lower_of(trim_of(mode->0@)) != "keyword"@ ==> r is Err,
{
    reveal_strlit("semantic");
    reveal_strlit("keyword");
    assert("semantic"@.len() == 8 && "semantic"@[0] == 's');
    assert("keyword"@.len() == 7);
    assert(lower_of("semantic"@) =~= "semantic"@);
    if mode is Some {
        assert(lower_of(trim_of(mode->0@)).len() == trim_of(mode->0@).len());
    }
}

/// Hits are reranked exactly when that is switched on, there are any and the preset is known; and what goes to the reranker
/// are their texts, in order.
pub proof fn law_reranking(
    hits: &Vec<DocumentSearchHit>,
    enabled: bool,
    preset: &str,
    known: bool,
    r: Result<RerankStep, ToolError>,
)
    requires
        call_ensures(rerank_step, (hits, enabled, preset, known), r),
    ensures
        r is Err <==> enabled && hits@.len() > 0 && !known,
        r is Ok && r->Ok_0 is Done <==> !enabled || hits@.len() == 0,
        r is Ok && r->Ok_0 is Rerank ==> r->Ok_0->Rerank_0@.len() == hits@.len() && forall|i: int|
            0 <= i < hits@.len() ==> (#[trigger] r->Ok_0->Rerank_0@[i])@ == hits@[i].text@,
{
    if r is Ok && r->Ok_0 is Rerank {
        let docs = r->Ok_0->Rerank_0@;
        assert(texts(docs).len() == crate::documents::hit_texts(hits@).len());
        assert forall|i: int| 0 <= i < hits@.len() implies (#[trigger] docs[i])@ == hits@[i].text@ by {
            assert(texts(docs)[i] == docs[i]@);
            assert(crate::documents::hit_texts(hits@)[i] == hits@[i].text@);
        }
    }
}

/// Reranked hits come in the order that the reranker gives, each with its score; an index that is out of range is refused.
pub proof fn law_reranked(
    hits: &Vec<DocumentSearchHit>,
    order: &Vec<Reranked>,
    r: Result<Vec<DocumentSearchHit>, ToolError>,
    i: int,
)
    requires
        call_ensures(apply_rerank, (hits, order), r),
        0 <= i < order@.len(),
    ensures
        r is Ok ==> r->Ok_0@.len() == order@.len() && order@[i].index < hits@.len() && r->Ok_0@[i].text@
            == hits@[order@[i].index as int].text@ && r->Ok_0@[i].path@
            == hits@[order@[i].index as int].path@ && r->Ok_0@[i].rerank_bits == Some(
            order@[i].score_bits,
        ),
        order@[i].index >= hits@.len() ==> r is Err,
{
    if r is Ok {
        assert(order@[i].index < hits@.len());
        crate::document_answers::law_reranking_moves_hits(hits@, order@[i], r->Ok_0@[i]);
    }
}

/// A crawl runs exactly when the engine is live and no override is zero: on the shared engine where nothing is overridden, and
/// else on one of its own with each cap as overridden or by default.
pub proof fn law_crawls(
    live: bool,
    max_pages: Option<u32>,
    max_depth: Option<u32>,
    defaults: CrawlCaps,
    r: Result<EngineChoice, ToolError>,
)
    requires
        call_ensures(plan_crawl, (live, max_pages, max_depth, defaults), r),
    ensures
        r is Ok <==> live && !(max_pages is Some && max_pages->0 == 0) && !(max_depth is Some
            && max_depth->0 == 0),
        r is Ok && max_pages is None && max_depth is None ==> r->Ok_0 is Shared,
        r is Ok && (max_pages is Some || max_depth is Some) ==> r->Ok_0 is PerCall,
        r is Ok && max_pages is Some ==> r->Ok_0->PerCall_0.max_pages == max_pages->0,
        r is Ok && max_depth is Some ==> r->Ok_0->PerCall_0.max_depth == max_depth->0,
        r is Ok && max_pages is Some && max_depth is None ==> r->Ok_0->PerCall_0.max_depth
            == defaults.max_depth,
        r is Ok && max_pages is None && max_depth is Some ==> r->Ok_0->PerCall_0.max_pages
            == defaults.max_pages,
{
}

/// A page is scraped exactly when its URL is allowed; its scope is the one asked for, or the one that its URL belongs to.
pub proof fn law_scrapes(
    scope: Option<&str>,
    requested: &str,
    page: &FetchedPage,
    r: Result<PagePlan, ToolError>,
)
    requires
        call_ensures(plan_scrape, (scope, requested, page), r),
    ensures
        r is Ok <==> page.check is Allowed,
        r is Ok && scope is Some ==> r->Ok_0.scope@ == scope->0@,
        r is Ok && scope is None ==> r->Ok_0.scope@ == page.check->Allowed_0@,
        r is Ok && page.markdown is None ==> r->Ok_0.body@ == page.html@,
        r is Ok && page.markdown is Some && (exists|c: int|
            0 <= c < page.markdown->0@.len() && !is_space(#[trigger] page.markdown->0@[c]))
            ==> r->Ok_0.body@ == page.markdown->0@,
{
}

// ─── Savings ─────────────────────────────────────────────────────────────────

/// What is saved is the baseline less what the response cost, at a token for four bytes, and how large the corpus is does not matter.
pub proof fn law_estimates(tool: &str, corpus: u64, other: u64, resp_bytes: u64, x: SavingsRow, y: SavingsRow)
    requires
        call_ensures(estimate, (tool, corpus, resp_bytes), x),
        call_ensures(estimate, (tool, other, resp_bytes), y),
    ensures
        x.actual_tokens == resp_bytes / 4,
        x.est_tokens_saved + x.actual_tokens == x.baseline_tokens,
        x.est_tokens_saved == y.est_tokens_saved,
        x.baseline_tokens == y.baseline_tokens,
        x.baseline@ == y.baseline@,
        tool@ == "outline"@ && resp_bytes <= u64::MAX / 16 ==> x.baseline_tokens == 5 * (resp_bytes / 4),
{
    if resp_bytes <= u64::MAX / 16 {
        crate::service_answers::law_savings(tool@, resp_bytes);
    }
}

} // verus!
