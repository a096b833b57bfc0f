//! Who acts, who is told what, and what a server does at boot and after a scan.
use vstd::prelude::*;
use vstd::utf8::encode_utf8;

use crate::comms::{dm_room, dm_title, is_target, CommsTarget};
use crate::identity::{identity_of, Candidate};
use crate::lean::{is_lean, target_error};
use crate::model::RelPath;
use crate::notify::{ordinal, LoggingLevel};
use crate::proposals::paths_of;
use crate::savings::{baseline_of, saved};
use crate::server::{
    generation_after, is_boot_plan, is_refresh, paths_with, sum_upto, BootFacts, BootPlan,
    FileStatus, FileVerdict, Refresh, ServerOptions, WatcherKind,
};
use crate::shells::{
    child_name, entry_key, equals_at, is_clean, is_reachable, lineage_upto, loader_var,
    running_upto, with_identity, LineageRow, NamedSession, RunningSession, Sessions, ShellEnv,
};
use crate::text::{is_space, lex_less, lower_of, opt_text, trim_of};

verus! {

// ─── Shells ──────────────────────────────────────────────────────────────────

/// A session can be sent to exactly when it is known and its id is more than white space.
pub proof fn law_reachable_sessions(s: NamedSession)
    ensures
        is_reachable(s) <==> s.known && exists|i: int|
            0 <= i < s.raw@.len() && !is_space(#[trigger] s.raw@[i]),
{
}

/// A variable is passed on exactly when its key is not empty and has no equals sign, and when neither key nor
/// value has a NUL, a line feed or a carriage return.
pub proof fn law_clean_variables(e: ShellEnv)
    ensures
        is_clean(e) <==> {
            &&& e.key@.len() > 0
            &&& forall|i: int|
                0 <= i < e.key@.len() ==> #[trigger] e.key@[i] != '=' && e.key@[i] != '\0' && e.key@[i]
                    != '\n' && e.key@[i] != '\r'
            &&& forall|i: int|
                0 <= i < e.value@.len() ==> #[trigger] e.value@[i] != '\0' && e.value@[i] != '\n'
                    && e.value@[i] != '\r'
        },
{
    if is_clean(e) {
        assert forall|i: int| 0 <= i < e.key@.len() implies #[trigger] e.key@[i] != '=' && e.key@[i]
            != '\0' && e.key@[i] != '\n' && e.key@[i] != '\r' by {
            assert(!crate::shells::is_breaking(e.key@[i]));
        }
        assert forall|i: int| 0 <= i < e.value@.len() implies #[trigger] e.value@[i] != '\0'
            && e.value@[i] != '\n' && e.value@[i] != '\r' by {
            assert(!crate::shells::is_breaking(e.value@[i]));
        }
    }
}

proof fn lemma_equals(s: Seq<char>, n: int)
    requires
        0 <= n < s.len(),
        s[n] == '=',
        forall|i: int| 0 <= i < n ==> #[trigger] s[i] != '=',
    ensures
        equals_at(s) == n,
    decreases s.len(),
{
    if n > 0 {
        assert(s[0] != '=');
        let t = s.drop_first();
        assert forall|i: int| 0 <= i < n - 1 implies #[trigger] t[i] != '=' by {
            assert(t[i] == s[i + 1]);
        }
        lemma_equals(t, n - 1);
    }
}

/// A child keeps the environment it is given, but for what would say who it is: an entry of another name stays,
/// and the last three entries are the child's agent id, its parent's and its session's.
pub proof fn law_children_keep_their_environment(
    env: Seq<Seq<char>>,
    child: Seq<char>,
    parent: Seq<char>,
    session: Seq<char>,
    key: Seq<char>,
    value: Seq<char>,
    i: int,
)
    requires
        0 <= i < env.len(),
        env[i] == key + seq!['='] + value,
        forall|c: int| 0 <= c < key.len() ==> #[trigger] key[c] != '=',
        key != "BASEMIND_AGENT_ID"@,
        key != "BASEMIND_PARENT_AGENT_ID"@,
        key != "BASEMIND_SESSION_ID"@,
    ensures
        with_identity(env, child, parent, session).contains(env[i]),
        ({
            let all = with_identity(env, child, parent, session);
            let n = all.len() as int;
            &&& n >= 3
            &&& all[n - 3] == "BASEMIND_AGENT_ID="@ + child
            &&& all[n - 2] == "BASEMIND_PARENT_AGENT_ID="@ + parent
            &&& all[n - 1] == "BASEMIND_SESSION_ID="@ + session
        }),
{
    let s = env[i];
    let n = key.len() as int;
    assert forall|c: int| 0 <= c < n implies #[trigger] s[c] != '=' by {
        assert(s[c] == key[c]);
    }
    lemma_equals(s, n);
    assert(entry_key(s) =~= key);
    let p = crate::shells::plain_entry();
    let k = crate::answers::lemma_filter_place(env, p, i);
    let all = with_identity(env, child, parent, session);
    assert(all[k] == env[i]);
}

/// What the loader of a child reads is warned of: the keys warned of are those of five variables.
pub proof fn law_loader_variables(key: Seq<char>)
    ensures
        loader_var(key) <==> key == "LD_PRELOAD"@ || key == "LD_AUDIT"@ || key
            == "DYLD_INSERT_LIBRARIES"@ || key == "DYLD_LIBRARY_PATH"@ || key
            == "DYLD_FALLBACK_LIBRARY_PATH"@,
{
}

/// A child is named after its parent and its session, or after the session alone where that is no valid id.
pub proof fn law_child_names(parent: Seq<char>, session: Seq<char>)
    ensures
        child_name(parent, session, true) == parent + "-"@ + session,
        child_name(parent, session, false) == "shell-"@ + session,
{
}

/// A session that the broker speaks of is listed with the parent, the child and the room that the last row on it
/// names. It is alive only where this server runs it, and it has its id for a name where this server
/// does not.
pub proof fn law_broker_rows_are_listed(own: Sessions, lineage: Seq<LineageRow>, i: int)
    requires
        0 <= i < lineage.len(),
        forall|j: int|
            i < j < lineage.len() ==> encode_utf8((#[trigger] lineage[j]).session_id@) != encode_utf8(
                lineage[i].session_id@,
            ),
        forall|j: int|
            0 <= j < i ==> encode_utf8((#[trigger] lineage[j]).session_id@) != encode_utf8(
                lineage[i].session_id@,
            ),
    ensures
        ({
            let k = encode_utf8(lineage[i].session_id@);
            let all = lineage_upto(own, lineage, lineage.len() as int);
            &&& all.contains_key(k)
            &&& all[k].session_id == lineage[i].session_id@
            &&& all[k].parent_agent == opt_text(lineage[i].parent_agent)
            &&& all[k].child_agent == Some(lineage[i].child_agent@)
            &&& all[k].room_id == Some(lineage[i].room_id@)
            &&& own.contains_key(k) ==> all[k].name == own[k].name && all[k].alive == own[k].alive
            &&& !own.contains_key(k) ==> all[k].name == lineage[i].session_id@ && !all[k].alive
        }),
{
    let k = encode_utf8(lineage[i].session_id@);
    lemma_untouched(own, lineage, 0, i, k);
    assert(lineage_upto(own, lineage, 0) == own);
    lemma_untouched(own, lineage, i + 1, lineage.len() as int, k);
}

proof fn lemma_untouched(own: Sessions, lineage: Seq<LineageRow>, m: int, n: int, k: Seq<u8>)
    requires
        0 <= m <= n <= lineage.len(),
        forall|j: int| m <= j < n ==> encode_utf8((#[trigger] lineage[j]).session_id@) != k,
    ensures
        lineage_upto(own, lineage, n).contains_key(k) == lineage_upto(own, lineage, m).contains_key(k),
        lineage_upto(own, lineage, m).contains_key(k) ==> lineage_upto(own, lineage, n)[k]
            == lineage_upto(own, lineage, m)[k],
    decreases n - m,
{
    if m < n {
        lemma_untouched(own, lineage, m, n - 1, k);
        assert(encode_utf8(lineage[n - 1].session_id@) != k);
    }
}

/// A session that this server runs is listed under its own name, alive or not as it is, as long as no later
/// one has its id.
pub proof fn law_running_sessions_are_listed(running: Seq<RunningSession>, i: int, n: int)
    requires
        0 <= i < n <= running.len(),
        forall|j: int|
            i < j < running.len() ==> encode_utf8((#[trigger] running[j]).session_id@) != encode_utf8(
                running[i].session_id@,
            ),
    ensures
        ({
            let k = encode_utf8(running[i].session_id@);
            let own = running_upto(running, n);
            &&& own.contains_key(k)
            &&& own[k].session_id == running[i].session_id@
            &&& own[k].name == running[i].name@
            &&& own[k].alive == running[i].alive
            &&& own[k].parent_agent is None
            &&& own[k].child_agent is None
            &&& own[k].room_id is None
        }),
    decreases n,
{
    if i < n - 1 {
        law_running_sessions_are_listed(running, i, n - 1);
        assert(encode_utf8(running[n - 1].session_id@) != encode_utf8(running[i].session_id@));
    }
}

// ─── Messages ────────────────────────────────────────────────────────────────

/// A tool acts as the agent asked for, or as the server itself. An agent other than the server is its child, in
/// the server's session; the server itself has neither parent nor session.
pub proof fn law_who_acts(t: CommsTarget, own: Seq<char>, as_agent: Option<Seq<char>>, session: Seq<char>)
    requires
        is_target(t, own, as_agent, session),
    ensures
        as_agent is Some ==> t.name@ == as_agent->0,
        as_agent is None ==> t.name@ == own,
        t.name@ == own ==> t.session is None && t.parent is None,
        t.name@ != own ==> t.session is Some && t.session->0@ == session && t.parent is Some
            && t.parent->0@ == own,
{
}

/// The room of two agents names both, the one that comes first in bytes first, and so does its title.
pub proof fn law_rooms_name_both(a: Seq<char>, b: Seq<char>)
    requires
        lex_less(encode_utf8(a), encode_utf8(b)),
    ensures
        dm_room(a, b) == "dm:"@ + a + ":"@ + b,
        dm_room(b, a) == "dm:"@ + a + ":"@ + b,
        dm_title(a, b) == "dm "@ + a + " <-> "@ + b,
        dm_title(b, a) == "dm "@ + a + " <-> "@ + b,
{
    crate::text::lemma_lex_asymmetric(encode_utf8(a), encode_utf8(b));
}

/// Levels rank from the most verbose to the gravest, each one above the one before.
pub proof fn law_levels_rank()
    ensures
        ordinal(LoggingLevel::Debug) == 0,
        ordinal(LoggingLevel::Info) == ordinal(LoggingLevel::Debug) + 1,
        ordinal(LoggingLevel::Notice) == ordinal(LoggingLevel::Info) + 1,
        ordinal(LoggingLevel::Warning) == ordinal(LoggingLevel::Notice) + 1,
        ordinal(LoggingLevel::Error) == ordinal(LoggingLevel::Warning) + 1,
        ordinal(LoggingLevel::Critical) == ordinal(LoggingLevel::Error) + 1,
        ordinal(LoggingLevel::Alert) == ordinal(LoggingLevel::Critical) + 1,
        ordinal(LoggingLevel::Emergency) == ordinal(LoggingLevel::Alert) + 1,
{
}

/// The server's name is the first valid one of the environment, the configuration and what was kept; where none is
/// valid it is `anon`.
pub proof fn law_names_are_tried_in_order(
    env: Option<Candidate>,
    config: Option<Candidate>,
    kept: Option<Candidate>,
)
    ensures
        env is Some && env->0.valid ==> identity_of(env, config, kept) == env->0.name@,
        !(env is Some && env->0.valid) && config is Some && config->0.valid ==> identity_of(
            env,
            config,
            kept,
        ) == config->0.name@,
        !(env is Some && env->0.valid) && !(config is Some && config->0.valid) && kept is Some
            && kept->0.valid ==> identity_of(env, config, kept) == kept->0.name@,
        !(env is Some && env->0.valid) && !(config is Some && config->0.valid) && !(kept is Some
            && kept->0.valid) ==> identity_of(env, config, kept) == "anon"@,
{
}

// ─── The lean surface ────────────────────────────────────────────────────────

/// The lean surface is on where its switch is set to anything but nothing, `0`, `off` or `false`, in whatever letter
/// case and with white space around it.
pub proof fn law_the_lean_switch(value: Option<Seq<char>>)
    ensures
        is_lean(value) <==> value is Some && lower_of(trim_of(value->0)) != ""@ && lower_of(
            trim_of(value->0),
        ) != "0"@ && lower_of(trim_of(value->0)) != "off"@ && lower_of(trim_of(value->0))
            != "false"@,
{
}

/// A tool can be dispatched to exactly when it is named, known, and none of the three that dispatch.
pub proof fn law_dispatch_targets(target: Option<Seq<char>>, known: bool)
    ensures
        target_error(target, known) is None <==> target is Some && known && target->0 != "list_tools"@
            && target->0 != "get_tool_schema"@ && target->0 != "invoke_tool"@,
{
}

// ─── Savings ─────────────────────────────────────────────────────────────────

/// What is saved is what the response would have cost without the tool, less what it cost, at a token for four bytes:
/// the tools that read for the agent are credited with so many times the response, and no other tool with
/// anything.
pub proof fn law_savings(tool: Seq<char>, resp_bytes: u64)
    requires
        resp_bytes <= u64::MAX / 16,
    ensures
        tool == "outline"@ ==> saved(tool, resp_bytes) == 4 * (resp_bytes / 4),
        tool == "symbol_history"@ ==> saved(tool, resp_bytes) == 3 * (resp_bytes / 4),
        tool == "hot_files"@ || tool == "search_symbols"@ || tool == "find_references"@ || tool
            == "find_callers"@ || tool == "find_implementations"@ ==> saved(tool, resp_bytes) == 2 * (
        resp_bytes / 4),
        tool == "dependents"@ ==> saved(tool, resp_bytes) == resp_bytes / 4,
        tool != "outline"@ && tool != "symbol_history"@ && tool != "hot_files"@ && tool
            != "search_symbols"@ && tool != "find_references"@ && tool != "find_callers"@ && tool
            != "find_implementations"@ && tool != "dependents"@ ==> saved(tool, resp_bytes) == 0,
{
    reveal_strlit("outline");
    reveal_strlit("search_symbols");
    reveal_strlit("find_references");
    reveal_strlit("find_callers");
    reveal_strlit("find_implementations");
    reveal_strlit("dependents");
    reveal_strlit("hot_files");
    reveal_strlit("symbol_history");
    assert("hot_files"@[0] == 'h' && "outline"@[0] == 'o' && "search_symbols"@[0] == 's'
        && "search_symbols"@[1] == 'e' && "find_references"@[0] == 'f' && "find_callers"@[0] == 'f'
        && "find_implementations"@[0] == 'f' && "dependents"@[0] == 'd' && "symbol_history"@[0] == 's'
        && "symbol_history"@[1] == 'y');
    if tool == "hot_files"@ || tool == "search_symbols"@ || tool == "find_references"@ || tool
        == "find_callers"@ || tool == "find_implementations"@ {
        assert(baseline_of(tool).0 == 3);
    }
    if tool == "dependents"@ {
        assert(baseline_of(tool).0 == 2);
    }
    if tool != "outline"@ && tool != "symbol_history"@ && tool != "hot_files"@ && tool
        != "search_symbols"@ && tool != "find_references"@ && tool != "find_callers"@ && tool
        != "find_implementations"@ && tool != "dependents"@ {
        assert(baseline_of(tool).0 == 1);
    }
}

// ─── Boot and refresh ────────────────────────────────────────────────────────

/// A server scans at boot exactly when it works in the background, may write, serves the working tree, and has
/// nothing indexed yet. It watches files under the same rights, where it is asked to, and otherwise the view.
/// It opens the history where it may write, the repository is known and the history is switched on.
pub proof fn law_boot(p: BootPlan, f: BootFacts, o: ServerOptions)
    requires
        is_boot_plan(p, f, o),
    ensures
        p.initial_scan <==> o.background && (o.daemon_writer || !o.read_only) && f.view_is_working && (
        f.file_sizes@.len() == 0 || f.symbols_empty == Some(true)),
        p.watcher is None <==> !o.background,
        p.watcher == Some(WatcherKind::FileSystem) <==> o.background && o.watch && (o.daemon_writer
            || !o.read_only) && f.view_is_working,
        p.open_history <==> !o.read_only && f.repo_scope is Some && f.history_enabled,
        p.sync_history <==> o.background && p.open_history,
        p.warm_cache <==> o.background && !p.initial_scan,
        p.collect_blobs <==> o.background && !p.initial_scan,
        f.repo_scope is Some ==> p.scope@ == f.repo_scope->0@,
        f.repo_scope is None ==> p.scope@ == "path:"@ + f.root@,
        p.corpus_bytes == f.file_sizes@.fold_left(0int, |sum: int, n: u64| sum + n),
{
    let n = f.file_sizes@.len() as int;
    lemma_sum(f.file_sizes@, n);
    assert(f.file_sizes@.take(n) =~= f.file_sizes@);
}

proof fn lemma_sum(list: Seq<u64>, n: int)
    requires
        0 <= n <= list.len(),
    ensures
        sum_upto(list, n) == list.take(n).fold_left(0int, |sum: int, x: u64| sum + x),
    decreases n,
{
    let f = |sum: int, x: u64| sum + x;
    if n > 0 {
        lemma_sum(list, n - 1);
        assert(list.take(n).drop_last() =~= list.take(n - 1));
        assert(list.take(n).fold_left(0int, f) == f(
            list.take(n).drop_last().fold_left(0int, f),
            list.take(n).last(),
        ));
    }
}

proof fn lemma_with_kept(results: Seq<FileVerdict>, status: FileStatus, n: int, i: int) -> (k: int)
    requires
        0 <= i < n <= results.len(),
        results[i].status == status,
    ensures
        0 <= k < paths_with(results, status, n).len(),
        paths_with(results, status, n)[k] == encode_utf8(results[i].path@),
    decreases n,
{
    if i == n - 1 {
        paths_with(results, status, n - 1).len() as int
    } else {
        lemma_with_kept(results, status, n - 1, i)
    }
}

proof fn lemma_with_source(results: Seq<FileVerdict>, status: FileStatus, n: int, k: int) -> (i: int)
    requires
        0 <= n <= results.len(),
        0 <= k < paths_with(results, status, n).len(),
    ensures
        0 <= i < n,
        results[i].status == status,
        paths_with(results, status, n)[k] == encode_utf8(results[i].path@),
    decreases n,
{
    if k < paths_with(results, status, n - 1).len() {
        lemma_with_source(results, status, n - 1, k)
    } else {
        n - 1
    }
}

/// After a full scan the map is built anew. After a scan of given paths it is left alone where nothing changed;
/// else it takes in the files that were updated and drops those that were removed, all of them and no
/// others. Whenever it is touched its snapshot gets another number.
pub proof fn law_refreshes(
    r: Refresh,
    was_scoped: bool,
    updated: u64,
    removed: u64,
    results: Seq<FileVerdict>,
    generation: u32,
    p: Seq<u8>,
)
    requires
        is_refresh(r, was_scoped, updated, removed, results),
    ensures
        r is Rebuild <==> !was_scoped,
        r is Nothing <==> was_scoped && updated == 0 && removed == 0,
        r is Nothing <==> generation_after(generation, r) == generation,
        r matches Refresh::Delta { updated: up, removed: gone } ==> {
            &&& (exists|k: int| 0 <= k < up@.len() && (#[trigger] up@[k])@ == p) <==> (exists|i: int|
                0 <= i < results.len() && (#[trigger] results[i]).status == FileStatus::Updated
                    && encode_utf8(results[i].path@) == p)
            &&& (exists|k: int| 0 <= k < gone@.len() && (#[trigger] gone@[k])@ == p) <==> (exists|i: int|
                0 <= i < results.len() && (#[trigger] results[i]).status == FileStatus::Removed
                    && encode_utf8(results[i].path@) == p)
        },
{
    if let Refresh::Delta { updated: up, removed: gone } = r {
        lemma_lists(up@, results, FileStatus::Updated, p);
        lemma_lists(gone@, results, FileStatus::Removed, p);
    }
}

proof fn lemma_lists(list: Seq<RelPath>, results: Seq<FileVerdict>, status: FileStatus, p: Seq<u8>)
    requires
        paths_of(list) == paths_with(results, status, results.len() as int),
    ensures
        (exists|k: int| 0 <= k < list.len() && (#[trigger] list[k])@ == p) <==> (exists|i: int|
            0 <= i < results.len() && (#[trigger] results[i]).status == status && encode_utf8(
                results[i].path@,
            ) == p),
{
    let n = results.len() as int;
    assert(paths_of(list).len() == list.len());
    if exists|k: int| 0 <= k < list.len() && (#[trigger] list[k])@ == p {
        let k = choose|k: int| 0 <= k < list.len() && (#[trigger] list[k])@ == p;
        assert(paths_of(list)[k] == list[k]@);
        let i = lemma_with_source(results, status, n, k);
        assert(results[i].status == status);
    }
    if exists|i: int|
        0 <= i < results.len() && (#[trigger] results[i]).status == status && encode_utf8(
            results[i].path@,
        ) == p {
        let i = choose|i: int|
            0 <= i < results.len() && (#[trigger] results[i]).status == status && encode_utf8(
                results[i].path@,
            ) == p;
        let k = lemma_with_kept(results, status, n, i);
        assert(paths_of(list)[k] == list[k]@);
    }
}

} // verus!
