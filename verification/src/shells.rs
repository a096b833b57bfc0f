//! Headless shells: session ids, the environment of a child, and the list of sessions.
use vstd::prelude::*;
use vstd::utf8::encode_utf8;

use crate::keyspace::{key_index, lemma_row_at, Keyspace, Row};
use crate::model::ToolError;
use crate::tables::entry_at;
use crate::text::{
    copy_bytes, copy_opt, from_range, is_blank, lex_less, opt_text, quoted, quoted_text, same_str,
    str_is_blank, texts, to_chars,
};

verus! {

// ─── Sessions ────────────────────────────────────────────────────────────────

/// Check a session id: it must not be blank.
pub fn parse_session_id(raw: &str) -> (r: Result<(), ToolError>)
    ensures
        match r {
            Ok(_) => !is_blank(raw@),
            Err(e) => is_blank(raw@) && e is InvalidParams && e.text()
                == "session_id must not be empty"@,
        },
{
    if str_is_blank(raw) {
        Err(ToolError::InvalidParams(String::from_str("session_id must not be empty")))
    } else {
        Ok(())
    }
}

/// Check that a session exists. `known` says whether the runtime has it.
pub fn require_session(raw: &str, known: bool) -> (r: Result<(), ToolError>)
    ensures
        match r {
            Ok(_) => !is_blank(raw@) && known,
            Err(e) => e is InvalidParams && if is_blank(raw@) {
                e.text() == "session_id must not be empty"@
            } else {
                !known && e.text() == "unknown session_id "@ + quoted_text(raw@)
                    + "; it may have been killed or never existed"@
            },
        },
{
    match parse_session_id(raw) {
        Ok(_) => {},
        Err(e) => {
            return Err(e);
        },
    }
    if known {
        Ok(())
    } else {
        let mut t = String::from_str("unknown session_id ");
        t.append(quoted(raw).as_str());
        t.append("; it may have been killed or never existed");
        Err(ToolError::InvalidParams(t))
    }
}

/// A session that a broadcast names, and whether the runtime has it.
#[derive(Debug)]
pub struct NamedSession {
    pub raw: String,
    pub known: bool,
}

/// Whether a session can be sent to.
pub open spec fn is_reachable(s: NamedSession) -> bool {
    !is_blank(s.raw@) && s.known
}

/// `i` is the first session that cannot be sent to.
pub open spec fn is_first_unreachable(list: Seq<NamedSession>, i: int) -> bool {
    &&& 0 <= i < list.len()
    &&& !is_reachable(list[i])
    &&& forall|j: int| 0 <= j < i ==> is_reachable(#[trigger] list[j])
}

/// Check the sessions of a broadcast: there must be one, and every one must exist.
pub fn check_broadcast(sessions: &Vec<NamedSession>) -> (r: Result<(), ToolError>)
    ensures
        match r {
            Ok(_) => sessions@.len() > 0 && forall|i: int|
                0 <= i < sessions@.len() ==> is_reachable(#[trigger] sessions@[i]),
            Err(e) => e is InvalidParams && if sessions@.len() == 0 {
                e.text() == "session_ids must not be empty"@
            } else {
                exists|i: int|
                    #![trigger sessions@[i]]
                    is_first_unreachable(sessions@, i) && e.text() == if is_blank(
                        sessions@[i].raw@,
                    ) {
                        "session_id must not be empty"@
                    } else {
                        "unknown session_id "@ + quoted_text(sessions@[i].raw@)
                            + "; it may have been killed or never existed"@
                    }
            },
        },
{
    if sessions.len() == 0 {
        return Err(ToolError::InvalidParams(String::from_str("session_ids must not be empty")));
    }
    let mut i: usize = 0;
    while i < sessions.len()
        invariant
            i <= sessions@.len(),
            sessions@.len() > 0,
            forall|j: int| 0 <= j < i ==> is_reachable(#[trigger] sessions@[j]),
        decreases sessions@.len() - i,
    {
        match require_session(sessions[i].raw.as_str(), sessions[i].known) {
            Ok(_) => {},
            Err(e) => {
                assert(is_first_unreachable(sessions@, i as int));
                return Err(e);
            },
        }
        i += 1;
    }
    Ok(())
}

/// The working directory that a spawn asks for.
#[derive(Debug)]
pub enum CwdRequest {
    /// The server's own.
    Default,
    /// A path that is not text.
    NotText,
    /// A path that leads out of the repository.
    Outside,
    /// A path below the root.
    Inside(String),
}

/// Check a spawn before anything is started: shells must be switched on, and the directory must lie
/// in the repository.
pub fn check_spawn(enabled: bool, cwd: CwdRequest) -> (r: Result<Option<String>, ToolError>)
    ensures
        match r {
            Ok(dir) => enabled && match cwd {
                CwdRequest::Default => dir is None,
                CwdRequest::Inside(p) => dir == Some(p),
                _ => false,
            },
            Err(e) => e is InvalidParams && if !enabled {
                e.text() == "shells are disabled in config ([shells].enabled = false)"@
            } else {
                match cwd {
                    CwdRequest::NotText => e.text() == "cwd is not valid UTF-8"@,
                    CwdRequest::Outside => e.text() == "cwd escapes the repository root"@,
                    _ => false,
                }
            },
        },
{
    if !enabled {
        return Err(
            ToolError::InvalidParams(
                String::from_str("shells are disabled in config ([shells].enabled = false)"),
            ),
        );
    }
    match cwd {
        CwdRequest::Default => Ok(None),
        CwdRequest::NotText => Err(
            ToolError::InvalidParams(String::from_str("cwd is not valid UTF-8")),
        ),
        CwdRequest::Outside => Err(
            ToolError::InvalidParams(String::from_str("cwd escapes the repository root")),
        ),
        CwdRequest::Inside(p) => Ok(Some(p)),
    }
}

// ─── Environment ─────────────────────────────────────────────────────────────

/// A variable of the environment.
#[derive(Debug)]
pub struct ShellEnv {
    pub key: String,
    pub value: String,
}

/// Whether a character ends a line or a string of the environment.
pub open spec fn is_breaking(c: char) -> bool {
    c == '\0' || c == '\n' || c == '\r'
}

/// Whether text holds a character that ends a line or a string of the environment.
pub open spec fn breaks(s: Seq<char>) -> bool {
    exists|i: int| 0 <= i < s.len() && is_breaking(#[trigger] s[i])
}

/// Whether text holds an equals sign.
pub open spec fn has_equals(s: Seq<char>) -> bool {
    exists|i: int| 0 <= i < s.len() && #[trigger] s[i] == '='
}

/// Whether a variable may be passed on.
pub open spec fn is_clean(e: ShellEnv) -> bool {
    e.key@.len() > 0 && !has_equals(e.key@) && !breaks(e.key@) && !breaks(e.value@)
}

/// A variable as the environment holds it.
pub open spec fn entry_text(e: ShellEnv) -> Seq<char> {
    e.key@ + "="@ + e.value@
}

/// The text in which a variable is refused.
pub open spec fn env_error(e: ShellEnv) -> Seq<char> {
    if e.key@.len() == 0 {
        "env key must not be empty"@
    } else if has_equals(e.key@) || breaks(e.key@) {
        "env key "@ + quoted_text(e.key@)
            + " must not contain '=', NUL, newline, or carriage return"@
    } else {
        "env value for key "@ + quoted_text(e.key@)
            + " must not contain NUL, newline, or carriage return"@
    }
}

/// `i` is the first variable that may not be passed on.
pub open spec fn is_first_unclean(env: Seq<ShellEnv>, i: int) -> bool {
    &&& 0 <= i < env.len()
    &&& !is_clean(env[i])
    &&& forall|j: int| 0 <= j < i ==> is_clean(#[trigger] env[j])
}

fn text_breaks(s: &str) -> (yes: bool)
    ensures
        yes == breaks(s@),
{
    let chars = to_chars(s);
    let mut i: usize = 0;
    while i < chars.len()
        invariant
            chars@ == s@,
            i <= chars@.len(),
            forall|j: int| 0 <= j < i ==> !is_breaking(#[trigger] s@[j]),
        decreases chars@.len() - i,
    {
        let c: char = chars[i];
        if c == '\0' || c == '\n' || c == '\r' {
            assert(is_breaking(s@[i as int]));
            return true;
        }
        i += 1;
    }
    false
}

fn text_has_equals(s: &str) -> (yes: bool)
    ensures
        yes == has_equals(s@),
{
    let chars = to_chars(s);
    let mut i: usize = 0;
    while i < chars.len()
        invariant
            chars@ == s@,
            i <= chars@.len(),
            forall|j: int| 0 <= j < i ==> #[trigger] s@[j] != '=',
        decreases chars@.len() - i,
    {
        if chars[i] == '=' {
            assert(s@[i as int] == '=');
            return true;
        }
        i += 1;
    }
    false
}

/// Whether a variable makes the loader of a child take in other code.
pub open spec fn loader_var(key: Seq<char>) -> bool {
    ||| key == "LD_PRELOAD"@
    ||| key == "LD_AUDIT"@
    ||| key == "DYLD_INSERT_LIBRARIES"@
    ||| key == "DYLD_LIBRARY_PATH"@
    ||| key == "DYLD_FALLBACK_LIBRARY_PATH"@
}

/// Whether a variable makes the loader of a child take in other code. It is passed on, with a warning.
pub fn is_loader_var(key: &str) -> (yes: bool)
    ensures
        yes == loader_var(key@),
{
    same_str(key, "LD_PRELOAD") || same_str(key, "LD_AUDIT") || same_str(
        key,
        "DYLD_INSERT_LIBRARIES",
    ) || same_str(key, "DYLD_LIBRARY_PATH") || same_str(key, "DYLD_FALLBACK_LIBRARY_PATH")
}

/// The keys of the loader variables among the first `n`.
pub open spec fn loader_keys_upto(env: Seq<ShellEnv>, n: int) -> Seq<Seq<char>>
    decreases n,
{
    if n <= 0 {
        Seq::empty()
    } else if loader_var(env[n - 1].key@) {
        loader_keys_upto(env, n - 1).push(env[n - 1].key@)
    } else {
        loader_keys_upto(env, n - 1)
    }
}

/// The keys of a request to warn of, in order: those of loader variables.
pub fn loader_keys(env: &Vec<ShellEnv>) -> (keys: Vec<String>)
    ensures
        texts(keys@) == loader_keys_upto(env@, env@.len() as int),
{
    let mut keys: Vec<String> = Vec::new();
    let mut i: usize = 0;
    assert(texts(keys@) =~= Seq::empty());
    while i < env.len()
        invariant
            i <= env@.len(),
            texts(keys@) == loader_keys_upto(env@, i as int),
        decreases env@.len() - i,
    {
        if is_loader_var(env[i].key.as_str()) {
            let ghost before = keys@;
            keys.push(env[i].key.clone());
            assert(texts(keys@) =~= texts(before).push(env@[i as int].key@));
        }
        i += 1;
    }
    keys
}

/// Check the variables of a request and render them. One that could smuggle in another variable, or
/// a control character, is refused.
pub fn build_environment(env: &Vec<ShellEnv>) -> (r: Result<Vec<String>, ToolError>)
    ensures
        match r {
            Ok(out) => {
                &&& forall|i: int| 0 <= i < env@.len() ==> is_clean(#[trigger] env@[i])
                &&& out@.len() == env@.len()
                &&& forall|i: int|
                    0 <= i < out@.len() ==> (#[trigger] out@[i])@ == entry_text(env@[i])
            },
            Err(e) => e is InvalidParams && exists|i: int|
                #![trigger env@[i]]
                is_first_unclean(env@, i) && e.text() == env_error(env@[i]),
        },
{
    let mut out: Vec<String> = Vec::new();
    let mut i: usize = 0;
    while i < env.len()
        invariant
            i <= env@.len(),
            forall|j: int| 0 <= j < i ==> is_clean(#[trigger] env@[j]),
            out@.len() == i,
            forall|j: int| 0 <= j < i ==> (#[trigger] out@[j])@ == entry_text(env@[j]),
        decreases env@.len() - i,
    {
        let e = &env[i];
        let key = e.key.as_str();
        proof {
            reveal_strlit("");
            if e.key@.len() == 0 {
                assert(e.key@ =~= ""@);
            }
            assert(""@.len() == 0);
        }
        if same_str(key, "") {
            assert(is_first_unclean(env@, i as int));
            return Err(ToolError::InvalidParams(String::from_str("env key must not be empty")));
        }
        if text_has_equals(key) || text_breaks(key) {
            let mut t = String::from_str("env key ");
            t.append(quoted(key).as_str());
            t.append(" must not contain '=', NUL, newline, or carriage return");
            assert(is_first_unclean(env@, i as int));
            return Err(ToolError::InvalidParams(t));
        }
        if text_breaks(e.value.as_str()) {
            let mut t = String::from_str("env value for key ");
            t.append(quoted(key).as_str());
            t.append(" must not contain NUL, newline, or carriage return");
            assert(is_first_unclean(env@, i as int));
            return Err(ToolError::InvalidParams(t));
        }
        let mut entry = e.key.clone();
        entry.append("=");
        entry.append(e.value.as_str());
        out.push(entry);
        i += 1;
    }
    Ok(out)
}

/// The position of the first equals sign, or the length.
pub open spec fn equals_at(s: Seq<char>) -> int
    decreases s.len(),
{
    if s.len() == 0 || s[0] == '=' {
        0
    } else {
        1 + equals_at(s.drop_first())
    }
}

/// The name of the variable of an entry.
pub open spec fn entry_key(s: Seq<char>) -> Seq<char> {
    s.take(equals_at(s))
}

/// Whether a variable says who a child is.
pub open spec fn is_identity_key(k: Seq<char>) -> bool {
    k == "BASEMIND_AGENT_ID"@ || k == "BASEMIND_PARENT_AGENT_ID"@ || k == "BASEMIND_SESSION_ID"@
}

/// The condition that an entry does not say who a child is.
pub open spec fn plain_entry() -> spec_fn(Seq<char>) -> bool {
    |s: Seq<char>| !is_identity_key(entry_key(s))
}

/// An environment with the identity of a child in place of what was there.
pub open spec fn with_identity(
    env: Seq<Seq<char>>,
    child: Seq<char>,
    parent: Seq<char>,
    session: Seq<char>,
) -> Seq<Seq<char>> {
    env.filter(plain_entry()).push("BASEMIND_AGENT_ID="@ + child).push(
        "BASEMIND_PARENT_AGENT_ID="@ + parent,
    ).push("BASEMIND_SESSION_ID="@ + session)
}

fn key_of(entry: &str) -> (k: String)
    ensures
        k@ == entry_key(entry@),
{
    let chars = to_chars(entry);
    let mut n: usize = 0;
    assert(entry@.skip(0) =~= entry@);
    while n < chars.len() && chars[n] != '='
        invariant
            chars@ == entry@,
            n <= chars@.len(),
            equals_at(entry@) == n + equals_at(entry@.skip(n as int)),
        decreases chars@.len() - n,
    {
        assert(entry@.skip(n as int).drop_first() =~= entry@.skip(n + 1));
        assert(entry@.skip(n as int)[0] == entry@[n as int]);
        n += 1;
    }
    proof {
        if n < chars@.len() {
            assert(entry@.skip(n as int)[0] == entry@[n as int]);
        }
    }
    let k = from_range(chars.as_slice(), 0, n);
    assert(k@ =~= entry@.take(n as int));
    k
}

fn labelled(label: &str, value: &str) -> (s: String)
    ensures
        s@ == label@ + value@,
{
    let mut s = label.to_string();
    s.append(value);
    s
}

/// Put the identity of a child into its environment. Whatever the environment said of it before is
/// taken out.
pub fn inject_identity(environment: &mut Vec<String>, child: &str, parent: &str, session: &str)
    ensures
        texts(final(environment)@) == with_identity(
            texts(old(environment)@),
            child@,
            parent@,
            session@,
        ),
{
    let ghost all = texts(environment@);
    let ghost p = plain_entry();
    let mut kept: Vec<String> = Vec::new();
    let mut i: usize = 0;
    proof {
        reveal(Seq::filter);
        assert(all.take(0).filter(p) =~= Seq::empty());
        assert(texts(kept@) =~= Seq::empty());
    }
    while i < environment.len()
        invariant
            i <= environment@.len(),
            all == texts(environment@),
            p == plain_entry(),
            texts(kept@) == all.take(i as int).filter(p),
        decreases environment@.len() - i,
    {
        let entry = &environment[i];
        proof {
            crate::seqs::lemma_filter_take(all, i as int, p);
            assert(all[i as int] == entry@);
        }
        let k = key_of(entry.as_str());
        let identity: bool = same_str(k.as_str(), "BASEMIND_AGENT_ID") || same_str(
            k.as_str(),
            "BASEMIND_PARENT_AGENT_ID",
        ) || same_str(k.as_str(), "BASEMIND_SESSION_ID");
        if !identity {
            let ghost before = kept@;
            kept.push(entry.clone());
            assert(texts(kept@) =~= texts(before).push(entry@));
        }
        i += 1;
    }
    assert(all.take(i as int) =~= all);
    let ghost base = texts(kept@);
    kept.push(labelled("BASEMIND_AGENT_ID=", child));
    kept.push(labelled("BASEMIND_PARENT_AGENT_ID=", parent));
    kept.push(labelled("BASEMIND_SESSION_ID=", session));
    assert(texts(kept@) =~= with_identity(all, child@, parent@, session@));
    *environment = kept;
}

/// The name of the agent in a child shell: the parent's with the session, where that is a valid id;
/// else one made of the session alone.
pub open spec fn child_name(parent: Seq<char>, session: Seq<char>, candidate_ok: bool) -> Seq<char> {
    if candidate_ok {
        parent + "-"@ + session
    } else {
        "shell-"@ + session
    }
}

/// The name to try first for the agent in a child shell.
pub fn child_candidate(parent: &str, session: &str) -> (name: String)
    ensures
        name@ == child_name(parent@, session@, true),
{
    let mut s = parent.to_string();
    s.append("-");
    s.append(session);
    s
}

/// Name the agent in a child shell. `rejected` is why the first name is no valid id, and
/// `fallback_rejected` why the second is none either.
pub fn name_child(
    parent: &str,
    session: &str,
    rejected: Option<&str>,
    fallback_rejected: Option<&str>,
) -> (r: Result<String, ToolError>)
    ensures
        match r {
            Ok(name) => name@ == child_name(parent@, session@, rejected is None) && (rejected is None
                || fallback_rejected is None),
            Err(e) => rejected is Some && fallback_rejected is Some && e is Internal && e.text()
                == "comms: derive child agent id: candidate "@ + quoted_text(
                child_name(parent@, session@, true),
            ) + " rejected ("@ + rejected->0@ + ") and fallback "@ + quoted_text(
                child_name(parent@, session@, false),
            ) + " also rejected ("@ + fallback_rejected->0@ + ")"@,
        },
{
    let candidate = child_candidate(parent, session);
    match rejected {
        None => Ok(candidate),
        Some(why) => {
            let fallback = labelled("shell-", session);
            match fallback_rejected {
                None => Ok(fallback),
                Some(again) => {
                    let mut t = String::from_str("comms: derive child agent id: candidate ");
                    t.append(quoted(candidate.as_str()).as_str());
                    t.append(" rejected (");
                    t.append(why);
                    t.append(") and fallback ");
                    t.append(quoted(fallback.as_str()).as_str());
                    t.append(" also rejected (");
                    t.append(again);
                    t.append(")");
                    Err(ToolError::Internal(t))
                },
            }
        },
    }
}

/// The room of a session.
#[derive(Debug)]
pub struct SessionRoom {
    pub id: String,
    pub title: String,
}

/// The room in which a parent and the agent in a child shell talk: it has the id of the session.
/// `rejected` is why that is no valid id.
pub fn session_room(session: &str, parent: &str, child: &str, rejected: Option<&str>) -> (r: Result<
    SessionRoom,
    ToolError,
>)
    ensures
        match r {
            Ok(room) => rejected is None && room.id@ == session@ && room.title@ == "shell session "@
                + session@ + " ("@ + parent@ + " -> "@ + child@ + ")"@,
            Err(e) => rejected is Some && e is Internal && e.text()
                == "comms: derive session room id "@ + quoted_text(session@) + ": "@
                + rejected->0@,
        },
{
    match rejected {
        Some(why) => {
            let mut t = String::from_str("comms: derive session room id ");
            t.append(quoted(session).as_str());
            t.append(": ");
            t.append(why);
            Err(ToolError::Internal(t))
        },
        None => {
            let mut title = String::from_str("shell session ");
            title.append(session);
            title.append(" (");
            title.append(parent);
            title.append(" -> ");
            title.append(child);
            title.append(")");
            Ok(SessionRoom { id: session.to_string(), title })
        },
    }
}

// ─── The list of sessions ────────────────────────────────────────────────────

/// A session that this server runs.
#[derive(Debug)]
pub struct RunningSession {
    pub session_id: String,
    pub name: String,
    pub alive: bool,
}

/// A session as the broker knows it.
#[derive(Debug)]
pub struct LineageRow {
    pub session_id: String,
    pub parent_agent: Option<String>,
    pub child_agent: String,
    pub room_id: String,
}

/// A session as the list shows it.
#[derive(Debug)]
pub struct ShellSessionView {
    pub session_id: String,
    pub name: String,
    pub alive: bool,
    pub parent_agent: Option<String>,
    pub child_agent: Option<String>,
    pub room_id: Option<String>,
}

/// What a listed session says.
pub struct SessionFact {
    pub session_id: Seq<char>,
    pub name: Seq<char>,
    pub alive: bool,
    pub parent_agent: Option<Seq<char>>,
    pub child_agent: Option<Seq<char>>,
    pub room_id: Option<Seq<char>>,
}

impl View for ShellSessionView {
    type V = SessionFact;

    open spec fn view(&self) -> SessionFact {
        SessionFact {
            session_id: self.session_id@,
            name: self.name@,
            alive: self.alive,
            parent_agent: opt_text(self.parent_agent),
            child_agent: opt_text(self.child_agent),
            room_id: opt_text(self.room_id),
        }
    }
}

/// The sessions by the bytes of their id.
pub type Sessions = Map<Seq<u8>, SessionFact>;

/// The first `n` sessions that this server runs.
pub open spec fn running_upto(running: Seq<RunningSession>, n: int) -> Sessions
    decreases n,
{
    if n <= 0 {
        Map::empty()
    } else {
        let s = running[n - 1];
        running_upto(running, n - 1).insert(
            encode_utf8(s.session_id@),
            SessionFact {
                session_id: s.session_id@,
                name: s.name@,
                alive: s.alive,
                parent_agent: None,
                child_agent: None,
                room_id: None,
            },
        )
    }
}

/// The sessions after a row of the broker was taken in: what this server knows of the session is
/// kept, and one that it does not run is listed as not alive, under its id.
pub open spec fn with_lineage(m: Sessions, row: LineageRow) -> Sessions {
    let k = encode_utf8(row.session_id@);
    let (name, alive) = match entry_at(m, k) {
        Some(f) => (f.name, f.alive),
        None => (row.session_id@, false),
    };
    m.insert(
        k,
        SessionFact {
            session_id: row.session_id@,
            name,
            alive,
            parent_agent: opt_text(row.parent_agent),
            child_agent: Some(row.child_agent@),
            room_id: Some(row.room_id@),
        },
    )
}

/// The sessions after the first `n` rows of the broker were taken in.
pub open spec fn lineage_upto(m: Sessions, lineage: Seq<LineageRow>, n: int) -> Sessions
    decreases n,
{
    if n <= 0 {
        m
    } else {
        with_lineage(lineage_upto(m, lineage, n - 1), lineage[n - 1])
    }
}

/// What the rows of a keyspace of sessions say.
spec fn session_facts(m: Map<Seq<u8>, Option<ShellSessionView>>) -> Sessions {
    m.map_values(|v: Option<ShellSessionView>| v->0@)
}

/// Every row holds a session, under the bytes of its id.
spec fn rows_hold(rows: Seq<Row<ShellSessionView>>) -> bool {
    forall|i: int|
        0 <= i < rows.len() ==> (#[trigger] rows[i]).value is Some && rows[i].key@ == encode_utf8(
            rows[i].value->0.session_id@,
        )
}

/// Every entry of the map is a session, under the bytes of its id.
spec fn map_holds(m: Map<Seq<u8>, Option<ShellSessionView>>) -> bool {
    forall|k: Seq<u8>| #[trigger]
        m.contains_key(k) ==> m[k] is Some && k == encode_utf8(m[k]->0.session_id@)
}

/// `out` lists the sessions of `m` by ascending id.
pub open spec fn lists_sessions(out: Seq<ShellSessionView>, m: Sessions) -> bool {
    &&& forall|i: int, j: int|
        0 <= i < j < out.len() ==> lex_less(
            encode_utf8((#[trigger] out[i]).session_id@),
            encode_utf8((#[trigger] out[j]).session_id@),
        )
    &&& forall|i: int|
        0 <= i < out.len() ==> m.contains_key(encode_utf8((#[trigger] out[i]).session_id@))
            && m[encode_utf8(out[i].session_id@)] == out[i]@
    &&& forall|k: Seq<u8>| #[trigger]
        m.contains_key(k) ==> exists|i: int|
            0 <= i < out.len() && encode_utf8((#[trigger] out[i]).session_id@) == k
}

fn put_session(space: &mut Keyspace<ShellSessionView>, v: ShellSessionView)
    requires
        old(space).wf(),
        map_holds(old(space).map()),
    ensures
        final(space).wf(),
        map_holds(final(space).map()),
        session_facts(final(space).map()) == session_facts(old(space).map()).insert(
            encode_utf8(v.session_id@),
            v@,
        ),
{
    let key = copy_bytes(v.session_id.as_str().as_bytes());
    let ghost m = space.map();
    let ghost k = key@;
    let ghost x = v;
    space.insert(key, Some(v));
    assert(session_facts(m.insert(k, Some(x))) =~= session_facts(m).insert(k, x@));
}

/// List sessions: those that this server runs, and those that the broker knows, merged by id and in
/// ascending order of it. `lineage` is empty where the broker cannot be asked.
pub fn list_sessions(running: &Vec<RunningSession>, lineage: &Vec<LineageRow>) -> (out: Vec<
    ShellSessionView,
>)
    ensures
        lists_sessions(
            out@,
            lineage_upto(
                running_upto(running@, running@.len() as int),
                lineage@,
                lineage@.len() as int,
            ),
        ),
{
    let mut space: Keyspace<ShellSessionView> = Keyspace::new();
    let mut i: usize = 0;
    assert(session_facts(space.map()) =~= Map::empty());
    while i < running.len()
        invariant
            i <= running@.len(),
            space.wf(),
            map_holds(space.map()),
            session_facts(space.map()) == running_upto(running@, i as int),
        decreases running@.len() - i,
    {
        let s = &running[i];
        let v = ShellSessionView {
            session_id: s.session_id.clone(),
            name: s.name.clone(),
            alive: s.alive,
            parent_agent: None,
            child_agent: None,
            room_id: None,
        };
        put_session(&mut space, v);
        i += 1;
    }
    let ghost base = running_upto(running@, running@.len() as int);
    let mut j: usize = 0;
    while j < lineage.len()
        invariant
            j <= lineage@.len(),
            space.wf(),
            map_holds(space.map()),
            session_facts(space.map()) == lineage_upto(base, lineage@, j as int),
        decreases lineage@.len() - j,
    {
        let row = &lineage[j];
        let ghost m = space.map();
        let ghost k = encode_utf8(row.session_id@);
        assert(session_facts(m).contains_key(k) == m.contains_key(k));
        let (name, alive) = match space.get(row.session_id.as_str().as_bytes()) {
            Some(v) => {
                assert(session_facts(m)[k] == v@);
                (v.name.clone(), v.alive)
            },
            None => (row.session_id.clone(), false),
        };
        let v = ShellSessionView {
            session_id: row.session_id.clone(),
            name,
            alive,
            parent_agent: copy_opt(&row.parent_agent),
            child_agent: Some(row.child_agent.clone()),
            room_id: Some(row.room_id.clone()),
        };
        put_session(&mut space, v);
        j += 1;
    }
    let ghost m = lineage_upto(base, lineage@, lineage@.len() as int);
    let ghost rows = space.rows@;
    let ghost km = space.map();
    proof {
        assert forall|n: int| 0 <= n < rows.len() implies (#[trigger] rows[n]).value is Some
            && rows[n].key@ == encode_utf8(rows[n].value->0.session_id@) && m.contains_key(
            rows[n].key@,
        ) && m[rows[n].key@] == rows[n].value->0@ by {
            lemma_row_at(rows, n);
            assert(km.contains_key(rows[n].key@));
            assert(session_facts(km).contains_key(rows[n].key@));
        }
    }
    let mut out: Vec<ShellSessionView> = Vec::new();
    let mut rest = space.rows;
    let mut n: usize = 0;
    while n < rest.len()
        invariant
            n <= rest@.len(),
            rest@.len() == rows.len(),
            rows_hold(rows),
            forall|q: int| n <= q < rows.len() ==> #[trigger] rest@[q] == rows[q],
            out@.len() == n,
            forall|q: int| 0 <= q < n ==> #[trigger] out@[q] == rows[q].value->0,
        decreases rest@.len() - n,
    {
        assert(rest@[n as int] == rows[n as int]);
        match rest[n].value.take() {
            Some(v) => {
                out.push(v);
            },
            None => {},
        }
        n += 1;
    }
    proof {
        assert forall|a: int, b: int| 0 <= a < b < out@.len() implies lex_less(
            encode_utf8((#[trigger] out@[a]).session_id@),
            encode_utf8((#[trigger] out@[b]).session_id@),
        ) by {
            assert(crate::sort::Keyed::sort_key(&rows[a]) == rows[a].key@);
            assert(crate::sort::Keyed::sort_key(&rows[b]) == rows[b].key@);
            assert(lex_less(
                crate::sort::Keyed::sort_key(&rows[a]),
                crate::sort::Keyed::sort_key(&rows[b]),
            ));
        }
        assert forall|k: Seq<u8>| #[trigger] m.contains_key(k) implies exists|q: int|
            0 <= q < out@.len() && encode_utf8((#[trigger] out@[q]).session_id@) == k by {
            assert(km.contains_key(k));
            let q = key_index(rows, k);
            assert(rows[q].key@ == k);
            assert(out@[q] == rows[q].value->0);
        }
    }
    out
}

proof fn lemma_running_keys(running: Seq<RunningSession>, n: int, i: int)
    requires
        0 <= i < n <= running.len(),
    ensures
        running_upto(running, n).contains_key(encode_utf8(running[i].session_id@)),
    decreases n,
{
    if i < n - 1 {
        lemma_running_keys(running, n - 1, i);
    }
}

proof fn lemma_lineage_keeps(m: Sessions, lineage: Seq<LineageRow>, n: int, k: Seq<u8>)
    requires
        0 <= n <= lineage.len(),
        m.contains_key(k),
    ensures
        lineage_upto(m, lineage, n).contains_key(k),
        lineage_upto(m, lineage, n)[k].name == m[k].name,
        lineage_upto(m, lineage, n)[k].alive == m[k].alive,
    decreases n,
{
    if n > 0 {
        lemma_lineage_keeps(m, lineage, n - 1, k);
    }
}

/// What the broker says never hides a session that this server runs, nor changes its name or whether
/// it is alive.
pub proof fn law_lineage_keeps_running_sessions(
    running: Seq<RunningSession>,
    lineage: Seq<LineageRow>,
    i: int,
)
    requires
        0 <= i < running.len(),
    ensures
        ({
            let k = encode_utf8(running[i].session_id@);
            let own = running_upto(running, running.len() as int);
            let all = lineage_upto(own, lineage, lineage.len() as int);
            &&& all.contains_key(k)
            &&& all[k].name == own[k].name
            &&& all[k].alive == own[k].alive
        }),
{
    lemma_running_keys(running, running.len() as int, i);
    lemma_lineage_keeps(
        running_upto(running, running.len() as int),
        lineage,
        lineage.len() as int,
        encode_utf8(running[i].session_id@),
    );
}

pub(crate) proof fn lemma_label_key(label: Seq<char>, value: Seq<char>)
    requires
        label.len() > 0,
        label.last() == '=',
        forall|i: int| 0 <= i < label.len() - 1 ==> #[trigger] label[i] != '=',
    ensures
        entry_key(label + value) == label.drop_last(),
    decreases label.len(),
{
    let s = label + value;
    lemma_equals_at(label, value);
    assert(s.take(label.len() - 1) =~= label.drop_last());
}

proof fn lemma_equals_at(label: Seq<char>, value: Seq<char>)
    requires
        label.len() > 0,
        label.last() == '=',
        forall|i: int| 0 <= i < label.len() - 1 ==> #[trigger] label[i] != '=',
    ensures
        equals_at(label + value) == label.len() - 1,
    decreases label.len(),
{
    let s = label + value;
    if label.len() > 1 {
        assert(s[0] == label[0]);
        let rest = label.drop_first();
        assert forall|i: int| 0 <= i < rest.len() - 1 implies #[trigger] rest[i] != '=' by {
            assert(rest[i] == label[i + 1]);
        }
        lemma_equals_at(rest, value);
        assert(s.drop_first() =~= rest + value);
    } else {
        assert(s[0] == label[0]);
    }
}

/// Whatever a request put into the environment, a child is told its own identity: the one entry for
/// its agent id is the one injected.
pub proof fn law_identity_is_the_childs(
    env: Seq<Seq<char>>,
    child: Seq<char>,
    parent: Seq<char>,
    session: Seq<char>,
    i: int,
)
    requires
        0 <= i < with_identity(env, child, parent, session).len(),
        entry_key(with_identity(env, child, parent, session)[i]) == "BASEMIND_AGENT_ID"@,
    ensures
        with_identity(env, child, parent, session)[i] == "BASEMIND_AGENT_ID="@ + child,
{
    let kept = env.filter(plain_entry());
    let all = with_identity(env, child, parent, session);
    reveal_strlit("BASEMIND_AGENT_ID");
    reveal_strlit("BASEMIND_PARENT_AGENT_ID=");
    reveal_strlit("BASEMIND_SESSION_ID=");
    if i < kept.len() {
        crate::seqs::lemma_filter_member(env, plain_entry(), i);
        assert(all[i] == kept[i]);
    } else if i == kept.len() + 1 {
        lemma_label_key("BASEMIND_PARENT_AGENT_ID="@, parent);
        assert(entry_key(all[i]).len() == 24);
        assert("BASEMIND_AGENT_ID"@.len() == 17);
    } else if i == kept.len() + 2 {
        lemma_label_key("BASEMIND_SESSION_ID="@, session);
        assert(entry_key(all[i]).len() == 19);
        assert("BASEMIND_AGENT_ID"@.len() == 17);
    }
}

} // verus!
