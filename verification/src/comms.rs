//! Agent messaging: limits, checks, and the room of two agents.
use vstd::prelude::*;
use vstd::utf8::encode_utf8;

use crate::model::ToolError;
use crate::text::{
    bytes_less, lemma_encoding_injective, lemma_lex_asymmetric, lemma_lex_total, lex_less, opt_str,
    opt_text, quoted, quoted_text, same_str, texts,
};

verus! {

/// The page size where a request gives none.
pub const DEFAULT_LIMIT: u32 = 100;

/// An error of the messaging tools.
pub fn comms_err(error: &str) -> (e: ToolError)
    ensures
        e is Internal,
        e.text() == "comms: "@ + error@,
{
    let mut t = String::from_str("comms: ");
    t.append(error);
    ToolError::Internal(t)
}

// ─── Who acts ────────────────────────────────────────────────────────────────

/// The identity that a tool acts as. One other than the server's own is a child of the server, in the
/// session that the server runs.
#[derive(Debug)]
pub struct CommsTarget {
    pub name: String,
    pub session: Option<String>,
    pub parent: Option<String>,
}

/// The name that a tool acts under: the one asked for, or the server's own.
pub open spec fn acting_name(own: Seq<char>, as_agent: Option<Seq<char>>) -> Seq<char> {
    match as_agent {
        Some(a) => a,
        None => own,
    }
}

/// `t` is the identity that a tool acts as.
pub open spec fn is_target(
    t: CommsTarget,
    own: Seq<char>,
    as_agent: Option<Seq<char>>,
    session: Seq<char>,
) -> bool {
    let name = acting_name(own, as_agent);
    &&& t.name@ == name
    &&& opt_text(t.session) == if name == own {
        None
    } else {
        Some(session)
    }
    &&& opt_text(t.parent) == if name == own {
        None
    } else {
        Some(own)
    }
}

/// The identity that a tool acts as: the one asked for, or the server's own, which has neither
/// session nor parent.
pub fn comms_identity(own: &str, as_agent: Option<&str>, session: &str) -> (t: CommsTarget)
    ensures
        is_target(t, own@, opt_str(as_agent), session@),
{
    let name = match as_agent {
        Some(a) => a.to_string(),
        None => own.to_string(),
    };
    if same_str(name.as_str(), own) {
        CommsTarget { name, session: None, parent: None }
    } else {
        CommsTarget { name, session: Some(session.to_string()), parent: Some(own.to_string()) }
    }
}

/// The identity that a tool acts as, where its name is a valid id. `fault` is why it is none.
pub fn resolve_comms_identity(own: &str, as_agent: Option<&str>, fault: Option<&str>, session: &str) -> (r:
    Result<CommsTarget, ToolError>)
    ensures
        match r {
            Ok(t) => fault is None && is_target(t, own@, opt_str(as_agent), session@),
            Err(e) => fault is Some && e is Internal && e.text() == "comms: "@ + ((match as_agent {
                Some(a) => "invalid as_agent "@ + quoted_text(a@),
                None => "invalid agent id "@ + quoted_text(own@),
            }) + ": "@ + fault->0@),
        },
{
    match fault {
        None => Ok(comms_identity(own, as_agent, session)),
        Some(why) => {
            let mut t = match as_agent {
                Some(a) => {
                    let mut t = String::from_str("invalid as_agent ");
                    t.append(quoted(a).as_str());
                    t
                },
                None => {
                    let mut t = String::from_str("invalid agent id ");
                    t.append(quoted(own).as_str());
                    t
                },
            };
            t.append(": ");
            t.append(why);
            Err(comms_err(t.as_str()))
        },
    }
}

// ─── Requests ────────────────────────────────────────────────────────────────

/// A page size between one and the broker's maximum.
pub fn clamp_limit(limit: Option<u32>, max_limit: u32) -> (n: u32)
    requires
        max_limit >= 1,
    ensures
        1 <= n <= max_limit,
        ({
            let asked = match limit {
                Some(x) => x,
                None => DEFAULT_LIMIT,
            };
            1 <= asked <= max_limit ==> n == asked
        }),
        limit == Some(0u32) ==> n == 1,
        (match limit {
            Some(x) => x,
            None => DEFAULT_LIMIT,
        }) > max_limit ==> n == max_limit,
{
    let asked: u32 = match limit {
        Some(x) => x,
        None => DEFAULT_LIMIT,
    };
    if asked < 1 {
        1
    } else if asked > max_limit {
        max_limit
    } else {
        asked
    }
}

/// Check an acknowledgement: it names messages, or a room together with a position in it.
pub fn check_ack(message_ids: &Vec<String>, has_room: bool, has_to_seq: bool) -> (r: Result<
    (),
    ToolError,
>)
    ensures
        match r {
            Ok(_) => message_ids@.len() > 0 || (has_room && has_to_seq),
            Err(e) => message_ids@.len() == 0 && !(has_room && has_to_seq) && e is Internal && e.text()
                == "comms: "@ + "inbox_ack requires message_ids or a (room, to_seq) pair"@,
        },
{
    if message_ids.len() == 0 && !(has_room && has_to_seq) {
        return Err(comms_err("inbox_ack requires message_ids or a (room, to_seq) pair"));
    }
    Ok(())
}

/// Who a room is for.
#[derive(Debug)]
pub enum RoomScope {
    Remote(String),
    PathPrefix(String),
    Session(String),
    Global,
}

/// The label of a scope.
pub fn scope_label(scope: &RoomScope) -> (label: &'static str)
    ensures
        label@ == (match scope {
            RoomScope::Remote(_) => "remote"@,
            RoomScope::PathPrefix(_) => "path"@,
            RoomScope::Session(_) => "session"@,
            RoomScope::Global => "global"@,
        }),
{
    match scope {
        RoomScope::Remote(_) => "remote",
        RoomScope::PathPrefix(_) => "path",
        RoomScope::Session(_) => "session",
        RoomScope::Global => "global",
    }
}

/// Whether a room is new: none of those that exist has its id.
pub fn is_created(existing: &Vec<String>, room: &str) -> (created: bool)
    ensures
        created == !texts(existing@).contains(room@),
{
    !crate::text::list_holds(existing.as_slice(), room)
}

// ─── Direct messages ─────────────────────────────────────────────────────────

/// The two ids in ascending order.
pub open spec fn ordered_pair(a: Seq<char>, b: Seq<char>) -> (Seq<char>, Seq<char>) {
    if lex_less(encode_utf8(b), encode_utf8(a)) {
        (b, a)
    } else {
        (a, b)
    }
}

/// The room of two agents.
pub open spec fn dm_room(a: Seq<char>, b: Seq<char>) -> Seq<char> {
    "dm:"@ + ordered_pair(a, b).0 + ":"@ + ordered_pair(a, b).1
}

/// The title of the room of two agents.
pub open spec fn dm_title(a: Seq<char>, b: Seq<char>) -> Seq<char> {
    "dm "@ + ordered_pair(a, b).0 + " <-> "@ + ordered_pair(a, b).1
}

/// What a direct message goes through. The room is scoped to a session of its own name, which no
/// agent has, so nobody joins it unasked.
#[derive(Debug)]
pub struct DmRoute {
    pub room: String,
    pub scope: RoomScope,
    pub title: String,
}

/// Route a direct message. Nobody writes to themselves.
pub fn route_dm(from: &str, to: &str) -> (r: Result<DmRoute, ToolError>)
    ensures
        match r {
            Ok(d) => {
                &&& from@ != to@
                &&& d.room@ == dm_room(from@, to@)
                &&& d.scope matches RoomScope::Session(s) && s@ == dm_room(from@, to@)
                &&& d.title@ == dm_title(from@, to@)
            },
            Err(e) => from@ == to@ && e is Internal && e.text() == "comms: "@
                + "cannot dm yourself"@,
        },
{
    if same_str(from, to) {
        return Err(comms_err("cannot dm yourself"));
    }
    let (lo, hi) = if bytes_less(to.as_bytes(), from.as_bytes()) {
        (to, from)
    } else {
        (from, to)
    };
    let mut room = String::from_str("dm:");
    room.append(lo);
    room.append(":");
    room.append(hi);
    let mut title = String::from_str("dm ");
    title.append(lo);
    title.append(" <-> ");
    title.append(hi);
    let session = room.clone();
    Ok(DmRoute { room, scope: RoomScope::Session(session), title })
}

/// Two agents share one room, whoever writes first.
pub proof fn law_dm_room_is_shared(a: Seq<char>, b: Seq<char>)
    ensures
        dm_room(a, b) == dm_room(b, a),
        dm_title(a, b) == dm_title(b, a),
{
    let x = encode_utf8(a);
    let y = encode_utf8(b);
    if x == y {
        lemma_encoding_injective(a, b);
    } else {
        lemma_lex_total(x, y);
        if lex_less(x, y) {
            lemma_lex_asymmetric(x, y);
        } else {
            lemma_lex_asymmetric(y, x);
        }
    }
}

proof fn lemma_first_colon(a: Seq<char>, b: Seq<char>, c: Seq<char>, d: Seq<char>)
    requires
        a + ":"@ + b == c + ":"@ + d,
        !a.contains(':'),
        !c.contains(':'),
    ensures
        a == c,
        b == d,
{
    reveal_strlit(":");
    let s = a + ":"@ + b;
    let t = c + ":"@ + d;
    assert(s[a.len() as int] == ':');
    assert(t[c.len() as int] == ':');
    if a.len() < c.len() {
        assert(c[a.len() as int] == t[a.len() as int]);
        assert(c.contains(':'));
    } else if c.len() < a.len() {
        assert(a[c.len() as int] == s[c.len() as int]);
        assert(a.contains(':'));
    }
    assert(a =~= s.take(a.len() as int));
    assert(c =~= t.take(c.len() as int));
    assert(b =~= s.skip(a.len() as int + 1));
    assert(d =~= t.skip(c.len() as int + 1));
}

/// Different pairs of agents have different rooms, as long as no id holds a colon.
pub proof fn law_dm_rooms_differ(a: Seq<char>, b: Seq<char>, c: Seq<char>, d: Seq<char>)
    requires
        !a.contains(':'),
        !b.contains(':'),
        !c.contains(':'),
        !d.contains(':'),
        dm_room(a, b) == dm_room(c, d),
    ensures
        (a == c && b == d) || (a == d && b == c),
{
    let p = ordered_pair(a, b);
    let q = ordered_pair(c, d);
    let s = dm_room(a, b);
    let t = dm_room(c, d);
    assert(p.0 + ":"@ + p.1 =~= s.skip("dm:"@.len() as int));
    assert(q.0 + ":"@ + q.1 =~= t.skip("dm:"@.len() as int));
    lemma_first_colon(p.0, p.1, q.0, q.1);
}

} // verus!
