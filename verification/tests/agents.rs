use basemind::comms::{
    check_ack, clamp_limit, comms_err, comms_identity, is_created, resolve_comms_identity, route_dm, scope_label,
    RoomScope,
};
use basemind::identity::{fresh_id, persisted_id, resolve_agent_id, Candidate};
use basemind::lean::{
    lean_call_tool, lean_get_tool, lean_mode_enabled, lean_tool_definition, lean_tool_definitions, required_str,
    reject_wrapper_target, LeanAction, ToolInput, WrapperTool,
};
use basemind::lenient::{
    build_message, did_you_mean, expected_fields, join_fields, levenshtein, SchemaEntry, SchemaNode,
};
use basemind::shells::{
    build_environment, check_broadcast, check_spawn, inject_identity, is_loader_var, list_sessions, loader_keys,
    name_child, parse_session_id, require_session, session_room, CwdRequest, LineageRow, NamedSession, RunningSession, ShellEnv,
};

fn strings(list: &[&str]) -> Vec<String> {
    list.iter().map(|s| s.to_string()).collect()
}

// ─── Parameters ──────────────────────────────────────────────────────────────

#[test]
fn levenshtein_matches_known_distances() {
    assert_eq!(levenshtein("pattern", "pattern"), 0);
    assert_eq!(levenshtein("patern", "pattern"), 1);
    assert_eq!(levenshtein("pattrn", "pattern"), 1);
    assert_eq!(levenshtein("", "abc"), 3);
}

#[test]
fn distances_behave_like_distances() {
    let words = ["", "a", "kitten", "sitting", "paterrn", "müde", "mude"];
    for a in words {
        for b in words {
            assert_eq!(levenshtein(a, b), levenshtein(b, a));
            assert_eq!(levenshtein(a, b) == 0, a == b);
            for c in words {
                assert!(levenshtein(a, c) <= levenshtein(a, b) + levenshtein(b, c));
            }
        }
    }
    assert_eq!(levenshtein("kitten", "sitting"), 3);
    assert_eq!(levenshtein("müde", "mude"), 1);
}

#[test]
fn missing_required_field_names_expected_and_suggests() {
    let message = build_message(
        "missing field `pattern`",
        &strings(&["language", "limit", "pattern"]),
        &strings(&["pattern"]),
        &strings(&["patern"]),
    );
    assert!(
        message.contains("pattern"),
        "message should name the expected `pattern` field, got: {message}"
    );
    assert!(
        message.contains("did you mean `pattern`?"),
        "message should suggest the near-miss field, got: {message}"
    );
    assert_eq!(
        message,
        "missing field `pattern`. expected fields: `language`, `limit`, `pattern` (required). did you mean `pattern`?"
    );
}

#[test]
fn missing_required_field_without_near_miss_still_lists_fields() {
    let message = build_message(
        "missing field `pattern`",
        &strings(&["limit", "pattern"]),
        &strings(&["pattern"]),
        &strings(&["completely_unrelated_key"]),
    );
    assert!(
        message.contains("`pattern` (required)"),
        "message should list `pattern` as required, got: {message}"
    );
    assert!(!message.contains("did you mean"));
    assert_eq!(build_message("oops", &vec![], &vec![], &strings(&["x"])), "oops");
}

#[test]
fn the_closest_field_is_suggested() {
    let expected = strings(&["limit", "path", "pattern"]);
    assert_eq!(did_you_mean(&strings(&["pat"]), &expected).as_deref(), Some("path"));
    assert_eq!(did_you_mean(&strings(&["limit"]), &expected), None);
    assert_eq!(did_you_mean(&strings(&["lim", "pattrn"]), &expected).as_deref(), Some("pattern"));
    assert_eq!(did_you_mean(&strings(&["ab"]), &strings(&["a", "b"])).as_deref(), Some("a"));
    assert_eq!(join_fields(&strings(&["a", "b"]), &strings(&["b"])), "`a`, `b` (required)");
}

// ─── Lean surface ────────────────────────────────────────────────────────────

#[test]
fn the_lean_switch() {
    for off in [None, Some(""), Some("  "), Some("0"), Some("OFF"), Some(" False ")] {
        assert!(!lean_mode_enabled(off), "{off:?}");
    }
    for on in ["1", "on", "yes", "00"] {
        assert!(lean_mode_enabled(Some(on)), "{on}");
    }
}

#[test]
fn lean_calls_are_routed() {
    let absent = ToolInput::Absent;
    assert!(matches!(lean_call_tool("list_tools", None, false, &absent), Ok(LeanAction::List)));
    match lean_call_tool("get_tool_schema", Some("outline"), true, &absent) {
        Ok(LeanAction::Describe(t)) => assert_eq!(t, "outline"),
        _ => panic!("a description was asked for"),
    }
    match lean_call_tool("invoke_tool", Some("outline"), true, &ToolInput::Object) {
        Ok(LeanAction::Invoke { tool, with_arguments }) => assert!(tool == "outline" && with_arguments),
        _ => panic!("a call was asked for"),
    }
    let text = |name: &str, target: Option<&str>, known: bool, input: &ToolInput| {
        lean_call_tool(name, target, known, input).err().unwrap().message().to_string()
    };
    assert_eq!(text("invoke_tool", None, true, &absent), "missing required string `tool_name`");
    assert_eq!(
        text("invoke_tool", Some("invoke_tool"), true, &absent),
        "`invoke_tool` is a lean wrapper tool, not a real basemind tool"
    );
    assert_eq!(text("get_tool_schema", Some("nope"), false, &absent), "unknown tool `nope`");
    assert_eq!(
        text("invoke_tool", Some("outline"), true, &ToolInput::Other("3".to_string())),
        "`tool_input` must be an object, got 3"
    );
    assert_eq!(
        text("outline", None, true, &absent),
        "lean mode exposes only `list_tools`, `get_tool_schema`, `invoke_tool`; got `outline`"
    );
    assert_eq!(lean_get_tool("invoke_tool"), Some(WrapperTool::InvokeTool));
    assert_eq!(lean_get_tool("outline"), None);
    let d = lean_tool_definition(WrapperTool::InvokeTool);
    assert!(d.name == "invoke_tool" && !d.read_only && d.open_world);
    assert!(reject_wrapper_target("outline").is_ok());
    assert_eq!(required_str(Some("x"), "f").unwrap(), "x");
}

// ─── Identity and messages ───────────────────────────────────────────────────

fn candidate(name: &str, valid: bool) -> Option<Candidate> {
    Some(Candidate { name: name.to_string(), valid })
}

#[test]
fn the_first_valid_name_wins() {
    assert_eq!(resolve_agent_id(candidate("e", true), candidate("c", true), candidate("p", true)), "e");
    assert_eq!(resolve_agent_id(candidate("e", false), candidate("c", true), None), "c");
    assert_eq!(resolve_agent_id(None, None, candidate("p", true)), "p");
    assert_eq!(resolve_agent_id(None, candidate("c", false), candidate("p", false)), "anon");
    assert_eq!(persisted_id(" me \n").as_deref(), Some("me"));
    assert_eq!(persisted_id(" \n"), None);
    assert_eq!(fresh_id(255, 4096), "session-ff-1000");
    assert_eq!(fresh_id(0, 0), "session-0-0");
}

#[test]
fn two_agents_share_one_room() {
    let a = route_dm("bob", "alice").unwrap();
    let b = route_dm("alice", "bob").unwrap();
    assert_eq!(a.room, "dm:alice:bob");
    assert_eq!(b.room, a.room);
    assert_eq!(a.title, "dm alice <-> bob");
    assert!(matches!(a.scope, RoomScope::Session(s) if s == "dm:alice:bob"));
    assert_eq!(route_dm("alice", "alice").err().unwrap().message(), "comms: cannot dm yourself");
}

#[test]
fn message_requests_are_checked() {
    assert_eq!((clamp_limit(None, 500), clamp_limit(Some(0), 500), clamp_limit(Some(9999), 500)), (100, 1, 500));
    assert_eq!(clamp_limit(None, 50), 50);
    assert!(check_ack(&strings(&["m"]), false, false).is_ok());
    assert!(check_ack(&vec![], true, true).is_ok());
    assert_eq!(
        check_ack(&vec![], true, false).unwrap_err().message(),
        "comms: inbox_ack requires message_ids or a (room, to_seq) pair"
    );
    assert_eq!(comms_err("down").message(), "comms: down");
    assert_eq!(scope_label(&RoomScope::Global), "global");
    assert_eq!(scope_label(&RoomScope::PathPrefix("/x".to_string())), "path");
    assert_eq!(scope_label(&RoomScope::Remote("r".to_string())), "remote");
    assert!(is_created(&strings(&["a"]), "b") && !is_created(&strings(&["a"]), "a"));
}

// ─── Shells ──────────────────────────────────────────────────────────────────

fn env(key: &str, value: &str) -> ShellEnv {
    ShellEnv { key: key.to_string(), value: value.to_string() }
}

#[test]
fn environments_are_checked() {
    assert_eq!(
        build_environment(&vec![env("A", "1"), env("B", "x=y")]).unwrap(),
        strings(&["A=1", "B=x=y"])
    );
    let text = |e: ShellEnv| build_environment(&vec![env("A", "1"), e]).unwrap_err().message().to_string();
    assert_eq!(text(env("", "1")), "env key must not be empty");
    assert_eq!(
        text(env("A=B", "1")),
        "env key \"A=B\" must not contain '=', NUL, newline, or carriage return"
    );
    assert_eq!(
        text(env("A\nB", "1")),
        "env key \"A\\nB\" must not contain '=', NUL, newline, or carriage return"
    );
    assert_eq!(
        text(env("K", "a\0b")),
        "env value for key \"K\" must not contain NUL, newline, or carriage return"
    );
}

#[test]
fn a_child_gets_its_own_identity() {
    let mut environment = strings(&["A=1", "BASEMIND_AGENT_ID=evil", "BASEMIND_AGENT_ID_X=kept", "BASEMIND_SESSION_ID=s"]);
    inject_identity(&mut environment, "me-s1", "me", "s1");
    assert_eq!(
        environment,
        strings(&[
            "A=1",
            "BASEMIND_AGENT_ID_X=kept",
            "BASEMIND_AGENT_ID=me-s1",
            "BASEMIND_PARENT_AGENT_ID=me",
            "BASEMIND_SESSION_ID=s1",
        ])
    );
    assert_eq!(name_child("me", "s1", None, None).unwrap(), "me-s1");
    assert_eq!(name_child("me", "s1", Some("too long"), None).unwrap(), "shell-s1");
    assert_eq!(
        name_child("me", "s1", Some("too long"), Some("bad")).unwrap_err().message(),
        "comms: derive child agent id: candidate \"me-s1\" rejected (too long) and fallback \"shell-s1\" also rejected (bad)"
    );
}

#[test]
fn sessions_must_exist() {
    assert_eq!(parse_session_id(" ").unwrap_err().message(), "session_id must not be empty");
    assert!(require_session("s", true).is_ok());
    assert_eq!(
        require_session("s", false).unwrap_err().message(),
        "unknown session_id \"s\"; it may have been killed or never existed"
    );
    assert_eq!(check_broadcast(&vec![]).unwrap_err().message(), "session_ids must not be empty");
    let named = |raw: &str, known: bool| NamedSession { raw: raw.to_string(), known };
    assert!(check_broadcast(&vec![named("a", true), named("b", true)]).is_ok());
    assert!(check_broadcast(&vec![named("a", true), named("b", false)]).is_err());
}

#[test]
fn spawns_are_checked() {
    assert_eq!(
        check_spawn(false, CwdRequest::Default).unwrap_err().message(),
        "shells are disabled in config ([shells].enabled = false)"
    );
    assert_eq!(check_spawn(true, CwdRequest::NotText).unwrap_err().message(), "cwd is not valid UTF-8");
    assert_eq!(check_spawn(true, CwdRequest::Outside).unwrap_err().message(), "cwd escapes the repository root");
    assert_eq!(check_spawn(true, CwdRequest::Inside("src".to_string())).unwrap().as_deref(), Some("src"));
    assert_eq!(check_spawn(true, CwdRequest::Default).unwrap(), None);
}

#[test]
fn sessions_are_merged_by_id() {
    let running = vec![
        RunningSession { session_id: "s2".to_string(), name: "two".to_string(), alive: true },
        RunningSession { session_id: "s1".to_string(), name: "one".to_string(), alive: false },
    ];
    let row = |id: &str, parent: Option<&str>| LineageRow {
        session_id: id.to_string(),
        parent_agent: parent.map(str::to_string),
        child_agent: format!("child-{id}"),
        room_id: format!("room-{id}"),
    };
    let out = list_sessions(&running, &vec![row("s3", Some("me")), row("s2", None)]);
    let seen: Vec<(&str, &str, bool, Option<&str>)> = out
        .iter()
        .map(|s| (s.session_id.as_str(), s.name.as_str(), s.alive, s.room_id.as_deref()))
        .collect();
    assert_eq!(
        seen,
        vec![("s1", "one", false, None), ("s2", "two", true, Some("room-s2")), ("s3", "s3", false, Some("room-s3"))]
    );
    assert_eq!(out[2].parent_agent.as_deref(), Some("me"));
    assert_eq!(out[1].child_agent.as_deref(), Some("child-s2"));
}

#[test]
fn a_tool_acts_as_the_server_or_as_its_child() {
    let own = comms_identity("srv", None, "sess");
    assert_eq!((own.name.as_str(), own.session, own.parent), ("srv", None, None));
    let same = comms_identity("srv", Some("srv"), "sess");
    assert_eq!((same.name.as_str(), same.session, same.parent), ("srv", None, None));
    let sub = comms_identity("srv", Some("sub"), "sess");
    assert_eq!(sub.name, "sub");
    assert_eq!((sub.session.as_deref(), sub.parent.as_deref()), (Some("sess"), Some("srv")));
    assert!(resolve_comms_identity("srv", Some("sub"), None, "sess").is_ok());
    assert_eq!(
        resolve_comms_identity("srv", Some("a b"), Some("has a space"), "sess").err().unwrap().message(),
        "comms: invalid as_agent \"a b\": has a space"
    );
    assert_eq!(
        resolve_comms_identity("", None, Some("empty"), "sess").err().unwrap().message(),
        "comms: invalid agent id \"\": empty"
    );
}

#[test]
fn loader_variables_pass_with_a_warning() {
    for key in [
        "LD_PRELOAD",
        "LD_AUDIT",
        "DYLD_INSERT_LIBRARIES",
        "DYLD_LIBRARY_PATH",
        "DYLD_FALLBACK_LIBRARY_PATH",
    ] {
        assert!(is_loader_var(key));
    }
    assert!(!is_loader_var("ld_preload") && !is_loader_var("PATH") && !is_loader_var(""));
    let var = |key: &str| ShellEnv { key: key.to_string(), value: "x".to_string() };
    let env = vec![var("LD_AUDIT"), var("PATH"), var("LD_PRELOAD")];
    assert_eq!(loader_keys(&env), ["LD_AUDIT", "LD_PRELOAD"]);
    assert_eq!(build_environment(&env).unwrap().len(), 3);
}

#[test]
fn a_session_has_its_room() {
    let room = session_room("s1", "srv", "srv-s1", None).unwrap();
    assert_eq!(room.id, "s1");
    assert_eq!(room.title, "shell session s1 (srv -> srv-s1)");
    assert_eq!(
        session_room("s 1", "srv", "c", Some("bad")).err().unwrap().message(),
        "comms: derive session room id \"s 1\": bad"
    );
}

#[test]
fn the_lean_tools_come_in_order_with_their_fields() {
    let tools = lean_tool_definitions();
    let names: Vec<&str> = tools.iter().map(|t| t.name).collect();
    assert_eq!(names, ["list_tools", "get_tool_schema", "invoke_tool"]);
    assert!(tools[0].fields.is_empty());
    assert!(tools[0].description.starts_with("Lean-mode discovery: list every real basemind tool"));
    let fields: Vec<(&str, &str, bool)> = tools[2].fields.iter().map(|f| (f.name, f.kind, f.required)).collect();
    assert_eq!(fields, [("tool_name", "string", true), ("tool_input", "object", false)]);
    assert_eq!(tools[1].fields[0].description, "Name of the real basemind tool to describe.");
}

#[test]
fn fields_are_read_from_a_schema() {
    let entry = |key: &str, value: SchemaNode| SchemaEntry { key: key.to_string(), value };
    let text = |t: &str| SchemaNode::Text(t.to_string());
    let schema = SchemaNode::Object(vec![
        entry("type", text("object")),
        entry(
            "properties",
            SchemaNode::Object(vec![entry("pattern", SchemaNode::Other), entry("limit", SchemaNode::Other)]),
        ),
        entry("required", SchemaNode::List(vec![text("pattern"), SchemaNode::Other])),
    ]);
    assert_eq!(expected_fields(&schema), (strings(&["pattern", "limit"]), strings(&["pattern"])));
    assert_eq!(expected_fields(&text("x")), (vec![], vec![]));
    let odd = SchemaNode::Object(vec![entry("properties", text("x")), entry("required", text("y"))]);
    assert_eq!(expected_fields(&odd), (vec![], vec![]));
}
