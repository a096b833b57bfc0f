//! The lean tool surface: three wrapper tools in place of all the real ones.
use vstd::prelude::*;

use crate::model::ToolError;
use crate::text::{lower_of, opt_str, same_str, str_lower, str_trim, trim_of};

verus! {

/// Whether the value of the switch turns the lean surface on: any value but an empty one, `0`, `off`
/// and `false`.
pub open spec fn is_lean(value: Option<Seq<char>>) -> bool {
    match value {
        Some(v) => {
            let t = lower_of(trim_of(v));
            !(t == ""@ || t == "0"@ || t == "off"@ || t == "false"@)
        },
        None => false,
    }
}

/// Whether the lean surface is on. `value` is that of the switch, where it is set.
pub fn lean_mode_enabled(value: Option<&str>) -> (yes: bool)
    ensures
        yes == is_lean(opt_str(value)),
{
    match value {
        Some(v) => {
            let t = str_lower(str_trim(v).as_str());
            !(same_str(t.as_str(), "") || same_str(t.as_str(), "0") || same_str(t.as_str(), "off")
                || same_str(t.as_str(), "false"))
        },
        None => false,
    }
}

/// The wrapper tools.
#[derive(Debug, Clone, Copy, PartialEq, Eq, Structural)]
pub enum WrapperTool {
    ListTools,
    GetToolSchema,
    InvokeTool,
}

/// The wrapper tool of this name.
pub open spec fn wrapper_named(name: Seq<char>) -> Option<WrapperTool> {
    if name == "list_tools"@ {
        Some(WrapperTool::ListTools)
    } else if name == "get_tool_schema"@ {
        Some(WrapperTool::GetToolSchema)
    } else if name == "invoke_tool"@ {
        Some(WrapperTool::InvokeTool)
    } else {
        None
    }
}

/// The wrapper tool of this name.
pub fn lean_get_tool(name: &str) -> (t: Option<WrapperTool>)
    ensures
        t == wrapper_named(name@),
{
    if same_str(name, "list_tools") {
        Some(WrapperTool::ListTools)
    } else if same_str(name, "get_tool_schema") {
        Some(WrapperTool::GetToolSchema)
    } else if same_str(name, "invoke_tool") {
        Some(WrapperTool::InvokeTool)
    } else {
        None
    }
}

/// A field of the input of a wrapper tool.
#[derive(Debug)]
pub struct WrapperField {
    pub name: &'static str,
    /// The JSON type of the field.
    pub kind: &'static str,
    pub description: &'static str,
    pub required: bool,
}

/// What a field of the input says: name, type, description, and whether it is required.
pub type FieldFact = (Seq<char>, Seq<char>, Seq<char>, bool);

/// A tool as the lean listing advertises it. Its input is an object with these fields and no others.
#[derive(Debug)]
pub struct WrapperDefinition {
    pub name: &'static str,
    pub description: &'static str,
    pub fields: Vec<WrapperField>,
    pub read_only: bool,
    pub open_world: bool,
}

/// What a list of fields says.
pub open spec fn field_facts(fields: Seq<WrapperField>) -> Seq<FieldFact> {
    Seq::new(
        fields.len(),
        |i: int|
            (fields[i].name@, fields[i].kind@, fields[i].description@, fields[i].required),
    )
}

/// The name of a wrapper tool.
pub open spec fn wrapper_name(t: WrapperTool) -> Seq<char> {
    match t {
        WrapperTool::ListTools => "list_tools"@,
        WrapperTool::GetToolSchema => "get_tool_schema"@,
        WrapperTool::InvokeTool => "invoke_tool"@,
    }
}

/// What is said of a wrapper tool.
pub open spec fn wrapper_description(t: WrapperTool) -> Seq<char> {
    match t {
        WrapperTool::ListTools =>
            "Lean-mode discovery: list every real basemind tool as a compressed name + one-line description. Call get_tool_schema to fetch a tool's full input schema, then invoke_tool to run it."@,
        WrapperTool::GetToolSchema =>
            "Lean-mode schema fetch: return the full input JSON schema (and description) for one real basemind tool by name."@,
        WrapperTool::InvokeTool =>
            "Lean-mode dispatch: run a real basemind tool. Pass its name and the arguments object it expects (the shape get_tool_schema returns); the result is returned verbatim."@,
    }
}

/// The fields of the input of a wrapper tool.
pub open spec fn wrapper_fields(t: WrapperTool) -> Seq<FieldFact> {
    match t {
        WrapperTool::ListTools => Seq::empty(),
        WrapperTool::GetToolSchema => seq![
            ("tool_name"@, "string"@, "Name of the real basemind tool to describe."@, true),
        ],
        WrapperTool::InvokeTool => seq![
            ("tool_name"@, "string"@, "Name of the real basemind tool to invoke."@, true),
            ("tool_input"@, "object"@, "Arguments object passed through to the real tool."@, false),
        ],
    }
}

/// `d` advertises the wrapper tool. The one that runs real tools may do anything that they do.
pub open spec fn defines(d: WrapperDefinition, t: WrapperTool) -> bool {
    &&& d.name@ == wrapper_name(t)
    &&& d.description@ == wrapper_description(t)
    &&& field_facts(d.fields@) == wrapper_fields(t)
    &&& d.read_only == (t != WrapperTool::InvokeTool)
    &&& d.open_world == (t == WrapperTool::InvokeTool)
}

/// How a wrapper tool is advertised. The one that runs real tools may do anything that they do.
pub fn lean_tool_definition(t: WrapperTool) -> (d: WrapperDefinition)
    ensures
        defines(d, t),
        wrapper_named(d.name@) == Some(t),
{
    proof {
        reveal_strlit("list_tools");
        reveal_strlit("get_tool_schema");
        reveal_strlit("invoke_tool");
        assert("list_tools"@.len() == 10);
        assert("get_tool_schema"@.len() == 15);
        assert("invoke_tool"@.len() == 11);
    }
    let mut fields: Vec<WrapperField> = Vec::new();
    match t {
        WrapperTool::ListTools => {
            assert(field_facts(fields@) =~= wrapper_fields(t));
            WrapperDefinition {
                name: "list_tools",
                description:
                    "Lean-mode discovery: list every real basemind tool as a compressed name + one-line description. Call get_tool_schema to fetch a tool's full input schema, then invoke_tool to run it.",
                fields,
                read_only: true,
                open_world: false,
            }
        },
        WrapperTool::GetToolSchema => {
            fields.push(
                WrapperField {
                    name: "tool_name",
                    kind: "string",
                    description: "Name of the real basemind tool to describe.",
                    required: true,
                },
            );
            assert(field_facts(fields@) =~= wrapper_fields(t));
            WrapperDefinition {
                name: "get_tool_schema",
                description:
                    "Lean-mode schema fetch: return the full input JSON schema (and description) for one real basemind tool by name.",
                fields,
                read_only: true,
                open_world: false,
            }
        },
        WrapperTool::InvokeTool => {
            fields.push(
                WrapperField {
                    name: "tool_name",
                    kind: "string",
                    description: "Name of the real basemind tool to invoke.",
                    required: true,
                },
            );
            fields.push(
                WrapperField {
                    name: "tool_input",
                    kind: "object",
                    description: "Arguments object passed through to the real tool.",
                    required: false,
                },
            );
            assert(field_facts(fields@) =~= wrapper_fields(t));
            WrapperDefinition {
                name: "invoke_tool",
                description:
                    "Lean-mode dispatch: run a real basemind tool. Pass its name and the arguments object it expects (the shape get_tool_schema returns); the result is returned verbatim.",
                fields,
                read_only: false,
                open_world: true,
            }
        },
    }
}

/// The wrapper tools in the order in which they are advertised.
pub open spec fn wrapper_order() -> Seq<WrapperTool> {
    seq![WrapperTool::ListTools, WrapperTool::GetToolSchema, WrapperTool::InvokeTool]
}

/// The tools that the lean surface advertises.
pub fn lean_tool_definitions() -> (tools: Vec<WrapperDefinition>)
    ensures
        tools@.len() == wrapper_order().len(),
        forall|i: int|
            0 <= i < tools@.len() ==> defines(#[trigger] tools@[i], wrapper_order()[i]),
{
    let mut tools: Vec<WrapperDefinition> = Vec::new();
    tools.push(lean_tool_definition(WrapperTool::ListTools));
    tools.push(lean_tool_definition(WrapperTool::GetToolSchema));
    tools.push(lean_tool_definition(WrapperTool::InvokeTool));
    tools
}

/// Refuse a wrapper tool as the target of a wrapper tool.
pub fn reject_wrapper_target(tool_name: &str) -> (r: Result<(), ToolError>)
    ensures
        match r {
            Ok(_) => wrapper_named(tool_name@) is None,
            Err(e) => wrapper_named(tool_name@) is Some && e is InvalidParams && e.text() == "`"@
                + tool_name@ + "` is a lean wrapper tool, not a real basemind tool"@,
        },
{
    match lean_get_tool(tool_name) {
        Some(_) => {
            let mut t = String::from_str("`");
            t.append(tool_name);
            t.append("` is a lean wrapper tool, not a real basemind tool");
            Err(ToolError::InvalidParams(t))
        },
        None => Ok(()),
    }
}

/// A required text argument of a wrapper tool.
pub fn required_str(value: Option<&str>, field: &str) -> (r: Result<String, ToolError>)
    ensures
        match r {
            Ok(s) => opt_str(value) == Some(s@),
            Err(e) => value is None && e is InvalidParams && e.text() == "missing required string `"@
                + field@ + "`"@,
        },
{
    match value {
        Some(v) => Ok(v.to_string()),
        None => {
            let mut t = String::from_str("missing required string `");
            t.append(field);
            t.append("`");
            Err(ToolError::InvalidParams(t))
        },
    }
}

/// The arguments that a call of a real tool is given.
#[derive(Debug)]
pub enum ToolInput {
    /// None, or null.
    Absent,
    Object,
    /// Anything else, as shown.
    Other(String),
}

/// What a call of a wrapper tool comes to.
#[derive(Debug)]
pub enum LeanAction {
    /// List the real tools.
    List,
    /// Describe this real tool.
    Describe(String),
    /// Run this real tool, with arguments or without.
    Invoke { tool: String, with_arguments: bool },
}

/// The text in which a call is refused that aims at a tool; `None` where it is not.
pub open spec fn target_error(target: Option<Seq<char>>, known: bool) -> Option<Seq<char>> {
    match target {
        None => Some("missing required string `"@ + "tool_name"@ + "`"@),
        Some(t) => if wrapper_named(t) is Some {
            Some("`"@ + t + "` is a lean wrapper tool, not a real basemind tool"@)
        } else if !known {
            Some("unknown tool `"@ + t + "`"@)
        } else {
            None
        },
    }
}

fn check_target(target: Option<&str>, known: bool) -> (r: Result<String, ToolError>)
    ensures
        match r {
            Ok(t) => opt_str(target) == Some(t@) && target_error(opt_str(target), known) is None,
            Err(e) => e is InvalidParams && target_error(opt_str(target), known) == Some(e.text()),
        },
{
    let name = match required_str(target, "tool_name") {
        Ok(n) => n,
        Err(e) => {
            return Err(e);
        },
    };
    match reject_wrapper_target(name.as_str()) {
        Ok(_) => {},
        Err(e) => {
            return Err(e);
        },
    }
    if !known {
        let mut t = String::from_str("unknown tool `");
        t.append(name.as_str());
        t.append("`");
        return Err(ToolError::InvalidParams(t));
    }
    Ok(name)
}

/// Decide what a call on the lean surface comes to. `target` is the tool it names, `known` says
/// whether there is a real tool of that name, and `input` is what the tool would be given.
pub fn lean_call_tool(name: &str, target: Option<&str>, known: bool, input: &ToolInput) -> (r: Result<
    LeanAction,
    ToolError,
>)
    ensures
        match r {
            Ok(LeanAction::List) => wrapper_named(name@) == Some(WrapperTool::ListTools),
            Ok(LeanAction::Describe(t)) => wrapper_named(name@) == Some(WrapperTool::GetToolSchema)
                && target_error(opt_str(target), known) is None && opt_str(target) == Some(t@),
            Ok(LeanAction::Invoke { tool, with_arguments }) => {
                &&& wrapper_named(name@) == Some(WrapperTool::InvokeTool)
                &&& target_error(opt_str(target), known) is None
                &&& opt_str(target) == Some(tool@)
                &&& !(input is Other)
                &&& with_arguments == (input is Object)
            },
            Err(e) => e is InvalidParams && match wrapper_named(name@) {
                None => e.text()
                    == "lean mode exposes only `list_tools`, `get_tool_schema`, `invoke_tool`; got `"@
                    + name@ + "`"@,
                Some(WrapperTool::ListTools) => false,
                Some(WrapperTool::GetToolSchema) => target_error(opt_str(target), known) == Some(
                    e.text(),
                ),
                Some(WrapperTool::InvokeTool) => if target_error(opt_str(target), known) is Some {
                    target_error(opt_str(target), known) == Some(e.text())
                } else {
                    input matches ToolInput::Other(o) && e.text()
                        == "`tool_input` must be an object, got "@ + o@
                },
            },
        },
{
    match lean_get_tool(name) {
        Some(WrapperTool::ListTools) => Ok(LeanAction::List),
        Some(WrapperTool::GetToolSchema) => match check_target(target, known) {
            Ok(t) => Ok(LeanAction::Describe(t)),
            Err(e) => Err(e),
        },
        Some(WrapperTool::InvokeTool) => match check_target(target, known) {
            Ok(t) => match input {
                ToolInput::Absent => Ok(LeanAction::Invoke { tool: t, with_arguments: false }),
                ToolInput::Object => Ok(LeanAction::Invoke { tool: t, with_arguments: true }),
                ToolInput::Other(o) => {
                    let mut m = String::from_str("`tool_input` must be an object, got ");
                    m.append(o.as_str());
                    Err(ToolError::InvalidParams(m))
                },
            },
            Err(e) => Err(e),
        },
        None => {
            let mut m = String::from_str(
                "lean mode exposes only `list_tools`, `get_tool_schema`, `invoke_tool`; got `",
            );
            m.append(name);
            m.append("`");
            Err(ToolError::InvalidParams(m))
        },
    }
}

/// The lean surface never runs itself: no call aims at a wrapper tool.
pub proof fn law_wrappers_are_never_targets(target: Seq<char>, known: bool)
    requires
        target_error(Some(target), known) is None,
    ensures
        wrapper_named(target) is None,
        known,
{
}

} // verus!
