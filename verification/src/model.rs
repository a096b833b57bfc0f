//! The code map: symbols, imports, calls and implementations of one file, and the repository-wide
//! map from path to file.
use vstd::prelude::*;

use crate::text::{
    bytes_less, copy_bytes, lemma_lex_irreflexive, lemma_lex_total, lemma_lex_transitive, lex_less,
    lower_of, same_bytes, same_str, str_lower,
};

verus! {

/// Schema version of every persisted blob.
pub const SCHEMA_VER: u16 = 1;

/// How a tool call fails: the class of the failure and the message the client reads.
#[derive(Debug)]
pub enum ToolError {
    InvalidParams(String),
    InvalidRequest(String),
    Internal(String),
}

impl ToolError {
    /// The message the client reads.
    pub open spec fn text(&self) -> Seq<char> {
        match self {
            ToolError::InvalidParams(m) => m@,
            ToolError::InvalidRequest(m) => m@,
            ToolError::Internal(m) => m@,
        }
    }

    /// The message the client reads.
    pub fn message(&self) -> (m: &str)
        ensures
            m@ == self.text(),
    {
        match self {
            ToolError::InvalidParams(m) => m.as_str(),
            ToolError::InvalidRequest(m) => m.as_str(),
            ToolError::Internal(m) => m.as_str(),
        }
    }
}

/// A repository-relative path: raw bytes, `/`-separated, ordered byte by byte.
#[derive(Debug, Clone)]
pub struct RelPath {
    pub bytes: Vec<u8>,
}

impl View for RelPath {
    type V = Seq<u8>;

    open spec fn view(&self) -> Seq<u8> {
        self.bytes@
    }
}

impl RelPath {
    /// The path whose bytes are those of `s`.
    pub fn from_text(s: &str) -> (p: RelPath)
        ensures
            p@ == vstd::utf8::encode_utf8(s@),
    {
        RelPath { bytes: copy_bytes(s.as_bytes()) }
    }

    /// A copy of the path.
    pub fn copy(&self) -> (p: RelPath)
        ensures
            p@ == self@,
    {
        RelPath { bytes: copy_bytes(self.bytes.as_slice()) }
    }

    /// Equality of two paths.
    pub fn same(&self, other: &RelPath) -> (yes: bool)
        ensures
            yes == (self@ == other@),
    {
        same_bytes(self.bytes.as_slice(), other.bytes.as_slice())
    }
}

/// What a symbol is.
#[derive(Debug, Clone, Copy, PartialEq, Eq, Structural)]
pub enum SymbolKind {
    Function,
    Method,
    Struct,
    Enum,
    Class,
    Interface,
    Trait,
    Type,
    Const,
    Module,
    Macro,
    Impl,
    Namespace,
    Getter,
    Setter,
    Field,
    Variable,
    EnumVariant,
    Constructor,
    Decorator,
    Heading,
    Unknown,
}

/// The wire name of a symbol kind.
pub open spec fn kind_name(k: SymbolKind) -> Seq<char> {
    match k {
        SymbolKind::Function => "function"@,
        SymbolKind::Method => "method"@,
        SymbolKind::Struct => "struct"@,
        SymbolKind::Enum => "enum"@,
        SymbolKind::Class => "class"@,
        SymbolKind::Interface => "interface"@,
        SymbolKind::Trait => "trait"@,
        SymbolKind::Type => "type"@,
        SymbolKind::Const => "const"@,
        SymbolKind::Module => "module"@,
        SymbolKind::Macro => "macro"@,
        SymbolKind::Impl => "impl"@,
        SymbolKind::Namespace => "namespace"@,
        SymbolKind::Getter => "getter"@,
        SymbolKind::Setter => "setter"@,
        SymbolKind::Field => "field"@,
        SymbolKind::Variable => "variable"@,
        SymbolKind::EnumVariant => "enum_variant"@,
        SymbolKind::Constructor => "constructor"@,
        SymbolKind::Decorator => "decorator"@,
        SymbolKind::Heading => "heading"@,
        SymbolKind::Unknown => "unknown"@,
    }
}

/// The kinds that a name given in full stands for. `Unknown` and `Heading` are not among them.
pub open spec fn code_kind_named(s: Seq<char>) -> Option<SymbolKind> {
    if s == "function"@ {
        Some(SymbolKind::Function)
    } else if s == "method"@ {
        Some(SymbolKind::Method)
    } else if s == "struct"@ {
        Some(SymbolKind::Struct)
    } else if s == "enum"@ {
        Some(SymbolKind::Enum)
    } else if s == "class"@ {
        Some(SymbolKind::Class)
    } else if s == "interface"@ {
        Some(SymbolKind::Interface)
    } else if s == "trait"@ {
        Some(SymbolKind::Trait)
    } else if s == "type"@ {
        Some(SymbolKind::Type)
    } else if s == "const"@ {
        Some(SymbolKind::Const)
    } else if s == "module"@ {
        Some(SymbolKind::Module)
    } else if s == "macro"@ {
        Some(SymbolKind::Macro)
    } else if s == "impl"@ {
        Some(SymbolKind::Impl)
    } else if s == "namespace"@ {
        Some(SymbolKind::Namespace)
    } else if s == "getter"@ {
        Some(SymbolKind::Getter)
    } else if s == "setter"@ {
        Some(SymbolKind::Setter)
    } else if s == "field"@ {
        Some(SymbolKind::Field)
    } else if s == "variable"@ {
        Some(SymbolKind::Variable)
    } else if s == "enum_variant"@ {
        Some(SymbolKind::EnumVariant)
    } else if s == "constructor"@ {
        Some(SymbolKind::Constructor)
    } else if s == "decorator"@ {
        Some(SymbolKind::Decorator)
    } else {
        None
    }
}

/// The kind that a query filter names: a code kind, a heading, or `variant` for an enum variant.
pub open spec fn kind_named(s: Seq<char>) -> Option<SymbolKind> {
    if s == "variant"@ {
        Some(SymbolKind::EnumVariant)
    } else if s == "heading"@ {
        Some(SymbolKind::Heading)
    } else {
        code_kind_named(s)
    }
}

/// The wire name of a symbol kind.
pub fn kind_to_str(k: SymbolKind) -> (name: &'static str)
    ensures
        name@ == kind_name(k),
{
    match k {
        SymbolKind::Function => "function",
        SymbolKind::Method => "method",
        SymbolKind::Struct => "struct",
        SymbolKind::Enum => "enum",
        SymbolKind::Class => "class",
        SymbolKind::Interface => "interface",
        SymbolKind::Trait => "trait",
        SymbolKind::Type => "type",
        SymbolKind::Const => "const",
        SymbolKind::Module => "module",
        SymbolKind::Macro => "macro",
        SymbolKind::Impl => "impl",
        SymbolKind::Namespace => "namespace",
        SymbolKind::Getter => "getter",
        SymbolKind::Setter => "setter",
        SymbolKind::Field => "field",
        SymbolKind::Variable => "variable",
        SymbolKind::EnumVariant => "enum_variant",
        SymbolKind::Constructor => "constructor",
        SymbolKind::Decorator => "decorator",
        SymbolKind::Heading => "heading",
        SymbolKind::Unknown => "unknown",
    }
}

/// Parse a kind string back to `SymbolKind`, letter case significant.
pub fn parse_kind_opt(k: &str) -> (kind: Option<SymbolKind>)
    ensures
        kind == code_kind_named(k@),
{
    if same_str(k, "function") {
        Some(SymbolKind::Function)
    } else if same_str(k, "method") {
        Some(SymbolKind::Method)
    } else if same_str(k, "struct") {
        Some(SymbolKind::Struct)
    } else if same_str(k, "enum") {
        Some(SymbolKind::Enum)
    } else if same_str(k, "class") {
        Some(SymbolKind::Class)
    } else if same_str(k, "interface") {
        Some(SymbolKind::Interface)
    } else if same_str(k, "trait") {
        Some(SymbolKind::Trait)
    } else if same_str(k, "type") {
        Some(SymbolKind::Type)
    } else if same_str(k, "const") {
        Some(SymbolKind::Const)
    } else if same_str(k, "module") {
        Some(SymbolKind::Module)
    } else if same_str(k, "macro") {
        Some(SymbolKind::Macro)
    } else if same_str(k, "impl") {
        Some(SymbolKind::Impl)
    } else if same_str(k, "namespace") {
        Some(SymbolKind::Namespace)
    } else if same_str(k, "getter") {
        Some(SymbolKind::Getter)
    } else if same_str(k, "setter") {
        Some(SymbolKind::Setter)
    } else if same_str(k, "field") {
        Some(SymbolKind::Field)
    } else if same_str(k, "variable") {
        Some(SymbolKind::Variable)
    } else if same_str(k, "enum_variant") {
        Some(SymbolKind::EnumVariant)
    } else if same_str(k, "constructor") {
        Some(SymbolKind::Constructor)
    } else if same_str(k, "decorator") {
        Some(SymbolKind::Decorator)
    } else {
        None
    }
}

/// Parse the kind filter of a query. Letter case of ASCII letters is ignored; an unknown name is
/// refused with a message that repeats it in lower case.
pub fn parse_kind(s: &str) -> (r: Result<SymbolKind, ToolError>)
    ensures
        match r {
            Ok(k) => kind_named(lower_of(s@)) == Some(k),
            Err(e) => kind_named(lower_of(s@)) is None && e is InvalidParams && e.text()
                == "unknown symbol kind: "@ + lower_of(s@),
        },
{
    let low = str_lower(s);
    if same_str(low.as_str(), "variant") {
        return Ok(SymbolKind::EnumVariant);
    }
    if same_str(low.as_str(), "heading") {
        return Ok(SymbolKind::Heading);
    }
    match parse_kind_opt(low.as_str()) {
        Some(k) => Ok(k),
        None => {
            let mut m = String::from_str("unknown symbol kind: ");
            m.append(low.as_str());
            Err(ToolError::InvalidParams(m))
        },
    }
}

/// Length and leading letters of every kind name, which tell any two of them apart.
proof fn lemma_kind_letters()
    ensures
        "function"@.len() == 8 && "function"@[0] == 'f' && "function"@[1] == 'u',
        "method"@.len() == 6 && "method"@[0] == 'm' && "method"@[1] == 'e',
        "struct"@.len() == 6 && "struct"@[0] == 's' && "struct"@[1] == 't',
        "enum"@.len() == 4 && "enum"@[0] == 'e' && "enum"@[1] == 'n',
        "class"@.len() == 5 && "class"@[0] == 'c' && "class"@[1] == 'l',
        "interface"@.len() == 9 && "interface"@[0] == 'i' && "interface"@[1] == 'n',
        "trait"@.len() == 5 && "trait"@[0] == 't' && "trait"@[1] == 'r',
        "type"@.len() == 4 && "type"@[0] == 't' && "type"@[1] == 'y',
        "const"@.len() == 5 && "const"@[0] == 'c' && "const"@[1] == 'o',
        "module"@.len() == 6 && "module"@[0] == 'm' && "module"@[1] == 'o',
        "macro"@.len() == 5 && "macro"@[0] == 'm' && "macro"@[1] == 'a',
        "impl"@.len() == 4 && "impl"@[0] == 'i' && "impl"@[1] == 'm',
        "namespace"@.len() == 9 && "namespace"@[0] == 'n' && "namespace"@[1] == 'a',
        "getter"@.len() == 6 && "getter"@[0] == 'g' && "getter"@[1] == 'e',
        "setter"@.len() == 6 && "setter"@[0] == 's' && "setter"@[1] == 'e',
        "field"@.len() == 5 && "field"@[0] == 'f' && "field"@[1] == 'i',
        "variable"@.len() == 8 && "variable"@[0] == 'v' && "variable"@[1] == 'a',
        "variant"@.len() == 7 && "variant"@[0] == 'v' && "variant"@[1] == 'a',
        "enum_variant"@.len() == 12 && "enum_variant"@[0] == 'e' && "enum_variant"@[1] == 'n',
        "constructor"@.len() == 11 && "constructor"@[0] == 'c' && "constructor"@[1] == 'o',
        "decorator"@.len() == 9 && "decorator"@[0] == 'd' && "decorator"@[1] == 'e',
        "heading"@.len() == 7 && "heading"@[0] == 'h' && "heading"@[1] == 'e',
        "unknown"@.len() == 7 && "unknown"@[0] == 'u' && "unknown"@[1] == 'n',
{
    reveal_strlit("function");
    reveal_strlit("method");
    reveal_strlit("struct");
    reveal_strlit("enum");
    reveal_strlit("class");
    reveal_strlit("interface");
    reveal_strlit("trait");
    reveal_strlit("type");
    reveal_strlit("const");
    reveal_strlit("module");
    reveal_strlit("macro");
    reveal_strlit("impl");
    reveal_strlit("namespace");
    reveal_strlit("getter");
    reveal_strlit("setter");
    reveal_strlit("field");
    reveal_strlit("variable");
    reveal_strlit("variant");
    reveal_strlit("enum_variant");
    reveal_strlit("constructor");
    reveal_strlit("decorator");
    reveal_strlit("heading");
    reveal_strlit("unknown");
}

/// Kind names are in lower case.
proof fn lemma_kind_lower()
    ensures
        lower_of("function"@) == "function"@,
        lower_of("method"@) == "method"@,
        lower_of("struct"@) == "struct"@,
        lower_of("enum"@) == "enum"@,
        lower_of("class"@) == "class"@,
        lower_of("interface"@) == "interface"@,
        lower_of("trait"@) == "trait"@,
        lower_of("type"@) == "type"@,
        lower_of("const"@) == "const"@,
        lower_of("module"@) == "module"@,
        lower_of("macro"@) == "macro"@,
        lower_of("impl"@) == "impl"@,
        lower_of("namespace"@) == "namespace"@,
        lower_of("getter"@) == "getter"@,
        lower_of("setter"@) == "setter"@,
        lower_of("field"@) == "field"@,
        lower_of("variable"@) == "variable"@,
        lower_of("variant"@) == "variant"@,
        lower_of("enum_variant"@) == "enum_variant"@,
        lower_of("constructor"@) == "constructor"@,
        lower_of("decorator"@) == "decorator"@,
        lower_of("heading"@) == "heading"@,
        lower_of("unknown"@) == "unknown"@,
{
    reveal_strlit("function");
    reveal_strlit("method");
    reveal_strlit("struct");
    reveal_strlit("enum");
    reveal_strlit("class");
    reveal_strlit("interface");
    reveal_strlit("trait");
    reveal_strlit("type");
    reveal_strlit("const");
    reveal_strlit("module");
    reveal_strlit("macro");
    reveal_strlit("impl");
    reveal_strlit("namespace");
    reveal_strlit("getter");
    reveal_strlit("setter");
    reveal_strlit("field");
    reveal_strlit("variable");
    reveal_strlit("variant");
    reveal_strlit("enum_variant");
    reveal_strlit("constructor");
    reveal_strlit("decorator");
    reveal_strlit("heading");
    reveal_strlit("unknown");
    assert(lower_of("function"@) =~= "function"@);
    assert(lower_of("method"@) =~= "method"@);
    assert(lower_of("struct"@) =~= "struct"@);
    assert(lower_of("enum"@) =~= "enum"@);
    assert(lower_of("class"@) =~= "class"@);
    assert(lower_of("interface"@) =~= "interface"@);
    assert(lower_of("trait"@) =~= "trait"@);
    assert(lower_of("type"@) =~= "type"@);
    assert(lower_of("const"@) =~= "const"@);
    assert(lower_of("module"@) =~= "module"@);
    assert(lower_of("macro"@) =~= "macro"@);
    assert(lower_of("impl"@) =~= "impl"@);
    assert(lower_of("namespace"@) =~= "namespace"@);
    assert(lower_of("getter"@) =~= "getter"@);
    assert(lower_of("setter"@) =~= "setter"@);
    assert(lower_of("field"@) =~= "field"@);
    assert(lower_of("variable"@) =~= "variable"@);
    assert(lower_of("variant"@) =~= "variant"@);
    assert(lower_of("enum_variant"@) =~= "enum_variant"@);
    assert(lower_of("constructor"@) =~= "constructor"@);
    assert(lower_of("decorator"@) =~= "decorator"@);
    assert(lower_of("heading"@) =~= "heading"@);
    assert(lower_of("unknown"@) =~= "unknown"@);
}

/// Every kind but `Unknown` is read back from its own wire name.
pub proof fn law_kind_names_parse_back(k: SymbolKind)
    requires
        k != SymbolKind::Unknown,
    ensures
        kind_named(lower_of(kind_name(k))) == Some(k),
{
    lemma_kind_letters();
    lemma_kind_lower();
}

/// Two kinds with the same wire name are the same kind.
pub proof fn law_kind_names_differ(a: SymbolKind, b: SymbolKind)
    requires
        kind_name(a) == kind_name(b),
    ensures
        a == b,
{
    lemma_kind_letters();
}

/// Function-like symbol kinds: those that can act as call-graph nodes.
pub open spec fn function_like(kind: SymbolKind) -> bool {
    kind == SymbolKind::Function || kind == SymbolKind::Method || kind == SymbolKind::Constructor || kind
        == SymbolKind::Getter || kind == SymbolKind::Setter
}

/// Whether symbols of this kind can act as call-graph nodes.
pub fn is_function_like(kind: SymbolKind) -> (yes: bool)
    ensures
        yes == function_like(kind),
{
    matches!(
        kind,
        SymbolKind::Function | SymbolKind::Method | SymbolKind::Constructor | SymbolKind::Getter | SymbolKind::Setter
    )
}

/// A named definition: its byte range, and the 0-based row and column at which it starts.
#[derive(Debug, Clone)]
pub struct Symbol {
    pub name: String,
    pub kind: SymbolKind,
    pub start_byte: u32,
    pub end_byte: u32,
    pub start_row: u32,
    pub start_col: u32,
    pub signature: Option<String>,
    pub decorators: Vec<String>,
}

/// An import statement as the file spells it.
#[derive(Debug, Clone)]
pub struct Import {
    pub module: Option<String>,
    pub raw: String,
    pub start_byte: u32,
}

/// A call site: the callee's identifier and where it stands.
#[derive(Debug, Clone)]
pub struct Call {
    pub callee: String,
    pub start_byte: u32,
    pub start_row: u32,
    pub start_col: u32,
}

/// One inheritance edge.
#[derive(Debug, Clone)]
pub struct Implementation {
    pub trait_name: String,
    pub impl_type: String,
    pub start_byte: u32,
    pub start_row: u32,
    pub start_col: u32,
}

/// The structural facts of one file.
#[derive(Debug, Clone)]
pub struct FileMapL1 {
    pub language: String,
    pub size_bytes: u64,
    pub had_errors: bool,
    pub error_count: u32,
    pub symbols: Vec<Symbol>,
    pub imports: Vec<Import>,
    pub implementations: Vec<Implementation>,
}

/// A file of the code map under its path.
#[derive(Debug, Clone)]
pub struct MappedFile {
    pub path: RelPath,
    pub map: FileMapL1,
}

/// The paths of `files` strictly ascend.
pub open spec fn paths_ascend(files: Seq<MappedFile>) -> bool {
    forall|i: int, j: int|
        0 <= i < j < files.len() ==> lex_less(#[trigger] files[i].path@, #[trigger] files[j].path@)
}

/// `files` holds the path `p`.
pub open spec fn holds_path(files: Seq<MappedFile>, p: Seq<u8>) -> bool {
    exists|i: int| 0 <= i < files.len() && (#[trigger] files[i]).path@ == p
}

/// The position of the path `p` in `files`.
pub open spec fn path_index(files: Seq<MappedFile>, p: Seq<u8>) -> int {
    choose|i: int| 0 <= i < files.len() && (#[trigger] files[i]).path@ == p
}

/// The map from path to file that `files` stands for.
pub open spec fn file_table(files: Seq<MappedFile>) -> Map<Seq<u8>, FileMapL1> {
    Map::new(|p: Seq<u8>| holds_path(files, p), |p: Seq<u8>| files[path_index(files, p)].map)
}

/// In an ascending list a path has one position, and the table gives the file that stands there.
pub proof fn lemma_table_at(files: Seq<MappedFile>, i: int)
    requires
        paths_ascend(files),
        0 <= i < files.len(),
    ensures
        file_table(files).contains_key(files[i].path@),
        path_index(files, files[i].path@) == i,
        file_table(files)[files[i].path@] == files[i].map,
{
    let p = files[i].path@;
    assert(holds_path(files, p));
    let k = path_index(files, p);
    if k < i {
        lemma_lex_irreflexive(p);
        assert(lex_less(files[k].path@, files[i].path@));
    } else if i < k {
        lemma_lex_irreflexive(p);
        assert(lex_less(files[i].path@, files[k].path@));
    }
}

/// The place of `p` in the ascending list `files`: every path before it is less, and `found` says
/// whether the path at it equals `p`; every path from it on is greater otherwise.
pub fn locate(files: &Vec<MappedFile>, p: &RelPath) -> (r: (usize, bool))
    requires
        paths_ascend(files@),
    ensures
        r.0 <= files@.len(),
        forall|i: int| 0 <= i < r.0 ==> lex_less(#[trigger] files@[i].path@, p@),
        forall|i: int| r.0 <= i < files@.len() ==> !lex_less(#[trigger] files@[i].path@, p@),
        r.1 == file_table(files@).contains_key(p@),
        r.1 ==> r.0 < files@.len() && files@[r.0 as int].path@ == p@ && r.0 == path_index(
            files@,
            p@,
        ),
        !r.1 ==> forall|i: int| r.0 <= i < files@.len() ==> lex_less(p@, #[trigger] files@[i].path@),
{
    let mut lo: usize = 0;
    let mut hi: usize = files.len();
    while lo < hi
        invariant
            lo <= hi <= files@.len(),
            paths_ascend(files@),
            forall|i: int| 0 <= i < lo ==> lex_less(#[trigger] files@[i].path@, p@),
            forall|i: int| hi <= i < files@.len() ==> !lex_less(#[trigger] files@[i].path@, p@),
        decreases hi - lo,
    {
        let mid: usize = lo + (hi - lo) / 2;
        if bytes_less(files[mid].path.bytes.as_slice(), p.bytes.as_slice()) {
            proof {
                assert forall|i: int| 0 <= i < mid + 1 implies lex_less(
                    #[trigger] files@[i].path@,
                    p@,
                ) by {
                    if i < mid {
                        lemma_lex_transitive(files@[i].path@, files@[mid as int].path@, p@);
                    }
                }
            }
            lo = mid + 1;
        } else {
            proof {
                assert forall|i: int| mid <= i < files@.len() implies !lex_less(
                    #[trigger] files@[i].path@,
                    p@,
                ) by {
                    if mid < i && lex_less(files@[i].path@, p@) {
                        lemma_lex_transitive(files@[mid as int].path@, files@[i].path@, p@);
                    }
                }
            }
            hi = mid;
        }
    }
    let found = lo < files.len() && files[lo].path.same(p);
    proof {
        if found {
            lemma_table_at(files@, lo as int);
        } else {
            assert forall|i: int| lo <= i < files@.len() implies lex_less(
                p@,
                #[trigger] files@[i].path@,
            ) by {
                lemma_lex_total(p@, files@[lo as int].path@);
                if i > lo {
                    lemma_lex_transitive(p@, files@[lo as int].path@, files@[i].path@);
                }
            }
            if holds_path(files@, p@) {
                let k = path_index(files@, p@);
                lemma_lex_irreflexive(p@);
                assert(lex_less(files@[k].path@, p@) || lex_less(p@, files@[k].path@));
            }
        }
    }
    (lo, found)
}

/// Set the file at `p`, in place of the one there, if any.
pub fn put_file(files: &mut Vec<MappedFile>, p: RelPath, map: FileMapL1)
    requires
        paths_ascend(old(files)@),
    ensures
        paths_ascend(final(files)@),
        file_table(final(files)@) == file_table(old(files)@).insert(p@, map),
{
    let (at, found) = locate(files, &p);
    let ghost before = files@;
    let ghost key = p@;
    if found {
        files[at] = MappedFile { path: p, map };
        proof {
            assert(files@ =~= before.update(at as int, files@[at as int]));
            lemma_put(before, files@, at as int, key, map, true);
        }
    } else {
        files.insert(at, MappedFile { path: p, map });
        proof {
            lemma_put(before, files@, at as int, key, map, false);
        }
    }
}

proof fn lemma_put(
    before: Seq<MappedFile>,
    after: Seq<MappedFile>,
    at: int,
    key: Seq<u8>,
    map: FileMapL1,
    found: bool,
)
    requires
        paths_ascend(before),
        0 <= at <= before.len(),
        found ==> at < before.len() && before[at].path@ == key && after.len() == before.len() && (
        forall|i: int| 0 <= i < before.len() && i != at ==> after[i] == before[i]),
        !found ==> after == before.insert(at, after[at]),
        after[at].path@ == key,
        after[at].map == map,
        !found ==> (forall|i: int| 0 <= i < at ==> lex_less(#[trigger] before[i].path@, key)),
        !found ==> (forall|i: int|
            at <= i < before.len() ==> lex_less(key, #[trigger] before[i].path@)),
    ensures
        paths_ascend(after),
        file_table(after) == file_table(before).insert(key, map),
{
    assert forall|i: int, j: int| 0 <= i < j < after.len() implies lex_less(
        #[trigger] after[i].path@,
        #[trigger] after[j].path@,
    ) by {
        if found {
            assert(after[i].path@ == before[i].path@);
            assert(after[j].path@ == before[j].path@);
        } else {
            let bi = if i < at { i } else { i - 1 };
            let bj = if j < at { j } else { j - 1 };
            if i != at {
                assert(after[i] == before[bi]);
            }
            if j != at {
                assert(after[j] == before[bj]);
            }
        }
    }
    assert forall|p: Seq<u8>| #[trigger] file_table(after).contains_key(p) == file_table(
        before,
    ).insert(key, map).contains_key(p) by {
        if file_table(before).contains_key(p) {
            let b = path_index(before, p);
            let a = if found || b < at { b } else { b + 1 };
            assert(after[a].path@ == p || p == key);
        }
        if file_table(after).contains_key(p) && p != key {
            let a = path_index(after, p);
            let b = if found || a < at { a } else { a - 1 };
            assert(before[b].path@ == p);
        }
        assert(after[at].path@ == key);
    }
    assert forall|p: Seq<u8>| #[trigger] file_table(after).contains_key(p) implies file_table(
        after,
    )[p] == file_table(before).insert(key, map)[p] by {
        let a = path_index(after, p);
        lemma_table_at(after, a);
        if p == key {
            lemma_table_at(after, at);
        } else {
            let b = if found || a < at { a } else { a - 1 };
            assert(before[b] == after[a]);
            lemma_table_at(before, b);
        }
    }
    assert(file_table(after) =~= file_table(before).insert(key, map));
}

/// Drop the file at `p`, if there is one.
pub fn drop_file(files: &mut Vec<MappedFile>, p: &RelPath)
    requires
        paths_ascend(old(files)@),
    ensures
        paths_ascend(final(files)@),
        file_table(final(files)@) == file_table(old(files)@).remove(p@),
{
    let (at, found) = locate(files, p);
    let ghost before = files@;
    if found {
        let _gone = files.remove(at);
        proof {
            let after = files@;
            let at = at as int;
            assert(after == before.remove(at));
            assert forall|i: int, j: int| 0 <= i < j < after.len() implies lex_less(
                #[trigger] after[i].path@,
                #[trigger] after[j].path@,
            ) by {
                let bi = if i < at { i } else { i + 1 };
                let bj = if j < at { j } else { j + 1 };
                assert(after[i] == before[bi]);
                assert(after[j] == before[bj]);
            }
            assert forall|q: Seq<u8>| #[trigger] file_table(after).contains_key(q) == file_table(
                before,
            ).remove(p@).contains_key(q) by {
                if file_table(before).contains_key(q) && q != p@ {
                    let b = path_index(before, q);
                    let a = if b < at { b } else { b - 1 };
                    assert(after[a].path@ == q);
                }
                if file_table(after).contains_key(q) {
                    let a = path_index(after, q);
                    let b = if a < at { a } else { a + 1 };
                    assert(before[b].path@ == q);
                    if q == p@ {
                        lemma_table_at(before, b);
                    }
                }
            }
            assert forall|q: Seq<u8>| #[trigger] file_table(after).contains_key(q) implies file_table(
                after,
            )[q] == file_table(before).remove(p@)[q] by {
                let a = path_index(after, q);
                let b = if a < at { a } else { a + 1 };
                assert(before[b] == after[a]);
                lemma_table_at(after, a);
                lemma_table_at(before, b);
            }
            assert(file_table(after) =~= file_table(before).remove(p@));
        }
    } else {
        assert(file_table(files@) =~= file_table(before).remove(p@));
    }
}

} // verus!
