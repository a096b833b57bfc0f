//! Per-file code-intelligence facts: which use binds to which definition, what the file imports
//! and what it exports. They are a function of the file's bytes alone.
use vstd::prelude::*;

use crate::model::SCHEMA_VER;
use crate::text::{copy_opt, opt_text};

verus! {

/// A use of an identifier that binds to a definition in the same file, both as byte spans.
#[derive(Debug, Clone, Copy, PartialEq, Eq, Structural)]
pub struct ResolvedEdge {
    pub use_start: u32,
    pub use_end: u32,
    pub def_start: u32,
    pub def_end: u32,
}

/// An import binding that a file introduces.
#[derive(Debug, Clone)]
pub struct ImportEdge {
    /// The name in this file.
    pub local: String,
    /// The module specifier.
    pub specifier: String,
    /// The name in the source module; `None` for default and namespace imports.
    pub imported: Option<String>,
    /// True for a type-only import, which is erased at run time.
    pub is_type: bool,
    /// Start byte of the local binding identifier.
    pub local_start: u32,
}

/// A name that a file exports.
#[derive(Debug, Clone)]
pub struct ExportEdge {
    pub name: String,
    pub name_start: u32,
}

/// What an import edge says.
pub struct ImportFact {
    pub local: Seq<char>,
    pub specifier: Seq<char>,
    pub imported: Option<Seq<char>>,
    pub is_type: bool,
    pub local_start: u32,
}

/// What an export edge says.
pub struct ExportFact {
    pub name: Seq<char>,
    pub name_start: u32,
}

impl View for ImportEdge {
    type V = ImportFact;

    open spec fn view(&self) -> ImportFact {
        ImportFact {
            local: self.local@,
            specifier: self.specifier@,
            imported: opt_text(self.imported),
            is_type: self.is_type,
            local_start: self.local_start,
        }
    }
}

impl View for ExportEdge {
    type V = ExportFact;

    open spec fn view(&self) -> ExportFact {
        ExportFact { name: self.name@, name_start: self.name_start }
    }
}

/// What a list of import edges says.
pub open spec fn import_facts(list: Seq<ImportEdge>) -> Seq<ImportFact> {
    list.map_values(|e: ImportEdge| e@)
}

/// What a list of export edges says.
pub open spec fn export_facts(list: Seq<ExportEdge>) -> Seq<ExportFact> {
    list.map_values(|e: ExportEdge| e@)
}

impl ImportEdge {
    /// A copy of the edge.
    pub fn copy(&self) -> (e: ImportEdge)
        ensures
            e@ == self@,
    {
        ImportEdge {
            local: self.local.clone(),
            specifier: self.specifier.clone(),
            imported: copy_opt(&self.imported),
            is_type: self.is_type,
            local_start: self.local_start,
        }
    }
}

impl ExportEdge {
    /// A copy of the edge.
    pub fn copy(&self) -> (e: ExportEdge)
        ensures
            e@ == self@,
    {
        ExportEdge { name: self.name.clone(), name_start: self.name_start }
    }
}

/// A copy of a list of import edges.
pub fn copy_imports(list: &[ImportEdge]) -> (copy: Vec<ImportEdge>)
    ensures
        import_facts(copy@) == import_facts(list@),
{
    let mut copy: Vec<ImportEdge> = Vec::new();
    let mut i: usize = 0;
    while i < list.len()
        invariant
            i <= list@.len(),
            copy@.len() == i,
            forall|k: int| 0 <= k < i ==> (#[trigger] copy@[k])@ == list@[k]@,
        decreases list.len() - i,
    {
        copy.push(list[i].copy());
        i += 1;
    }
    assert(import_facts(copy@) =~= import_facts(list@));
    copy
}

/// A copy of a list of export edges.
pub fn copy_exports(list: &[ExportEdge]) -> (copy: Vec<ExportEdge>)
    ensures
        export_facts(copy@) == export_facts(list@),
{
    let mut copy: Vec<ExportEdge> = Vec::new();
    let mut i: usize = 0;
    while i < list.len()
        invariant
            i <= list@.len(),
            copy@.len() == i,
            forall|k: int| 0 <= k < i ==> (#[trigger] copy@[k])@ == list@[k]@,
        decreases list.len() - i,
    {
        copy.push(list[i].copy());
        i += 1;
    }
    assert(export_facts(copy@) =~= export_facts(list@));
    copy
}

/// A copy of a list of edges.
pub fn copy_edges(list: &[ResolvedEdge]) -> (copy: Vec<ResolvedEdge>)
    ensures
        copy@ == list@,
{
    let mut copy: Vec<ResolvedEdge> = Vec::new();
    let mut i: usize = 0;
    while i < list.len()
        invariant
            i <= list@.len(),
            copy@ == list@.take(i as int),
        decreases list.len() - i,
    {
        copy.push(list[i]);
        i += 1;
        assert(copy@ =~= list@.take(i as int));
    }
    assert(list@.take(i as int) =~= list@);
    copy
}

/// The resolution facts of one file.
#[derive(Debug, Clone)]
pub struct FileResolvedRefs {
    pub schema_ver: u16,
    pub language: String,
    /// Use span to in-file definition span.
    pub intra: Vec<ResolvedEdge>,
    /// Import bindings that the file introduces.
    pub imports: Vec<ImportEdge>,
    /// Names that the file exports.
    pub exports: Vec<ExportEdge>,
}

impl FileResolvedRefs {
    /// Whether the record holds no facts at all.
    pub open spec fn factless(&self) -> bool {
        self.intra@.len() == 0 && self.imports@.len() == 0 && self.exports@.len() == 0
    }

    /// A record that carries the current schema version and the language, ready to fill.
    pub fn new(language: &str) -> (r: FileResolvedRefs)
        ensures
            r.schema_ver == SCHEMA_VER,
            r.language@ == language@,
            r.factless(),
    {
        FileResolvedRefs {
            schema_ver: SCHEMA_VER,
            language: language.to_string(),
            intra: Vec::new(),
            imports: Vec::new(),
            exports: Vec::new(),
        }
    }

    /// True when the file yielded no resolution facts.
    pub fn is_empty(&self) -> (yes: bool)
        ensures
            yes == self.factless(),
    {
        self.intra.is_empty() && self.imports.is_empty() && self.exports.is_empty()
    }
}

} // verus!
