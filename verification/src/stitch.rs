//! Joining files: the edge from an importer's binding to the exported definition that it means.
//!
//! The resolver that turns a module specifier into a path reads the disk and is asked outside; its
//! answers come in as the targets of the imports. After a change only the importers whose join could
//! have moved are joined again: the changed files, and every file that imports one of them.
use vstd::prelude::*;

use crate::resolution::{
    copy_exports, copy_imports, export_facts, import_facts, ExportEdge, FileResolvedRefs,
    ImportEdge, ResolvedEdge,
};
use crate::seqs::lemma_filter_take;
use crate::tables::{
    names_get, names_held, names_insert, names_new, offsets_has, offsets_held, offsets_insert,
    offsets_new,
};
use crate::text::{from_chars, same_str, texts, to_chars};

verus! {

// ─── Facts of one file ───────────────────────────────────────────────────────

/// The imports and exports of a file, and the uses of its imports.
#[derive(Debug)]
pub struct FileFacts {
    pub imports: Vec<ImportEdge>,
    pub exports: Vec<ExportEdge>,
    /// Edges within the file whose definition is an import binding.
    pub import_uses: Vec<ResolvedEdge>,
}

/// Whether one of the imports is bound at this offset.
pub open spec fn binds_at(imports: Seq<ImportEdge>, at: u32) -> bool {
    exists|i: int| 0 <= i < imports.len() && (#[trigger] imports[i]).local_start == at
}

/// The condition that an edge leads to an import binding.
pub open spec fn leads_to_import(imports: Seq<ImportEdge>) -> spec_fn(ResolvedEdge) -> bool {
    |e: ResolvedEdge| binds_at(imports, e.def_start)
}

/// The edges within a file whose definition is one of its own import bindings.
pub fn import_bound_edges(refs: &FileResolvedRefs) -> (edges: Vec<ResolvedEdge>)
    ensures
        edges@ == refs.intra@.filter(leads_to_import(refs.imports@)),
{
    let ghost p = leads_to_import(refs.imports@);
    let mut starts = offsets_new();
    let mut i: usize = 0;
    while i < refs.imports.len()
        invariant
            i <= refs.imports@.len(),
            forall|at: u32| #[trigger]
                offsets_held(starts).contains(at) <==> binds_at(refs.imports@.take(i as int), at),
        decreases refs.imports@.len() - i,
    {
        let at: u32 = refs.imports[i].local_start;
        let ghost held = offsets_held(starts);
        let _fresh = offsets_insert(&mut starts, at);
        proof {
            let before = refs.imports@.take(i as int);
            let now = refs.imports@.take(i + 1);
            assert forall|o: u32| #[trigger]
                offsets_held(starts).contains(o) <==> binds_at(now, o) by {
                if binds_at(before, o) {
                    let k = choose|k: int|
                        0 <= k < before.len() && (#[trigger] before[k]).local_start == o;
                    assert(now[k].local_start == o);
                }
                if o == at {
                    assert(now[i as int].local_start == o);
                }
                if binds_at(now, o) && o != at {
                    let k = choose|k: int|
                        0 <= k < now.len() && (#[trigger] now[k]).local_start == o;
                    assert(before[k].local_start == o);
                }
            }
        }
        i += 1;
    }
    assert(refs.imports@.take(i as int) =~= refs.imports@);
    let mut edges: Vec<ResolvedEdge> = Vec::new();
    let mut j: usize = 0;
    proof {
        reveal(Seq::filter);
        assert(refs.intra@.take(0).filter(p) =~= Seq::empty());
    }
    while j < refs.intra.len()
        invariant
            j <= refs.intra@.len(),
            p == leads_to_import(refs.imports@),
            forall|at: u32| #[trigger]
                offsets_held(starts).contains(at) <==> binds_at(refs.imports@, at),
            edges@ == refs.intra@.take(j as int).filter(p),
        decreases refs.intra@.len() - j,
    {
        proof {
            lemma_filter_take(refs.intra@, j as int, p);
        }
        let e = refs.intra[j];
        if offsets_has(&starts, e.def_start) {
            edges.push(e);
        }
        j += 1;
    }
    assert(refs.intra@.take(j as int) =~= refs.intra@);
    edges
}

/// `f` holds the import and export facts of `r`.
pub open spec fn facts_are(f: FileFacts, r: FileResolvedRefs) -> bool {
    &&& import_facts(f.imports@) == import_facts(r.imports@)
    &&& export_facts(f.exports@) == export_facts(r.exports@)
    &&& f.import_uses@ == r.intra@.filter(leads_to_import(r.imports@))
}

/// The facts of a file that joining needs. `None` where it imports and exports nothing.
pub fn file_facts(refs: &FileResolvedRefs) -> (f: Option<FileFacts>)
    ensures
        match f {
            Some(x) => (refs.imports@.len() > 0 || refs.exports@.len() > 0) && facts_are(x, *refs),
            None => refs.imports@.len() == 0 && refs.exports@.len() == 0,
        },
{
    if refs.imports.len() == 0 && refs.exports.len() == 0 {
        return None;
    }
    Some(
        FileFacts {
            imports: copy_imports(refs.imports.as_slice()),
            exports: copy_exports(refs.exports.as_slice()),
            import_uses: import_bound_edges(refs),
        },
    )
}

/// A resolved file under its path.
#[derive(Debug)]
pub struct ResolvedFile {
    pub key: String,
    pub refs: FileResolvedRefs,
}

/// Files with their facts.
#[derive(Debug)]
pub struct KeyedFacts {
    pub key: String,
    pub facts: FileFacts,
}

/// Whether a file takes part in joining.
pub open spec fn takes_part(f: ResolvedFile) -> bool {
    f.refs.imports@.len() > 0 || f.refs.exports@.len() > 0
}

/// The condition that a file takes part in joining.
pub open spec fn joins() -> spec_fn(ResolvedFile) -> bool {
    |f: ResolvedFile| takes_part(f)
}

/// The facts of the files that import or export something, in order.
pub fn harvest_cross_file_facts(files: &Vec<ResolvedFile>) -> (out: Vec<KeyedFacts>)
    ensures
        out@.len() == files@.filter(joins()).len(),
        forall|i: int|
            0 <= i < out@.len() ==> (#[trigger] out@[i]).key@ == files@.filter(joins())[i].key@
                && facts_are(out@[i].facts, files@.filter(joins())[i].refs),
{
    let ghost p = joins();
    let mut out: Vec<KeyedFacts> = Vec::new();
    let mut i: usize = 0;
    proof {
        reveal(Seq::filter);
        assert(files@.take(0).filter(p) =~= Seq::empty());
    }
    while i < files.len()
        invariant
            i <= files@.len(),
            p == joins(),
            out@.len() == files@.take(i as int).filter(p).len(),
            forall|k: int|
                0 <= k < out@.len() ==> (#[trigger] out@[k]).key@ == files@.take(i as int).filter(
                    p,
                )[k].key@ && facts_are(out@[k].facts, files@.take(i as int).filter(p)[k].refs),
        decreases files@.len() - i,
    {
        proof {
            lemma_filter_take(files@, i as int, p);
        }
        match file_facts(&files[i].refs) {
            Some(facts) => {
                out.push(KeyedFacts { key: files[i].key.clone(), facts });
            },
            None => {},
        }
        i += 1;
    }
    assert(files@.take(i as int) =~= files@);
    out
}

// ─── Keys ────────────────────────────────────────────────────────────────────

/// A path with forward slashes.
pub open spec fn slashed(rel: Seq<char>) -> Seq<char> {
    rel.map_values(
        |c: char|
            if c == '\\' {
                '/'
            } else {
                c
            },
    )
}

/// The key of a path below the root: the path with forward slashes.
pub fn to_repo_relative(rel: &str) -> (key: String)
    ensures
        key@ == slashed(rel@),
{
    let chars = to_chars(rel);
    let mut out: Vec<char> = Vec::new();
    let mut i: usize = 0;
    while i < chars.len()
        invariant
            i <= chars@.len(),
            chars@ == rel@,
            out@ == slashed(rel@.take(i as int)),
        decreases chars@.len() - i,
    {
        let c: char = chars[i];
        out.push(if c == '\\' { '/' } else { c });
        i += 1;
        assert(out@ =~= slashed(rel@.take(i as int)));
    }
    assert(rel@.take(i as int) =~= rel@);
    from_chars(out.as_slice())
}

// ─── Joining ─────────────────────────────────────────────────────────────────

/// A file that takes part in a join: what it imports, the target of each import where the resolver
/// found one, and what it exports.
#[derive(Debug)]
pub struct StitchFile {
    pub key: String,
    pub imports: Vec<ImportEdge>,
    /// For each import the key of the file that its specifier means.
    pub targets: Vec<Option<String>>,
    pub exports: Vec<ExportEdge>,
}

/// An edge across files: the definition, and the binding that means it.
#[derive(Debug)]
pub struct CrossEdge {
    pub def_key: String,
    pub def_start: u32,
    pub use_key: String,
    pub use_start: u32,
}

/// What an edge across files says.
pub struct CrossFact {
    pub def_key: Seq<char>,
    pub def_start: u32,
    pub use_key: Seq<char>,
    pub use_start: u32,
}

impl View for CrossEdge {
    type V = CrossFact;

    open spec fn view(&self) -> CrossFact {
        CrossFact {
            def_key: self.def_key@,
            def_start: self.def_start,
            use_key: self.use_key@,
            use_start: self.use_start,
        }
    }
}

/// What edges say.
pub open spec fn cross_facts(list: Seq<CrossEdge>) -> Seq<CrossFact> {
    list.map_values(|e: CrossEdge| e@)
}

/// Every import has a target slot, and no two files have the same key.
pub open spec fn files_wf(files: Seq<StitchFile>) -> bool {
    &&& forall|i: int|
        0 <= i < files.len() ==> (#[trigger] files[i]).targets@.len() == files[i].imports@.len()
    &&& forall|i: int, j: int|
        0 <= i < j < files.len() ==> (#[trigger] files[i]).key@ != (#[trigger] files[j]).key@
    &&& files.len() <= u32::MAX
}

/// The start of the last of the first `n` exports with this name.
pub open spec fn export_start(exports: Seq<ExportEdge>, name: Seq<char>, n: int) -> Option<u32>
    decreases n,
{
    if n <= 0 {
        None
    } else if exports[n - 1].name@ == name {
        Some(exports[n - 1].name_start)
    } else {
        export_start(exports, name, n - 1)
    }
}

/// Whether one of the files has this key.
pub open spec fn has_file(files: Seq<StitchFile>, key: Seq<char>) -> bool {
    exists|i: int| 0 <= i < files.len() && (#[trigger] files[i]).key@ == key
}

/// The position of the file with this key.
pub open spec fn file_at(files: Seq<StitchFile>, key: Seq<char>) -> int {
    choose|i: int| 0 <= i < files.len() && (#[trigger] files[i]).key@ == key
}

/// Where the file with this key exports the name.
pub open spec fn exported_at(files: Seq<StitchFile>, key: Seq<char>, name: Seq<char>) -> Option<u32> {
    if has_file(files, key) {
        let f = files[file_at(files, key)];
        export_start(f.exports@, name, f.exports@.len() as int)
    } else {
        None
    }
}

/// The name that an import means in the other module: `default` where it names none.
pub open spec fn wanted_name(i: ImportEdge) -> Seq<char> {
    match i.imported {
        Some(n) => n@,
        None => "default"@,
    }
}

/// The edge that an import gives: none for an import of types only, for one whose target is unknown
/// or not indexed, and where the target does not export the name.
pub open spec fn import_edge(
    files: Seq<StitchFile>,
    indexed: Set<Seq<char>>,
    use_key: Seq<char>,
    i: ImportEdge,
    target: Option<String>,
) -> Option<CrossFact> {
    if i.is_type || target is None || !indexed.contains(target->0@) {
        None
    } else {
        match exported_at(files, target->0@, wanted_name(i)) {
            Some(start) => Some(
                CrossFact {
                    def_key: target->0@,
                    def_start: start,
                    use_key,
                    use_start: i.local_start,
                },
            ),
            None => None,
        }
    }
}

/// The edges of the first `n` imports of a file.
pub open spec fn file_edges(
    files: Seq<StitchFile>,
    indexed: Set<Seq<char>>,
    f: StitchFile,
    n: int,
) -> Seq<CrossFact>
    decreases n,
{
    if n <= 0 {
        Seq::empty()
    } else {
        let before = file_edges(files, indexed, f, n - 1);
        match import_edge(files, indexed, f.key@, f.imports@[n - 1], f.targets@[n - 1]) {
            Some(e) => before.push(e),
            None => before,
        }
    }
}

/// The edges of a file.
pub open spec fn edges_from(files: Seq<StitchFile>, indexed: Set<Seq<char>>, f: StitchFile) -> Seq<
    CrossFact,
> {
    file_edges(files, indexed, f, f.imports@.len() as int)
}

/// The edges of the first `n` files.
pub open spec fn all_edges(files: Seq<StitchFile>, indexed: Set<Seq<char>>, n: int) -> Seq<CrossFact>
    decreases n,
{
    if n <= 0 {
        Seq::empty()
    } else {
        all_edges(files, indexed, n - 1) + edges_from(files, indexed, files[n - 1])
    }
}

/// The keys of a list, as a set.
pub open spec fn key_set(list: Seq<String>) -> Set<Seq<char>> {
    Set::new(|k: Seq<char>| texts(list).contains(k))
}

fn last_export(exports: &Vec<ExportEdge>, name: &str) -> (at: Option<u32>)
    ensures
        at == export_start(exports@, name@, exports@.len() as int),
{
    let mut n: usize = exports.len();
    while n > 0
        invariant
            n <= exports@.len(),
            export_start(exports@, name@, exports@.len() as int) == export_start(
                exports@,
                name@,
                n as int,
            ),
        decreases n,
    {
        if same_str(exports[n - 1].name.as_str(), name) {
            return Some(exports[n - 1].name_start);
        }
        n -= 1;
    }
    None
}

/// A table from the key of each file to its position.
fn file_table(files: &Vec<StitchFile>) -> (t: ahash::AHashMap<String, u32>)
    requires
        files_wf(files@),
    ensures
        forall|k: Seq<char>| #[trigger]
            names_held(t).contains_key(k) <==> has_file(files@, k),
        forall|k: Seq<char>| #[trigger]
            names_held(t).contains_key(k) ==> names_held(t)[k] == file_at(files@, k)
                && names_held(t)[k] < files@.len(),
{
    let mut t = names_new();
    let mut i: usize = 0;
    while i < files.len()
        invariant
            files_wf(files@),
            i <= files@.len(),
            forall|k: Seq<char>| #[trigger]
                names_held(t).contains_key(k) ==> names_held(t)[k] < i
                    && files@[names_held(t)[k] as int].key@ == k,
            forall|j: int|
                0 <= j < i ==> names_held(t).contains_key((#[trigger] files@[j]).key@),
        decreases files@.len() - i,
    {
        names_insert(&mut t, files[i].key.clone(), i as u32);
        i += 1;
    }
    proof {
        assert forall|k: Seq<char>| #[trigger]
            names_held(t).contains_key(k) <==> has_file(files@, k) by {
            if names_held(t).contains_key(k) {
                assert(files@[names_held(t)[k] as int].key@ == k);
            }
        }
        assert forall|k: Seq<char>| #[trigger]
            names_held(t).contains_key(k) implies names_held(t)[k] == file_at(files@, k)
            && names_held(t)[k] < files@.len() by {
            let a = names_held(t)[k] as int;
            let b = file_at(files@, k);
            assert(files@[a].key@ == k);
            assert(has_file(files@, k));
            assert(files@[b].key@ == k);
            if a < b {
                assert(files@[a].key@ != files@[b].key@);
            } else if b < a {
                assert(files@[b].key@ != files@[a].key@);
            }
        }
    }
    t
}

/// A set of the keys of a list.
pub(crate) fn name_table(list: &Vec<String>) -> (t: ahash::AHashMap<String, u32>)
    ensures
        forall|k: Seq<char>| #[trigger]
            names_held(t).contains_key(k) <==> key_set(list@).contains(k),
{
    let mut t = names_new();
    let mut i: usize = 0;
    while i < list.len()
        invariant
            i <= list@.len(),
            forall|k: Seq<char>| #[trigger]
                names_held(t).contains_key(k) <==> texts(list@.take(i as int)).contains(k),
        decreases list@.len() - i,
    {
        let ghost held = names_held(t);
        names_insert(&mut t, list[i].clone(), 0);
        proof {
            let before = texts(list@.take(i as int));
            let now = texts(list@.take(i + 1));
            assert(now =~= before.push(list@[i as int]@));
            assert forall|k: Seq<char>| #[trigger]
                names_held(t).contains_key(k) <==> now.contains(k) by {
                if before.contains(k) {
                    let j = before.index_of(k);
                    assert(now[j] == k);
                }
                if k == list@[i as int]@ {
                    assert(now[i as int] == k);
                }
                if now.contains(k) && k != list@[i as int]@ {
                    let j = now.index_of(k);
                    assert(before[j] == k);
                }
            }
        }
        i += 1;
    }
    assert(list@.take(i as int) =~= list@);
    t
}

fn stitch_import(
    files: &Vec<StitchFile>,
    table: &ahash::AHashMap<String, u32>,
    indexed: &ahash::AHashMap<String, u32>,
    use_key: &String,
    import: &ImportEdge,
    target: &Option<String>,
    Ghost(set): Ghost<Set<Seq<char>>>,
) -> (e: Option<CrossEdge>)
    requires
        forall|k: Seq<char>| #[trigger]
            names_held(*table).contains_key(k) <==> has_file(files@, k),
        forall|k: Seq<char>| #[trigger]
            names_held(*table).contains_key(k) ==> names_held(*table)[k] == file_at(files@, k)
                && names_held(*table)[k] < files@.len(),
        forall|k: Seq<char>| #[trigger] names_held(*indexed).contains_key(k) <==> set.contains(k),
    ensures
        match e {
            Some(x) => import_edge(files@, set, use_key@, *import, *target) == Some(x@),
            None => import_edge(files@, set, use_key@, *import, *target) is None,
        },
{
    if import.is_type {
        return None;
    }
    match target {
        Some(key) => {
            if names_get(indexed, key.as_str()).is_none() {
                assert(!names_held(*indexed).contains_key(key@));
                return None;
            }
            assert(names_held(*indexed).contains_key(key@));
            match names_get(table, key.as_str()) {
                Some(at) => {
                    assert(names_held(*table).contains_key(key@));
                    let wanted = match &import.imported {
                        Some(n) => n.as_str(),
                        None => "default",
                    };
                    match last_export(&files[at as usize].exports, wanted) {
                        Some(def_start) => Some(
                            CrossEdge {
                                def_key: key.clone(),
                                def_start,
                                use_key: use_key.clone(),
                                use_start: import.local_start,
                            },
                        ),
                        None => None,
                    }
                },
                None => {
                    assert(!names_held(*table).contains_key(key@));
                    None
                },
            }
        },
        None => None,
    }
}

/// Join the files: an edge for each run-time import whose target is indexed and exports the name.
pub fn stitch_cross_file_edges(files: &Vec<StitchFile>, indexed: &Vec<String>) -> (edges: Vec<
    CrossEdge,
>)
    requires
        files_wf(files@),
    ensures
        cross_facts(edges@) == all_edges(files@, key_set(indexed@), files@.len() as int),
{
    let table = file_table(files);
    let known = name_table(indexed);
    let ghost set = key_set(indexed@);
    let mut edges: Vec<CrossEdge> = Vec::new();
    let mut i: usize = 0;
    assert(cross_facts(edges@) =~= Seq::empty());
    while i < files.len()
        invariant
            files_wf(files@),
            i <= files@.len(),
            set == key_set(indexed@),
            forall|k: Seq<char>| #[trigger]
                names_held(table).contains_key(k) <==> has_file(files@, k),
            forall|k: Seq<char>| #[trigger]
                names_held(table).contains_key(k) ==> names_held(table)[k] == file_at(files@, k)
                    && names_held(table)[k] < files@.len(),
            forall|k: Seq<char>| #[trigger] names_held(known).contains_key(k) <==> set.contains(k),
            cross_facts(edges@) == all_edges(files@, set, i as int),
        decreases files@.len() - i,
    {
        let f = &files[i];
        let ghost base = cross_facts(edges@);
        let mut j: usize = 0;
        assert(base + file_edges(files@, set, *f, 0) =~= base);
        while j < f.imports.len()
            invariant
                j <= f.imports@.len(),
                f.targets@.len() == f.imports@.len(),
                forall|k: Seq<char>| #[trigger]
                    names_held(table).contains_key(k) <==> has_file(files@, k),
                forall|k: Seq<char>| #[trigger]
                    names_held(table).contains_key(k) ==> names_held(table)[k] == file_at(
                        files@,
                        k,
                    ) && names_held(table)[k] < files@.len(),
                forall|k: Seq<char>| #[trigger]
                    names_held(known).contains_key(k) <==> set.contains(k),
                cross_facts(edges@) == base + file_edges(files@, set, *f, j as int),
            decreases f.imports@.len() - j,
        {
            let ghost sofar = edges@;
            match stitch_import(
                files,
                &table,
                &known,
                &f.key,
                &f.imports[j],
                &f.targets[j],
                Ghost(set),
            ) {
                Some(e) => {
                    let ghost v = e@;
                    edges.push(e);
                    proof {
                        assert(cross_facts(edges@) =~= cross_facts(sofar).push(v));
                        assert(cross_facts(sofar).push(v) =~= base + file_edges(
                            files@,
                            set,
                            *f,
                            j as int,
                        ).push(v));
                    }
                },
                None => {},
            }
            j += 1;
        }
        i += 1;
    }
    edges
}

// ─── Laws ────────────────────────────────────────────────────────────────────

proof fn lemma_export_start(exports: Seq<ExportEdge>, name: Seq<char>, n: int, x: int)
    requires
        0 <= x < n <= exports.len(),
        exports[x].name@ == name,
        forall|y: int| x < y < n ==> (#[trigger] exports[y]).name@ != name,
    ensures
        export_start(exports, name, n) == Some(exports[x].name_start),
    decreases n,
{
    if x < n - 1 {
        assert(exports[n - 1].name@ != name);
        lemma_export_start(exports, name, n - 1, x);
    }
}

proof fn lemma_export_found(exports: Seq<ExportEdge>, name: Seq<char>, n: int) -> (x: int)
    requires
        0 <= n <= exports.len(),
        export_start(exports, name, n) is Some,
    ensures
        0 <= x < n,
        exports[x].name@ == name,
        exports[x].name_start == export_start(exports, name, n)->0,
        forall|y: int| x < y < n ==> (#[trigger] exports[y]).name@ != name,
    decreases n,
{
    if exports[n - 1].name@ == name {
        n - 1
    } else {
        lemma_export_found(exports, name, n - 1)
    }
}

proof fn lemma_in_file_edges(
    files: Seq<StitchFile>,
    indexed: Set<Seq<char>>,
    f: StitchFile,
    n: int,
    i: int,
)
    requires
        0 <= i < n,
        import_edge(files, indexed, f.key@, f.imports@[i], f.targets@[i]) is Some,
    ensures
        file_edges(files, indexed, f, n).contains(
            import_edge(files, indexed, f.key@, f.imports@[i], f.targets@[i])->0,
        ),
    decreases n,
{
    let e = import_edge(files, indexed, f.key@, f.imports@[i], f.targets@[i])->0;
    let before = file_edges(files, indexed, f, n - 1);
    let after = file_edges(files, indexed, f, n);
    if i < n - 1 {
        lemma_in_file_edges(files, indexed, f, n - 1, i);
        let k = before.index_of(e);
        assert(after[k] == e);
    } else {
        assert(after[before.len() as int] == e);
    }
}

proof fn lemma_in_all_edges(files: Seq<StitchFile>, indexed: Set<Seq<char>>, n: int, f: int, e: CrossFact)
    requires
        0 <= f < n <= files.len(),
        edges_from(files, indexed, files[f]).contains(e),
    ensures
        all_edges(files, indexed, n).contains(e),
    decreases n,
{
    let before = all_edges(files, indexed, n - 1);
    let mine = edges_from(files, indexed, files[n - 1]);
    let after = all_edges(files, indexed, n);
    if f < n - 1 {
        lemma_in_all_edges(files, indexed, n - 1, f, e);
        assert(after[before.index_of(e)] == e);
    } else {
        assert(after[before.len() + mine.index_of(e)] == e);
    }
}

proof fn lemma_from_file(files: Seq<StitchFile>, indexed: Set<Seq<char>>, f: StitchFile, n: int, k: int) -> (i:
    int)
    requires
        0 <= n,
        0 <= k < file_edges(files, indexed, f, n).len(),
    ensures
        0 <= i < n,
        import_edge(files, indexed, f.key@, f.imports@[i], f.targets@[i]) == Some(
            file_edges(files, indexed, f, n)[k],
        ),
    decreases n,
{
    let before = file_edges(files, indexed, f, n - 1);
    if k < before.len() {
        lemma_from_file(files, indexed, f, n - 1, k)
    } else {
        n - 1
    }
}

proof fn lemma_from_files(files: Seq<StitchFile>, indexed: Set<Seq<char>>, n: int, k: int) -> (at: (
    int,
    int,
))
    requires
        0 <= n <= files.len(),
        0 <= k < all_edges(files, indexed, n).len(),
    ensures
        0 <= at.0 < n,
        0 <= at.1 < files[at.0].imports@.len(),
        import_edge(
            files,
            indexed,
            files[at.0].key@,
            files[at.0].imports@[at.1],
            files[at.0].targets@[at.1],
        ) == Some(all_edges(files, indexed, n)[k]),
    decreases n,
{
    let before = all_edges(files, indexed, n - 1);
    if k < before.len() {
        lemma_from_files(files, indexed, n - 1, k)
    } else {
        let f = files[n - 1];
        (n - 1, lemma_from_file(files, indexed, f, f.imports@.len() as int, k - before.len()))
    }
}

/// An import is linked to the definition it means. Let import `i` of file `f` be one at run time
/// whose target is indexed and is file `t`, and let `x` be the last export of that file under the name
/// that the import takes from the other module, or under `default` where it takes none by name. Then
/// there is an edge from the local binding of the import to that export.
pub proof fn law_imports_are_linked(
    files: Seq<StitchFile>,
    indexed: Seq<String>,
    edges: Seq<CrossEdge>,
    f: int,
    i: int,
    t: int,
    x: int,
    at: int,
) -> (e: int)
    requires
        cross_facts(edges) == all_edges(files, key_set(indexed), files.len() as int),
        forall|a: int, b: int|
            0 <= a < b < files.len() ==> (#[trigger] files[a]).key@ != (#[trigger] files[b]).key@,
        0 <= f < files.len(),
        0 <= i < files[f].imports@.len(),
        !files[f].imports@[i].is_type,
        files[f].targets@[i] is Some,
        0 <= at < indexed.len(),
        indexed[at]@ == files[f].targets@[i]->0@,
        0 <= t < files.len(),
        files[t].key@ == files[f].targets@[i]->0@,
        0 <= x < files[t].exports@.len(),
        files[f].imports@[i].imported is Some ==> files[t].exports@[x].name@
            == files[f].imports@[i].imported->0@,
        files[f].imports@[i].imported is None ==> files[t].exports@[x].name@ == "default"@,
        forall|y: int|
            x < y < files[t].exports@.len() ==> (#[trigger] files[t].exports@[y]).name@
                != files[t].exports@[x].name@,
    ensures
        0 <= e < edges.len(),
        edges[e].use_key@ == files[f].key@,
        edges[e].use_start == files[f].imports@[i].local_start,
        edges[e].def_key@ == files[t].key@,
        edges[e].def_start == files[t].exports@[x].name_start,
{
    let set = key_set(indexed);
    let import = files[f].imports@[i];
    let target = files[f].targets@[i];
    let name = files[t].exports@[x].name@;
    assert(texts(indexed)[at] == target->0@);
    assert(set.contains(target->0@));
    assert(has_file(files, target->0@));
    let k = file_at(files, target->0@);
    assert(files[k].key@ == files[t].key@);
    assert(k == t);
    lemma_export_start(files[t].exports@, name, files[t].exports@.len() as int, x);
    let fact = CrossFact {
        def_key: files[t].key@,
        def_start: files[t].exports@[x].name_start,
        use_key: files[f].key@,
        use_start: import.local_start,
    };
    assert(import_edge(files, set, files[f].key@, import, target) == Some(fact));
    lemma_in_file_edges(files, set, files[f], files[f].imports@.len() as int, i);
    lemma_in_all_edges(files, set, files.len() as int, f, fact);
    let e = cross_facts(edges).index_of(fact);
    assert(cross_facts(edges)[e] == edges[e]@);
    e
}

/// Every edge links an import to the definition it means: it comes from a run-time import whose target
/// is indexed and is one of the files, and leads to the last export there under the name that the
/// import takes from the other module, or under `default` where it takes none by name. The result
/// gives the file and the import, and the other file and the export.
pub proof fn law_edges_come_from_imports(
    files: Seq<StitchFile>,
    indexed: Seq<String>,
    edges: Seq<CrossEdge>,
    e: int,
) -> (at: (int, int, int, int))
    requires
        cross_facts(edges) == all_edges(files, key_set(indexed), files.len() as int),
        0 <= e < edges.len(),
    ensures
        0 <= at.0 < files.len(),
        0 <= at.1 < files[at.0].imports@.len(),
        0 <= at.2 < files.len(),
        0 <= at.3 < files[at.2].exports@.len(),
        ({
            let import = files[at.0].imports@[at.1];
            let target = files[at.0].targets@[at.1];
            let export = files[at.2].exports@[at.3];
            &&& !import.is_type
            &&& target is Some
            &&& target->0@ == files[at.2].key@
            &&& exists|k: int| 0 <= k < indexed.len() && (#[trigger] indexed[k])@ == files[at.2].key@
            &&& import.imported is Some ==> export.name@ == import.imported->0@
            &&& import.imported is None ==> export.name@ == "default"@
            &&& forall|y: int|
                at.3 < y < files[at.2].exports@.len() ==> (#[trigger] files[at.2].exports@[y]).name@
                    != export.name@
            &&& edges[e].use_key@ == files[at.0].key@
            &&& edges[e].use_start == import.local_start
            &&& edges[e].def_key@ == files[at.2].key@
            &&& edges[e].def_start == export.name_start
        }),
{
    let set = key_set(indexed);
    assert(cross_facts(edges)[e] == edges[e]@);
    let (f, i) = lemma_from_files(files, set, files.len() as int, e);
    let import = files[f].imports@[i];
    let target = files[f].targets@[i];
    let key = target->0@;
    assert(set.contains(key));
    let k = texts(indexed).index_of(key);
    assert(indexed[k]@ == key);
    assert(has_file(files, key));
    let t = file_at(files, key);
    assert(files[t].key@ == key);
    let x = lemma_export_found(
        files[t].exports@,
        wanted_name(import),
        files[t].exports@.len() as int,
    );
    (f, i, t, x)
}

/// What an import is called locally does not matter: files that differ in nothing but that are joined
/// by the same edges.
pub proof fn law_local_names_do_not_matter(
    a: Seq<StitchFile>,
    b: Seq<StitchFile>,
    indexed: Seq<String>,
    ours: Seq<CrossEdge>,
    theirs: Seq<CrossEdge>,
    n: int,
)
    requires
        cross_facts(ours) == all_edges(a, key_set(indexed), n),
        cross_facts(theirs) == all_edges(b, key_set(indexed), n),
        0 <= n <= a.len(),
        a.len() == b.len(),
        forall|f: int, g: int|
            0 <= f < g < a.len() ==> (#[trigger] a[f]).key@ != (#[trigger] a[g]).key@,
        forall|f: int|
            0 <= f < a.len() ==> (#[trigger] a[f]).key@ == b[f].key@ && a[f].targets == b[f].targets
                && a[f].exports == b[f].exports && a[f].imports@.len() == b[f].imports@.len(),
        forall|f: int, i: int|
            0 <= f < a.len() && 0 <= i < a[f].imports@.len() ==> {
                let x = #[trigger] a[f].imports@[i];
                let y = b[f].imports@[i];
                &&& x.specifier == y.specifier
                &&& x.imported == y.imported
                &&& x.is_type == y.is_type
                &&& x.local_start == y.local_start
            },
    ensures
        cross_facts(ours) == cross_facts(theirs),
{
    lemma_alike_edges(a, b, key_set(indexed), n);
}

proof fn lemma_alike_edges(a: Seq<StitchFile>, b: Seq<StitchFile>, set: Set<Seq<char>>, n: int)
    requires
        0 <= n <= a.len(),
        a.len() == b.len(),
        forall|f: int, g: int|
            0 <= f < g < a.len() ==> (#[trigger] a[f]).key@ != (#[trigger] a[g]).key@,
        forall|f: int|
            0 <= f < a.len() ==> (#[trigger] a[f]).key@ == b[f].key@ && a[f].targets == b[f].targets
                && a[f].exports == b[f].exports && a[f].imports@.len() == b[f].imports@.len(),
        forall|f: int, i: int|
            0 <= f < a.len() && 0 <= i < a[f].imports@.len() ==> {
                let x = #[trigger] a[f].imports@[i];
                let y = b[f].imports@[i];
                &&& x.specifier == y.specifier
                &&& x.imported == y.imported
                &&& x.is_type == y.is_type
                &&& x.local_start == y.local_start
            },
    ensures
        all_edges(a, set, n) == all_edges(b, set, n),
    decreases n,
{
    if n > 0 {
        lemma_alike_edges(a, b, set, n - 1);
        lemma_alike_file(a, b, set, n - 1, a[n - 1].imports@.len() as int);
    }
}

proof fn lemma_alike_file(a: Seq<StitchFile>, b: Seq<StitchFile>, set: Set<Seq<char>>, f: int, n: int)
    requires
        0 <= f < a.len(),
        a.len() == b.len(),
        0 <= n <= a[f].imports@.len(),
        forall|f: int, g: int|
            0 <= f < g < a.len() ==> (#[trigger] a[f]).key@ != (#[trigger] a[g]).key@,
        forall|f: int|
            0 <= f < a.len() ==> (#[trigger] a[f]).key@ == b[f].key@ && a[f].targets == b[f].targets
                && a[f].exports == b[f].exports && a[f].imports@.len() == b[f].imports@.len(),
        forall|f: int, i: int|
            0 <= f < a.len() && 0 <= i < a[f].imports@.len() ==> {
                let x = #[trigger] a[f].imports@[i];
                let y = b[f].imports@[i];
                &&& x.specifier == y.specifier
                &&& x.imported == y.imported
                &&& x.is_type == y.is_type
                &&& x.local_start == y.local_start
            },
    ensures
        file_edges(a, set, a[f], n) == file_edges(b, set, b[f], n),
    decreases n,
{
    if n > 0 {
        lemma_alike_file(a, b, set, f, n - 1);
        let x = a[f].imports@[n - 1];
        let y = b[f].imports@[n - 1];
        assert(x.imported == y.imported);
        let target = a[f].targets@[n - 1];
        if target is Some {
            let key = target->0@;
            if has_file(a, key) {
                let k = file_at(a, key);
                assert(a[k].key@ == b[k].key@);
                assert(has_file(b, key));
                let l = file_at(b, key);
                assert(a[l].key@ == b[l].key@);
                assert(k == l);
            } else if has_file(b, key) {
                let l = file_at(b, key);
                assert(a[l].key@ == b[l].key@);
            }
        }
    }
}

/// Whatever `stitch_cross_file_edges` gives back: a run-time import whose target is indexed and is file `t` is joined to
/// the last export there of the name that it takes, or of `default`; and what an import is called locally
/// changes no edge.
pub proof fn law_stitch_cross_file_edges(
    files: &Vec<StitchFile>,
    others: &Vec<StitchFile>,
    indexed: &Vec<String>,
    edges: Vec<CrossEdge>,
    theirs: Vec<CrossEdge>,
    f: int,
    i: int,
    t: int,
    x: int,
    at: int,
) -> (e: int)
    requires
        files_wf(files@),
        files_wf(others@),
        call_ensures(stitch_cross_file_edges, (files, indexed), edges),
        call_ensures(stitch_cross_file_edges, (others, indexed), theirs),
        0 <= f < files@.len(),
        0 <= i < files@[f].imports@.len(),
        !files@[f].imports@[i].is_type,
        files@[f].targets@[i] is Some,
        0 <= at < indexed@.len(),
        indexed@[at]@ == files@[f].targets@[i]->0@,
        0 <= t < files@.len(),
        files@[t].key@ == files@[f].targets@[i]->0@,
        0 <= x < files@[t].exports@.len(),
        files@[f].imports@[i].imported is Some ==> files@[t].exports@[x].name@
            == files@[f].imports@[i].imported->0@,
        files@[f].imports@[i].imported is None ==> files@[t].exports@[x].name@ == "default"@,
        forall|y: int|
            x < y < files@[t].exports@.len() ==> (#[trigger] files@[t].exports@[y]).name@
                != files@[t].exports@[x].name@,
    ensures
        0 <= e < edges@.len(),
        edges@[e].use_key@ == files@[f].key@,
        edges@[e].use_start == files@[f].imports@[i].local_start,
        edges@[e].def_key@ == files@[t].key@,
        edges@[e].def_start == files@[t].exports@[x].name_start,
        files@.len() == others@.len() && (forall|k: int|
            0 <= k < files@.len() ==> (#[trigger] files@[k]).key@ == others@[k].key@
                && files@[k].targets == others@[k].targets && files@[k].exports == others@[k].exports
                && files@[k].imports@.len() == others@[k].imports@.len()) && (forall|k: int, j: int|
            0 <= k < files@.len() && 0 <= j < files@[k].imports@.len() ==> {
                let a = #[trigger] files@[k].imports@[j];
                let b = others@[k].imports@[j];
                &&& a.specifier == b.specifier
                &&& a.imported == b.imported
                &&& a.is_type == b.is_type
                &&& a.local_start == b.local_start
            }) ==> cross_facts(edges@) == cross_facts(theirs@),
{
    if files@.len() == others@.len() && (forall|k: int|
        0 <= k < files@.len() ==> (#[trigger] files@[k]).key@ == others@[k].key@ && files@[k].targets
            == others@[k].targets && files@[k].exports == others@[k].exports
            && files@[k].imports@.len() == others@[k].imports@.len()) && (forall|k: int, j: int|
        0 <= k < files@.len() && 0 <= j < files@[k].imports@.len() ==> {
            let a = #[trigger] files@[k].imports@[j];
            let b = others@[k].imports@[j];
            &&& a.specifier == b.specifier
            &&& a.imported == b.imported
            &&& a.is_type == b.is_type
            &&& a.local_start == b.local_start
        }) {
        law_local_names_do_not_matter(
            files@,
            others@,
            indexed@,
            edges@,
            theirs@,
            files@.len() as int,
        );
    }
    law_imports_are_linked(files@, indexed@, edges@, f, i, t, x, at)
}

} // verus!
