//! The call graph around a name: breadth-first over callers or callees.
//!
//! Nodes are keyed by name. The walk is bounded in depth, in nodes, and in the call sites it looks
//! at for one node; when a bound cuts it short, the result says which.
use vstd::prelude::*;

use crate::calls::{CallRef, CallRow, InRamCallIndex};
use crate::model::{
    function_like, holds_path, is_function_like, kind_name, kind_to_str, lemma_table_at, locate,
    path_index, paths_ascend, FileMapL1, MappedFile, RelPath, Symbol, SymbolKind,
};
use crate::tables::{
    entry_at, names_get, names_held, names_insert, names_new, paths_get, paths_held, paths_insert,
    paths_new,
};
use crate::text::{copy_bytes, same_str};

verus! {

pub const MAX_DEPTH_CEILING: u32 = 6;

pub const MAX_NODES_CEILING: u32 = 500;

pub const DEFAULT_MAX_DEPTH: u32 = 3;

pub const DEFAULT_MAX_NODES: u32 = 100;

// ─── Nodes ───────────────────────────────────────────────────────────────────

/// A definition site.
#[derive(Debug, Clone)]
pub struct CallGraphSite {
    pub path: RelPath,
    pub kind: &'static str,
    pub start_row: u32,
    pub start_col: u32,
}

/// A definition site.
pub struct SiteAt {
    pub path: Seq<u8>,
    pub kind: Seq<char>,
    pub row: u32,
    pub col: u32,
}

impl View for CallGraphSite {
    type V = SiteAt;

    open spec fn view(&self) -> SiteAt {
        SiteAt { path: self.path@, kind: self.kind@, row: self.start_row, col: self.start_col }
    }
}

impl CallGraphSite {
    /// A copy of the site.
    pub fn copy(&self) -> (s: CallGraphSite)
        ensures
            s@ == self@,
    {
        CallGraphSite {
            path: self.path.copy(),
            kind: self.kind,
            start_row: self.start_row,
            start_col: self.start_col,
        }
    }
}

/// What a list of sites says.
pub open spec fn sites_at(sites: Seq<CallGraphSite>) -> Seq<SiteAt> {
    sites.map_values(|s: CallGraphSite| s@)
}

/// A node of the call graph.
#[derive(Debug)]
pub struct CallGraphNode {
    pub name: String,
    pub depth: u32,
    /// Indices of the nodes that this one calls.
    pub edges_to: Vec<u32>,
    pub sites: Vec<CallGraphSite>,
}

/// The definition site of a symbol.
pub open spec fn site_of(path: Seq<u8>, sym: Symbol) -> SiteAt {
    SiteAt { path, kind: kind_name(sym.kind), row: sym.start_row, col: sym.start_col }
}

fn make_site(path: &RelPath, sym: &Symbol) -> (s: CallGraphSite)
    ensures
        s@ == site_of(path@, *sym),
{
    CallGraphSite {
        path: path.copy(),
        kind: kind_to_str(sym.kind),
        start_row: sym.start_row,
        start_col: sym.start_col,
    }
}

/// Whether a symbol is a function-like definition of `name`.
pub open spec fn defines(sym: Symbol, name: Seq<char>) -> bool {
    sym.name@ == name && function_like(sym.kind)
}

/// The definition sites of `name` among the first `n` symbols of a file.
pub open spec fn file_sites(path: Seq<u8>, symbols: Seq<Symbol>, name: Seq<char>, n: int) -> Seq<SiteAt>
    decreases n,
{
    if n <= 0 {
        Seq::empty()
    } else if defines(symbols[n - 1], name) {
        file_sites(path, symbols, name, n - 1).push(site_of(path, symbols[n - 1]))
    } else {
        file_sites(path, symbols, name, n - 1)
    }
}

/// The definition sites of `name` in one file.
pub open spec fn sites_in(f: MappedFile, name: Seq<char>) -> Seq<SiteAt> {
    file_sites(f.path@, f.map.symbols@, name, f.map.symbols@.len() as int)
}

/// The definition sites of `name` in the first `n` files.
pub open spec fn sites_upto(files: Seq<MappedFile>, name: Seq<char>, n: int) -> Seq<SiteAt>
    decreases n,
{
    if n <= 0 {
        Seq::empty()
    } else {
        sites_upto(files, name, n - 1) + sites_in(files[n - 1], name)
    }
}

/// The definition sites of `name`: in every file, in path order, or in the one file asked about.
pub open spec fn definition_sites(
    files: Seq<MappedFile>,
    name: Seq<char>,
    path: Option<Seq<u8>>,
) -> Seq<SiteAt> {
    match path {
        Some(p) => if holds_path(files, p) {
            sites_in(files[path_index(files, p)], name)
        } else {
            Seq::empty()
        },
        None => sites_upto(files, name, files.len() as int),
    }
}

/// The bytes of an optional path.
pub open spec fn opt_path(p: Option<&RelPath>) -> Option<Seq<u8>> {
    match p {
        Some(x) => Some(x@),
        None => None,
    }
}

fn add_file_sites(out: &mut Vec<CallGraphSite>, f: &MappedFile, name: &str)
    ensures
        sites_at(final(out)@) == sites_at(old(out)@) + sites_in(*f, name@),
{
    let ghost before = sites_at(out@);
    let mut i: usize = 0;
    assert(sites_at(out@) =~= before + file_sites(f.path@, f.map.symbols@, name@, 0));
    while i < f.map.symbols.len()
        invariant
            i <= f.map.symbols@.len(),
            sites_at(out@) == before + file_sites(f.path@, f.map.symbols@, name@, i as int),
        decreases f.map.symbols.len() - i,
    {
        let sym = &f.map.symbols[i];
        let ghost was = out@;
        if same_str(sym.name.as_str(), name) && is_function_like(sym.kind) {
            out.push(make_site(&f.path, sym));
            assert(sites_at(out@) =~= sites_at(was).push(site_of(f.path@, *sym)));
        }
        i += 1;
        assert(sites_at(out@) =~= before + file_sites(f.path@, f.map.symbols@, name@, i as int));
    }
}

/// The definition sites of `name`: in every file, in path order, or in the one file asked about.
pub fn collect_sites(files: &Vec<MappedFile>, name: &str, path: Option<&RelPath>) -> (sites: Vec<
    CallGraphSite,
>)
    requires
        paths_ascend(files@),
    ensures
        sites_at(sites@) == definition_sites(files@, name@, opt_path(path)),
{
    let mut sites: Vec<CallGraphSite> = Vec::new();
    match path {
        Some(p) => {
            let (at, found) = locate(files, p);
            if found {
                add_file_sites(&mut sites, &files[at], name);
            }
            assert(sites_at(sites@) =~= definition_sites(files@, name@, opt_path(path)));
        },
        None => {
            let mut i: usize = 0;
            assert(sites_at(sites@) =~= sites_upto(files@, name@, 0));
            while i < files.len()
                invariant
                    i <= files@.len(),
                    sites_at(sites@) == sites_upto(files@, name@, i as int),
                decreases files.len() - i,
            {
                add_file_sites(&mut sites, &files[i], name);
                i += 1;
            }
        },
    }
    sites
}

/// The root node: every definition site of `name`, optionally restricted to one file.
pub fn build_root(name: &str, files: &Vec<MappedFile>, path_filter: Option<&RelPath>) -> (root:
    CallGraphNode)
    requires
        paths_ascend(files@),
    ensures
        root.name@ == name@,
        root.depth == 0,
        root.edges_to@.len() == 0,
        sites_at(root.sites@) == definition_sites(files@, name@, opt_path(path_filter)),
{
    CallGraphNode {
        name: name.to_string(),
        depth: 0,
        edges_to: Vec::new(),
        sites: collect_sites(files, name, path_filter),
    }
}

// ─── The function around a call site ─────────────────────────────────────────

/// Whether a function-like symbol covers byte `at`.
pub open spec fn covers(sym: Symbol, at: u32) -> bool {
    function_like(sym.kind) && sym.start_byte <= at < sym.end_byte
}

/// The length of a symbol.
pub open spec fn span(sym: Symbol) -> int {
    sym.end_byte - sym.start_byte
}

/// `i` is the tightest symbol around byte `at`: it covers the byte, none that covers it is
/// shorter, and none of the same length stands earlier. A symbol as long as the offset type
/// reaches never is.
pub open spec fn is_tightest(symbols: Seq<Symbol>, at: u32, i: int) -> bool {
    &&& 0 <= i < symbols.len()
    &&& covers(symbols[i], at)
    &&& span(symbols[i]) < u32::MAX
    &&& forall|j: int|
        0 <= j < symbols.len() && covers(#[trigger] symbols[j], at) ==> span(symbols[i]) < span(
            symbols[j],
        ) || (span(symbols[i]) == span(symbols[j]) && i <= j)
}

/// The tightest function-like symbol around byte `at`, if there is one.
pub open spec fn enclosing(symbols: Seq<Symbol>, at: u32) -> Option<int> {
    if exists|i: int| is_tightest(symbols, at, i) {
        Some(choose|i: int| is_tightest(symbols, at, i))
    } else {
        None
    }
}

pub(crate) proof fn lemma_tightest_unique(symbols: Seq<Symbol>, at: u32, i: int)
    requires
        is_tightest(symbols, at, i),
    ensures
        enclosing(symbols, at) == Some(i),
{
    let k = enclosing(symbols, at)->0;
    assert(is_tightest(symbols, at, k));
}

/// The index of the function-like symbol that most tightly contains byte `start_byte`. `None` for
/// a call at file scope.
pub fn containing_function(l1: &FileMapL1, start_byte: u32) -> (at: Option<usize>)
    ensures
        match at {
            Some(i) => enclosing(l1.symbols@, start_byte) == Some(i as int) && is_tightest(
                l1.symbols@,
                start_byte,
                i as int,
            ),
            None => enclosing(l1.symbols@, start_byte) is None,
        },
{
    let mut best: Option<usize> = None;
    let mut best_span: u32 = u32::MAX;
    let mut i: usize = 0;
    while i < l1.symbols.len()
        invariant
            i <= l1.symbols@.len(),
            match best {
                Some(b) => b < i && covers(l1.symbols@[b as int], start_byte) && best_span == span(
                    l1.symbols@[b as int],
                ) && best_span < u32::MAX && forall|j: int|
                    0 <= j < i && covers(#[trigger] l1.symbols@[j], start_byte) ==> best_span < span(
                        l1.symbols@[j],
                    ) || (best_span == span(l1.symbols@[j]) && b <= j),
                None => best_span == u32::MAX && forall|j: int|
                    0 <= j < i && covers(#[trigger] l1.symbols@[j], start_byte) ==> span(
                        l1.symbols@[j],
                    ) == u32::MAX,
            },
        decreases l1.symbols.len() - i,
    {
        let sym = &l1.symbols[i];
        if is_function_like(sym.kind) && sym.start_byte <= start_byte && start_byte < sym.end_byte {
            let len: u32 = sym.end_byte - sym.start_byte;
            if len < best_span {
                best = Some(i);
                best_span = len;
            }
        }
        i += 1;
    }
    proof {
        match best {
            Some(b) => {
                assert(is_tightest(l1.symbols@, start_byte, b as int));
                lemma_tightest_unique(l1.symbols@, start_byte, b as int);
            },
            None => {
                assert forall|k: int| !is_tightest(l1.symbols@, start_byte, k) by {}
            },
        }
    }
    best
}

// ─── Neighbours ──────────────────────────────────────────────────────────────

/// A neighbour of a node: its name, and the definition sites it would be shown with.
#[derive(Debug)]
pub struct Neighbour {
    pub name: String,
    pub sites: Vec<CallGraphSite>,
}

/// What the neighbours of one node are: from name to definition sites.
pub type NeighbourMap = Map<Seq<char>, Seq<SiteAt>>;

/// `list` holds each entry of `m` once.
pub open spec fn lists(list: Seq<Neighbour>, m: NeighbourMap) -> bool {
    &&& forall|i: int, j: int|
        0 <= i < j < list.len() ==> (#[trigger] list[i]).name@ != (#[trigger] list[j]).name@
    &&& forall|i: int|
        0 <= i < list.len() ==> entry_at(m, (#[trigger] list[i]).name@) == Some(
            sites_at(list[i].sites@),
        )
    &&& forall|k: Seq<char>| #[trigger]
        m.contains_key(k) ==> exists|i: int| 0 <= i < list.len() && (#[trigger] list[i]).name@ == k
}

/// A caller found at a call site: the enclosing function and its definition site.
pub struct CallerRecord {
    pub name: Seq<char>,
    pub site: SiteAt,
}

/// The caller at one call site, if the site lies in a function of an indexed file.
pub open spec fn caller_at(files: Seq<MappedFile>, rel: Seq<u8>, start: u32) -> Option<CallerRecord> {
    if !holds_path(files, rel) {
        None
    } else {
        let f = files[path_index(files, rel)];
        match enclosing(f.map.symbols@, start) {
            Some(i) => Some(
                CallerRecord {
                    name: f.map.symbols@[i].name@,
                    site: site_of(rel, f.map.symbols@[i]),
                },
            ),
            None => None,
        }
    }
}

/// Whether two sites are the same place: path, row and column.
pub open spec fn same_place(a: SiteAt, b: SiteAt) -> bool {
    a.path == b.path && a.row == b.row && a.col == b.col
}

/// Whether `records` already hold a caller at the place of `site`.
pub open spec fn place_seen(records: Seq<CallerRecord>, site: SiteAt) -> bool {
    exists|i: int| 0 <= i < records.len() && same_place((#[trigger] records[i]).site, site)
}

/// The callers at the call sites of `name` among the first `n` rows, each definition site once.
pub open spec fn callers_upto(
    files: Seq<MappedFile>,
    rows: Seq<CallRow>,
    name: Seq<char>,
    n: int,
) -> Seq<CallerRecord>
    decreases n,
{
    if n <= 0 {
        Seq::empty()
    } else {
        let front = callers_upto(files, rows, name, n - 1);
        if rows[n - 1].callee != name {
            front
        } else {
            match caller_at(files, rows[n - 1].rel, rows[n - 1].start) {
                Some(c) => if place_seen(front, c.site) {
                    front
                } else {
                    front.push(c)
                },
                None => front,
            }
        }
    }
}

/// How many of the first `n` rows call `name`.
pub open spec fn calls_to(rows: Seq<CallRow>, name: Seq<char>, n: int) -> int
    decreases n,
{
    if n <= 0 {
        0
    } else {
        calls_to(rows, name, n - 1) + (if rows[n - 1].callee == name { 1int } else { 0 })
    }
}

/// The sites of the records with this name, in order.
pub open spec fn sites_named(records: Seq<CallerRecord>, name: Seq<char>) -> Seq<SiteAt>
    decreases records.len(),
{
    if records.len() == 0 {
        Seq::empty()
    } else if records.last().name == name {
        sites_named(records.drop_last(), name).push(records.last().site)
    } else {
        sites_named(records.drop_last(), name)
    }
}

/// Whether some record has this name.
pub open spec fn name_recorded(records: Seq<CallerRecord>, name: Seq<char>) -> bool {
    exists|i: int| 0 <= i < records.len() && (#[trigger] records[i]).name == name
}

/// Records grouped by name.
pub open spec fn grouped(records: Seq<CallerRecord>) -> NeighbourMap {
    Map::new(|k: Seq<char>| name_recorded(records, k), |k: Seq<char>| sites_named(records, k))
}

/// The callers of `name`: from the enclosing function's name to its definition sites. `None` when
/// more call sites than `cap` would have to be looked at.
pub open spec fn callers_of_name(
    files: Seq<MappedFile>,
    rows: Seq<CallRow>,
    name: Seq<char>,
    cap: int,
) -> Option<NeighbourMap> {
    if calls_to(rows, name, rows.len() as int) > cap {
        None
    } else {
        Some(grouped(callers_upto(files, rows, name, rows.len() as int)))
    }
}

/// The bytes under which a place is remembered.
spec fn place_key(s: SiteAt) -> Seq<u8> {
    s.path + crate::keys::be4(s.row) + crate::keys::be4(s.col)
}

proof fn lemma_four_bytes(a: u32, b: u32)
    requires
        crate::keys::be4(a) == crate::keys::be4(b),
    ensures
        a == b,
{
    let x = crate::keys::be4(a);
    assert(crate::keys::be4_at(x, 0) == a);
    assert(crate::keys::be4_at(x, 0) == b);
}

proof fn lemma_place_key(a: SiteAt, b: SiteAt)
    ensures
        (place_key(a) == place_key(b)) == same_place(a, b),
{
    if place_key(a) == place_key(b) {
        let k = place_key(a);
        let n = k.len() as int;
        assert(a.path =~= k.take(n - 8));
        assert(b.path =~= k.take(n - 8));
        assert(crate::keys::be4(a.row) =~= k.subrange(n - 8, n - 4));
        assert(crate::keys::be4(b.row) =~= k.subrange(n - 8, n - 4));
        assert(crate::keys::be4(a.col) =~= k.subrange(n - 4, n));
        assert(crate::keys::be4(b.col) =~= k.subrange(n - 4, n));
        lemma_four_bytes(a.row, b.row);
        lemma_four_bytes(a.col, b.col);
    }
}

fn place_key_of(path: &RelPath, row: u32, col: u32) -> (k: Vec<u8>)
    ensures
        forall|kind: Seq<char>| k@ == #[trigger] place_key(SiteAt { path: path@, kind, row, col }),
{
    let mut k: Vec<u8> = copy_bytes(path.bytes.as_slice());
    k.push((row / 16777216) as u8);
    k.push(((row / 65536) % 256) as u8);
    k.push(((row / 256) % 256) as u8);
    k.push((row % 256) as u8);
    k.push((col / 16777216) as u8);
    k.push(((col / 65536) % 256) as u8);
    k.push(((col / 256) % 256) as u8);
    k.push((col % 256) as u8);
    assert forall|kind: Seq<char>| k@ == #[trigger] place_key(
        SiteAt { path: path@, kind, row, col },
    ) by {
        assert(k@ =~= place_key(SiteAt { path: path@, kind, row, col }));
    }
    k
}

/// Callers gathered so far: the groups, where each name's group stands, and the places seen.
struct Gathered {
    list: Vec<Neighbour>,
    at: ahash::AHashMap<String, u32>,
    seen: ahash::AHashMap<Vec<u8>, u32>,
}

impl Gathered {
    spec fn wf(&self, records: Seq<CallerRecord>) -> bool {
        &&& self.list@.len() <= records.len()
        &&& forall|i: int, j: int|
            0 <= i < j < self.list@.len() ==> (#[trigger] self.list@[i]).name@ != (
            #[trigger] self.list@[j]).name@
        &&& forall|i: int|
            0 <= i < self.list@.len() ==> entry_at(
                names_held(self.at),
                (#[trigger] self.list@[i]).name@,
            ) == Some(i as u32)
        &&& forall|i: int|
            0 <= i < self.list@.len() ==> sites_at((#[trigger] self.list@[i]).sites@) == sites_named(
                records,
                self.list@[i].name@,
            )
        &&& forall|i: int|
            0 <= i < self.list@.len() ==> name_recorded(records, (#[trigger] self.list@[i]).name@)
        &&& forall|k: Seq<char>| #[trigger]
            names_held(self.at).contains_key(k) ==> names_held(self.at)[k] < self.list@.len()
                && self.list@[names_held(self.at)[k] as int].name@ == k
        &&& forall|k: Seq<char>| #[trigger]
            name_recorded(records, k) ==> names_held(self.at).contains_key(k)
        &&& forall|s: SiteAt| #[trigger]
            place_seen(records, s) <==> paths_held(self.seen).contains_key(place_key(s))
    }

    fn new() -> (g: Gathered)
        ensures
            g.wf(Seq::empty()),
    {
        Gathered { list: Vec::new(), at: names_new(), seen: paths_new() }
    }

    /// Add one caller.
    fn add(&mut self, Ghost(records): Ghost<Seq<CallerRecord>>, rel: &RelPath, sym: &Symbol)
        requires
            old(self).wf(records),
            records.len() < u32::MAX,
        ensures
            ({
                let c = CallerRecord { name: sym.name@, site: site_of(rel@, *sym) };
                final(self).wf(if place_seen(records, c.site) { records } else { records.push(c) })
            }),
    {
        let ghost c = CallerRecord { name: sym.name@, site: site_of(rel@, *sym) };
        let ghost after = records.push(c);
        let key = place_key_of(rel, sym.start_row, sym.start_col);
        assert(key@ == place_key(c.site));
        if paths_get(&self.seen, key.as_slice()).is_some() {
            assert(place_seen(records, c.site));
            return;
        }
        assert(!place_seen(records, c.site));
        let ghost old_seen = paths_held(self.seen);
        let ghost old_list = self.list@;
        paths_insert(&mut self.seen, key, 0);
        let site = make_site(rel, sym);
        proof {
            assert(after.drop_last() =~= records);
            assert forall|k: Seq<char>| #[trigger] sites_named(after, k) == (if k == c.name {
                sites_named(records, k).push(c.site)
            } else {
                sites_named(records, k)
            }) by {}
            assert forall|k: Seq<char>| #[trigger] name_recorded(after, k) == (name_recorded(
                records,
                k,
            ) || k == c.name) by {
                if name_recorded(records, k) {
                    let i = choose|i: int| 0 <= i < records.len() && (#[trigger] records[i]).name == k;
                    assert(after[i].name == k);
                }
                if k == c.name {
                    assert(after[records.len() as int].name == k);
                }
                if name_recorded(after, k) && k != c.name {
                    let i = choose|i: int| 0 <= i < after.len() && (#[trigger] after[i]).name == k;
                    assert(records[i].name == k);
                }
            }
            assert forall|s: SiteAt| #[trigger] place_seen(after, s) <==> paths_held(
                self.seen,
            ).contains_key(place_key(s)) by {
                lemma_place_key(s, c.site);
                if place_seen(records, s) {
                    let i = choose|i: int|
                        0 <= i < records.len() && same_place((#[trigger] records[i]).site, s);
                    assert(same_place(after[i].site, s));
                }
                if same_place(c.site, s) {
                    assert(same_place(after[records.len() as int].site, s));
                }
                if place_seen(after, s) && !same_place(c.site, s) {
                    let i = choose|i: int|
                        0 <= i < after.len() && same_place((#[trigger] after[i]).site, s);
                    assert(same_place(records[i].site, s));
                }
                assert(place_seen(records, s) <==> old_seen.contains_key(place_key(s)));
            }
        }
        match names_get(&self.at, sym.name.as_str()) {
            Some(i) => {
                let ghost sites_before = sites_at(self.list@[i as int].sites@);
                self.list[i as usize].sites.push(site);
                proof {
                    assert(sites_at(self.list@[i as int].sites@) =~= sites_before.push(c.site));
                    assert forall|j: int| 0 <= j < self.list@.len() implies sites_at(
                        (#[trigger] self.list@[j]).sites@,
                    ) == sites_named(after, self.list@[j].name@) by {
                        if j != i {
                            assert(self.list@[j] == old_list[j]);
                            assert(old_list[j].name@ != old_list[i as int].name@) by {
                                if j < i {
                                    assert(old_list[j].name@ != old_list[i as int].name@);
                                } else {
                                    assert(old_list[i as int].name@ != old_list[j].name@);
                                }
                            }
                        }
                    }
                    assert forall|j: int| 0 <= j < self.list@.len() implies (
                    #[trigger] self.list@[j]).name@ == old_list[j].name@ by {}
                }
            },
            None => {
                let n: u32 = self.list.len() as u32;
                let mut sites: Vec<CallGraphSite> = Vec::new();
                sites.push(site);
                proof {
                    assert(!name_recorded(records, c.name));
                    lemma_no_sites(records, c.name);
                    assert(sites_at(sites@) =~= sites_named(after, c.name));
                }
                self.list.push(Neighbour { name: sym.name.clone(), sites });
                names_insert(&mut self.at, sym.name.clone(), n);
                proof {
                    assert forall|j: int| 0 <= j < self.list@.len() implies entry_at(
                        names_held(self.at),
                        (#[trigger] self.list@[j]).name@,
                    ) == Some(j as u32) by {
                        if j < n {
                            assert(self.list@[j] == old_list[j]);
                            assert(name_recorded(records, old_list[j].name@));
                        }
                    }
                    assert forall|j: int| 0 <= j < self.list@.len() implies sites_at(
                        (#[trigger] self.list@[j]).sites@,
                    ) == sites_named(after, self.list@[j].name@) && name_recorded(
                        after,
                        self.list@[j].name@,
                    ) by {
                        if j < n {
                            assert(self.list@[j] == old_list[j]);
                            assert(name_recorded(records, old_list[j].name@));
                        }
                    }
                    assert forall|i: int, j: int| 0 <= i < j < self.list@.len() implies (
                    #[trigger] self.list@[i]).name@ != (#[trigger] self.list@[j]).name@ by {
                        assert(self.list@[i] == old_list[i]);
                        assert(name_recorded(records, old_list[i].name@));
                        if j < n {
                            assert(self.list@[j] == old_list[j]);
                        }
                    }
                }
            },
        }
    }
}

proof fn lemma_no_sites(records: Seq<CallerRecord>, name: Seq<char>)
    requires
        !name_recorded(records, name),
    ensures
        sites_named(records, name).len() == 0,
    decreases records.len(),
{
    if records.len() > 0 {
        assert(records[records.len() - 1].name != name);
        assert(!name_recorded(records.drop_last(), name)) by {
            if name_recorded(records.drop_last(), name) {
                let i = choose|i: int|
                    0 <= i < records.drop_last().len() && (#[trigger] records.drop_last()[i]).name
                        == name;
                assert(records[i].name == name);
            }
        }
        lemma_no_sites(records.drop_last(), name);
    }
}

proof fn lemma_records_bounded(
    files: Seq<MappedFile>,
    rows: Seq<CallRow>,
    name: Seq<char>,
    n: int,
)
    requires
        0 <= n <= rows.len(),
    ensures
        callers_upto(files, rows, name, n).len() <= n,
        0 <= calls_to(rows, name, n) <= n,
    decreases n,
{
    if n > 0 {
        lemma_records_bounded(files, rows, name, n - 1);
    }
}

proof fn lemma_calls_monotone(rows: Seq<CallRow>, name: Seq<char>, m: int, n: int)
    requires
        0 <= m <= n <= rows.len(),
    ensures
        calls_to(rows, name, m) <= calls_to(rows, name, n),
    decreases n - m,
{
    if m < n {
        lemma_calls_monotone(rows, name, m, n - 1);
    }
}

/// The functions that call `name`, each with its definition sites. `None` when more call sites
/// than `cap` would have to be looked at.
pub fn collect_callers(
    index: Option<&InRamCallIndex>,
    files: &Vec<MappedFile>,
    name: &str,
    cap: usize,
) -> (r: Option<Vec<Neighbour>>)
    requires
        paths_ascend(files@),
        index is Some ==> index->0.wf() && index->0.rows().len() < u32::MAX,
    ensures
        match r {
            Some(list) => callers_of_name(files@, index_rows(index), name@, cap as int) is Some
                && lists(list@, callers_of_name(files@, index_rows(index), name@, cap as int)->0),
            None => callers_of_name(files@, index_rows(index), name@, cap as int) is None,
        },
{
    let mut g = Gathered::new();
    let ghost rows = index_rows(index);
    let calls = match index {
        Some(i) => i,
        None => {
            assert(callers_upto(files@, rows, name@, 0) =~= Seq::empty());
            return Some(g.list);
        },
    };
    let mut i: usize = 0;
    let mut scanned: usize = 0;
    while i < calls.len()
        invariant
            i <= rows.len(),
            rows == calls.rows(),
            rows == index_rows(index),
            rows.len() < u32::MAX,
            paths_ascend(files@),
            g.wf(callers_upto(files@, rows, name@, i as int)),
            scanned == calls_to(rows, name@, i as int),
            scanned <= cap,
            scanned <= i,
        decreases rows.len() - i,
    {
        let row = calls.entry(i);
        proof {
            lemma_records_bounded(files@, rows, name@, i as int);
        }
        if same_str(row.callee.as_str(), name) {
            scanned += 1;
            if scanned > cap {
                proof {
                    lemma_calls_monotone(rows, name@, i + 1, rows.len() as int);
                }
                return None;
            }
            let (at, found) = locate(files, &row.rel);
            if found {
                match containing_function(&files[at].map, row.start_byte) {
                    Some(k) => {
                        g.add(
                            Ghost(callers_upto(files@, rows, name@, i as int)),
                            &row.rel,
                            &files[at].map.symbols[k],
                        );
                    },
                    None => {},
                }
            }
        }
        i += 1;
    }
    proof {
        let records = callers_upto(files@, rows, name@, rows.len() as int);
        let m = grouped(records);
        assert forall|k: Seq<char>| #[trigger] m.contains_key(k) implies exists|i: int|
            0 <= i < g.list@.len() && (#[trigger] g.list@[i]).name@ == k by {
            assert(name_recorded(records, k));
            assert(g.list@[names_held(g.at)[k] as int].name@ == k);
        }
    }
    Some(g.list)
}

/// The rows of an optional index.
pub open spec fn index_rows(index: Option<&InRamCallIndex>) -> Seq<CallRow> {
    match index {
        Some(i) => i.rows(),
        None => Seq::empty(),
    }
}

/// The calls of a file in an optional index.
pub open spec fn index_calls(index: Option<&InRamCallIndex>, rel: Seq<u8>) -> Seq<CallRef> {
    match index {
        Some(i) => i.calls_of(rel),
        None => Seq::empty(),
    }
}

// ─── Callees ─────────────────────────────────────────────────────────────────

/// The files that a question about `path` is about: the one at that path, or all of them.
pub open spec fn in_scope(files: Seq<MappedFile>, path: Option<Seq<u8>>) -> Seq<MappedFile> {
    match path {
        Some(p) => if holds_path(files, p) {
            seq![files[path_index(files, p)]]
        } else {
            Seq::empty()
        },
        None => files,
    }
}

/// Whether byte `at` of a file lies inside a function-like definition of `name`.
pub open spec fn inside(symbols: Seq<Symbol>, name: Seq<char>, at: u32) -> bool {
    exists|s: int|
        0 <= s < symbols.len() && defines(#[trigger] symbols[s], name) && symbols[s].start_byte <= at
            < symbols[s].end_byte
}

/// Whether a file defines `name`.
pub open spec fn file_defines(f: MappedFile, name: Seq<char>) -> bool {
    exists|s: int| 0 <= s < f.map.symbols@.len() && defines(#[trigger] f.map.symbols@[s], name)
}

/// Whether one of the first `n` calls of a file calls `callee` from inside `name`.
pub open spec fn callee_in(
    f: MappedFile,
    calls: Seq<CallRef>,
    name: Seq<char>,
    callee: Seq<char>,
    n: int,
) -> bool {
    exists|j: int|
        0 <= j < n && (#[trigger] calls[j]).callee@ == callee && inside(
            f.map.symbols@,
            name,
            calls[j].start_byte,
        )
}

/// Whether `name` calls `callee` in one of the first `n` files of `scope`.
pub open spec fn callee_upto(
    index: Option<&InRamCallIndex>,
    scope: Seq<MappedFile>,
    name: Seq<char>,
    callee: Seq<char>,
    n: int,
) -> bool {
    exists|i: int|
        0 <= i < n && callee_in(
            #[trigger] scope[i],
            index_calls(index, scope[i].path@),
            name,
            callee,
            index_calls(index, scope[i].path@).len() as int,
        )
}

/// How many call sites the first `n` files of `scope` that define `name` hold.
pub open spec fn calls_scanned(
    index: Option<&InRamCallIndex>,
    scope: Seq<MappedFile>,
    name: Seq<char>,
    n: int,
) -> int
    decreases n,
{
    if n <= 0 {
        0
    } else if file_defines(scope[n - 1], name) {
        calls_scanned(index, scope, name, n - 1) + index_calls(index, scope[n - 1].path@).len()
    } else {
        calls_scanned(index, scope, name, n - 1)
    }
}

/// The callees of `name`, each with its definition sites anywhere. `None` when more call sites
/// than `cap` would have to be looked at.
pub open spec fn callees_of_name(
    index: Option<&InRamCallIndex>,
    files: Seq<MappedFile>,
    name: Seq<char>,
    path: Option<Seq<u8>>,
    cap: int,
) -> Option<NeighbourMap> {
    let scope = in_scope(files, path);
    if calls_scanned(index, scope, name, scope.len() as int) > cap {
        None
    } else {
        Some(
            Map::new(
                |k: Seq<char>| callee_upto(index, scope, name, k, scope.len() as int),
                |k: Seq<char>| definition_sites(files, k, None),
            ),
        )
    }
}

/// The definition sites of every function-like name, looked up by name.
pub struct SiteIndex {
    at: ahash::AHashMap<String, u32>,
    sites: Vec<Vec<CallGraphSite>>,
}

impl SiteIndex {
    /// The sites listed under `name`.
    pub closed spec fn listed(&self, name: Seq<char>) -> Seq<SiteAt> {
        if names_held(self.at).contains_key(name) {
            sites_at(self.sites@[names_held(self.at)[name] as int]@)
        } else {
            Seq::empty()
        }
    }

    /// Every listed name has its own list.
    pub closed spec fn wf(&self) -> bool {
        &&& forall|k: Seq<char>| #[trigger]
            names_held(self.at).contains_key(k) ==> names_held(self.at)[k] < self.sites@.len()
        &&& forall|k: Seq<char>, l: Seq<char>|
            #![trigger names_held(self.at)[k], names_held(self.at)[l]]
            names_held(self.at).contains_key(k) && names_held(self.at).contains_key(l)
                && names_held(self.at)[k] == names_held(self.at)[l] ==> k == l
    }

    /// How many lists there are.
    closed spec fn size(&self) -> nat {
        self.sites@.len()
    }

    fn add(&mut self, path: &RelPath, sym: &Symbol)
        requires
            old(self).wf(),
            old(self).size() < u32::MAX,
        ensures
            final(self).wf(),
            final(self).size() <= old(self).size() + 1,
            forall|k: Seq<char>| #[trigger]
                final(self).listed(k) == (if k == sym.name@ {
                    old(self).listed(k).push(site_of(path@, *sym))
                } else {
                    old(self).listed(k)
                }),
    {
        let ghost before = *self;
        let site = make_site(path, sym);
        match names_get(&self.at, sym.name.as_str()) {
            Some(i) => {
                let ghost was = self.sites@[i as int]@;
                self.sites[i as usize].push(site);
                proof {
                    assert(sites_at(self.sites@[i as int]@) =~= sites_at(was).push(
                        site_of(path@, *sym),
                    ));
                    assert forall|k: Seq<char>| #[trigger]
                        self.listed(k) == (if k == sym.name@ {
                            before.listed(k).push(site_of(path@, *sym))
                        } else {
                            before.listed(k)
                        }) by {
                        if k != sym.name@ && names_held(self.at).contains_key(k) {
                            assert(names_held(self.at)[k] != names_held(self.at)[sym.name@]);
                        }
                    }
                }
            },
            None => {
                let n: u32 = self.sites.len() as u32;
                let mut list: Vec<CallGraphSite> = Vec::new();
                list.push(site);
                assert(sites_at(list@) =~= Seq::empty().push(site_of(path@, *sym)));
                self.sites.push(list);
                names_insert(&mut self.at, sym.name.clone(), n);
                proof {
                    assert forall|k: Seq<char>| #[trigger]
                        self.listed(k) == (if k == sym.name@ {
                            before.listed(k).push(site_of(path@, *sym))
                        } else {
                            before.listed(k)
                        }) by {
                        if k != sym.name@ && names_held(before.at).contains_key(k) {
                            assert(names_held(self.at)[k] == names_held(before.at)[k]);
                        }
                    }
                }
            },
        }
    }

    /// Index every function-like definition of `files`.
    pub fn build(files: &Vec<MappedFile>) -> (t: SiteIndex)
        requires
            symbol_count(files@, files@.len() as int) < u32::MAX,
        ensures
            t.wf(),
            forall|k: Seq<char>| #[trigger] t.listed(k) == definition_sites(files@, k, None),
    {
        let mut t = SiteIndex { at: names_new(), sites: Vec::new() };
        let mut i: usize = 0;
        while i < files.len()
            invariant
                i <= files@.len(),
                t.wf(),
                symbol_count(files@, files@.len() as int) < u32::MAX,
                t.size() <= symbol_count(files@, i as int),
                forall|k: Seq<char>| #[trigger] t.listed(k) == sites_upto(files@, k, i as int),
            decreases files.len() - i,
        {
            let f = &files[i];
            let mut j: usize = 0;
            proof {
                lemma_symbol_count(files@, i + 1, files@.len() as int);
                assert forall|k: Seq<char>| #[trigger]
                    t.listed(k) == sites_upto(files@, k, i as int) + file_sites(
                        f.path@,
                        f.map.symbols@,
                        k,
                        0,
                    ) by {
                    assert(sites_upto(files@, k, i as int) + Seq::<SiteAt>::empty() =~= sites_upto(
                        files@,
                        k,
                        i as int,
                    ));
                }
            }
            while j < f.map.symbols.len()
                invariant
                    i < files@.len(),
                    *f == files@[i as int],
                    j <= f.map.symbols@.len(),
                    t.wf(),
                    t.size() <= symbol_count(files@, i as int) + j,
                    symbol_count(files@, i as int) + f.map.symbols@.len() < u32::MAX,
                    forall|k: Seq<char>| #[trigger]
                        t.listed(k) == sites_upto(files@, k, i as int) + file_sites(
                            f.path@,
                            f.map.symbols@,
                            k,
                            j as int,
                        ),
                decreases f.map.symbols.len() - j,
            {
                let sym = &f.map.symbols[j];
                let ghost before = t;
                if is_function_like(sym.kind) {
                    t.add(&f.path, sym);
                }
                proof {
                    assert forall|k: Seq<char>| #[trigger]
                        t.listed(k) == sites_upto(files@, k, i as int) + file_sites(
                            f.path@,
                            f.map.symbols@,
                            k,
                            j + 1,
                        ) by {
                        assert(before.listed(k) == sites_upto(files@, k, i as int) + file_sites(
                            f.path@,
                            f.map.symbols@,
                            k,
                            j as int,
                        ));
                        assert(t.listed(k) =~= sites_upto(files@, k, i as int) + file_sites(
                            f.path@,
                            f.map.symbols@,
                            k,
                            j + 1,
                        ));
                    }
                }
                j += 1;
            }
            i += 1;
        }
        t
    }

    /// A copy of the sites listed under `name`.
    pub fn get(&self, name: &str) -> (sites: Vec<CallGraphSite>)
        requires
            self.wf(),
        ensures
            sites_at(sites@) == self.listed(name@),
    {
        let mut out: Vec<CallGraphSite> = Vec::new();
        match names_get(&self.at, name) {
            Some(i) => {
                let list = &self.sites[i as usize];
                let mut j: usize = 0;
                while j < list.len()
                    invariant
                        j <= list@.len(),
                        sites_at(out@) == sites_at(list@).take(j as int),
                    decreases list.len() - j,
                {
                    let ghost was = out@;
                    out.push(list[j].copy());
                    j += 1;
                    assert(sites_at(out@) =~= sites_at(was).push(list@[j - 1]@));
                    assert(sites_at(out@) =~= sites_at(list@).take(j as int));
                }
                assert(sites_at(list@).take(j as int) =~= sites_at(list@));
            },
            None => {
                assert(sites_at(out@) =~= Seq::empty());
            },
        }
        out
    }
}

/// How many symbols the first `n` files hold.
pub open spec fn symbol_count(files: Seq<MappedFile>, n: int) -> int
    decreases n,
{
    if n <= 0 {
        0
    } else {
        symbol_count(files, n - 1) + files[n - 1].map.symbols@.len()
    }
}

proof fn lemma_symbol_count(files: Seq<MappedFile>, m: int, n: int)
    requires
        0 <= m <= n <= files.len(),
    ensures
        symbol_count(files, m) <= symbol_count(files, n),
    decreases n - m,
{
    if m < n {
        lemma_symbol_count(files, m, n - 1);
    }
}

/// Callee names gathered so far, each once.
struct NameSet {
    list: Vec<String>,
    at: ahash::AHashMap<String, u32>,
}

impl NameSet {
    spec fn wf(&self) -> bool {
        &&& forall|i: int, j: int|
            0 <= i < j < self.list@.len() ==> (#[trigger] self.list@[i])@ != (
            #[trigger] self.list@[j])@
        &&& forall|i: int|
            0 <= i < self.list@.len() ==> names_held(self.at).contains_key(
                (#[trigger] self.list@[i])@,
            )
        &&& forall|k: Seq<char>| #[trigger]
            names_held(self.at).contains_key(k) ==> exists|i: int|
                0 <= i < self.list@.len() && (#[trigger] self.list@[i])@ == k
    }

    spec fn has(&self, k: Seq<char>) -> bool {
        names_held(self.at).contains_key(k)
    }

    fn add(&mut self, name: &String)
        requires
            old(self).wf(),
        ensures
            final(self).wf(),
            forall|k: Seq<char>| #[trigger] final(self).has(k) == (old(self).has(k) || k == name@),
    {
        let ghost before = *self;
        if names_get(&self.at, name.as_str()).is_none() {
            self.list.push(name.clone());
            names_insert(&mut self.at, name.clone(), 0);
            proof {
                assert(self.list@ == before.list@.push(self.list@.last()));
                assert forall|k: Seq<char>| #[trigger]
                    names_held(self.at).contains_key(k) implies exists|i: int|
                    0 <= i < self.list@.len() && (#[trigger] self.list@[i])@ == k by {
                    if k == name@ {
                        assert(self.list@[before.list@.len() as int]@ == k);
                    } else {
                        assert(names_held(before.at).contains_key(k));
                        let i = choose|i: int|
                            0 <= i < before.list@.len() && (#[trigger] before.list@[i])@ == k;
                        assert(self.list@[i]@ == k);
                    }
                }
                assert forall|i: int, j: int| 0 <= i < j < self.list@.len() implies (
                #[trigger] self.list@[i])@ != (#[trigger] self.list@[j])@ by {
                    assert(self.list@[i] == before.list@[i]);
                    assert(names_held(before.at).contains_key(before.list@[i]@));
                    if j < before.list@.len() {
                        assert(self.list@[j] == before.list@[j]);
                    }
                }
                assert forall|i: int| 0 <= i < self.list@.len() implies names_held(
                    self.at,
                ).contains_key((#[trigger] self.list@[i])@) by {
                    if i < before.list@.len() {
                        assert(self.list@[i] == before.list@[i]);
                        assert(names_held(before.at).contains_key(before.list@[i]@));
                    }
                }
            }
        }
    }
}

fn is_inside(symbols: &Vec<Symbol>, name: &str, at: u32) -> (yes: bool)
    ensures
        yes == inside(symbols@, name@, at),
{
    let mut s: usize = 0;
    while s < symbols.len()
        invariant
            s <= symbols@.len(),
            forall|k: int|
                0 <= k < s ==> !(defines(#[trigger] symbols@[k], name@) && symbols@[k].start_byte
                    <= at < symbols@[k].end_byte),
        decreases symbols.len() - s,
    {
        let sym = &symbols[s];
        if sym.start_byte <= at && at < sym.end_byte && is_function_like(sym.kind) && same_str(
            sym.name.as_str(),
            name,
        ) {
            assert(defines(symbols@[s as int], name@));
            return true;
        }
        s += 1;
    }
    false
}

fn has_definition(f: &MappedFile, name: &str) -> (yes: bool)
    ensures
        yes == file_defines(*f, name@),
{
    let mut s: usize = 0;
    while s < f.map.symbols.len()
        invariant
            s <= f.map.symbols@.len(),
            forall|k: int| 0 <= k < s ==> !defines(#[trigger] f.map.symbols@[k], name@),
        decreases f.map.symbols.len() - s,
    {
        let sym = &f.map.symbols[s];
        if is_function_like(sym.kind) && same_str(sym.name.as_str(), name) {
            assert(defines(f.map.symbols@[s as int], name@));
            return true;
        }
        s += 1;
    }
    false
}

fn gather_callees(names: &mut NameSet, f: &MappedFile, calls: &[CallRef], name: &str)
    requires
        old(names).wf(),
    ensures
        final(names).wf(),
        forall|k: Seq<char>| #[trigger]
            final(names).has(k) == (old(names).has(k) || callee_in(
                *f,
                calls@,
                name@,
                k,
                calls@.len() as int,
            )),
{
    let ghost before = *names;
    let mut j: usize = 0;
    while j < calls.len()
        invariant
            j <= calls@.len(),
            names.wf(),
            forall|k: Seq<char>| #[trigger]
                names.has(k) == (before.has(k) || callee_in(*f, calls@, name@, k, j as int)),
        decreases calls.len() - j,
    {
        let call = &calls[j];
        let ghost was = *names;
        let hit: bool = is_inside(&f.map.symbols, name, call.start_byte);
        if hit {
            names.add(&call.callee);
        }
        proof {
            assert forall|k: Seq<char>| #[trigger]
                names.has(k) == (before.has(k) || callee_in(*f, calls@, name@, k, j + 1)) by {
                assert(was.has(k) == (before.has(k) || callee_in(*f, calls@, name@, k, j as int)));
                if callee_in(*f, calls@, name@, k, j as int) {
                    let l = choose|l: int|
                        0 <= l < j && (#[trigger] calls@[l]).callee@ == k && inside(
                            f.map.symbols@,
                            name@,
                            calls@[l].start_byte,
                        );
                    assert(calls@[l].callee@ == k);
                }
                if hit && k == call.callee@ {
                    assert(calls@[j as int].callee@ == k);
                }
            }
        }
        j += 1;
    }
}

/// The callee names found in one more file.
proof fn lemma_callee_step(
    index: Option<&InRamCallIndex>,
    scope: Seq<MappedFile>,
    name: Seq<char>,
    n: int,
)
    requires
        0 <= n < scope.len(),
    ensures
        forall|k: Seq<char>| #[trigger]
            callee_upto(index, scope, name, k, n + 1) == (callee_upto(index, scope, name, k, n)
                || callee_in(
                scope[n],
                index_calls(index, scope[n].path@),
                name,
                k,
                index_calls(index, scope[n].path@).len() as int,
            )),
{
    assert forall|k: Seq<char>| #[trigger]
        callee_upto(index, scope, name, k, n + 1) == (callee_upto(index, scope, name, k, n)
            || callee_in(
            scope[n],
            index_calls(index, scope[n].path@),
            name,
            k,
            index_calls(index, scope[n].path@).len() as int,
        )) by {
        if callee_upto(index, scope, name, k, n) {
            let i = choose|i: int|
                0 <= i < n && callee_in(
                    #[trigger] scope[i],
                    index_calls(index, scope[i].path@),
                    name,
                    k,
                    index_calls(index, scope[i].path@).len() as int,
                );
            assert(0 <= i < n + 1);
        }
    }
}

/// A file that does not define a name has no callees of it.
proof fn lemma_undefined_has_no_callees(f: MappedFile, calls: Seq<CallRef>, name: Seq<char>)
    requires
        !file_defines(f, name),
    ensures
        forall|k: Seq<char>| !#[trigger] callee_in(f, calls, name, k, calls.len() as int),
{
    assert forall|k: Seq<char>| !#[trigger] callee_in(f, calls, name, k, calls.len() as int) by {
        if callee_in(f, calls, name, k, calls.len() as int) {
            let j = choose|j: int|
                0 <= j < calls.len() && (#[trigger] calls[j]).callee@ == k && inside(
                    f.map.symbols@,
                    name,
                    calls[j].start_byte,
                );
            let s = choose|s: int|
                0 <= s < f.map.symbols@.len() && defines(#[trigger] f.map.symbols@[s], name)
                    && f.map.symbols@[s].start_byte <= calls[j].start_byte
                    < f.map.symbols@[s].end_byte;
            assert(defines(f.map.symbols@[s], name));
        }
    }
}

proof fn lemma_scanned_monotone(
    index: Option<&InRamCallIndex>,
    scope: Seq<MappedFile>,
    name: Seq<char>,
    m: int,
    n: int,
)
    requires
        0 <= m <= n <= scope.len(),
    ensures
        0 <= calls_scanned(index, scope, name, m) <= calls_scanned(index, scope, name, n),
    decreases n,
{
    if m < n {
        lemma_scanned_monotone(index, scope, name, m, n - 1);
    } else if n > 0 {
        lemma_scanned_monotone(index, scope, name, m - 1, n - 1);
    }
}

/// The names that `name` calls, each with its definition sites. `None` when more call sites than
/// `cap` would have to be looked at.
pub fn collect_callees_for_name(
    index: Option<&InRamCallIndex>,
    files: &Vec<MappedFile>,
    sites: &SiteIndex,
    name: &str,
    path_filter: Option<&RelPath>,
    cap: usize,
) -> (r: Option<Vec<Neighbour>>)
    requires
        paths_ascend(files@),
        index is Some ==> index->0.wf(),
        sites.wf(),
        forall|k: Seq<char>| #[trigger] sites.listed(k) == definition_sites(files@, k, None),
    ensures
        match r {
            Some(list) => callees_of_name(index, files@, name@, opt_path(path_filter), cap as int)
                is Some && lists(
                list@,
                callees_of_name(index, files@, name@, opt_path(path_filter), cap as int)->0,
            ),
            None => callees_of_name(index, files@, name@, opt_path(path_filter), cap as int) is None,
        },
{
    let ghost scope = in_scope(files@, opt_path(path_filter));
    let mut names = NameSet { list: Vec::new(), at: names_new() };
    let mut from: usize = 0;
    let mut to: usize = files.len();
    match path_filter {
        Some(p) => {
            let (at, found) = locate(files, p);
            from = at;
            to = if found {
                at + 1
            } else {
                at
            };
        },
        None => {},
    }
    assert(scope =~= files@.subrange(from as int, to as int));
    let mut i: usize = from;
    let mut scanned: usize = 0;
    while i < to
        invariant
            from <= i <= to <= files@.len(),
            index is Some ==> index->0.wf(),
            scope == files@.subrange(from as int, to as int),
            scope == in_scope(files@, opt_path(path_filter)),
            names.wf(),
            scanned <= cap,
            scanned == calls_scanned(index, scope, name@, i - from),
            forall|k: Seq<char>| #[trigger]
                names.has(k) == callee_upto(index, scope, name@, k, i - from),
        decreases to - i,
    {
        let f = &files[i];
        assert(*f == scope[i - from]);
        let ghost was = names;
        let ghost calls_model = index_calls(index, f.path@);
        proof {
            lemma_callee_step(index, scope, name@, i - from);
        }
        if has_definition(f, name) {
            let none: &[CallRef] = &[];
            let calls = match index {
                Some(x) => x.calls_in_file(&f.path),
                None => none,
            };
            assert(calls@ =~= calls_model);
            if calls.len() > cap - scanned {
                proof {
                    lemma_scanned_monotone(
                        index,
                        scope,
                        name@,
                        i - from + 1,
                        scope.len() as int,
                    );
                }
                return None;
            }
            scanned += calls.len();
            gather_callees(&mut names, f, calls, name);
            assert forall|k: Seq<char>| #[trigger]
                names.has(k) == callee_upto(index, scope, name@, k, i - from + 1) by {
                assert(was.has(k) == callee_upto(index, scope, name@, k, i - from));
            }
        } else {
            proof {
                lemma_undefined_has_no_callees(*f, calls_model, name@);
                assert forall|k: Seq<char>| #[trigger]
                    names.has(k) == callee_upto(index, scope, name@, k, i - from + 1) by {
                    assert(was.has(k) == callee_upto(index, scope, name@, k, i - from));
                }
            }
        }
        i += 1;
    }
    let mut list: Vec<Neighbour> = Vec::new();
    let mut j: usize = 0;
    while j < names.list.len()
        invariant
            j <= names.list@.len(),
            sites.wf(),
            forall|k: Seq<char>| #[trigger] sites.listed(k) == definition_sites(files@, k, None),
            list@.len() == j,
            forall|k: int|
                0 <= k < j ==> (#[trigger] list@[k]).name@ == names.list@[k]@ && sites_at(
                    list@[k].sites@,
                ) == definition_sites(files@, names.list@[k]@, None),
        decreases names.list.len() - j,
    {
        let n = &names.list[j];
        list.push(Neighbour { name: n.clone(), sites: sites.get(n.as_str()) });
        j += 1;
    }
    proof {
        let m = callees_of_name(index, files@, name@, opt_path(path_filter), cap as int)->0;
        assert forall|k: int| 0 <= k < list@.len() implies entry_at(m, (#[trigger] list@[k]).name@)
            == Some(sites_at(list@[k].sites@)) by {
            assert(names.has(names.list@[k]@));
        }
        assert forall|k: Seq<char>| #[trigger] m.contains_key(k) implies exists|i: int|
            0 <= i < list@.len() && (#[trigger] list@[i]).name@ == k by {
            assert(names.has(k));
            let i = choose|i: int| 0 <= i < names.list@.len() && (#[trigger] names.list@[i])@ == k;
            assert(list@[i].name@ == k);
        }
        assert forall|i: int, j: int| 0 <= i < j < list@.len() implies (#[trigger] list@[i]).name@
            != (#[trigger] list@[j]).name@ by {
            assert(names.list@[i]@ != names.list@[j]@);
        }
    }
    Some(list)
}

// ─── Laws ────────────────────────────────────────────────────────────────────

/// The symbol is a function, a method, a constructor, a getter or a setter.
pub open spec fn callable(sym: Symbol) -> bool {
    match sym.kind {
        SymbolKind::Function => true,
        SymbolKind::Method => true,
        SymbolKind::Constructor => true,
        SymbolKind::Getter => true,
        SymbolKind::Setter => true,
        _ => false,
    }
}

/// Symbol `s` is the innermost callable one around byte `at`: the byte lies in it, and every other
/// callable symbol in which the byte lies is longer, or as long and further on in the list.
pub open spec fn innermost(symbols: Seq<Symbol>, at: u32, s: int) -> bool {
    &&& 0 <= s < symbols.len()
    &&& callable(symbols[s])
    &&& symbols[s].start_byte <= at
    &&& at < symbols[s].end_byte
    &&& symbols[s].end_byte - symbols[s].start_byte < u32::MAX
    &&& forall|j: int|
        0 <= j < symbols.len() && j != s && callable(#[trigger] symbols[j]) && symbols[j].start_byte <= at
            && at < symbols[j].end_byte ==> {
            let ours = symbols[s].end_byte - symbols[s].start_byte;
            let theirs = symbols[j].end_byte - symbols[j].start_byte;
            ours < theirs || (ours == theirs && s < j)
        }
}

pub(crate) proof fn lemma_innermost(symbols: Seq<Symbol>, at: u32, s: int)
    ensures
        innermost(symbols, at, s) <==> is_tightest(symbols, at, s),
{
    if innermost(symbols, at, s) {
        assert forall|j: int|
            0 <= j < symbols.len() && covers(#[trigger] symbols[j], at) implies span(symbols[s])
            < span(symbols[j]) || (span(symbols[s]) == span(symbols[j]) && s <= j) by {
            assert(callable(symbols[j]));
        }
    }
    if is_tightest(symbols, at, s) {
        assert forall|j: int|
            0 <= j < symbols.len() && j != s && callable(#[trigger] symbols[j])
                && symbols[j].start_byte <= at && at < symbols[j].end_byte implies {
            let ours = symbols[s].end_byte - symbols[s].start_byte;
            let theirs = symbols[j].end_byte - symbols[j].start_byte;
            ours < theirs || (ours == theirs && s < j)
        } by {
            assert(covers(symbols[j], at));
        }
    }
}

pub(crate) proof fn lemma_record_kept(
    files: Seq<MappedFile>,
    rows: Seq<CallRow>,
    name: Seq<char>,
    n: int,
    r: int,
) -> (k: int)
    requires
        0 <= r < n <= rows.len(),
        rows[r].callee == name,
        caller_at(files, rows[r].rel, rows[r].start) is Some,
    ensures
        0 <= k < callers_upto(files, rows, name, n).len(),
        ({
            let c = caller_at(files, rows[r].rel, rows[r].start)->0;
            let d = callers_upto(files, rows, name, n)[k];
            d.site.path == c.site.path && d.site.row == c.site.row && d.site.col == c.site.col
        }),
    decreases n,
{
    let c = caller_at(files, rows[r].rel, rows[r].start)->0;
    let front = callers_upto(files, rows, name, n - 1);
    if r < n - 1 {
        lemma_record_kept(files, rows, name, n - 1, r)
    } else if place_seen(front, c.site) {
        choose|i: int| 0 <= i < front.len() && same_place((#[trigger] front[i]).site, c.site)
    } else {
        front.len() as int
    }
}

pub(crate) proof fn lemma_record_source(
    files: Seq<MappedFile>,
    rows: Seq<CallRow>,
    name: Seq<char>,
    n: int,
    k: int,
) -> (r: int)
    requires
        0 <= n <= rows.len(),
        0 <= k < callers_upto(files, rows, name, n).len(),
    ensures
        0 <= r < n,
        rows[r].callee == name,
        caller_at(files, rows[r].rel, rows[r].start) == Some(callers_upto(files, rows, name, n)[k]),
    decreases n,
{
    let front = callers_upto(files, rows, name, n - 1);
    if k < front.len() {
        lemma_record_source(files, rows, name, n - 1, k)
    } else {
        n - 1
    }
}

proof fn lemma_site_kept(records: Seq<CallerRecord>, k: int) -> (j: int)
    requires
        0 <= k < records.len(),
    ensures
        0 <= j < sites_named(records, records[k].name).len(),
        sites_named(records, records[k].name)[j] == records[k].site,
    decreases records.len(),
{
    if k == records.len() - 1 {
        sites_named(records.drop_last(), records[k].name).len() as int
    } else {
        lemma_site_kept(records.drop_last(), k)
    }
}

proof fn lemma_site_source(records: Seq<CallerRecord>, name: Seq<char>, j: int) -> (k: int)
    requires
        0 <= j < sites_named(records, name).len(),
    ensures
        0 <= k < records.len(),
        records[k].name == name,
        records[k].site == sites_named(records, name)[j],
    decreases records.len(),
{
    let front = sites_named(records.drop_last(), name);
    if j < front.len() {
        lemma_site_source(records.drop_last(), name, j)
    } else {
        records.len() - 1
    }
}

/// No caller is missing. Let row `r` be a call of `name` in file `f`, and `s` the innermost callable
/// symbol around it. Then a caller is listed with a definition site in that file, at the row and
/// column at which the symbol starts. Its name is that of the symbol, unless another callable symbol of
/// another name starts at the very same place.
pub proof fn law_every_caller_is_listed(
    files: Seq<MappedFile>,
    rows: Seq<CallRow>,
    name: Seq<char>,
    cap: int,
    list: Seq<Neighbour>,
    r: int,
    f: int,
    s: int,
) -> (at: (int, int))
    requires
        paths_ascend(files),
        callers_of_name(files, rows, name, cap) is Some,
        lists(list, callers_of_name(files, rows, name, cap)->0),
        0 <= r < rows.len(),
        rows[r].callee == name,
        0 <= f < files.len(),
        files[f].path@ == rows[r].rel,
        innermost(files[f].map.symbols@, rows[r].start, s),
    ensures
        0 <= at.0 < list.len(),
        0 <= at.1 < list[at.0].sites@.len(),
        list[at.0].sites@[at.1].path@ == files[f].path@,
        list[at.0].sites@[at.1].start_row == files[f].map.symbols@[s].start_row,
        list[at.0].sites@[at.1].start_col == files[f].map.symbols@[s].start_col,
        (forall|j: int|
            0 <= j < files[f].map.symbols@.len() && callable(#[trigger] files[f].map.symbols@[j])
                && files[f].map.symbols@[j].start_row == files[f].map.symbols@[s].start_row
                && files[f].map.symbols@[j].start_col == files[f].map.symbols@[s].start_col
                ==> files[f].map.symbols@[j].name@ == files[f].map.symbols@[s].name@)
            ==> list[at.0].name@ == files[f].map.symbols@[s].name@,
{
    let symbols = files[f].map.symbols@;
    let n = rows.len() as int;
    let records = callers_upto(files, rows, name, n);
    lemma_innermost(symbols, rows[r].start, s);
    lemma_tightest_unique(symbols, rows[r].start, s);
    assert(holds_path(files, rows[r].rel));
    assert(path_index(files, rows[r].rel) == f) by {
        lemma_table_at(files, f);
    }
    let k = lemma_record_kept(files, rows, name, n, r);
    let q = lemma_record_source(files, rows, name, n, k);
    assert(rows[q].rel == rows[r].rel);
    let t = enclosing(symbols, rows[q].start)->0;
    assert(is_tightest(symbols, rows[q].start, t));
    assert(callable(symbols[t]));
    let j = lemma_site_kept(records, k);
    let m = grouped(records);
    assert(name_recorded(records, records[k].name));
    assert(m.contains_key(records[k].name));
    let i = choose|i: int| 0 <= i < list.len() && (#[trigger] list[i]).name@ == records[k].name;
    assert(entry_at(m, list[i].name@) == Some(sites_at(list[i].sites@)));
    assert(sites_at(list[i].sites@)[j] == list[i].sites@[j]@);
    (i, j)
}

/// No caller is made up. Each site under a listed name is the start of a callable symbol of that name,
/// and the symbol is the innermost one around some call of `name`. The result gives the call's row,
/// the file and the symbol.
pub proof fn law_every_listed_caller_calls(
    files: Seq<MappedFile>,
    rows: Seq<CallRow>,
    name: Seq<char>,
    cap: int,
    list: Seq<Neighbour>,
    i: int,
    j: int,
) -> (at: (int, int, int))
    requires
        paths_ascend(files),
        callers_of_name(files, rows, name, cap) is Some,
        lists(list, callers_of_name(files, rows, name, cap)->0),
        0 <= i < list.len(),
        0 <= j < list[i].sites@.len(),
    ensures
        0 <= at.0 < rows.len(),
        rows[at.0].callee == name,
        0 <= at.1 < files.len(),
        files[at.1].path@ == rows[at.0].rel,
        innermost(files[at.1].map.symbols@, rows[at.0].start, at.2),
        list[i].name@ == files[at.1].map.symbols@[at.2].name@,
        list[i].sites@[j].path@ == files[at.1].path@,
        list[i].sites@[j].start_row == files[at.1].map.symbols@[at.2].start_row,
        list[i].sites@[j].start_col == files[at.1].map.symbols@[at.2].start_col,
        list[i].sites@[j].kind@ == kind_name(files[at.1].map.symbols@[at.2].kind),
{
    let n = rows.len() as int;
    let records = callers_upto(files, rows, name, n);
    let m = grouped(records);
    assert(entry_at(m, list[i].name@) == Some(sites_at(list[i].sites@)));
    assert(sites_at(list[i].sites@)[j] == list[i].sites@[j]@);
    let k = lemma_site_source(records, list[i].name@, j);
    let r = lemma_record_source(files, rows, name, n, k);
    let f = path_index(files, rows[r].rel);
    let symbols = files[f].map.symbols@;
    let s = enclosing(symbols, rows[r].start)->0;
    assert(is_tightest(symbols, rows[r].start, s));
    lemma_innermost(symbols, rows[r].start, s);
    (r, f, s)
}

/// Every listed caller has a site.
pub proof fn law_listed_callers_have_sites(
    files: Seq<MappedFile>,
    rows: Seq<CallRow>,
    name: Seq<char>,
    cap: int,
    list: Seq<Neighbour>,
    i: int,
)
    requires
        callers_of_name(files, rows, name, cap) is Some,
        lists(list, callers_of_name(files, rows, name, cap)->0),
        0 <= i < list.len(),
    ensures
        list[i].sites@.len() > 0,
{
    let records = callers_upto(files, rows, name, rows.len() as int);
    let m = grouped(records);
    assert(entry_at(m, list[i].name@) == Some(sites_at(list[i].sites@)));
    assert(name_recorded(records, list[i].name@));
    let k = choose|k: int| 0 <= k < records.len() && (#[trigger] records[k]).name == list[i].name@;
    let j = lemma_site_kept(records, k);
}

/// A search for callers is given up exactly when more rows than `cap` call the name.
pub proof fn law_the_cap_counts_calls(
    files: Seq<MappedFile>,
    rows: Seq<CallRow>,
    name: Seq<char>,
    cap: int,
)
    ensures
        callers_of_name(files, rows, name, cap) is None <==> rows.filter(
            |r: CallRow| r.callee == name,
        ).len() > cap,
{
    lemma_calls_filtered(rows, name, rows.len() as int);
    assert(rows.take(rows.len() as int) =~= rows);
}

proof fn lemma_calls_filtered(rows: Seq<CallRow>, name: Seq<char>, n: int)
    requires
        0 <= n <= rows.len(),
    ensures
        calls_to(rows, name, n) == rows.take(n).filter(|r: CallRow| r.callee == name).len(),
    decreases n,
{
    reveal(Seq::filter);
    if n > 0 {
        lemma_calls_filtered(rows, name, n - 1);
        assert(rows.take(n).drop_last() =~= rows.take(n - 1));
    }
}

proof fn lemma_file_site_kept(path: Seq<u8>, symbols: Seq<Symbol>, name: Seq<char>, n: int, s: int) -> (k:
    int)
    requires
        0 <= s < n <= symbols.len(),
        symbols[s].name@ == name,
        callable(symbols[s]),
    ensures
        0 <= k < file_sites(path, symbols, name, n).len(),
        file_sites(path, symbols, name, n)[k] == site_of(path, symbols[s]),
    decreases n,
{
    if s == n - 1 {
        file_sites(path, symbols, name, n - 1).len() as int
    } else {
        lemma_file_site_kept(path, symbols, name, n - 1, s)
    }
}

proof fn lemma_file_site_source(path: Seq<u8>, symbols: Seq<Symbol>, name: Seq<char>, n: int, k: int) -> (s:
    int)
    requires
        0 <= n <= symbols.len(),
        0 <= k < file_sites(path, symbols, name, n).len(),
    ensures
        0 <= s < n,
        symbols[s].name@ == name,
        callable(symbols[s]),
        file_sites(path, symbols, name, n)[k] == site_of(path, symbols[s]),
    decreases n,
{
    if k < file_sites(path, symbols, name, n - 1).len() {
        lemma_file_site_source(path, symbols, name, n - 1, k)
    } else {
        n - 1
    }
}

proof fn lemma_site_upto_kept(files: Seq<MappedFile>, name: Seq<char>, n: int, f: int, s: int) -> (k: int)
    requires
        0 <= f < n <= files.len(),
        0 <= s < files[f].map.symbols@.len(),
        files[f].map.symbols@[s].name@ == name,
        callable(files[f].map.symbols@[s]),
    ensures
        0 <= k < sites_upto(files, name, n).len(),
        sites_upto(files, name, n)[k] == site_of(files[f].path@, files[f].map.symbols@[s]),
    decreases n,
{
    if f == n - 1 {
        let symbols = files[f].map.symbols@;
        sites_upto(files, name, n - 1).len() + lemma_file_site_kept(
            files[f].path@,
            symbols,
            name,
            symbols.len() as int,
            s,
        )
    } else {
        lemma_site_upto_kept(files, name, n - 1, f, s)
    }
}

proof fn lemma_site_upto_source(files: Seq<MappedFile>, name: Seq<char>, n: int, k: int) -> (at: (int, int))
    requires
        0 <= n <= files.len(),
        0 <= k < sites_upto(files, name, n).len(),
    ensures
        0 <= at.0 < n,
        0 <= at.1 < files[at.0].map.symbols@.len(),
        files[at.0].map.symbols@[at.1].name@ == name,
        callable(files[at.0].map.symbols@[at.1]),
        sites_upto(files, name, n)[k] == site_of(files[at.0].path@, files[at.0].map.symbols@[at.1]),
    decreases n,
{
    let front = sites_upto(files, name, n - 1);
    if k < front.len() {
        lemma_site_upto_source(files, name, n - 1, k)
    } else {
        let symbols = files[n - 1].map.symbols@;
        (
            n - 1,
            lemma_file_site_source(
                files[n - 1].path@,
                symbols,
                name,
                symbols.len() as int,
                k - front.len(),
            ),
        )
    }
}

/// Every callable symbol of a name, in the file asked about or in any file, is among the name's
/// definition sites.
pub proof fn law_every_definition_is_a_site(
    files: Seq<MappedFile>,
    name: Seq<char>,
    path: Option<Seq<u8>>,
    sites: Seq<CallGraphSite>,
    f: int,
    s: int,
) -> (k: int)
    requires
        paths_ascend(files),
        sites_at(sites) == definition_sites(files, name, path),
        0 <= f < files.len(),
        path is Some ==> files[f].path@ == path->0,
        0 <= s < files[f].map.symbols@.len(),
        files[f].map.symbols@[s].name@ == name,
        callable(files[f].map.symbols@[s]),
    ensures
        0 <= k < sites.len(),
        sites[k].path@ == files[f].path@,
        sites[k].kind@ == kind_name(files[f].map.symbols@[s].kind),
        sites[k].start_row == files[f].map.symbols@[s].start_row,
        sites[k].start_col == files[f].map.symbols@[s].start_col,
{
    let symbols = files[f].map.symbols@;
    let k = match path {
        Some(p) => {
            assert(holds_path(files, p));
            lemma_table_at(files, f);
            lemma_file_site_kept(files[f].path@, symbols, name, symbols.len() as int, s)
        },
        None => lemma_site_upto_kept(files, name, files.len() as int, f, s),
    };
    assert(sites_at(sites)[k] == sites[k]@);
    k
}

/// Every definition site of a name is the start of a callable symbol of that name, in the file asked
/// about where one is. The result gives the file and the symbol.
pub proof fn law_every_site_is_a_definition(
    files: Seq<MappedFile>,
    name: Seq<char>,
    path: Option<Seq<u8>>,
    sites: Seq<CallGraphSite>,
    k: int,
) -> (at: (int, int))
    requires
        paths_ascend(files),
        sites_at(sites) == definition_sites(files, name, path),
        0 <= k < sites.len(),
    ensures
        0 <= at.0 < files.len(),
        path is Some ==> files[at.0].path@ == path->0,
        0 <= at.1 < files[at.0].map.symbols@.len(),
        files[at.0].map.symbols@[at.1].name@ == name,
        callable(files[at.0].map.symbols@[at.1]),
        sites[k].path@ == files[at.0].path@,
        sites[k].kind@ == kind_name(files[at.0].map.symbols@[at.1].kind),
        sites[k].start_row == files[at.0].map.symbols@[at.1].start_row,
        sites[k].start_col == files[at.0].map.symbols@[at.1].start_col,
{
    assert(sites_at(sites)[k] == sites[k]@);
    match path {
        Some(p) => {
            assert(sites_at(sites).len() > 0);
            assert(holds_path(files, p));
            let f = path_index(files, p);
            let symbols = files[f].map.symbols@;
            (f, lemma_file_site_source(files[f].path@, symbols, name, symbols.len() as int, k))
        },
        None => lemma_site_upto_source(files, name, files.len() as int, k),
    }
}

/// No callee is missing: a call in file `f` of the scope that lies in a callable symbol called `name`
/// makes the name that it calls one of the callees.
pub proof fn law_every_callee_is_listed(
    index: Option<&InRamCallIndex>,
    files: Seq<MappedFile>,
    name: Seq<char>,
    path: Option<Seq<u8>>,
    cap: int,
    list: Seq<Neighbour>,
    f: int,
    s: int,
    c: int,
) -> (i: int)
    requires
        paths_ascend(files),
        callees_of_name(index, files, name, path, cap) is Some,
        lists(list, callees_of_name(index, files, name, path, cap)->0),
        index is Some,
        0 <= f < files.len(),
        path is Some ==> files[f].path@ == path->0,
        0 <= s < files[f].map.symbols@.len(),
        files[f].map.symbols@[s].name@ == name,
        callable(files[f].map.symbols@[s]),
        0 <= c < index->0.calls_of(files[f].path@).len(),
        files[f].map.symbols@[s].start_byte <= index->0.calls_of(files[f].path@)[c].start_byte,
        index->0.calls_of(files[f].path@)[c].start_byte < files[f].map.symbols@[s].end_byte,
    ensures
        0 <= i < list.len(),
        list[i].name@ == index->0.calls_of(files[f].path@)[c].callee@,
        sites_at(list[i].sites@) == definition_sites(files, list[i].name@, None),
{
    let calls = index->0.calls_of(files[f].path@);
    let callee = calls[c].callee@;
    let scope = in_scope(files, path);
    let at = match path {
        Some(p) => {
            assert(holds_path(files, p));
            lemma_table_at(files, f);
            0int
        },
        None => f,
    };
    assert(scope[at] == files[f]);
    assert(defines(files[f].map.symbols@[s], name));
    assert(inside(files[f].map.symbols@, name, calls[c].start_byte));
    assert(callee_in(files[f], calls, name, callee, calls.len() as int));
    assert(index_calls(index, scope[at].path@) == calls);
    assert(callee_upto(index, scope, name, callee, scope.len() as int));
    let m = callees_of_name(index, files, name, path, cap)->0;
    assert(m.contains_key(callee));
    let i = choose|i: int| 0 <= i < list.len() && (#[trigger] list[i]).name@ == callee;
    assert(entry_at(m, list[i].name@) == Some(sites_at(list[i].sites@)));
    i
}

/// No callee is made up: each is called from within a callable symbol called `name`, in a file of the
/// scope. The result gives the file, the symbol and the call.
pub proof fn law_every_listed_callee_is_called(
    index: Option<&InRamCallIndex>,
    files: Seq<MappedFile>,
    name: Seq<char>,
    path: Option<Seq<u8>>,
    cap: int,
    list: Seq<Neighbour>,
    i: int,
) -> (at: (int, int, int))
    requires
        paths_ascend(files),
        callees_of_name(index, files, name, path, cap) is Some,
        lists(list, callees_of_name(index, files, name, path, cap)->0),
        0 <= i < list.len(),
    ensures
        index is Some,
        0 <= at.0 < files.len(),
        path is Some ==> files[at.0].path@ == path->0,
        0 <= at.1 < files[at.0].map.symbols@.len(),
        files[at.0].map.symbols@[at.1].name@ == name,
        callable(files[at.0].map.symbols@[at.1]),
        ({
            let calls = index->0.calls_of(files[at.0].path@);
            &&& 0 <= at.2 < calls.len()
            &&& calls[at.2].callee@ == list[i].name@
            &&& files[at.0].map.symbols@[at.1].start_byte <= calls[at.2].start_byte
            &&& calls[at.2].start_byte < files[at.0].map.symbols@[at.1].end_byte
        }),
{
    let callee = list[i].name@;
    let scope = in_scope(files, path);
    let m = callees_of_name(index, files, name, path, cap)->0;
    assert(entry_at(m, callee) == Some(sites_at(list[i].sites@)));
    assert(m.contains_key(callee));
    assert(callee_upto(index, scope, name, callee, scope.len() as int));
    let at = choose|at: int|
        0 <= at < scope.len() && callee_in(
            #[trigger] scope[at],
            index_calls(index, scope[at].path@),
            name,
            callee,
            index_calls(index, scope[at].path@).len() as int,
        );
    let f = match path {
        Some(p) => path_index(files, p),
        None => at,
    };
    assert(scope[at] == files[f]);
    let calls = index_calls(index, files[f].path@);
    let symbols = files[f].map.symbols@;
    assert(callee_in(files[f], calls, name, callee, calls.len() as int));
    let c = choose|c: int|
        0 <= c < calls.len() && (#[trigger] calls[c]).callee@ == callee && inside(
            symbols,
            name,
            calls[c].start_byte,
        );
    let s = choose|s: int|
        0 <= s < symbols.len() && defines(#[trigger] symbols[s], name) && symbols[s].start_byte
            <= calls[c].start_byte < symbols[s].end_byte;
    (f, s, c)
}

/// Whatever `collect_callers` gives back: where two calls of the name lie in one file, and the innermost callable symbols
/// around them start at different rows or columns, both symbols are listed, each at its own place and, where no
/// other name starts there, under its own name.
pub proof fn law_collect_callers(
    index: &InRamCallIndex,
    files: &Vec<MappedFile>,
    name: &str,
    cap: usize,
    r: Option<Vec<Neighbour>>,
    first: int,
    second: int,
    f: int,
    s: int,
    t: int,
) -> (at: ((int, int), (int, int)))
    requires
        paths_ascend(files@),
        call_ensures(collect_callers, (Some(index), files, name, cap), r),
        r is Some,
        0 <= first < index.rows().len(),
        0 <= second < index.rows().len(),
        index.rows()[first].callee == name@,
        index.rows()[second].callee == name@,
        0 <= f < files@.len(),
        files@[f].path@ == index.rows()[first].rel,
        files@[f].path@ == index.rows()[second].rel,
        innermost(files@[f].map.symbols@, index.rows()[first].start, s),
        innermost(files@[f].map.symbols@, index.rows()[second].start, t),
        files@[f].map.symbols@[s].start_row != files@[f].map.symbols@[t].start_row
            || files@[f].map.symbols@[s].start_col != files@[f].map.symbols@[t].start_col,
    ensures
        ({
            let list = r->0@;
            let symbols = files@[f].map.symbols@;
            let (a, b) = at;
            &&& 0 <= a.0 < list.len()
            &&& 0 <= a.1 < list[a.0].sites@.len()
            &&& 0 <= b.0 < list.len()
            &&& 0 <= b.1 < list[b.0].sites@.len()
            &&& a != b
            &&& list[a.0].sites@[a.1].path@ == files@[f].path@
            &&& list[a.0].sites@[a.1].start_row == symbols[s].start_row
            &&& list[a.0].sites@[a.1].start_col == symbols[s].start_col
            &&& list[b.0].sites@[b.1].path@ == files@[f].path@
            &&& list[b.0].sites@[b.1].start_row == symbols[t].start_row
            &&& list[b.0].sites@[b.1].start_col == symbols[t].start_col
            &&& (forall|j: int|
                0 <= j < files@[f].map.symbols@.len() && callable(
                    #[trigger] files@[f].map.symbols@[j],
                ) && files@[f].map.symbols@[j].start_row == files@[f].map.symbols@[s].start_row
                    && files@[f].map.symbols@[j].start_col == files@[f].map.symbols@[s].start_col
                    ==> files@[f].map.symbols@[j].name@ == files@[f].map.symbols@[s].name@)
                ==> list[a.0].name@ == symbols[s].name@
        }),
{
    let rows = index.rows();
    let a = law_every_caller_is_listed(files@, rows, name@, cap as int, r->0@, first, f, s);
    let b = law_every_caller_is_listed(files@, rows, name@, cap as int, r->0@, second, f, t);
    (a, b)
}

} // verus!
