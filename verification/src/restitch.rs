//! Joining again after a change: which importers are affected, and what their join needs.
use vstd::prelude::*;

use crate::resolution::{copy_exports, copy_imports, export_facts, import_facts, ExportEdge};
use crate::stitch::{
    edges_from, export_start, exported_at, file_at, file_edges, has_file, key_set, name_table,
    wanted_name, StitchFile,
};
use crate::tables::{names_get, names_held, names_insert, names_new};
use crate::text::{copy_opt, opt_text, texts};

verus! {

/// An indexed file.
#[derive(Debug)]
pub struct CandidateFile {
    pub file: StitchFile,
    /// Whether its language has a resolver of module specifiers.
    pub resolvable: bool,
}

/// Every import has a target slot, and no two files have the same key.
pub open spec fn candidates_wf(c: Seq<CandidateFile>) -> bool {
    &&& forall|i: int|
        0 <= i < c.len() ==> (#[trigger] c[i]).file.targets@.len() == c[i].file.imports@.len()
    &&& forall|i: int, j: int|
        0 <= i < j < c.len() ==> (#[trigger] c[i]).file.key@ != (#[trigger] c[j]).file.key@
    &&& c.len() <= u32::MAX
}

/// Whether a file has facts that take part in joining.
pub open spec fn is_entry(f: CandidateFile) -> bool {
    f.resolvable && (f.file.imports@.len() > 0 || f.file.exports@.len() > 0)
}

/// Whether file `i` is among the changed ones.
pub open spec fn moved(c: Seq<CandidateFile>, changed: Set<Seq<char>>, i: int) -> bool {
    c[i].resolvable && changed.contains(c[i].file.key@)
}

/// Whether import `j` of a file is one at run time that means the file with this key.
pub open spec fn means(f: StitchFile, j: int, key: Seq<char>) -> bool {
    !f.imports@[j].is_type && opt_text(f.targets@[j]) == Some(key)
}

/// Whether a file imports file `m` at run time.
pub open spec fn imports_file(c: Seq<CandidateFile>, i: int, m: int) -> bool {
    exists|j: int|
        0 <= j < c[i].file.imports@.len() && #[trigger] means(c[i].file, j, c[m].file.key@)
}

/// Whether file `i` imports a changed file.
pub open spec fn touched(c: Seq<CandidateFile>, changed: Set<Seq<char>>, i: int) -> bool {
    is_entry(c[i]) && exists|m: int|
        0 <= m < c.len() && moved(c, changed, m) && #[trigger] imports_file(c, i, m)
}

/// Whether the join of file `i` could have changed: it changed itself, or imports a file that did.
pub open spec fn affected(c: Seq<CandidateFile>, changed: Set<Seq<char>>, i: int) -> bool {
    moved(c, changed, i) || touched(c, changed, i)
}

/// Whether an affected file imports file `i`.
pub open spec fn supplies(c: Seq<CandidateFile>, changed: Set<Seq<char>>, i: int) -> bool {
    exists|a: int|
        0 <= a < c.len() && is_entry(c[a]) && affected(c, changed, a) && #[trigger] imports_file(
            c,
            a,
            i,
        )
}

/// Whether file `i` takes part in joining again.
pub open spec fn takes_part(c: Seq<CandidateFile>, changed: Set<Seq<char>>, i: int) -> bool {
    is_entry(c[i]) && (affected(c, changed, i) || supplies(c, changed, i))
}

/// The first `n` files that take part, by position.
pub open spec fn parts_upto(c: Seq<CandidateFile>, changed: Set<Seq<char>>, n: int) -> Seq<int>
    decreases n,
{
    if n <= 0 {
        Seq::empty()
    } else if takes_part(c, changed, n - 1) {
        parts_upto(c, changed, n - 1).push(n - 1)
    } else {
        parts_upto(c, changed, n - 1)
    }
}

/// The keys of the first `n` files that are affected though they did not change.
pub open spec fn restaged_upto(c: Seq<CandidateFile>, changed: Set<Seq<char>>, n: int) -> Seq<
    Seq<char>,
>
    decreases n,
{
    if n <= 0 {
        Seq::empty()
    } else if affected(c, changed, n - 1) && !moved(c, changed, n - 1) {
        restaged_upto(c, changed, n - 1).push(c[n - 1].file.key@)
    } else {
        restaged_upto(c, changed, n - 1)
    }
}

/// `p` stands for file `f` in a join: whole where `full`, else only for what it exports.
pub open spec fn is_part(p: StitchFile, f: StitchFile, full: bool) -> bool {
    &&& p.key@ == f.key@
    &&& export_facts(p.exports@) == export_facts(f.exports@)
    &&& p.targets@.len() == p.imports@.len()
    &&& if full {
        import_facts(p.imports@) == import_facts(f.imports@) && forall|j: int|
            0 <= j < p.targets@.len() ==> opt_text(#[trigger] p.targets@[j]) == opt_text(
                f.targets@[j],
            )
    } else {
        p.imports@.len() == 0
    }
}

/// What is to be done after a change.
#[derive(Debug)]
pub struct RestitchPlan {
    /// Files that did not change, but whose own edges are cleared before they are joined again.
    pub restage: Vec<String>,
    /// The files to join.
    pub stitch: Vec<StitchFile>,
}

/// `plan` joins the affected files again, and has of every other file that they import what it
/// exports.
pub open spec fn is_plan(plan: RestitchPlan, c: Seq<CandidateFile>, changed: Set<Seq<char>>) -> bool {
    let parts = parts_upto(c, changed, c.len() as int);
    &&& texts(plan.restage@) == restaged_upto(c, changed, c.len() as int)
    &&& plan.stitch@.len() == parts.len()
    &&& forall|k: int|
        0 <= k < plan.stitch@.len() ==> is_part(
            #[trigger] plan.stitch@[k],
            c[parts[k]].file,
            affected(c, changed, parts[k]),
        )
}

// ─── Tables ──────────────────────────────────────────────────────────────────

/// `t` has the position of each file under its key.
pub open spec fn is_position_table(t: Map<Seq<char>, u32>, c: Seq<CandidateFile>) -> bool {
    &&& forall|k: Seq<char>| #[trigger]
        t.contains_key(k) ==> t[k] < c.len() && c[t[k] as int].file.key@ == k
    &&& forall|i: int| 0 <= i < c.len() ==> t.contains_key((#[trigger] c[i]).file.key@)
}

fn position_table(c: &Vec<CandidateFile>) -> (t: ahash::AHashMap<String, u32>)
    requires
        candidates_wf(c@),
    ensures
        is_position_table(names_held(t), c@),
{
    let mut t = names_new();
    let mut i: usize = 0;
    while i < c.len()
        invariant
            candidates_wf(c@),
            i <= c@.len(),
            forall|k: Seq<char>| #[trigger]
                names_held(t).contains_key(k) ==> names_held(t)[k] < i
                    && c@[names_held(t)[k] as int].file.key@ == k,
            forall|j: int|
                0 <= j < i ==> names_held(t).contains_key((#[trigger] c@[j]).file.key@),
        decreases c@.len() - i,
    {
        names_insert(&mut t, c[i].file.key.clone(), i as u32);
        i += 1;
    }
    t
}

proof fn lemma_position(t: Map<Seq<char>, u32>, c: Seq<CandidateFile>, key: Seq<char>, m: int)
    requires
        candidates_wf(c),
        is_position_table(t, c),
        0 <= m < c.len(),
        c[m].file.key@ == key,
    ensures
        t.contains_key(key),
        t[key] == m,
{
    let a = t[key] as int;
    if a < m {
        assert(c[a].file.key@ != c[m].file.key@);
    } else if m < a {
        assert(c[m].file.key@ != c[a].file.key@);
    }
}

fn moved_flags(c: &Vec<CandidateFile>, changed: &Vec<String>) -> (flags: Vec<bool>)
    ensures
        flags@.len() == c@.len(),
        forall|i: int|
            0 <= i < c@.len() ==> #[trigger] flags@[i] == moved(c@, key_set(changed@), i),
{
    let set = name_table(changed);
    let mut flags: Vec<bool> = Vec::new();
    let mut i: usize = 0;
    while i < c.len()
        invariant
            i <= c@.len(),
            flags@.len() == i,
            forall|k: Seq<char>| #[trigger]
                names_held(set).contains_key(k) <==> key_set(changed@).contains(k),
            forall|j: int|
                0 <= j < i ==> #[trigger] flags@[j] == moved(c@, key_set(changed@), j),
        decreases c@.len() - i,
    {
        let key = &c[i].file.key;
        let listed: bool = names_get(&set, key.as_str()).is_some();
        assert(listed == names_held(set).contains_key(key@));
        flags.push(c[i].resolvable && listed);
        i += 1;
    }
    flags
}

/// Whether the import means a file, and which.
fn target_of(
    c: &Vec<CandidateFile>,
    table: &ahash::AHashMap<String, u32>,
    f: &StitchFile,
    j: usize,
) -> (m: Option<usize>)
    requires
        candidates_wf(c@),
        is_position_table(names_held(*table), c@),
        j < f.imports@.len(),
        f.targets@.len() == f.imports@.len(),
    ensures
        match m {
            Some(x) => x < c@.len() && forall|k: int|
                0 <= k < c@.len() ==> (means(*f, j as int, (#[trigger] c@[k]).file.key@) <==> k == x),
            None => forall|k: int|
                0 <= k < c@.len() ==> !means(*f, j as int, (#[trigger] c@[k]).file.key@),
        },
{
    if f.imports[j].is_type {
        return None;
    }
    match &f.targets[j] {
        Some(key) => {
            let at = names_get(table, key.as_str());
            proof {
                assert forall|k: int| 0 <= k < c@.len() && (#[trigger] c@[k]).file.key@
                    == key@ implies at == Some(k as u32) by {
                    lemma_position(names_held(*table), c@, key@, k);
                }
            }
            match at {
                Some(m) => {
                    assert(names_held(*table).contains_key(key@));
                    assert(c@[m as int].file.key@ == key@);
                    Some(m as usize)
                },
                None => None,
            }
        },
        None => None,
    }
}

fn entry(f: &CandidateFile) -> (yes: bool)
    ensures
        yes == is_entry(*f),
{
    f.resolvable && (f.file.imports.len() > 0 || f.file.exports.len() > 0)
}

fn is_touched(
    c: &Vec<CandidateFile>,
    table: &ahash::AHashMap<String, u32>,
    flags: &Vec<bool>,
    i: usize,
    Ghost(changed): Ghost<Set<Seq<char>>>,
) -> (yes: bool)
    requires
        candidates_wf(c@),
        is_position_table(names_held(*table), c@),
        i < c@.len(),
        flags@.len() == c@.len(),
        forall|k: int| 0 <= k < c@.len() ==> #[trigger] flags@[k] == moved(c@, changed, k),
    ensures
        yes == touched(c@, changed, i as int),
{
    if !entry(&c[i]) {
        return false;
    }
    let f = &c[i].file;
    let mut j: usize = 0;
    while j < f.imports.len()
        invariant
            candidates_wf(c@),
            is_position_table(names_held(*table), c@),
            i < c@.len(),
            *f == c@[i as int].file,
            is_entry(c@[i as int]),
            f.targets@.len() == f.imports@.len(),
            j <= f.imports@.len(),
            flags@.len() == c@.len(),
            forall|k: int| 0 <= k < c@.len() ==> #[trigger] flags@[k] == moved(c@, changed, k),
            forall|k: int, m: int|
                0 <= k < j && 0 <= m < c@.len() && #[trigger] means(*f, k, c@[m].file.key@)
                    ==> !moved(c@, changed, m),
        decreases f.imports@.len() - j,
    {
        match target_of(c, table, f, j) {
            Some(m) => {
                if flags[m] {
                    proof {
                        assert(means(*f, j as int, c@[m as int].file.key@));
                        assert(imports_file(c@, i as int, m as int));
                    }
                    return true;
                }
            },
            None => {},
        }
        j += 1;
    }
    proof {
        assert forall|m: int| 0 <= m < c@.len() && moved(c@, changed, m) implies !(
        #[trigger] imports_file(c@, i as int, m)) by {
            if imports_file(c@, i as int, m) {
                let k = choose|k: int|
                    0 <= k < c@[i as int].file.imports@.len() && #[trigger] means(
                        c@[i as int].file,
                        k,
                        c@[m].file.key@,
                    );
                assert(means(*f, k, c@[m].file.key@));
            }
        }
    }
    false
}

fn affected_flags(
    c: &Vec<CandidateFile>,
    table: &ahash::AHashMap<String, u32>,
    flags: &Vec<bool>,
    Ghost(changed): Ghost<Set<Seq<char>>>,
) -> (out: Vec<bool>)
    requires
        candidates_wf(c@),
        is_position_table(names_held(*table), c@),
        flags@.len() == c@.len(),
        forall|k: int| 0 <= k < c@.len() ==> #[trigger] flags@[k] == moved(c@, changed, k),
    ensures
        out@.len() == c@.len(),
        forall|k: int| 0 <= k < c@.len() ==> #[trigger] out@[k] == affected(c@, changed, k),
{
    let mut out: Vec<bool> = Vec::new();
    let mut i: usize = 0;
    while i < c.len()
        invariant
            candidates_wf(c@),
            is_position_table(names_held(*table), c@),
            flags@.len() == c@.len(),
            forall|k: int| 0 <= k < c@.len() ==> #[trigger] flags@[k] == moved(c@, changed, k),
            i <= c@.len(),
            out@.len() == i,
            forall|k: int| 0 <= k < i ==> #[trigger] out@[k] == affected(c@, changed, k),
        decreases c@.len() - i,
    {
        let yes: bool = flags[i] || is_touched(c, table, flags, i, Ghost(changed));
        out.push(yes);
        i += 1;
    }
    out
}

/// Whether one of the first `n` files is affected and imports file `i`.
spec fn supplied_upto(c: Seq<CandidateFile>, changed: Set<Seq<char>>, i: int, n: int) -> bool {
    exists|a: int|
        0 <= a < n && is_entry(c[a]) && affected(c, changed, a) && #[trigger] imports_file(c, a, i)
}

/// Whether one of the first `n` imports of file `a` means file `i`.
spec fn means_upto(c: Seq<CandidateFile>, a: int, i: int, n: int) -> bool {
    exists|j: int| 0 <= j < n && #[trigger] means(c[a].file, j, c[i].file.key@)
}

fn supply_flags(
    c: &Vec<CandidateFile>,
    table: &ahash::AHashMap<String, u32>,
    hit: &Vec<bool>,
    Ghost(changed): Ghost<Set<Seq<char>>>,
) -> (out: Vec<bool>)
    requires
        candidates_wf(c@),
        is_position_table(names_held(*table), c@),
        hit@.len() == c@.len(),
        forall|k: int| 0 <= k < c@.len() ==> #[trigger] hit@[k] == affected(c@, changed, k),
    ensures
        out@.len() == c@.len(),
        forall|k: int| 0 <= k < c@.len() ==> #[trigger] out@[k] == supplies(c@, changed, k),
{
    let mut out: Vec<bool> = Vec::new();
    let mut n: usize = 0;
    while n < c.len()
        invariant
            n <= c@.len(),
            out@.len() == n,
            forall|k: int| 0 <= k < n ==> !(#[trigger] out@[k]),
        decreases c@.len() - n,
    {
        out.push(false);
        n += 1;
    }
    let mut a: usize = 0;
    while a < c.len()
        invariant
            candidates_wf(c@),
            is_position_table(names_held(*table), c@),
            hit@.len() == c@.len(),
            forall|k: int| 0 <= k < c@.len() ==> #[trigger] hit@[k] == affected(c@, changed, k),
            a <= c@.len(),
            out@.len() == c@.len(),
            forall|k: int|
                0 <= k < c@.len() ==> #[trigger] out@[k] == supplied_upto(
                    c@,
                    changed,
                    k,
                    a as int,
                ),
        decreases c@.len() - a,
    {
        let ghost before = out@;
        if hit[a] && entry(&c[a]) {
            let f = &c[a].file;
            let mut j: usize = 0;
            while j < f.imports.len()
                invariant
                    candidates_wf(c@),
                    is_position_table(names_held(*table), c@),
                    a < c@.len(),
                    *f == c@[a as int].file,
                    f.targets@.len() == f.imports@.len(),
                    j <= f.imports@.len(),
                    out@.len() == c@.len(),
                    before.len() == c@.len(),
                    forall|k: int|
                        0 <= k < c@.len() ==> #[trigger] out@[k] == (before[k] || means_upto(
                            c@,
                            a as int,
                            k,
                            j as int,
                        )),
                decreases f.imports@.len() - j,
            {
                let ghost was = out@;
                let target = target_of(c, table, f, j);
                match target {
                    Some(m) => {
                        out[m] = true;
                    },
                    None => {},
                }
                proof {
                    assert forall|k: int| 0 <= k < c@.len() implies #[trigger] out@[k] == (before[k]
                        || means_upto(c@, a as int, k, j + 1)) by {
                        let old_one = means_upto(c@, a as int, k, j as int);
                        let new_one = means_upto(c@, a as int, k, j + 1);
                        assert(was[k] == (before[k] || old_one));
                        let here = means(c@[a as int].file, j as int, c@[k].file.key@);
                        if old_one {
                            let q = choose|q: int|
                                0 <= q < j && #[trigger] means(
                                    c@[a as int].file,
                                    q,
                                    c@[k].file.key@,
                                );
                            assert(means(c@[a as int].file, q, c@[k].file.key@));
                        }
                        assert(new_one == (old_one || here));
                        assert(here <==> target == Some(k as usize));
                    }
                }
                j += 1;
            }
        }
        proof {
            assert forall|k: int| 0 <= k < c@.len() implies #[trigger] out@[k] == supplied_upto(
                c@,
                changed,
                k,
                a + 1,
            ) by {
                assert(before[k] == supplied_upto(c@, changed, k, a as int));
                let counts = is_entry(c@[a as int]) && affected(c@, changed, a as int);
                assert(imports_file(c@, a as int, k) == means_upto(
                    c@,
                    a as int,
                    k,
                    c@[a as int].file.imports@.len() as int,
                ));
                if before[k] {
                    let q = choose|q: int|
                        0 <= q < a && is_entry(c@[q]) && affected(c@, changed, q)
                            && #[trigger] imports_file(c@, q, k);
                    assert(imports_file(c@, q, k));
                }
                assert(supplied_upto(c@, changed, k, a + 1) == (before[k] || (counts && imports_file(
                    c@,
                    a as int,
                    k,
                ))));
            }
        }
        a += 1;
    }
    proof {
        assert forall|k: int| 0 <= k < c@.len() implies #[trigger] out@[k] == supplies(
            c@,
            changed,
            k,
        ) by {
            assert(supplied_upto(c@, changed, k, c@.len() as int) == supplies(c@, changed, k));
        }
    }
    out
}

fn copy_targets(list: &Vec<Option<String>>) -> (copy: Vec<Option<String>>)
    ensures
        copy@.len() == list@.len(),
        forall|j: int| 0 <= j < copy@.len() ==> opt_text(#[trigger] copy@[j]) == opt_text(list@[j]),
{
    let mut copy: Vec<Option<String>> = Vec::new();
    let mut i: usize = 0;
    while i < list.len()
        invariant
            i <= list@.len(),
            copy@.len() == i,
            forall|j: int| 0 <= j < i ==> opt_text(#[trigger] copy@[j]) == opt_text(list@[j]),
        decreases list@.len() - i,
    {
        copy.push(copy_opt(&list[i]));
        i += 1;
    }
    copy
}

fn part_of(f: &StitchFile, full: bool) -> (p: StitchFile)
    requires
        f.targets@.len() == f.imports@.len(),
    ensures
        is_part(p, *f, full),
{
    if full {
        let p = StitchFile {
            key: f.key.clone(),
            imports: copy_imports(f.imports.as_slice()),
            targets: copy_targets(&f.targets),
            exports: copy_exports(f.exports.as_slice()),
        };
        assert(import_facts(p.imports@).len() == import_facts(f.imports@).len());
        p
    } else {
        StitchFile {
            key: f.key.clone(),
            imports: Vec::new(),
            targets: Vec::new(),
            exports: copy_exports(f.exports.as_slice()),
        }
    }
}

/// Plan what a change asks for: the changed files and every file that imports one of them are joined
/// again. `changed` are the keys of the changed files.
pub fn restitch_affected(c: &Vec<CandidateFile>, changed: &Vec<String>) -> (plan: RestitchPlan)
    requires
        candidates_wf(c@),
    ensures
        is_plan(plan, c@, key_set(changed@)),
{
    let ghost set = key_set(changed@);
    let table = position_table(c);
    let moved_now = moved_flags(c, changed);
    let hit = affected_flags(c, &table, &moved_now, Ghost(set));
    let supply = supply_flags(c, &table, &hit, Ghost(set));
    let mut restage: Vec<String> = Vec::new();
    let mut stitch: Vec<StitchFile> = Vec::new();
    let mut i: usize = 0;
    assert(texts(restage@) =~= Seq::empty());
    while i < c.len()
        invariant
            candidates_wf(c@),
            i <= c@.len(),
            moved_now@.len() == c@.len(),
            hit@.len() == c@.len(),
            supply@.len() == c@.len(),
            forall|k: int| 0 <= k < c@.len() ==> #[trigger] moved_now@[k] == moved(c@, set, k),
            forall|k: int| 0 <= k < c@.len() ==> #[trigger] hit@[k] == affected(c@, set, k),
            forall|k: int| 0 <= k < c@.len() ==> #[trigger] supply@[k] == supplies(c@, set, k),
            texts(restage@) == restaged_upto(c@, set, i as int),
            stitch@.len() == parts_upto(c@, set, i as int).len(),
            forall|k: int|
                0 <= k < stitch@.len() ==> is_part(
                    #[trigger] stitch@[k],
                    c@[parts_upto(c@, set, i as int)[k]].file,
                    affected(c@, set, parts_upto(c@, set, i as int)[k]),
                ),
        decreases c@.len() - i,
    {
        if hit[i] && !moved_now[i] {
            let ghost before = restage@;
            restage.push(c[i].file.key.clone());
            assert(texts(restage@) =~= texts(before).push(c@[i as int].file.key@));
        }
        if entry(&c[i]) && (hit[i] || supply[i]) {
            let ghost parts = parts_upto(c@, set, i as int);
            assert(parts_upto(c@, set, i + 1) == parts.push(i as int));
            stitch.push(part_of(&c[i].file, hit[i]));
        }
        i += 1;
    }
    RestitchPlan { restage, stitch }
}

// ─── Laws ────────────────────────────────────────────────────────────────────

proof fn lemma_parts(c: Seq<CandidateFile>, changed: Set<Seq<char>>, n: int)
    requires
        0 <= n <= c.len(),
    ensures
        forall|k: int|
            0 <= k < parts_upto(c, changed, n).len() ==> 0 <= #[trigger] parts_upto(
                c,
                changed,
                n,
            )[k] < n && takes_part(c, changed, parts_upto(c, changed, n)[k]),
        forall|k: int, l: int|
            0 <= k < l < parts_upto(c, changed, n).len() ==> parts_upto(c, changed, n)[k]
                < parts_upto(c, changed, n)[l],
        forall|i: int|
            0 <= i < n && takes_part(c, changed, i) ==> #[trigger] parts_upto(
                c,
                changed,
                n,
            ).contains(i),
    decreases n,
{
    if n > 0 {
        lemma_parts(c, changed, n - 1);
        let before = parts_upto(c, changed, n - 1);
        let now = parts_upto(c, changed, n);
        assert forall|i: int| 0 <= i < n && takes_part(c, changed, i) implies #[trigger] now.contains(
            i,
        ) by {
            if i < n - 1 {
                assert(before.contains(i));
                let k = before.index_of(i);
                assert(now[k] == i);
            } else {
                assert(now[now.len() - 1] == i);
            }
        }
    }
}

proof fn lemma_export_facts(a: Seq<ExportEdge>, b: Seq<ExportEdge>, name: Seq<char>, n: int)
    requires
        export_facts(a) == export_facts(b),
        0 <= n <= a.len(),
    ensures
        a.len() == b.len(),
        export_start(a, name, n) == export_start(b, name, n),
    decreases n,
{
    assert(export_facts(a).len() == a.len());
    assert(export_facts(b).len() == b.len());
    if n > 0 {
        assert(export_facts(a)[n - 1] == a[n - 1]@);
        assert(export_facts(b)[n - 1] == b[n - 1]@);
        lemma_export_facts(a, b, name, n - 1);
    }
}

/// `whole` holds the files with facts of `c`, and no others.
pub open spec fn lists_entries(whole: Seq<StitchFile>, c: Seq<CandidateFile>) -> bool {
    &&& forall|i: int|
        0 <= i < c.len() && is_entry(#[trigger] c[i]) ==> has_file(whole, c[i].file.key@)
            && whole[file_at(whole, c[i].file.key@)].exports@ == c[i].file.exports@
    &&& forall|k: Seq<char>| #[trigger]
        has_file(whole, k) ==> exists|i: int|
            0 <= i < c.len() && is_entry(#[trigger] c[i]) && c[i].file.key@ == k
}

proof fn lemma_same_exports(
    plan: RestitchPlan,
    c: Seq<CandidateFile>,
    changed: Set<Seq<char>>,
    whole: Seq<StitchFile>,
    a: int,
    j: int,
    name: Seq<char>,
)
    requires
        candidates_wf(c),
        is_plan(plan, c, changed),
        lists_entries(whole, c),
        0 <= a < c.len(),
        is_entry(c[a]),
        affected(c, changed, a),
        0 <= j < c[a].file.imports@.len(),
        !c[a].file.imports@[j].is_type,
        c[a].file.targets@[j] is Some,
    ensures
        exported_at(plan.stitch@, c[a].file.targets@[j]->0@, name) == exported_at(
            whole,
            c[a].file.targets@[j]->0@,
            name,
        ),
{
    let t = c[a].file.targets@[j]->0@;
    let parts = parts_upto(c, changed, c.len() as int);
    let p = plan.stitch@;
    lemma_parts(c, changed, c.len() as int);
    if has_file(whole, t) {
        let m = choose|m: int| 0 <= m < c.len() && is_entry(#[trigger] c[m]) && c[m].file.key@ == t;
        assert(means(c[a].file, j, c[m].file.key@));
        assert(imports_file(c, a, m));
        assert(takes_part(c, changed, m));
        assert(parts.contains(m));
        let k = parts.index_of(m);
        assert(is_part(p[k], c[parts[k]].file, affected(c, changed, parts[k])));
        assert(has_file(p, t));
        let q = file_at(p, t);
        assert(is_part(p[q], c[parts[q]].file, affected(c, changed, parts[q])));
        assert(c[parts[q]].file.key@ == t);
        if parts[q] < m {
            assert(c[parts[q]].file.key@ != c[m].file.key@);
        } else if m < parts[q] {
            assert(c[m].file.key@ != c[parts[q]].file.key@);
        }
        lemma_export_facts(
            p[q].exports@,
            c[m].file.exports@,
            name,
            p[q].exports@.len() as int,
        );
    } else if has_file(p, t) {
        let q = file_at(p, t);
        assert(is_part(p[q], c[parts[q]].file, affected(c, changed, parts[q])));
        assert(is_entry(c[parts[q]]));
        assert(has_file(whole, t));
    }
}

/// Joining again what a change affects gives each affected file the edges that joining everything
/// would give it.
pub proof fn law_restitching_is_the_whole_join(
    plan: RestitchPlan,
    c: Seq<CandidateFile>,
    changed: Set<Seq<char>>,
    whole: Seq<StitchFile>,
    indexed: Set<Seq<char>>,
    a: int,
)
    requires
        candidates_wf(c),
        is_plan(plan, c, changed),
        lists_entries(whole, c),
        0 <= a < c.len(),
        is_entry(c[a]),
        affected(c, changed, a),
    ensures
        edges_from(plan.stitch@, indexed, c[a].file) == edges_from(whole, indexed, c[a].file),
{
    lemma_restitched_upto(plan, c, changed, whole, indexed, a, c[a].file.imports@.len() as int);
}

proof fn lemma_restitched_upto(
    plan: RestitchPlan,
    c: Seq<CandidateFile>,
    changed: Set<Seq<char>>,
    whole: Seq<StitchFile>,
    indexed: Set<Seq<char>>,
    a: int,
    n: int,
)
    requires
        candidates_wf(c),
        is_plan(plan, c, changed),
        lists_entries(whole, c),
        0 <= a < c.len(),
        is_entry(c[a]),
        affected(c, changed, a),
        0 <= n <= c[a].file.imports@.len(),
    ensures
        file_edges(plan.stitch@, indexed, c[a].file, n) == file_edges(
            whole,
            indexed,
            c[a].file,
            n,
        ),
    decreases n,
{
    if n > 0 {
        lemma_restitched_upto(plan, c, changed, whole, indexed, a, n - 1);
        let i = c[a].file.imports@[n - 1];
        if !i.is_type && c[a].file.targets@[n - 1] is Some {
            lemma_same_exports(plan, c, changed, whole, a, n - 1, wanted_name(i));
        }
    }
}

/// A file that is not affected keeps its edges: whatever became of the changed files, joining
/// everything gives it the edges it had.
pub proof fn law_unaffected_files_keep_their_edges(
    before: Seq<CandidateFile>,
    after: Seq<CandidateFile>,
    changed: Set<Seq<char>>,
    whole_before: Seq<StitchFile>,
    whole_after: Seq<StitchFile>,
    indexed: Set<Seq<char>>,
    a: int,
)
    requires
        candidates_wf(before),
        candidates_wf(after),
        before.len() == after.len(),
        forall|i: int|
            0 <= i < after.len() && !moved(after, changed, i) ==> before[i] == #[trigger] after[i],
        forall|i: int|
            0 <= i < after.len() ==> before[i].file.key@ == (#[trigger] after[i]).file.key@,
        lists_entries(whole_before, before),
        lists_entries(whole_after, after),
        0 <= a < after.len(),
        is_entry(after[a]),
        !affected(after, changed, a),
    ensures
        edges_from(whole_before, indexed, before[a].file) == edges_from(
            whole_after,
            indexed,
            after[a].file,
        ),
{
    assert(before[a] == after[a]);
    lemma_kept_upto(
        before,
        after,
        changed,
        whole_before,
        whole_after,
        indexed,
        a,
        after[a].file.imports@.len() as int,
    );
}

proof fn lemma_kept_upto(
    before: Seq<CandidateFile>,
    after: Seq<CandidateFile>,
    changed: Set<Seq<char>>,
    whole_before: Seq<StitchFile>,
    whole_after: Seq<StitchFile>,
    indexed: Set<Seq<char>>,
    a: int,
    n: int,
)
    requires
        candidates_wf(before),
        candidates_wf(after),
        before.len() == after.len(),
        forall|i: int|
            0 <= i < after.len() && !moved(after, changed, i) ==> before[i] == #[trigger] after[i],
        forall|i: int|
            0 <= i < after.len() ==> before[i].file.key@ == (#[trigger] after[i]).file.key@,
        lists_entries(whole_before, before),
        lists_entries(whole_after, after),
        0 <= a < after.len(),
        is_entry(after[a]),
        !affected(after, changed, a),
        0 <= n <= after[a].file.imports@.len(),
    ensures
        file_edges(whole_before, indexed, after[a].file, n) == file_edges(
            whole_after,
            indexed,
            after[a].file,
            n,
        ),
    decreases n,
{
    if n > 0 {
        lemma_kept_upto(
            before,
            after,
            changed,
            whole_before,
            whole_after,
            indexed,
            a,
            n - 1,
        );
        let f = after[a].file;
        let i = f.imports@[n - 1];
        if !i.is_type && f.targets@[n - 1] is Some {
            let t = f.targets@[n - 1]->0@;
            if has_file(whole_after, t) {
                let m = choose|m: int|
                    0 <= m < after.len() && is_entry(#[trigger] after[m]) && after[m].file.key@ == t;
                assert(means(f, n - 1, after[m].file.key@));
                assert(imports_file(after, a, m));
                assert(!moved(after, changed, m));
                assert(before[m] == after[m]);
                assert(is_entry(before[m]));
            } else if has_file(whole_before, t) {
                let m = choose|m: int|
                    0 <= m < before.len() && is_entry(#[trigger] before[m]) && before[m].file.key@
                        == t;
                assert(after[m].file.key@ == t);
                assert(means(f, n - 1, after[m].file.key@));
                assert(imports_file(after, a, m));
                assert(!moved(after, changed, m));
                assert(before[m] == after[m]);
                assert(has_file(whole_after, t));
            }
        }
    }
}

} // verus!
