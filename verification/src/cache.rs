//! The code map in memory: every indexed file's structural facts, by path.
use vstd::prelude::*;

use crate::calls::{all_rows, are_refs_of, indexable, FileCalls, InRamCallIndex};
use crate::model::{
    drop_file, file_table, put_file, FileMapL1, Import, MappedFile, RelPath, paths_ascend,
};
use crate::text::{copy_opt, opt_text};

verus! {

/// What an import says.
pub struct ImportText {
    pub module: Option<Seq<char>>,
    pub raw: Seq<char>,
    pub start_byte: u32,
}

/// What an import says.
pub open spec fn import_text(i: Import) -> ImportText {
    ImportText { module: opt_text(i.module), raw: i.raw@, start_byte: i.start_byte }
}

/// What imports say.
pub open spec fn import_texts(list: Seq<Import>) -> Seq<ImportText> {
    list.map_values(|i: Import| import_text(i))
}

/// The imports of a file.
#[derive(Debug)]
pub struct FileImports {
    pub path: RelPath,
    pub imports: Vec<Import>,
}

/// A copy of a list of imports.
pub fn copy_import_list(list: &Vec<Import>) -> (copy: Vec<Import>)
    ensures
        import_texts(copy@) == import_texts(list@),
{
    let mut copy: Vec<Import> = Vec::new();
    let mut i: usize = 0;
    while i < list.len()
        invariant
            i <= list@.len(),
            copy@.len() == i,
            forall|j: int| 0 <= j < i ==> import_text(#[trigger] copy@[j]) == import_text(list@[j]),
        decreases list@.len() - i,
    {
        let m = &list[i];
        copy.push(
            Import { module: copy_opt(&m.module), raw: m.raw.clone(), start_byte: m.start_byte },
        );
        i += 1;
    }
    assert(import_texts(copy@) =~= import_texts(list@));
    copy
}

/// The code map in memory.
pub struct MapCache {
    /// The files, by ascending path.
    pub by_path: Vec<MappedFile>,
    /// The imports of each file, in the same order.
    pub imports_index: Vec<FileImports>,
    /// The call index, held only where there is no index on disk.
    pub calls: Option<InRamCallIndex>,
}

/// `index` has the imports of each file, in order.
pub open spec fn is_imports_index(index: Seq<FileImports>, files: Seq<MappedFile>) -> bool {
    &&& index.len() == files.len()
    &&& forall|i: int|
        0 <= i < index.len() ==> (#[trigger] index[i]).path@ == files[i].path@ && import_texts(
            index[i].imports@,
        ) == import_texts(files[i].map.imports@)
}

fn index_imports(files: &Vec<MappedFile>) -> (index: Vec<FileImports>)
    ensures
        is_imports_index(index@, files@),
{
    let mut index: Vec<FileImports> = Vec::new();
    let mut i: usize = 0;
    while i < files.len()
        invariant
            i <= files@.len(),
            index@.len() == i,
            forall|j: int|
                0 <= j < i ==> (#[trigger] index@[j]).path@ == files@[j].path@ && import_texts(
                    index@[j].imports@,
                ) == import_texts(files@[j].map.imports@),
        decreases files@.len() - i,
    {
        index.push(
            FileImports {
                path: files[i].path.copy(),
                imports: copy_import_list(&files[i].map.imports),
            },
        );
        i += 1;
    }
    index
}

/// An indexed file with its facts, where they can be read.
#[derive(Debug)]
pub struct StoredFile {
    pub path: RelPath,
    pub map: Option<FileMapL1>,
}

/// The table of the first `n` files whose facts can be read; a later file replaces an earlier one at
/// the same path.
pub open spec fn table_upto(files: Seq<StoredFile>, n: int) -> Map<Seq<u8>, FileMapL1>
    decreases n,
{
    if n <= 0 {
        Map::empty()
    } else {
        match files[n - 1].map {
            Some(m) => table_upto(files, n - 1).insert(files[n - 1].path@, m),
            None => table_upto(files, n - 1),
        }
    }
}

/// What became of a changed path: gone from the index, still there but unreadable, or read anew.
#[derive(Debug)]
pub enum PathState {
    Gone,
    Unreadable,
    Read(FileMapL1),
}

/// A changed path.
#[derive(Debug)]
pub struct PathUpdate {
    pub path: RelPath,
    pub state: PathState,
}

/// A table after one changed path was taken in.
pub open spec fn after_update(t: Map<Seq<u8>, FileMapL1>, u: PathUpdate) -> Map<Seq<u8>, FileMapL1> {
    match u.state {
        PathState::Gone => t.remove(u.path@),
        PathState::Unreadable => t,
        PathState::Read(m) => t.insert(u.path@, m),
    }
}

/// A table after the first `n` changed paths were taken in.
pub open spec fn after_updates(t: Map<Seq<u8>, FileMapL1>, updates: Seq<PathUpdate>, n: int) -> Map<
    Seq<u8>,
    FileMapL1,
>
    decreases n,
{
    if n <= 0 {
        t
    } else {
        after_update(after_updates(t, updates, n - 1), updates[n - 1])
    }
}

/// A table after the first `n` removed paths were dropped.
pub open spec fn after_removals(t: Map<Seq<u8>, FileMapL1>, removed: Seq<RelPath>, n: int) -> Map<
    Seq<u8>,
    FileMapL1,
>
    decreases n,
{
    if n <= 0 {
        t
    } else {
        after_removals(t, removed, n - 1).remove(removed[n - 1]@)
    }
}

impl MapCache {
    /// Paths ascend, and the imports are those of the files.
    pub open spec fn wf(&self) -> bool {
        &&& paths_ascend(self.by_path@)
        &&& is_imports_index(self.imports_index@, self.by_path@)
    }

    /// The map from path to facts.
    pub open spec fn table(&self) -> Map<Seq<u8>, FileMapL1> {
        file_table(self.by_path@)
    }

    /// Build the cache from the indexed files. Files whose facts cannot be read are left out. `calls`
    /// are the calls of each file, given where there is no index on disk.
    pub fn build(files: Vec<StoredFile>, calls: Option<Vec<FileCalls>>) -> (c: MapCache)
        requires
            calls is Some ==> indexable(calls->0@),
        ensures
            c.wf(),
            c.table() == table_upto(files@, files@.len() as int),
            c.calls is Some == calls is Some,
            calls is Some ==> c.calls->0.wf(),
            calls is Some ==> c.calls->0.rows().to_multiset() == all_rows(
                calls->0@,
                calls->0@.len() as int,
            ).to_multiset(),
            calls is Some ==> forall|i: int|
                0 <= i < calls->0@.len() ==> are_refs_of(
                    c.calls->0.calls_of((#[trigger] calls->0@[i]).rel@),
                    calls->0@[i].calls@,
                ),
    {
        let ghost all = files@;
        let mut by_path: Vec<MappedFile> = Vec::new();
        let mut rest = files;
        let mut i: usize = 0;
        assert(file_table(by_path@) =~= Map::empty());
        while i < rest.len()
            invariant
                i <= rest@.len(),
                rest@.len() == all.len(),
                forall|j: int| i <= j < all.len() ==> #[trigger] rest@[j] == all[j],
                paths_ascend(by_path@),
                file_table(by_path@) == table_upto(all, i as int),
            decreases rest@.len() - i,
        {
            assert(rest@[i as int] == all[i as int]);
            let map = rest[i].map.take();
            match map {
                Some(m) => {
                    let path = rest[i].path.copy();
                    put_file(&mut by_path, path, m);
                },
                None => {},
            }
            i += 1;
        }
        let imports_index = index_imports(&by_path);
        let index = match calls {
            Some(per_file) => Some(InRamCallIndex::build(per_file)),
            None => None,
        };
        MapCache { by_path, imports_index, calls: index }
    }

    /// The cache with nothing in it.
    pub fn empty() -> (c: MapCache)
        ensures
            c.wf(),
            c.by_path@.len() == 0,
            c.imports_index@.len() == 0,
            c.calls is None,
    {
        MapCache { by_path: Vec::new(), imports_index: Vec::new(), calls: None }
    }

    /// The cache with the changes of a scoped rescan: first the removed paths are dropped, then each
    /// changed path is taken in. `None` where the cache holds a call index, which a patch would let
    /// drift: it has to be built anew.
    pub fn with_delta(self, updates: Vec<PathUpdate>, removed: &Vec<RelPath>) -> (c: Option<MapCache>)
        requires
            self.wf(),
        ensures
            match c {
                Some(next) => {
                    &&& self.calls is None
                    &&& next.wf()
                    &&& next.calls is None
                    &&& next.table() == after_updates(
                        after_removals(self.table(), removed@, removed@.len() as int),
                        updates@,
                        updates@.len() as int,
                    )
                },
                None => self.calls is Some,
            },
    {
        if self.calls.is_some() {
            return None;
        }
        let ghost start = self.table();
        let mut by_path = self.by_path;
        let mut i: usize = 0;
        while i < removed.len()
            invariant
                i <= removed@.len(),
                paths_ascend(by_path@),
                file_table(by_path@) == after_removals(start, removed@, i as int),
            decreases removed@.len() - i,
        {
            drop_file(&mut by_path, &removed[i]);
            i += 1;
        }
        let ghost pruned = after_removals(start, removed@, removed@.len() as int);
        let ghost all = updates@;
        let mut rest = updates;
        let mut j: usize = 0;
        while j < rest.len()
            invariant
                j <= rest@.len(),
                rest@.len() == all.len(),
                forall|k: int| j <= k < all.len() ==> #[trigger] rest@[k] == all[k],
                paths_ascend(by_path@),
                file_table(by_path@) == after_updates(pruned, all, j as int),
            decreases rest@.len() - j,
        {
            assert(rest@[j as int] == all[j as int]);
            let path = rest[j].path.copy();
            let mut state = PathState::Unreadable;
            core::mem::swap(&mut rest[j].state, &mut state);
            match state {
                PathState::Gone => {
                    drop_file(&mut by_path, &path);
                },
                PathState::Unreadable => {},
                PathState::Read(m) => {
                    put_file(&mut by_path, path, m);
                },
            }
            j += 1;
        }
        let imports_index = index_imports(&by_path);
        Some(MapCache { by_path, imports_index, calls: None })
    }
}

/// Whether one of the changed paths is `p`.
pub open spec fn changes(updates: Seq<PathUpdate>, p: Seq<u8>) -> bool {
    exists|i: int| 0 <= i < updates.len() && (#[trigger] updates[i]).path@ == p
}

/// Whether one of the removed paths is `p`.
pub open spec fn removes(removed: Seq<RelPath>, p: Seq<u8>) -> bool {
    exists|i: int| 0 <= i < removed.len() && (#[trigger] removed[i])@ == p
}

proof fn lemma_removals(t: Map<Seq<u8>, FileMapL1>, removed: Seq<RelPath>, n: int, p: Seq<u8>)
    requires
        0 <= n <= removed.len(),
    ensures
        after_removals(t, removed, n).contains_key(p) == (t.contains_key(p) && !removes(
            removed.take(n),
            p,
        )),
        after_removals(t, removed, n).contains_key(p) ==> after_removals(t, removed, n)[p] == t[p],
    decreases n,
{
    if n > 0 {
        lemma_removals(t, removed, n - 1, p);
        let before = removed.take(n - 1);
        let now = removed.take(n);
        assert(removes(now, p) == (removes(before, p) || removed[n - 1]@ == p)) by {
            if removes(before, p) {
                let k = choose|k: int| 0 <= k < before.len() && (#[trigger] before[k])@ == p;
                assert(now[k]@ == p);
            }
            if removed[n - 1]@ == p {
                assert(now[n - 1]@ == p);
            }
            if removes(now, p) && removed[n - 1]@ != p {
                let k = choose|k: int| 0 <= k < now.len() && (#[trigger] now[k])@ == p;
                assert(before[k]@ == p);
            }
        }
    }
}

proof fn lemma_updates_elsewhere(
    t: Map<Seq<u8>, FileMapL1>,
    updates: Seq<PathUpdate>,
    n: int,
    p: Seq<u8>,
)
    requires
        0 <= n <= updates.len(),
        !changes(updates, p),
    ensures
        after_updates(t, updates, n).contains_key(p) == t.contains_key(p),
        t.contains_key(p) ==> after_updates(t, updates, n)[p] == t[p],
    decreases n,
{
    if n > 0 {
        lemma_updates_elsewhere(t, updates, n - 1, p);
        assert(updates[n - 1].path@ != p);
    }
}

/// A scoped rescan touches only the paths it names: every other file stays as it was, and a removed
/// path that was not read anew is gone.
pub proof fn law_delta_is_local(
    t: Map<Seq<u8>, FileMapL1>,
    updates: Seq<PathUpdate>,
    removed: Seq<RelPath>,
    p: Seq<u8>,
)
    requires
        !changes(updates, p),
    ensures
        ({
            let next = after_updates(
                after_removals(t, removed, removed.len() as int),
                updates,
                updates.len() as int,
            );
            &&& next.contains_key(p) == (t.contains_key(p) && !removes(removed, p))
            &&& next.contains_key(p) ==> next[p] == t[p]
        }),
{
    assert(removed.take(removed.len() as int) =~= removed);
    lemma_removals(t, removed, removed.len() as int, p);
    lemma_updates_elsewhere(
        after_removals(t, removed, removed.len() as int),
        updates,
        updates.len() as int,
        p,
    );
}

/// A path that was changed once and read anew has its new facts.
pub proof fn law_delta_updates(
    t: Map<Seq<u8>, FileMapL1>,
    updates: Seq<PathUpdate>,
    i: int,
    n: int,
)
    requires
        0 <= i < n <= updates.len(),
        updates[i].state is Read,
        forall|j: int| i < j < updates.len() ==> (#[trigger] updates[j]).path@ != updates[i].path@,
    ensures
        after_updates(t, updates, n).contains_key(updates[i].path@),
        after_updates(t, updates, n)[updates[i].path@] == updates[i].state->Read_0,
    decreases n,
{
    if i < n - 1 {
        law_delta_updates(t, updates, i, n - 1);
        assert(updates[n - 1].path@ != updates[i].path@);
    }
}

} // verus!
