//! Counting co-changes: how often files change, and how often two of them change together.
use vstd::prelude::*;

use crate::model::RelPath;
use crate::tables::{
    entry_at, pairs_get, pairs_held, pairs_insert, pairs_new, paths_get, paths_held, paths_insert,
    paths_new,
};
use crate::text::copy_bytes;

verus! {

/// A file that a commit touches.
#[derive(Debug)]
pub struct ChangedFile {
    pub path: RelPath,
    /// Whether the commit deletes the file.
    pub deleted: bool,
}

/// The files that a commit touches.
#[derive(Debug)]
pub struct CommitFiles {
    pub files: Vec<ChangedFile>,
}

/// The paths among the first `n` files that a commit changes without deleting them.
pub open spec fn kept_paths(files: Seq<ChangedFile>, n: int) -> Seq<Seq<u8>>
    decreases n,
{
    if n <= 0 {
        Seq::empty()
    } else if files[n - 1].deleted {
        kept_paths(files, n - 1)
    } else {
        kept_paths(files, n - 1).push(files[n - 1].path@)
    }
}

/// The paths that a commit changes without deleting them.
pub open spec fn changed(c: CommitFiles) -> Seq<Seq<u8>> {
    kept_paths(c.files@, c.files@.len() as int)
}

/// How often `x` stands in `s`.
pub open spec fn occurrences<T>(s: Seq<T>, x: T) -> int
    decreases s.len(),
{
    if s.len() == 0 {
        0
    } else {
        occurrences(s.drop_last(), x) + (if s.last() == x { 1int } else { 0 })
    }
}

/// How many unordered pairs of places of `s` hold `x` and `y`.
pub open spec fn pairings<T>(s: Seq<T>, x: T, y: T) -> int
    decreases s.len(),
{
    if s.len() == 0 {
        0
    } else {
        pairings(s.drop_last(), x, y) + (if s.last() == x {
            occurrences(s.drop_last(), y)
        } else if s.last() == y {
            occurrences(s.drop_last(), x)
        } else {
            0
        })
    }
}

/// Whether a commit is small enough to be counted.
pub open spec fn is_counted(c: CommitFiles, max_files: int) -> bool {
    changed(c).len() <= max_files
}

/// How often the first `n` commits change `p`.
pub open spec fn freq_upto(commits: Seq<CommitFiles>, max_files: int, p: Seq<u8>, n: int) -> int
    decreases n,
{
    if n <= 0 {
        0
    } else {
        freq_upto(commits, max_files, p, n - 1) + (if is_counted(commits[n - 1], max_files) {
            occurrences(changed(commits[n - 1]), p)
        } else {
            0
        })
    }
}

/// How often the first `n` commits change `p` and `q` together.
pub open spec fn together_upto(
    commits: Seq<CommitFiles>,
    max_files: int,
    p: Seq<u8>,
    q: Seq<u8>,
    n: int,
) -> int
    decreases n,
{
    if n <= 0 {
        0
    } else {
        together_upto(commits, max_files, p, q, n - 1) + (if is_counted(
            commits[n - 1],
            max_files,
        ) {
            pairings(changed(commits[n - 1]), p, q)
        } else {
            0
        })
    }
}

/// How many of the first `n` commits are too large to be counted.
pub open spec fn bulk_upto(commits: Seq<CommitFiles>, max_files: int, n: int) -> int
    decreases n,
{
    if n <= 0 {
        0
    } else {
        bulk_upto(commits, max_files, n - 1) + (if is_counted(commits[n - 1], max_files) {
            0int
        } else {
            1
        })
    }
}

/// An upper bound of every count over the first `n` commits.
pub open spec fn weight_upto(commits: Seq<CommitFiles>, max_files: int, n: int) -> int
    decreases n,
{
    if n <= 0 {
        0
    } else {
        weight_upto(commits, max_files, n - 1) + (if is_counted(commits[n - 1], max_files) {
            changed(commits[n - 1]).len() * (changed(commits[n - 1]).len() + 1)
        } else {
            0
        })
    }
}

/// `seen` with one more path, unless it is there.
pub open spec fn noted(seen: Seq<Seq<u8>>, p: Seq<u8>) -> Seq<Seq<u8>> {
    if seen.contains(p) {
        seen
    } else {
        seen.push(p)
    }
}

/// `seen` with more paths, each once, in order of first sight.
pub open spec fn noted_all(seen: Seq<Seq<u8>>, paths: Seq<Seq<u8>>) -> Seq<Seq<u8>>
    decreases paths.len(),
{
    if paths.len() == 0 {
        seen
    } else {
        noted(noted_all(seen, paths.drop_last()), paths.last())
    }
}

/// The paths that the first `n` commits change, each once, in order of first sight.
pub open spec fn seen_upto(commits: Seq<CommitFiles>, max_files: int, n: int) -> Seq<Seq<u8>>
    decreases n,
{
    if n <= 0 {
        Seq::empty()
    } else if is_counted(commits[n - 1], max_files) {
        noted_all(seen_upto(commits, max_files, n - 1), changed(commits[n - 1]))
    } else {
        seen_upto(commits, max_files, n - 1)
    }
}

/// The paths of a list of files.
pub open spec fn numbered(files: Seq<RelPath>) -> Seq<Seq<u8>> {
    Seq::new(files.len(), |i: int| files[i]@)
}

/// What a walk over commits counted. Files are numbered in order of first sight.
pub struct CoChange {
    pub files: Vec<RelPath>,
    pub freq: Vec<u32>,
    /// The pairs of file numbers that changed together, each once, the smaller number first.
    pub pairs: Vec<(usize, usize)>,
    pub counts: ahash::AHashMap<(usize, usize), u32>,
    pub numbers: ahash::AHashMap<Vec<u8>, u32>,
    pub skipped_bulk: u32,
}

/// The number counted for a pair; 0 where there is none.
pub open spec fn count_in(m: Map<(usize, usize), u32>, a: int, b: int) -> int {
    match entry_at(m, (a as usize, b as usize)) {
        Some(n) => n as int,
        None => 0,
    }
}

impl CoChange {
    /// How often files `a` and `b` were counted together, the smaller number first.
    pub closed spec fn count(&self, a: int, b: int) -> int {
        count_in(pairs_held(self.counts), a, b)
    }

    /// The numbering is a bijection, and the tables speak of numbered files only.
    pub closed spec fn wf(&self) -> bool {
        &&& self.files@.len() <= u32::MAX
        &&& self.freq@.len() == self.files@.len()
        &&& forall|i: int|
            0 <= i < self.files@.len() ==> entry_at(
                paths_held(self.numbers),
                (#[trigger] self.files@[i])@,
            ) == Some(i as u32)
        &&& forall|p: Seq<u8>| #[trigger]
            paths_held(self.numbers).contains_key(p) ==> paths_held(self.numbers)[p]
                < self.files@.len() && self.files@[paths_held(self.numbers)[p] as int]@ == p
        &&& forall|k: int|
            0 <= k < self.pairs@.len() ==> (#[trigger] self.pairs@[k]).0 <= self.pairs@[k].1
                && self.pairs@[k].1 < self.files@.len() && pairs_held(self.counts).contains_key(
                self.pairs@[k],
            )
        &&& forall|ab: (usize, usize)| #[trigger]
            pairs_held(self.counts).contains_key(ab) ==> self.pairs@.contains(ab) && pairs_held(
                self.counts,
            )[ab] > 0
        &&& self.pairs@.no_duplicates()
    }

    /// Whether `p` has a number.
    pub open spec fn knows(&self, p: Seq<u8>) -> bool {
        exists|i: int| 0 <= i < self.files@.len() && (#[trigger] self.files@[i])@ == p
    }

    /// The files are distinct, and every pair listed was counted.
    pub proof fn lemma_facts(&self)
        requires
            self.wf(),
        ensures
            self.freq@.len() == self.files@.len(),
            self.files@.len() <= u32::MAX,
            forall|i: int, j: int|
                0 <= i < j < self.files@.len() ==> (#[trigger] self.files@[i])@ != (
                #[trigger] self.files@[j])@,
            forall|k: int|
                0 <= k < self.pairs@.len() ==> (#[trigger] self.pairs@[k]).0 <= self.pairs@[k].1
                    < self.files@.len() && self.count(
                    self.pairs@[k].0 as int,
                    self.pairs@[k].1 as int,
                ) > 0,
            forall|a: usize, b: usize|
                self.count(a as int, b as int) > 0 ==> #[trigger] self.pairs@.contains((a, b)),
            self.pairs@.no_duplicates(),
    {
        assert forall|i: int, j: int| 0 <= i < j < self.files@.len() implies (
        #[trigger] self.files@[i])@ != (#[trigger] self.files@[j])@ by {
            assert(entry_at(paths_held(self.numbers), self.files@[i]@) == Some(i as u32));
            assert(entry_at(paths_held(self.numbers), self.files@[j]@) == Some(j as u32));
        }
        assert forall|a: usize, b: usize|
            self.count(a as int, b as int) > 0 implies #[trigger] self.pairs@.contains((a, b)) by {
            assert(pairs_held(self.counts).contains_key((a, b)));
        }
    }

    /// How often files `a` and `b` were counted together.
    pub fn get(&self, a: usize, b: usize) -> (n: u32)
        requires
            a <= b,
        ensures
            n == self.count(a as int, b as int),
    {
        match pairs_get(&self.counts, (a, b)) {
            Some(n) => n,
            None => 0,
        }
    }

    /// Count one more change of files `a` and `b` together.
    fn bump(&mut self, a: usize, b: usize)
        requires
            old(self).wf(),
            a <= b < old(self).files@.len(),
            old(self).count(a as int, b as int) < u32::MAX,
        ensures
            final(self).wf(),
            final(self).files == old(self).files,
            final(self).freq == old(self).freq,
            final(self).skipped_bulk == old(self).skipped_bulk,
            forall|x: int, y: int|
                0 <= x <= y < old(self).files@.len() ==> #[trigger] final(self).count(x, y) == old(
                    self,
                ).count(x, y) + (if x == a && y == b { 1int } else { 0 }),
    {
        let ghost before = *self;
        let n: u32 = match pairs_get(&self.counts, (a, b)) {
            Some(n) => n,
            None => {
                assert(!before.pairs@.contains((a, b))) by {
                    if before.pairs@.contains((a, b)) {
                        let k = before.pairs@.index_of((a, b));
                        assert(pairs_held(before.counts).contains_key(before.pairs@[k]));
                    }
                }
                self.pairs.push((a, b));
                assert(self.pairs@.no_duplicates()) by {
                    assert forall|i: int, j: int|
                        0 <= i < self.pairs@.len() && 0 <= j < self.pairs@.len() && i
                            != j implies self.pairs@[i] != self.pairs@[j] by {
                        if i < before.pairs@.len() && j < before.pairs@.len() {
                        } else if i < before.pairs@.len() {
                            assert(before.pairs@.contains(before.pairs@[i]));
                        } else {
                            assert(before.pairs@.contains(before.pairs@[j]));
                        }
                    }
                }
                0
            },
        };
        pairs_insert(&mut self.counts, (a, b), n + 1);
        proof {
            assert forall|ab: (usize, usize)| #[trigger]
                pairs_held(self.counts).contains_key(ab) implies self.pairs@.contains(ab)
                && pairs_held(self.counts)[ab] > 0 by {
                if ab != (a, b) {
                    assert(pairs_held(before.counts).contains_key(ab));
                    let k = before.pairs@.index_of(ab);
                    assert(self.pairs@[k] == ab);
                } else if pairs_held(before.counts).contains_key(ab) {
                    let k = before.pairs@.index_of(ab);
                    assert(self.pairs@[k] == ab);
                } else {
                    assert(self.pairs@[self.pairs@.len() - 1] == ab);
                }
            }
            assert forall|k: int| 0 <= k < self.pairs@.len() implies (#[trigger] self.pairs@[k]).0
                <= self.pairs@[k].1 && self.pairs@[k].1 < self.files@.len() && pairs_held(
                self.counts,
            ).contains_key(self.pairs@[k]) by {
                if k < before.pairs@.len() {
                    assert(self.pairs@[k] == before.pairs@[k]);
                }
            }
        }
    }

    /// The number of a path, given now if it has none.
    fn number(&mut self, path: &RelPath) -> (id: usize)
        requires
            old(self).wf(),
            old(self).files@.len() < u32::MAX,
        ensures
            final(self).wf(),
            id < final(self).files@.len(),
            final(self).files@[id as int]@ == path@,
            numbered(final(self).files@) == noted(numbered(old(self).files@), path@),
            final(self).pairs == old(self).pairs,
            final(self).skipped_bulk == old(self).skipped_bulk,
            forall|x: int, y: int| #[trigger] final(self).count(x, y) == old(self).count(x, y),
            old(self).files@.len() <= final(self).files@.len() <= old(self).files@.len() + 1,
            forall|i: int|
                0 <= i < old(self).files@.len() ==> (#[trigger] final(self).files@[i])@ == old(
                    self,
                ).files@[i]@ && final(self).freq@[i] == old(self).freq@[i],
            final(self).files@.len() > old(self).files@.len() ==> {
                &&& !old(self).knows(path@)
                &&& id == old(self).files@.len()
                &&& final(self).freq@[id as int] == 0
            },
    {
        let ghost before = *self;
        match paths_get(&self.numbers, path.bytes.as_slice()) {
            Some(id) => {
                assert(numbered(self.files@)[id as int] == path@);
                id as usize
            },
            None => {
                let id: usize = self.files.len();
                assert(!before.knows(path@)) by {
                    if before.knows(path@) {
                        let i = choose|i: int|
                            0 <= i < before.files@.len() && (#[trigger] before.files@[i])@ == path@;
                        assert(entry_at(paths_held(before.numbers), before.files@[i]@) is Some);
                    }
                }
                self.files.push(path.copy());
                self.freq.push(0);
                proof {
                    let was = numbered(before.files@);
                    if was.contains(path@) {
                        let i = was.index_of(path@);
                        assert(before.files@[i]@ == path@);
                    }
                    assert(numbered(self.files@) =~= was.push(path@));
                }
                paths_insert(&mut self.numbers, copy_bytes(path.bytes.as_slice()), id as u32);
                proof {
                    assert forall|i: int| 0 <= i < self.files@.len() implies entry_at(
                        paths_held(self.numbers),
                        (#[trigger] self.files@[i])@,
                    ) == Some(i as u32) by {
                        if i < id {
                            assert(self.files@[i] == before.files@[i]);
                            assert(before.files@[i]@ != path@);
                        }
                    }
                }
                id
            },
        }
    }
}

// ─── Counting facts ──────────────────────────────────────────────────────────

proof fn lemma_counts_bounded<T>(s: Seq<T>, x: T, y: T)
    ensures
        0 <= occurrences(s, x) <= s.len(),
        0 <= pairings(s, x, y) <= s.len() * s.len(),
    decreases s.len(),
{
    if s.len() > 0 {
        lemma_counts_bounded(s.drop_last(), x, y);
        lemma_counts_bounded(s.drop_last(), y, x);
        let n = s.len() as int;
        assert((n - 1) * (n - 1) + (n - 1) <= n * n) by (nonlinear_arith)
            requires
                n >= 1,
        ;
    }
}

proof fn lemma_pairings_symmetric<T>(s: Seq<T>, x: T, y: T)
    ensures
        pairings(s, x, y) == pairings(s, y, x),
    decreases s.len(),
{
    if s.len() > 0 {
        lemma_pairings_symmetric(s.drop_last(), x, y);
    }
}

/// Counting numbers is counting the paths they stand for.
proof fn lemma_counts_by_number(
    ids: Seq<usize>,
    paths: Seq<Seq<u8>>,
    files: Seq<RelPath>,
    a: int,
    b: int,
)
    requires
        ids.len() == paths.len(),
        forall|k: int|
            0 <= k < ids.len() ==> (#[trigger] ids[k]) < files.len() && files[ids[k] as int]@
                == paths[k],
        forall|i: int, j: int|
            0 <= i < j < files.len() ==> (#[trigger] files[i])@ != (#[trigger] files[j])@,
        0 <= a < files.len(),
        0 <= b < files.len(),
        files.len() <= usize::MAX,
    ensures
        occurrences(ids, a as usize) == occurrences(paths, files[a]@),
        pairings(ids, a as usize, b as usize) == pairings(paths, files[a]@, files[b]@),
    decreases ids.len(),
{
    if ids.len() > 0 {
        let n = ids.len() - 1;
        assert forall|k: int| 0 <= k < ids.drop_last().len() implies (#[trigger] ids.drop_last()[k])
            < files.len() && files[ids.drop_last()[k] as int]@ == paths.drop_last()[k] by {
            assert(ids.drop_last()[k] == ids[k]);
        }
        lemma_counts_by_number(ids.drop_last(), paths.drop_last(), files, a, b);
        lemma_counts_by_number(ids.drop_last(), paths.drop_last(), files, b, a);
        let last = ids[n] as int;
        assert(files[last]@ == paths[n]);
        if last != a {
            if last < a {
                assert(files[last]@ != files[a]@);
            } else {
                assert(files[a]@ != files[last]@);
            }
        }
        if last != b {
            if last < b {
                assert(files[last]@ != files[b]@);
            } else {
                assert(files[b]@ != files[last]@);
            }
        }
    }
}

/// A path that does not stand in a list is not counted there.
proof fn lemma_absent<T>(s: Seq<T>, x: T, y: T)
    requires
        !s.contains(x),
    ensures
        occurrences(s, x) == 0,
        pairings(s, x, y) == 0,
        pairings(s, y, x) == 0,
    decreases s.len(),
{
    if s.len() > 0 {
        assert(s[s.len() - 1] != x);
        assert(!s.drop_last().contains(x)) by {
            if s.drop_last().contains(x) {
                assert(s[s.drop_last().index_of(x)] == x);
            }
        }
        lemma_absent(s.drop_last(), x, y);
        if s.last() == y && y != x {
            assert(occurrences(s.drop_last(), x) == 0);
        }
    }
}

proof fn lemma_weight_grows(commits: Seq<CommitFiles>, max_files: int, m: int, n: int)
    requires
        0 <= m <= n <= commits.len(),
    ensures
        0 <= weight_upto(commits, max_files, m) <= weight_upto(commits, max_files, n),
    decreases n,
{
    if m < n {
        lemma_weight_grows(commits, max_files, m, n - 1);
        let l = changed(commits[n - 1]).len() as int;
        assert(l * (l + 1) >= 0) by (nonlinear_arith)
            requires
                l >= 0,
        ;
    } else if n > 0 {
        lemma_weight_grows(commits, max_files, m - 1, n - 1);
        let l = changed(commits[n - 1]).len() as int;
        assert(l * (l + 1) >= 0) by (nonlinear_arith)
            requires
                l >= 0,
        ;
    }
}

proof fn lemma_counts_within_weight(
    commits: Seq<CommitFiles>,
    max_files: int,
    p: Seq<u8>,
    q: Seq<u8>,
    n: int,
)
    requires
        0 <= n <= commits.len(),
    ensures
        0 <= freq_upto(commits, max_files, p, n) <= weight_upto(commits, max_files, n),
        0 <= together_upto(commits, max_files, p, q, n) <= weight_upto(commits, max_files, n),
        0 <= bulk_upto(commits, max_files, n) <= n,
    decreases n,
{
    if n > 0 {
        lemma_counts_within_weight(commits, max_files, p, q, n - 1);
        let s = changed(commits[n - 1]);
        lemma_counts_bounded(s, p, q);
        let l = s.len() as int;
        assert(l * (l + 1) == l * l + l) by (nonlinear_arith);
        assert(l * l >= 0) by (nonlinear_arith)
            requires
                l >= 0,
        ;
    }
}

// ─── The walk ────────────────────────────────────────────────────────────────

/// `cc` holds the counts of the first `n` commits.
pub open spec fn counts_are(cc: CoChange, commits: Seq<CommitFiles>, max_files: int, n: int) -> bool {
    &&& forall|i: int|
        0 <= i < cc.files@.len() ==> cc.freq@[i] == freq_upto(
            commits,
            max_files,
            (#[trigger] cc.files@[i])@,
            n,
        ) && cc.freq@[i] > 0
    &&& forall|i: int, j: int|
        0 <= i <= j < cc.files@.len() ==> #[trigger] cc.count(i, j) == together_upto(
            commits,
            max_files,
            cc.files@[i]@,
            cc.files@[j]@,
            n,
        )
    &&& forall|p: Seq<u8>| #[trigger]
        cc.knows(p) <==> freq_upto(commits, max_files, p, n) > 0
    &&& numbered(cc.files@) == seen_upto(commits, max_files, n)
    &&& cc.skipped_bulk == bulk_upto(commits, max_files, n)
}

fn changed_count(c: &CommitFiles) -> (n: usize)
    ensures
        n == changed(*c).len(),
        n <= c.files@.len(),
{
    let mut n: usize = 0;
    let mut i: usize = 0;
    while i < c.files.len()
        invariant
            i <= c.files@.len(),
            n == kept_paths(c.files@, i as int).len(),
            n <= i,
        decreases c.files.len() - i,
    {
        if !c.files[i].deleted {
            n += 1;
        }
        i += 1;
    }
    n
}

/// What holds while the paths of one commit are numbered and their changes counted.
spec fn numbering(
    cc: CoChange,
    before: CoChange,
    ids: Seq<usize>,
    paths: Seq<Seq<u8>>,
) -> bool {
    &&& cc.wf()
    &&& cc.skipped_bulk == before.skipped_bulk
    &&& before.files@.len() <= cc.files@.len()
    &&& forall|i: int|
        0 <= i < before.files@.len() ==> (#[trigger] cc.files@[i])@ == before.files@[i]@
    &&& numbered(cc.files@) == noted_all(numbered(before.files@), paths)
    &&& forall|x: int, y: int| #[trigger] cc.count(x, y) == before.count(x, y)
    &&& ids.len() == paths.len()
    &&& forall|k: int|
        0 <= k < ids.len() ==> (#[trigger] ids[k]) < cc.files@.len() && cc.files@[ids[k] as int]@
            == paths[k]
    &&& forall|i: int|
        0 <= i < cc.files@.len() ==> #[trigger] cc.freq@[i] == (if i < before.files@.len() {
            before.freq@[i] as int
        } else {
            0
        }) + occurrences(ids, i as usize)
    &&& forall|i: int|
        before.files@.len() <= i < cc.files@.len() ==> !before.knows(
            (#[trigger] cc.files@[i])@,
        ) && paths.contains(cc.files@[i]@)
}

fn number_commit(cc: &mut CoChange, c: &CommitFiles, Ghost(bound): Ghost<int>) -> (ids: Vec<usize>)
    requires
        old(cc).wf(),
        old(cc).files@.len() + changed(*c).len() <= bound < u32::MAX,
        forall|i: int|
            0 <= i < old(cc).files@.len() ==> (#[trigger] old(cc).freq@[i]) + changed(*c).len()
                <= bound,
    ensures
        numbering(*final(cc), *old(cc), ids@, changed(*c)),
{
    let ghost before = *cc;
    let mut ids: Vec<usize> = Vec::new();
    let mut i: usize = 0;
    while i < c.files.len()
        invariant
            i <= c.files@.len(),
            numbering(*cc, before, ids@, kept_paths(c.files@, i as int)),
            cc.files@.len() <= before.files@.len() + ids@.len(),
            before.files@.len() + changed(*c).len() <= bound < u32::MAX,
            forall|k: int|
                0 <= k < before.files@.len() ==> (#[trigger] before.freq@[k]) + changed(*c).len()
                    <= bound,
        decreases c.files.len() - i,
    {
        proof {
            lemma_kept_grows(c.files@, i as int, c.files@.len() as int);
            if !c.files@[i as int].deleted {
                lemma_kept_grows(c.files@, i + 1, c.files@.len() as int);
            }
        }
        if !c.files[i].deleted {
            let ghost was = *cc;
            let ghost ids0 = ids@;
            let ghost paths0 = kept_paths(c.files@, i as int);
            let id: usize = cc.number(&c.files[i].path);
            let ghost mid = *cc;
            proof {
                lemma_counts_bounded(ids0, id, id);
                if mid.files@.len() > was.files@.len() {
                    assert(!ids0.contains(id)) by {
                        if ids0.contains(id) {
                            let k = ids0.index_of(id);
                            assert(ids0[k] < was.files@.len());
                        }
                    }
                    lemma_absent(ids0, id, id);
                }
                if id < before.files@.len() {
                    assert(before.freq@[id as int] + changed(*c).len() <= bound);
                }
            }
            let f: u32 = cc.freq[id];
            cc.freq.set(id, f + 1);
            ids.push(id);
            proof {
                let paths1 = kept_paths(c.files@, i + 1);
                assert(paths1 =~= paths0.push(c.files@[i as int].path@));
                assert(paths1.drop_last() =~= paths0);
                assert(ids@.drop_last() =~= ids0);
                assert forall|k: int| 0 <= k < cc.files@.len() implies #[trigger] cc.freq@[k] == (
                if k < before.files@.len() {
                    before.freq@[k] as int
                } else {
                    0
                }) + occurrences(ids@, k as usize) by {
                    if k < was.files@.len() {
                        assert(mid.files@[k]@ == was.files@[k]@);
                        assert(mid.freq@[k] == was.freq@[k]);
                    } else {
                        assert(k == id);
                    }
                }
                assert forall|k: int| 0 <= k < ids@.len() implies (#[trigger] ids@[k])
                    < cc.files@.len() && cc.files@[ids@[k] as int]@ == paths1[k] by {
                    if k < ids0.len() {
                        assert(ids@[k] == ids0[k]);
                        assert(mid.files@[ids0[k] as int]@ == was.files@[ids0[k] as int]@);
                    }
                }
                assert forall|k: int| before.files@.len() <= k < cc.files@.len() implies
                    !before.knows((#[trigger] cc.files@[k])@) && paths1.contains(cc.files@[k]@) by {
                    if k < was.files@.len() {
                        assert(mid.files@[k]@ == was.files@[k]@);
                        let j = paths0.index_of(was.files@[k]@);
                        assert(paths1[j] == cc.files@[k]@);
                    } else {
                        assert(paths1[paths0.len() as int] == cc.files@[k]@);
                        if before.knows(cc.files@[k]@) {
                            let j = choose|j: int|
                                0 <= j < before.files@.len() && (#[trigger] before.files@[j])@
                                    == cc.files@[k]@;
                            assert(was.files@[j]@ == before.files@[j]@);
                            assert(was.knows(cc.files@[k]@));
                        }
                    }
                }
                assert forall|k: int| 0 <= k < before.files@.len() implies (
                #[trigger] cc.files@[k])@ == before.files@[k]@ by {
                    assert(mid.files@[k]@ == was.files@[k]@);
                }
                assert forall|x: int, y: int| #[trigger] cc.count(x, y) == before.count(x, y) by {
                    assert(mid.count(x, y) == was.count(x, y));
                }
            }
        }
        i += 1;
    }
    ids
}

proof fn lemma_kept_grows(files: Seq<ChangedFile>, m: int, n: int)
    requires
        0 <= m <= n <= files.len(),
    ensures
        kept_paths(files, m).len() <= kept_paths(files, n).len(),
    decreases n - m,
{
    if m < n {
        lemma_kept_grows(files, m, n - 1);
    }
}

/// Count the pairs of one commit.
fn count_pairs(cc: &mut CoChange, ids: &Vec<usize>, Ghost(bound): Ghost<int>)
    requires
        old(cc).wf(),
        forall|k: int| 0 <= k < ids@.len() ==> (#[trigger] ids@[k]) < old(cc).files@.len(),
        forall|x: int, y: int|
            0 <= x <= y < old(cc).files@.len() ==> #[trigger] old(cc).count(x, y) + ids@.len()
                * ids@.len() <= bound,
        bound < u32::MAX,
    ensures
        final(cc).wf(),
        final(cc).files == old(cc).files,
        final(cc).freq == old(cc).freq,
        final(cc).skipped_bulk == old(cc).skipped_bulk,
        forall|x: int, y: int|
            0 <= x <= y < old(cc).files@.len() ==> #[trigger] final(cc).count(x, y) == old(
                cc,
            ).count(x, y) + pairings(ids@, x as usize, y as usize),
{
    let ghost before = *cc;
    let mut j: usize = 0;
    while j < ids.len()
        invariant
            j <= ids@.len(),
            cc.wf(),
            cc.files == before.files,
            cc.freq == before.freq,
            cc.skipped_bulk == before.skipped_bulk,
            forall|k: int| 0 <= k < ids@.len() ==> (#[trigger] ids@[k]) < before.files@.len(),
            forall|x: int, y: int|
                0 <= x <= y < before.files@.len() ==> #[trigger] before.count(x, y) + ids@.len()
                    * ids@.len() <= bound,
            bound < u32::MAX,
            before.files@.len() <= u32::MAX,
            forall|x: int, y: int|
                0 <= x <= y < before.files@.len() ==> #[trigger] cc.count(x, y) == before.count(
                    x,
                    y,
                ) + pairings(ids@.take(j as int), x as usize, y as usize),
        decreases ids.len() - j,
    {
        let b: usize = ids[j];
        let mut i: usize = 0;
        let ghost front = ids@.take(j as int);
        assert(front.take(0) =~= Seq::empty());
        while i < j
            invariant
                i <= j < ids@.len(),
                b == ids@[j as int],
                front == ids@.take(j as int),
                cc.wf(),
                cc.files == before.files,
                cc.freq == before.freq,
                cc.skipped_bulk == before.skipped_bulk,
                forall|k: int| 0 <= k < ids@.len() ==> (#[trigger] ids@[k]) < before.files@.len(),
                forall|x: int, y: int|
                    0 <= x <= y < before.files@.len() ==> #[trigger] before.count(x, y) + ids@.len()
                        * ids@.len() <= bound,
                bound < u32::MAX,
                before.files@.len() <= u32::MAX,
                forall|x: int, y: int|
                    0 <= x <= y < before.files@.len() ==> #[trigger] cc.count(x, y) == before.count(
                        x,
                        y,
                    ) + pairings(front, x as usize, y as usize) + (if x == b {
                        occurrences(front.take(i as int), y as usize)
                    } else if y == b {
                        occurrences(front.take(i as int), x as usize)
                    } else {
                        0
                    }),
            decreases j - i,
        {
            let a: usize = ids[i];
            assert(ids@[i as int] < before.files@.len());
            let (x, y) = if a <= b {
                (a, b)
            } else {
                (b, a)
            };
            let ghost was = *cc;
            proof {
                assert(before.count(x as int, y as int) + ids@.len() * ids@.len() <= bound);
                lemma_counts_bounded(front, x, y);
                lemma_counts_bounded(front.take(i as int), x, y);
                lemma_counts_bounded(front.take(i as int), y, x);
                let n = ids@.len() as int;
                let m = j as int;
                assert(m * m + m <= n * n) by (nonlinear_arith)
                    requires
                        0 <= m < n,
                ;
                assert(front.len() == m);
            }
            cc.bump(x, y);
            proof {
                let part = front.take(i as int);
                let more = front.take(i + 1);
                assert(more.drop_last() =~= part);
                assert(more.last() == a);
                assert forall|p: int, q: int| 0 <= p <= q < before.files@.len() implies
                    #[trigger] cc.count(p, q) == before.count(p, q) + pairings(
                    front,
                    p as usize,
                    q as usize,
                ) + (if p == b {
                    occurrences(more, q as usize)
                } else if q == b {
                    occurrences(more, p as usize)
                } else {
                    0
                }) by {
                    assert(was.count(p, q) == before.count(p, q) + pairings(
                        front,
                        p as usize,
                        q as usize,
                    ) + (if p == b {
                        occurrences(part, q as usize)
                    } else if q == b {
                        occurrences(part, p as usize)
                    } else {
                        0
                    }));
                }
            }
            i += 1;
        }
        proof {
            assert(front.take(j as int) =~= front);
            assert(ids@.take(j + 1).drop_last() =~= front);
            assert(ids@.take(j + 1).last() == b);
        }
        j += 1;
    }
    assert(ids@.take(j as int) =~= ids@);
}

/// Count how often files change and change together over `commits`. Commits that change more than
/// `max_files` files are skipped; deletions do not count.
pub fn count_cochanges(commits: &[CommitFiles], max_files: usize) -> (cc: CoChange)
    requires
        weight_upto(commits@, max_files as int, commits@.len() as int) < u32::MAX,
        commits@.len() < u32::MAX,
    ensures
        cc.wf(),
        counts_are(cc, commits@, max_files as int, commits@.len() as int),
{
    let mut cc = CoChange {
        files: Vec::new(),
        freq: Vec::new(),
        pairs: Vec::new(),
        counts: pairs_new(),
        numbers: paths_new(),
        skipped_bulk: 0,
    };
    assert(numbered(cc.files@) =~= Seq::empty());
    let ghost max = max_files as int;
    let mut n: usize = 0;
    while n < commits.len()
        invariant
            n <= commits@.len(),
            max == max_files,
            weight_upto(commits@, max, commits@.len() as int) < u32::MAX,
            commits@.len() < u32::MAX,
            cc.wf(),
            counts_are(cc, commits@, max, n as int),
            cc.files@.len() <= weight_upto(commits@, max, n as int),
        decreases commits.len() - n,
    {
        let c = &commits[n];
        let ghost before = cc;
        let count: usize = changed_count(c);
        proof {
            lemma_weight_grows(commits@, max, n + 1, commits@.len() as int);
            lemma_counts_within_weight(commits@, max, Seq::empty(), Seq::empty(), n as int);
        }
        if count > max_files {
            cc.skipped_bulk = cc.skipped_bulk + 1;
            proof {
                assert forall|i: int, j: int| 0 <= i <= j < cc.files@.len() implies
                    #[trigger] cc.count(i, j) == together_upto(
                    commits@,
                    max,
                    cc.files@[i]@,
                    cc.files@[j]@,
                    n + 1,
                ) by {
                    assert(before.count(i, j) == cc.count(i, j));
                }
                assert forall|p: Seq<u8>| #[trigger] cc.knows(p) <==> freq_upto(
                    commits@,
                    max,
                    p,
                    n + 1,
                ) > 0 by {
                    assert(before.knows(p) <==> freq_upto(commits@, max, p, n as int) > 0);
                    assert(cc.knows(p) == before.knows(p));
                }
            }
        } else {
            let ghost w0 = weight_upto(commits@, max, n as int);
            let ghost w1 = weight_upto(commits@, max, n + 1);
            let ghost l = changed(*c).len() as int;
            proof {
                assert(w1 == w0 + l * (l + 1));
                assert(l * (l + 1) == l * l + l) by (nonlinear_arith);
                assert(l * l >= 0) by (nonlinear_arith)
                    requires
                        l >= 0,
                ;
                assert forall|i: int| 0 <= i < cc.files@.len() implies (#[trigger] cc.freq@[i]) + l
                    <= w1 by {
                    lemma_counts_within_weight(
                        commits@,
                        max,
                        cc.files@[i]@,
                        cc.files@[i]@,
                        n as int,
                    );
                    assert(cc.freq@[i] == freq_upto(commits@, max, cc.files@[i]@, n as int));
                }
            }
            let ids = number_commit(&mut cc, c, Ghost(w1));
            let ghost mid = cc;
            proof {
                cc.lemma_facts();
                assert forall|x: int, y: int| 0 <= x <= y < cc.files@.len() implies
                    #[trigger] cc.count(x, y) + ids@.len() * ids@.len() <= w1 by {
                    lemma_mid_counts(before, mid, commits@, max, n as int, x, y);
                    lemma_counts_within_weight(
                        commits@,
                        max,
                        cc.files@[x]@,
                        cc.files@[y]@,
                        n as int,
                    );
                }
            }
            count_pairs(&mut cc, &ids, Ghost(w1));
            proof {
                lemma_commit_done(before, mid, cc, ids@, commits@, max, n as int);
                lemma_new_files(before, mid, ids@, changed(*c));
            }
        }
        n += 1;
    }
    cc
}

/// Before its pairs are counted, a commit's newly numbered files have no count.
proof fn lemma_mid_counts(
    before: CoChange,
    mid: CoChange,
    commits: Seq<CommitFiles>,
    max: int,
    n: int,
    x: int,
    y: int,
)
    requires
        before.wf(),
        mid.wf(),
        counts_are(before, commits, max, n),
        0 <= n <= commits.len(),
        before.files@.len() <= mid.files@.len(),
        forall|i: int|
            0 <= i < before.files@.len() ==> (#[trigger] mid.files@[i])@ == before.files@[i]@,
        forall|a: int, b: int| #[trigger] mid.count(a, b) == before.count(a, b),
        forall|i: int|
            before.files@.len() <= i < mid.files@.len() ==> !before.knows(
                (#[trigger] mid.files@[i])@,
            ),
        0 <= x <= y < mid.files@.len(),
    ensures
        mid.count(x, y) == together_upto(commits, max, mid.files@[x]@, mid.files@[y]@, n),
{
    if y < before.files@.len() {
        assert(before.count(x, y) == together_upto(
            commits,
            max,
            before.files@[x]@,
            before.files@[y]@,
            n,
        ));
    } else {
        assert(!before.knows(mid.files@[y]@));
        lemma_counts_within_weight(commits, max, mid.files@[y]@, mid.files@[x]@, n);
        assert(freq_upto(commits, max, mid.files@[y]@, n) <= 0);
        lemma_unseen(commits, max, mid.files@[y]@, mid.files@[x]@, n);
        lemma_together_symmetric(commits, max, mid.files@[y]@, mid.files@[x]@, n);
        if mid.count(x, y) > 0 {
            before.lemma_facts();
            assert(before.count(x, y) > 0);
            assert(before.pairs@.contains((x as usize, y as usize)));
            let k = before.pairs@.index_of((x as usize, y as usize));
            assert(before.pairs@[k].1 < before.files@.len());
        }
    }
}

proof fn lemma_together_symmetric(
    commits: Seq<CommitFiles>,
    max: int,
    p: Seq<u8>,
    q: Seq<u8>,
    n: int,
)
    ensures
        together_upto(commits, max, p, q, n) == together_upto(commits, max, q, p, n),
    decreases n,
{
    if n > 0 {
        lemma_together_symmetric(commits, max, p, q, n - 1);
        lemma_pairings_symmetric(changed(commits[n - 1]), p, q);
    }
}

/// A file that was never changed was never changed together with another.
proof fn lemma_unseen(commits: Seq<CommitFiles>, max: int, p: Seq<u8>, q: Seq<u8>, n: int)
    requires
        0 <= n <= commits.len(),
        freq_upto(commits, max, p, n) <= 0,
    ensures
        together_upto(commits, max, p, q, n) == 0,
    decreases n,
{
    if n > 0 {
        let s = changed(commits[n - 1]);
        lemma_counts_bounded(s, p, q);
        lemma_counts_within_weight(commits, max, p, q, n - 1);
        lemma_unseen(commits, max, p, q, n - 1);
        if is_counted(commits[n - 1], max) {
            lemma_zero_absent(s, p);
            lemma_absent(s, p, q);
        }
    }
}

proof fn lemma_zero_absent<T>(s: Seq<T>, x: T)
    requires
        occurrences(s, x) == 0,
    ensures
        !s.contains(x),
    decreases s.len(),
{
    if s.len() > 0 {
        lemma_counts_bounded(s.drop_last(), x, x);
        lemma_zero_absent(s.drop_last(), x);
        if s.contains(x) {
            let k = s.index_of(x);
            if k < s.len() - 1 {
                assert(s.drop_last()[k] == x);
            }
        }
    }
}

proof fn lemma_present_counted<T>(s: Seq<T>, x: T)
    requires
        s.contains(x),
    ensures
        occurrences(s, x) > 0,
    decreases s.len(),
{
    let k = s.index_of(x);
    lemma_counts_bounded(s.drop_last(), x, x);
    if k < s.len() - 1 {
        assert(s.drop_last()[k] == x);
        lemma_present_counted(s.drop_last(), x);
    }
}

proof fn lemma_new_files(before: CoChange, mid: CoChange, ids: Seq<usize>, paths: Seq<Seq<u8>>)
    requires
        numbering(mid, before, ids, paths),
        before.wf(),
    ensures
        mid.files@.len() <= before.files@.len() + paths.len(),
{
    mid.lemma_facts();
    let extra = mid.files@.len() - before.files@.len();
    let fresh = Seq::new(extra as nat, |i: int| mid.files@[before.files@.len() + i]@);
    assert(fresh.no_duplicates()) by {
        assert forall|i: int, j: int|
            0 <= i < fresh.len() && 0 <= j < fresh.len() && i != j implies fresh[i] != fresh[j] by {
            let a = before.files@.len() + i;
            let b = before.files@.len() + j;
            if i < j {
                assert(mid.files@[a as int]@ != mid.files@[b as int]@);
            } else {
                assert(mid.files@[b as int]@ != mid.files@[a as int]@);
            }
        }
    }
    assert forall|x: Seq<u8>| #[trigger] fresh.to_set().contains(x) implies paths.to_set().contains(
        x,
    ) by {
        let i = fresh.index_of(x);
        assert(paths.contains(mid.files@[before.files@.len() + i]@));
    }
    fresh.unique_seq_to_set();
    vstd::set_lib::lemma_len_subset(fresh.to_set(), paths.to_set());
    paths.lemma_cardinality_of_set();
}

proof fn lemma_commit_done(
    before: CoChange,
    mid: CoChange,
    after: CoChange,
    ids: Seq<usize>,
    commits: Seq<CommitFiles>,
    max: int,
    n: int,
)
    requires
        0 <= n < commits.len(),
        before.wf(),
        counts_are(before, commits, max, n),
        is_counted(commits[n], max),
        numbering(mid, before, ids, changed(commits[n])),
        after.wf(),
        after.files == mid.files,
        after.freq == mid.freq,
        after.skipped_bulk == mid.skipped_bulk,
        forall|x: int, y: int|
            0 <= x <= y < mid.files@.len() ==> #[trigger] after.count(x, y) == mid.count(x, y)
                + pairings(ids, x as usize, y as usize),
    ensures
        counts_are(after, commits, max, n + 1),
{
    let paths = changed(commits[n]);
    mid.lemma_facts();
    assert forall|i: int| 0 <= i < after.files@.len() implies after.freq@[i] == freq_upto(
        commits,
        max,
        (#[trigger] after.files@[i])@,
        n + 1,
    ) && after.freq@[i] > 0 by {
        lemma_counts_by_number(ids, paths, mid.files@, i, i);
        assert(mid.freq@[i] == (if i < before.files@.len() {
            before.freq@[i] as int
        } else {
            0
        }) + occurrences(ids, i as usize));
        lemma_counts_bounded(ids, i as usize, i as usize);
        lemma_counts_within_weight(commits, max, mid.files@[i]@, mid.files@[i]@, n);
        if i < before.files@.len() {
            assert(mid.files@[i]@ == before.files@[i]@);
        } else {
            assert(!before.knows(mid.files@[i]@));
            lemma_present_counted(paths, mid.files@[i]@);
        }
    }
    assert forall|i: int, j: int| 0 <= i <= j < after.files@.len() implies #[trigger] after.count(
        i,
        j,
    ) == together_upto(commits, max, after.files@[i]@, after.files@[j]@, n + 1) by {
        lemma_mid_counts(before, mid, commits, max, n, i, j);
        lemma_counts_by_number(ids, paths, mid.files@, i, j);
    }
    assert forall|p: Seq<u8>| #[trigger] after.knows(p) <==> freq_upto(commits, max, p, n + 1)
        > 0 by {
        assert(before.knows(p) <==> freq_upto(commits, max, p, n) > 0);
        lemma_counts_bounded(paths, p, p);
        lemma_counts_within_weight(commits, max, p, p, n);
        if after.knows(p) {
            let i = choose|i: int| 0 <= i < after.files@.len() && (#[trigger] after.files@[i])@ == p;
            assert(after.freq@[i] == freq_upto(commits, max, after.files@[i]@, n + 1));
        }
        if freq_upto(commits, max, p, n + 1) > 0 {
            if before.knows(p) {
                let i = choose|i: int|
                    0 <= i < before.files@.len() && (#[trigger] before.files@[i])@ == p;
                assert(mid.files@[i]@ == p);
                assert(after.files@[i]@ == p);
            } else {
                if !paths.contains(p) {
                    lemma_absent(paths, p, p);
                }
                let k = paths.index_of(p);
                assert(ids[k] < mid.files@.len());
                assert(after.files@[ids[k] as int]@ == p);
            }
        }
    }
}

} // verus!
