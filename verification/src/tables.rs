//! Hash tables of the `ahash` crate. Each table in use has a name for what it holds, and each call
//! a contract over that name.
use vstd::prelude::*;

verus! {

/// The hasher of the `ahash` tables: seeded per process, never looked into.
#[verifier::external_type_specification]
#[verifier::external_body]
pub struct ExRandomState(ahash::RandomState);

/// The hash map of the `ahash` crate.
#[verifier::external_type_specification]
#[verifier::external_body]
#[verifier::reject_recursive_types(K)]
#[verifier::reject_recursive_types(V)]
#[verifier::reject_recursive_types(S)]
pub struct ExAHashMap<K, V, S>(ahash::AHashMap<K, V, S>);

/// The hash set of the `ahash` crate.
#[verifier::external_type_specification]
#[verifier::external_body]
#[verifier::reject_recursive_types(T)]
#[verifier::reject_recursive_types(S)]
pub struct ExAHashSet<T, S>(ahash::AHashSet<T, S>);

/// The value at `k`, if there is one.
pub open spec fn entry_at<K, V>(m: Map<K, V>, k: K) -> Option<V> {
    if m.contains_key(k) {
        Some(m[k])
    } else {
        None
    }
}

// ─── Names to numbers ────────────────────────────────────────────────────────

/// The entries of a table from name to number.
pub uninterp spec fn names_held(t: ahash::AHashMap<String, u32>) -> Map<Seq<char>, u32>;

/// `ahash::AHashMap::new`: the empty table.
#[verifier::external_body]
pub(crate) fn names_new() -> (t: ahash::AHashMap<String, u32>)
    ensures
        names_held(t).dom() =~= Set::empty(),
{
    ahash::AHashMap::new()
}

/// `ahash::AHashMap::get`: the number at `name`, if the table has one.
#[verifier::external_body]
pub(crate) fn names_get(t: &ahash::AHashMap<String, u32>, name: &str) -> (n: Option<u32>)
    ensures
        n == entry_at(names_held(*t), name@),
{
    t.get(name).copied()
}

/// `ahash::AHashMap::insert`: `n` stands at `name`, in place of the number there, if any.
#[verifier::external_body]
pub(crate) fn names_insert(t: &mut ahash::AHashMap<String, u32>, name: String, n: u32)
    ensures
        names_held(*final(t)) == names_held(*old(t)).insert(name@, n),
{
    t.insert(name, n);
}

// ─── Paths to numbers ────────────────────────────────────────────────────────

/// The entries of a table from path bytes to number.
pub uninterp spec fn paths_held(t: ahash::AHashMap<Vec<u8>, u32>) -> Map<Seq<u8>, u32>;

/// `ahash::AHashMap::new`: the empty table.
#[verifier::external_body]
pub(crate) fn paths_new() -> (t: ahash::AHashMap<Vec<u8>, u32>)
    ensures
        paths_held(t).dom() =~= Set::empty(),
{
    ahash::AHashMap::new()
}

/// `ahash::AHashMap::get`: the number at `path`, if the table has one.
#[verifier::external_body]
pub(crate) fn paths_get(t: &ahash::AHashMap<Vec<u8>, u32>, path: &[u8]) -> (n: Option<u32>)
    ensures
        n == entry_at(paths_held(*t), path@),
{
    t.get(path).copied()
}

/// `ahash::AHashMap::insert`: `n` stands at `path`, in place of the number there, if any.
#[verifier::external_body]
pub(crate) fn paths_insert(t: &mut ahash::AHashMap<Vec<u8>, u32>, path: Vec<u8>, n: u32)
    ensures
        paths_held(*final(t)) == paths_held(*old(t)).insert(path@, n),
{
    t.insert(path, n);
}

// ─── Pairs to numbers ────────────────────────────────────────────────────────

/// The entries of a table from pair to number.
pub uninterp spec fn pairs_held(t: ahash::AHashMap<(usize, usize), u32>) -> Map<(usize, usize), u32>;

/// `ahash::AHashMap::new`: the empty table.
#[verifier::external_body]
pub(crate) fn pairs_new() -> (t: ahash::AHashMap<(usize, usize), u32>)
    ensures
        pairs_held(t).dom() =~= Set::empty(),
{
    ahash::AHashMap::new()
}

/// `ahash::AHashMap::get`: the number at `pair`, if the table has one.
#[verifier::external_body]
pub(crate) fn pairs_get(t: &ahash::AHashMap<(usize, usize), u32>, pair: (usize, usize)) -> (n: Option<u32>)
    ensures
        n == entry_at(pairs_held(*t), pair),
{
    t.get(&pair).copied()
}

/// `ahash::AHashMap::insert`: `n` stands at `pair`, in place of the number there, if any.
#[verifier::external_body]
pub(crate) fn pairs_insert(t: &mut ahash::AHashMap<(usize, usize), u32>, pair: (usize, usize), n: u32)
    ensures
        pairs_held(*final(t)) == pairs_held(*old(t)).insert(pair, n),
{
    t.insert(pair, n);
}

// ─── Sets of offsets ─────────────────────────────────────────────────────────

/// The members of a set of offsets.
pub uninterp spec fn offsets_held(t: ahash::AHashSet<u32>) -> Set<u32>;

/// `ahash::AHashSet::new`: the empty set.
#[verifier::external_body]
pub(crate) fn offsets_new() -> (t: ahash::AHashSet<u32>)
    ensures
        offsets_held(t) =~= Set::empty(),
{
    ahash::AHashSet::new()
}

/// `ahash::AHashSet::contains`: whether `x` is a member.
#[verifier::external_body]
pub(crate) fn offsets_has(t: &ahash::AHashSet<u32>, x: u32) -> (yes: bool)
    ensures
        yes == offsets_held(*t).contains(x),
{
    t.contains(&x)
}

/// `ahash::AHashSet::insert`: `x` becomes a member; the result says whether it was not one before.
#[verifier::external_body]
pub(crate) fn offsets_insert(t: &mut ahash::AHashSet<u32>, x: u32) -> (fresh: bool)
    ensures
        offsets_held(*final(t)) == offsets_held(*old(t)).insert(x),
        fresh == !offsets_held(*old(t)).contains(x),
{
    t.insert(x)
}

// ─── Sets of spans ───────────────────────────────────────────────────────────

/// The members of a set of pairs of spans.
pub uninterp spec fn spans_held(t: ahash::AHashSet<(u32, u32, u32, u32)>) -> Set<(u32, u32, u32, u32)>;

/// `ahash::AHashSet::new`: the empty set.
#[verifier::external_body]
pub(crate) fn spans_new() -> (t: ahash::AHashSet<(u32, u32, u32, u32)>)
    ensures
        spans_held(t) =~= Set::empty(),
{
    ahash::AHashSet::new()
}

/// `ahash::AHashSet::insert`: `x` becomes a member; the result says whether it was not one before.
#[verifier::external_body]
pub(crate) fn spans_insert(t: &mut ahash::AHashSet<(u32, u32, u32, u32)>, x: (u32, u32, u32, u32)) -> (fresh:
    bool)
    ensures
        spans_held(*final(t)) == spans_held(*old(t)).insert(x),
        fresh == !spans_held(*old(t)).contains(x),
{
    t.insert(x)
}

// ─── Call sites by file ──────────────────────────────────────────────────────

/// A set of positions in files, grouped by path.
pub struct SiteTable {
    index: ahash::AHashMap<Vec<u8>, u32>,
    starts: Vec<ahash::AHashSet<u32>>,
}

impl SiteTable {
    /// Every path of the index stands for one of the sets.
    pub closed spec fn wf(&self) -> bool {
        &&& self.starts@.len() <= u32::MAX
        &&& forall|p: Seq<u8>|
            #[trigger] paths_held(self.index).contains_key(p) ==> paths_held(self.index)[p]
                < self.starts@.len()
        &&& forall|p: Seq<u8>, q: Seq<u8>|
            #![trigger paths_held(self.index)[p], paths_held(self.index)[q]]
            paths_held(self.index).contains_key(p) && paths_held(self.index).contains_key(q)
                && paths_held(self.index)[p] == paths_held(self.index)[q] ==> p == q
    }

    /// Whether the position `start` of the file `path` is in the table.
    pub closed spec fn holds(&self, path: Seq<u8>, start: u32) -> bool {
        paths_held(self.index).contains_key(path) && offsets_held(
            self.starts@[paths_held(self.index)[path] as int],
        ).contains(start)
    }

    /// How many files the table speaks of.
    pub closed spec fn file_count(&self) -> nat {
        self.starts@.len()
    }

    /// The empty table.
    pub fn new() -> (t: SiteTable)
        ensures
            t.wf(),
            t.file_count() == 0,
            forall|p: Seq<u8>, s: u32| !#[trigger] t.holds(p, s),
    {
        SiteTable { index: paths_new(), starts: Vec::new() }
    }

    /// Whether the position `start` of the file `path` is in the table.
    pub fn has(&self, path: &[u8], start: u32) -> (yes: bool)
        requires
            self.wf(),
        ensures
            yes == self.holds(path@, start),
    {
        match paths_get(&self.index, path) {
            Some(i) => offsets_has(&self.starts[i as usize], start),
            None => false,
        }
    }

    /// Put the position `start` of the file `path` in the table.
    pub fn add(&mut self, path: &[u8], start: u32)
        requires
            old(self).wf(),
            old(self).file_count() < u32::MAX,
        ensures
            final(self).wf(),
            final(self).file_count() <= old(self).file_count() + 1,
            forall|p: Seq<u8>, s: u32| #[trigger]
                final(self).holds(p, s) == (old(self).holds(p, s) || (p == path@ && s == start)),
    {
        let ghost before = *self;
        match paths_get(&self.index, path) {
            Some(i) => {
                let _fresh = offsets_insert(&mut self.starts[i as usize], start);
                proof {
                    assert forall|p: Seq<u8>, s: u32| #[trigger]
                        self.holds(p, s) == (before.holds(p, s) || (p == path@ && s == start)) by {
                        if paths_held(self.index).contains_key(p) {
                            let k = paths_held(self.index)[p];
                            assert(paths_held(self.index)[path@] == i);
                            if k == i {
                                assert(p == path@);
                            }
                        }
                    }
                }
            },
            None => {
                let mut set = offsets_new();
                let _fresh = offsets_insert(&mut set, start);
                let n: u32 = self.starts.len() as u32;
                self.starts.push(set);
                paths_insert(&mut self.index, crate::text::copy_bytes(path), n);
                proof {
                    assert forall|p: Seq<u8>, s: u32| #[trigger]
                        self.holds(p, s) == (before.holds(p, s) || (p == path@ && s == start)) by {
                        if p != path@ && paths_held(before.index).contains_key(p) {
                            assert(paths_held(self.index)[p] == paths_held(before.index)[p]);
                        }
                    }
                }
            },
        }
    }
}

} // verus!
