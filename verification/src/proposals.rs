//! Mining skill proposals from co-changes: which files belong together, under which id, and how
//! the proposal reads.
use vstd::prelude::*;

use crate::cochange::CoChange;
use crate::digest::{blake3_digest, blake3_of, hex_encode, hex_text};
use crate::keys::{push_all, PROPOSAL_KIND_SKILL};
use crate::model::RelPath;
use crate::navigate::{lossy, lossy_text};
use crate::sort::{sort_by_key, Keyed};
use crate::tables::{names_get, names_held, names_insert, names_new};
use crate::text::{
    decimal, decimal_of, join, joined, lemma_ascending_unique, lemma_lex_total, lex_ascends,
    lex_less, texts,
};
use crate::walk::{bound, bounded};

verus! {

pub const DEFAULT_MINE_WINDOW: u32 = 200;

pub const MAX_MINE_WINDOW: u32 = 2000;

pub const DEFAULT_MIN_SUPPORT: u32 = 5;

pub const DEFAULT_MAX_FILES_PER_COMMIT: u32 = 25;

pub const HARD_MAX_FILES_PER_COMMIT: u32 = 200;

/// The bounds under which commits are mined.
#[derive(Debug, Clone, Copy)]
pub struct MineBounds {
    /// How many recent commits are walked.
    pub window: u32,
    /// How often files must change together.
    pub min_support: u32,
    /// Commits that change more files are skipped.
    pub max_files_per_commit: u32,
}

/// The bounds of a request: its own numbers or the defaults, under the ceilings.
pub fn mine_bounds(window: Option<u32>, min_support: Option<u32>, max_files: Option<u32>) -> (b:
    MineBounds)
    ensures
        b.window == bounded(window, DEFAULT_MINE_WINDOW, MAX_MINE_WINDOW),
        b.min_support == (match min_support {
            Some(n) => n,
            None => DEFAULT_MIN_SUPPORT,
        }),
        b.max_files_per_commit == bounded(
            max_files,
            DEFAULT_MAX_FILES_PER_COMMIT,
            HARD_MAX_FILES_PER_COMMIT,
        ),
{
    MineBounds {
        window: bound(window, DEFAULT_MINE_WINDOW, MAX_MINE_WINDOW),
        min_support: match min_support {
            Some(n) => n,
            None => DEFAULT_MIN_SUPPORT,
        },
        max_files_per_commit: bound(
            max_files,
            DEFAULT_MAX_FILES_PER_COMMIT,
            HARD_MAX_FILES_PER_COMMIT,
        ),
    }
}

impl Keyed for RelPath {
    open spec fn sort_key(&self) -> Seq<u8> {
        self@
    }

    fn key_bytes(&self) -> (k: &[u8]) {
        self.bytes.as_slice()
    }
}

/// The paths of a list.
pub open spec fn paths_of(list: Seq<RelPath>) -> Seq<Seq<u8>> {
    list.map_values(|p: RelPath| p@)
}

/// A copy of a list of paths.
pub fn copy_paths(list: &[RelPath]) -> (copy: Vec<RelPath>)
    ensures
        paths_of(copy@) == paths_of(list@),
{
    let mut copy: Vec<RelPath> = Vec::new();
    let mut i: usize = 0;
    while i < list.len()
        invariant
            i <= list@.len(),
            copy@.len() == i,
            forall|j: int| 0 <= j < i ==> (#[trigger] copy@[j])@ == list@[j]@,
        decreases list@.len() - i,
    {
        copy.push(list[i].copy());
        i += 1;
    }
    assert(paths_of(copy@) =~= paths_of(list@));
    copy
}

// ─── Content-addressed ids ───────────────────────────────────────────────────

/// The bytes that identify a set of files: each path, ended by a NUL.
pub open spec fn id_bytes(files: Seq<Seq<u8>>) -> Seq<u8>
    decreases files.len(),
{
    if files.len() == 0 {
        Seq::empty()
    } else {
        id_bytes(files.drop_last()) + files.last().push(0)
    }
}

/// The id of a sorted set of files: the hexadecimal digest of its bytes.
pub open spec fn id_of(files: Seq<Seq<u8>>) -> Seq<char> {
    hex_text(blake3_of(id_bytes(files)))
}

/// The id of a sorted set of files. It does not depend on which file a pair was found from.
pub fn proposal_id(sorted_files: &[RelPath]) -> (id: String)
    ensures
        id@ == id_of(paths_of(sorted_files@)),
{
    let mut bytes: Vec<u8> = Vec::new();
    let mut i: usize = 0;
    let ghost all = paths_of(sorted_files@);
    assert(bytes@ =~= id_bytes(all.take(0)));
    while i < sorted_files.len()
        invariant
            i <= sorted_files@.len(),
            all == paths_of(sorted_files@),
            bytes@ == id_bytes(all.take(i as int)),
        decreases sorted_files.len() - i,
    {
        let ghost was = bytes@;
        push_all(&mut bytes, sorted_files[i].bytes.as_slice());
        bytes.push(0);
        i += 1;
        assert(all.take(i as int).drop_last() =~= all.take(i - 1));
        assert(bytes@ =~= was + all[i - 1].push(0));
    }
    assert(all.take(i as int) =~= all);
    hex_encode(blake3_digest(bytes.as_slice()).as_slice())
}

/// Two sets of files without NUL in their paths have different identifying bytes.
pub proof fn law_id_bytes_injective(a: Seq<Seq<u8>>, b: Seq<Seq<u8>>)
    requires
        forall|i: int| 0 <= i < a.len() ==> crate::keys::nul_free(#[trigger] a[i]),
        forall|i: int| 0 <= i < b.len() ==> crate::keys::nul_free(#[trigger] b[i]),
        id_bytes(a) == id_bytes(b),
    ensures
        a == b,
    decreases a.len(),
{
    if a.len() == 0 || b.len() == 0 {
        if a.len() > 0 {
            assert(id_bytes(a).len() > 0);
        }
        if b.len() > 0 {
            assert(id_bytes(b).len() > 0);
        }
        assert(a =~= b);
    } else {
        let k = id_bytes(a);
        let n = k.len() as int;
        let la = a.last();
        let lb = b.last();
        let fa = id_bytes(a.drop_last());
        let fb = id_bytes(b.drop_last());
        lemma_id_ends(a.drop_last());
        lemma_id_ends(b.drop_last());
        assert(crate::keys::nul_free(a[a.len() - 1]));
        assert(crate::keys::nul_free(b[b.len() - 1]));
        if la.len() < lb.len() {
            let p = n - 2 - la.len();
            assert(k[p] == lb[lb.len() - 1 - la.len()]);
            assert(fa.len() == n - 1 - la.len());
            assert(fa.len() > 0);
            assert(k[p] == fa[p]);
            assert(fa[fa.len() - 1] == 0);
        } else if lb.len() < la.len() {
            let p = n - 2 - lb.len();
            assert(k[p] == la[la.len() - 1 - lb.len()]);
            assert(fb.len() == n - 1 - lb.len());
            assert(fb.len() > 0);
            assert(k[p] == fb[p]);
            assert(fb[fb.len() - 1] == 0);
        }
        assert(fa =~= k.take(fa.len() as int));
        assert(fb =~= k.take(fb.len() as int));
        assert(la =~= k.subrange(fa.len() as int, n - 1));
        assert(lb =~= k.subrange(fb.len() as int, n - 1));
        assert forall|i: int| 0 <= i < a.drop_last().len() implies crate::keys::nul_free(
            #[trigger] a.drop_last()[i],
        ) by {
            assert(a.drop_last()[i] == a[i]);
        }
        assert forall|i: int| 0 <= i < b.drop_last().len() implies crate::keys::nul_free(
            #[trigger] b.drop_last()[i],
        ) by {
            assert(b.drop_last()[i] == b[i]);
        }
        law_id_bytes_injective(a.drop_last(), b.drop_last());
        assert(a =~= a.drop_last().push(la));
        assert(b =~= b.drop_last().push(lb));
    }
}

proof fn lemma_id_ends(a: Seq<Seq<u8>>)
    ensures
        id_bytes(a).len() > 0 ==> id_bytes(a).last() == 0,
{
    if a.len() > 0 {
        assert(id_bytes(a).last() == a.last().push(0).last());
    }
}

// ─── Clusters ────────────────────────────────────────────────────────────────

/// A judge of confidence: given how often two files changed together and how often the anchor
/// changed, it says yes or no, and always the same.
pub open spec fn judges<F: Fn(u32, u32) -> bool>(f: F) -> bool {
    forall|c: u32, n: u32| #[trigger]
        f.requires((c, n)) && !(f.ensures((c, n), true) && f.ensures((c, n), false))
}

/// Whether the judge is confident.
pub open spec fn sure<F: Fn(u32, u32) -> bool>(f: F, c: u32, n: u32) -> bool {
    f.ensures((c, n), true)
}

/// How often two files changed together.
pub open spec fn shared(cc: CoChange, a: int, b: int) -> int {
    if a <= b {
        cc.count(a, b)
    } else {
        cc.count(b, a)
    }
}

/// Whether file `p` belongs with the anchor `a`: they changed together, often enough, and with
/// confidence.
pub open spec fn is_partner<F: Fn(u32, u32) -> bool>(
    cc: CoChange,
    a: int,
    p: int,
    min_support: u32,
    f: F,
) -> bool {
    shared(cc, a, p) > 0 && shared(cc, a, p) >= min_support && sure(
        f,
        shared(cc, a, p) as u32,
        cc.freq@[a],
    )
}

/// Whether the pair `k` makes `a` an anchor: it is the more frequent file of the pair (the first
/// on a tie), and the pair passes both thresholds.
pub open spec fn anchors_pair<F: Fn(u32, u32) -> bool>(
    cc: CoChange,
    a: int,
    k: int,
    min_support: u32,
    f: F,
) -> bool {
    let x = cc.pairs@[k].0 as int;
    let y = cc.pairs@[k].1 as int;
    let hot = if cc.freq@[x] >= cc.freq@[y] {
        x
    } else {
        y
    };
    a == hot && cc.count(x, y) >= min_support && sure(f, cc.count(x, y) as u32, cc.freq@[hot])
}

/// Whether `a` is an anchor.
pub open spec fn is_anchor<F: Fn(u32, u32) -> bool>(
    cc: CoChange,
    a: int,
    min_support: u32,
    f: F,
) -> bool {
    exists|k: int| 0 <= k < cc.pairs@.len() && #[trigger] anchors_pair(cc, a, k, min_support, f)
}

/// Whether file `i` is in the cluster of the anchor `a`.
pub open spec fn in_cluster<F: Fn(u32, u32) -> bool>(
    cc: CoChange,
    a: int,
    i: int,
    min_support: u32,
    f: F,
) -> bool {
    i == a || is_partner(cc, a, i, min_support, f)
}

/// `s` lists the paths of the cluster of `a` in ascending order.
pub open spec fn is_cluster<F: Fn(u32, u32) -> bool>(
    s: Seq<Seq<u8>>,
    cc: CoChange,
    a: int,
    min_support: u32,
    f: F,
) -> bool {
    &&& lex_ascends(s)
    &&& forall|p: Seq<u8>| #[trigger]
        s.contains(p) <==> exists|i: int|
            0 <= i < cc.files@.len() && (#[trigger] cc.files@[i])@ == p && in_cluster(
                cc,
                a,
                i,
                min_support,
                f,
            )
}

/// The paths of the cluster of `a`, in ascending order.
pub open spec fn cluster_of<F: Fn(u32, u32) -> bool>(
    cc: CoChange,
    a: int,
    min_support: u32,
    f: F,
) -> Seq<Seq<u8>> {
    choose|s: Seq<Seq<u8>>| is_cluster(s, cc, a, min_support, f)
}

/// A list of the paths of a cluster in ascending order is the cluster.
pub proof fn lemma_cluster_unique<F: Fn(u32, u32) -> bool>(
    s: Seq<Seq<u8>>,
    cc: CoChange,
    a: int,
    min_support: u32,
    f: F,
)
    requires
        is_cluster(s, cc, a, min_support, f),
    ensures
        cluster_of(cc, a, min_support, f) == s,
{
    let t = cluster_of(cc, a, min_support, f);
    assert(is_cluster(t, cc, a, min_support, f));
    assert forall|x: Seq<u8>| #[trigger] s.contains(x) <==> t.contains(x) by {}
    lemma_ascending_unique(s, t);
}

/// Which files are in the cluster of `a`.
fn cluster_flags<F: Fn(u32, u32) -> bool>(
    cc: &CoChange,
    a: usize,
    min_support: u32,
    confident: &F,
) -> (flags: Vec<bool>)
    requires
        cc.wf(),
        judges(*confident),
        a < cc.files@.len(),
    ensures
        flags@.len() == cc.files@.len(),
        forall|i: int|
            0 <= i < flags@.len() ==> #[trigger] flags@[i] == in_cluster(
                *cc,
                a as int,
                i,
                min_support,
                *confident,
            ),
{
    proof {
        cc.lemma_facts();
    }
    let n: usize = cc.files.len();
    let mut flags: Vec<bool> = Vec::new();
    let mut i: usize = 0;
    while i < n
        invariant
            i <= n,
            n == cc.files@.len(),
            cc.wf(),
            cc.freq@.len() == n,
            judges(*confident),
            a < n,
            flags@.len() == i,
            forall|k: int|
                0 <= k < i ==> #[trigger] flags@[k] == in_cluster(
                    *cc,
                    a as int,
                    k,
                    min_support,
                    *confident,
                ),
        decreases n - i,
    {
        let count: u32 = if a <= i {
            cc.get(a, i)
        } else {
            cc.get(i, a)
        };
        assert(count == shared(*cc, a as int, i as int));
        let mut flag: bool = i == a;
        if !flag && count > 0 && count >= min_support {
            let freq: u32 = cc.freq[a];
            assert(confident.requires((count, freq)));
            flag = confident(count, freq);
        }
        flags.push(flag);
        i += 1;
    }
    flags
}

/// The paths that belong with the anchor `a`, and its own, in ascending order.
pub fn build_cluster<F: Fn(u32, u32) -> bool>(
    anchor: usize,
    cc: &CoChange,
    min_support: u32,
    confident: &F,
) -> (cluster: Vec<RelPath>)
    requires
        cc.wf(),
        judges(*confident),
        anchor < cc.files@.len(),
    ensures
        is_cluster(paths_of(cluster@), *cc, anchor as int, min_support, *confident),
        paths_of(cluster@) == cluster_of(*cc, anchor as int, min_support, *confident),
{
    let flags = cluster_flags(cc, anchor, min_support, confident);
    proof {
        cc.lemma_facts();
    }
    let mut list: Vec<RelPath> = Vec::new();
    let ghost mut from: Seq<int> = Seq::empty();
    let mut i: usize = 0;
    while i < cc.files.len()
        invariant
            i <= cc.files@.len(),
            flags@.len() == cc.files@.len(),
            list@.len() == from.len(),
            forall|k: int|
                0 <= k < from.len() ==> 0 <= #[trigger] from[k] < i && flags@[from[k]]
                    && list@[k]@ == cc.files@[from[k]]@,
            forall|k: int, l: int| 0 <= k < l < from.len() ==> from[k] < from[l],
            forall|j: int| 0 <= j < i && #[trigger] flags@[j] ==> from.contains(j),
        decreases cc.files.len() - i,
    {
        let ghost was = from;
        if flags[i] {
            list.push(cc.files[i].copy());
            proof {
                from = from.push(i as int);
                assert(from[was.len() as int] == i);
            }
        }
        proof {
            assert forall|j: int| 0 <= j < i + 1 && #[trigger] flags@[j] implies from.contains(
                j,
            ) by {
                if j < i {
                    let k = was.index_of(j);
                    assert(from[k] == j);
                } else {
                    assert(from[was.len() as int] == j);
                }
            }
        }
        i += 1;
    }
    let ghost unsorted = list@;
    let sorted = sort_by_key(list);
    proof {
        let s = paths_of(sorted@);
        assert(unsorted.no_duplicates()) by {
            assert forall|k: int, l: int|
                0 <= k < unsorted.len() && 0 <= l < unsorted.len() && k != l implies unsorted[k]
                != unsorted[l] by {
                if k < l {
                    assert(from[k] < from[l]);
                    assert(cc.files@[from[k]]@ != cc.files@[from[l]]@);
                } else {
                    assert(from[l] < from[k]);
                    assert(cc.files@[from[l]]@ != cc.files@[from[k]]@);
                }
            }
        }
        unsorted.lemma_multiset_has_no_duplicates();
        sorted@.lemma_multiset_has_no_duplicates_conv();
        assert forall|k: int, l: int| 0 <= k < l < s.len() implies lex_less(
            #[trigger] s[k],
            #[trigger] s[l],
        ) by {
            assert(crate::sort::may_precede(sorted@[k].sort_key(), sorted@[l].sort_key(), true));
            lemma_lex_total(s[k], s[l]);
            if s[k] == s[l] {
                assert(sorted@.contains(sorted@[k]) && sorted@.contains(sorted@[l]));
                assert(unsorted.contains(sorted@[k]) && unsorted.contains(sorted@[l]));
                let x = unsorted.index_of(sorted@[k]);
                let y = unsorted.index_of(sorted@[l]);
                assert(sorted@[k] != sorted@[l]);
                assert(x != y);
                if x < y {
                    assert(cc.files@[from[x]]@ != cc.files@[from[y]]@);
                } else {
                    assert(cc.files@[from[y]]@ != cc.files@[from[x]]@);
                }
            }
        }
        assert forall|p: Seq<u8>| #[trigger] s.contains(p) <==> exists|i: int|
            0 <= i < cc.files@.len() && (#[trigger] cc.files@[i])@ == p && in_cluster(
                *cc,
                anchor as int,
                i,
                min_support,
                *confident,
            ) by {
            if s.contains(p) {
                let k = s.index_of(p);
                assert(sorted@.contains(sorted@[k]));
                let x = unsorted.index_of(sorted@[k]);
                assert(flags@[from[x]]);
                assert(cc.files@[from[x]]@ == p);
            }
            if exists|i: int|
                0 <= i < cc.files@.len() && (#[trigger] cc.files@[i])@ == p && in_cluster(
                    *cc,
                    anchor as int,
                    i,
                    min_support,
                    *confident,
                ) {
                let i = choose|i: int|
                    0 <= i < cc.files@.len() && (#[trigger] cc.files@[i])@ == p && in_cluster(
                        *cc,
                        anchor as int,
                        i,
                        min_support,
                        *confident,
                    );
                assert(flags@[i]);
                let k = from.index_of(i);
                assert(unsorted[k]@ == p);
                assert(unsorted.contains(unsorted[k]));
                assert(sorted@.contains(unsorted[k]));
                let l = sorted@.index_of(unsorted[k]);
                assert(s[l] == p);
            }
        }
        lemma_cluster_unique(s, *cc, anchor as int, min_support, *confident);
    }
    sorted
}

// ─── Descriptions ────────────────────────────────────────────────────────────

/// The other files of a cluster, as text.
pub open spec fn partner_names(anchor: Seq<u8>, cluster: Seq<Seq<u8>>) -> Seq<Seq<char>>
    decreases cluster.len(),
{
    if cluster.len() == 0 {
        Seq::empty()
    } else if cluster.last() == anchor {
        partner_names(anchor, cluster.drop_last())
    } else {
        partner_names(anchor, cluster.drop_last()).push(lossy_text(cluster.last()))
    }
}

/// How a proposal reads.
pub open spec fn description_of(
    anchor: Seq<u8>,
    cluster: Seq<Seq<u8>>,
    support: u32,
    anchor_freq: u32,
) -> Seq<char> {
    let partners = partner_names(anchor, cluster);
    if partners.len() == 0 {
        "File "@ + lossy_text(anchor) + " changed frequently ("@ + decimal(anchor_freq as nat)
            + " commits)."@
    } else {
        "When editing "@ + lossy_text(anchor) + ", also check "@ + joined(partners, ", "@)
            + " — co-changed in "@ + decimal(support as nat) + " of "@ + decimal(
            anchor_freq as nat,
        ) + " recent commits."@
    }
}

/// The human-readable description of a cluster.
pub fn build_description(anchor: &RelPath, cluster: &[RelPath], support: u32, anchor_freq: u32) -> (d:
    String)
    ensures
        d@ == description_of(anchor@, paths_of(cluster@), support, anchor_freq),
{
    let ghost all = paths_of(cluster@);
    let mut partners: Vec<String> = Vec::new();
    let mut i: usize = 0;
    assert(texts(partners@) =~= partner_names(anchor@, all.take(0)));
    while i < cluster.len()
        invariant
            i <= cluster@.len(),
            all == paths_of(cluster@),
            texts(partners@) == partner_names(anchor@, all.take(i as int)),
        decreases cluster.len() - i,
    {
        let ghost was = partners@;
        if !cluster[i].same(anchor) {
            partners.push(lossy(cluster[i].bytes.as_slice()));
            assert(texts(partners@) =~= texts(was).push(lossy_text(all[i as int])));
        }
        i += 1;
        assert(all.take(i as int).drop_last() =~= all.take(i - 1));
    }
    assert(all.take(i as int) =~= all);
    assert(texts(partners@).len() == partners@.len());
    let name = lossy(anchor.bytes.as_slice());
    if partners.len() == 0 {
        let mut d = String::from_str("File ");
        d.append(name.as_str());
        d.append(" changed frequently (");
        d.append(decimal_of(anchor_freq as u64).as_str());
        d.append(" commits).");
        return d;
    }
    let mut d = String::from_str("When editing ");
    d.append(name.as_str());
    d.append(", also check ");
    d.append(join(partners.as_slice(), ", ").as_str());
    d.append(" — co-changed in ");
    d.append(decimal_of(support as u64).as_str());
    d.append(" of ");
    d.append(decimal_of(anchor_freq as u64).as_str());
    d.append(" recent commits.");
    d
}

// ─── Candidates ──────────────────────────────────────────────────────────────

/// A proposed skill: files that change together. Confidence is `support` over `anchor_freq`, and
/// importance `support` over `window`.
#[derive(Debug)]
pub struct ProposalRecord {
    pub kind: u8,
    pub files: Vec<RelPath>,
    pub support: u32,
    pub anchor_freq: u32,
    pub window: u32,
    pub description: String,
    pub created_at: i64,
}

/// What a proposal says.
pub struct ProposalFact {
    pub kind: u8,
    pub files: Seq<Seq<u8>>,
    pub support: u32,
    pub anchor_freq: u32,
    pub window: u32,
    pub description: Seq<char>,
    pub created_at: i64,
}

impl View for ProposalRecord {
    type V = ProposalFact;

    open spec fn view(&self) -> ProposalFact {
        ProposalFact {
            kind: self.kind,
            files: paths_of(self.files@),
            support: self.support,
            anchor_freq: self.anchor_freq,
            window: self.window,
            description: self.description@,
            created_at: self.created_at,
        }
    }
}

impl ProposalRecord {
    /// A copy of the proposal.
    pub fn copy(&self) -> (r: ProposalRecord)
        ensures
            r@ == self@,
    {
        ProposalRecord {
            kind: self.kind,
            files: copy_paths(self.files.as_slice()),
            support: self.support,
            anchor_freq: self.anchor_freq,
            window: self.window,
            description: self.description.clone(),
            created_at: self.created_at,
        }
    }
}

/// A proposal under its id.
#[derive(Debug)]
pub struct ProposalItem {
    pub id: String,
    pub record: ProposalRecord,
}

/// `m` is the largest number of times that the anchor changed together with a partner; 0 where it
/// has none.
pub open spec fn is_best_support<F: Fn(u32, u32) -> bool>(
    m: u32,
    cc: CoChange,
    a: int,
    min_support: u32,
    f: F,
) -> bool {
    &&& forall|i: int|
        0 <= i < cc.files@.len() && i != a && #[trigger] is_partner(cc, a, i, min_support, f)
            ==> shared(cc, a, i) <= m
    &&& m == 0 || exists|i: int|
        0 <= i < cc.files@.len() && i != a && #[trigger] is_partner(cc, a, i, min_support, f)
            && shared(cc, a, i) == m
}

/// `c` is the proposal of the anchor `a`.
pub open spec fn is_proposal_of<F: Fn(u32, u32) -> bool>(
    c: ProposalItem,
    cc: CoChange,
    a: int,
    b: MineBounds,
    now: i64,
    f: F,
) -> bool {
    let cluster = cluster_of(cc, a, b.min_support, f);
    &&& c.id@ == id_of(cluster)
    &&& c.record@.kind == PROPOSAL_KIND_SKILL
    &&& c.record@.files == cluster
    &&& is_best_support(c.record@.support, cc, a, b.min_support, f)
    &&& c.record@.anchor_freq == cc.freq@[a]
    &&& c.record@.window == b.window
    &&& c.record@.description == description_of(
        cc.files@[a]@,
        cluster,
        c.record@.support,
        cc.freq@[a],
    )
    &&& c.record@.created_at == now
}

/// Whether the anchor `a` gives a proposal: it has a partner.
pub open spec fn proposes<F: Fn(u32, u32) -> bool>(
    cc: CoChange,
    a: int,
    b: MineBounds,
    f: F,
) -> bool {
    is_anchor(cc, a, b.min_support, f) && cluster_of(cc, a, b.min_support, f).len() >= 2
}

/// `out` holds the proposals of the files below `n`: for each set of files that an anchor proposes
/// the proposal of the first such anchor, in order of the anchors, and nothing else.
pub open spec fn are_proposals<F: Fn(u32, u32) -> bool>(
    out: Seq<ProposalItem>,
    anchors: Seq<int>,
    cc: CoChange,
    b: MineBounds,
    now: i64,
    f: F,
    n: int,
) -> bool {
    &&& anchors.len() == out.len()
    &&& forall|k: int|
        0 <= k < out.len() ==> 0 <= #[trigger] anchors[k] < n && proposes(cc, anchors[k], b, f)
            && is_proposal_of(out[k], cc, anchors[k], b, now, f)
    &&& forall|k: int, l: int| 0 <= k < l < out.len() ==> anchors[k] < anchors[l]
    &&& forall|k: int, l: int|
        0 <= k < l < out.len() ==> (#[trigger] out[k]).id@ != (#[trigger] out[l]).id@
    &&& forall|a: int|
        0 <= a < n && #[trigger] proposes(cc, a, b, f) ==> exists|k: int|
            0 <= k < out.len() && (#[trigger] out[k]).id@ == id_of(
                cluster_of(cc, a, b.min_support, f),
            ) && anchors[k] <= a
}

/// Which files are anchors.
fn anchor_flags<F: Fn(u32, u32) -> bool>(cc: &CoChange, min_support: u32, confident: &F) -> (flags:
    Vec<bool>)
    requires
        cc.wf(),
        judges(*confident),
    ensures
        flags@.len() == cc.files@.len(),
        forall|a: int|
            0 <= a < flags@.len() ==> #[trigger] flags@[a] == is_anchor(
                *cc,
                a,
                min_support,
                *confident,
            ),
{
    proof {
        cc.lemma_facts();
    }
    let mut flags: Vec<bool> = Vec::new();
    let mut i: usize = 0;
    while i < cc.files.len()
        invariant
            i <= cc.files@.len(),
            flags@.len() == i,
            forall|a: int| 0 <= a < i ==> !#[trigger] flags@[a],
        decreases cc.files.len() - i,
    {
        flags.push(false);
        i += 1;
    }
    let mut k: usize = 0;
    while k < cc.pairs.len()
        invariant
            k <= cc.pairs@.len(),
            cc.wf(),
            cc.freq@.len() == cc.files@.len(),
            judges(*confident),
            flags@.len() == cc.files@.len(),
            forall|j: int|
                0 <= j < cc.pairs@.len() ==> (#[trigger] cc.pairs@[j]).0 <= cc.pairs@[j].1
                    < cc.files@.len(),
            forall|a: int|
                0 <= a < flags@.len() ==> #[trigger] flags@[a] == exists|j: int|
                    0 <= j < k && #[trigger] anchors_pair(*cc, a, j, min_support, *confident),
        decreases cc.pairs.len() - k,
    {
        let (x, y) = cc.pairs[k];
        assert(cc.pairs@[k as int].1 < cc.files@.len());
        let count: u32 = cc.get(x, y);
        let fx: u32 = cc.freq[x];
        let fy: u32 = cc.freq[y];
        let hot: usize = if fx >= fy {
            x
        } else {
            y
        };
        let ghost was = flags@;
        let mut yes: bool = false;
        if count >= min_support {
            let freq: u32 = cc.freq[hot];
            assert(confident.requires((count, freq)));
            yes = confident(count, freq);
        }
        if yes {
            flags.set(hot, true);
        }
        proof {
            assert forall|a: int| 0 <= a < flags@.len() implies #[trigger] flags@[a]
                == exists|j: int|
                0 <= j < k + 1 && #[trigger] anchors_pair(*cc, a, j, min_support, *confident) by {
                assert(was[a] == exists|j: int|
                    0 <= j < k && #[trigger] anchors_pair(*cc, a, j, min_support, *confident));
                if was[a] {
                    let j = choose|j: int|
                        0 <= j < k && #[trigger] anchors_pair(*cc, a, j, min_support, *confident);
                    assert(anchors_pair(*cc, a, j, min_support, *confident));
                }
                if a == hot && yes {
                    assert(anchors_pair(*cc, a, k as int, min_support, *confident));
                }
            }
        }
        k += 1;
    }
    flags
}

fn best_support<F: Fn(u32, u32) -> bool>(
    cc: &CoChange,
    a: usize,
    min_support: u32,
    confident: &F,
) -> (m: u32)
    requires
        cc.wf(),
        judges(*confident),
        a < cc.files@.len(),
    ensures
        is_best_support(m, *cc, a as int, min_support, *confident),
{
    let flags = cluster_flags(cc, a, min_support, confident);
    let mut m: u32 = 0;
    let mut i: usize = 0;
    while i < cc.files.len()
        invariant
            i <= cc.files@.len(),
            cc.wf(),
            a < cc.files@.len(),
            flags@.len() == cc.files@.len(),
            forall|i: int|
                0 <= i < flags@.len() ==> #[trigger] flags@[i] == in_cluster(
                    *cc,
                    a as int,
                    i,
                    min_support,
                    *confident,
                ),
            forall|j: int|
                0 <= j < i && j != a && #[trigger] is_partner(
                    *cc,
                    a as int,
                    j,
                    min_support,
                    *confident,
                ) ==> shared(*cc, a as int, j) <= m,
            m == 0 || exists|j: int|
                0 <= j < i && j != a && #[trigger] is_partner(
                    *cc,
                    a as int,
                    j,
                    min_support,
                    *confident,
                ) && shared(*cc, a as int, j) == m,
        decreases cc.files.len() - i,
    {
        if i != a && flags[i] {
            let count: u32 = if a <= i {
                cc.get(a, i)
            } else {
                cc.get(i, a)
            };
            assert(is_partner(*cc, a as int, i as int, min_support, *confident));
            if count > m {
                m = count;
            }
        } else {
            assert(i == a || !is_partner(*cc, a as int, i as int, min_support, *confident)) by {
                if i != a {
                    assert(!in_cluster(*cc, a as int, i as int, min_support, *confident));
                }
            }
        }
        i += 1;
    }
    m
}

/// Whether a proposal of this id is in the list.
pub open spec fn has_id(out: Seq<ProposalItem>, id: Seq<char>) -> bool {
    exists|i: int| 0 <= i < out.len() && (#[trigger] out[i]).id@ == id
}

proof fn lemma_has_id_push(out: Seq<ProposalItem>, c: ProposalItem, id: Seq<char>)
    ensures
        has_id(out.push(c), id) == (has_id(out, id) || c.id@ == id),
{
    let more = out.push(c);
    if has_id(out, id) {
        let i = choose|i: int| 0 <= i < out.len() && (#[trigger] out[i]).id@ == id;
        assert(more[i].id@ == id);
    }
    if c.id@ == id {
        assert(more[out.len() as int].id@ == id);
    }
    if has_id(more, id) {
        let i = choose|i: int| 0 <= i < more.len() && (#[trigger] more[i]).id@ == id;
        if i < out.len() {
            assert(out[i].id@ == id);
        }
    }
}

/// File `a` adds nothing: it proposes nothing, or what an earlier one proposed.
proof fn lemma_pass<F: Fn(u32, u32) -> bool>(
    out: Seq<ProposalItem>,
    anchors: Seq<int>,
    cc: CoChange,
    b: MineBounds,
    now: i64,
    f: F,
    a: int,
)
    requires
        are_proposals(out, anchors, cc, b, now, f, a),
        0 <= a,
        proposes(cc, a, b, f) ==> has_id(out, id_of(cluster_of(cc, a, b.min_support, f))),
    ensures
        are_proposals(out, anchors, cc, b, now, f, a + 1),
{
    if proposes(cc, a, b, f) {
        let id = id_of(cluster_of(cc, a, b.min_support, f));
        let k = choose|k: int| 0 <= k < out.len() && (#[trigger] out[k]).id@ == id;
        assert(0 <= anchors[k] < a);
        assert(out[k].id@ == id && anchors[k] <= a);
    }
}

/// File `a` adds its proposal.
proof fn lemma_propose<F: Fn(u32, u32) -> bool>(
    out: Seq<ProposalItem>,
    anchors: Seq<int>,
    c: ProposalItem,
    cc: CoChange,
    b: MineBounds,
    now: i64,
    f: F,
    a: int,
)
    requires
        are_proposals(out, anchors, cc, b, now, f, a),
        0 <= a,
        proposes(cc, a, b, f),
        is_proposal_of(c, cc, a, b, now, f),
        !has_id(out, c.id@),
    ensures
        are_proposals(out.push(c), anchors.push(a), cc, b, now, f, a + 1),
{
    let more = out.push(c);
    let with = anchors.push(a);
    assert forall|k: int| 0 <= k < more.len() implies 0 <= #[trigger] with[k] < a + 1 && proposes(
        cc,
        with[k],
        b,
        f,
    ) && is_proposal_of(more[k], cc, with[k], b, now, f) by {
        if k < out.len() {
            assert(with[k] == anchors[k]);
            assert(more[k] == out[k]);
        }
    }
    assert forall|k: int, l: int| 0 <= k < l < more.len() implies with[k] < with[l] by {
        assert(with[k] == anchors[k]);
        if l < out.len() {
            assert(with[l] == anchors[l]);
        }
    }
    assert forall|k: int, l: int| 0 <= k < l < more.len() implies (#[trigger] more[k]).id@ != (
    #[trigger] more[l]).id@ by {
        assert(more[k] == out[k]);
        if l < out.len() {
            assert(more[l] == out[l]);
        } else if out[k].id@ == c.id@ {
            assert(has_id(out, c.id@));
        }
    }
    assert forall|x: int| 0 <= x < a + 1 && #[trigger] proposes(cc, x, b, f) implies exists|k: int|
        0 <= k < more.len() && (#[trigger] more[k]).id@ == id_of(
            cluster_of(cc, x, b.min_support, f),
        ) && with[k] <= x by {
        if x < a {
            let k = choose|k: int|
                0 <= k < out.len() && (#[trigger] out[k]).id@ == id_of(
                    cluster_of(cc, x, b.min_support, f),
                ) && anchors[k] <= x;
            assert(more[k] == out[k]);
            assert(with[k] == anchors[k]);
        } else {
            assert(more[out.len() as int] == c);
            assert(with[out.len() as int] == a);
        }
    }
}

/// The proposal of the anchor `a`, given its cluster.
fn propose<F: Fn(u32, u32) -> bool>(
    cc: &CoChange,
    a: usize,
    cluster: Vec<RelPath>,
    id: String,
    bounds: MineBounds,
    now: i64,
    confident: &F,
) -> (c: ProposalItem)
    requires
        cc.wf(),
        judges(*confident),
        a < cc.files@.len(),
        paths_of(cluster@) == cluster_of(*cc, a as int, bounds.min_support, *confident),
        id@ == id_of(paths_of(cluster@)),
    ensures
        is_proposal_of(c, *cc, a as int, bounds, now, *confident),
        c.id == id,
{
    proof {
        cc.lemma_facts();
    }
    let support: u32 = best_support(cc, a, bounds.min_support, confident);
    let freq: u32 = cc.freq[a];
    let description = build_description(&cc.files[a], cluster.as_slice(), support, freq);
    ProposalItem {
        id,
        record: ProposalRecord {
            kind: PROPOSAL_KIND_SKILL,
            files: cluster,
            support,
            anchor_freq: freq,
            window: bounds.window,
            description,
            created_at: now,
        },
    }
}

/// The proposals that the counts give, each set of files once. `confident` judges whether a number
/// of common changes is high enough against the number of changes of the anchor.
pub fn mine_candidates<F: Fn(u32, u32) -> bool>(
    cc: &CoChange,
    bounds: MineBounds,
    now: i64,
    confident: &F,
) -> (out: Vec<ProposalItem>)
    requires
        cc.wf(),
        judges(*confident),
    ensures
        exists|anchors: Seq<int>| #[trigger]
            are_proposals(out@, anchors, *cc, bounds, now, *confident, cc.files@.len() as int),
        out@.len() <= cc.files@.len(),
{
    let flags = anchor_flags(cc, bounds.min_support, confident);
    let mut out: Vec<ProposalItem> = Vec::new();
    let mut seen = names_new();
    let ghost mut anchors: Seq<int> = Seq::empty();
    let mut a: usize = 0;
    while a < cc.files.len()
        invariant
            a <= cc.files@.len(),
            cc.wf(),
            judges(*confident),
            flags@.len() == cc.files@.len(),
            forall|a: int|
                0 <= a < flags@.len() ==> #[trigger] flags@[a] == is_anchor(
                    *cc,
                    a,
                    bounds.min_support,
                    *confident,
                ),
            are_proposals(out@, anchors, *cc, bounds, now, *confident, a as int),
            out@.len() <= a,
            forall|k: Seq<char>| #[trigger]
                names_held(seen).contains_key(k) <==> has_id(out@, k),
        decreases cc.files.len() - a,
    {
        let ghost out0 = out@;
        let ghost anchors0 = anchors;
        let ghost held0 = names_held(seen);
        let mut fresh: bool = false;
        if flags[a] {
            let cluster = build_cluster(a, cc, bounds.min_support, confident);
            assert(paths_of(cluster@).len() == cluster@.len());
            if cluster.len() >= 2 {
                let id = proposal_id(cluster.as_slice());
                if names_get(&seen, id.as_str()).is_none() {
                    fresh = true;
                    names_insert(&mut seen, id.clone(), 0);
                    let c = propose(cc, a, cluster, id, bounds, now, confident);
                    proof {
                        assert(!has_id(out0, c.id@));
                        lemma_propose(
                            out0,
                            anchors0,
                            c,
                            *cc,
                            bounds,
                            now,
                            *confident,
                            a as int,
                        );
                        anchors = anchors.push(a as int);
                        assert forall|k: Seq<char>| #[trigger]
                            names_held(seen).contains_key(k) <==> has_id(out0.push(c), k) by {
                            lemma_has_id_push(out0, c, k);
                            assert(held0.contains_key(k) <==> has_id(out0, k));
                        }
                    }
                    out.push(c);
                }
            }
        }
        proof {
            if !fresh {
                lemma_pass(out0, anchors0, *cc, bounds, now, *confident, a as int);
            }
        }
        a += 1;
    }
    assert(are_proposals(out@, anchors, *cc, bounds, now, *confident, cc.files@.len() as int));
    out
}

} // verus!
