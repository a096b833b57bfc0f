//! What mining counts and what it proposes.
use vstd::prelude::*;

use crate::cochange::{
    bulk_upto, changed, counts_are, freq_upto, kept_paths, occurrences, pairings, together_upto,
    ChangedFile, CoChange, CommitFiles,
};
use crate::proposals::{
    anchors_pair, are_proposals, cluster_of, id_of, in_cluster, is_anchor, is_best_support,
    is_cluster, is_partner, is_proposal_of, lemma_cluster_unique, proposes, shared, MineBounds,
    ProposalItem,
};
use crate::model::RelPath;
use crate::text::{
    lemma_lex_irreflexive, lemma_lex_total, lemma_lex_transitive, lex_ascends, lex_less,
};

verus! {

// ─── Counting ────────────────────────────────────────────────────────────────

/// The commit changes the file at `p` and does not delete it.
pub open spec fn touches(c: CommitFiles, p: Seq<u8>) -> bool {
    exists|k: int| 0 <= k < c.files@.len() && (#[trigger] c.files@[k]).path@ == p && !c.files@[k].deleted
}

/// The number of files that the commit changes and does not delete.
pub open spec fn breadth(c: CommitFiles) -> int {
    c.files@.filter(|f: ChangedFile| !f.deleted).len() as int
}

/// No commit names a path twice.
pub open spec fn each_path_once(commits: Seq<CommitFiles>) -> bool {
    forall|n: int, i: int, j: int|
        0 <= n < commits.len() && 0 <= i < j < commits[n].files@.len() ==> (
        #[trigger] commits[n].files@[i]).path@ != (#[trigger] commits[n].files@[j]).path@
}

proof fn lemma_kept(files: Seq<ChangedFile>, n: int, p: Seq<u8>)
    requires
        0 <= n <= files.len(),
        forall|i: int, j: int|
            0 <= i < j < files.len() ==> (#[trigger] files[i]).path@ != (#[trigger] files[j]).path@,
    ensures
        kept_paths(files, n).len() == files.take(n).filter(|f: ChangedFile| !f.deleted).len(),
        occurrences(kept_paths(files, n), p) == if exists|k: int|
            0 <= k < n && (#[trigger] files[k]).path@ == p && !files[k].deleted {
            1int
        } else {
            0
        },
    decreases n,
{
    reveal(Seq::filter);
    if n > 0 {
        lemma_kept(files, n - 1, p);
        let kept = kept_paths(files, n);
        let front = kept_paths(files, n - 1);
        assert(files.take(n).drop_last() =~= files.take(n - 1));
        if !files[n - 1].deleted {
            assert(kept.drop_last() =~= front);
            assert(kept.last() == files[n - 1].path@);
            if files[n - 1].path@ == p {
                assert forall|k: int| 0 <= k < n - 1 implies (#[trigger] files[k]).path@ != p by {
                    assert(files[k].path@ != files[n - 1].path@);
                }
            }
        }
    }
}

proof fn lemma_paired(files: Seq<ChangedFile>, n: int, p: Seq<u8>, q: Seq<u8>)
    requires
        0 <= n <= files.len(),
        p != q,
        forall|i: int, j: int|
            0 <= i < j < files.len() ==> (#[trigger] files[i]).path@ != (#[trigger] files[j]).path@,
    ensures
        pairings(kept_paths(files, n), p, q) == if (exists|k: int|
            0 <= k < n && (#[trigger] files[k]).path@ == p && !files[k].deleted) && (exists|k: int|
            0 <= k < n && (#[trigger] files[k]).path@ == q && !files[k].deleted) {
            1int
        } else {
            0
        },
    decreases n,
{
    if n > 0 {
        lemma_paired(files, n - 1, p, q);
        lemma_kept(files, n - 1, p);
        lemma_kept(files, n - 1, q);
        let kept = kept_paths(files, n);
        let front = kept_paths(files, n - 1);
        if !files[n - 1].deleted {
            assert(kept.drop_last() =~= front);
            assert(kept.last() == files[n - 1].path@);
            assert forall|k: int| 0 <= k < n - 1 implies (#[trigger] files[k]).path@
                != files[n - 1].path@ by {}
        }
    }
}

proof fn lemma_commit(c: CommitFiles, p: Seq<u8>)
    requires
        forall|i: int, j: int|
            0 <= i < j < c.files@.len() ==> (#[trigger] c.files@[i]).path@ != (
            #[trigger] c.files@[j]).path@,
    ensures
        changed(c).len() == breadth(c),
        occurrences(changed(c), p) == if touches(c, p) {
            1int
        } else {
            0
        },
{
    let n = c.files@.len() as int;
    lemma_kept(c.files@, n, p);
    assert(c.files@.take(n) =~= c.files@);
}

proof fn lemma_freq(commits: Seq<CommitFiles>, max_files: int, p: Seq<u8>, n: int)
    requires
        0 <= n <= commits.len(),
        each_path_once(commits),
    ensures
        freq_upto(commits, max_files, p, n) == commits.take(n).filter(
            |c: CommitFiles| breadth(c) <= max_files && touches(c, p),
        ).len(),
    decreases n,
{
    reveal(Seq::filter);
    if n > 0 {
        lemma_freq(commits, max_files, p, n - 1);
        assert(commits.take(n).drop_last() =~= commits.take(n - 1));
        lemma_commit(commits[n - 1], p);
    }
}

proof fn lemma_together(commits: Seq<CommitFiles>, max_files: int, p: Seq<u8>, q: Seq<u8>, n: int)
    requires
        0 <= n <= commits.len(),
        p != q,
        each_path_once(commits),
    ensures
        together_upto(commits, max_files, p, q, n) == commits.take(n).filter(
            |c: CommitFiles| breadth(c) <= max_files && touches(c, p) && touches(c, q),
        ).len(),
    decreases n,
{
    reveal(Seq::filter);
    if n > 0 {
        lemma_together(commits, max_files, p, q, n - 1);
        assert(commits.take(n).drop_last() =~= commits.take(n - 1));
        let c = commits[n - 1];
        lemma_commit(c, p);
        lemma_paired(c.files@, c.files@.len() as int, p, q);
    }
}

proof fn lemma_bulk(commits: Seq<CommitFiles>, max_files: int, n: int)
    requires
        0 <= n <= commits.len(),
        each_path_once(commits),
    ensures
        bulk_upto(commits, max_files, n) == commits.take(n).filter(
            |c: CommitFiles| breadth(c) > max_files,
        ).len(),
    decreases n,
{
    reveal(Seq::filter);
    if n > 0 {
        lemma_bulk(commits, max_files, n - 1);
        assert(commits.take(n).drop_last() =~= commits.take(n - 1));
        lemma_commit(commits[n - 1], Seq::empty());
    }
}

/// A file's number is that of the commits that change it without deleting it, and do not change more files
/// than are allowed. The number of a pair of files is that of such commits that change both. What is
/// skipped are the commits that change more files than are allowed.
pub proof fn law_counts_are_of_commits(
    cc: CoChange,
    commits: Seq<CommitFiles>,
    max_files: int,
    i: int,
    j: int,
)
    requires
        cc.wf(),
        counts_are(cc, commits, max_files, commits.len() as int),
        each_path_once(commits),
        0 <= i < j < cc.files@.len(),
    ensures
        cc.freq@[i] == commits.filter(
            |c: CommitFiles| breadth(c) <= max_files && touches(c, cc.files@[i]@),
        ).len(),
        cc.count(i, j) == commits.filter(
            |c: CommitFiles|
                breadth(c) <= max_files && touches(c, cc.files@[i]@) && touches(c, cc.files@[j]@),
        ).len(),
        cc.skipped_bulk == commits.filter(|c: CommitFiles| breadth(c) > max_files).len(),
{
    let n = commits.len() as int;
    let p = cc.files@[i]@;
    let q = cc.files@[j]@;
    cc.lemma_facts();
    assert(commits.take(n) =~= commits);
    lemma_freq(commits, max_files, p, n);
    lemma_together(commits, max_files, p, q, n);
    lemma_bulk(commits, max_files, n);
    crate::seqs::lemma_filter_agree(
        commits,
        |c: CommitFiles| breadth(c) <= max_files && touches(c, p),
        |c: CommitFiles| breadth(c) <= max_files && touches(c, cc.files@[i]@),
    );
    crate::seqs::lemma_filter_agree(
        commits,
        |c: CommitFiles| breadth(c) <= max_files && touches(c, p) && touches(c, q),
        |c: CommitFiles|
            breadth(c) <= max_files && touches(c, cc.files@[i]@) && touches(c, cc.files@[j]@),
    );
}

/// A file is numbered exactly when a commit that counts changes it without deleting it.
pub proof fn law_numbered_files_are_changed(
    cc: CoChange,
    commits: Seq<CommitFiles>,
    max_files: int,
    p: Seq<u8>,
)
    requires
        counts_are(cc, commits, max_files, commits.len() as int),
        each_path_once(commits),
    ensures
        (exists|i: int| 0 <= i < cc.files@.len() && (#[trigger] cc.files@[i])@ == p) <==> (exists|n: int|
            0 <= n < commits.len() && breadth(#[trigger] commits[n]) <= max_files && touches(
                commits[n],
                p,
            )),
{
    let n = commits.len() as int;
    let f = |c: CommitFiles| breadth(c) <= max_files && touches(c, p);
    assert(commits.take(n) =~= commits);
    lemma_freq(commits, max_files, p, n);
    assert(cc.knows(p) <==> freq_upto(commits, max_files, p, n) > 0);
    if freq_upto(commits, max_files, p, n) > 0 {
        let k = crate::answers::lemma_filter_source(commits, f, 0);
        assert(breadth(commits[k]) <= max_files);
    }
    if exists|n: int|
        0 <= n < commits.len() && breadth(#[trigger] commits[n]) <= max_files && touches(commits[n], p) {
        let k = choose|n: int|
            0 <= n < commits.len() && breadth(#[trigger] commits[n]) <= max_files && touches(
                commits[n],
                p,
            );
        let i = crate::answers::lemma_filter_place(commits, f, k);
    }
}

// ─── Proposals ───────────────────────────────────────────────────────────────

/// How often two numbered files changed together, whichever is given first.
pub open spec fn common(cc: CoChange, a: int, b: int) -> int {
    if a < b {
        cc.count(a, b)
    } else {
        cc.count(b, a)
    }
}

/// The paths that pass, among the first `n` files.
spec fn passing(files: Seq<RelPath>, p: spec_fn(int) -> bool, n: int) -> Seq<Seq<u8>>
    decreases n,
{
    if n <= 0 {
        Seq::empty()
    } else if p(n - 1) {
        passing(files, p, n - 1).push(files[n - 1]@)
    } else {
        passing(files, p, n - 1)
    }
}

proof fn lemma_passing(files: Seq<RelPath>, p: spec_fn(int) -> bool, n: int)
    requires
        0 <= n <= files.len(),
        forall|i: int, j: int|
            0 <= i < j < files.len() ==> (#[trigger] files[i])@ != (#[trigger] files[j])@,
    ensures
        passing(files, p, n).no_duplicates(),
        forall|x: Seq<u8>| #[trigger]
            passing(files, p, n).contains(x) <==> exists|i: int|
                0 <= i < n && (#[trigger] files[i])@ == x && p(i),
    decreases n,
{
    if n > 0 {
        lemma_passing(files, p, n - 1);
        let front = passing(files, p, n - 1);
        let all = passing(files, p, n);
        if p(n - 1) {
            let last = files[n - 1]@;
            assert(all == front.push(last));
            assert(!front.contains(last)) by {
                if front.contains(last) {
                    let i = choose|i: int| 0 <= i < n - 1 && (#[trigger] files[i])@ == last && p(i);
                    assert(files[i]@ != files[n - 1]@);
                }
            }
            assert forall|i: int, j: int| 0 <= i < j < all.len() implies all[i] != all[j] by {
                if j == front.len() {
                    assert(front[i] == all[i]);
                    assert(front.contains(all[i]));
                }
            }
            assert forall|x: Seq<u8>| #[trigger] all.contains(x) <==> exists|i: int|
                0 <= i < n && (#[trigger] files[i])@ == x && p(i) by {
                if all.contains(x) {
                    let k = all.index_of(x);
                    if k < front.len() {
                        assert(front[k] == x);
                        assert(front.contains(x));
                    }
                }
                if exists|i: int| 0 <= i < n && (#[trigger] files[i])@ == x && p(i) {
                    let i = choose|i: int| 0 <= i < n && (#[trigger] files[i])@ == x && p(i);
                    if i < n - 1 {
                        assert(front.contains(x));
                        assert(all[front.index_of(x)] == x);
                    } else {
                        assert(all[front.len() as int] == x);
                    }
                }
            }
        }
    }
}

/// There is a list of the files of a cluster in order.
proof fn lemma_cluster_exists<F: Fn(u32, u32) -> bool>(cc: CoChange, a: int, min_support: u32, f: F)
    requires
        cc.wf(),
    ensures
        is_cluster(cluster_of(cc, a, min_support, f), cc, a, min_support, f),
{
    broadcast use vstd::seq_lib::group_to_multiset_ensures;

    cc.lemma_facts();
    let p = |i: int| in_cluster(cc, a, i, min_support, f);
    let n = cc.files@.len() as int;
    let base = passing(cc.files@, p, n);
    lemma_passing(cc.files@, p, n);
    let leq = |x: Seq<u8>, y: Seq<u8>| !lex_less(y, x);
    assert(vstd::relations::total_ordering(leq)) by {
        assert forall|x: Seq<u8>| #[trigger] leq(x, x) by {
            lemma_lex_irreflexive(x);
        }
        assert forall|x: Seq<u8>, y: Seq<u8>| #[trigger] leq(x, y) && #[trigger] leq(y, x) implies x
            == y by {
            lemma_lex_total(x, y);
        }
        assert forall|x: Seq<u8>, y: Seq<u8>, z: Seq<u8>| #[trigger]
            leq(x, y) && #[trigger] leq(y, z) implies leq(x, z) by {
            lemma_lex_total(x, y);
            lemma_lex_total(y, z);
            if lex_less(z, x) {
                if x == y {
                } else if y == z {
                } else {
                    lemma_lex_transitive(x, y, z);
                    lemma_lex_transitive(x, z, x);
                    lemma_lex_irreflexive(x);
                }
            }
        }
        assert forall|x: Seq<u8>, y: Seq<u8>| #[trigger] leq(x, y) || #[trigger] leq(y, x) by {
            if lex_less(y, x) && lex_less(x, y) {
                lemma_lex_transitive(x, y, x);
                lemma_lex_irreflexive(x);
            }
        }
    }
    let s = base.sort_by(leq);
    base.lemma_sort_by_ensures(leq);
    base.lemma_multiset_has_no_duplicates();
    s.lemma_multiset_has_no_duplicates_conv();
    assert(lex_ascends(s)) by {
        assert forall|i: int, j: int| 0 <= i < j < s.len() implies lex_less(
            #[trigger] s[i],
            #[trigger] s[j],
        ) by {
            assert(leq(s[i], s[j]));
            assert(s[i] != s[j]);
            lemma_lex_total(s[i], s[j]);
        }
    }
    assert forall|x: Seq<u8>| #[trigger] s.contains(x) <==> exists|i: int|
        0 <= i < cc.files@.len() && (#[trigger] cc.files@[i])@ == x && in_cluster(
            cc,
            a,
            i,
            min_support,
            f,
        ) by {
        assert(s.contains(x) <==> s.to_multiset().count(x) > 0);
        assert(base.contains(x) <==> base.to_multiset().count(x) > 0);
        if base.contains(x) {
            let i = choose|i: int| 0 <= i < n && (#[trigger] cc.files@[i])@ == x && p(i);
            assert(in_cluster(cc, a, i, min_support, f));
        }
        if exists|i: int|
            0 <= i < cc.files@.len() && (#[trigger] cc.files@[i])@ == x && in_cluster(
                cc,
                a,
                i,
                min_support,
                f,
            ) {
            let i = choose|i: int|
                0 <= i < cc.files@.len() && (#[trigger] cc.files@[i])@ == x && in_cluster(
                    cc,
                    a,
                    i,
                    min_support,
                    f,
                );
            assert(p(i));
        }
    }
    assert(is_cluster(s, cc, a, min_support, f));
    lemma_cluster_unique(s, cc, a, min_support, f);
}

/// A proposal is supported. Its files are in order and are those of one file, the anchor, and of all others
/// that changed together with it at least as often as is asked, and often enough against the changes of
/// the anchor. Its support is the largest of those numbers, and so at least what is asked. The result is
/// the anchor.
pub proof fn law_proposals_are_supported<F: Fn(u32, u32) -> bool>(
    out: Seq<ProposalItem>,
    anchors: Seq<int>,
    cc: CoChange,
    b: MineBounds,
    now: i64,
    f: F,
    k: int,
) -> (a: int)
    requires
        cc.wf(),
        are_proposals(out, anchors, cc, b, now, f, cc.files@.len() as int),
        0 <= k < out.len(),
    ensures
        0 <= a < cc.files@.len(),
        out[k].record@.anchor_freq == cc.freq@[a],
        out[k].record@.window == b.window,
        out[k].record@.created_at == now,
        out[k].record@.files.len() >= 2,
        out[k].record@.files.contains(cc.files@[a]@),
        out[k].record@.support >= b.min_support,
        out[k].record@.support > 0,
        forall|i: int|
            0 <= i < cc.files@.len() && i != a ==> (out[k].record@.files.contains(
                (#[trigger] cc.files@[i])@,
            ) <==> common(cc, a, i) >= 1 && common(cc, a, i) >= b.min_support && f.ensures(
                (common(cc, a, i) as u32, cc.freq@[a]),
                true,
            )),
        forall|i: int|
            0 <= i < cc.files@.len() && i != a && out[k].record@.files.contains(
                (#[trigger] cc.files@[i])@,
            ) ==> common(cc, a, i) <= out[k].record@.support,
        exists|i: int|
            0 <= i < cc.files@.len() && i != a && out[k].record@.files.contains(
                (#[trigger] cc.files@[i])@,
            ) && common(cc, a, i) == out[k].record@.support,
        forall|p: Seq<u8>| #[trigger]
            out[k].record@.files.contains(p) ==> exists|i: int|
                0 <= i < cc.files@.len() && (#[trigger] cc.files@[i])@ == p,
{
    cc.lemma_facts();
    let a = anchors[k];
    let c = out[k].record@;
    assert(proposes(cc, a, b, f) && is_proposal_of(out[k], cc, a, b, now, f));
    lemma_cluster_exists(cc, a, b.min_support, f);
    assert(in_cluster(cc, a, a, b.min_support, f));
    assert(c.files.contains(cc.files@[a]@));
    assert forall|i: int| 0 <= i < cc.files@.len() && i != a implies (c.files.contains(
        (#[trigger] cc.files@[i])@,
    ) <==> is_partner(cc, a, i, b.min_support, f)) by {
        if c.files.contains(cc.files@[i]@) {
            let j = choose|j: int|
                0 <= j < cc.files@.len() && (#[trigger] cc.files@[j])@ == cc.files@[i]@ && in_cluster(
                    cc,
                    a,
                    j,
                    b.min_support,
                    f,
                );
            if j < i {
                assert(cc.files@[j]@ != cc.files@[i]@);
            } else if i < j {
                assert(cc.files@[i]@ != cc.files@[j]@);
            }
        }
        if is_partner(cc, a, i, b.min_support, f) {
            assert(in_cluster(cc, a, i, b.min_support, f));
        }
    }
    let w = if c.files[0] == cc.files@[a]@ {
        1int
    } else {
        0
    };
    assert(c.files[w] != cc.files@[a]@) by {
        if w == 1 {
            assert(lex_less(c.files[0], c.files[1]));
            lemma_lex_irreflexive(c.files[0]);
        }
    }
    assert(c.files.contains(c.files[w]));
    let i = choose|i: int|
        0 <= i < cc.files@.len() && (#[trigger] cc.files@[i])@ == c.files[w] && in_cluster(
            cc,
            a,
            i,
            b.min_support,
            f,
        );
    assert(i != a);
    assert(is_partner(cc, a, i, b.min_support, f));
    assert(is_best_support(c.support, cc, a, b.min_support, f));
    assert(c.support > 0);
    let best = choose|i: int|
        0 <= i < cc.files@.len() && i != a && #[trigger] is_partner(cc, a, i, b.min_support, f)
            && shared(cc, a, i) == c.support;
    assert(c.files.contains(cc.files@[best]@));
    assert(common(cc, a, best) == c.support);
    a
}

/// Files that belong together are proposed. Where two files changed together at least as often as is asked,
/// and often enough against the changes of the one that changed more, there is a proposal for a list of
/// files in order that holds both. The result is that list.
pub proof fn law_common_changes_are_proposed<F: Fn(u32, u32) -> bool>(
    out: Seq<ProposalItem>,
    anchors: Seq<int>,
    cc: CoChange,
    b: MineBounds,
    now: i64,
    f: F,
    x: int,
    y: int,
) -> (files: Seq<Seq<u8>>)
    requires
        cc.wf(),
        are_proposals(out, anchors, cc, b, now, f, cc.files@.len() as int),
        0 <= x < y < cc.files@.len(),
        cc.count(x, y) >= 1,
        cc.count(x, y) >= b.min_support,
        cc.freq@[x] >= cc.freq@[y] ==> f.ensures((cc.count(x, y) as u32, cc.freq@[x]), true),
        cc.freq@[x] < cc.freq@[y] ==> f.ensures((cc.count(x, y) as u32, cc.freq@[y]), true),
    ensures
        lex_ascends(files),
        exists|k: int| 0 <= k < out.len() && (#[trigger] out[k]).id@ == id_of(files),
        files.contains(cc.files@[x]@),
        files.contains(cc.files@[y]@),
{
    cc.lemma_facts();
    let a = if cc.freq@[x] >= cc.freq@[y] {
        x
    } else {
        y
    };
    let p = if a == x {
        y
    } else {
        x
    };
    assert(cc.pairs@.contains((x as usize, y as usize)));
    let k = cc.pairs@.index_of((x as usize, y as usize));
    assert(anchors_pair(cc, a, k, b.min_support, f));
    assert(is_anchor(cc, a, b.min_support, f));
    let files = cluster_of(cc, a, b.min_support, f);
    lemma_cluster_exists(cc, a, b.min_support, f);
    assert(is_partner(cc, a, p, b.min_support, f));
    assert(in_cluster(cc, a, a, b.min_support, f));
    assert(in_cluster(cc, a, p, b.min_support, f));
    assert(files.contains(cc.files@[a]@));
    assert(files.contains(cc.files@[p]@));
    assert(cc.files@[x]@ != cc.files@[y]@);
    let i = files.index_of(cc.files@[a]@);
    let j = files.index_of(cc.files@[p]@);
    assert(i != j);
    assert(files.len() >= 2);
    assert(proposes(cc, a, b, f));
    files
}

} // verus!
