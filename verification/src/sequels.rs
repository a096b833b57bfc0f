//! How one call follows from another: what is read after a write, told after a start, and shown after a page.
use vstd::prelude::*;

use crate::call_answers::{is_used_call, lemma_proven_is_used};
use crate::callers::{
    is_merged_page, is_refinement, is_use_order, proven_upto, uses_at, ResolvedCallers, UseAt,
    UseSite,
};
use crate::calls::{is_scan_page, matching, scan_cap, CallRow, CallScanPage, InRamCallIndex};
use crate::cli::parse_timeout_ms;
use crate::cursor::base64;
use crate::find::{is_callers_page, is_name_scan, is_proof_of, CallersPage};
use crate::governance::{persisted, shelves, written, AuditMutation, Shelves};
use crate::identity::persisted_id;
use crate::memory::{op_is, raw_key, IndexDb, MemoryOp, MemoryOutcome};
use crate::proposal_ops::{
    governance_is, mined_count, skill_key, tombstone_key, GovernanceOp, GovernanceOutcome,
};
use crate::proposals::{ProposalFact, ProposalItem};
use crate::server::{generation_after, Refresh};
use crate::shells::{entry_key, lemma_label_key, plain_entry, with_identity};
use crate::text::{decimal, is_space, texts, trim_of};

verus! {

// ─── Memories ────────────────────────────────────────────────────────────────

/// What one operation writes the next one reads: after a put, a get of the same key in the same tier gives the value and the tags; after
/// a delete it gives nothing, and the delete says whether there was anything; and a get or a listing changes
/// nothing.
pub proof fn law_memory_operations(
    before: IndexDb,
    mid: IndexDb,
    after: IndexDb,
    scope: Seq<char>,
    first: MemoryOp,
    second: MemoryOp,
    now: i64,
    later: i64,
    x: MemoryOutcome,
    y: MemoryOutcome,
)
    requires
        op_is(before, mid, scope, first, now, x),
        op_is(mid, after, scope, second, later, y),
    ensures
        first is Put && second is Get && first->Put_vis_byte == second->Get_vis_byte && first->Put_owner@
            == second->Get_owner@ && first->Put_key@ == second->Get_key@ ==> (y matches MemoryOutcome::Got(e)
            && e is Some && e->0.key@ == first->Put_key@ && e->0.value@ == first->Put_value@ && texts(
            e->0.tags@,
        ) == texts(first->Put_tags@) && e->0.updated_at == now),
        first is Delete && second is Get && first->Delete_vis_byte == second->Get_vis_byte
            && first->Delete_owner@ == second->Get_owner@ && first->Delete_key@ == second->Get_key@ ==> (
        y matches MemoryOutcome::Got(e) && e is None),
        first is Put && second is Delete && first->Put_vis_byte == second->Delete_vis_byte
            && first->Put_owner@ == second->Delete_owner@ && first->Put_key@ == second->Delete_key@ ==> (
        y matches MemoryOutcome::Deleted { deleted } && deleted),
        first is Delete && second is Delete && first->Delete_vis_byte == second->Delete_vis_byte
            && first->Delete_owner@ == second->Delete_owner@ && first->Delete_key@ == second->Delete_key@
            ==> (y matches MemoryOutcome::Deleted { deleted } && !deleted),
        first is Get || first is List ==> mid == before,
{
}

// ─── Proposals ───────────────────────────────────────────────────────────────

/// What mining writes can be got, what is rejected or promoted cannot, and a promoted proposal is a memory of the group under its key.
pub proof fn law_proposal_operations(
    before: IndexDb,
    mid: IndexDb,
    after: IndexDb,
    scope: Seq<char>,
    first: GovernanceOp,
    id: String,
    x: GovernanceOutcome,
    y: GovernanceOutcome,
)
    requires
        governance_is(before, mid, scope, first, x),
        governance_is(mid, after, scope, GovernanceOp::ProposalGet { id }, y),
    ensures
        y is Proposal,
        after == mid,
        first is ProposalReject && first->ProposalReject_id@ == id@ ==> (y matches GovernanceOutcome::Proposal(
            p,
        ) && p is None),
        first is ProposalPromote && first->proposal_id@ == id@ ==> (y matches GovernanceOutcome::Proposal(p)
            && p is None),
        first is ProposalPromote ==> shelves(mid).live.contains_key(
            raw_key(scope, crate::keys::MEMORY_VIS_GROUP, ""@, first->memory_key@),
        ) && shelves(mid).live[raw_key(scope, crate::keys::MEMORY_VIS_GROUP, ""@, first->memory_key@)]
            == Some(first->record@),
        first is ProposalsList || first is ProposalGet || first is AuditScan ==> mid == before,
{
    crate::proposal_ops::lemma_kinds_apart(scope, id@, id@);
    if first is ProposalReject && first->ProposalReject_id@ == id@ {
        assert(!mid.proposals.map().contains_key(skill_key(scope, id@)));
    }
}

/// The number that mining reports is that of the candidates that were not rejected before.
pub proof fn law_mining_counts(
    m: Map<Seq<u8>, Option<ProposalFact>>,
    scope: Seq<char>,
    candidates: Seq<ProposalItem>,
    n: int,
)
    requires
        0 <= n <= candidates.len(),
    ensures
        mined_count(m, scope, candidates, n) == candidates.take(n).filter(
            |c: ProposalItem| !m.contains_key(tombstone_key(scope, c.id@)),
        ).len(),
    decreases n,
{
    reveal(Seq::filter);
    if n > 0 {
        law_mining_counts(m, scope, candidates, n - 1);
        assert(candidates.take(n).drop_last() =~= candidates.take(n - 1));
        let key = tombstone_key(scope, candidates[n - 1].id@);
        assert forall|j: int| 0 <= j < n - 1 implies skill_key(scope, (#[trigger] candidates[j]).id@) != key by {
            crate::proposal_ops::lemma_kinds_apart(scope, candidates[j].id@, candidates[n - 1].id@);
        }
        crate::proposal_answers::lemma_not_written(m, scope, candidates, n - 1, key);
    }
}

/// What an audit hands back is written: a record under its key among the live ones, or moved to the archive, as each change says; and no
/// other key is touched.
pub proof fn law_changes_are_persisted(
    s: Shelves,
    scope: Seq<char>,
    mutations: Seq<AuditMutation>,
    n: int,
    i: int,
    other: Seq<u8>,
)
    requires
        0 <= i < n <= mutations.len(),
        forall|j: int|
            0 <= j < mutations.len() && j != i ==> raw_key(
                scope,
                (#[trigger] mutations[j]).vis_byte,
                mutations[j].owner@,
                mutations[j].key@,
            ) != raw_key(scope, mutations[i].vis_byte, mutations[i].owner@, mutations[i].key@),
        forall|j: int|
            0 <= j < mutations.len() ==> raw_key(
                scope,
                (#[trigger] mutations[j]).vis_byte,
                mutations[j].owner@,
                mutations[j].key@,
            ) != other,
    ensures
        ({
            let raw = raw_key(scope, mutations[i].vis_byte, mutations[i].owner@, mutations[i].key@);
            let after = persisted(s, scope, mutations, n);
            &&& mutations[i].archive ==> !after.live.contains_key(raw) && after.archive.contains_key(raw)
                && after.archive[raw] == Some(mutations[i].record@)
            &&& !mutations[i].archive ==> after.live.contains_key(raw) && after.live[raw] == Some(
                mutations[i].record@,
            )
            &&& after.live.contains_key(other) == s.live.contains_key(other)
            &&& s.live.contains_key(other) ==> after.live[other] == s.live[other]
            &&& after.archive.contains_key(other) == s.archive.contains_key(other)
        }),
    decreases n,
{
    lemma_other_shelves(s, scope, mutations, n, other);
    if i < n - 1 {
        law_changes_are_persisted(s, scope, mutations, n - 1, i, other);
        let m = mutations[n - 1];
        assert(raw_key(scope, m.vis_byte, m.owner@, m.key@) != raw_key(
            scope,
            mutations[i].vis_byte,
            mutations[i].owner@,
            mutations[i].key@,
        ));
    }
}

proof fn lemma_other_shelves(
    s: Shelves,
    scope: Seq<char>,
    mutations: Seq<AuditMutation>,
    n: int,
    other: Seq<u8>,
)
    requires
        0 <= n <= mutations.len(),
        forall|j: int|
            0 <= j < mutations.len() ==> raw_key(
                scope,
                (#[trigger] mutations[j]).vis_byte,
                mutations[j].owner@,
                mutations[j].key@,
            ) != other,
    ensures
        persisted(s, scope, mutations, n).live.contains_key(other) == s.live.contains_key(other),
        s.live.contains_key(other) ==> persisted(s, scope, mutations, n).live[other] == s.live[other],
        persisted(s, scope, mutations, n).archive.contains_key(other) == s.archive.contains_key(other),
    decreases n,
{
    if n > 0 {
        lemma_other_shelves(s, scope, mutations, n - 1, other);
        let m = mutations[n - 1];
        assert(raw_key(scope, m.vis_byte, m.owner@, m.key@) != other);
    }
}

// ─── Children ────────────────────────────────────────────────────────────────

/// A child is told who it is, who its parent is and which session it is in, each by just the one entry that was put in.
pub proof fn law_children_are_told_once(
    env: Seq<Seq<char>>,
    child: Seq<char>,
    parent: Seq<char>,
    session: Seq<char>,
    i: int,
)
    requires
        0 <= i < with_identity(env, child, parent, session).len(),
    ensures
        ({
            let all = with_identity(env, child, parent, session);
            &&& entry_key(all[i]) == "BASEMIND_AGENT_ID"@ ==> i == all.len() - 3 && all[i]
                == "BASEMIND_AGENT_ID="@ + child
            &&& entry_key(all[i]) == "BASEMIND_PARENT_AGENT_ID"@ ==> i == all.len() - 2 && all[i]
                == "BASEMIND_PARENT_AGENT_ID="@ + parent
            &&& entry_key(all[i]) == "BASEMIND_SESSION_ID"@ ==> i == all.len() - 1 && all[i]
                == "BASEMIND_SESSION_ID="@ + session
        }),
{
    let kept = env.filter(plain_entry());
    let all = with_identity(env, child, parent, session);
    reveal_strlit("BASEMIND_AGENT_ID");
    reveal_strlit("BASEMIND_PARENT_AGENT_ID");
    reveal_strlit("BASEMIND_SESSION_ID");
    reveal_strlit("BASEMIND_AGENT_ID=");
    reveal_strlit("BASEMIND_PARENT_AGENT_ID=");
    reveal_strlit("BASEMIND_SESSION_ID=");
    assert("BASEMIND_AGENT_ID"@.len() == 17 && "BASEMIND_PARENT_AGENT_ID"@.len() == 24
        && "BASEMIND_SESSION_ID"@.len() == 19);
    if i < kept.len() {
        crate::seqs::lemma_filter_member(env, plain_entry(), i);
        assert(all[i] == kept[i]);
    } else if i == kept.len() {
        lemma_label_key("BASEMIND_AGENT_ID="@, child);
        assert(entry_key(all[i]).len() == 17);
    } else if i == kept.len() + 1 {
        lemma_label_key("BASEMIND_PARENT_AGENT_ID="@, parent);
        assert(entry_key(all[i]).len() == 24);
    } else {
        lemma_label_key("BASEMIND_SESSION_ID="@, session);
        assert(entry_key(all[i]).len() == 19);
    }
}

// ─── Pages ───────────────────────────────────────────────────────────────────

/// A page of references has a cursor exactly when more was counted than it shows, and it is at the last hit shown.
pub proof fn law_reference_cursors(
    rows: Seq<CallRow>,
    name: Seq<char>,
    cursor: Option<Seq<u8>>,
    limit: int,
    page: CallScanPage,
)
    requires
        0 < limit <= usize::MAX,
        is_scan_page(page, matching(rows, name, cursor), limit),
    ensures
        page.next_cursor is Some <==> page.total > page.hits@.len(),
        page.next_cursor is Some ==> (page.next_cursor->0).0@ == base64(
            page.hits@[page.hits@.len() - 1].key@,
        ),
{
    if page.next_cursor is Some {
        let last = page.hits@[page.hits@.len() - 1];
        assert(crate::calls::row_of(last) == matching(rows, name, cursor)[limit - 1]);
    }
}

/// Callers are reported as proven where one is: while the uses are no more than a scan looks at, some caller is proven exactly when a call
/// stands at one of the uses.
pub proof fn law_proven_totals(
    out: CallersPage,
    index: &InRamCallIndex,
    uses: Seq<UseSite>,
    name: Seq<char>,
    from: Option<Seq<u8>>,
    limit: int,
)
    requires
        is_callers_page(out, Some(index), uses, name, from, limit),
        uses.len() <= scan_cap(limit),
    ensures
        out.resolved_total > 0 <==> exists|path: Seq<u8>, start: u32| #[trigger]
            is_used_call(*index, uses, path, start),
{
    let (scan, r) = choose|scan: CallScanPage, r: Option<ResolvedCallers>|
        #![trigger is_merged_page(out.page, scan, r, limit, from)]
        is_name_scan(scan, Some(index), name, from, limit) && is_proof_of(
            r,
            uses,
            *index,
            name,
            limit,
        ) && is_merged_page(out.page, scan, r, limit, from) && out.resolved_total == (match r {
            Some(x) => x.total,
            None => 0,
        });
    let cap = scan_cap(limit);
    match r {
        None => {
            let order = choose|order: Seq<UseAt>| #[trigger]
                is_use_order(order, uses_at(uses)) && proven_upto(
                    order,
                    *index,
                    scan_cap(limit),
                    order.len() as int,
                ).len() == 0;
            assert forall|path: Seq<u8>, start: u32| !#[trigger] is_used_call(*index, uses, path, start) by {
                lemma_proven_is_used(order, *index, uses, cap, UseAt { path, start });
            }
        },
        Some(x) => {
            let order = choose|order: Seq<UseAt>| #[trigger]
                is_use_order(order, uses_at(uses)) && is_refinement(x, order, *index, name, limit)
                    && x.total > 0;
            let proven = proven_upto(order, *index, cap, order.len() as int);
            let u = proven[0];
            assert(proven.contains(u));
            lemma_proven_is_used(order, *index, uses, cap, u);
            assert(is_used_call(*index, uses, u.path, u.start));
        },
    }
}

// ─── Numbers and names ───────────────────────────────────────────────────────

/// Snapshots are counted on by one, and from the largest number to zero.
pub proof fn law_snapshots_count_on(generation: u32, r: Refresh)
    ensures
        r is Nothing ==> generation_after(generation, r) == generation,
        !(r is Nothing) && generation < u32::MAX ==> generation_after(generation, r) == generation + 1,
        !(r is Nothing) && generation == u32::MAX ==> generation_after(generation, r) == 0,
{
}

/// The id that was kept is the text of its file without the white space around it; a file of nothing else keeps none.
pub proof fn law_kept_ids(existing: &str, id: Option<String>)
    requires
        call_ensures(persisted_id, (existing,), id),
    ensures
        id is Some <==> exists|i: int| 0 <= i < existing@.len() && !is_space(#[trigger] existing@[i]),
        id is Some ==> id->0@ == trim_of(existing@),
{
}

/// A file may take five seconds to parse, or as long as the environment says in digits.
pub proof fn law_parse_timeouts(value: Option<&str>, ms: u64, n: u64)
    requires
        call_ensures(parse_timeout_ms, (value,), ms),
    ensures
        value is None ==> ms == 5000,
        value is Some && value->0@ == decimal(n as nat) ==> ms == n,
{
    crate::fact_answers::law_numbers_are_read(n as nat, u64::MAX as int);
}

} // verus!
