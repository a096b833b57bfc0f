//! Which proposals are listed, written and accepted.
use vstd::prelude::*;
use vstd::utf8::encode_utf8;

use crate::answers::{lemma_filter_place, lemma_filter_source};
use crate::audit::CodeState;
use crate::keys::{
    law_bounds_are_the_prefix, law_proposal_id_reads_back, nul_free, proposal_key, proposal_prefix,
    PROPOSAL_KIND_MEMORY, PROPOSAL_KIND_SKILL, PROPOSAL_KIND_TOMBSTONE,
};
use crate::keyspace::{in_range_and, key_index, lemma_row_at, Row};
use crate::memory::{IndexDb, VerifyState};
use crate::memory_answers::mapped;
use crate::memory_tools::{accepted_record, listed_kinds};
use crate::proposal_ops::{
    cursor_under, distinct_kinds, is_proposal_page, kind_proposals, law_proposal_pages_chain,
    lemma_kinds_apart, lemma_under_prefix, listed_upto, mined_upto, proposal_at, proposal_row,
    proposals_at, proposals_upto, skill_key, tombstone_key, ProposalListResult,
};
use crate::proposals::{ProposalFact, ProposalItem, ProposalRecord};

verus! {

/// Asked for skills, a listing walks skills alone, and asked for memories, memories alone; asked for anything
/// else it walks both, memories first. It never walks tombstones.
pub proof fn law_kinds_that_are_listed(kind: Option<Seq<char>>)
    ensures
        kind == Some("skill"@) ==> listed_kinds(kind) == seq![PROPOSAL_KIND_SKILL],
        kind == Some("memory"@) ==> listed_kinds(kind) == seq![PROPOSAL_KIND_MEMORY],
        kind != Some("skill"@) && kind != Some("memory"@) ==> listed_kinds(kind) == seq![
            PROPOSAL_KIND_MEMORY,
            PROPOSAL_KIND_SKILL,
        ],
        !listed_kinds(kind).contains(PROPOSAL_KIND_TOMBSTONE),
        distinct_kinds(listed_kinds(kind)),
{
    reveal_strlit("skill");
    reveal_strlit("memory");
    assert("skill"@[0] == 's');
    assert("memory"@[0] == 'm');
}

proof fn lemma_kept_upto(
    rows: Seq<Row<ProposalRecord>>,
    scope: Seq<char>,
    kinds: Seq<u8>,
    n: int,
    k: int,
    j: int,
) -> (i: int)
    requires
        0 <= k < n <= kinds.len(),
        0 <= j < kind_proposals(rows, scope, kinds[k], None).len(),
    ensures
        0 <= i < proposals_upto(rows, scope, kinds, None, n).len(),
        proposals_upto(rows, scope, kinds, None, n)[i] == kind_proposals(rows, scope, kinds[k], None)[j],
    decreases n,
{
    let front = proposals_upto(rows, scope, kinds, None, n - 1);
    lemma_first_kind(scope, kinds, kinds.len() as int);
    if k == n - 1 {
        assert(proposals_at(rows, scope, kinds, None, k) == kind_proposals(rows, scope, kinds[k], None));
        front.len() + j
    } else {
        lemma_kept_upto(rows, scope, kinds, n - 1, k, j)
    }
}

proof fn lemma_first_kind(scope: Seq<char>, kinds: Seq<u8>, n: int)
    ensures
        crate::proposal_ops::cursor_kind(scope, kinds, None, n) == 0,
{
}

/// Unless a listing says that it stopped short, it shows every proposal of the scope and of a kind that it walks, as
/// it stands there. The result is its place.
pub proof fn law_proposals_are_listed(
    idx: IndexDb,
    scope: Seq<char>,
    kinds: Seq<u8>,
    limit: int,
    cap: int,
    out: ProposalListResult,
    k: int,
    id: Seq<char>,
) -> (i: int)
    requires
        idx.wf(),
        nul_free(encode_utf8(scope)),
        distinct_kinds(kinds),
        is_proposal_page(
            out,
            listed_upto(idx.proposals.rows@, scope, kinds, limit, cap, None, kinds.len() as int),
        ),
        !out.truncated,
        0 <= k < kinds.len(),
        proposal_at(
            idx.proposals.map(),
            proposal_key(encode_utf8(scope), kinds[k], encode_utf8(id)),
        ) is Some,
    ensures
        0 <= i < out.items@.len(),
        encode_utf8(out.items@[i].id@) == encode_utf8(id),
        out.items@[i].record@ == proposal_at(
            idx.proposals.map(),
            proposal_key(encode_utf8(scope), kinds[k], encode_utf8(id)),
        )->0@,
{
    let rows = idx.proposals.rows@;
    let raw = proposal_key(encode_utf8(scope), kinds[k], encode_utf8(id));
    let prefix = proposal_prefix(encode_utf8(scope), kinds[k]);
    assert(idx.proposals.map().contains_key(raw));
    let r = key_index(rows, raw);
    assert(rows[r].key@ == raw);
    lemma_row_at(rows, r);
    law_proposal_id_reads_back(encode_utf8(scope), kinds[k], encode_utf8(id));
    vstd::utf8::encode_utf8_valid_utf8(id);
    assert(prefix.is_prefix_of(raw)) by {
        assert(raw.subrange(0, prefix.len() as int) =~= prefix);
    }
    law_bounds_are_the_prefix(prefix, raw);
    let p = in_range_and(prefix, None, proposal_row());
    assert(cursor_under(None, prefix) is None);
    assert(p(rows[r]));
    let j = lemma_filter_place(rows, p, r);
    let i = lemma_kept_upto(rows, scope, kinds, kinds.len() as int, k, j);
    law_proposal_pages_chain(idx, scope, kinds, limit, cap, None);
    i
}

proof fn lemma_source_upto(
    rows: Seq<Row<ProposalRecord>>,
    scope: Seq<char>,
    kinds: Seq<u8>,
    cursor: Option<Seq<u8>>,
    n: int,
    i: int,
) -> (at: (int, int))
    requires
        0 <= n <= kinds.len(),
        0 <= i < proposals_upto(rows, scope, kinds, cursor, n).len(),
    ensures
        0 <= at.0 < n,
        0 <= at.1 < kind_proposals(rows, scope, kinds[at.0], cursor).len(),
        proposals_upto(rows, scope, kinds, cursor, n)[i] == kind_proposals(
            rows,
            scope,
            kinds[at.0],
            cursor,
        )[at.1],
    decreases n,
{
    let front = proposals_upto(rows, scope, kinds, cursor, n - 1);
    if i < front.len() {
        lemma_source_upto(rows, scope, kinds, cursor, n - 1, i)
    } else {
        (n - 1, i - front.len())
    }
}

/// Every proposal that a listing shows is one of the scope and of a kind that it walks, as it stands there. The
/// result is the place of its kind.
pub proof fn law_listed_proposals_are_pending(
    idx: IndexDb,
    scope: Seq<char>,
    kinds: Seq<u8>,
    limit: int,
    cap: int,
    cursor: Option<Seq<u8>>,
    out: ProposalListResult,
    i: int,
) -> (k: int)
    requires
        idx.wf(),
        nul_free(encode_utf8(scope)),
        distinct_kinds(kinds),
        is_proposal_page(
            out,
            listed_upto(idx.proposals.rows@, scope, kinds, limit, cap, cursor, kinds.len() as int),
        ),
        0 <= i < out.items@.len(),
    ensures
        0 <= k < kinds.len(),
        proposal_at(
            idx.proposals.map(),
            proposal_key(encode_utf8(scope), kinds[k], encode_utf8(out.items@[i].id@)),
        ) is Some,
        out.items@[i].record@ == proposal_at(
            idx.proposals.map(),
            proposal_key(encode_utf8(scope), kinds[k], encode_utf8(out.items@[i].id@)),
        )->0@,
{
    let rows = idx.proposals.rows@;
    let n = kinds.len() as int;
    let page = listed_upto(rows, scope, kinds, limit, cap, cursor, n);
    let all = proposals_upto(rows, scope, kinds, cursor, n);
    law_proposal_pages_chain(idx, scope, kinds, limit, cap, cursor);
    assert(page.found[i] == all[i]);
    let (k, j) = lemma_source_upto(rows, scope, kinds, cursor, n, i);
    let prefix = proposal_prefix(encode_utf8(scope), kinds[k]);
    let p = in_range_and(prefix, cursor_under(cursor, prefix), proposal_row());
    let r = lemma_filter_source(rows, p, j);
    lemma_under_prefix(rows, scope, kinds[k], cursor, j);
    lemma_row_at(rows, r);
    let raw = rows[r].key@;
    let id = raw.skip(prefix.len() as int);
    assert(raw =~= prefix + id) by {
        assert(raw.subrange(0, prefix.len() as int) == prefix);
        assert(raw =~= raw.subrange(0, prefix.len() as int) + id);
    }
    law_proposal_id_reads_back(encode_utf8(scope), kinds[k], id);
    assert(id == encode_utf8(out.items@[i].id@));
    k
}

pub(crate) proof fn lemma_not_written(
    m: Map<Seq<u8>, Option<ProposalFact>>,
    scope: Seq<char>,
    candidates: Seq<ProposalItem>,
    n: int,
    raw: Seq<u8>,
)
    requires
        0 <= n <= candidates.len(),
        forall|i: int| 0 <= i < n ==> skill_key(scope, (#[trigger] candidates[i]).id@) != raw,
    ensures
        mined_upto(m, scope, candidates, n).contains_key(raw) == m.contains_key(raw),
        m.contains_key(raw) ==> mined_upto(m, scope, candidates, n)[raw] == m[raw],
    decreases n,
{
    if n > 0 {
        lemma_not_written(m, scope, candidates, n - 1, raw);
        assert(skill_key(scope, candidates[n - 1].id@) != raw);
    }
}

/// Mining writes every candidate that was not rejected, and touches nothing else: a row under any other key stays as
/// it was, and so does what stands under the key of a rejected one.
pub proof fn law_candidates_are_written(
    m: Map<Seq<u8>, Option<ProposalFact>>,
    scope: Seq<char>,
    candidates: Seq<ProposalItem>,
    n: int,
    i: int,
    raw: Seq<u8>,
)
    requires
        0 <= i < n <= candidates.len(),
        forall|j: int|
            0 <= j < candidates.len() && j != i ==> skill_key(scope, (#[trigger] candidates[j]).id@)
                != skill_key(scope, candidates[i].id@),
        forall|j: int| 0 <= j < n ==> skill_key(scope, (#[trigger] candidates[j]).id@) != raw,
    ensures
        ({
            let key = skill_key(scope, candidates[i].id@);
            let after = mined_upto(m, scope, candidates, n);
            &&& !m.contains_key(tombstone_key(scope, candidates[i].id@)) ==> after.contains_key(key)
                && after[key] == Some(candidates[i].record@)
            &&& m.contains_key(tombstone_key(scope, candidates[i].id@)) ==> after.contains_key(key)
                == m.contains_key(key) && (m.contains_key(key) ==> after[key] == m[key])
            &&& after.contains_key(raw) == m.contains_key(raw)
            &&& m.contains_key(raw) ==> after[raw] == m[raw]
        }),
    decreases n,
{
    lemma_not_written(m, scope, candidates, n, raw);
    let id = candidates[i].id@;
    if i == n - 1 {
        lemma_not_written(m, scope, candidates, n - 1, skill_key(scope, id));
        assert forall|j: int| 0 <= j < n - 1 implies skill_key(scope, (#[trigger] candidates[j]).id@)
            != tombstone_key(scope, id) by {
            lemma_kinds_apart(scope, candidates[j].id@, id);
        }
        lemma_not_written(m, scope, candidates, n - 1, tombstone_key(scope, id));
    } else {
        law_candidates_are_written(m, scope, candidates, n - 1, i, raw);
        assert(skill_key(scope, candidates[n - 1].id@) != skill_key(scope, id));
    }
}

/// An accepted proposal becomes a memory that says what the proposal does and rests on its files alone. It is verified
/// where it has files and all of them are in the code map, and stale where one of them is not.
pub proof fn law_accepted_proposals(p: ProposalFact, code: CodeState, importance_bits: u32, now: i64)
    ensures
        ({
            let r = accepted_record(p, code, importance_bits, now);
            &&& r.value == p.description
            &&& r.files == p.files
            &&& r.symbols.len() == 0
            &&& r.commands.len() == 0
            &&& r.tags == seq!["skill"@, "cochange"@]
            &&& r.created_at == now && r.updated_at == now && r.last_verified == now
            &&& r.importance_bits == importance_bits
            &&& r.verified == VerifyState::Unverified <==> p.files.len() == 0
            &&& r.verified == VerifyState::Stale <==> exists|i: int|
                0 <= i < p.files.len() && !mapped(code.files@, #[trigger] p.files[i])
        }),
{
    let r = accepted_record(p, code, importance_bits, now);
    assert forall|i: int| 0 <= i < p.files.len() implies (mapped(code.files@, #[trigger] p.files[i])
        <==> crate::model::file_table(code.files@).contains_key(p.files[i])) by {}
}

} // verus!
