//! The link applier: which members of each duplicate group are relinked
//! to the group's canonical source, and what the run's statistics are.
//!
//! The caller executes the plan: for each member decided `Relink` it
//! removes the target, creates the link the strategy calls for, and
//! restores the snapshot of timestamps and permission bits — unless the
//! run is a dry run, in which case nothing on disk is touched.  Either
//! way every member counts toward the statistics, as does one that was
//! already linked.  The first I/O error aborts the whole run.

use vstd::prelude::*;
use crate::fileid::FileIdentity;

verus! {

/// What is to be done with one group member.
#[derive(Debug, PartialEq, Eq, Structural, Clone, Copy)]
pub enum LinkDecision {
    /// The member already shares the source's on-disk identity: a no-op,
    /// still counted in the statistics.
    AlreadyLinked,
    /// The member is to be removed and replaced by a link to the source;
    /// on a dry run nothing is touched, but the member still counts.
    Relink,
}

/// The decision for one member: already linked exactly when its identity
/// equals the source's.
pub open spec fn spec_decision(source_id: FileIdentity, target_id: FileIdentity) -> LinkDecision {
    if target_id == source_id {
        LinkDecision::AlreadyLinked
    } else {
        LinkDecision::Relink
    }
}

/// One duplicate group as the applier sees it: the canonical source's
/// size and identity, and the identity of every remaining member, in
/// group order.
pub struct GroupMeta {
    pub source_size: u64,
    pub source_id: FileIdentity,
    pub target_ids: Vec<FileIdentity>,
}

/// The bytes one group saves: the source's size for every other member.
pub open spec fn spec_group_bytes(g: GroupMeta) -> int {
    g.source_size * g.target_ids@.len()
}

/// The bytes all groups save together.
pub open spec fn spec_total_bytes(gs: Seq<GroupMeta>) -> int
    decreases gs.len(),
{
    if gs.len() == 0 {
        0
    } else {
        spec_total_bytes(gs.drop_last()) + spec_group_bytes(gs.last())
    }
}

/// The number of files all groups deduplicate: every member but the
/// source of each group.
pub open spec fn spec_total_files(gs: Seq<GroupMeta>) -> int
    decreases gs.len(),
{
    if gs.len() == 0 {
        0
    } else {
        spec_total_files(gs.drop_last()) + gs.last().target_ids@.len()
    }
}

/// Group statistics are never negative.
proof fn lemma_totals_nonneg(gs: Seq<GroupMeta>)
    ensures
        spec_total_bytes(gs) >= 0,
        spec_total_files(gs) >= 0,
    decreases gs.len(),
{
    if gs.len() > 0 {
        lemma_totals_nonneg(gs.drop_last());
        let g = gs.last();
        assert(spec_group_bytes(g) >= 0) by (nonlinear_arith);
    }
}

/// Statistics over a prefix never exceed statistics over the whole.
proof fn lemma_totals_monotone(gs: Seq<GroupMeta>, i: int)
    requires
        0 <= i <= gs.len(),
    ensures
        spec_total_bytes(gs.take(i)) <= spec_total_bytes(gs),
        spec_total_files(gs.take(i)) <= spec_total_files(gs),
    decreases gs.len() - i,
{
    if i == gs.len() {
        assert(gs.take(i) =~= gs);
    } else {
        assert(gs.take(i + 1).drop_last() =~= gs.take(i));
        assert(spec_group_bytes(gs.take(i + 1).last()) >= 0) by (nonlinear_arith);
        lemma_totals_monotone(gs, i + 1);
    }
}

/// Plan one group: for each remaining member, whether it is already
/// linked to the source or must be relinked.
pub fn plan_group(source_id: FileIdentity, target_ids: &Vec<FileIdentity>) -> (r: Vec<
    LinkDecision,
>)
    ensures
        r@.len() == target_ids@.len(),
        forall|i: int|
            0 <= i < r@.len() ==> r@[i] == spec_decision(source_id, target_ids@[i]),
{
    let mut out: Vec<LinkDecision> = Vec::new();
    let n = target_ids.len();
    for i in 0..n
        invariant
            n == target_ids@.len(),
            out@.len() == i,
            forall|j: int| 0 <= j < i ==> out@[j] == spec_decision(source_id, target_ids@[j]),
    {
        if target_ids[i] == source_id {
            out.push(LinkDecision::AlreadyLinked);
        } else {
            out.push(LinkDecision::Relink);
        }
    }
    out
}

/// The whole plan of a run: one decision per group member, and the
/// aggregate statistics.
pub struct ApplyPlan {
    pub decisions: Vec<Vec<LinkDecision>>,
    pub bytes_saved: u64,
    pub files_deduplicated: usize,
}

/// Plan a whole run over the duplicate groups.  Returns the decision for
/// every member of every group and the aggregate statistics, or `None`
/// when a statistic would not fit its counter.
pub fn plan_apply(groups: &Vec<GroupMeta>) -> (r: Option<ApplyPlan>)
    ensures
        match r {
            Some(plan) => {
                &&& plan.bytes_saved == spec_total_bytes(groups@)
                &&& plan.files_deduplicated == spec_total_files(groups@)
                &&& plan.decisions@.len() == groups@.len()
                &&& forall|g: int|
                    0 <= g < groups@.len() ==> (#[trigger] plan.decisions@[g])@.len()
                        == groups@[g].target_ids@.len()
                &&& forall|g: int, t: int|
                    0 <= g < groups@.len() && 0 <= t < groups@[g].target_ids@.len()
                        ==> (#[trigger] plan.decisions@[g]@[t]) == spec_decision(
                        groups@[g].source_id,
                        groups@[g].target_ids@[t],
                    )
            },
            None => spec_total_bytes(groups@) > u64::MAX || spec_total_files(groups@)
                > usize::MAX,
        },
{
    let mut decisions: Vec<Vec<LinkDecision>> = Vec::new();
    let mut bytes: u64 = 0;
    let mut files: usize = 0;
    let n = groups.len();
    for g in 0..n
        invariant
            n == groups@.len(),
            bytes == spec_total_bytes(groups@.take(g as int)),
            files == spec_total_files(groups@.take(g as int)),
            decisions@.len() == g,
            forall|k: int|
                0 <= k < g ==> (#[trigger] decisions@[k])@.len()
                    == groups@[k].target_ids@.len(),
            forall|k: int, t: int|
                0 <= k < g && 0 <= t < groups@[k].target_ids@.len()
                    ==> (#[trigger] decisions@[k]@[t]) == spec_decision(
                    groups@[k].source_id,
                    groups@[k].target_ids@[t],
                ),
    {
        proof {
            assert(groups@.take(g + 1).drop_last() =~= groups@.take(g as int));
            assert(groups@.take(g + 1).last() == groups@[g as int]);
        }
        let count = groups[g].target_ids.len();
        let group_bytes = match groups[g].source_size.checked_mul(count as u64) {
            Some(b) => b,
            None => {
                proof {
                    lemma_totals_nonneg(groups@.take(g as int));
                    assert(spec_total_bytes(groups@.take(g + 1)) > u64::MAX);
                    lemma_totals_monotone(groups@, g + 1);
                }
                return None;
            },
        };
        let new_bytes = match bytes.checked_add(group_bytes) {
            Some(b) => b,
            None => {
                proof {
                    assert(spec_total_bytes(groups@.take(g + 1)) > u64::MAX);
                    lemma_totals_monotone(groups@, g + 1);
                }
                return None;
            },
        };
        let new_files = match files.checked_add(count) {
            Some(f) => f,
            None => {
                proof {
                    lemma_totals_nonneg(groups@.take(g as int));
                    assert(spec_total_files(groups@.take(g + 1)) > usize::MAX);
                    lemma_totals_monotone(groups@, g + 1);
                }
                return None;
            },
        };
        bytes = new_bytes;
        files = new_files;
        decisions.push(plan_group(groups[g].source_id, &groups[g].target_ids));
    }
    proof {
        assert(groups@.take(n as int) =~= groups@);
    }
    Some(ApplyPlan { decisions, bytes_saved: bytes, files_deduplicated: files })
}

/// A second run on an already-deduplicated group mutates nothing: when
/// every member shares the source's identity, every decision is the
/// already-linked skip, which the caller performs no filesystem work for.
pub proof fn lemma_second_run_skips(source_id: FileIdentity, target_ids: Seq<FileIdentity>)
    requires
        forall|i: int| 0 <= i < target_ids.len() ==> target_ids[i] == source_id,
    ensures
        forall|i: int|
            0 <= i < target_ids.len() ==> spec_decision(source_id, target_ids[i])
                == LinkDecision::AlreadyLinked,
{
}

} // verus!
