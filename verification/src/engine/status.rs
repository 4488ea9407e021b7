//! The state of branches and topics in a synchronization, and its summary.

use vstd::prelude::*;

use crate::object::ObjectId;
use crate::text::{decimal, decimal_of, lemma_occurs_between, occurs};

verus! {

/// A branch's reconciled state for this sync.
#[derive(Debug, Clone, Copy, PartialEq, Eq, Structural)]
pub enum Reconciled {
    /// Local and remote heads were integrated into this head.
    Head(ObjectId),
    /// No head exists locally or on any remote; sync must create the first
    /// commit, even for an empty tree, so the system branch has a head to mirror.
    NoHistory,
    /// A dry run found reconciliation conflicts; the filesystem sync is skipped.
    Conflict,
}

impl Reconciled {
    /// The head, where there is one.
    pub fn head(&self) -> (r: Option<ObjectId>)
        ensures
            r == match self {
                Reconciled::Head(head) => Some(*head),
                _ => None,
            },
    {
        match self {
            Reconciled::Head(head) => Some(*head),
            Reconciled::NoHistory | Reconciled::Conflict => None,
        }
    }
}

/// What became of a topic.
#[derive(Debug, Clone, Copy, PartialEq, Eq, Structural)]
pub enum SyncTopicStatus {
    Unchanged,
    WouldCapture,
    WouldApply,
    WouldCaptureAndApply,
    Conflict,
    Captured,
    Applied,
    CapturedAndApplied,
}

impl SyncTopicStatus {
    /// The status in words.
    pub open spec fn label_text(self) -> Seq<char> {
        match self {
            SyncTopicStatus::Unchanged => "unchanged"@,
            SyncTopicStatus::WouldCapture => "would capture"@,
            SyncTopicStatus::WouldApply => "would apply"@,
            SyncTopicStatus::WouldCaptureAndApply => "would capture and apply"@,
            SyncTopicStatus::Conflict => "conflict"@,
            SyncTopicStatus::Captured => "captured"@,
            SyncTopicStatus::Applied => "applied"@,
            SyncTopicStatus::CapturedAndApplied => "captured and applied"@,
        }
    }

    /// The status in words.
    pub fn label(self) -> (r: &'static str)
        ensures
            r@ == self.label_text(),
    {
        match self {
            SyncTopicStatus::Unchanged => "unchanged",
            SyncTopicStatus::WouldCapture => "would capture",
            SyncTopicStatus::WouldApply => "would apply",
            SyncTopicStatus::WouldCaptureAndApply => "would capture and apply",
            SyncTopicStatus::Conflict => "conflict",
            SyncTopicStatus::Captured => "captured",
            SyncTopicStatus::Applied => "applied",
            SyncTopicStatus::CapturedAndApplied => "captured and applied",
        }
    }
}

/// The status of a topic whose repository side or system side changes.
pub open spec fn status_of(dry_run: bool, repo: bool, system: bool) -> SyncTopicStatus {
    if repo && system {
        if dry_run {
            SyncTopicStatus::WouldCaptureAndApply
        } else {
            SyncTopicStatus::CapturedAndApplied
        }
    } else if repo {
        if dry_run {
            SyncTopicStatus::WouldCapture
        } else {
            SyncTopicStatus::Captured
        }
    } else if system {
        if dry_run {
            SyncTopicStatus::WouldApply
        } else {
            SyncTopicStatus::Applied
        }
    } else {
        SyncTopicStatus::Unchanged
    }
}

/// The status of a topic whose repository side or system side changes.
pub fn topic_sync_status(
    dry_run: bool,
    changed_wrt_repo: bool,
    changed_wrt_system: bool,
) -> (r: SyncTopicStatus)
    ensures
        r == status_of(dry_run, changed_wrt_repo, changed_wrt_system),
{
    match (dry_run, changed_wrt_repo, changed_wrt_system) {
        (true, true, true) => SyncTopicStatus::WouldCaptureAndApply,
        (true, true, false) => SyncTopicStatus::WouldCapture,
        (true, false, true) => SyncTopicStatus::WouldApply,
        (_, false, false) => SyncTopicStatus::Unchanged,
        (false, true, true) => SyncTopicStatus::CapturedAndApplied,
        (false, true, false) => SyncTopicStatus::Captured,
        (false, false, true) => SyncTopicStatus::Applied,
    }
}

/// What is done about a topic once its trees are merged.
#[derive(Debug, Clone, Copy, PartialEq, Eq, Structural)]
pub struct TopicPlan {
    pub status: SyncTopicStatus,
    /// Commit the merged tree to the topic.
    pub commit: bool,
    /// Say that the merged tree would be committed.
    pub show_commit: bool,
    /// Write the merged tree to the file system.
    pub apply: bool,
    /// Say what would be written to the file system.
    pub show_apply: bool,
    /// Move the head of this host to the head of the topic.
    pub mirror: bool,
}

/// Whether the repository side of a topic changes. A topic without history always does.
pub open spec fn repo_changes(state: Reconciled, theirs: ObjectId, merged: ObjectId) -> bool {
    state is NoHistory || merged != theirs
}

/// What is done about a topic with these trees.
pub open spec fn planned(
    dry_run: bool,
    state: Reconciled,
    ours: ObjectId,
    theirs: ObjectId,
    merged: ObjectId,
) -> TopicPlan {
    let repo = repo_changes(state, theirs, merged);
    let system = merged != ours;
    TopicPlan {
        status: status_of(dry_run, repo, system),
        commit: !dry_run && repo,
        show_commit: dry_run && repo,
        apply: !dry_run && system,
        show_apply: dry_run && system,
        mirror: !dry_run,
    }
}

/// Decides what is done about a topic: `ours` is the tree of its files, `theirs` that of the
/// repository, and `merged` what both come to.
pub fn plan_topic(
    dry_run: bool,
    state: Reconciled,
    ours: ObjectId,
    theirs: ObjectId,
    merged: ObjectId,
) -> (r: TopicPlan)
    ensures
        r == planned(dry_run, state, ours, theirs, merged),
{
    let no_history = match state {
        Reconciled::NoHistory => true,
        _ => false,
    };
    let repo = no_history || merged != theirs;
    let system = merged != ours;
    TopicPlan {
        status: topic_sync_status(dry_run, repo, system),
        commit: !dry_run && repo,
        show_commit: dry_run && repo,
        apply: !dry_run && system,
        show_apply: dry_run && system,
        mirror: !dry_run,
    }
}

/// What is done about the conflicts of a merge.
#[derive(Debug, Clone, Copy, PartialEq, Eq, Structural)]
pub enum ConflictStep {
    /// Show them and leave the branch alone.
    Report,
    /// Resolve them, if there are any.
    Resolve,
    /// There are none.
    Proceed,
}

/// Decides what is done about the conflicts of a merge. A dry run resolves nothing.
pub fn on_merge(dry_run: bool, unresolved: bool) -> (r: ConflictStep)
    ensures
        r == if !dry_run {
            ConflictStep::Resolve
        } else if unresolved {
            ConflictStep::Report
        } else {
            ConflictStep::Proceed
        },
{
    if !dry_run {
        ConflictStep::Resolve
    } else if unresolved {
        ConflictStep::Report
    } else {
        ConflictStep::Proceed
    }
}

// ----------------------------------------------------------------------------
// The summary
// ----------------------------------------------------------------------------

/// How many topics came to what.
#[derive(Debug, Clone, Copy)]
pub struct SyncSummary {
    pub total: usize,
    pub unchanged: usize,
    pub changed: usize,
    pub conflicts: usize,
}

/// The text of a summary.
pub open spec fn summary_text(
    total: nat,
    unchanged: nat,
    changed: nat,
    conflicts: nat,
) -> Seq<char> {
    "Summary: "@ + decimal(total) + " topic(s) checked, "@ + decimal(unchanged) + " clean, "@
        + decimal(changed) + " changed, "@ + decimal(conflicts) + " conflict(s)"@
}

impl SyncSummary {
    /// Every topic is counted as exactly one of the three.
    pub open spec fn wf(&self) -> bool {
        self.total == self.unchanged + self.changed + self.conflicts
    }

    /// The summary of no topics.
    pub fn new() -> (r: SyncSummary)
        ensures
            r.wf(),
            r.total == 0,
            r.unchanged == 0,
            r.changed == 0,
            r.conflicts == 0,
    {
        SyncSummary { total: 0, unchanged: 0, changed: 0, conflicts: 0 }
    }

    /// Counts a topic.
    pub fn record(&mut self, status: SyncTopicStatus)
        requires
            old(self).wf(),
            old(self).total < usize::MAX,
        ensures
            final(self).wf(),
            final(self).total == old(self).total + 1,
            final(self).unchanged == old(self).unchanged + if status is Unchanged {
                1int
            } else {
                0
            },
            final(self).conflicts == old(self).conflicts + if status is Conflict {
                1int
            } else {
                0
            },
    {
        self.total = self.total + 1;
        match status {
            SyncTopicStatus::Unchanged => {
                self.unchanged = self.unchanged + 1;
            },
            SyncTopicStatus::Conflict => {
                self.conflicts = self.conflicts + 1;
            },
            _ => {
                self.changed = self.changed + 1;
            },
        }
    }

    /// The summary in words.
    pub fn text(&self) -> (r: String)
        ensures
            r@ == summary_text(
                self.total as nat,
                self.unchanged as nat,
                self.changed as nat,
                self.conflicts as nat,
            ),
    {
        let mut out = "Summary: ".to_owned();
        out.append(decimal_of(self.total).as_str());
        out.append(" topic(s) checked, ");
        out.append(decimal_of(self.unchanged).as_str());
        out.append(" clean, ");
        out.append(decimal_of(self.changed).as_str());
        out.append(" changed, ");
        out.append(decimal_of(self.conflicts).as_str());
        out.append(" conflict(s)");
        out
    }
}

// ----------------------------------------------------------------------------
// Laws
// ----------------------------------------------------------------------------

/// A topic is clean exactly where neither side changes, and the words of a dry run are never
/// those of a run.
pub proof fn law_status_tells_what_changes(dry_run: bool, repo: bool, system: bool)
    ensures
        status_of(dry_run, repo, system) is Unchanged <==> !repo && !system,
        !(status_of(dry_run, repo, system) is Conflict),
        repo || system ==> status_of(true, repo, system) != status_of(false, repo, system),
{
}

/// The tree of a topic in the repository, once a plan is carried out.
pub open spec fn repo_after(plan: TopicPlan, theirs: ObjectId, merged: ObjectId) -> ObjectId {
    if plan.commit {
        merged
    } else {
        theirs
    }
}

/// The tree of the files of a topic, once a plan is carried out.
pub open spec fn system_after(plan: TopicPlan, ours: ObjectId, merged: ObjectId) -> ObjectId {
    if plan.apply {
        merged
    } else {
        ours
    }
}

/// A synchronization brings the repository and the file system to the merged tree and records it
/// as the base of this host; a dry run leaves all three alone.
pub proof fn law_both_sides_come_to_the_merge(
    dry_run: bool,
    state: Reconciled,
    ours: ObjectId,
    theirs: ObjectId,
    merged: ObjectId,
)
    ensures
        ({
            let plan = planned(dry_run, state, ours, theirs, merged);
            if dry_run {
                repo_after(plan, theirs, merged) == theirs && system_after(plan, ours, merged)
                    == ours && !plan.mirror
            } else {
                repo_after(plan, theirs, merged) == merged && system_after(plan, ours, merged)
                    == merged && plan.mirror
            }
        }),
{
}

/// Where both sides have what they were merged to, nothing is committed and nothing is written.
pub proof fn law_second_sync_changes_nothing(dry_run: bool, head: ObjectId, tree: ObjectId)
    ensures
        ({
            let plan = planned(dry_run, Reconciled::Head(head), tree, tree, tree);
            plan.status is Unchanged && !plan.commit && !plan.apply && !plan.show_commit
                && !plan.show_apply
        }),
{
}

/// A dry run foretells the run: for the same state and trees it shows a commit exactly where the
/// run makes one, and changes of the file system exactly where the run makes them, and says of
/// each topic what the run says, but as what would be done.
pub proof fn law_dry_run_foretells_the_run(
    state: Reconciled,
    ours: ObjectId,
    theirs: ObjectId,
    merged: ObjectId,
    preview: TopicPlan,
    run: TopicPlan,
)
    requires
        call_ensures(plan_topic, (true, state, ours, theirs, merged), preview),
        call_ensures(plan_topic, (false, state, ours, theirs, merged), run),
    ensures
        ({
            &&& preview.show_commit == run.commit
            &&& preview.show_apply == run.apply
            &&& !preview.commit && !preview.apply && !preview.mirror
            &&& !run.show_commit && !run.show_apply
            &&& preview.status is Unchanged <==> run.status is Unchanged
            &&& preview.status is WouldCapture <==> run.status is Captured
            &&& preview.status is WouldApply <==> run.status is Applied
            &&& preview.status is WouldCaptureAndApply <==> run.status is CapturedAndApplied
            &&& !(preview.status is Conflict) && !(run.status is Conflict)
        }),
{
}

/// The merged tree is captured exactly where the repository has another tree or none yet, and
/// applied exactly where the files are others. The status says which of the two is done.
pub proof fn law_merge_is_captured_and_applied(
    state: Reconciled,
    ours: ObjectId,
    theirs: ObjectId,
    merged: ObjectId,
    plan: TopicPlan,
)
    requires
        call_ensures(plan_topic, (false, state, ours, theirs, merged), plan),
    ensures
        ({
            &&& plan.commit <==> state is NoHistory || merged != theirs
            &&& plan.apply <==> merged != ours
            &&& plan.mirror
            &&& plan.status is Captured <==> plan.commit && !plan.apply
            &&& plan.status is Applied <==> plan.apply && !plan.commit
            &&& plan.status is CapturedAndApplied <==> plan.commit && plan.apply
            &&& plan.status is Unchanged <==> !plan.commit && !plan.apply
        }),
{
}

/// A dry run resolves nothing, and shows the conflicts that there are; a run resolves whatever
/// there is to be resolved.
pub proof fn law_conflicts_are_resolved_or_shown(dry_run: bool, unresolved: bool, step: ConflictStep)
    requires
        call_ensures(on_merge, (dry_run, unresolved), step),
    ensures
        step is Resolve <==> !dry_run,
        step is Report <==> dry_run && unresolved,
        step is Proceed <==> dry_run && !unresolved,
{
}

/// Only a branch that was integrated has a head.
pub proof fn law_integrated_branches_have_heads(
    state: Reconciled,
    head: Option<ObjectId>,
    id: ObjectId,
)
    requires
        call_ensures(Reconciled::head, (&state,), head),
    ensures
        head == Some(id) <==> state == Reconciled::Head(id),
        head is None <==> state is NoHistory || state is Conflict,
{
}

/// Statuses are told apart by their words.
pub proof fn law_labels_differ(a: SyncTopicStatus, b: SyncTopicStatus)
    requires
        a.label_text() == b.label_text(),
    ensures
        a == b,
{
    reveal_strlit("unchanged");
    reveal_strlit("would capture");
    reveal_strlit("would apply");
    reveal_strlit("would capture and apply");
    reveal_strlit("conflict");
    reveal_strlit("captured");
    reveal_strlit("applied");
    reveal_strlit("captured and applied");
    assert("unchanged"@.len() == 9 && "would capture"@.len() == 13 && "would apply"@.len() == 11
        && "would capture and apply"@.len() == 23 && "conflict"@.len() == 8 && "captured"@.len() == 8
        && "applied"@.len() == 7 && "captured and applied"@.len() == 20);
    assert("conflict"@[1] == 'o' && "captured"@[1] == 'a');
}

/// The words for a dry run say that something would be done, and those for a run do not.
pub proof fn law_previews_are_worded_so(repo: bool, system: bool)
    requires
        repo || system,
    ensures
        "would "@.is_prefix_of(status_of(true, repo, system).label_text()),
        !"would "@.is_prefix_of(status_of(false, repo, system).label_text()),
{
    reveal_strlit("would ");
    reveal_strlit("would capture");
    reveal_strlit("would apply");
    reveal_strlit("would capture and apply");
    reveal_strlit("captured");
    reveal_strlit("applied");
    reveal_strlit("captured and applied");
    let preview = status_of(true, repo, system).label_text();
    let run = status_of(false, repo, system).label_text();
    assert(preview.subrange(0, 6) =~= "would "@);
    assert("would "@[0] == 'w');
    if "would "@.is_prefix_of(run) {
        assert(run.subrange(0, 6)[0] == 'w');
    }
}

/// The status of a topic says which side changed: it is captured where the repository does,
/// applied where the file system does, and in the words of a dry run only in one.
pub proof fn law_status_says_which_side_changed(
    dry_run: bool,
    repo: bool,
    system: bool,
    status: SyncTopicStatus,
)
    requires
        call_ensures(topic_sync_status, (dry_run, repo, system), status),
    ensures
        status is Captured || status is WouldCapture <==> repo && !system,
        status is Applied || status is WouldApply <==> system && !repo,
        status is CapturedAndApplied || status is WouldCaptureAndApply <==> repo && system,
        status is WouldCapture || status is WouldApply || status is WouldCaptureAndApply ==> dry_run,
        status is Captured || status is Applied || status is CapturedAndApplied ==> !dry_run,
{
}

/// A summary says how many topics were checked, and how many of them were clean, changed or in
/// conflict.
pub proof fn law_summary_says_all_counts(
    total: nat,
    unchanged: nat,
    changed: nat,
    conflicts: nat,
)
    ensures
        ({
            let text = summary_text(total, unchanged, changed, conflicts);
            &&& occurs(text, decimal(total) + " topic(s) checked, "@)
            &&& occurs(text, decimal(unchanged) + " clean, "@)
            &&& occurs(text, decimal(changed) + " changed, "@)
            &&& occurs(text, decimal(conflicts) + " conflict(s)"@)
        }),
{
    let text = summary_text(total, unchanged, changed, conflicts);
    let a = decimal(total) + " topic(s) checked, "@;
    let b = decimal(unchanged) + " clean, "@;
    let c = decimal(changed) + " changed, "@;
    let d = decimal(conflicts) + " conflict(s)"@;
    let front = "Summary: "@;
    assert(text =~= front + a + (b + c + d));
    lemma_occurs_between(text, front, a, b + c + d);
    assert(text =~= (front + a) + b + (c + d));
    lemma_occurs_between(text, front + a, b, c + d);
    assert(text =~= (front + a + b) + c + d);
    lemma_occurs_between(text, front + a + b, c, d);
    assert(text =~= (front + a + b + c) + d + Seq::empty());
    lemma_occurs_between(text, front + a + b + c, d, Seq::empty());
}

} // verus!
