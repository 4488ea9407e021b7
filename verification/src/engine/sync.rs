//! The steps of a synchronization.

use vstd::prelude::*;

use crate::engine::status::{summary_text, Reconciled, SyncSummary, SyncTopicStatus};
use crate::object::ObjectId;
use crate::order::{Keyed, SortedSet};
use crate::store::branch::{Branch, BranchView};
use crate::store::heads::HeadUpdate;
use crate::text::{join, joined, same, text_before, views};

verus! {

/// What a synchronization has to know of a topic of the manifest.
#[derive(Debug)]
pub struct TopicEntry {
    pub name: String,
    pub enabled: bool,
}

/// A synchronization of all topics.
#[derive(Debug)]
pub struct Sync {
    pub dry_run: bool,
    pub offline: bool,
    /// The names of the remotes.
    pub remotes: Vec<String>,
    /// The head of the reconciled manifest.
    pub manifest_head: Option<ObjectId>,
    /// The topics of the reconciled manifest.
    pub topics: Vec<TopicEntry>,
    /// The reconciled state of each topic, as far as they are reconciled.
    pub states: Vec<Reconciled>,
    pub summary: SyncSummary,
    /// The remotes to which nothing could be published, with the reasons.
    pub failures: Vec<String>,
    pub stage: SyncStage,
}

/// What a synchronization waits for.
#[derive(Debug, Clone, Copy, PartialEq, Eq, Structural)]
pub enum SyncStage {
    ListingRemotes,
    Fetching(usize),
    ReconcilingManifest,
    LoadingManifest,
    ReconcilingTopic(usize),
    UpdatingHeads,
    GettingHostname,
    SyncingTopic(usize),
    Summarizing,
    Publishing(usize),
    Ended,
}

/// What came of the last action.
#[derive(Debug)]
pub enum SyncEvent {
    /// The remotes are these.
    Remotes(Vec<String>),
    /// The action succeeded.
    Done,
    /// The action failed, for this reason.
    Failed(String),
    /// The branch was reconciled.
    Reconciled(Reconciled),
    /// The manifest has these topics.
    Topics(Vec<TopicEntry>),
    /// The manifest could be read, but is no valid manifest.
    Invalid,
    /// The topic was synchronized.
    Synced(SyncTopicStatus),
}

/// What a synchronization does next.
#[derive(Debug)]
pub enum SyncAction {
    ListRemotes,
    /// Fetch from the remote at this position.
    Fetch(usize),
    /// Reconcile the manifest.
    ReconcileManifest,
    /// Read the manifest of this commit.
    LoadManifest(ObjectId),
    /// Reconcile the topic at this position.
    ReconcileTopic(usize),
    /// Move these heads, all or none.
    UpdateHeads(Vec<HeadUpdate>),
    GetHostname,
    /// Synchronize the topic at this position with the file system.
    SyncTopic { index: usize, state: Reconciled },
    /// Show the summary.
    ShowSummary(String),
    /// Push the manifest and all topics to the remote at this position.
    Push(usize),
    /// End with an error.
    Fail(SyncError),
    /// End.
    Finish,
}

/// Why a synchronization ends early.
#[derive(Debug)]
pub enum SyncError {
    /// An action failed.
    Aborted,
    /// A remote could not be fetched from.
    FetchFailed(String),
    NoManifest,
    ManifestConflict,
    InvalidManifest,
    /// The remotes to which nothing could be published, with the reasons.
    PublishFailed(Vec<String>),
}

impl SyncError {
    /// The text of the error. An action that failed has its own.
    pub open spec fn text(&self) -> Option<Seq<char>> {
        match self {
            SyncError::Aborted => None,
            SyncError::FetchFailed(name) => Some("Failed to fetch remote '"@ + name@ + "'"@),
            SyncError::NoManifest => Some("Manifest branch has no head"@),
            SyncError::ManifestConflict => Some(
                "Interactive sync is required to reconcile manifest"@,
            ),
            SyncError::InvalidManifest => Some("Reconciled manifest is invalid"@),
            SyncError::PublishFailed(failures) => Some(
                "Local synchronization succeeded, but publication failed for: "@ + joined(
                    views(failures@),
                    "; "@,
                ),
            ),
        }
    }

    /// The text of the error, where it has one of its own.
    pub fn message(&self) -> (r: Option<String>)
        ensures
            match r {
                Some(text) => self.text() == Some(text@),
                None => self.text() is None,
            },
    {
        match self {
            SyncError::Aborted => None,
            SyncError::FetchFailed(name) => Some(
                "Failed to fetch remote '".to_owned().concat(name.as_str()).concat("'"),
            ),
            SyncError::NoManifest => Some("Manifest branch has no head".to_owned()),
            SyncError::ManifestConflict => Some(
                "Interactive sync is required to reconcile manifest".to_owned(),
            ),
            SyncError::InvalidManifest => Some("Reconciled manifest is invalid".to_owned()),
            SyncError::PublishFailed(failures) => Some(
                "Local synchronization succeeded, but publication failed for: ".to_owned().concat(
                    join(failures, "; ").as_str(),
                ),
            ),
        }
    }
}

// ----------------------------------------------------------------------------
// The state of a topic
// ----------------------------------------------------------------------------

/// The last position below `n` at which a topic has this name; -1 where none has.
pub open spec fn last_named(topics: Seq<TopicEntry>, n: int, name: Seq<char>) -> int
    decreases n,
{
    if n <= 0 {
        -1
    } else if topics[n - 1].name@ == name {
        n - 1
    } else {
        last_named(topics, n - 1, name)
    }
}

/// The state of the topic of this name: of several the last.
pub open spec fn state_named(
    topics: Seq<TopicEntry>,
    states: Seq<Reconciled>,
    name: Seq<char>,
) -> Option<Reconciled> {
    let k = last_named(topics, topics.len() as int, name);
    if 0 <= k < states.len() {
        Some(states[k])
    } else {
        None
    }
}

pub(crate) proof fn lemma_last_named(topics: Seq<TopicEntry>, n: int, name: Seq<char>, i: int)
    requires
        0 <= i < n <= topics.len(),
        topics[i].name@ == name,
    ensures
        i <= last_named(topics, n, name) < n,
        topics[last_named(topics, n, name)].name@ == name,
    decreases n,
{
    if topics[n - 1].name@ != name {
        lemma_last_named(topics, n - 1, name, i);
    }
}

/// Finds the state of the topic of this name.
fn find_state(topics: &Vec<TopicEntry>, states: &Vec<Reconciled>, name: &str) -> (r: Option<
    Reconciled,
>)
    ensures
        r == state_named(topics@, states@, name@),
{
    let mut n: usize = topics.len();
    while n > 0
        invariant
            n <= topics@.len(),
            last_named(topics@, topics@.len() as int, name@) == last_named(
                topics@,
                n as int,
                name@,
            ),
        decreases n,
    {
        if same(topics[n - 1].name.as_str(), name) {
            if n - 1 < states.len() {
                return Some(states[n - 1]);
            } else {
                return None;
            }
        }
        n = n - 1;
    }
    None
}

/// Whether `updates` moves the manifest, and each topic that has a reconciled head, in the order
/// of their names.
pub open spec fn are_updates(
    updates: Seq<HeadUpdate>,
    manifest_head: ObjectId,
    topics: Seq<TopicEntry>,
    states: Seq<Reconciled>,
) -> bool {
    &&& updates.len() > 0
    &&& updates[0].branch@ is Manifest
    &&& updates[0].head == manifest_head
    &&& forall|i: int|
        1 <= i < updates.len() ==> (#[trigger] updates[i]).branch@ is Topic && state_named(
            topics,
            states,
            updates[i].branch@->Topic_0,
        ) == Some(Reconciled::Head(updates[i].head))
    &&& forall|i: int, j: int|
        1 <= i < j < updates.len() ==> text_before(
            (#[trigger] updates[i]).branch@->Topic_0,
            (#[trigger] updates[j]).branch@->Topic_0,
        )
    &&& forall|name: Seq<char>|
        (#[trigger] state_named(topics, states, name)) is Some && state_named(
            topics,
            states,
            name,
        )->Some_0 is Head ==> updates_topic(updates, name)
}

/// Whether the topic of this name is among the updates.
pub open spec fn updates_topic(updates: Seq<HeadUpdate>, name: Seq<char>) -> bool {
    exists|i: int|
        1 <= i < updates.len() && (#[trigger] updates[i]).branch@ == BranchView::Topic(name)
}

/// The updates that make the reconciled heads the local ones.
fn collect_updates(
    manifest_head: ObjectId,
    topics: &Vec<TopicEntry>,
    states: &Vec<Reconciled>,
) -> (r: Vec<HeadUpdate>)
    requires
        topics@.len() == states@.len(),
    ensures
        are_updates(r@, manifest_head, topics@, states@),
{
    let mut names: SortedSet<String> = SortedSet::new();
    for i in 0..topics.len()
        invariant
            names.wf(),
            forall|k: int| 0 <= k < i ==> names@.contains((#[trigger] topics@[k]).name@),
    {
        let _ = names.insert(topics[i].name.clone());
    }
    let mut updates: Vec<HeadUpdate> = Vec::new();
    updates.push(HeadUpdate { branch: Branch::Manifest, head: manifest_head });
    let ghost mut from: Seq<int> = seq![-1int];
    for i in 0..names.items.len()
        invariant
            names.wf(),
            updates@.len() > 0,
            updates@[0].branch@ is Manifest,
            updates@[0].head == manifest_head,
            from.len() == updates@.len(),
            forall|k: int|
                1 <= k < updates@.len() ==> 0 <= #[trigger] from[k] < i && updates@[k].branch@
                    == BranchView::Topic(names.items@[from[k]]@) && state_named(
                    topics@,
                    states@,
                    names.items@[from[k]]@,
                ) == Some(Reconciled::Head(updates@[k].head)),
            forall|k: int, m: int|
                1 <= k < m < updates@.len() ==> #[trigger] from[k] < #[trigger] from[m],
            forall|k: int|
                0 <= k < i && state_named(topics@, states@, (#[trigger] names.items@[k])@) is Some
                    && state_named(topics@, states@, names.items@[k]@)->Some_0 is Head
                    ==> updates_topic(updates@, names.items@[k]@),
    {
        let name = names.items[i].as_str();
        let ghost before = updates@;
        if let Some(Reconciled::Head(head)) = find_state(topics, states, name) {
            updates.push(HeadUpdate { branch: Branch::topic(name), head });
            proof {
                from = from.push(i as int);
                assert(updates@[before.len() as int].branch@ == BranchView::Topic(name@));
            }
        }
        proof {
            assert forall|k: int|
                0 <= k < i + 1 && state_named(topics@, states@, (#[trigger] names.items@[k])@) is Some
                    && state_named(topics@, states@, names.items@[k]@)->Some_0
                    is Head implies updates_topic(updates@, names.items@[k]@) by {
                if k < i {
                    assert(updates_topic(before, names.items@[k]@));
                    let u = choose|u: int|
                        1 <= u < before.len() && (#[trigger] before[u]).branch@
                            == BranchView::Topic(names.items@[k]@);
                    assert(updates@[u] == before[u]);
                }
            }
        }
    }
    proof {
        assert forall|k: int, m: int| 1 <= k < m < updates@.len() implies text_before(
            (#[trigger] updates@[k]).branch@->Topic_0,
            (#[trigger] updates@[m]).branch@->Topic_0,
        ) by {
            assert(from[k] < from[m]);
            assert(<String as Keyed>::precedes(
                names.items@[from[k]].key(),
                names.items@[from[m]].key(),
            ));
        }
        assert forall|k: int| 1 <= k < updates@.len() implies (#[trigger] updates@[k]).branch@
            is Topic && state_named(topics@, states@, updates@[k].branch@->Topic_0) == Some(
            Reconciled::Head(updates@[k].head),
        ) by {
            assert(0 <= from[k]);
        }
        assert forall|name: Seq<char>|
            (#[trigger] state_named(topics@, states@, name)) is Some && state_named(
                topics@,
                states@,
                name,
            )->Some_0 is Head implies updates_topic(updates@, name) by {
            let k = last_named(topics@, topics@.len() as int, name);
            lemma_last_named_holds(topics@, topics@.len() as int, name);
            assert(names@.contains(topics@[k].name@));
            let m = choose|m: int|
                0 <= m < names.items@.len() && #[trigger] names.items@[m].key() == name;
            assert(names.items@[m]@ == name);
        }
    }
    updates
}

pub(crate) proof fn lemma_last_named_holds(topics: Seq<TopicEntry>, n: int, name: Seq<char>)
    requires
        0 <= n <= topics.len(),
    ensures
        last_named(topics, n, name) >= 0 ==> last_named(topics, n, name) < n && topics[last_named(
            topics,
            n,
            name,
        )].name@ == name,
    decreases n,
{
    if n > 0 && topics[n - 1].name@ != name {
        lemma_last_named_holds(topics, n - 1, name);
    }
}

// ----------------------------------------------------------------------------
// Steps
// ----------------------------------------------------------------------------

/// Whether a topic is synchronized with the file system: it is enabled, and its branch could be
/// reconciled.
pub open spec fn is_synced(topics: Seq<TopicEntry>, states: Seq<Reconciled>, i: int) -> bool {
    topics[i].enabled && state_named(topics, states, topics[i].name@) != Some(Reconciled::Conflict)
}

/// Whether a topic is only counted as a conflict.
pub open spec fn is_conflict(topics: Seq<TopicEntry>, states: Seq<Reconciled>, i: int) -> bool {
    topics[i].enabled && state_named(topics, states, topics[i].name@) == Some(Reconciled::Conflict)
}

/// The first topic from `i` on that is synchronized; the number of topics where none is.
pub open spec fn next_synced(topics: Seq<TopicEntry>, states: Seq<Reconciled>, i: int) -> int
    decreases topics.len() - i,
{
    if i >= topics.len() {
        topics.len() as int
    } else if is_synced(topics, states, i) {
        i
    } else {
        next_synced(topics, states, i + 1)
    }
}

/// How many topics are only counted as conflicts from `i` on up to the next that is
/// synchronized.
pub open spec fn conflicts_ahead(topics: Seq<TopicEntry>, states: Seq<Reconciled>, i: int) -> nat
    decreases topics.len() - i,
{
    if i >= topics.len() || is_synced(topics, states, i) {
        0
    } else if is_conflict(topics, states, i) {
        1 + conflicts_ahead(topics, states, i + 1)
    } else {
        conflicts_ahead(topics, states, i + 1)
    }
}

impl Sync {
    /// What holds between the steps.
    pub open spec fn wf(&self) -> bool {
        &&& self.offline ==> self.remotes@.len() == 0
        &&& self.summary.wf()
        &&& self.states@.len() <= self.topics@.len()
        &&& match self.stage {
            SyncStage::ListingRemotes => self.summary.total == 0 && !self.offline
                && self.topics@.len() == 0,
            SyncStage::Fetching(i) => i < self.remotes@.len() && self.summary.total == 0
                && self.topics@.len() == 0,
            SyncStage::ReconcilingManifest => self.summary.total == 0 && self.topics@.len() == 0,
            SyncStage::LoadingManifest => self.summary.total == 0 && self.topics@.len() == 0
                && self.manifest_head is Some,
            SyncStage::ReconcilingTopic(i) => i < self.topics@.len() && self.states@.len() == i
                && self.summary.total == 0 && self.manifest_head is Some,
            SyncStage::UpdatingHeads => !self.dry_run && self.states@.len() == self.topics@.len()
                && self.summary.total == 0,
            SyncStage::GettingHostname => self.states@.len() == self.topics@.len()
                && self.summary.total == 0,
            SyncStage::SyncingTopic(i) => i < self.topics@.len() && self.states@.len()
                == self.topics@.len() && self.summary.total <= i && is_synced(
                self.topics@,
                self.states@,
                i as int,
            ),
            SyncStage::Summarizing => self.states@.len() == self.topics@.len(),
            SyncStage::Publishing(i) => i < self.remotes@.len() && !self.dry_run,
            SyncStage::Ended => true,
        }
    }

    /// Whether `event` can follow the action of this stage.
    pub open spec fn event_fits(&self, event: SyncEvent) -> bool {
        match self.stage {
            SyncStage::ListingRemotes => event is Remotes || event is Failed,
            SyncStage::Fetching(_) => event is Done || event is Failed,
            SyncStage::ReconcilingManifest => event is Reconciled || event is Failed,
            SyncStage::LoadingManifest => event is Topics || event is Invalid || event is Failed,
            SyncStage::ReconcilingTopic(_) => event is Reconciled || event is Failed,
            SyncStage::UpdatingHeads => event is Done || event is Failed,
            SyncStage::GettingHostname => event is Done || event is Failed,
            SyncStage::SyncingTopic(_) => event is Synced || event is Failed,
            SyncStage::Summarizing => event is Done,
            SyncStage::Publishing(_) => event is Done || event is Failed,
            SyncStage::Ended => false,
        }
    }
}

/// Whether `after` goes on with the remote at `i`, and with the manifest behind the last.
pub open spec fn goes_to_fetch(after: Sync, i: int, action: SyncAction) -> bool {
    if i < after.remotes@.len() {
        after.stage == SyncStage::Fetching(i as usize) && action == SyncAction::Fetch(i as usize)
    } else {
        after.stage is ReconcilingManifest && action is ReconcileManifest
    }
}

/// Whether `after` goes on with the topic at `i`, and behind the last with the updates of the
/// heads, which a dry run leaves out.
pub open spec fn goes_to_reconcile(after: Sync, i: int, action: SyncAction) -> bool {
    if i < after.topics@.len() {
        after.stage == SyncStage::ReconcilingTopic(i as usize) && action
            == SyncAction::ReconcileTopic(i as usize)
    } else if after.dry_run {
        after.stage is GettingHostname && action is GetHostname
    } else {
        &&& after.stage is UpdatingHeads
        &&& action matches SyncAction::UpdateHeads(updates) && are_updates(
            updates@,
            after.manifest_head->Some_0,
            after.topics@,
            after.states@,
        )
    }
}

/// Whether `after` goes on with the first topic from `i` on that is synchronized, and with the
/// summary behind the last. What is only a conflict on the way is counted.
pub open spec fn goes_to_topic(counted: SyncSummary, after: Sync, i: int, action: SyncAction) -> bool {
    let next = next_synced(after.topics@, after.states@, i);
    let passed = conflicts_ahead(after.topics@, after.states@, i);
    &&& after.summary.total == counted.total + passed
    &&& after.summary.conflicts == counted.conflicts + passed
    &&& after.summary.unchanged == counted.unchanged
    &&& after.summary.changed == counted.changed
    &&& if next < after.topics@.len() {
        after.stage == SyncStage::SyncingTopic(next as usize) && action
            == (SyncAction::SyncTopic {
            index: next as usize,
            state: state_named(
                after.topics@,
                after.states@,
                after.topics@[next].name@,
            )->Some_0,
        })
    } else {
        &&& after.stage is Summarizing
        &&& action matches SyncAction::ShowSummary(text) && text@ == summary_text(
            after.summary.total as nat,
            after.summary.unchanged as nat,
            after.summary.changed as nat,
            after.summary.conflicts as nat,
        )
    }
}

/// Whether `after` goes on with the push to the remote at `i`, and ends behind the last: with an
/// error where a push failed.
pub open spec fn goes_to_push(after: Sync, i: int, action: SyncAction) -> bool {
    if i < after.remotes@.len() {
        after.stage == SyncStage::Publishing(i as usize) && action == SyncAction::Push(i as usize)
    } else {
        after.stage is Ended && if after.failures@.len() == 0 {
            action is Finish
        } else {
            action matches SyncAction::Fail(error) && error matches SyncError::PublishFailed(list)
                && views(list@) == views(after.failures@)
        }
    }
}

/// Whether `after` has ended with an error.
pub open spec fn ends_with(after: Sync, action: SyncAction, error: SyncError) -> bool {
    after.stage is Ended && action == SyncAction::Fail(error)
}

/// Whether nothing but the stage of the two differs.
pub open spec fn same_data(a: Sync, b: Sync) -> bool {
    &&& a.dry_run == b.dry_run
    &&& a.offline == b.offline
    &&& a.remotes == b.remotes
    &&& a.manifest_head == b.manifest_head
    &&& a.topics == b.topics
    &&& a.states == b.states
    &&& a.summary == b.summary
    &&& a.failures == b.failures
}

/// Whether an event leads from `before` to `after` and `action`.
pub open spec fn sync_leads_to(
    before: Sync,
    event: SyncEvent,
    after: Sync,
    action: SyncAction,
) -> bool {
    match (before.stage, event) {
        (SyncStage::ListingRemotes, SyncEvent::Remotes(remotes)) => {
            &&& same_data(Sync { remotes, ..before }, after)
            &&& goes_to_fetch(after, 0, action)
        },
        (SyncStage::Fetching(i), SyncEvent::Done) => {
            &&& same_data(before, after)
            &&& goes_to_fetch(after, i + 1, action)
        },
        (SyncStage::Fetching(i), SyncEvent::Failed(_)) => {
            &&& same_data(before, after)
            &&& after.stage is Ended
            &&& action matches SyncAction::Fail(error) && error matches SyncError::FetchFailed(name)
                && name@ == before.remotes@[i as int]@
        },
        (SyncStage::ReconcilingManifest, SyncEvent::Reconciled(state)) => match state {
            Reconciled::Head(head) => {
                &&& same_data(Sync { manifest_head: Some(head), ..before }, after)
                &&& after.stage is LoadingManifest
                &&& action == SyncAction::LoadManifest(head)
            },
            Reconciled::NoHistory => same_data(before, after) && ends_with(
                after,
                action,
                SyncError::NoManifest,
            ),
            Reconciled::Conflict => same_data(before, after) && ends_with(
                after,
                action,
                SyncError::ManifestConflict,
            ),
        },
        (SyncStage::LoadingManifest, SyncEvent::Topics(topics)) => {
            &&& same_data(Sync { topics, states: after.states, ..before }, after)
            &&& after.states@.len() == 0
            &&& goes_to_reconcile(after, 0, action)
        },
        (SyncStage::LoadingManifest, SyncEvent::Invalid) => same_data(before, after) && ends_with(
            after,
            action,
            SyncError::InvalidManifest,
        ),
        (SyncStage::ReconcilingTopic(i), SyncEvent::Reconciled(state)) => {
            &&& same_data(Sync { states: after.states, ..before }, after)
            &&& after.states@ == before.states@.push(state)
            &&& goes_to_reconcile(after, i + 1, action)
        },
        (SyncStage::UpdatingHeads, SyncEvent::Done) => {
            &&& same_data(before, after)
            &&& after.stage is GettingHostname
            &&& action is GetHostname
        },
        (SyncStage::GettingHostname, SyncEvent::Done) => {
            &&& same_data(Sync { summary: after.summary, ..before }, after)
            &&& goes_to_topic(before.summary, after, 0, action)
        },
        (SyncStage::SyncingTopic(i), SyncEvent::Synced(status)) => {
            &&& same_data(Sync { summary: after.summary, ..before }, after)
            &&& exists|counted: SyncSummary| #[trigger]
                is_recorded(before.summary, status, counted) && goes_to_topic(
                    counted,
                    after,
                    i + 1,
                    action,
                )
        },
        (SyncStage::Summarizing, SyncEvent::Done) => {
            &&& same_data(before, after)
            &&& if before.dry_run {
                after.stage is Ended && action is Finish
            } else {
                goes_to_push(after, 0, action)
            }
        },
        (SyncStage::Publishing(i), SyncEvent::Done) => {
            &&& same_data(before, after)
            &&& goes_to_push(after, i + 1, action)
        },
        (SyncStage::Publishing(i), SyncEvent::Failed(reason)) => {
            &&& same_data(Sync { failures: after.failures, ..before }, after)
            &&& views(after.failures@) == views(before.failures@).push(
                before.remotes@[i as int]@ + ": "@ + reason@,
            )
            &&& goes_to_push(after, i + 1, action)
        },
        (_, SyncEvent::Failed(_)) => same_data(before, after) && ends_with(
            after,
            action,
            SyncError::Aborted,
        ),
        _ => false,
    }
}

/// Whether `after` is the summary `before` with one topic more.
pub open spec fn is_recorded(before: SyncSummary, status: SyncTopicStatus, after: SyncSummary) -> bool {
    &&& after.wf()
    &&& after.total == before.total + 1
    &&& after.unchanged == before.unchanged + if status is Unchanged {
        1int
    } else {
        0
    }
    &&& after.conflicts == before.conflicts + if status is Conflict {
        1int
    } else {
        0
    }
}

impl Sync {
    /// Starts a synchronization. An offline one leaves the remotes alone.
    pub fn start(dry_run: bool, offline: bool) -> (r: (Sync, SyncAction))
        ensures
            r.0.wf(),
            r.0.dry_run == dry_run,
            r.0.offline == offline,
            r.0.failures@.len() == 0,
            r.0.remotes@.len() == 0,
            if offline {
                r.0.stage is ReconcilingManifest && r.1 is ReconcileManifest
            } else {
                r.0.stage is ListingRemotes && r.1 is ListRemotes
            },
    {
        let sync = Sync {
            dry_run,
            offline,
            remotes: Vec::new(),
            manifest_head: None,
            topics: Vec::new(),
            states: Vec::new(),
            summary: SyncSummary::new(),
            failures: Vec::new(),
            stage: if offline {
                SyncStage::ReconcilingManifest
            } else {
                SyncStage::ListingRemotes
            },
        };
        if offline {
            (sync, SyncAction::ReconcileManifest)
        } else {
            (sync, SyncAction::ListRemotes)
        }
    }

    fn to_fetch(self, i: usize) -> (r: (Sync, SyncAction))
        requires
            i <= self.remotes@.len(),
        ensures
            same_data(self, r.0),
            goes_to_fetch(r.0, i as int, r.1),
    {
        let mut sync = self;
        if i < sync.remotes.len() {
            sync.stage = SyncStage::Fetching(i);
            (sync, SyncAction::Fetch(i))
        } else {
            sync.stage = SyncStage::ReconcilingManifest;
            (sync, SyncAction::ReconcileManifest)
        }
    }

    fn to_reconcile(self, i: usize) -> (r: (Sync, SyncAction))
        requires
            i <= self.topics@.len(),
            i == self.topics@.len() ==> self.states@.len() == self.topics@.len(),
            self.manifest_head is Some,
        ensures
            same_data(self, r.0),
            goes_to_reconcile(r.0, i as int, r.1),
    {
        let mut sync = self;
        if i < sync.topics.len() {
            sync.stage = SyncStage::ReconcilingTopic(i);
            return (sync, SyncAction::ReconcileTopic(i));
        }
        if sync.dry_run {
            sync.stage = SyncStage::GettingHostname;
            return (sync, SyncAction::GetHostname);
        }
        match sync.manifest_head {
            Some(head) => {
                let updates = collect_updates(head, &sync.topics, &sync.states);
                sync.stage = SyncStage::UpdatingHeads;
                (sync, SyncAction::UpdateHeads(updates))
            },
            None => (sync, SyncAction::Finish),
        }
    }

    fn to_topic(self, from: usize) -> (r: (Sync, SyncAction))
        requires
            from <= self.topics@.len(),
            self.states@.len() == self.topics@.len(),
            self.summary.wf(),
            self.summary.total <= from,
        ensures
            same_data(Sync { summary: r.0.summary, ..self }, r.0),
            r.0.summary.wf(),
            goes_to_topic(self.summary, r.0, from as int, r.1),
            r.0.stage matches SyncStage::SyncingTopic(i) ==> i < self.topics@.len()
                && r.0.summary.total <= i && is_synced(self.topics@, self.states@, i as int),
    {
        let mut sync = self;
        let mut i: usize = from;
        while i < sync.topics.len()
            invariant
                from <= i <= sync.topics@.len(),
                same_data(Sync { summary: sync.summary, ..self }, sync),
                sync.states@.len() == sync.topics@.len(),
                sync.summary.wf(),
                sync.summary.total <= i,
                sync.summary.unchanged == self.summary.unchanged,
                sync.summary.changed == self.summary.changed,
                sync.summary.total + conflicts_ahead(sync.topics@, sync.states@, i as int)
                    == self.summary.total + conflicts_ahead(
                    sync.topics@,
                    sync.states@,
                    from as int,
                ),
                sync.summary.conflicts + conflicts_ahead(sync.topics@, sync.states@, i as int)
                    == self.summary.conflicts + conflicts_ahead(
                    sync.topics@,
                    sync.states@,
                    from as int,
                ),
                next_synced(sync.topics@, sync.states@, i as int) == next_synced(
                    sync.topics@,
                    sync.states@,
                    from as int,
                ),
            decreases sync.topics.len() - i,
        {
            if sync.topics[i].enabled {
                proof {
                    lemma_last_named(
                        sync.topics@,
                        sync.topics@.len() as int,
                        sync.topics@[i as int].name@,
                        i as int,
                    );
                }
                match find_state(&sync.topics, &sync.states, sync.topics[i].name.as_str()) {
                    Some(Reconciled::Conflict) => {
                        sync.summary.record(SyncTopicStatus::Conflict);
                    },
                    Some(state) => {
                        sync.stage = SyncStage::SyncingTopic(i);
                        return (sync, SyncAction::SyncTopic { index: i, state });
                    },
                    None => {},
                }
            }
            i = i + 1;
        }
        let text = sync.summary.text();
        sync.stage = SyncStage::Summarizing;
        (sync, SyncAction::ShowSummary(text))
    }

    fn to_push(self, i: usize) -> (r: (Sync, SyncAction))
        requires
            i <= self.remotes@.len(),
        ensures
            same_data(self, r.0),
            goes_to_push(r.0, i as int, r.1),
    {
        let mut sync = self;
        if i < sync.remotes.len() {
            sync.stage = SyncStage::Publishing(i);
            return (sync, SyncAction::Push(i));
        }
        sync.stage = SyncStage::Ended;
        if sync.failures.len() == 0 {
            (sync, SyncAction::Finish)
        } else {
            let list = crate::text::copied(&sync.failures);
            (sync, SyncAction::Fail(SyncError::PublishFailed(list)))
        }
    }

    fn to_end(self, error: SyncError) -> (r: (Sync, SyncAction))
        ensures
            same_data(self, r.0),
            ends_with(r.0, r.1, error),
    {
        let mut sync = self;
        sync.stage = SyncStage::Ended;
        (sync, SyncAction::Fail(error))
    }

    /// Goes on after what came of the last action.
    pub fn step(self, event: SyncEvent) -> (r: (Sync, SyncAction))
        requires
            self.wf(),
            self.event_fits(event),
        ensures
            r.0.wf(),
            sync_leads_to(self, event, r.0, r.1),
    {
        let remotes: usize = self.remotes.len();
        let topics: usize = self.topics.len();
        assert(self.remotes@.len() == remotes && self.topics@.len() == topics);
        let mut sync = self;
        match (sync.stage, event) {
            (SyncStage::ListingRemotes, SyncEvent::Remotes(remotes)) => {
                sync.remotes = remotes;
                sync.to_fetch(0)
            },
            (SyncStage::Fetching(i), SyncEvent::Done) => sync.to_fetch(i + 1),
            (SyncStage::Fetching(i), SyncEvent::Failed(_)) => {
                let name = sync.remotes[i].clone();
                sync.to_end(SyncError::FetchFailed(name))
            },
            (SyncStage::ReconcilingManifest, SyncEvent::Reconciled(state)) => match state {
                Reconciled::Head(head) => {
                    sync.manifest_head = Some(head);
                    sync.stage = SyncStage::LoadingManifest;
                    (sync, SyncAction::LoadManifest(head))
                },
                Reconciled::NoHistory => sync.to_end(SyncError::NoManifest),
                Reconciled::Conflict => sync.to_end(SyncError::ManifestConflict),
            },
            (SyncStage::LoadingManifest, SyncEvent::Topics(topics)) => {
                sync.topics = topics;
                sync.states = Vec::new();
                sync.to_reconcile(0)
            },
            (SyncStage::LoadingManifest, SyncEvent::Invalid) => sync.to_end(
                SyncError::InvalidManifest,
            ),
            (SyncStage::ReconcilingTopic(i), SyncEvent::Reconciled(state)) => {
                sync.states.push(state);
                sync.to_reconcile(i + 1)
            },
            (SyncStage::UpdatingHeads, SyncEvent::Done) => {
                sync.stage = SyncStage::GettingHostname;
                (sync, SyncAction::GetHostname)
            },
            (SyncStage::GettingHostname, SyncEvent::Done) => sync.to_topic(0),
            (SyncStage::SyncingTopic(i), SyncEvent::Synced(status)) => {
                sync.summary.record(status);
                assert(is_recorded(self.summary, status, sync.summary));
                sync.to_topic(i + 1)
            },
            (SyncStage::Summarizing, SyncEvent::Done) => {
                if sync.dry_run {
                    sync.stage = SyncStage::Ended;
                    (sync, SyncAction::Finish)
                } else {
                    sync.to_push(0)
                }
            },
            (SyncStage::Publishing(i), SyncEvent::Done) => sync.to_push(i + 1),
            (SyncStage::Publishing(i), SyncEvent::Failed(reason)) => {
                let failure = sync.remotes[i].clone().concat(": ").concat(reason.as_str());
                let ghost before = sync.failures@;
                sync.failures.push(failure);
                assert(views(sync.failures@) =~= views(before).push(failure@));
                sync.to_push(i + 1)
            },
            _ => sync.to_end(SyncError::Aborted),
        }
    }
}

// ----------------------------------------------------------------------------
// Laws
// ----------------------------------------------------------------------------

/// A dry run moves no head and publishes nothing, and stays a dry run.
pub proof fn law_dry_run_changes_nothing(
    before: Sync,
    event: SyncEvent,
    after: Sync,
    action: SyncAction,
)
    requires
        before.wf(),
        before.dry_run,
        sync_leads_to(before, event, after, action),
    ensures
        after.dry_run,
        !(action is UpdateHeads),
        !(action is Push),
{
}

/// An offline synchronization leaves the remotes alone, and stays offline.
pub proof fn law_offline_leaves_remotes_alone(
    before: Sync,
    event: SyncEvent,
    after: Sync,
    action: SyncAction,
)
    requires
        before.wf(),
        before.offline,
        sync_leads_to(before, event, after, action),
    ensures
        after.offline,
        !(action is ListRemotes),
        !(action is Fetch),
        !(action is Push),
{
}

/// No head is moved before the manifest is valid and every topic, enabled or not, is
/// reconciled.
pub proof fn law_heads_move_together(
    before: Sync,
    event: SyncEvent,
    after: Sync,
    action: SyncAction,
)
    requires
        before.wf(),
        sync_leads_to(before, event, after, action),
        action is UpdateHeads,
    ensures
        after.states@.len() == after.topics@.len(),
        before.stage is LoadingManifest || before.stage is ReconcilingTopic,
        event is Topics || event is Reconciled,
{
}

/// A topic that is disabled, or whose branch is in conflict, is not synchronized with the file
/// system.
pub proof fn law_only_enabled_topics_are_synced(
    before: Sync,
    event: SyncEvent,
    after: Sync,
    action: SyncAction,
    index: usize,
    state: Reconciled,
)
    requires
        before.wf(),
        after.wf(),
        sync_leads_to(before, event, after, action),
        action == (SyncAction::SyncTopic { index, state }),
    ensures
        index < after.topics@.len(),
        after.topics@[index as int].enabled,
        !(state is Conflict),
{
    let name = after.topics@[index as int].name@;
    assert(after.topics.len() == after.topics@.len());
    match before.stage {
        SyncStage::SyncingTopic(i) => lemma_next_synced(after.topics@, after.states@, i + 1),
        _ => lemma_next_synced(after.topics@, after.states@, 0),
    }
    lemma_last_named(after.topics@, after.topics@.len() as int, name, index as int);
}

/// A failure before the publication ends the synchronization at once.
pub proof fn law_failure_ends_the_sync(
    before: Sync,
    event: SyncEvent,
    after: Sync,
    action: SyncAction,
)
    requires
        before.wf(),
        before.event_fits(event),
        sync_leads_to(before, event, after, action),
        event is Failed,
        !(before.stage is Publishing),
    ensures
        after.stage is Ended,
        action is Fail,
{
}

/// A push that fails does not keep the others from being made, and is reported at the end.
pub proof fn law_failed_push_is_reported(
    before: Sync,
    event: SyncEvent,
    after: Sync,
    action: SyncAction,
    i: usize,
)
    requires
        before.wf(),
        before.event_fits(event),
        sync_leads_to(before, event, after, action),
        before.stage == SyncStage::Publishing(i),
    ensures
        i + 1 < before.remotes@.len() ==> action == SyncAction::Push((i + 1) as usize),
        event is Failed && i + 1 == before.remotes@.len() ==> action is Fail,
        before.failures@.len() > 0 && i + 1 == before.remotes@.len() ==> action is Fail,
        before.failures@.len() == 0 && event is Done && i + 1 == before.remotes@.len()
            ==> action is Finish,
{
    if event is Failed {
        assert(views(after.failures@).len() == views(before.failures@).len() + 1);
    }
}

/// How far a synchronization has come: its stage, and the position in it.
pub open spec fn sync_progress(sync: Sync) -> (nat, nat) {
    match sync.stage {
        SyncStage::ListingRemotes => (0, 0),
        SyncStage::Fetching(i) => (1, i as nat),
        SyncStage::ReconcilingManifest => (2, 0),
        SyncStage::LoadingManifest => (3, 0),
        SyncStage::ReconcilingTopic(i) => (4, i as nat),
        SyncStage::UpdatingHeads => (5, 0),
        SyncStage::GettingHostname => (6, 0),
        SyncStage::SyncingTopic(i) => (7, i as nat),
        SyncStage::Summarizing => (8, 0),
        SyncStage::Publishing(i) => (9, i as nat),
        SyncStage::Ended => (10, 0),
    }
}

proof fn lemma_next_synced(topics: Seq<TopicEntry>, states: Seq<Reconciled>, i: int)
    requires
        0 <= i <= topics.len(),
    ensures
        i <= next_synced(topics, states, i) <= topics.len(),
    decreases topics.len() - i,
{
    if i < topics.len() && !is_synced(topics, states, i) {
        lemma_next_synced(topics, states, i + 1);
    }
}

/// Every step brings a synchronization nearer to its end.
pub proof fn law_sync_comes_to_an_end(
    before: Sync,
    event: SyncEvent,
    after: Sync,
    action: SyncAction,
)
    requires
        before.wf(),
        after.wf(),
        before.event_fits(event),
        sync_leads_to(before, event, after, action),
    ensures
        sync_progress(before).0 < sync_progress(after).0 || (sync_progress(before).0
            == sync_progress(after).0 && sync_progress(before).1 < sync_progress(after).1),
{
    assert(after.topics.len() == after.topics@.len());
    assert(after.remotes.len() == after.remotes@.len());
    if before.stage is SyncingTopic && event is Synced {
        let i = before.stage->SyncingTopic_0;
        lemma_next_synced(after.topics@, after.states@, i + 1);
    }
}

/// Every synchronization that is no dry run publishes, whatever changed: behind the summary comes
/// the push to the first remote, behind each push the next, and it ends behind the last alone.
pub proof fn law_every_sync_publishes(
    before: Sync,
    event: SyncEvent,
    after: Sync,
    action: SyncAction,
)
    requires
        before.wf(),
        before.event_fits(event),
        sync_leads_to(before, event, after, action),
    ensures
        before.stage is Summarizing && !before.dry_run && before.remotes@.len() > 0 ==> action
            == SyncAction::Push(0) && after.remotes == before.remotes,
        before.stage matches SyncStage::Publishing(i) ==> after.remotes == before.remotes && (i + 1
            < before.remotes@.len() ==> action == SyncAction::Push((i + 1) as usize)),
        action is Finish ==> before.dry_run && before.stage is Summarizing
            || before.remotes@.len() == 0 && before.stage is Summarizing || before.stage
            == SyncStage::Publishing((before.remotes@.len() - 1) as usize),
{
    assert(before.remotes.len() == before.remotes@.len());
}

/// How many of the first `n` topics are enabled.
pub open spec fn enabled_below(topics: Seq<TopicEntry>, n: int) -> nat
    decreases n,
{
    if n <= 0 {
        0
    } else if topics[n - 1].enabled {
        enabled_below(topics, n - 1) + 1
    } else {
        enabled_below(topics, n - 1)
    }
}

/// Whether the summary counts each enabled topic once, as far as they were come to.
pub open spec fn counts_enabled(sync: Sync) -> bool {
    match sync.stage {
        SyncStage::SyncingTopic(i) => sync.summary.total == enabled_below(sync.topics@, i as int),
        SyncStage::Summarizing => sync.summary.total == enabled_below(
            sync.topics@,
            sync.topics@.len() as int,
        ),
        SyncStage::Publishing(_) => sync.summary.total == enabled_below(
            sync.topics@,
            sync.topics@.len() as int,
        ),
        _ => true,
    }
}

proof fn lemma_enabled_ahead(topics: Seq<TopicEntry>, states: Seq<Reconciled>, i: int)
    requires
        0 <= i <= topics.len(),
    ensures
        i <= next_synced(topics, states, i) <= topics.len(),
        enabled_below(topics, next_synced(topics, states, i)) == enabled_below(topics, i)
            + conflicts_ahead(topics, states, i),
        forall|k: int|
            i <= k < next_synced(topics, states, i) ==> !(#[trigger] topics[k]).enabled
                || state_named(topics, states, topics[k].name@) == Some(Reconciled::Conflict),
    decreases topics.len() - i,
{
    if i < topics.len() && !is_synced(topics, states, i) {
        lemma_enabled_ahead(topics, states, i + 1);
    }
}

/// The summary counts every enabled topic, each once: as unchanged where its status says so, as a
/// conflict where it is one, and else as changed.
pub proof fn law_summary_counts_every_topic(
    before: Sync,
    event: SyncEvent,
    after: Sync,
    action: SyncAction,
)
    requires
        before.wf(),
        before.event_fits(event),
        sync_leads_to(before, event, after, action),
        counts_enabled(before),
    ensures
        counts_enabled(after),
        event matches SyncEvent::Synced(status) ==> {
            &&& after.summary.unchanged == before.summary.unchanged + if status is Unchanged {
                1int
            } else {
                0
            }
            &&& after.summary.changed == before.summary.changed + if status is Unchanged
                || status is Conflict {
                0int
            } else {
                1
            }
        },
        action matches SyncAction::ShowSummary(text) ==> text@ == summary_text(
            enabled_below(after.topics@, after.topics@.len() as int),
            after.summary.unchanged as nat,
            after.summary.changed as nat,
            after.summary.conflicts as nat,
        ),
{
    assert(after.topics.len() == after.topics@.len());
    match before.stage {
        SyncStage::SyncingTopic(i) => lemma_enabled_ahead(after.topics@, after.states@, i + 1),
        SyncStage::GettingHostname => lemma_enabled_ahead(after.topics@, after.states@, 0),
        _ => {},
    }
}

/// No topic that is enabled and could be reconciled is passed over: between a topic that is
/// synchronized and the next, and behind the last, there are only others. Each is synchronized
/// with what the branch of its name was reconciled to.
pub proof fn law_no_topic_is_passed_over(
    before: Sync,
    event: SyncEvent,
    after: Sync,
    action: SyncAction,
    k: int,
)
    requires
        before.wf(),
        before.event_fits(event),
        sync_leads_to(before, event, after, action),
        before.stage is GettingHostname || before.stage is SyncingTopic,
        !(event is Failed),
        0 <= k < after.topics@.len(),
        before.stage is SyncingTopic ==> before.stage->SyncingTopic_0 < k,
        action matches SyncAction::SyncTopic { index, state } ==> k < index,
    ensures
        action is SyncTopic || action is ShowSummary,
        !after.topics@[k].enabled || state_named(after.topics@, after.states@, after.topics@[k].name@)
            == Some(Reconciled::Conflict),
{
    assert(after.topics.len() == after.topics@.len());
    match before.stage {
        SyncStage::SyncingTopic(i) => lemma_enabled_ahead(after.topics@, after.states@, i + 1),
        _ => lemma_enabled_ahead(after.topics@, after.states@, 0),
    }
}

/// Whether no two topics have the same name.
pub open spec fn have_own_names(topics: Seq<TopicEntry>) -> bool {
    forall|i: int, j: int|
        #![trigger topics[i], topics[j]]
        0 <= i < j < topics.len() ==> topics[i].name@ != topics[j].name@
}

proof fn lemma_own_state(topics: Seq<TopicEntry>, states: Seq<Reconciled>, i: int)
    requires
        have_own_names(topics),
        0 <= i < topics.len(),
        states.len() == topics.len(),
    ensures
        state_named(topics, states, topics[i].name@) == Some(states[i]),
{
    lemma_last_named(topics, topics.len() as int, topics[i].name@, i);
    let k = last_named(topics, topics.len() as int, topics[i].name@);
    if i < k {
        assert(topics[i].name@ != topics[k].name@);
    }
}

/// Each topic is synchronized with the state that its own branch was reconciled to.
pub proof fn law_topics_get_their_own_state(
    before: Sync,
    event: SyncEvent,
    after: Sync,
    action: SyncAction,
    index: usize,
    state: Reconciled,
)
    requires
        before.wf(),
        after.wf(),
        sync_leads_to(before, event, after, action),
        have_own_names(after.topics@),
        action == (SyncAction::SyncTopic { index, state }),
    ensures
        index < after.topics@.len(),
        index < after.states@.len(),
        state == after.states@[index as int],
        after.topics@[index as int].enabled,
{
    law_only_enabled_topics_are_synced(before, event, after, action, index, state);
    assert(after.topics.len() == after.topics@.len());
    match before.stage {
        SyncStage::SyncingTopic(i) => lemma_next_synced(after.topics@, after.states@, i + 1),
        _ => lemma_next_synced(after.topics@, after.states@, 0),
    }
    lemma_own_state(after.topics@, after.states@, index as int);
}

/// The heads that are moved are the reconciled ones: that of the manifest first, then that of each
/// topic that has one, and no others.
pub proof fn law_heads_become_the_reconciled_ones(
    before: Sync,
    event: SyncEvent,
    after: Sync,
    action: SyncAction,
    updates: Vec<HeadUpdate>,
)
    requires
        before.wf(),
        after.wf(),
        sync_leads_to(before, event, after, action),
        have_own_names(after.topics@),
        action == SyncAction::UpdateHeads(updates),
    ensures
        updates@.len() > 0,
        updates@[0].branch@ is Manifest,
        Some(updates@[0].head) == after.manifest_head,
        forall|u: int| 1 <= u < updates@.len() ==> #[trigger] is_reconciled_head(after, updates@[u]),
        forall|i: int|
            0 <= i < after.topics@.len() && after.states@[i] is Head ==> #[trigger] moves_to(
                updates@,
                after.topics@[i].name@,
                after.states@[i]->Head_0,
            ),
{
    let topics = after.topics@;
    let states = after.states@;
    assert(updates@.len() > 0 && are_updates(updates@, after.manifest_head->0, topics, states));
    assert forall|u: int| 1 <= u < updates@.len() implies #[trigger] is_reconciled_head(
        after,
        updates@[u],
    ) by {
        let name = updates@[u].branch@->Topic_0;
        lemma_last_named_holds(topics, topics.len() as int, name);
        let k = last_named(topics, topics.len() as int, name);
        assert(topics[k].name@ == name && states[k] == Reconciled::Head(updates@[u].head));
    }
    assert forall|i: int| 0 <= i < topics.len() && states[i] is Head implies #[trigger] moves_to(
        updates@,
        topics[i].name@,
        states[i]->Head_0,
    ) by {
        lemma_own_state(topics, states, i);
        let name = topics[i].name@;
        assert(state_named(topics, states, name) is Some);
        let u = choose|u: int|
            1 <= u < updates@.len() && (#[trigger] updates@[u]).branch@ == BranchView::Topic(name);
        assert(updates@[u].branch@->Topic_0 == name);
    }
}

/// Whether an update moves a topic to the head that it was reconciled to.
pub open spec fn is_reconciled_head(sync: Sync, update: HeadUpdate) -> bool {
    exists|i: int|
        0 <= i < sync.topics@.len() && update.branch@ == BranchView::Topic(
            (#[trigger] sync.topics@[i]).name@,
        ) && sync.states@[i] == Reconciled::Head(update.head)
}

/// Whether one of the updates moves the topic of this name to this head.
pub open spec fn moves_to(updates: Seq<HeadUpdate>, name: Seq<char>, head: ObjectId) -> bool {
    exists|u: int|
        0 <= u < updates.len() && (#[trigger] updates[u]).branch@ == BranchView::Topic(name)
            && updates[u].head == head
}

/// What is reconciled is remembered as it is told: the head of the manifest, and the state of each
/// topic in its place. The manifest that is loaded is that of the reconciled head, and without one
/// nothing goes on.
pub proof fn law_reconciled_states_are_remembered(
    before: Sync,
    event: SyncEvent,
    after: Sync,
    action: SyncAction,
    state: Reconciled,
)
    requires
        before.wf(),
        sync_leads_to(before, event, after, action),
        event == SyncEvent::Reconciled(state),
    ensures
        before.stage is ReconcilingManifest ==> match state {
            Reconciled::Head(head) => after.manifest_head == Some(head) && action
                == SyncAction::LoadManifest(head),
            Reconciled::NoHistory => action == SyncAction::Fail(SyncError::NoManifest),
            Reconciled::Conflict => action == SyncAction::Fail(SyncError::ManifestConflict),
        },
        before.stage matches SyncStage::ReconcilingTopic(i) ==> {
            &&& after.states@.len() == before.states@.len() + 1
            &&& after.states@[i as int] == state
            &&& forall|k: int| 0 <= k < i ==> after.states@[k] == before.states@[k]
            &&& after.topics == before.topics
            &&& after.manifest_head == before.manifest_head
        },
{
}

/// A dry run goes the same way as a run: it does the same after each event, but shows the topics
/// where the run first moves the heads, and ends where the run pushes.
pub proof fn law_dry_run_goes_the_same_way(
    dry: Sync,
    wet: Sync,
    event: SyncEvent,
    after_dry: Sync,
    action_dry: SyncAction,
    after_wet: Sync,
    action_wet: SyncAction,
)
    requires
        dry.wf(),
        wet.wf(),
        dry.dry_run,
        !wet.dry_run,
        same_data(Sync { dry_run: true, ..wet }, dry),
        dry.stage == wet.stage,
        dry.event_fits(event),
        sync_leads_to(dry, event, after_dry, action_dry),
        sync_leads_to(wet, event, after_wet, action_wet),
    ensures
        action_wet is UpdateHeads ==> action_dry is GetHostname,
        action_wet is Push ==> action_dry is Finish,
        action_wet is Fetch ==> action_dry == action_wet,
        action_wet is LoadManifest ==> action_dry == action_wet,
        action_wet is ReconcileTopic ==> action_dry == action_wet,
        action_wet is SyncTopic ==> action_dry == action_wet,
        action_wet is ReconcileManifest ==> action_dry is ReconcileManifest,
        action_wet is ShowSummary ==> action_dry is ShowSummary,
{
    assert(wet.topics.len() == wet.topics@.len());
    assert(wet.remotes.len() == wet.remotes@.len());
}

// ----------------------------------------------------------------------------
// Whole synchronizations
// ----------------------------------------------------------------------------

/// A synchronization from its start: its states and actions, and what came of the actions.
pub struct Course {
    pub states: Seq<Sync>,
    pub actions: Seq<SyncAction>,
    pub events: Seq<SyncEvent>,
}

/// Whether a synchronization goes this way.
pub open spec fn is_course(course: Course) -> bool {
    let n = course.events.len();
    &&& course.states.len() == n + 1
    &&& course.actions.len() == n + 1
    &&& course.states[0].remotes@.len() == 0
    &&& course.states[0].failures@.len() == 0
    &&& if course.states[0].offline {
        course.states[0].stage is ReconcilingManifest && course.actions[0] is ReconcileManifest
    } else {
        course.states[0].stage is ListingRemotes && course.actions[0] is ListRemotes
    }
    &&& forall|i: int| 0 <= i <= n ==> (#[trigger] course.states[i]).wf()
    &&& forall|i: int|
        0 <= i < n ==> course.states[i].event_fits(#[trigger] course.events[i]) && sync_leads_to(
            course.states[i],
            course.events[i],
            course.states[i + 1],
            course.actions[i + 1],
        )
}

/// Whether a synchronization ends here after all was done, if only for pushes that failed.
pub open spec fn is_last(action: SyncAction) -> bool {
    match action {
        SyncAction::Finish => true,
        SyncAction::Fail(error) => error is PublishFailed,
        _ => false,
    }
}

/// Whether this was done up to the step `n`.
pub open spec fn was_done(course: Course, n: int, action: SyncAction) -> bool {
    exists|k: int| 0 <= k <= n && #[trigger] course.actions[k] == action
}

/// Whether heads were moved up to the step `n`.
pub open spec fn heads_were_moved(course: Course, n: int) -> bool {
    exists|k: int| 0 <= k <= n && #[trigger] course.actions[k] is UpdateHeads
}

/// Whether the first `count` remotes were fetched from up to the step `n`.
pub open spec fn were_fetched(course: Course, n: int, count: int) -> bool {
    forall|r: usize| r < count ==> #[trigger] was_done(course, n, SyncAction::Fetch(r))
}

/// Whether the first `count` topics were reconciled up to the step `n`.
pub open spec fn were_reconciled(course: Course, n: int, count: int) -> bool {
    forall|t: usize| t < count ==> #[trigger] was_done(course, n, SyncAction::ReconcileTopic(t))
}

/// Whether the first `count` topics were synchronized up to the step `n`, where they are enabled
/// and could be reconciled.
pub open spec fn were_synced(course: Course, n: int, count: int) -> bool {
    let sync = course.states[n];
    forall|t: usize|
        t < count && t < sync.topics@.len() && (#[trigger] sync.topics@[t as int]).enabled
            && state_named(sync.topics@, sync.states@, sync.topics@[t as int].name@) != Some(
            Reconciled::Conflict,
        ) ==> was_done(
            course,
            n,
            SyncAction::SyncTopic {
                index: t,
                state: state_named(
                    sync.topics@,
                    sync.states@,
                    sync.topics@[t as int].name@,
                )->Some_0,
            },
        )
}

/// Whether the first `count` remotes were pushed to up to the step `n`.
pub open spec fn were_pushed(course: Course, n: int, count: int) -> bool {
    forall|r: usize| r < count ==> #[trigger] was_done(course, n, SyncAction::Push(r))
}

/// Whether all was done by the step `n` that comes before its stage.
spec fn is_in_course(course: Course, n: int) -> bool {
    let sync = course.states[n];
    let action = course.actions[n];
    let remotes = sync.remotes@.len() as int;
    let topics = sync.topics@.len() as int;
    let wet = !sync.dry_run;
    match sync.stage {
        SyncStage::ListingRemotes => true,
        SyncStage::Fetching(i) => action == SyncAction::Fetch(i) && were_fetched(
            course,
            n,
            i as int,
        ),
        SyncStage::ReconcilingManifest => were_fetched(course, n, remotes),
        SyncStage::LoadingManifest => were_fetched(course, n, remotes),
        SyncStage::ReconcilingTopic(i) => were_fetched(course, n, remotes) && action
            == SyncAction::ReconcileTopic(i) && were_reconciled(course, n, i as int),
        SyncStage::UpdatingHeads => were_fetched(course, n, remotes) && were_reconciled(
            course,
            n,
            topics,
        ) && action is UpdateHeads,
        SyncStage::GettingHostname => were_fetched(course, n, remotes) && were_reconciled(
            course,
            n,
            topics,
        ) && (wet ==> heads_were_moved(course, n)),
        SyncStage::SyncingTopic(i) => were_fetched(course, n, remotes) && were_reconciled(
            course,
            n,
            topics,
        ) && (wet ==> heads_were_moved(course, n)) && were_synced(course, n, i as int) && action
            == (SyncAction::SyncTopic {
            index: i,
            state: state_named(
                sync.topics@,
                sync.states@,
                sync.topics@[i as int].name@,
            )->Some_0,
        }),
        SyncStage::Summarizing => is_all_but_published(course, n),
        SyncStage::Publishing(i) => is_all_but_published(course, n) && action == SyncAction::Push(i)
            && were_pushed(course, n, i as int),
        SyncStage::Ended => is_last(action) ==> is_all_but_published(course, n) && (wet ==> were_pushed(
            course,
            n,
            remotes,
        )),
    }
}

/// Whether by the step `n` every remote was fetched from, every topic reconciled, the heads moved
/// where it is no dry run, and every topic synchronized that is enabled and could be reconciled.
pub open spec fn is_all_but_published(course: Course, n: int) -> bool {
    let sync = course.states[n];
    &&& were_fetched(course, n, sync.remotes@.len() as int)
    &&& were_reconciled(course, n, sync.topics@.len() as int)
    &&& !sync.dry_run ==> heads_were_moved(course, n)
    &&& were_synced(course, n, sync.topics@.len() as int)
}

proof fn lemma_done_stays(course: Course, n: int, m: int)
    requires
        n <= m,
    ensures
        forall|action: SyncAction|
            was_done(course, n, action) ==> #[trigger] was_done(course, m, action),
        heads_were_moved(course, n) ==> heads_were_moved(course, m),
{
    assert forall|action: SyncAction| was_done(course, n, action) implies #[trigger] was_done(
        course,
        m,
        action,
    ) by {
        let k = choose|k: int| 0 <= k <= n && #[trigger] course.actions[k] == action;
        assert(course.actions[k] == action);
    }
    if heads_were_moved(course, n) {
        let k = choose|k: int| 0 <= k <= n && #[trigger] course.actions[k] is UpdateHeads;
        assert(course.actions[k] is UpdateHeads);
    }
}

proof fn lemma_in_course(course: Course, n: int)
    requires
        is_course(course),
        0 <= n <= course.events.len(),
    ensures
        is_in_course(course, n),
    decreases n,
{
    let after = course.states[n];
    if n == 0 {
        assert(after.wf());
    } else {
        lemma_in_course(course, n - 1);
        lemma_done_stays(course, n - 1, n);
        let before = course.states[n - 1];
        let event = course.events[n - 1];
        let last = course.actions[n - 1];
        assert(before.wf() && after.wf());
        assert(before.event_fits(event));
        assert(sync_leads_to(before, event, after, course.actions[n - 1 + 1]));
        assert(after.topics.len() == after.topics@.len());
        assert(after.remotes.len() == after.remotes@.len());
        assert(was_done(course, n - 1, last)) by {
            assert(course.actions[n - 1] == last);
        }
        assert(was_done(course, n, last));
        match before.stage {
            SyncStage::UpdatingHeads => {
                assert(course.actions[n - 1] is UpdateHeads);
                assert(heads_were_moved(course, n - 1));
            },
            SyncStage::GettingHostname => {
                lemma_enabled_ahead(after.topics@, after.states@, 0);
            },
            SyncStage::SyncingTopic(i) => {
                lemma_enabled_ahead(after.topics@, after.states@, i + 1);
                if event is Synced {
                    let next = next_synced(after.topics@, after.states@, i + 1);
                    assert(after.topics == before.topics && after.states == before.states);
                    assert forall|t: usize|
                        t < next && t < after.topics@.len() && (
                        #[trigger] after.topics@[t as int]).enabled && state_named(
                            after.topics@,
                            after.states@,
                            after.topics@[t as int].name@,
                        ) != Some(Reconciled::Conflict) implies was_done(
                        course,
                        n,
                        SyncAction::SyncTopic {
                            index: t,
                            state: state_named(
                                after.topics@,
                                after.states@,
                                after.topics@[t as int].name@,
                            )->Some_0,
                        },
                    ) by {
                        assert(before.topics@[t as int].enabled);
                        assert(t <= i);
                    }
                }
            },
            _ => {},
        }
    }
}

/// A synchronization that ends well has done all of it: it fetched from every remote, reconciled
/// every topic, moved the heads, synchronized every topic that is enabled and could be
/// reconciled, and pushed to every remote. A dry run leaves out the heads and the pushes alone, and
/// one that ends with a push that failed has made all of them too.
pub proof fn law_finished_sync_did_all(course: Course)
    requires
        is_course(course),
        is_last(course.actions.last()),
    ensures
        is_all_but_published(course, course.events.len() as int),
        !course.states.last().dry_run ==> were_pushed(
            course,
            course.events.len() as int,
            course.states.last().remotes@.len() as int,
        ),
{
    let n = course.events.len() as int;
    lemma_in_course(course, n);
    if n > 0 {
        let before = course.states[n - 1];
        assert(before.wf());
        assert(sync_leads_to(
            before,
            course.events[n - 1],
            course.states[n - 1 + 1],
            course.actions[n - 1 + 1],
        ));
    }
    assert(course.states[n].stage is Ended);
}

/// A synchronization that ends with an error says what went wrong, and nothing else ends it so: a
/// remote that could not be fetched from, by its name, a manifest that is not there, in conflict or
/// not valid, pushes that failed, or whatever else failed.
pub proof fn law_sync_errors_say_what_went_wrong(
    before: Sync,
    event: SyncEvent,
    after: Sync,
    action: SyncAction,
)
    requires
        before.wf(),
        before.event_fits(event),
        sync_leads_to(before, event, after, action),
    ensures
        action matches SyncAction::Fail(error) ==> match error {
            SyncError::FetchFailed(name) => before.stage is Fetching && event is Failed && name@
                == before.remotes@[before.stage->Fetching_0 as int]@,
            SyncError::NoManifest => before.stage is ReconcilingManifest && event
                == SyncEvent::Reconciled(Reconciled::NoHistory),
            SyncError::ManifestConflict => before.stage is ReconcilingManifest && event
                == SyncEvent::Reconciled(Reconciled::Conflict),
            SyncError::InvalidManifest => before.stage is LoadingManifest && event is Invalid,
            SyncError::PublishFailed(list) => list@.len() > 0 && views(list@) == views(
                after.failures@,
            ),
            SyncError::Aborted => event is Failed && !(before.stage is Fetching) && !(
            before.stage is Publishing),
        },
        before.stage is ReconcilingManifest && !(event is Reconciled
            && event->Reconciled_0 is Head) ==> action is Fail,
        event is Invalid ==> action is Fail,
        action is Fail ==> after.stage is Ended,
        action is Finish <==> after.stage is Ended && !(action is Fail),
{
    if let SyncAction::Fail(SyncError::PublishFailed(list)) = action {
        assert(views(list@).len() == list@.len());
        assert(views(after.failures@).len() == after.failures@.len());
    }
}

/// A push that fails is remembered with the name of the remote and the reason, and those before it
/// are not forgotten. One that succeeds is not taken for a failure.
pub proof fn law_failed_push_is_remembered(
    before: Sync,
    event: SyncEvent,
    after: Sync,
    action: SyncAction,
    i: usize,
    k: int,
)
    requires
        before.wf(),
        before.event_fits(event),
        sync_leads_to(before, event, after, action),
        before.stage == SyncStage::Publishing(i),
    ensures
        event is Done ==> after.failures == before.failures,
        event matches SyncEvent::Failed(reason) ==> after.failures@.len()
            == before.failures@.len() + 1 && after.failures@.last()@ == before.remotes@[i as int]@
            + ": "@ + reason@ && (0 <= k < before.failures@.len() ==> after.failures@[k]@
            == before.failures@[k]@),
{
    if let SyncEvent::Failed(reason) = event {
        let old_list = views(before.failures@);
        let new_list = views(after.failures@);
        assert(new_list.len() == after.failures@.len());
        assert(old_list.len() == before.failures@.len());
        assert(new_list[after.failures@.len() - 1] == after.failures@.last()@);
        if 0 <= k < before.failures@.len() {
            assert(new_list[k] == after.failures@[k]@);
            assert(old_list[k] == before.failures@[k]@);
        }
    }
}

/// A topic is counted by what became of it: as clean, as changed or as a conflict. Whatever else is
/// counted in the same step is a topic whose branch is in conflict.
pub proof fn law_topics_are_counted_by_their_status(
    before: Sync,
    event: SyncEvent,
    after: Sync,
    action: SyncAction,
    status: SyncTopicStatus,
)
    requires
        before.wf(),
        before.event_fits(event),
        sync_leads_to(before, event, after, action),
        event == SyncEvent::Synced(status),
    ensures
        after.summary.unchanged == before.summary.unchanged + if status is Unchanged {
            1int
        } else {
            0
        },
        after.summary.changed == before.summary.changed + if status is Unchanged || status
            is Conflict {
            0int
        } else {
            1
        },
        after.summary.conflicts - before.summary.conflicts - (if status is Conflict {
            1int
        } else {
            0
        }) == after.summary.total - before.summary.total - 1,
{
}

/// The laws about steps hold of each step that a synchronization makes: what [`Sync::step`] gives
/// is where the event leads, and it can go on from there.
pub proof fn law_each_step_is_such_a_step(
    before: Sync,
    event: SyncEvent,
    after: Sync,
    action: SyncAction,
)
    requires
        before.wf(),
        before.event_fits(event),
        call_ensures(Sync::step, (before, event), (after, action)),
    ensures
        sync_leads_to(before, event, after, action),
        after.wf(),
{
}

/// A synchronization starts with the remotes, unless it is offline, and with nothing counted and
/// nothing failed.
pub proof fn law_sync_starts_with_the_remotes(
    dry_run: bool,
    offline: bool,
    sync: Sync,
    action: SyncAction,
)
    requires
        call_ensures(Sync::start, (dry_run, offline), (sync, action)),
    ensures
        action is ListRemotes <==> !offline,
        action is ReconcileManifest <==> offline,
        sync.dry_run == dry_run,
        sync.summary.total == 0,
        sync.failures@.len() == 0,
        sync.topics@.len() == 0,
{
}

} // verus!
