//! Two synchronizations in a row: where nothing was touched in between, the second leaves every
//! head and every file as it is.

use vstd::prelude::*;

use crate::engine::diff::{are_differences, operations_of, DiffChange};
use crate::engine::settle::{
    are_written, files_after, is_capture_of, law_applied_tree_is_captured_again, named_by_content,
    stores_steadily, undoes, Contents, Files, Tree,
};
use crate::engine::status::{planned, Reconciled, SyncTopicStatus};
use crate::engine::sync::{
    are_updates, is_synced, last_named, lemma_last_named, lemma_last_named_holds, next_synced,
    state_named, sync_leads_to, updates_topic, Sync, SyncAction, SyncEvent, SyncStage, TopicEntry,
};
use crate::manifest::Topic;
use crate::object::ObjectId;
use crate::store::branch::BranchView;
use crate::store::heads::HeadUpdate;

verus! {

// ----------------------------------------------------------------------------
// What a synchronization works on
// ----------------------------------------------------------------------------

/// What git objects are, what merges come to, and what manifests say.
pub struct Setting {
    /// The content of each blob.
    pub contents: Contents,
    /// The files of each tree.
    pub tree_at: spec_fn(ObjectId) -> Tree,
    /// The tree without files.
    pub no_files: ObjectId,
    /// The tree of each commit.
    pub tree_of: spec_fn(ObjectId) -> ObjectId,
    /// Whether base, ours and theirs can be merged to a tree.
    pub merges: spec_fn(ObjectId, ObjectId, ObjectId, ObjectId) -> bool,
    /// The topics of the manifest of a commit, and whether they are enabled.
    pub listed: spec_fn(ObjectId) -> Seq<(Seq<char>, bool)>,
    /// The paths that a topic takes.
    pub taken: spec_fn(Seq<char>) -> Set<Seq<char>>,
}

/// Whether blobs with the same content and trees with the same files have the same name, trees that
/// are all the same merge to themselves, and no two topics of a manifest have the same name.
pub open spec fn is_setting(setting: Setting) -> bool {
    &&& named_by_content(setting.contents)
    &&& forall|a: ObjectId, b: ObjectId| #[trigger]
        (setting.tree_at)(a) == #[trigger] (setting.tree_at)(b) ==> a == b
    &&& (setting.tree_at)(setting.no_files) == Map::<Seq<char>, ObjectId>::empty()
    &&& forall|tree: ObjectId, merged: ObjectId| #[trigger]
        (setting.merges)(tree, tree, tree, merged) ==> merged == tree
    &&& forall|head: ObjectId, i: int, j: int|
        #![trigger (setting.listed)(head)[i], (setting.listed)(head)[j]]
        0 <= i < j < (setting.listed)(head).len() ==> (setting.listed)(head)[i].0
            != (setting.listed)(head)[j].0
}

/// A store and the files of a host. The topics have files of their own.
pub struct Host {
    /// The head of the manifest.
    pub manifest: Option<ObjectId>,
    /// The heads of the topics.
    pub heads: Map<Seq<char>, ObjectId>,
    /// The heads of the topics that this host had last.
    pub bases: Map<Seq<char>, ObjectId>,
    /// The files below the root of each topic.
    pub files: Map<Seq<char>, Files>,
}

/// What a branch is reconciled to where no remote takes part.
pub open spec fn alone(head: Option<ObjectId>) -> Reconciled {
    match head {
        Some(head) => Reconciled::Head(head),
        None => Reconciled::NoHistory,
    }
}

/// What a topic is reconciled to where no remote takes part.
pub open spec fn topic_state(host: Host, name: Seq<char>) -> Reconciled {
    if host.heads.dom().contains(name) {
        Reconciled::Head(host.heads[name])
    } else {
        Reconciled::NoHistory
    }
}

/// The names of topics, and whether they are enabled.
pub open spec fn entries(topics: Seq<TopicEntry>) -> Seq<(Seq<char>, bool)> {
    topics.map_values(|t: TopicEntry| (t.name@, t.enabled))
}

/// Whether the heads are moved by these updates, and nothing else changes.
pub open spec fn are_moved(before: Host, updates: Seq<HeadUpdate>, after: Host) -> bool {
    &&& after.manifest == Some(updates[0].head)
    &&& after.bases == before.bases
    &&& after.files == before.files
    &&& forall|name: Seq<char>| #[trigger]
        after.heads.dom().contains(name) <==> before.heads.dom().contains(name) || updates_topic(
            updates,
            name,
        )
    &&& forall|name: Seq<char>|
        !updates_topic(updates, name) ==> #[trigger] after.heads[name] == before.heads[name]
    &&& forall|i: int|
        1 <= i < updates.len() ==> after.heads[(#[trigger] updates[i]).branch@->Topic_0]
            == updates[i].head
}

/// What is found and made when a topic is synchronized with the file system.
pub struct TopicStep {
    /// The captured tree.
    pub ours: ObjectId,
    /// The merged tree.
    pub merged: ObjectId,
    /// The commit of the merged tree, where there is one.
    pub commit: ObjectId,
    /// The differences from the captured to the merged tree, where they are applied.
    pub changes: Seq<DiffChange>,
    /// What is written for each operation.
    pub written: Seq<Seq<u8>>,
}

/// The tree that a state stands for.
pub open spec fn state_tree(setting: Setting, state: Reconciled) -> ObjectId {
    match state {
        Reconciled::Head(head) => (setting.tree_of)(head),
        _ => setting.no_files,
    }
}

/// The tree that this host had last of a topic.
pub open spec fn base_tree(setting: Setting, host: Host, name: Seq<char>) -> ObjectId {
    if host.bases.dom().contains(name) {
        (setting.tree_of)(host.bases[name])
    } else {
        setting.no_files
    }
}

/// Whether a topic is synchronized in this way: its files are captured, the trees are merged, and
/// what is planned for them is carried out.
pub open spec fn is_carried_out(
    setting: Setting,
    topic: Topic,
    name: Seq<char>,
    state: Reconciled,
    before: Host,
    step: TopicStep,
    status: SyncTopicStatus,
    after: Host,
) -> bool {
    let theirs = state_tree(setting, state);
    let plan = planned(false, state, step.ours, theirs, step.merged);
    let heads = if plan.commit {
        before.heads.insert(name, step.commit)
    } else {
        before.heads
    };
    &&& is_capture_of(
        topic,
        setting.contents,
        (setting.taken)(name),
        before.files[name],
        (setting.tree_at)(step.ours),
    )
    &&& (setting.merges)(base_tree(setting, before, name), step.ours, theirs, step.merged)
    &&& plan.commit ==> (setting.tree_of)(step.commit) == step.merged
    &&& plan.apply ==> are_differences(
        step.changes,
        (setting.tree_at)(step.ours),
        (setting.tree_at)(step.merged),
    ) && are_written(topic, setting.contents, operations_of(step.changes), step.written)
    &&& status == plan.status
    &&& after == Host {
        manifest: before.manifest,
        heads,
        bases: before.bases.insert(name, heads[name]),
        files: if plan.apply {
            before.files.insert(
                name,
                files_after(before.files[name], operations_of(step.changes), step.written),
            )
        } else {
            before.files
        },
    }
}

/// Whether an action succeeds with this event, on a host without remotes, and leaves it so.
pub open spec fn succeeds(
    setting: Setting,
    topics: spec_fn(Seq<char>) -> Topic,
    sync: Sync,
    before: Host,
    action: SyncAction,
    event: SyncEvent,
    after: Host,
) -> bool {
    match action {
        SyncAction::ReconcileManifest => event == SyncEvent::Reconciled(alone(before.manifest))
            && after == before,
        SyncAction::LoadManifest(head) => after == before && match event {
            SyncEvent::Topics(list) => entries(list@) == (setting.listed)(head),
            _ => false,
        },
        SyncAction::ReconcileTopic(i) => event == SyncEvent::Reconciled(
            topic_state(before, sync.topics@[i as int].name@),
        ) && after == before,
        SyncAction::UpdateHeads(updates) => event is Done && are_moved(before, updates@, after),
        SyncAction::SyncTopic { index, state } => match event {
            SyncEvent::Synced(status) => exists|step: TopicStep| #[trigger]
                is_carried_out(
                    setting,
                    topics(sync.topics@[index as int].name@),
                    sync.topics@[index as int].name@,
                    state,
                    before,
                    step,
                    status,
                    after,
                ),
            _ => false,
        },
        SyncAction::GetHostname => event is Done && after == before,
        SyncAction::ShowSummary(_) => event is Done && after == before,
        _ => false,
    }
}

/// A synchronization from its start to its end: its states and actions, what came of the actions,
/// and the host at each state.
pub struct Run {
    pub states: Seq<Sync>,
    pub actions: Seq<SyncAction>,
    pub events: Seq<SyncEvent>,
    pub hosts: Seq<Host>,
}

/// Whether a synchronization without remotes that is no dry run goes this way and ends well.
pub open spec fn is_run(setting: Setting, topics: spec_fn(Seq<char>) -> Topic, run: Run) -> bool {
    let n = run.events.len();
    &&& run.states.len() == n + 1
    &&& run.actions.len() == n + 1
    &&& run.hosts.len() == n + 1
    &&& run.states[0].offline
    &&& !run.states[0].dry_run
    &&& run.states[0].remotes@.len() == 0
    &&& run.states[0].failures@.len() == 0
    &&& run.states[0].stage is ReconcilingManifest
    &&& run.actions[0] is ReconcileManifest
    &&& run.actions[n as int] is Finish
    &&& forall|i: int| 0 <= i <= n ==> (#[trigger] run.states[i]).wf()
    &&& forall|i: int| 0 <= i < n ==> #[trigger] is_step(setting, topics, run, i)
}

/// Whether the step at `i` of a synchronization is one of its machine, on what came of the action.
pub open spec fn is_step(
    setting: Setting,
    topics: spec_fn(Seq<char>) -> Topic,
    run: Run,
    i: int,
) -> bool {
    &&& run.states[i].event_fits(run.events[i])
    &&& sync_leads_to(run.states[i], run.events[i], run.states[i + 1], run.actions[i + 1])
    &&& succeeds(
        setting,
        topics,
        run.states[i],
        run.hosts[i],
        run.actions[i],
        run.events[i],
        run.hosts[i + 1],
    )
}

// ----------------------------------------------------------------------------
// Where a synchronization is
// ----------------------------------------------------------------------------

/// Whether a synchronization knows the topics, and what the first `n` of them are reconciled to.
spec fn knows(setting: Setting, sync: Sync, start: Host, n: int) -> bool {
    &&& sync.manifest_head is Some
    &&& sync.manifest_head == start.manifest
    &&& entries(sync.topics@) == (setting.listed)(sync.manifest_head->0)
    &&& sync.states@.len() == n
    &&& forall|k: int|
        0 <= k < n ==> #[trigger] sync.states@[k] == topic_state(start, sync.topics@[k].name@)
}

/// Whether the topics are not synchronized with the file system yet.
spec fn is_early(stage: SyncStage) -> bool {
    !(stage is SyncingTopic || stage is Summarizing || stage is Ended)
}

/// What holds of a synchronization that started on this host.
spec fn is_under_way(setting: Setting, sync: Sync, action: SyncAction, start: Host) -> bool {
    let all = sync.topics@.len() as int;
    &&& !sync.dry_run
    &&& sync.offline
    &&& sync.remotes@.len() == 0
    &&& sync.failures@.len() == 0
    &&& match sync.stage {
        SyncStage::ReconcilingManifest => action is ReconcileManifest,
        SyncStage::LoadingManifest => sync.manifest_head is Some && sync.manifest_head
            == start.manifest && action == SyncAction::LoadManifest(sync.manifest_head->0),
        SyncStage::ReconcilingTopic(i) => i < all && knows(setting, sync, start, i as int) && action
            == SyncAction::ReconcileTopic(i),
        SyncStage::UpdatingHeads => {
            &&& knows(setting, sync, start, all)
            &&& action matches SyncAction::UpdateHeads(updates) && are_updates(
                updates@,
                sync.manifest_head->0,
                sync.topics@,
                sync.states@,
            )
        },
        SyncStage::GettingHostname => knows(setting, sync, start, all) && action is GetHostname,
        SyncStage::SyncingTopic(i) => i < all && sync.topics@[i as int].enabled && knows(
            setting,
            sync,
            start,
            all,
        ) && action == (SyncAction::SyncTopic { index: i, state: sync.states@[i as int] }),
        SyncStage::Summarizing => knows(setting, sync, start, all) && action is ShowSummary,
        SyncStage::Ended => action is Finish ==> knows(setting, sync, start, all),
        _ => false,
    }
}

proof fn lemma_state_named(setting: Setting, sync: Sync, start: Host, i: int)
    requires
        is_setting(setting),
        knows(setting, sync, start, sync.topics@.len() as int),
        0 <= i < sync.topics@.len(),
    ensures
        state_named(sync.topics@, sync.states@, sync.topics@[i].name@) == Some(sync.states@[i]),
        is_synced(sync.topics@, sync.states@, i) == sync.topics@[i].enabled,
{
    let topics = sync.topics@;
    let len = topics.len() as int;
    let name = topics[i].name@;
    lemma_last_named(topics, len, name, i);
    let k = last_named(topics, len, name);
    let list = (setting.listed)(sync.manifest_head->0);
    assert(entries(topics)[i] == list[i] && entries(topics)[k] == list[k]);
    assert(list[i].0 == list[k].0);
    assert(k == i);
    assert(sync.states@[i] == topic_state(start, sync.topics@[i].name@));
}

/// Between a topic and the next that is synchronized none is enabled.
proof fn lemma_skipped(setting: Setting, sync: Sync, start: Host, i: int)
    requires
        is_setting(setting),
        knows(setting, sync, start, sync.topics@.len() as int),
        0 <= i <= sync.topics@.len(),
    ensures
        i <= next_synced(sync.topics@, sync.states@, i) <= sync.topics@.len(),
        forall|k: int|
            i <= k < next_synced(sync.topics@, sync.states@, i) ==> !(
            #[trigger] sync.topics@[k]).enabled,
        next_synced(sync.topics@, sync.states@, i) < sync.topics@.len()
            ==> sync.topics@[next_synced(sync.topics@, sync.states@, i)].enabled,
    decreases sync.topics@.len() - i,
{
    if i < sync.topics@.len() {
        lemma_state_named(setting, sync, start, i);
        if !is_synced(sync.topics@, sync.states@, i) {
            lemma_skipped(setting, sync, start, i + 1);
        }
    }
}

proof fn lemma_goes_on(
    setting: Setting,
    topics: spec_fn(Seq<char>) -> Topic,
    run: Run,
    start: Host,
    i: int,
)
    requires
        is_setting(setting),
        is_run(setting, topics, run),
        0 <= i < run.events.len(),
        is_under_way(setting, run.states[i], run.actions[i], start),
        is_early(run.states[i].stage) ==> run.hosts[i] == start,
    ensures
        is_under_way(setting, run.states[i + 1], run.actions[i + 1], start),
{
    assert(is_step(setting, topics, run, i));
    let before = run.states[i];
    let after = run.states[i + 1];
    let event = run.events[i];
    assert(before.wf() && after.wf());
    assert(after.topics.len() == after.topics@.len());
    match before.stage {
        SyncStage::ReconcilingTopic(k) => {
            let state = topic_state(start, before.topics@[k as int].name@);
            assert(event == SyncEvent::Reconciled(state));
            assert(after.topics == before.topics);
            assert forall|m: int| 0 <= m < k + 1 implies #[trigger] after.states@[m]
                == topic_state(start, after.topics@[m].name@) by {
                if m < k {
                    assert(after.states@[m] == before.states@[m]);
                }
            }
            assert(knows(setting, after, start, k + 1));
        },
        SyncStage::GettingHostname => {
            assert(knows(setting, after, start, after.topics@.len() as int));
            lemma_skipped(setting, after, start, 0);
            let next = next_synced(after.topics@, after.states@, 0);
            if next < after.topics@.len() {
                lemma_state_named(setting, after, start, next);
            }
        },
        SyncStage::SyncingTopic(k) => {
            assert(knows(setting, after, start, after.topics@.len() as int));
            lemma_skipped(setting, after, start, k + 1);
            let next = next_synced(after.topics@, after.states@, k + 1);
            if next < after.topics@.len() {
                lemma_state_named(setting, after, start, next);
            }
        },
        _ => {},
    }
}

proof fn lemma_heads_stay(
    setting: Setting,
    sync: Sync,
    before: Host,
    updates: Seq<HeadUpdate>,
    after: Host,
)
    requires
        is_setting(setting),
        knows(setting, sync, before, sync.topics@.len() as int),
        are_updates(updates, sync.manifest_head->0, sync.topics@, sync.states@),
        are_moved(before, updates, after),
    ensures
        after == before,
{
    let topics = sync.topics@;
    let len = topics.len() as int;
    assert forall|i: int| 1 <= i < updates.len() implies before.heads.dom().contains(
        (#[trigger] updates[i]).branch@->Topic_0,
    ) && before.heads[updates[i].branch@->Topic_0] == updates[i].head by {
        let name = updates[i].branch@->Topic_0;
        let k = last_named(topics, len, name);
        assert(state_named(topics, sync.states@, name) == Some(Reconciled::Head(updates[i].head)));
        assert(sync.states@[k] == topic_state(before, topics[k].name@));
        lemma_last_named_holds(topics, len, name);
    }
    assert forall|name: Seq<char>|
        #![trigger after.heads.dom().contains(name)]
        after.heads.dom().contains(name) == before.heads.dom().contains(name) && after.heads[name]
            == before.heads[name] by {
        if updates_topic(updates, name) {
            let i = choose|i: int|
                1 <= i < updates.len() && (#[trigger] updates[i]).branch@ == BranchView::Topic(
                    name,
                );
            assert(updates[i].branch@->Topic_0 == name);
        }
    }
    assert(after.heads =~= before.heads);
}

// ----------------------------------------------------------------------------
// The first synchronization
// ----------------------------------------------------------------------------

/// Whether the files of a topic are what its head was applied to, and this host has it as what it
/// had last.
spec fn is_applied(
    setting: Setting,
    topic: Topic,
    host: Host,
    name: Seq<char>,
) -> bool {
    &&& host.heads.dom().contains(name)
    &&& host.bases.dom().contains(name)
    &&& host.bases[name] == host.heads[name]
    &&& exists|files: Files, step: TopicStep| #[trigger]
        leads_to_head(setting, topic, host, name, files, step)
}

/// The files of the head of a topic.
pub open spec fn head_files(setting: Setting, host: Host, name: Seq<char>) -> Tree {
    (setting.tree_at)((setting.tree_of)(host.heads[name]))
}

/// Whether the files of a topic are those that come of it when its head is applied to these.
spec fn leads_to_head(
    setting: Setting,
    topic: Topic,
    host: Host,
    name: Seq<char>,
    files: Files,
    step: TopicStep,
) -> bool {
    &&& is_capture_of(
        topic,
        setting.contents,
        (setting.taken)(name),
        files,
        (setting.tree_at)(step.ours),
    )
    &&& are_differences(step.changes, (setting.tree_at)(step.ours), head_files(setting, host, name))
    &&& are_written(topic, setting.contents, operations_of(step.changes), step.written)
    &&& host.files[name] == files_after(files, operations_of(step.changes), step.written)
}

/// Whether every topic that is enabled, below `n`, is applied.
spec fn are_applied(
    setting: Setting,
    topics: spec_fn(Seq<char>) -> Topic,
    sync: Sync,
    host: Host,
    n: int,
) -> bool {
    forall|k: int|
        0 <= k < n && (#[trigger] sync.topics@[k]).enabled ==> is_applied(
            setting,
            topics(sync.topics@[k].name@),
            host,
            sync.topics@[k].name@,
        )
}

/// What holds of the host while a synchronization goes on.
spec fn has_come_to(
    setting: Setting,
    topics: spec_fn(Seq<char>) -> Topic,
    sync: Sync,
    action: SyncAction,
    host: Host,
    start: Host,
) -> bool {
    &&& host.manifest == start.manifest
    &&& is_early(sync.stage) ==> host == start
    &&& match sync.stage {
        SyncStage::SyncingTopic(i) => {
            &&& are_applied(setting, topics, sync, host, i as int)
            &&& forall|k: int|
                i <= k < sync.topics@.len() ==> topic_state(
                    host,
                    (#[trigger] sync.topics@[k]).name@,
                ) == topic_state(start, sync.topics@[k].name@)
        },
        SyncStage::Summarizing => are_applied(
            setting,
            topics,
            sync,
            host,
            sync.topics@.len() as int,
        ),
        SyncStage::Ended => action is Finish ==> are_applied(
            setting,
            topics,
            sync,
            host,
            sync.topics@.len() as int,
        ),
        _ => true,
    }
}

proof fn lemma_topic_is_applied(
    setting: Setting,
    topic: Topic,
    name: Seq<char>,
    state: Reconciled,
    before: Host,
    step: TopicStep,
    status: SyncTopicStatus,
    after: Host,
)
    requires
        is_setting(setting),
        is_carried_out(setting, topic, name, state, before, step, status, after),
        state == topic_state(before, name),
    ensures
        is_applied(setting, topic, after, name),
        after.manifest == before.manifest,
        forall|other: Seq<char>|
            #![trigger after.heads.dom().contains(other)]
            #![trigger after.heads[other]]
            other != name ==> after.heads.dom().contains(other) == before.heads.dom().contains(
                other,
            ) && after.heads[other] == before.heads[other],
        forall|other: Seq<char>|
            #![trigger after.bases.dom().contains(other)]
            #![trigger after.bases[other]]
            other != name ==> after.bases.dom().contains(other) == before.bases.dom().contains(
                other,
            ) && after.bases[other] == before.bases[other],
        forall|other: Seq<char>| other != name ==> #[trigger] after.files[other]
            == before.files[other],
{
    let theirs = state_tree(setting, state);
    let plan = planned(false, state, step.ours, theirs, step.merged);
    let files = before.files[name];
    assert((setting.tree_of)(after.heads[name]) == step.merged);
    if plan.apply {
        assert(leads_to_head(setting, topic, after, name, files, step));
    } else {
        let none = TopicStep { changes: Seq::empty(), written: Seq::empty(), ..step };
        assert(step.ours == step.merged);
        assert(operations_of(none.changes) =~= Seq::empty());
        assert(are_differences(
            none.changes,
            (setting.tree_at)(none.ours),
            (setting.tree_at)(step.merged),
        ));
        assert(leads_to_head(setting, topic, after, name, files, none));
    }
}

proof fn lemma_first_step(
    setting: Setting,
    topics: spec_fn(Seq<char>) -> Topic,
    run: Run,
    start: Host,
    i: int,
)
    requires
        is_setting(setting),
        is_run(setting, topics, run),
        0 <= i < run.events.len(),
        is_under_way(setting, run.states[i], run.actions[i], start),
        has_come_to(setting, topics, run.states[i], run.actions[i], run.hosts[i], start),
    ensures
        is_under_way(setting, run.states[i + 1], run.actions[i + 1], start),
        has_come_to(setting, topics, run.states[i + 1], run.actions[i + 1], run.hosts[i + 1], start),
{
    lemma_goes_on(setting, topics, run, start, i);
    assert(is_step(setting, topics, run, i));
    let before = run.states[i];
    let after = run.states[i + 1];
    let host = run.hosts[i];
    let next_host = run.hosts[i + 1];
    assert(after.wf());
    assert(after.topics.len() == after.topics@.len());
    match before.stage {
        SyncStage::UpdatingHeads => {
            let updates = run.actions[i]->UpdateHeads_0@;
            lemma_heads_stay(setting, before, start, updates, next_host);
        },
        SyncStage::GettingHostname => {
            lemma_skipped(setting, after, start, 0);
        },
        SyncStage::SyncingTopic(k) => {
            let name = before.topics@[k as int].name@;
            let state = before.states@[k as int];
            let status = run.events[i]->Synced_0;
            let step = choose|step: TopicStep| #[trigger]
                is_carried_out(setting, topics(name), name, state, host, step, status, next_host);
            assert(topic_state(host, before.topics@[k as int].name@) == state);
            lemma_topic_is_applied(setting, topics(name), name, state, host, step, status, next_host);
            lemma_skipped(setting, after, start, k + 1);
            let list = (setting.listed)(before.manifest_head->0);
            assert forall|m: int| 0 <= m < after.topics@.len() && m != k implies (
            #[trigger] after.topics@[m]).name@ != name by {
                assert(entries(before.topics@)[m] == list[m]);
                assert(entries(before.topics@)[k as int] == list[k as int]);
            }
            let next = next_synced(after.topics@, after.states@, k + 1);
            assert forall|m: int| 0 <= m < next && (
            #[trigger] after.topics@[m]).enabled implies is_applied(
                setting,
                topics(after.topics@[m].name@),
                next_host,
                after.topics@[m].name@,
            ) by {
                if m < k {
                    let other = after.topics@[m].name@;
                    assert(is_applied(
                        setting,
                        topics(before.topics@[m].name@),
                        host,
                        before.topics@[m].name@,
                    ));
                    let (files, old_step) = choose|files: Files, old_step: TopicStep| #[trigger]
                        leads_to_head(setting, topics(other), host, other, files, old_step);
                    assert(next_host.heads.dom().contains(other));
                    assert(next_host.bases.dom().contains(other));
                    assert(next_host.files[other] == host.files[other]);
                    assert(leads_to_head(
                        setting,
                        topics(other),
                        next_host,
                        other,
                        files,
                        old_step,
                    ));
                }
            }
            assert forall|m: int| k < m < after.topics@.len() implies topic_state(
                next_host,
                (#[trigger] after.topics@[m]).name@,
            ) == topic_state(start, after.topics@[m].name@) by {
                let other = after.topics@[m].name@;
                assert(topic_state(host, before.topics@[m].name@) == topic_state(start, other));
                assert(next_host.heads.dom().contains(other) == host.heads.dom().contains(other));
            }
        },
        _ => {},
    }
}

proof fn lemma_first(
    setting: Setting,
    topics: spec_fn(Seq<char>) -> Topic,
    run: Run,
    i: int,
)
    requires
        is_setting(setting),
        is_run(setting, topics, run),
        0 <= i <= run.events.len(),
    ensures
        is_under_way(setting, run.states[i], run.actions[i], run.hosts[0]),
        has_come_to(
            setting,
            topics,
            run.states[i],
            run.actions[i],
            run.hosts[i],
            run.hosts[0],
        ),
    decreases i,
{
    if i > 0 {
        lemma_first(setting, topics, run, i - 1);
        lemma_first_step(setting, topics, run, run.hosts[0], i - 1);
    }
}

// ----------------------------------------------------------------------------
// The second synchronization
// ----------------------------------------------------------------------------

/// Whether a topic that is loaded again captures what it was applied to: `to_repo` undoes
/// `to_system` on the head of the topic and gives the same for the same, and the topic takes each
/// path of the head.
pub open spec fn comes_back(
    setting: Setting,
    topic: Topic,
    later: Topic,
    host: Host,
    name: Seq<char>,
) -> bool {
    let tree = head_files(setting, host, name);
    &&& stores_steadily(topic, later)
    &&& undoes(topic, later, setting.contents, tree)
    &&& tree.dom().subset_of((setting.taken)(name))
}

/// Whether the manifest has an enabled topic of this name.
pub open spec fn is_listed(setting: Setting, host: Host, name: Seq<char>) -> bool {
    host.manifest is Some && (setting.listed)(host.manifest->0).contains((name, true))
}

proof fn lemma_nothing_to_do(
    setting: Setting,
    topic: Topic,
    later: Topic,
    name: Seq<char>,
    before: Host,
    step: TopicStep,
    status: SyncTopicStatus,
    after: Host,
)
    requires
        is_setting(setting),
        is_applied(setting, topic, before, name),
        comes_back(setting, topic, later, before, name),
        is_carried_out(
            setting,
            later,
            name,
            topic_state(before, name),
            before,
            step,
            status,
            after,
        ),
    ensures
        after == before,
        status is Unchanged,
{
    let tree = (setting.tree_of)(before.heads[name]);
    let head = head_files(setting, before, name);
    let (files, first) = choose|files: Files, first: TopicStep| #[trigger]
        leads_to_head(setting, topic, before, name, files, first);
    law_applied_tree_is_captured_again(
        topic,
        later,
        setting.contents,
        (setting.taken)(name),
        files,
        (setting.tree_at)(first.ours),
        head,
        first.changes,
        first.written,
        (setting.tree_at)(step.ours),
    );
    assert(step.ours == tree);
    assert(base_tree(setting, before, name) == tree);
    assert((setting.merges)(tree, tree, tree, step.merged));
    assert(before.bases.insert(name, before.heads[name]) =~= before.bases);
}

proof fn lemma_second(
    setting: Setting,
    topics: spec_fn(Seq<char>) -> Topic,
    later: spec_fn(Seq<char>) -> Topic,
    run: Run,
    i: int,
)
    requires
        is_setting(setting),
        is_run(setting, later, run),
        0 <= i <= run.events.len(),
        forall|k: int|
            run.hosts[0].manifest is Some && 0 <= k < (setting.listed)(
                run.hosts[0].manifest->0,
            ).len() && (#[trigger] (setting.listed)(run.hosts[0].manifest->0)[k]).1 ==> {
                let name = (setting.listed)(run.hosts[0].manifest->0)[k].0;
                is_applied(setting, topics(name), run.hosts[0], name) && comes_back(
                    setting,
                    topics(name),
                    later(name),
                    run.hosts[0],
                    name,
                )
            },
    ensures
        is_under_way(setting, run.states[i], run.actions[i], run.hosts[0]),
        run.hosts[i] == run.hosts[0],
        forall|m: int|
            0 <= m < i && (#[trigger] run.events[m]) is Synced ==> run.events[m]->Synced_0
                is Unchanged,
    decreases i,
{
    if i > 0 {
        let start = run.hosts[0];
        lemma_second(setting, topics, later, run, i - 1);
        lemma_goes_on(setting, later, run, start, i - 1);
        assert(is_step(setting, later, run, i - 1));
        let before = run.states[i - 1];
        match before.stage {
            SyncStage::UpdatingHeads => {
                let updates = run.actions[i - 1]->UpdateHeads_0@;
                lemma_heads_stay(setting, before, start, updates, run.hosts[i]);
            },
            SyncStage::SyncingTopic(k) => {
                let name = before.topics@[k as int].name@;
                let list = (setting.listed)(start.manifest->0);
                assert(entries(before.topics@)[k as int] == list[k as int]);
                assert(list[k as int].1);
                let state = before.states@[k as int];
                assert(state == topic_state(start, before.topics@[k as int].name@));
                let status = run.events[i - 1]->Synced_0;
                let step = choose|step: TopicStep| #[trigger]
                    is_carried_out(
                        setting,
                        later(name),
                        name,
                        state,
                        start,
                        step,
                        status,
                        run.hosts[i],
                    );
                lemma_nothing_to_do(
                    setting,
                    topics(name),
                    later(name),
                    name,
                    start,
                    step,
                    status,
                    run.hosts[i],
                );
            },
            _ => {},
        }
    }
}

/// A second synchronization changes nothing: where one without remotes has ended well, nothing was
/// touched since, and each topic captures what it was applied to, another one that ends well finds
/// each topic unchanged, and leaves every head of the store and every file as it is.
pub proof fn law_second_run_changes_nothing(
    setting: Setting,
    topics: spec_fn(Seq<char>) -> Topic,
    first: Run,
    later: spec_fn(Seq<char>) -> Topic,
    second: Run,
)
    requires
        is_setting(setting),
        is_run(setting, topics, first),
        is_run(setting, later, second),
        second.hosts[0] == first.hosts.last(),
        forall|name: Seq<char>|
            is_listed(setting, first.hosts.last(), name) ==> #[trigger] comes_back(
                setting,
                topics(name),
                later(name),
                first.hosts.last(),
                name,
            ),
    ensures
        second.hosts.last() == first.hosts.last(),
        forall|m: int|
            0 <= m < second.events.len() && (#[trigger] second.events[m]) is Synced
                ==> second.events[m]->Synced_0 is Unchanged,
{
    let n = first.events.len() as int;
    let host = first.hosts.last();
    lemma_first(setting, topics, first, n);
    let sync = first.states[n];
    assert(sync.wf());
    assert(first.actions[n] is Finish);
    assert(sync.stage is Ended);
    let list = (setting.listed)(host.manifest->0);
    assert forall|k: int|
        host.manifest is Some && 0 <= k < list.len() && (#[trigger] list[k]).1 implies is_applied(
        setting,
        topics(list[k].0),
        host,
        list[k].0,
    ) && comes_back(setting, topics(list[k].0), later(list[k].0), host, list[k].0) by {
        assert(entries(sync.topics@)[k] == list[k]);
        assert(sync.topics@[k].enabled);
        assert(list[k] == (list[k].0, true));
        assert(is_listed(setting, host, list[k].0));
    }
    lemma_second(setting, topics, later, second, second.events.len() as int);
}

} // verus!
