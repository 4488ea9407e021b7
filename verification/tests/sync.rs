use porchetta::engine::reconcile::{
    order_heads, Reconcile, ReconcileAction, ReconcileEvent,
};
use porchetta::engine::status::{Reconciled, SyncTopicStatus};
use porchetta::engine::sync::{Sync, SyncAction, SyncError, SyncEvent, TopicEntry};
use porchetta::object::ObjectId;

fn id(n: u64) -> ObjectId {
    ObjectId { hi: n, mid: 0, lo: 0 }
}

/// Runs a reconciliation in a history given by its ancestors, with merges that conflict or not.
fn reconcile(
    local: Option<u64>,
    remote: &[u64],
    dry_run: bool,
    ancestors: &[(u64, u64)],
    conflicts: bool,
) -> (Reconciled, Vec<String>) {
    let remote: Vec<ObjectId> = remote.iter().map(|n| id(*n)).collect();
    let mut state = Reconcile::start(local.map(id), &remote, dry_run);
    let mut log = Vec::new();
    let mut next = 100;
    loop {
        let event = match state.action() {
            ReconcileAction::Ask { candidate, other } => {
                ReconcileEvent::Contained(ancestors.contains(&(candidate.hi, other.hi)))
            }
            ReconcileAction::Merge { ours, theirs } => {
                log.push(format!("merge {} {}", ours.hi, theirs.hi));
                ReconcileEvent::Merged { unresolved: conflicts }
            }
            ReconcileAction::Commit { ours, theirs, resolve } => {
                log.push(format!("commit {} {} {}", ours.hi, theirs.hi, resolve));
                next += 1;
                ReconcileEvent::Committed(id(next))
            }
            ReconcileAction::ShowConflicts => {
                log.push("show".to_owned());
                ReconcileEvent::Shown
            }
            ReconcileAction::Finish(result) => return (result, log),
        };
        state = state.step(event);
    }
}

#[test]
fn nothing_to_reconcile_is_no_history() {
    let (result, log) = reconcile(None, &[], false, &[], false);
    assert_eq!(result, Reconciled::NoHistory);
    assert!(log.is_empty());
}

#[test]
fn contained_heads_are_fast_forwarded() {
    let (result, log) = reconcile(Some(2), &[1, 2], false, &[(2, 1)], false);
    assert_eq!(result, Reconciled::Head(id(1)));
    assert!(log.is_empty());
}

#[test]
fn heads_are_integrated_local_first() {
    let (result, log) = reconcile(Some(5), &[3, 9, 4], false, &[(4, 9)], true);
    assert_eq!(result, Reconciled::Head(id(102)));
    assert_eq!(
        log,
        ["merge 5 3", "commit 5 3 true", "merge 101 9", "commit 101 9 true"]
    );
    assert_eq!(order_heads(Some(id(5)), vec![id(3), id(5), id(9)]), [id(5), id(3), id(9)]);
    assert_eq!(order_heads(Some(id(4)), vec![id(3), id(9)]), [id(3), id(9)]);
}

#[test]
fn dry_runs_stop_at_conflicts() {
    let (result, log) = reconcile(Some(1), &[2, 3], true, &[], true);
    assert_eq!(result, Reconciled::Conflict);
    assert_eq!(log, ["merge 1 2", "show"]);
    let (result, log) = reconcile(Some(1), &[2], true, &[], false);
    assert_eq!(result, Reconciled::Head(id(101)));
    assert_eq!(log, ["merge 1 2", "commit 1 2 false"]);
}

fn topics() -> Vec<TopicEntry> {
    [("a", true), ("b", false), ("c", true)]
        .iter()
        .map(|(name, enabled)| TopicEntry { name: (*name).to_owned(), enabled: *enabled })
        .collect()
}

struct World {
    manifest: Reconciled,
    topic: Reconciled,
    valid: bool,
    fetch: Option<&'static str>,
    push: Option<&'static str>,
}

const GOOD: World = World {
    manifest: Reconciled::Head(ObjectId { hi: 1, mid: 0, lo: 0 }),
    topic: Reconciled::Head(ObjectId { hi: 2, mid: 0, lo: 0 }),
    valid: true,
    fetch: None,
    push: None,
};

fn failing(at: Option<&str>, name: &str) -> SyncEvent {
    if at == Some(name) {
        SyncEvent::Failed("broken".to_owned())
    } else {
        SyncEvent::Done
    }
}

fn run(dry_run: bool, offline: bool, world: &World) -> (Vec<String>, Option<SyncError>) {
    let remotes = ["x", "y"];
    let (mut state, mut action) = Sync::start(dry_run, offline);
    let mut log = Vec::new();
    loop {
        let event = match action {
            SyncAction::ListRemotes => {
                log.push("remotes".to_owned());
                SyncEvent::Remotes(remotes.iter().map(|name| (*name).to_owned()).collect())
            }
            SyncAction::Fetch(i) => {
                log.push(format!("fetch {}", remotes[i]));
                failing(world.fetch, remotes[i])
            }
            SyncAction::ReconcileManifest => SyncEvent::Reconciled(world.manifest),
            SyncAction::LoadManifest(head) => {
                log.push(format!("load {}", head.hi));
                if world.valid {
                    SyncEvent::Topics(topics())
                } else {
                    SyncEvent::Invalid
                }
            }
            SyncAction::ReconcileTopic(i) => {
                log.push(format!("reconcile {i}"));
                SyncEvent::Reconciled(world.topic)
            }
            SyncAction::UpdateHeads(updates) => {
                let names: Vec<String> =
                    updates.iter().map(|update| update.branch.short_name()).collect();
                log.push(format!("heads {}", names.join(",")));
                SyncEvent::Done
            }
            SyncAction::GetHostname => SyncEvent::Done,
            SyncAction::SyncTopic { index, .. } => {
                log.push(format!("topic {index}"));
                SyncEvent::Synced(SyncTopicStatus::Captured)
            }
            SyncAction::ShowSummary(text) => {
                log.push(text);
                SyncEvent::Done
            }
            SyncAction::Push(i) => {
                log.push(format!("push {}", remotes[i]));
                failing(world.push, remotes[i])
            }
            SyncAction::Fail(error) => return (log, Some(error)),
            SyncAction::Finish => return (log, None),
        };
        let (next_state, next_action) = state.step(event);
        state = next_state;
        action = next_action;
    }
}

#[test]
fn syncs_go_through_all_steps() {
    let (log, error) = run(false, false, &GOOD);
    assert!(error.is_none());
    assert_eq!(
        log,
        [
            "remotes",
            "fetch x",
            "fetch y",
            "load 1",
            "reconcile 0",
            "reconcile 1",
            "reconcile 2",
            "heads manifest,topic/a,topic/b,topic/c",
            "topic 0",
            "topic 2",
            "Summary: 2 topic(s) checked, 0 clean, 2 changed, 0 conflict(s)",
            "push x",
            "push y",
        ]
    );
}

#[test]
fn dry_runs_move_and_push_nothing() {
    let (log, error) = run(true, false, &GOOD);
    assert!(error.is_none());
    assert!(!log.iter().any(|line| line.starts_with("heads") || line.starts_with("push")));
    assert!(log.iter().any(|line| line.starts_with("fetch")));
}

#[test]
fn offline_syncs_leave_remotes_alone() {
    let (log, error) = run(false, true, &GOOD);
    assert!(error.is_none());
    assert!(!log.iter().any(|line| {
        line == "remotes" || line.starts_with("fetch") || line.starts_with("push")
    }));
    assert!(log.iter().any(|line| line.starts_with("heads")));
}

#[test]
fn failed_fetches_come_before_any_change() {
    let (log, error) = run(false, false, &World { fetch: Some("x"), ..GOOD });
    assert_eq!(log, ["remotes", "fetch x"]);
    assert_eq!(error.unwrap().message().unwrap(), "Failed to fetch remote 'x'");
}

#[test]
fn failed_pushes_do_not_stop_the_others() {
    let (log, error) = run(false, false, &World { push: Some("x"), ..GOOD });
    assert!(log.ends_with(&["push x".to_owned(), "push y".to_owned()]));
    assert_eq!(
        error.unwrap().message().unwrap(),
        "Local synchronization succeeded, but publication failed for: x: broken"
    );
}

#[test]
fn syncs_need_a_manifest() {
    let (_, error) = run(false, false, &World { manifest: Reconciled::NoHistory, ..GOOD });
    assert_eq!(error.unwrap().message().unwrap(), "Manifest branch has no head");
    let (_, error) = run(true, false, &World { manifest: Reconciled::Conflict, ..GOOD });
    assert_eq!(
        error.unwrap().message().unwrap(),
        "Interactive sync is required to reconcile manifest"
    );
    let (log, error) = run(false, false, &World { valid: false, ..GOOD });
    assert_eq!(error.unwrap().message().unwrap(), "Reconciled manifest is invalid");
    assert!(!log.iter().any(|line| line.starts_with("heads")));
}

#[test]
fn topics_in_conflict_are_counted_and_left() {
    let (log, error) = run(true, false, &World { topic: Reconciled::Conflict, ..GOOD });
    assert!(error.is_none());
    assert!(!log.iter().any(|line| line.starts_with("topic")));
    assert!(log.contains(
        &"Summary: 2 topic(s) checked, 0 clean, 0 changed, 2 conflict(s)".to_owned()
    ));
}

#[test]
fn topics_without_history_move_no_head() {
    let (log, _) = run(false, true, &World { topic: Reconciled::NoHistory, ..GOOD });
    assert!(log.contains(&"heads manifest".to_owned()));
    assert!(log.contains(&"topic 0".to_owned()));
}

#[test]
fn failed_actions_end_the_sync() {
    let (state, _) = Sync::start(false, false);
    let (_, action) = state.step(SyncEvent::Failed("no".to_owned()));
    match action {
        SyncAction::Fail(error) => {
            assert!(matches!(error, SyncError::Aborted));
            assert!(error.message().is_none());
        }
        _ => panic!("the sync goes on"),
    }
}

#[test]
fn reconciled_heads_contain_every_head() {
    let ancestors = [(4, 2), (5, 4), (5, 2)];
    let (result, log) = reconcile(Some(3), &[1, 2, 4, 5, 3], false, &ancestors, true);
    assert_eq!(log.len(), 4);
    let mut within = ancestors.to_vec();
    for (n, line) in log.iter().filter(|line| line.starts_with("commit")).enumerate() {
        let words: Vec<&str> = line.split(' ').collect();
        let commit = 101 + n as u64;
        for parent in [words[1].parse().unwrap(), words[2].parse().unwrap()] {
            let below: Vec<u64> =
                within.iter().filter(|pair| pair.1 == parent).map(|pair| pair.0).collect();
            within.push((parent, commit));
            within.extend(below.into_iter().map(|head| (head, commit)));
        }
    }
    assert_eq!(result, Reconciled::Head(id(102)));
    for head in 1..=5 {
        assert!(within.contains(&(head, 102)), "{head}");
    }
    assert_eq!(reconcile(Some(7), &[], false, &[], false).0, Reconciled::Head(id(7)));
}
