use porchetta::object::ObjectId;
use porchetta::store::clone::{
    already_exists_message, bootstrap_heads, cleanup_message, clone_step, CloneAction, CloneError,
    CloneEvent, CloneStage, FetchedRef,
};
use porchetta::store::heads::{topic_commit_parents, update_heads, HeadUpdate, UpdateError};
use porchetta::store::layout::{
    in_use_message, initial_manifest, lock_directory, lock_path, manifest_file, manifest_message,
    manifest_parents, reconcile_message, topic_message,
};
use porchetta::store::remote::{
    add_command, check_topic_name, fetch_command, git_failure, list_command, ls_remote_command,
    prune_command, push_command, remote_head_ref, remote_names, remote_url, remove_command,
    url_command, PushTopic, RemoteError,
};
use porchetta::store::{Branch, Remote};

fn id(n: u64) -> ObjectId {
    ObjectId { hi: n, mid: 0, lo: 0 }
}

fn update(branch: Branch, n: u64) -> HeadUpdate {
    HeadUpdate { branch, head: id(n) }
}

#[test]
fn branches_have_their_refs() {
    let topic = Branch::topic("shell");
    assert_eq!(topic.short_name(), "topic/shell");
    assert_eq!(topic.ref_name(), "refs/heads/topic/shell");
    assert_eq!(topic.tracking_ref_name("origin"), "refs/remotes/origin/topic/shell");
    assert_eq!(
        Branch::topic("*").fetch_refspec("origin"),
        "+refs/heads/topic/*:refs/remotes/origin/topic/*"
    );
    assert_eq!(Branch::Manifest.ref_name(), "refs/heads/manifest");
    assert_eq!(Branch::system("host", "a/b").short_name(), "system/host/a/b");
}

#[test]
fn short_names_parse_back() {
    for branch in [Branch::Manifest, Branch::topic("a/b"), Branch::system("host", "a/b")] {
        let name = branch.short_name();
        assert_eq!(Branch::parse(&name).unwrap().short_name(), name);
    }
    assert!(matches!(
        Branch::parse("system/host/a/b"),
        Some(Branch::System { hostname, topic }) if hostname == "host" && topic == "a/b"
    ));
    assert!(Branch::parse("system/host").is_none());
    assert!(Branch::parse("other").is_none());
    assert!(Branch::parse("manifest/x").is_none());
}

#[test]
fn heads_move_with_a_log() {
    let edits = update_heads(&vec![
        update(Branch::Manifest, 1),
        update(Branch::topic("shell"), 2),
    ])
    .unwrap();
    assert_eq!(edits.len(), 2);
    assert_eq!(edits[1].name, "refs/heads/topic/shell");
    assert_eq!(edits[1].target, id(2));
    assert_eq!(
        edits[1].log_message,
        "Update head of branch topic/shell to 0000000000000002000000000000000000000000"
    );
    assert!(update_heads(&Vec::new()).unwrap().is_empty());
}

#[test]
fn heads_do_not_move_twice_or_under_bad_names() {
    let error =
        update_heads(&vec![update(Branch::Manifest, 1), update(Branch::Manifest, 2)]).unwrap_err();
    assert!(matches!(error, UpdateError::DuplicateUpdate(_)));
    assert_eq!(error.message(), "Duplicate branch update for 'manifest'");
    let error = update_heads(&vec![update(Branch::topic("a b"), 1)]).unwrap_err();
    assert!(matches!(error, UpdateError::InvalidBranchName(_)));
    assert_eq!(error.message(), "Invalid branch name 'topic/a b'");
}

#[test]
fn topic_commit_deduplicates_identical_parents() {
    let head = id(7);
    assert_eq!(topic_commit_parents(Some(head), Some(head)), [head]);
}

#[test]
fn topic_commits_have_both_heads_as_parents() {
    assert_eq!(topic_commit_parents(Some(id(1)), Some(id(2))), [id(1), id(2)]);
    assert_eq!(topic_commit_parents(None, Some(id(2))), [id(2)]);
    assert!(topic_commit_parents(None, None).is_empty());
}

#[test]
fn remotes_validate_names_before_passing_them_to_git() {
    let error = Remote::validate_name("-v").unwrap_err();
    assert!(error.message().contains("names cannot start with '-'"));
    assert!(matches!(remove_command("-v"), Err(RemoteError::LeadingDash(_))));
}

#[test]
fn remotes_need_a_name_and_a_url() {
    let remote = Remote::new("origin", "git@example.org:dots").unwrap();
    assert_eq!(remote.name(), "origin");
    assert_eq!(remote.url(), "git@example.org:dots");
    assert_eq!(remote.clone().url(), remote.url());
    let error = Remote::new("a b", "url").unwrap_err();
    assert!(matches!(error, RemoteError::InvalidName(_)));
    assert_eq!(error.message(), "Invalid remote name 'a b'");
    let error = Remote::new("origin", "").unwrap_err();
    assert!(matches!(error, RemoteError::EmptyUrl));
    assert_eq!(error.message(), "Remote URL cannot be empty");
}

#[test]
fn remote_listings_are_read_in_order() {
    assert_eq!(remote_names("origin\n\nbackup\r\n"), ["backup", "origin"]);
    assert_eq!(remote_url("https://example.org/x\r\n"), "https://example.org/x");
}

#[test]
fn git_gets_these_arguments() {
    let remote = Remote::new("origin", "url").unwrap();
    assert_eq!(list_command().args, ["remote"]);
    let command = url_command("origin");
    assert_eq!(command.args, ["remote", "get-url", "origin"]);
    assert_eq!(command.operation, "remote URL lookup for 'origin'");
    assert_eq!(add_command(&remote).args, ["remote", "add", "--no-tags", "origin", "url"]);
    assert_eq!(remove_command("origin").unwrap().args, ["remote", "remove", "origin"]);
    assert_eq!(
        ls_remote_command(&remote).args,
        ["ls-remote", "--heads", "origin", "refs/heads/manifest"]
    );
    assert_eq!(
        fetch_command(&remote, true).args,
        [
            "fetch",
            "--no-tags",
            "--prune",
            "origin",
            "+refs/heads/manifest:refs/remotes/origin/manifest",
            "+refs/heads/topic/*:refs/remotes/origin/topic/*"
        ]
    );
    assert_eq!(fetch_command(&remote, false).args.len(), 5);
    assert!(prune_command(&remote, true).is_none());
    assert_eq!(
        prune_command(&remote, false).unwrap().args,
        ["update-ref", "-d", "refs/remotes/origin/manifest"]
    );
    assert_eq!(
        remote_head_ref(&remote, &Branch::Manifest).unwrap(),
        "refs/remotes/origin/manifest"
    );
    assert!(matches!(
        remote_head_ref(&remote, &Branch::topic("a b")),
        Err(RemoteError::InvalidBranch(_))
    ));
}

fn pushed(name: &str, has_head: bool) -> PushTopic {
    PushTopic { name: name.to_owned(), has_head }
}

#[test]
fn pushes_take_topics_with_heads_once() {
    let remote = Remote::new("origin", "url").unwrap();
    let topics = vec![pushed("b", true), pushed("none", false), pushed("a", true), pushed("b", true)];
    assert_eq!(
        push_command(&remote, &topics).unwrap().args,
        [
            "push",
            "--atomic",
            "origin",
            "refs/heads/manifest:refs/heads/manifest",
            "refs/heads/topic/b:refs/heads/topic/b",
            "refs/heads/topic/a:refs/heads/topic/a"
        ]
    );
    let error = push_command(&remote, &vec![pushed("a b", true)]).unwrap_err();
    assert!(matches!(error, RemoteError::InvalidTopicName(_)));
    assert_eq!(error.message(), "Invalid topic name 'a b'");
    assert!(check_topic_name("a/b").is_ok());
    assert!(check_topic_name("a..b").is_err());
}

#[test]
fn failures_of_git_are_worded() {
    assert_eq!(git_failure("push", " rejected\n", "exit 1"), "git push failed: rejected");
    assert_eq!(git_failure("push", " \n", "exit 1"), "git push failed with status exit 1");
}

fn fetched(name: &str, target: Option<ObjectId>) -> FetchedRef {
    FetchedRef { name: Ok(name.to_owned()), target }
}

#[test]
fn clones_take_shared_branches_only() {
    let heads = bootstrap_heads(&vec![
        fetched("refs/remotes/origin/manifest", Some(id(1))),
        fetched("refs/remotes/origin/system/host/a", Some(id(2))),
        fetched("refs/remotes/origin/HEAD", None),
        fetched("refs/remotes/origin/topic/a", Some(id(3))),
    ])
    .unwrap();
    let names: Vec<String> = heads.iter().map(|head| head.branch.ref_name()).collect();
    assert_eq!(names, ["refs/heads/manifest", "refs/heads/topic/a"]);
    assert_eq!(heads[1].head, id(3));
}

#[test]
fn clones_refuse_odd_refs() {
    let error = bootstrap_heads(&vec![fetched("refs/heads/x", Some(id(1)))]).unwrap_err();
    assert!(matches!(error, CloneError::OutsideOrigin));
    assert_eq!(error.message(), "Fetched reference is outside the origin namespace");
    let error = bootstrap_heads(&vec![fetched("refs/remotes/origin/manifest", None)]).unwrap_err();
    assert!(matches!(error, CloneError::NoObject));
    assert_eq!(error.message(), "Fetched reference does not point to an object id");
    let unreadable = FetchedRef { name: Err("bad".to_owned()), target: None };
    let error = bootstrap_heads(&vec![unreadable]).unwrap_err();
    assert!(matches!(error, CloneError::UnreadableName(_)));
    assert_eq!(error.message(), "bad");
}

#[test]
fn test_clone_from_fails_when_dest_exists() {
    let (stage, action) = clone_step(CloneStage::Checking, CloneEvent::Exists(true));
    assert!(matches!((stage, action), (CloneStage::Ended, CloneAction::Refuse)));
    assert_eq!(
        already_exists_message("/x"),
        "Porchetta store already exists at /x\nRemove it first or run `porchetta init` if this is a new machine."
    );
}

#[test]
fn clones_go_through_all_steps() {
    let mut stage = CloneStage::Checking;
    let refs = vec![fetched("refs/remotes/origin/manifest", Some(id(1)))];
    let events = vec![
        CloneEvent::Exists(false),
        CloneEvent::Done,
        CloneEvent::Done,
        CloneEvent::Done,
        CloneEvent::Done,
        CloneEvent::Refs(refs),
        CloneEvent::Done,
    ];
    let mut seen = Vec::new();
    for event in events {
        let (next, action) = clone_step(stage, event);
        stage = next;
        seen.push(action);
    }
    assert_eq!(stage, CloneStage::Ended);
    assert!(matches!(
        seen.as_slice(),
        [
            CloneAction::Lock,
            CloneAction::Init,
            CloneAction::AddOrigin,
            CloneAction::Fetch,
            CloneAction::ListRefs,
            CloneAction::UpdateHeads(_),
            CloneAction::Finish
        ]
    ));
}

#[test]
fn clones_that_fail_clean_up() {
    for stage in [
        CloneStage::Initializing,
        CloneStage::AddingOrigin,
        CloneStage::Fetching,
        CloneStage::Listing,
        CloneStage::Updating,
    ] {
        let (next, action) = clone_step(stage, CloneEvent::Failed);
        assert_eq!(next, CloneStage::CleaningUp);
        assert!(matches!(action, CloneAction::RemoveDestination(None)));
    }
    let (next, action) = clone_step(
        CloneStage::Listing,
        CloneEvent::Refs(vec![fetched("refs/remotes/origin/manifest", None)]),
    );
    assert_eq!(next, CloneStage::CleaningUp);
    assert!(matches!(action, CloneAction::RemoveDestination(Some(CloneError::NoObject))));
    let (next, action) = clone_step(CloneStage::CleaningUp, CloneEvent::Failed);
    assert!(matches!((next, action), (CloneStage::Ended, CloneAction::ReportCleanup)));
    assert_eq!(
        cleanup_message("/x"),
        "Failed to clean up incomplete clone destination '/x'"
    );
}

#[test]
fn stores_keep_things_in_their_places() {
    assert_eq!(manifest_file(), "manifest.lua");
    assert_eq!(initial_manifest(), b"return { topics = {} }\n");
    assert_eq!(manifest_message(), "Update manifest");
    assert_eq!(topic_message("a"), "Sync topic 'a'");
    assert_eq!(reconcile_message("topic/a"), "Reconcile topic/a");
    assert_eq!(manifest_parents(Some(id(1))), [id(1)]);
    assert!(manifest_parents(None).is_empty());
    assert_eq!(lock_path("/home/u/.porchetta"), "/home/u/.porchetta.lock");
    assert_eq!(lock_directory(Some("/home/u")), "/home/u");
    assert_eq!(lock_directory(Some("")), ".");
    assert_eq!(lock_directory(None), ".");
    assert_eq!(in_use_message("/s"), "Porchetta store is already in use: /s");
}

#[test]
fn objects_are_named_in_hexadecimal() {
    let name = ObjectId { hi: 0x0123456789abcdef, mid: 1, lo: 0xfffffffe };
    assert_eq!(name.hex(), "0123456789abcdef0000000000000001fffffffe");
}
