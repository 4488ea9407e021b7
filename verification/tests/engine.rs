use std::cell::RefCell;

use porchetta::engine::apply::{validate_operations, ApplyError, PathFacts};
use porchetta::engine::capture::normalize_line_endings;
use porchetta::engine::diff::{collect_apply_operations, ApplyOperation, DiffChange, DiffError};
use porchetta::engine::merge::{
    commit_labels, conflict_line, conflict_location_description, decide, describe_change,
    edit_conflict, edited_entry, entry_kind_for_shared_location, is_ancestor,
    is_blob_level_conflict, resolve_tree_level_conflict, tree_conflict_prompt, tree_labels, Change,
    Conflict, MergeError, TreeEdit,
};
use porchetta::engine::path_util::{diff_location_to_path, to_tree_path};
use porchetta::engine::report::{
    conflict_hint, operation_lines, publish_failure_line, published_line, reconcile_conflict_line,
    repo_line, system_line, topic_line,
};
use porchetta::engine::resolver::{
    chosen_kind, chosen_resolution, list_kind_choices, list_tree_choices, ConflictResolver,
    ResolverError, TreeConflictResolution,
};
use porchetta::engine::status::{
    on_merge, plan_topic, topic_sync_status, ConflictStep, Reconciled, SyncSummary,
    SyncTopicStatus,
};
use porchetta::object::{EntryKind, ObjectId};
use porchetta::ui::{color_status, Colour};
use porchetta::util::{editor_fallbacks, get_editor};

fn id(n: u64) -> ObjectId {
    ObjectId { hi: n, mid: 0, lo: 0 }
}

fn bytes(text: &str) -> Vec<u8> {
    text.as_bytes().to_vec()
}

struct FixedResolver {
    resolution: Option<TreeConflictResolution>,
    kind: EntryKind,
    seen: RefCell<Vec<String>>,
}

impl FixedResolver {
    fn new(resolution: Option<TreeConflictResolution>) -> Self {
        Self { resolution, kind: EntryKind::Link, seen: RefCell::new(Vec::new()) }
    }
}

impl ConflictResolver for FixedResolver {
    fn resolve_tree_conflict(&self, prompt: &str) -> Result<TreeConflictResolution, ResolverError> {
        self.seen.borrow_mut().push(prompt.to_owned());
        self.resolution.ok_or(ResolverError { message: "cancelled".to_owned() })
    }

    fn choose_entry_kind(
        &self,
        prompt: &str,
        _ours: EntryKind,
        _theirs: EntryKind,
    ) -> Result<EntryKind, ResolverError> {
        self.seen.borrow_mut().push(prompt.to_owned());
        Ok(self.kind)
    }

    fn edit_blob(&self, content: &[u8], path: &str) -> Result<Vec<u8>, ResolverError> {
        self.seen.borrow_mut().push(path.to_owned());
        if content.is_empty() {
            return Err(ResolverError { message: "closed".to_owned() });
        }
        Ok(content.to_ascii_uppercase())
    }
}

fn modification(location: &str, kind: EntryKind, n: u64) -> Change {
    Change::Modification { location: bytes(location), previous_kind: EntryKind::Blob, kind, id: id(n) }
}

fn deletion(location: &str) -> Change {
    Change::Deletion { location: bytes(location), kind: EntryKind::Blob }
}

fn modify_delete() -> Conflict {
    Conflict {
        ours: modification("config.txt", EntryKind::Blob, 1),
        theirs: deletion("config.txt"),
        merged_blob: None,
        resolution: Err("OursModifiedTheirsDeleted".to_owned()),
    }
}

fn edits(list: &[TreeEdit]) -> Vec<String> {
    list.iter()
        .map(|edit| match edit {
            TreeEdit::Upsert { location, kind, id } => {
                format!("{} {:?} {}", String::from_utf8_lossy(location), kind, id.hi)
            }
            TreeEdit::Remove { location } => format!("-{}", String::from_utf8_lossy(location)),
        })
        .collect()
}

#[test]
fn test_modify_delete_tree_conflict_keep_local_modification() {
    let resolver = FixedResolver::new(Some(TreeConflictResolution::KeepOurs));
    let list = resolve_tree_level_conflict(&resolver, &modify_delete()).unwrap();
    assert_eq!(edits(&list), ["config.txt Blob 1"]);
    let prompt = resolver.seen.borrow()[0].clone();
    assert!(prompt.contains("Resolve tree conflict at 'config.txt'"));
    assert!(prompt.contains("modify 'config.txt'"));
    assert!(prompt.contains("delete Blob at 'config.txt'"));
}

#[test]
fn test_modify_delete_tree_conflict_keep_remote_deletion() {
    let resolver = FixedResolver::new(Some(TreeConflictResolution::KeepTheirs));
    let list = resolve_tree_level_conflict(&resolver, &modify_delete()).unwrap();
    assert_eq!(edits(&list), ["-config.txt", "-config.txt"]);
    let prompt = resolver.seen.borrow()[0].clone();
    assert!(prompt.contains("Resolve tree conflict at 'config.txt'"));
    assert!(prompt.contains("modify 'config.txt'"));
    assert!(prompt.contains("delete Blob at 'config.txt'"));
}

#[test]
fn test_tree_conflict_abort_returns_error() {
    let resolver = FixedResolver::new(Some(TreeConflictResolution::Abort));
    let error = resolve_tree_level_conflict(&resolver, &modify_delete()).unwrap_err();
    assert!(matches!(error, MergeError::Aborted));
    assert_eq!(error.message(), "Sync aborted by user while resolving conflict");
    let resolver = FixedResolver::new(None);
    let error = resolve_tree_level_conflict(&resolver, &modify_delete()).unwrap_err();
    assert!(matches!(error, MergeError::Undecided(_)));
    assert_eq!(error.message(), "cancelled");
}

#[test]
fn prompts_tell_all() {
    let mut conflict = modify_delete();
    assert_eq!(
        tree_conflict_prompt(&conflict),
        "Resolve tree conflict at 'config.txt'\n\n\
         Unresolved reason: OursModifiedTheirsDeleted\n\n\
         Our change: modify 'config.txt' (Blob -> Blob)\n\
         Their change: delete Blob at 'config.txt'\n\n\
         Choose which side to keep:"
    );
    conflict.resolution = Ok("Forced".to_owned());
    conflict.merged_blob = Some(id(9));
    let prompt = tree_conflict_prompt(&conflict);
    assert!(prompt.contains("\n\nResolution: Forced\n\n"));
    assert!(prompt.contains(
        "\n\nA merged blob exists, but this conflict still needs a structural decision.\n\n"
    ));
}

#[test]
fn changes_are_described() {
    let addition = Change::Addition { location: bytes("a"), kind: EntryKind::Link, id: id(1) };
    assert_eq!(describe_change(&addition), "add Link at 'a'");
    let rename = |copy: bool| Change::Rewrite {
        source_location: bytes("a"),
        location: bytes("b"),
        source_kind: EntryKind::Blob,
        kind: EntryKind::BlobExecutable,
        id: id(1),
        copy,
    };
    assert_eq!(describe_change(&rename(false)), "rename Blob 'a' -> 'b' (Blob -> BlobExecutable)");
    assert_eq!(describe_change(&rename(true)), "copy Blob 'a' -> 'b' (Blob -> BlobExecutable)");
    assert_eq!(describe_change(&deletion("\u{e4}")), "delete Blob at '\u{e4}'");
    let odd = Change::Deletion { location: vec![b'a', 0xff], kind: EntryKind::Tree };
    assert_eq!(describe_change(&odd), "delete Tree at 'a\u{fffd}'");
}

#[test]
fn renames_are_kept_whole() {
    let rename = |copy: bool| Conflict {
        ours: Change::Rewrite {
            source_location: bytes("a"),
            location: bytes("b"),
            source_kind: EntryKind::Blob,
            kind: EntryKind::Blob,
            id: id(5),
            copy,
        },
        theirs: modification("a", EntryKind::Blob, 2),
        merged_blob: None,
        resolution: Err("x".to_owned()),
    };
    let list = decide(&rename(false), TreeConflictResolution::KeepOurs).unwrap();
    assert_eq!(edits(&list), ["-a", "-a", "b Blob 5"]);
    let list = decide(&rename(true), TreeConflictResolution::KeepOurs).unwrap();
    assert_eq!(edits(&list), ["-a", "b Blob 5"]);
    let list = decide(&rename(false), TreeConflictResolution::KeepTheirs).unwrap();
    assert_eq!(edits(&list), ["-b", "a Blob 2"]);
    assert_eq!(
        conflict_location_description(&rename(false).ours, &rename(false).theirs),
        "ours='b', theirs='a'"
    );
    assert_eq!(
        conflict_line(&modify_delete()),
        "  'config.txt' changed both locally and in repo"
    );
}

#[test]
fn blobs_conflict_at_one_place() {
    let mut conflict = Conflict {
        ours: modification("subdir/config.lua", EntryKind::Blob, 1),
        theirs: modification("subdir/config.lua", EntryKind::BlobExecutable, 2),
        merged_blob: Some(id(3)),
        resolution: Err("x".to_owned()),
    };
    assert!(is_blob_level_conflict(&conflict));
    conflict.merged_blob = None;
    assert!(!is_blob_level_conflict(&conflict));
    conflict.merged_blob = Some(id(3));
    conflict.theirs = modification("subdir/config.lua", EntryKind::Tree, 2);
    assert!(!is_blob_level_conflict(&conflict));
    conflict.theirs = modification("other", EntryKind::Blob, 2);
    assert!(!is_blob_level_conflict(&conflict));
}

#[test]
fn test_blob_conflict_passes_path_to_resolver() {
    let resolver = FixedResolver::new(None);
    let conflict = Conflict {
        ours: modification("subdir/config.lua", EntryKind::Blob, 1),
        theirs: modification("subdir/config.lua", EntryKind::Blob, 2),
        merged_blob: Some(id(3)),
        resolution: Err("x".to_owned()),
    };
    assert_eq!(edit_conflict(&resolver, &conflict, b"value").unwrap(), b"VALUE");
    assert_eq!(resolver.seen.borrow()[0], "subdir/config.lua");
    let error = edit_conflict(&resolver, &conflict, b"").unwrap_err();
    assert!(matches!(error, MergeError::NotEdited(_)));
    assert_eq!(error.message(), "Failed to edit blob for conflict resolution");
    assert_eq!(entry_kind_for_shared_location(&resolver, &conflict).unwrap(), EntryKind::Blob);
    assert_eq!(resolver.seen.borrow().len(), 2);
    assert_eq!(
        edits(&[edited_entry(&conflict, EntryKind::Blob, id(4))]),
        ["subdir/config.lua Blob 4"]
    );
}

#[test]
fn kinds_that_differ_are_chosen() {
    let resolver = FixedResolver::new(None);
    let conflict = Conflict {
        ours: modification("a", EntryKind::Blob, 1),
        theirs: modification("a", EntryKind::BlobExecutable, 2),
        merged_blob: Some(id(3)),
        resolution: Err("x".to_owned()),
    };
    assert_eq!(entry_kind_for_shared_location(&resolver, &conflict).unwrap(), EntryKind::Link);
    assert_eq!(resolver.seen.borrow().len(), 1);
}

#[test]
fn choices_have_their_meaning() {
    let choices = list_tree_choices();
    assert_eq!(choices, ["Keep local (ours)", "Keep remote (theirs)", "Abort sync"]);
    assert_eq!(chosen_resolution(&choices[0]).unwrap(), TreeConflictResolution::KeepOurs);
    assert_eq!(chosen_resolution(&choices[1]).unwrap(), TreeConflictResolution::KeepTheirs);
    assert_eq!(chosen_resolution(&choices[2]).unwrap(), TreeConflictResolution::Abort);
    let error = chosen_resolution("other").unwrap_err();
    assert_eq!(error.message, "Invalid conflict resolution choice");
    let kinds = list_kind_choices(EntryKind::Blob, EntryKind::Link);
    assert_eq!(kinds, ["Local (Blob)", "Remote (Link)"]);
    assert_eq!(chosen_kind(&kinds[0], EntryKind::Blob, EntryKind::Link), EntryKind::Blob);
    assert_eq!(chosen_kind(&kinds[1], EntryKind::Blob, EntryKind::Link), EntryKind::Link);
}

#[test]
fn sides_are_labelled() {
    let labels = tree_labels("topic");
    assert_eq!(labels.ancestor.as_deref(), Some("topic (last applied)"));
    assert_eq!(labels.current, "topic (on system)");
    assert_eq!(labels.other, "topic (in repo)");
    let labels = commit_labels("manifest");
    assert!(labels.ancestor.is_none());
    assert_eq!(labels.current, "manifest (local)");
    assert_eq!(labels.other, "manifest (remote)");
}

#[test]
fn ancestors_are_their_own_merge_base() {
    assert!(is_ancestor(id(1), Some(id(1))));
    assert!(!is_ancestor(id(1), Some(id(2))));
    assert!(!is_ancestor(id(1), None));
}

fn addition(location: &str, kind: EntryKind, n: u64) -> DiffChange {
    DiffChange::Addition { location: bytes(location), kind, id: id(n) }
}

#[test]
fn differences_become_operations() {
    let changes = vec![
        addition("dir", EntryKind::Tree, 1),
        addition("dir/a", EntryKind::Blob, 2),
        DiffChange::Modification { location: bytes("b"), kind: EntryKind::Blob, id: id(3) },
        DiffChange::Deletion { location: bytes("c"), kind: EntryKind::Blob },
        DiffChange::Deletion { location: bytes("old"), kind: EntryKind::Tree },
    ];
    let operations = collect_apply_operations(&changes).unwrap();
    let texts: Vec<String> = operations.iter().map(|operation| operation.text()).collect();
    assert_eq!(texts, ["upsert dir/a", "upsert b", "delete c"]);
    assert!(
        matches!(&operations[0], ApplyOperation::Upsert { blob_oid, .. } if *blob_oid == id(2))
    );
    assert_eq!(
        operation_lines(&operations),
        ["    upsert dir/a", "    upsert b", "    delete c"]
    );
}

#[test]
fn differences_that_cannot_be_made_are_refused() {
    let error = collect_apply_operations(&vec![DiffChange::Rewrite]).unwrap_err();
    assert!(matches!(error, DiffError::Rewrite));
    assert_eq!(
        error.message(),
        "Rewrite operation encountered despite rewrite tracking being disabled"
    );
    let odd = DiffChange::Deletion { location: vec![b'a', 0xff], kind: EntryKind::Blob };
    let error = collect_apply_operations(&vec![odd]).unwrap_err();
    assert!(matches!(error, DiffError::Location(_)));
    assert_eq!(error.message(), "Diff path 'a\u{fffd}' is not valid UTF-8");
    assert_eq!(diff_location_to_path(b"a/b").unwrap(), "a/b");
    assert!(diff_location_to_path(&[0xff]).is_err());
    assert_eq!(to_tree_path("a\\b/c"), "a/b/c");
}

fn facts(is_dir: bool, parent_is_file: bool) -> PathFacts {
    PathFacts {
        abs_path: "/base/p/x".to_owned(),
        is_dir,
        parent: Some("/base/p".to_owned()),
        parent_is_file,
    }
}

#[test]
fn operations_are_validated_against_what_is_there() {
    let upsert =
        || ApplyOperation::Upsert { relative_path: "p/x".to_owned(), blob_oid: id(1) };
    let delete = || ApplyOperation::Delete { relative_path: "p/x".to_owned() };
    assert!(validate_operations(
        "t",
        &vec![upsert(), delete()],
        &vec![facts(false, false), facts(false, true)]
    )
    .is_ok());
    let error =
        validate_operations("t", &vec![upsert()], &vec![facts(true, true)]).unwrap_err();
    assert!(matches!(error, ApplyError::WriteDirectory { .. }));
    assert_eq!(
        error.message(),
        "Topic 't' cannot write file '/base/p/x' because it is a directory"
    );
    let error =
        validate_operations("t", &vec![upsert()], &vec![facts(false, true)]).unwrap_err();
    assert!(matches!(error, ApplyError::ParentIsFile { .. }));
    assert_eq!(
        error.message(),
        "Topic 't' cannot create '/base/p/x' because parent '/base/p' is a file"
    );
    let error =
        validate_operations("t", &vec![delete()], &vec![facts(true, false)]).unwrap_err();
    assert!(matches!(error, ApplyError::DeleteDirectory { .. }));
    assert_eq!(
        error.message(),
        "Topic 't' cannot delete '/base/p/x' as a file because it is a directory"
    );
}

#[test]
fn line_ends_are_normalized_in_text() {
    assert_eq!(normalize_line_endings(bytes("a\r\nb\nc\r")), b"a\nb\nc\r");
    assert_eq!(normalize_line_endings(bytes("\r\r\n")), b"\r\n");
    assert_eq!(normalize_line_endings(vec![0xff, b'\r', b'\n']), [0xff, b'\r', b'\n']);
    let once = normalize_line_endings(bytes("a\r\nb"));
    assert_eq!(normalize_line_endings(once.clone()), once);
}

#[test]
fn statuses_tell_what_changes() {
    let status = |dry_run, repo, system| topic_sync_status(dry_run, repo, system).label();
    assert_eq!(status(true, true, true), "would capture and apply");
    assert_eq!(status(true, true, false), "would capture");
    assert_eq!(status(true, false, true), "would apply");
    assert_eq!(status(true, false, false), "unchanged");
    assert_eq!(status(false, true, true), "captured and applied");
    assert_eq!(status(false, true, false), "captured");
    assert_eq!(status(false, false, true), "applied");
    assert_eq!(status(false, false, false), "unchanged");
    assert_eq!(SyncTopicStatus::Conflict.label(), "conflict");
}

#[test]
fn topics_without_history_are_committed() {
    let plan = plan_topic(false, Reconciled::NoHistory, id(1), id(1), id(1));
    assert_eq!(plan.status, SyncTopicStatus::Captured);
    assert!(plan.commit && !plan.show_commit && !plan.apply && plan.mirror);
    let plan = plan_topic(true, Reconciled::Head(id(9)), id(1), id(2), id(3));
    assert_eq!(plan.status, SyncTopicStatus::WouldCaptureAndApply);
    assert!(!plan.commit && plan.show_commit && !plan.apply && plan.show_apply && !plan.mirror);
    let plan = plan_topic(false, Reconciled::Head(id(9)), id(1), id(2), id(2));
    assert_eq!(plan.status, SyncTopicStatus::Applied);
    assert!(!plan.commit && plan.apply && plan.mirror);
    assert_eq!(Reconciled::Head(id(9)).head(), Some(id(9)));
    assert_eq!(Reconciled::Conflict.head(), None);
}

#[test]
fn second_syncs_change_nothing() {
    for dry_run in [false, true] {
        let plan = plan_topic(dry_run, Reconciled::Head(id(9)), id(1), id(1), id(1));
        assert_eq!(plan.status, SyncTopicStatus::Unchanged);
        assert!(!plan.commit && !plan.apply && !plan.show_commit && !plan.show_apply);
    }
}

#[test]
fn conflicts_are_reported_or_resolved() {
    assert_eq!(on_merge(true, true), ConflictStep::Report);
    assert_eq!(on_merge(true, false), ConflictStep::Proceed);
    assert_eq!(on_merge(false, true), ConflictStep::Resolve);
}

#[test]
fn summaries_count() {
    let mut summary = SyncSummary::new();
    summary.record(SyncTopicStatus::Unchanged);
    summary.record(SyncTopicStatus::Captured);
    summary.record(SyncTopicStatus::WouldApply);
    summary.record(SyncTopicStatus::Conflict);
    assert_eq!(
        summary.text(),
        "Summary: 4 topic(s) checked, 1 clean, 2 changed, 1 conflict(s)"
    );
}

#[test]
fn reports_are_worded() {
    assert_eq!(topic_line("git"), "git — ");
    assert_eq!(
        repo_line(id(1)),
        "  repo: would update topic tree to 0000000000000001000000000000000000000000"
    );
    assert_eq!(system_line(12, "/home/u"), "  system: would apply 12 change(s) under /home/u");
    assert_eq!(reconcile_conflict_line("topic/a"), "Conflicts while reconciling topic/a");
    assert_eq!(conflict_hint(), "  run `porchetta sync` to resolve interactively");
    assert_eq!(published_line("origin"), "Published synchronized refs to 'origin'");
    assert_eq!(publish_failure_line("origin", "no"), "Failed to publish to 'origin': no");
}

#[test]
fn statuses_are_coloured() {
    let style = color_status("captured");
    assert!(style.colour == Colour::Blue && style.bold && !style.dimmed);
    assert!(color_status("unchanged").dimmed);
    assert_eq!(color_status("conflict").colour, Colour::Red);
    assert!(!color_status("would apply").bold);
    assert_eq!(color_status("anything").colour, Colour::Plain);
}

#[test]
fn test_get_editor_prefers_editor() {
    let editor = get_editor(Some("my-custom-editor".to_owned()), None, &Vec::new());
    assert_eq!(editor.unwrap(), "my-custom-editor");
}

#[test]
fn test_get_editor_falls_back_to_visual() {
    let editor = get_editor(None, Some("my-visual-editor".to_owned()), &Vec::new());
    assert_eq!(editor.unwrap(), "my-visual-editor");
}

#[test]
fn editors_are_looked_for_in_order() {
    assert_eq!(editor_fallbacks(), ["nvim", "nano", "vim", "vi"]);
    let available = vec!["vi".to_owned(), "nano".to_owned()];
    assert_eq!(get_editor(None, None, &available).unwrap(), "nano");
    let error = get_editor(None, None, &Vec::new()).unwrap_err();
    assert_eq!(
        error,
        "No suitable editor found. Please set the $EDITOR environment variable (e.g. export EDITOR=nvim)."
    );
}
