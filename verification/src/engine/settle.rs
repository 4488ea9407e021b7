//! What a synchronization leaves behind: the files that it wrote are captured as what they were
//! written from, so that the next one finds nothing to do.

use vstd::prelude::*;

use crate::engine::capture::normalized;
use crate::engine::diff::{
    are_differences, mentions, operation_of, operations_of, path_of, tells, DiffChange,
    OperationView,
};
use crate::engine::status::{law_second_sync_changes_nothing, planned, Reconciled};
use crate::hooks::HookError;
use crate::manifest::{is_repo_content, is_system_content, Topic};
use crate::object::ObjectId;

verus! {

/// Files by their paths, as they are on the system.
pub type Files = Map<Seq<char>, Seq<u8>>;

/// The files of a tree by their paths, as the names of their content.
pub type Tree = Map<Seq<char>, ObjectId>;

/// The content of each blob.
pub type Contents = spec_fn(ObjectId) -> Seq<u8>;

/// Whether a file with this content can be stored as `stored`.
pub open spec fn is_stored_as(
    topic: Topic,
    path: Seq<char>,
    content: Seq<u8>,
    stored: Seq<u8>,
) -> bool {
    exists|rewritten: Vec<u8>| #[trigger]
        is_repo_content(topic, path, content, Ok::<Vec<u8>, HookError>(rewritten)) && stored
            == normalized(rewritten@)
}

/// Whether what is stored can be written to the system as `content`.
pub open spec fn is_written_as(
    topic: Topic,
    path: Seq<char>,
    stored: Seq<u8>,
    content: Seq<u8>,
) -> bool {
    exists|rewritten: Vec<u8>| #[trigger]
        is_system_content(topic, path, stored, Ok::<Vec<u8>, HookError>(rewritten)) && content
            == rewritten@
}

/// Whether `tree` is captured from the files at the paths that are `taken`.
pub open spec fn is_capture_of(
    topic: Topic,
    contents: Contents,
    taken: Set<Seq<char>>,
    files: Files,
    tree: Tree,
) -> bool {
    &&& forall|path: Seq<char>| #[trigger]
        tree.dom().contains(path) <==> files.dom().contains(path) && taken.contains(path)
    &&& forall|path: Seq<char>| #[trigger]
        tree.dom().contains(path) ==> is_stored_as(topic, path, files[path], contents(tree[path]))
}

/// Whether each operation that writes a file writes it as in `written`.
pub open spec fn are_written(
    topic: Topic,
    contents: Contents,
    operations: Seq<OperationView>,
    written: Seq<Seq<u8>>,
) -> bool {
    forall|i: int|
        0 <= i < operations.len() ==> match #[trigger] operations[i] {
            OperationView::Upsert { path, blob } => is_written_as(
                topic,
                path,
                contents(blob),
                written[i],
            ),
            OperationView::Delete { path } => true,
        }
}

/// The files once the operations are carried out, where each file is written as in `written`.
pub open spec fn files_after(
    files: Files,
    operations: Seq<OperationView>,
    written: Seq<Seq<u8>>,
) -> Files
    decreases operations.len(),
{
    if operations.len() == 0 {
        files
    } else {
        let before = files_after(files, operations.drop_last(), written);
        match operations.last() {
            OperationView::Upsert { path, blob } => before.insert(
                path,
                written[operations.len() - 1],
            ),
            OperationView::Delete { path } => before.remove(path),
        }
    }
}

/// Whether a topic that is loaded again stores a file with some content in the same way.
pub open spec fn stores_steadily(topic: Topic, later: Topic) -> bool {
    forall|path: Seq<char>, content: Seq<u8>, a: Seq<u8>, b: Seq<u8>|
        #![trigger is_stored_as(topic, path, content, a), is_stored_as(later, path, content, b)]
        is_stored_as(topic, path, content, a) && is_stored_as(later, path, content, b) ==> a == b
}

/// Whether `to_repo` of a topic that is loaded again undoes `to_system` on the files of a tree.
pub open spec fn undoes(topic: Topic, later: Topic, contents: Contents, tree: Tree) -> bool {
    forall|path: Seq<char>, content: Seq<u8>, stored: Seq<u8>|
        #![trigger tree.dom().contains(path), is_stored_as(later, path, content, stored)]
        tree.dom().contains(path) && is_written_as(topic, path, contents(tree[path]), content)
            && is_stored_as(later, path, content, stored) ==> stored == contents(tree[path])
}

/// Whether blobs with the same content have the same name.
pub open spec fn named_by_content(contents: Contents) -> bool {
    forall|a: ObjectId, b: ObjectId| #[trigger]
        contents(a) == #[trigger] contents(b) ==> a == b
}

proof fn lemma_files_after(
    topic: Topic,
    contents: Contents,
    changes: Seq<DiffChange>,
    files: Files,
    written: Seq<Seq<u8>>,
    merged: Tree,
    path: Seq<char>,
)
    requires
        forall|i: int| 0 <= i < changes.len() ==> tells(#[trigger] changes[i], merged),
        are_written(topic, contents, operations_of(changes), written),
    ensures
        ({
            let after = files_after(files, operations_of(changes), written);
            if mentions(changes, path) {
                after.dom().contains(path) == merged.dom().contains(path) && (after.dom().contains(
                    path,
                ) ==> is_written_as(topic, path, contents(merged[path]), after[path]))
            } else {
                after.dom().contains(path) == files.dom().contains(path) && (after.dom().contains(
                    path,
                ) ==> after[path] == files[path])
            }
        }),
    decreases changes.len(),
{
    if changes.len() > 0 {
        let rest = changes.drop_last();
        let last = changes.last();
        let ops = operations_of(changes);
        let fewer = operations_of(rest);
        assert forall|i: int| 0 <= i < rest.len() implies tells(#[trigger] rest[i], merged) by {
            assert(rest[i] == changes[i]);
        }
        assert forall|i: int| 0 <= i < fewer.len() implies match #[trigger] fewer[i] {
            OperationView::Upsert { path, blob } => is_written_as(
                topic,
                path,
                contents(blob),
                written[i],
            ),
            OperationView::Delete { path } => true,
        } by {
            assert(fewer[i] == ops[i]);
        }
        lemma_files_after(topic, contents, rest, files, written, merged, path);
        if operation_of(last) is Some {
            assert(ops.drop_last() =~= fewer);
            assert(tells(changes[changes.len() - 1], merged));
            assert(ops[ops.len() - 1] == operation_of(last)->0);
        }
        if mentions(rest, path) {
            let i = choose|i: int| 0 <= i < rest.len() && path_of(#[trigger] rest[i]) == Some(path);
            assert(path_of(changes[i]) == Some(path));
        }
        if path_of(last) == Some(path) {
            assert(path_of(changes[changes.len() - 1]) == Some(path));
        }
        if mentions(changes, path) && path_of(last) != Some(path) {
            let i = choose|i: int|
                0 <= i < changes.len() && path_of(#[trigger] changes[i]) == Some(path);
            assert(path_of(rest[i]) == Some(path));
        }
    }
}

// ----------------------------------------------------------------------------
// Laws
// ----------------------------------------------------------------------------

/// What was applied is captured again: where the files of a topic were captured as `ours`, and the
/// differences to the merged tree were carried out on them, capturing them once more gives the
/// merged tree. For this `to_repo` has to undo `to_system` and to give the same for the same, and
/// each path of the merged tree has to be one that the topic takes. `later` is the topic as it is
/// loaded for the second capture.
pub proof fn law_applied_tree_is_captured_again(
    topic: Topic,
    later: Topic,
    contents: Contents,
    taken: Set<Seq<char>>,
    files: Files,
    ours: Tree,
    merged: Tree,
    changes: Seq<DiffChange>,
    written: Seq<Seq<u8>>,
    again: Tree,
)
    requires
        named_by_content(contents),
        stores_steadily(topic, later),
        undoes(topic, later, contents, merged),
        merged.dom().subset_of(taken),
        is_capture_of(topic, contents, taken, files, ours),
        are_differences(changes, ours, merged),
        are_written(topic, contents, operations_of(changes), written),
        is_capture_of(
            later,
            contents,
            taken,
            files_after(files, operations_of(changes), written),
            again,
        ),
    ensures
        again == merged,
{
    let after = files_after(files, operations_of(changes), written);
    assert forall|path: Seq<char>|
        again.dom().contains(path) == #[trigger] merged.dom().contains(path) && (
        merged.dom().contains(path) ==> again[path] == merged[path]) by {
        lemma_files_after(topic, contents, changes, files, written, merged, path);
        if merged.dom().contains(path) {
            assert(taken.contains(path));
        }
        assert(ours.dom().contains(path) <==> files.dom().contains(path) && taken.contains(path));
        assert(again.dom().contains(path) <==> after.dom().contains(path) && taken.contains(path));
        if again.dom().contains(path) {
            assert(is_stored_as(later, path, after[path], contents(again[path])));
            if !mentions(changes, path) {
                assert(is_stored_as(topic, path, files[path], contents(ours[path])));
            }
            assert(contents(again[path]) == contents(merged[path]));
        }
    }
    assert(again =~= merged);
}

/// A second synchronization changes nothing: once a topic was merged and applied, its files are
/// captured as the merged tree, which is also what the repository has and what this host had
/// last, so that nothing is committed and nothing is written.
pub proof fn law_next_sync_finds_nothing_to_do(
    topic: Topic,
    later: Topic,
    contents: Contents,
    taken: Set<Seq<char>>,
    files: Files,
    ours: Tree,
    merged: Tree,
    changes: Seq<DiffChange>,
    written: Seq<Seq<u8>>,
    again: Tree,
    name: spec_fn(Tree) -> ObjectId,
    dry_run: bool,
    head: ObjectId,
)
    requires
        named_by_content(contents),
        stores_steadily(topic, later),
        undoes(topic, later, contents, merged),
        merged.dom().subset_of(taken),
        is_capture_of(topic, contents, taken, files, ours),
        are_differences(changes, ours, merged),
        are_written(topic, contents, operations_of(changes), written),
        is_capture_of(
            later,
            contents,
            taken,
            files_after(files, operations_of(changes), written),
            again,
        ),
    ensures
        ({
            let plan = planned(
                dry_run,
                Reconciled::Head(head),
                name(again),
                name(merged),
                name(merged),
            );
            plan.status is Unchanged && !plan.commit && !plan.apply && !plan.show_commit
                && !plan.show_apply
        }),
{
    law_applied_tree_is_captured_again(
        topic,
        later,
        contents,
        taken,
        files,
        ours,
        merged,
        changes,
        written,
        again,
    );
    law_second_sync_changes_nothing(dry_run, head, name(merged));
}

/// A topic without hooks stores steadily, and what it writes it stores again as it was, where the
/// content of the tree has plain line ends.
pub proof fn law_topics_without_hooks_settle(
    topic: Topic,
    later: Topic,
    contents: Contents,
    tree: Tree,
)
    requires
        topic.to_repo is None,
        topic.to_system is None,
        later.to_repo is None,
        forall|path: Seq<char>| #[trigger]
            tree.dom().contains(path) ==> normalized(contents(tree[path])) == contents(tree[path]),
    ensures
        stores_steadily(topic, later),
        undoes(topic, later, contents, tree),
{
}

} // verus!
