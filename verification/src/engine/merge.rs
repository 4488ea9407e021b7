//! Merge conflicts: how they are described, and what a decision about one does to the tree.

use vstd::prelude::*;

use crate::bytes::{copied_bytes, lossy, lossy_text, same_bytes};
use crate::engine::resolver::{ConflictResolver, ResolverError, TreeConflictResolution};
use crate::object::{EntryKind, ObjectId};
use crate::text::{lemma_occurs_between, occurs};

verus! {

// ----------------------------------------------------------------------------
// Labels
// ----------------------------------------------------------------------------

/// The names of the sides of a merge, as conflict markers show them.
#[derive(Debug)]
pub struct Labels {
    pub ancestor: Option<String>,
    pub current: String,
    pub other: String,
}

/// The labels of the merge of a topic's trees.
pub fn tree_labels(name: &str) -> (r: Labels)
    ensures
        r.ancestor is Some,
        r.ancestor->Some_0@ == name@ + " (last applied)"@,
        r.current@ == name@ + " (on system)"@,
        r.other@ == name@ + " (in repo)"@,
{
    Labels {
        ancestor: Some(name.to_owned().concat(" (last applied)")),
        current: name.to_owned().concat(" (on system)"),
        other: name.to_owned().concat(" (in repo)"),
    }
}

/// The labels of the merge of two commits of a branch.
pub fn commit_labels(name: &str) -> (r: Labels)
    ensures
        r.ancestor is None,
        r.current@ == name@ + " (local)"@,
        r.other@ == name@ + " (remote)"@,
{
    Labels {
        ancestor: None,
        current: name.to_owned().concat(" (local)"),
        other: name.to_owned().concat(" (remote)"),
    }
}

/// Whether a commit is contained in the history of another, by the best common ancestor of the
/// two, where they have one.
pub fn is_ancestor(ancestor: ObjectId, merge_base: Option<ObjectId>) -> (r: bool)
    ensures
        r == (merge_base == Some(ancestor)),
{
    match merge_base {
        Some(base) => base == ancestor,
        None => false,
    }
}

// ----------------------------------------------------------------------------
// Changes
// ----------------------------------------------------------------------------

/// What one side of a merge did to an entry. Locations are paths in the tree.
#[derive(Debug)]
pub enum Change {
    Addition { location: Vec<u8>, kind: EntryKind, id: ObjectId },
    Deletion { location: Vec<u8>, kind: EntryKind },
    Modification { location: Vec<u8>, previous_kind: EntryKind, kind: EntryKind, id: ObjectId },
    Rewrite {
        source_location: Vec<u8>,
        location: Vec<u8>,
        source_kind: EntryKind,
        kind: EntryKind,
        id: ObjectId,
        copy: bool,
    },
}

impl Change {
    /// Where the entry is after the change, or was before it was deleted.
    pub open spec fn spec_location(&self) -> Seq<u8> {
        match self {
            Change::Addition { location, .. } => location@,
            Change::Deletion { location, .. } => location@,
            Change::Modification { location, .. } => location@,
            Change::Rewrite { location, .. } => location@,
        }
    }

    /// What the entry is after the change, or was before it was deleted.
    pub open spec fn spec_kind(&self) -> EntryKind {
        match self {
            Change::Addition { kind, .. } => *kind,
            Change::Deletion { kind, .. } => *kind,
            Change::Modification { kind, .. } => *kind,
            Change::Rewrite { kind, .. } => *kind,
        }
    }

    /// Where the entry is after the change, or was before it was deleted.
    pub fn location(&self) -> (r: &Vec<u8>)
        ensures
            r@ == self.spec_location(),
    {
        match self {
            Change::Addition { location, kind: _, id: _ } => location,
            Change::Deletion { location, kind: _ } => location,
            Change::Modification { location, previous_kind: _, kind: _, id: _ } => location,
            Change::Rewrite {
                source_location: _,
                location,
                source_kind: _,
                kind: _,
                id: _,
                copy: _,
            } => location,
        }
    }

    /// What the entry is after the change, or was before it was deleted.
    pub fn kind(&self) -> (r: EntryKind)
        ensures
            r == self.spec_kind(),
    {
        match self {
            Change::Addition { location: _, kind, id: _ } => *kind,
            Change::Deletion { location: _, kind } => *kind,
            Change::Modification { location: _, previous_kind: _, kind, id: _ } => *kind,
            Change::Rewrite {
                source_location: _,
                location: _,
                source_kind: _,
                kind,
                id: _,
                copy: _,
            } => *kind,
        }
    }
}

/// A change in words.
pub open spec fn change_text(change: Change) -> Seq<char> {
    match change {
        Change::Addition { location, kind, id } => "add "@ + kind.label_text() + " at '"@
            + lossy_text(location@) + "'"@,
        Change::Deletion { location, kind } => "delete "@ + kind.label_text() + " at '"@
            + lossy_text(location@) + "'"@,
        Change::Modification { location, previous_kind, kind, id } => "modify '"@ + lossy_text(
            location@,
        ) + "' ("@ + previous_kind.label_text() + " -> "@ + kind.label_text() + ")"@,
        Change::Rewrite { source_location, location, source_kind, kind, id, copy } => (if copy {
            "copy"@
        } else {
            "rename"@
        }) + " "@ + source_kind.label_text() + " '"@ + lossy_text(source_location@) + "' -> '"@
            + lossy_text(location@) + "' ("@ + source_kind.label_text() + " -> "@
            + kind.label_text() + ")"@,
    }
}

/// Describes a change in words.
pub fn describe_change(change: &Change) -> (r: String)
    ensures
        r@ == change_text(*change),
{
    match change {
        Change::Addition { location, kind, id: _ } => {
            let mut out = "add ".to_owned();
            out.append(kind.label());
            out.append(" at '");
            out.append(lossy(location.as_slice()).as_str());
            out.append("'");
            out
        },
        Change::Deletion { location, kind } => {
            let mut out = "delete ".to_owned();
            out.append(kind.label());
            out.append(" at '");
            out.append(lossy(location.as_slice()).as_str());
            out.append("'");
            out
        },
        Change::Modification { location, previous_kind, kind, id: _ } => {
            let mut out = "modify '".to_owned();
            out.append(lossy(location.as_slice()).as_str());
            out.append("' (");
            out.append(previous_kind.label());
            out.append(" -> ");
            out.append(kind.label());
            out.append(")");
            out
        },
        Change::Rewrite { source_location, location, source_kind, kind, id: _, copy } => {
            let mut out = if *copy { "copy".to_owned() } else { "rename".to_owned() };
            out.append(" ");
            out.append(source_kind.label());
            out.append(" '");
            out.append(lossy(source_location.as_slice()).as_str());
            out.append("' -> '");
            out.append(lossy(location.as_slice()).as_str());
            out.append("' (");
            out.append(source_kind.label());
            out.append(" -> ");
            out.append(kind.label());
            out.append(")");
            out
        },
    }
}

// ----------------------------------------------------------------------------
// Conflicts
// ----------------------------------------------------------------------------

/// A conflict of a merge: what each side did, the merged content with conflict markers where
/// there is one, and what the merge says of it.
#[derive(Debug)]
pub struct Conflict {
    pub ours: Change,
    pub theirs: Change,
    pub merged_blob: Option<ObjectId>,
    pub resolution: Result<String, String>,
}

/// Where a conflict is, in words.
pub open spec fn location_text(ours: Change, theirs: Change) -> Seq<char> {
    if ours.spec_location() == theirs.spec_location() {
        "'"@ + lossy_text(ours.spec_location()) + "'"@
    } else {
        "ours='"@ + lossy_text(ours.spec_location()) + "', theirs='"@ + lossy_text(
            theirs.spec_location(),
        ) + "'"@
    }
}

/// Describes where a conflict is.
pub fn conflict_location_description(ours_change: &Change, theirs_change: &Change) -> (r: String)
    ensures
        r@ == location_text(*ours_change, *theirs_change),
{
    let ours = lossy(ours_change.location().as_slice());
    if same_bytes(ours_change.location(), theirs_change.location()) {
        "'".to_owned().concat(ours.as_str()).concat("'")
    } else {
        let theirs = lossy(theirs_change.location().as_slice());
        "ours='".to_owned().concat(ours.as_str()).concat("', theirs='").concat(
            theirs.as_str(),
        ).concat("'")
    }
}

/// What a summary of conflicts says of one.
pub fn conflict_line(conflict: &Conflict) -> (r: String)
    ensures
        r@ == "  "@ + location_text(conflict.ours, conflict.theirs)
            + " changed both locally and in repo"@,
{
    "  ".to_owned().concat(
        conflict_location_description(&conflict.ours, &conflict.theirs).as_str(),
    ).concat(" changed both locally and in repo")
}

/// Whether an entry of this kind has content that can be edited.
pub open spec fn is_blob_or_symlink(kind: EntryKind) -> bool {
    kind == EntryKind::Blob || kind == EntryKind::BlobExecutable || kind == EntryKind::Link
}

/// Whether a conflict is about the content of one file: both sides changed it where it is, and
/// there is merged content.
pub open spec fn is_content_conflict(conflict: Conflict) -> bool {
    &&& conflict.merged_blob is Some
    &&& conflict.ours.spec_location() == conflict.theirs.spec_location()
    &&& is_blob_or_symlink(conflict.ours.spec_kind())
    &&& is_blob_or_symlink(conflict.theirs.spec_kind())
}

fn has_content(kind: EntryKind) -> (r: bool)
    ensures
        r == is_blob_or_symlink(kind),
{
    match kind {
        EntryKind::Blob | EntryKind::BlobExecutable | EntryKind::Link => true,
        EntryKind::Tree | EntryKind::Commit => false,
    }
}

/// Whether a conflict is about the content of one file, which is then edited. Any other conflict
/// is about the tree, and one side of it is kept.
pub fn is_blob_level_conflict(conflict: &Conflict) -> (r: bool)
    ensures
        r == is_content_conflict(*conflict),
{
    conflict.merged_blob.is_some() && same_bytes(
        conflict.ours.location(),
        conflict.theirs.location(),
    ) && has_content(conflict.ours.kind()) && has_content(conflict.theirs.kind())
}

/// The question about a tree-level conflict.
pub open spec fn prompt_text(conflict: Conflict) -> Seq<char> {
    "Resolve tree conflict at "@ + location_text(conflict.ours, conflict.theirs) + "\n\n"@ + (
    match conflict.resolution {
        Ok(resolution) => "Resolution: "@ + resolution@,
        Err(failure) => "Unresolved reason: "@ + failure@,
    }) + "\n\nOur change: "@ + change_text(conflict.ours) + "\nTheir change: "@ + change_text(
        conflict.theirs,
    ) + (if conflict.merged_blob is Some {
        "\n\nA merged blob exists, but this conflict still needs a structural decision."@
    } else {
        ""@
    }) + "\n\nChoose which side to keep:"@
}

/// Asks about a tree-level conflict.
pub fn tree_conflict_prompt(conflict: &Conflict) -> (r: String)
    ensures
        r@ == prompt_text(*conflict),
{
    let mut out = "Resolve tree conflict at ".to_owned();
    out.append(conflict_location_description(&conflict.ours, &conflict.theirs).as_str());
    out.append("\n\n");
    let ghost before = out@;
    match &conflict.resolution {
        Ok(resolution) => {
            out.append("Resolution: ");
            out.append(resolution.as_str());
            assert(out@ =~= before + ("Resolution: "@ + resolution@));
        },
        Err(failure) => {
            out.append("Unresolved reason: ");
            out.append(failure.as_str());
            assert(out@ =~= before + ("Unresolved reason: "@ + failure@));
        },
    }
    out.append("\n\nOur change: ");
    out.append(describe_change(&conflict.ours).as_str());
    out.append("\nTheir change: ");
    out.append(describe_change(&conflict.theirs).as_str());
    out.append(
        if conflict.merged_blob.is_some() {
            "\n\nA merged blob exists, but this conflict still needs a structural decision."
        } else {
            ""
        },
    );
    out.append("\n\nChoose which side to keep:");
    out
}

// ----------------------------------------------------------------------------
// Decisions
// ----------------------------------------------------------------------------

/// An edit of the merged tree.
#[derive(Debug)]
pub enum TreeEdit {
    Upsert { location: Vec<u8>, kind: EntryKind, id: ObjectId },
    Remove { location: Vec<u8> },
}

/// The value of a [`TreeEdit`].
pub enum EditView {
    Upsert { location: Seq<u8>, kind: EntryKind, id: ObjectId },
    Remove { location: Seq<u8> },
}

impl View for TreeEdit {
    type V = EditView;

    open spec fn view(&self) -> EditView {
        match self {
            TreeEdit::Upsert { location, kind, id } => EditView::Upsert {
                location: location@,
                kind: *kind,
                id: *id,
            },
            TreeEdit::Remove { location } => EditView::Remove { location: location@ },
        }
    }
}

/// The values of a list of edits.
pub open spec fn edit_views(edits: Seq<TreeEdit>) -> Seq<EditView> {
    edits.map_values(|e: TreeEdit| e@)
}

/// Why a conflict stays unresolved.
#[derive(Debug)]
pub enum MergeError {
    Aborted,
    Undecided(ResolverError),
    NotEdited(ResolverError),
}

impl MergeError {
    /// The text of the error.
    pub open spec fn text(&self) -> Seq<char> {
        match self {
            MergeError::Aborted => "Sync aborted by user while resolving conflict"@,
            MergeError::Undecided(error) => error.message@,
            MergeError::NotEdited(_) => "Failed to edit blob for conflict resolution"@,
        }
    }

    /// The text of the error.
    pub fn message(&self) -> (r: String)
        ensures
            r@ == self.text(),
    {
        match self {
            MergeError::Aborted => "Sync aborted by user while resolving conflict".to_owned(),
            MergeError::Undecided(error) => error.message.clone(),
            MergeError::NotEdited(_) => "Failed to edit blob for conflict resolution".to_owned(),
        }
    }
}

/// The edits that make a change.
pub open spec fn making(change: Change) -> Seq<EditView> {
    match change {
        Change::Addition { location, kind, id } => seq![
            EditView::Upsert { location: location@, kind, id },
        ],
        Change::Modification { location, previous_kind, kind, id } => seq![
            EditView::Upsert { location: location@, kind, id },
        ],
        Change::Deletion { location, kind } => seq![EditView::Remove { location: location@ }],
        Change::Rewrite { source_location, location, source_kind, kind, id, copy } => if copy {
            seq![EditView::Upsert { location: location@, kind, id }]
        } else {
            seq![
                EditView::Remove { location: source_location@ },
                EditView::Upsert { location: location@, kind, id },
            ]
        },
    }
}

/// The edits that take away what a change has put in the tree.
pub open spec fn unmaking(change: Change) -> Seq<EditView> {
    if change is Deletion {
        Seq::empty()
    } else {
        seq![EditView::Remove { location: change.spec_location() }]
    }
}

/// The edits that keep one side of a conflict.
pub open spec fn keeping(kept: Change, dropped: Change) -> Seq<EditView> {
    unmaking(dropped) + making(kept)
}

fn push_edit(edits: &mut Vec<TreeEdit>, edit: TreeEdit)
    ensures
        edit_views(final(edits)@) == edit_views(old(edits)@).push(edit@),
{
    let ghost before = edits@;
    edits.push(edit);
    assert(edit_views(edits@) =~= edit_views(before).push(edit@));
}

/// Adds the edits that make a change.
fn apply_change_to_tree(edits: &mut Vec<TreeEdit>, change: &Change)
    ensures
        edit_views(final(edits)@) == edit_views(old(edits)@) + making(*change),
{
    let ghost before = edit_views(edits@);
    match change {
        Change::Addition { location, kind, id } => {
            push_edit(
                edits,
                TreeEdit::Upsert { location: copied_bytes(location), kind: *kind, id: *id },
            );
        },
        Change::Modification { location, previous_kind: _, kind, id } => {
            push_edit(
                edits,
                TreeEdit::Upsert { location: copied_bytes(location), kind: *kind, id: *id },
            );
        },
        Change::Deletion { location, kind: _ } => {
            push_edit(edits, TreeEdit::Remove { location: copied_bytes(location) });
        },
        Change::Rewrite { source_location, location, source_kind: _, kind, id, copy } => {
            if !*copy {
                push_edit(edits, TreeEdit::Remove { location: copied_bytes(source_location) });
            }
            push_edit(
                edits,
                TreeEdit::Upsert { location: copied_bytes(location), kind: *kind, id: *id },
            );
        },
    }
    assert(edit_views(edits@) =~= before + making(*change));
}

/// Adds the edits that take away what a change has put in the tree.
fn remove_change_effect_from_tree(edits: &mut Vec<TreeEdit>, change: &Change)
    ensures
        edit_views(final(edits)@) == edit_views(old(edits)@) + unmaking(*change),
{
    let ghost before = edit_views(edits@);
    let deleted = match change {
        Change::Deletion { location: _, kind: _ } => true,
        _ => false,
    };
    if !deleted {
        push_edit(edits, TreeEdit::Remove { location: copied_bytes(change.location()) });
    }
    assert(edit_views(edits@) =~= before + unmaking(*change));
}

/// Whether `outcome` is what a decision about a conflict comes to.
pub open spec fn is_decided(
    conflict: Conflict,
    decision: TreeConflictResolution,
    outcome: Result<Vec<TreeEdit>, MergeError>,
) -> bool {
    match decision {
        TreeConflictResolution::KeepOurs => outcome matches Ok(edits) && edit_views(edits@)
            == keeping(conflict.ours, conflict.theirs),
        TreeConflictResolution::KeepTheirs => outcome matches Ok(edits) && edit_views(edits@)
            == keeping(conflict.theirs, conflict.ours),
        TreeConflictResolution::Abort => outcome == Err::<Vec<TreeEdit>, MergeError>(
            MergeError::Aborted,
        ),
    }
}

/// The edits that a decision about a tree-level conflict comes to.
pub fn decide(conflict: &Conflict, decision: TreeConflictResolution) -> (r: Result<
    Vec<TreeEdit>,
    MergeError,
>)
    ensures
        is_decided(*conflict, decision, r),
{
    let mut edits: Vec<TreeEdit> = Vec::new();
    assert(edit_views(edits@) =~= Seq::<EditView>::empty());
    match decision {
        TreeConflictResolution::KeepOurs => {
            remove_change_effect_from_tree(&mut edits, &conflict.theirs);
            apply_change_to_tree(&mut edits, &conflict.ours);
            assert(edit_views(edits@) =~= keeping(conflict.ours, conflict.theirs));
            Ok(edits)
        },
        TreeConflictResolution::KeepTheirs => {
            remove_change_effect_from_tree(&mut edits, &conflict.ours);
            apply_change_to_tree(&mut edits, &conflict.theirs);
            assert(edit_views(edits@) =~= keeping(conflict.theirs, conflict.ours));
            Ok(edits)
        },
        TreeConflictResolution::Abort => Err(MergeError::Aborted),
    }
}

/// Has a tree-level conflict decided: the resolver is asked with [`tree_conflict_prompt`], and
/// its answer is what [`decide`] makes of it.
pub fn resolve_tree_level_conflict<R: ConflictResolver>(resolver: &R, conflict: &Conflict) -> (r:
    Result<Vec<TreeEdit>, MergeError>)
    ensures
        exists|prompt: &str, answer: Result<TreeConflictResolution, ResolverError>|
            prompt@ == prompt_text(*conflict) && #[trigger] call_ensures(
                R::resolve_tree_conflict,
                (resolver, prompt),
                answer,
            ) && match answer {
                Ok(decision) => is_decided(*conflict, decision, r),
                Err(error) => r == Err::<Vec<TreeEdit>, MergeError>(MergeError::Undecided(error)),
            },
{
    let prompt = tree_conflict_prompt(conflict);
    match resolver.resolve_tree_conflict(prompt.as_str()) {
        Ok(decision) => decide(conflict, decision),
        Err(error) => Err(MergeError::Undecided(error)),
    }
}

/// Has the merged content of a file edited.
pub fn edit_conflict<R: ConflictResolver>(
    resolver: &R,
    conflict: &Conflict,
    content: &[u8],
) -> (r: Result<Vec<u8>, MergeError>)
    ensures
        exists|path: &str, answer: Result<Vec<u8>, ResolverError>|
            path@ == lossy_text(conflict.ours.spec_location()) && #[trigger] call_ensures(
                R::edit_blob,
                (resolver, content, path),
                answer,
            ) && match answer {
                Ok(edited) => r == Ok::<Vec<u8>, MergeError>(edited),
                Err(error) => r == Err::<Vec<u8>, MergeError>(MergeError::NotEdited(error)),
            },
{
    let path = lossy(conflict.ours.location().as_slice());
    match resolver.edit_blob(content, path.as_str()) {
        Ok(edited) => Ok(edited),
        Err(error) => Err(MergeError::NotEdited(error)),
    }
}

/// What an edited entry becomes: what both sides made of it, or what the resolver chooses where
/// they differ.
pub fn entry_kind_for_shared_location<R: ConflictResolver>(
    resolver: &R,
    conflict: &Conflict,
) -> (r: Result<EntryKind, MergeError>)
    ensures
        conflict.ours.spec_kind() == conflict.theirs.spec_kind() ==> r == Ok::<
            EntryKind,
            MergeError,
        >(conflict.ours.spec_kind()),
        conflict.ours.spec_kind() != conflict.theirs.spec_kind() ==> exists|
            prompt: &str,
            answer: Result<EntryKind, ResolverError>,
        |
            prompt@ == "Local and remote entries have different kinds. Which should be used?"@
                && #[trigger] call_ensures(
                R::choose_entry_kind,
                (resolver, prompt, conflict.ours.spec_kind(), conflict.theirs.spec_kind()),
                answer,
            ) && match answer {
                Ok(kind) => r == Ok::<EntryKind, MergeError>(kind),
                Err(error) => r == Err::<EntryKind, MergeError>(MergeError::Undecided(error)),
            },
{
    let ours = conflict.ours.kind();
    let theirs = conflict.theirs.kind();
    if ours == theirs {
        return Ok(ours);
    }
    let prompt = "Local and remote entries have different kinds. Which should be used?";
    match resolver.choose_entry_kind(prompt, ours, theirs) {
        Ok(kind) => Ok(kind),
        Err(error) => Err(MergeError::Undecided(error)),
    }
}

/// The edit that puts edited content in the tree.
pub fn edited_entry(conflict: &Conflict, kind: EntryKind, id: ObjectId) -> (r: TreeEdit)
    ensures
        r@ == (EditView::Upsert { location: conflict.ours.spec_location(), kind, id }),
{
    TreeEdit::Upsert { location: copied_bytes(conflict.ours.location()), kind, id }
}

// ----------------------------------------------------------------------------
// Laws
// ----------------------------------------------------------------------------

/// The entries of a tree after an edit.
pub open spec fn edited(
    tree: Map<Seq<u8>, (EntryKind, ObjectId)>,
    edit: EditView,
) -> Map<Seq<u8>, (EntryKind, ObjectId)> {
    match edit {
        EditView::Upsert { location, kind, id } => tree.insert(location, (kind, id)),
        EditView::Remove { location } => tree.remove(location),
    }
}

/// The entries of a tree after a list of edits.
pub open spec fn edited_all(
    tree: Map<Seq<u8>, (EntryKind, ObjectId)>,
    edits: Seq<EditView>,
) -> Map<Seq<u8>, (EntryKind, ObjectId)>
    decreases edits.len(),
{
    if edits.len() == 0 {
        tree
    } else {
        edited(edited_all(tree, edits.drop_last()), edits.last())
    }
}

/// What a change leaves at its location.
pub open spec fn left_by(change: Change) -> Option<(EntryKind, ObjectId)> {
    match change {
        Change::Addition { location, kind, id } => Some((kind, id)),
        Change::Modification { location, previous_kind, kind, id } => Some((kind, id)),
        Change::Rewrite { source_location, location, source_kind, kind, id, copy } => Some(
            (kind, id),
        ),
        Change::Deletion { location, kind } => None,
    }
}

/// Keeping one side leaves at its location what that side left there, and nothing at the location
/// of the other side where that is another one.
pub proof fn law_kept_side_prevails(
    tree: Map<Seq<u8>, (EntryKind, ObjectId)>,
    kept: Change,
    dropped: Change,
)
    ensures
        match left_by(kept) {
            Some(entry) => edited_all(tree, keeping(kept, dropped)).dom().contains(
                kept.spec_location(),
            ) && edited_all(tree, keeping(kept, dropped))[kept.spec_location()] == entry,
            None => !edited_all(tree, keeping(kept, dropped)).dom().contains(kept.spec_location()),
        },
        !(dropped is Deletion) && dropped.spec_location() != kept.spec_location() ==> !edited_all(
            tree,
            keeping(kept, dropped),
        ).dom().contains(dropped.spec_location()),
{
    let edits = keeping(kept, dropped);
    reveal_with_fuel(edited_all, 4);
    if edits.len() >= 2 {
        assert(edits.drop_last().last() == edits[edits.len() - 2]);
    }
    if edits.len() == 3 {
        assert(edits.drop_last().drop_last().last() == edits[0]);
    }
}

/// Keeping one side changes nothing but the locations of the two changes and the source of a
/// renaming that is kept.
pub proof fn law_decision_touches_nothing_else(
    tree: Map<Seq<u8>, (EntryKind, ObjectId)>,
    kept: Change,
    dropped: Change,
    location: Seq<u8>,
)
    requires
        location != kept.spec_location(),
        location != dropped.spec_location(),
        kept matches Change::Rewrite { source_location, .. } ==> location != source_location@,
    ensures
        edited_all(tree, keeping(kept, dropped)).dom().contains(location) == tree.dom().contains(
            location,
        ),
        edited_all(tree, keeping(kept, dropped))[location] == tree[location],
{
    let edits = keeping(kept, dropped);
    reveal_with_fuel(edited_all, 4);
    if edits.len() >= 2 {
        assert(edits.drop_last().last() == edits[edits.len() - 2]);
    }
    if edits.len() == 3 {
        assert(edits.drop_last().drop_last().last() == edits[0]);
    }
}

/// Whether a tree has at the location of a change what the change left there: the entry that it
/// made, or nothing where it deleted one.
pub open spec fn shows(tree: Map<Seq<u8>, (EntryKind, ObjectId)>, change: Change) -> bool {
    match change {
        Change::Deletion { location, kind } => !tree.dom().contains(location@),
        Change::Addition { location, kind, id } => tree.dom().contains(location@)
            && tree[location@] == (kind, id),
        Change::Modification { location, previous_kind, kind, id } => tree.dom().contains(location@)
            && tree[location@] == (kind, id),
        Change::Rewrite { source_location, location, source_kind, kind, id, copy } => {
            &&& tree.dom().contains(location@)
            &&& tree[location@] == (kind, id)
            &&& !copy && source_location@ != location@ ==> !tree.dom().contains(source_location@)
        },
    }
}

/// Whether a change put an entry at this location.
pub open spec fn puts_at(change: Change, location: Seq<u8>) -> bool {
    match change {
        Change::Deletion { location: l, kind } => false,
        Change::Addition { location: l, kind, id } => l@ == location,
        Change::Modification { location: l, previous_kind, kind, id } => l@ == location,
        Change::Rewrite { source_location, location: l, source_kind, kind, id, copy } => l@
            == location,
    }
}

/// Whether a change has to do with this location.
pub open spec fn is_about(change: Change, location: Seq<u8>) -> bool {
    match change {
        Change::Deletion { location: l, kind } => l@ == location,
        Change::Rewrite { source_location, location: l, source_kind, kind, id, copy } => l@
            == location || source_location@ == location,
        _ => puts_at(change, location),
    }
}

/// What becomes of a tree where one side of a conflict is kept: it has what the kept side left,
/// nothing where only the other side put an entry, and everything else as it was.
pub open spec fn is_kept(
    before: Map<Seq<u8>, (EntryKind, ObjectId)>,
    kept: Change,
    dropped: Change,
    after: Map<Seq<u8>, (EntryKind, ObjectId)>,
) -> bool {
    &&& shows(after, kept)
    &&& forall|location: Seq<u8>|
        puts_at(dropped, location) && !is_about(kept, location) ==> !#[trigger] after.dom().contains(
            location,
        )
    &&& forall|location: Seq<u8>|
        !puts_at(dropped, location) && !is_about(kept, location) ==> (
        #[trigger] after.dom().contains(location) == before.dom().contains(location))
            && after[location] == before[location]
}

proof fn lemma_is_kept(
    tree: Map<Seq<u8>, (EntryKind, ObjectId)>,
    kept: Change,
    dropped: Change,
)
    ensures
        is_kept(tree, kept, dropped, edited_all(tree, keeping(kept, dropped))),
{
    let edits = keeping(kept, dropped);
    reveal_with_fuel(edited_all, 4);
    if edits.len() >= 2 {
        assert(edits.drop_last().last() == edits[edits.len() - 2]);
    }
    if edits.len() == 3 {
        assert(edits.drop_last().drop_last().last() == edits[0]);
    }
}

/// A decision keeps the side that it names: to keep ours leaves in the tree what ours left and
/// takes away what only theirs put there, to keep theirs the other way round, and nothing else
/// changes. To abort edits nothing.
pub proof fn law_decision_keeps_its_side(
    tree: Map<Seq<u8>, (EntryKind, ObjectId)>,
    conflict: Conflict,
    decision: TreeConflictResolution,
    outcome: Result<Vec<TreeEdit>, MergeError>,
)
    requires
        call_ensures(decide, (&conflict, decision), outcome),
    ensures
        decision is KeepOurs ==> outcome is Ok && is_kept(
            tree,
            conflict.ours,
            conflict.theirs,
            edited_all(tree, edit_views(outcome->Ok_0@)),
        ),
        decision is KeepTheirs ==> outcome is Ok && is_kept(
            tree,
            conflict.theirs,
            conflict.ours,
            edited_all(tree, edit_views(outcome->Ok_0@)),
        ),
        decision is Abort ==> outcome is Err && outcome->Err_0 is Aborted,
{
    lemma_is_kept(tree, conflict.ours, conflict.theirs);
    lemma_is_kept(tree, conflict.theirs, conflict.ours);
}

/// To keep ours is to keep theirs of the conflict seen from the other side.
pub proof fn law_sides_are_treated_alike(
    conflict: Conflict,
    mirrored: Conflict,
    ours: Result<Vec<TreeEdit>, MergeError>,
    theirs: Result<Vec<TreeEdit>, MergeError>,
)
    requires
        mirrored.ours == conflict.theirs,
        mirrored.theirs == conflict.ours,
        call_ensures(decide, (&conflict, TreeConflictResolution::KeepOurs), ours),
        call_ensures(decide, (&mirrored, TreeConflictResolution::KeepTheirs), theirs),
    ensures
        ours is Ok,
        theirs is Ok,
        edit_views(ours->Ok_0@) == edit_views(theirs->Ok_0@),
{
}

/// Whether an entry of this kind holds content of its own, rather than entries or a commit.
pub open spec fn is_leaf(kind: EntryKind) -> bool {
    match kind {
        EntryKind::Tree => false,
        EntryKind::Commit => false,
        _ => true,
    }
}

/// A conflict is edited exactly where there is merged content for one location at which each side
/// has a file or a link. It does not matter which side is ours.
pub proof fn law_which_conflicts_are_edited(
    conflict: Conflict,
    mirrored: Conflict,
    edited: bool,
    mirrored_edited: bool,
)
    requires
        call_ensures(is_blob_level_conflict, (&conflict,), edited),
        call_ensures(is_blob_level_conflict, (&mirrored,), mirrored_edited),
        mirrored.ours == conflict.theirs,
        mirrored.theirs == conflict.ours,
        mirrored.merged_blob == conflict.merged_blob,
    ensures
        edited == mirrored_edited,
        edited <==> conflict.merged_blob is Some && is_leaf(conflict.ours.spec_kind()) && is_leaf(
            conflict.theirs.spec_kind(),
        ) && conflict.ours.spec_location() == conflict.theirs.spec_location(),
{
}

/// What the editor gives back becomes the content, whatever it is; an editor that fails leaves the
/// conflict unresolved.
pub proof fn law_edited_content_is_taken<R: ConflictResolver>(
    resolver: R,
    conflict: Conflict,
    content: &[u8],
    answer: Result<Vec<u8>, ResolverError>,
    outcome: Result<Vec<u8>, MergeError>,
)
    requires
        forall|path: &str, other: Result<Vec<u8>, ResolverError>| #[trigger]
            call_ensures(R::edit_blob, (&resolver, content, path), other) ==> other == answer,
        call_ensures(edit_conflict::<R>, (&resolver, &conflict, content), outcome),
    ensures
        answer is Ok ==> outcome == Ok::<Vec<u8>, MergeError>(answer->Ok_0),
        answer is Err ==> outcome is Err,
{
}

/// Whoever decides about a tree gets what was decided: the side that they name is kept, and where
/// they abort or cannot say, nothing is edited.
pub proof fn law_whoever_decides_is_heard<R: ConflictResolver>(
    resolver: R,
    conflict: Conflict,
    answer: Result<TreeConflictResolution, ResolverError>,
    outcome: Result<Vec<TreeEdit>, MergeError>,
    tree: Map<Seq<u8>, (EntryKind, ObjectId)>,
)
    requires
        forall|prompt: &str, other: Result<TreeConflictResolution, ResolverError>| #[trigger]
            call_ensures(R::resolve_tree_conflict, (&resolver, prompt), other) ==> other == answer,
        call_ensures(resolve_tree_level_conflict::<R>, (&resolver, &conflict), outcome),
    ensures
        answer == Ok::<TreeConflictResolution, ResolverError>(TreeConflictResolution::KeepOurs)
            ==> outcome is Ok && is_kept(
            tree,
            conflict.ours,
            conflict.theirs,
            edited_all(tree, edit_views(outcome->Ok_0@)),
        ),
        answer == Ok::<TreeConflictResolution, ResolverError>(TreeConflictResolution::KeepTheirs)
            ==> outcome is Ok && is_kept(
            tree,
            conflict.theirs,
            conflict.ours,
            edited_all(tree, edit_views(outcome->Ok_0@)),
        ),
        answer == Ok::<TreeConflictResolution, ResolverError>(TreeConflictResolution::Abort)
            || answer is Err ==> outcome is Err,
{
    lemma_is_kept(tree, conflict.ours, conflict.theirs);
    lemma_is_kept(tree, conflict.theirs, conflict.ours);
}

/// An edited entry is of the kind that both sides gave it, without a question; where they differ,
/// it is of the kind that was chosen.
pub proof fn law_kind_is_agreed_or_chosen<R: ConflictResolver>(
    resolver: R,
    conflict: Conflict,
    answer: Result<EntryKind, ResolverError>,
    outcome: Result<EntryKind, MergeError>,
)
    requires
        forall|
            prompt: &str,
            ours: EntryKind,
            theirs: EntryKind,
            other: Result<EntryKind, ResolverError>,
        | #[trigger]
            call_ensures(R::choose_entry_kind, (&resolver, prompt, ours, theirs), other) ==> other
                == answer,
        call_ensures(entry_kind_for_shared_location::<R>, (&resolver, &conflict), outcome),
    ensures
        conflict.ours.spec_kind() == conflict.theirs.spec_kind() ==> outcome is Ok
            && outcome->Ok_0 == conflict.theirs.spec_kind(),
        conflict.ours.spec_kind() != conflict.theirs.spec_kind() ==> match answer {
            Ok(kind) => outcome is Ok && outcome->Ok_0 == kind,
            Err(_) => outcome is Err,
        },
{
}

/// Edited content is put where the conflict was, and the rest of the tree stays as it was.
pub proof fn law_edited_content_is_put_in_place(
    tree: Map<Seq<u8>, (EntryKind, ObjectId)>,
    conflict: Conflict,
    kind: EntryKind,
    id: ObjectId,
    edit: TreeEdit,
    location: Seq<u8>,
)
    requires
        call_ensures(edited_entry, (&conflict, kind, id), edit),
    ensures
        edited(tree, edit@).dom().contains(conflict.ours.spec_location()),
        edited(tree, edit@)[conflict.ours.spec_location()] == (kind, id),
        location != conflict.ours.spec_location() ==> edited(tree, edit@).dom().contains(location)
            == tree.dom().contains(location) && edited(tree, edit@)[location] == tree[location],
{
}

/// What a change says of itself: an entry is where it was put, or was where it was deleted.
pub proof fn law_changes_are_where_they_were_made(change: Change)
    ensures
        !(change is Deletion) ==> puts_at(change, change.spec_location()),
        change is Deletion ==> is_about(change, change.spec_location()) && !puts_at(
            change,
            change.spec_location(),
        ),
        left_by(change) is Some ==> left_by(change)->Some_0.0 == change.spec_kind(),
        left_by(change) is None <==> change is Deletion,
{
}

/// Whoever is asked about a conflict is told where it is, and what each side did: ours as ours and
/// theirs as theirs.
pub proof fn law_prompt_tells_both_sides(conflict: Conflict)
    ensures
        occurs(prompt_text(conflict), location_text(conflict.ours, conflict.theirs)),
        occurs(prompt_text(conflict), "\n\nOur change: "@ + change_text(conflict.ours)),
        occurs(prompt_text(conflict), "\nTheir change: "@ + change_text(conflict.theirs)),
{
    let text = prompt_text(conflict);
    let front = "Resolve tree conflict at "@;
    let place = location_text(conflict.ours, conflict.theirs);
    let reason = match conflict.resolution {
        Ok(resolution) => "Resolution: "@ + resolution@,
        Err(failure) => "Unresolved reason: "@ + failure@,
    };
    let ours = "\n\nOur change: "@ + change_text(conflict.ours);
    let theirs = "\nTheir change: "@ + change_text(conflict.theirs);
    let note = if conflict.merged_blob is Some {
        "\n\nA merged blob exists, but this conflict still needs a structural decision."@
    } else {
        ""@
    };
    let end = note + "\n\nChoose which side to keep:"@;
    let middle = "\n\n"@ + reason;
    assert(text =~= front + place + (middle + ours + theirs + end));
    lemma_occurs_between(text, front, place, middle + ours + theirs + end);
    assert(text =~= (front + place + middle) + ours + (theirs + end));
    lemma_occurs_between(text, front + place + middle, ours, theirs + end);
    assert(text =~= (front + place + middle + ours) + theirs + end);
    lemma_occurs_between(text, front + place + middle + ours, theirs, end);
}

/// The place of a conflict names the locations of both sides.
pub proof fn law_place_names_both_locations(ours: Change, theirs: Change)
    ensures
        occurs(location_text(ours, theirs), lossy_text(ours.spec_location())),
        occurs(location_text(ours, theirs), lossy_text(theirs.spec_location())),
{
    let text = location_text(ours, theirs);
    let a = lossy_text(ours.spec_location());
    let b = lossy_text(theirs.spec_location());
    if ours.spec_location() == theirs.spec_location() {
        lemma_occurs_between(text, "'"@, a, "'"@);
    } else {
        assert(text =~= "ours='"@ + a + ("', theirs='"@ + b + "'"@));
        lemma_occurs_between(text, "ours='"@, a, "', theirs='"@ + b + "'"@);
        lemma_occurs_between(text, "ours='"@ + a + "', theirs='"@, b, "'"@);
    }
}

proof fn lemma_words_for_a_rewrite(change: Change)
    requires
        change is Rewrite,
    ensures
        occurs(change_text(change), lossy_text(change.spec_location())),
        occurs(change_text(change), change.spec_kind().label_text()),
        change matches Change::Rewrite { source_location, .. } ==> occurs(
            change_text(change),
            lossy_text(source_location@),
        ),
        change matches Change::Rewrite { copy, .. } ==> (if copy {
            "copy "@
        } else {
            "rename "@
        }).is_prefix_of(change_text(change)),
{
    let text = change_text(change);
    let place = lossy_text(change.spec_location());
    let kind = change.spec_kind().label_text();
    if let Change::Rewrite { source_location, location, source_kind, kind: k, id, copy } = change {
        let word = if copy {
            "copy"@
        } else {
            "rename"@
        };
        let source = lossy_text(source_location@);
        let front = word + " "@ + source_kind.label_text() + " '"@;
        let middle = "' -> '"@;
        let end = "' ("@ + source_kind.label_text() + " -> "@ + kind + ")"@;
        assert(text =~= front + source + (middle + place + end));
        lemma_occurs_between(text, front, source, middle + place + end);
        assert(text =~= (front + source + middle) + place + end);
        lemma_occurs_between(text, front + source + middle, place, end);
        let before = front + source + middle + place + "' ("@ + source_kind.label_text()
            + " -> "@;
        assert(text =~= before + kind + ")"@);
        lemma_occurs_between(text, before, kind, ")"@);
        reveal_strlit("copy");
        reveal_strlit("rename");
        reveal_strlit("copy ");
        reveal_strlit("rename ");
        reveal_strlit(" ");
        assert(text.subrange(0, (word.len() + 1) as int) =~= word + " "@);
        assert("copy "@ =~= "copy"@ + " "@);
        assert("rename "@ =~= "rename"@ + " "@);
    }
}

/// The words for a change name its location and what the entry is or was; those for a renaming or
/// a copy name its source too.
pub proof fn law_words_for_a_change_name_it(change: Change)
    ensures
        occurs(change_text(change), lossy_text(change.spec_location())),
        occurs(change_text(change), change.spec_kind().label_text()),
        change matches Change::Rewrite { source_location, .. } ==> occurs(
            change_text(change),
            lossy_text(source_location@),
        ),
        change is Addition ==> "add "@.is_prefix_of(change_text(change)),
        change is Deletion ==> "delete "@.is_prefix_of(change_text(change)),
        change is Modification ==> "modify "@.is_prefix_of(change_text(change)),
        change matches Change::Rewrite { copy, .. } ==> (if copy {
            "copy "@
        } else {
            "rename "@
        }).is_prefix_of(change_text(change)),
{
    let text = change_text(change);
    let place = lossy_text(change.spec_location());
    let kind = change.spec_kind().label_text();
    match change {
        Change::Addition { location, kind: k, id } => {
            lemma_occurs_between(text, "add "@ + kind + " at '"@, place, "'"@);
            assert(text =~= "add "@ + kind + (" at '"@ + place + "'"@));
            lemma_occurs_between(text, "add "@, kind, " at '"@ + place + "'"@);
            assert(text.subrange(0, "add "@.len() as int) =~= "add "@);
        },
        Change::Deletion { location, kind: k } => {
            lemma_occurs_between(text, "delete "@ + kind + " at '"@, place, "'"@);
            assert(text =~= "delete "@ + kind + (" at '"@ + place + "'"@));
            lemma_occurs_between(text, "delete "@, kind, " at '"@ + place + "'"@);
            assert(text.subrange(0, "delete "@.len() as int) =~= "delete "@);
        },
        Change::Modification { location, previous_kind, kind: k, id } => {
            let end = "' ("@ + previous_kind.label_text() + " -> "@ + kind + ")"@;
            reveal_strlit("modify '");
            reveal_strlit("modify ");
            assert(text =~= "modify '"@ + place + end);
            lemma_occurs_between(text, "modify '"@, place, end);
            let front = "modify '"@ + place + "' ("@ + previous_kind.label_text() + " -> "@;
            lemma_occurs_between(text, front, kind, ")"@);
            assert(text.subrange(0, 7) =~= "modify "@);
        },
        Change::Rewrite { .. } => {
            lemma_words_for_a_rewrite(change);
        },
    }
}

} // verus!
