//! Who decides where two sides conflict.

use vstd::prelude::*;

use crate::object::EntryKind;
use crate::text::{same, starts_with, views};

verus! {

/// Resolution strategy for a tree-level merge conflict.
#[derive(Debug, Clone, Copy, PartialEq, Eq, Structural)]
pub enum TreeConflictResolution {
    /// Keep the local (ours) side.
    KeepOurs,
    /// Keep the remote (theirs) side.
    KeepTheirs,
    /// Abort the sync operation.
    Abort,
}

/// Why a resolver gives no decision.
#[derive(Debug)]
pub struct ResolverError {
    pub message: String,
}

/// Abstraction over interactive conflict resolution.
///
/// Implementations may prompt the user via TUI, log and pick a default,
/// or panic when called in non-interactive contexts such as tests.
pub trait ConflictResolver {
    /// Prompt for a tree-level conflict decision.
    fn resolve_tree_conflict(&self, prompt: &str) -> Result<TreeConflictResolution, ResolverError>;

    /// Prompt for which entry kind to use when local and remote disagree.
    fn choose_entry_kind(&self, prompt: &str, ours: EntryKind, theirs: EntryKind) -> Result<
        EntryKind,
        ResolverError,
    >;

    /// Open an editor (or equivalent) to modify merged blob content.
    fn edit_blob(&self, content: &[u8], path: &str) -> Result<Vec<u8>, ResolverError>;
}

/// What a user can choose where trees conflict, in order.
pub open spec fn tree_choices() -> Seq<Seq<char>> {
    seq!["Keep local (ours)"@, "Keep remote (theirs)"@, "Abort sync"@]
}

/// Lists what a user can choose where trees conflict.
pub fn list_tree_choices() -> (r: Vec<String>)
    ensures
        views(r@) == tree_choices(),
{
    let mut list: Vec<String> = Vec::new();
    list.push("Keep local (ours)".to_owned());
    list.push("Keep remote (theirs)".to_owned());
    list.push("Abort sync".to_owned());
    assert(views(list@) =~= tree_choices());
    list
}

/// What a choice means.
pub open spec fn resolution_of(choice: Seq<char>) -> Option<TreeConflictResolution> {
    if choice == tree_choices()[0] {
        Some(TreeConflictResolution::KeepOurs)
    } else if choice == tree_choices()[1] {
        Some(TreeConflictResolution::KeepTheirs)
    } else if choice == tree_choices()[2] {
        Some(TreeConflictResolution::Abort)
    } else {
        None
    }
}

/// Tells what a choice means.
pub fn chosen_resolution(choice: &str) -> (r: Result<TreeConflictResolution, ResolverError>)
    ensures
        match r {
            Ok(resolution) => resolution_of(choice@) == Some(resolution),
            Err(error) => resolution_of(choice@) is None && error.message@
                == "Invalid conflict resolution choice"@,
        },
{
    if same(choice, "Keep local (ours)") {
        Ok(TreeConflictResolution::KeepOurs)
    } else if same(choice, "Keep remote (theirs)") {
        Ok(TreeConflictResolution::KeepTheirs)
    } else if same(choice, "Abort sync") {
        Ok(TreeConflictResolution::Abort)
    } else {
        Err(ResolverError { message: "Invalid conflict resolution choice".to_owned() })
    }
}

/// What a user can choose where the kinds of two entries differ, in order.
pub open spec fn kind_choices(ours: EntryKind, theirs: EntryKind) -> Seq<Seq<char>> {
    seq!["Local ("@ + ours.label_text() + ")"@, "Remote ("@ + theirs.label_text() + ")"@]
}

/// Lists what a user can choose where the kinds of two entries differ.
pub fn list_kind_choices(ours: EntryKind, theirs: EntryKind) -> (r: Vec<String>)
    ensures
        views(r@) == kind_choices(ours, theirs),
{
    let mut list: Vec<String> = Vec::new();
    list.push("Local (".to_owned().concat(ours.label()).concat(")"));
    list.push("Remote (".to_owned().concat(theirs.label()).concat(")"));
    assert(views(list@) =~= kind_choices(ours, theirs));
    list
}

/// The kind that a choice means.
pub fn chosen_kind(choice: &str, ours: EntryKind, theirs: EntryKind) -> (r: EntryKind)
    ensures
        r == if "Local"@.is_prefix_of(choice@) {
            ours
        } else {
            theirs
        },
{
    if starts_with(choice, "Local") {
        ours
    } else {
        theirs
    }
}

// ----------------------------------------------------------------------------
// Laws
// ----------------------------------------------------------------------------

/// Each choice that is offered where trees conflict has a meaning of its own.
pub proof fn law_tree_choices_are_understood(i: int, j: int)
    requires
        0 <= i < tree_choices().len(),
        0 <= j < tree_choices().len(),
    ensures
        resolution_of(tree_choices()[i]) is Some,
        i != j ==> resolution_of(tree_choices()[i]) != resolution_of(tree_choices()[j]),
{
    reveal_strlit("Keep local (ours)");
    reveal_strlit("Keep remote (theirs)");
    reveal_strlit("Abort sync");
    assert("Keep local (ours)"@.len() == 17 && "Keep remote (theirs)"@.len() == 20
        && "Abort sync"@.len() == 10);
}

/// Whoever chooses the local kind gets it, and whoever chooses the remote kind gets that.
pub proof fn law_kind_choices_are_understood(ours: EntryKind, theirs: EntryKind)
    ensures
        "Local"@.is_prefix_of(kind_choices(ours, theirs)[0]),
        !"Local"@.is_prefix_of(kind_choices(ours, theirs)[1]),
{
    reveal_strlit("Local");
    reveal_strlit("Local (");
    reveal_strlit("Remote (");
    let local = kind_choices(ours, theirs)[0];
    let remote = kind_choices(ours, theirs)[1];
    assert(local.subrange(0, 5) =~= "Local"@);
    assert(remote.subrange(0, 5)[0] == 'R');
    assert("Local"@[0] == 'L');
}

/// Whoever chooses to keep the local side gets ours, whoever chooses the remote side gets theirs,
/// and whoever chooses to abort aborts. Any other choice is refused.
pub proof fn law_choices_mean_what_they_say(
    choice: &str,
    r: Result<TreeConflictResolution, ResolverError>,
)
    requires
        call_ensures(chosen_resolution, (choice,), r),
    ensures
        r is Ok && r->Ok_0 is KeepOurs <==> choice@ == "Keep local (ours)"@,
        r is Ok && r->Ok_0 is KeepTheirs <==> choice@ == "Keep remote (theirs)"@,
        r is Ok && r->Ok_0 is Abort <==> choice@ == "Abort sync"@,
        r is Ok ==> tree_choices().contains(choice@),
{
    reveal_strlit("Keep local (ours)");
    reveal_strlit("Keep remote (theirs)");
    reveal_strlit("Abort sync");
    assert("Keep local (ours)"@.len() == 17 && "Keep remote (theirs)"@.len() == 20
        && "Abort sync"@.len() == 10);
    let all = tree_choices();
    assert(all[0] == "Keep local (ours)"@ && all[1] == "Keep remote (theirs)"@ && all[2]
        == "Abort sync"@);
}

/// Of the kinds that are offered, the one that is chosen is taken.
pub proof fn law_chosen_kind_is_taken(
    ours: EntryKind,
    theirs: EntryKind,
    choice: &str,
    kind: EntryKind,
)
    requires
        call_ensures(chosen_kind, (choice, ours, theirs), kind),
    ensures
        choice@ == "Local ("@ + ours.label_text() + ")"@ ==> kind == ours,
        choice@ == "Remote ("@ + theirs.label_text() + ")"@ ==> kind == theirs,
        kind_choices(ours, theirs) == seq![
            "Local ("@ + ours.label_text() + ")"@,
            "Remote ("@ + theirs.label_text() + ")"@,
        ],
{
    law_kind_choices_are_understood(ours, theirs);
}

} // verus!
