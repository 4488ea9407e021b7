//! What has to be done to the file system to bring it from one tree to another.

use vstd::prelude::*;
use vstd::utf8::{decode_utf8, valid_utf8};

use crate::bytes::lossy_text;
use crate::engine::path_util::{diff_location_to_path, LocationError};
use crate::object::{EntryKind, ObjectId};

verus! {

/// A difference between two trees.
#[derive(Debug)]
pub enum DiffChange {
    Addition { location: Vec<u8>, kind: EntryKind, id: ObjectId },
    Modification { location: Vec<u8>, kind: EntryKind, id: ObjectId },
    Deletion { location: Vec<u8>, kind: EntryKind },
    Rewrite,
}

/// A change of a file.
#[derive(Debug)]
pub enum ApplyOperation {
    Upsert { relative_path: String, blob_oid: ObjectId },
    Delete { relative_path: String },
}

/// The value of an [`ApplyOperation`].
pub enum OperationView {
    Upsert { path: Seq<char>, blob: ObjectId },
    Delete { path: Seq<char> },
}

impl View for ApplyOperation {
    type V = OperationView;

    open spec fn view(&self) -> OperationView {
        match self {
            ApplyOperation::Upsert { relative_path, blob_oid } => OperationView::Upsert {
                path: relative_path@,
                blob: *blob_oid,
            },
            ApplyOperation::Delete { relative_path } => OperationView::Delete {
                path: relative_path@,
            },
        }
    }
}

/// The values of a list of operations.
pub open spec fn operation_views(operations: Seq<ApplyOperation>) -> Seq<OperationView> {
    operations.map_values(|o: ApplyOperation| o@)
}

impl ApplyOperation {
    /// The operation in words.
    pub open spec fn line(&self) -> Seq<char> {
        match self@ {
            OperationView::Upsert { path, blob } => "upsert "@ + path,
            OperationView::Delete { path } => "delete "@ + path,
        }
    }

    /// Puts the operation in words.
    pub fn text(&self) -> (r: String)
        ensures
            r@ == self.line(),
    {
        match self {
            ApplyOperation::Upsert { relative_path, blob_oid: _ } => "upsert ".to_owned().concat(
                relative_path.as_str(),
            ),
            ApplyOperation::Delete { relative_path } => "delete ".to_owned().concat(
                relative_path.as_str(),
            ),
        }
    }
}

/// Why differences cannot be made in the file system.
#[derive(Debug)]
pub enum DiffError {
    Rewrite,
    Location(LocationError),
}

impl DiffError {
    /// The text of the error.
    pub open spec fn text(&self) -> Seq<char> {
        match self {
            DiffError::Rewrite =>
                "Rewrite operation encountered despite rewrite tracking being disabled"@,
            DiffError::Location(error) => error.text(),
        }
    }

    /// The text of the error.
    pub fn message(&self) -> (r: String)
        ensures
            r@ == self.text(),
    {
        match self {
            DiffError::Rewrite =>
                "Rewrite operation encountered despite rewrite tracking being disabled".to_owned(),
            DiffError::Location(error) => error.message(),
        }
    }
}

/// The location of a difference that concerns a file.
pub open spec fn file_location(change: DiffChange) -> Option<Seq<u8>> {
    match change {
        DiffChange::Addition { location, kind, id } => if kind == EntryKind::Tree {
            None
        } else {
            Some(location@)
        },
        DiffChange::Modification { location, kind, id } => if kind == EntryKind::Tree {
            None
        } else {
            Some(location@)
        },
        DiffChange::Deletion { location, kind } => if kind == EntryKind::Tree {
            None
        } else {
            Some(location@)
        },
        DiffChange::Rewrite => None,
    }
}

/// Whether a difference cannot be made: it is a renaming, or its path is no text.
pub open spec fn is_refused(change: DiffChange) -> bool {
    change is Rewrite || (file_location(change) is Some && !valid_utf8(
        file_location(change)->Some_0,
    ))
}

/// The operation that makes a difference of a file; none for a directory.
pub open spec fn operation_of(change: DiffChange) -> Option<OperationView> {
    match file_location(change) {
        Some(location) => Some(
            match change {
                DiffChange::Addition { location: _, kind, id } => OperationView::Upsert {
                    path: decode_utf8(location),
                    blob: id,
                },
                DiffChange::Modification { location: _, kind, id } => OperationView::Upsert {
                    path: decode_utf8(location),
                    blob: id,
                },
                _ => OperationView::Delete { path: decode_utf8(location) },
            },
        ),
        None => None,
    }
}

/// The operations that make the differences, in order.
pub open spec fn operations_of(changes: Seq<DiffChange>) -> Seq<OperationView>
    decreases changes.len(),
{
    if changes.len() == 0 {
        Seq::empty()
    } else {
        let before = operations_of(changes.drop_last());
        match operation_of(changes.last()) {
            Some(operation) => before.push(operation),
            None => before,
        }
    }
}

/// Whether the difference at `i` is the first that cannot be made.
pub open spec fn is_first_refused(changes: Seq<DiffChange>, i: int) -> bool {
    &&& 0 <= i < changes.len()
    &&& is_refused(changes[i])
    &&& forall|k: int| 0 <= k < i ==> !is_refused(#[trigger] changes[k])
}

fn is_tree(kind: EntryKind) -> (r: bool)
    ensures
        r == (kind == EntryKind::Tree),
{
    match kind {
        EntryKind::Tree => true,
        _ => false,
    }
}

/// The operation that makes a difference.
fn operation_for(change: &DiffChange) -> (r: Result<Option<ApplyOperation>, DiffError>)
    ensures
        match r {
            Ok(Some(operation)) => !is_refused(*change) && operation_of(*change) == Some(
                operation@,
            ),
            Ok(None) => !is_refused(*change) && operation_of(*change) is None,
            Err(DiffError::Rewrite) => *change is Rewrite,
            Err(DiffError::Location(error)) => is_refused(*change) && file_location(*change) is Some
                && error.location@ == lossy_text(file_location(*change)->Some_0),
        },
{
    match change {
        DiffChange::Addition { location, kind, id } => {
            if is_tree(*kind) {
                return Ok(None);
            }
            match diff_location_to_path(location.as_slice()) {
                Ok(path) => Ok(
                    Some(ApplyOperation::Upsert { relative_path: path, blob_oid: *id }),
                ),
                Err(error) => Err(DiffError::Location(error)),
            }
        },
        DiffChange::Modification { location, kind, id } => {
            if is_tree(*kind) {
                return Ok(None);
            }
            match diff_location_to_path(location.as_slice()) {
                Ok(path) => Ok(
                    Some(ApplyOperation::Upsert { relative_path: path, blob_oid: *id }),
                ),
                Err(error) => Err(DiffError::Location(error)),
            }
        },
        DiffChange::Deletion { location, kind } => {
            if is_tree(*kind) {
                return Ok(None);
            }
            match diff_location_to_path(location.as_slice()) {
                Ok(path) => Ok(Some(ApplyOperation::Delete { relative_path: path })),
                Err(error) => Err(DiffError::Location(error)),
            }
        },
        DiffChange::Rewrite => Err(DiffError::Rewrite),
    }
}

/// The operations that bring the file system from one tree to another, by the differences
/// between the two.
pub fn collect_apply_operations(changes: &Vec<DiffChange>) -> (r: Result<
    Vec<ApplyOperation>,
    DiffError,
>)
    ensures
        match r {
            Ok(operations) => {
                &&& forall|i: int| 0 <= i < changes@.len() ==> !is_refused(#[trigger] changes@[i])
                &&& operation_views(operations@) == operations_of(changes@)
            },
            Err(DiffError::Rewrite) => exists|i: int| #[trigger]
                is_first_refused(changes@, i) && changes@[i] is Rewrite,
            Err(DiffError::Location(error)) => exists|i: int| #[trigger]
                is_first_refused(changes@, i) && file_location(changes@[i]) is Some
                    && error.location@ == lossy_text(file_location(changes@[i])->Some_0),
        },
{
    let mut operations: Vec<ApplyOperation> = Vec::new();
    assert(changes@.take(0) =~= Seq::<DiffChange>::empty());
    assert(operation_views(operations@) =~= operations_of(changes@.take(0)));
    for i in 0..changes.len()
        invariant
            forall|k: int| 0 <= k < i ==> !is_refused(#[trigger] changes@[k]),
            operation_views(operations@) == operations_of(changes@.take(i as int)),
    {
        assert(changes@.take(i + 1).drop_last() =~= changes@.take(i as int));
        match operation_for(&changes[i]) {
            Ok(Some(operation)) => {
                let ghost before = operations@;
                operations.push(operation);
                assert(operation_views(operations@) =~= operation_views(before).push(operation@));
            },
            Ok(None) => {},
            Err(error) => {
                assert(is_first_refused(changes@, i as int));
                return Err(error);
            },
        }
    }
    assert(changes@.take(changes@.len() as int) =~= changes@);
    Ok(operations)
}

// ----------------------------------------------------------------------------
// Laws
// ----------------------------------------------------------------------------

/// The files after an operation: their contents by path.
pub open spec fn operated(
    files: Map<Seq<char>, ObjectId>,
    operation: OperationView,
) -> Map<Seq<char>, ObjectId> {
    match operation {
        OperationView::Upsert { path, blob } => files.insert(path, blob),
        OperationView::Delete { path } => files.remove(path),
    }
}

/// The files after a list of operations.
pub open spec fn operated_all(
    files: Map<Seq<char>, ObjectId>,
    operations: Seq<OperationView>,
) -> Map<Seq<char>, ObjectId>
    decreases operations.len(),
{
    if operations.len() == 0 {
        files
    } else {
        operated(operated_all(files, operations.drop_last()), operations.last())
    }
}

/// Whether a difference says what is in `after` at its location.
pub open spec fn tells(change: DiffChange, after: Map<Seq<char>, ObjectId>) -> bool {
    match operation_of(change) {
        Some(OperationView::Upsert { path, blob }) => after.dom().contains(path) && after[path]
            == blob,
        Some(OperationView::Delete { path }) => !after.dom().contains(path),
        None => true,
    }
}

/// The path that a difference is about.
pub open spec fn path_of(change: DiffChange) -> Option<Seq<char>> {
    match operation_of(change) {
        Some(OperationView::Upsert { path, blob }) => Some(path),
        Some(OperationView::Delete { path }) => Some(path),
        None => None,
    }
}

/// Whether a difference is about this path.
pub open spec fn mentions(changes: Seq<DiffChange>, path: Seq<char>) -> bool {
    exists|i: int| 0 <= i < changes.len() && path_of(#[trigger] changes[i]) == Some(path)
}

/// Whether `changes` are the differences of the files of two trees: each says what is in the
/// second, and what is not mentioned is the same in both.
pub open spec fn are_differences(
    changes: Seq<DiffChange>,
    before: Map<Seq<char>, ObjectId>,
    after: Map<Seq<char>, ObjectId>,
) -> bool {
    &&& forall|i: int| 0 <= i < changes.len() ==> tells(#[trigger] changes[i], after)
    &&& forall|path: Seq<char>|
        !#[trigger] mentions(changes, path) ==> before.dom().contains(path) == after.dom().contains(
            path,
        ) && (before.dom().contains(path) ==> before[path] == after[path])
}

proof fn lemma_operated(
    changes: Seq<DiffChange>,
    before: Map<Seq<char>, ObjectId>,
    after: Map<Seq<char>, ObjectId>,
    path: Seq<char>,
)
    requires
        forall|i: int| 0 <= i < changes.len() ==> tells(#[trigger] changes[i], after),
    ensures
        ({
            let files = operated_all(before, operations_of(changes));
            if mentions(changes, path) {
                files.dom().contains(path) == after.dom().contains(path) && (files.dom().contains(
                    path,
                ) ==> files[path] == after[path])
            } else {
                files.dom().contains(path) == before.dom().contains(path) && (files.dom().contains(
                    path,
                ) ==> files[path] == before[path])
            }
        }),
    decreases changes.len(),
{
    if changes.len() > 0 {
        let rest = changes.drop_last();
        let last = changes.last();
        assert forall|i: int| 0 <= i < rest.len() implies tells(#[trigger] rest[i], after) by {
            assert(rest[i] == changes[i]);
        }
        lemma_operated(rest, before, after, path);
        let ops = operations_of(changes);
        if operation_of(last) is Some {
            assert(ops.drop_last() =~= operations_of(rest));
            assert(tells(changes[changes.len() - 1], after));
        }
        if mentions(rest, path) {
            let i = choose|i: int| 0 <= i < rest.len() && path_of(#[trigger] rest[i]) == Some(path);
            assert(path_of(changes[i]) == Some(path));
        }
        if path_of(last) == Some(path) {
            assert(path_of(changes[changes.len() - 1]) == Some(path));
        }
        if mentions(changes, path) && path_of(last) != Some(path) {
            let i = choose|i: int|
                0 <= i < changes.len() && path_of(#[trigger] changes[i]) == Some(path);
            assert(path_of(rest[i]) == Some(path));
        }
    }
}

/// The operations bring the files of one tree to those of the other.
pub proof fn law_operations_lead_from_tree_to_tree(
    changes: Seq<DiffChange>,
    before: Map<Seq<char>, ObjectId>,
    after: Map<Seq<char>, ObjectId>,
)
    requires
        are_differences(changes, before, after),
    ensures
        operated_all(before, operations_of(changes)) == after,
{
    let files = operated_all(before, operations_of(changes));
    assert forall|path: Seq<char>| files.dom().contains(path) == after.dom().contains(path) by {
        lemma_operated(changes, before, after, path);
    }
    assert forall|path: Seq<char>| files.dom().contains(path) implies files[path] == after[path] by {
        lemma_operated(changes, before, after, path);
    }
    assert(files =~= after);
}

/// The path of the file that a difference is about; none for a directory.
pub open spec fn changed_file(change: DiffChange) -> Option<Seq<char>> {
    match change {
        DiffChange::Addition { location, kind, id } => if kind is Tree {
            None
        } else {
            Some(decode_utf8(location@))
        },
        DiffChange::Modification { location, kind, id } => if kind is Tree {
            None
        } else {
            Some(decode_utf8(location@))
        },
        DiffChange::Deletion { location, kind } => if kind is Tree {
            None
        } else {
            Some(decode_utf8(location@))
        },
        DiffChange::Rewrite => None,
    }
}

/// What a file is after a difference: the blob that was added or that it was changed to, or
/// nothing where it was deleted.
pub open spec fn changed_to(change: DiffChange) -> Option<ObjectId> {
    match change {
        DiffChange::Addition { location, kind, id } => Some(id),
        DiffChange::Modification { location, kind, id } => Some(id),
        DiffChange::Deletion { location, kind } => None,
        DiffChange::Rewrite => None,
    }
}

/// What is at a path.
pub open spec fn file_at(files: Map<Seq<char>, ObjectId>, path: Seq<char>) -> Option<ObjectId> {
    if files.dom().contains(path) {
        Some(files[path])
    } else {
        None
    }
}

/// Whether a difference is about the file at this path.
pub open spec fn is_changed(changes: Seq<DiffChange>, path: Seq<char>) -> bool {
    exists|i: int| 0 <= i < changes.len() && changed_file(#[trigger] changes[i]) == Some(path)
}

/// Applying the differences between two trees makes the second of the first: where each difference
/// of a file says what the second has at its path, and the two have the same at all other paths,
/// the operations lead from the files of the first to those of the second.
pub proof fn law_applied_differences_make_the_second_tree(
    changes: Seq<DiffChange>,
    before: Map<Seq<char>, ObjectId>,
    after: Map<Seq<char>, ObjectId>,
)
    requires
        forall|i: int|
            0 <= i < changes.len() && changed_file(#[trigger] changes[i]) is Some ==> file_at(
                after,
                changed_file(changes[i])->0,
            ) == changed_to(changes[i]),
        forall|path: Seq<char>|
            !#[trigger] is_changed(changes, path) ==> file_at(before, path) == file_at(after, path),
    ensures
        operated_all(before, operations_of(changes)) == after,
{
    assert forall|i: int| 0 <= i < changes.len() implies tells(#[trigger] changes[i], after) by {
        assert(path_of(changes[i]) == changed_file(changes[i]));
    }
    assert forall|path: Seq<char>|
        !#[trigger] mentions(changes, path) implies before.dom().contains(path)
        == after.dom().contains(path) && (before.dom().contains(path) ==> before[path]
        == after[path]) by {
        if is_changed(changes, path) {
            let i = choose|i: int|
                0 <= i < changes.len() && changed_file(#[trigger] changes[i]) == Some(path);
            assert(path_of(changes[i]) == Some(path));
        }
        assert(file_at(before, path) == file_at(after, path));
    }
    law_operations_lead_from_tree_to_tree(changes, before, after);
}

/// No operation is about a directory or a file that is the same in both trees: each makes a
/// difference of a file, and there are as many as such differences.
pub proof fn law_each_operation_makes_a_difference(changes: Seq<DiffChange>, i: int) -> (k: int)
    requires
        0 <= i < operations_of(changes).len(),
    ensures
        0 <= k < changes.len(),
        i <= k,
        changed_file(changes[k]) is Some,
        match operations_of(changes)[i] {
            OperationView::Upsert { path, blob } => changed_file(changes[k]) == Some(path)
                && changed_to(changes[k]) == Some(blob),
            OperationView::Delete { path } => changed_file(changes[k]) == Some(path) && changed_to(
                changes[k],
            ) is None,
        },
    decreases changes.len(),
{
    let rest = operations_of(changes.drop_last());
    if i < rest.len() {
        let k = law_each_operation_makes_a_difference(changes.drop_last(), i);
        assert(changes.drop_last()[k] == changes[k]);
        k
    } else {
        lemma_fewer_operations(changes.drop_last());
        changes.len() - 1
    }
}

proof fn lemma_fewer_operations(changes: Seq<DiffChange>)
    ensures
        operations_of(changes).len() <= changes.len(),
    decreases changes.len(),
{
    if changes.len() > 0 {
        lemma_fewer_operations(changes.drop_last());
    }
}

/// Differences cannot be made where one of them is a renaming or about a file whose path is no
/// text. All others can.
pub proof fn law_what_cannot_be_made(change: DiffChange)
    ensures
        change is Rewrite ==> is_refused(change),
        change matches DiffChange::Addition { location, kind, id } ==> (is_refused(change)
            <==> !(kind is Tree) && !valid_utf8(location@)),
        change matches DiffChange::Modification { location, kind, id } ==> (is_refused(change)
            <==> !(kind is Tree) && !valid_utf8(location@)),
        change matches DiffChange::Deletion { location, kind } ==> (is_refused(change) <==> !(
        kind is Tree) && !valid_utf8(location@)),
{
}

/// The operations that are collected for the differences of two trees lead from the one to the
/// other, and they are refused exactly where one of the differences cannot be made.
pub proof fn law_collected_operations_lead_to_the_tree(
    changes: Vec<DiffChange>,
    r: Result<Vec<ApplyOperation>, DiffError>,
    before: Map<Seq<char>, ObjectId>,
    after: Map<Seq<char>, ObjectId>,
)
    requires
        call_ensures(collect_apply_operations, (&changes,), r),
        forall|i: int|
            0 <= i < changes@.len() && changed_file(#[trigger] changes@[i]) is Some ==> file_at(
                after,
                changed_file(changes@[i])->0,
            ) == changed_to(changes@[i]),
        forall|path: Seq<char>|
            !#[trigger] is_changed(changes@, path) ==> file_at(before, path) == file_at(
                after,
                path,
            ),
    ensures
        r is Ok ==> operated_all(before, operation_views(r->Ok_0@)) == after,
        r is Ok <==> forall|i: int| 0 <= i < changes@.len() ==> !is_refused(#[trigger] changes@[i]),
{
    law_applied_differences_make_the_second_tree(changes@, before, after);
}

/// An operation is told as what it is, with its path.
pub proof fn law_operations_are_told_apart(a: ApplyOperation, b: ApplyOperation)
    requires
        a.line() == b.line(),
    ensures
        a@ is Upsert <==> b@ is Upsert,
        a@ is Upsert ==> a@->Upsert_path == b@->Upsert_path,
        a@ is Delete ==> a@->Delete_path == b@->Delete_path,
        a@ is Upsert ==> a.line() == "upsert "@ + a@->Upsert_path,
        a@ is Delete ==> a.line() == "delete "@ + a@->Delete_path,
{
    reveal_strlit("upsert ");
    reveal_strlit("delete ");
    let (x, y) = (a.line(), b.line());
    assert(x[0] == y[0] && x.skip(7) == y.skip(7));
    assert(a@ is Upsert ==> x[0] == 'u' && x.skip(7) =~= a@->Upsert_path);
    assert(a@ is Delete ==> x[0] == 'd' && x.skip(7) =~= a@->Delete_path);
    assert(b@ is Upsert ==> y[0] == 'u' && y.skip(7) =~= b@->Upsert_path);
    assert(b@ is Delete ==> y[0] == 'd' && y.skip(7) =~= b@->Delete_path);
}

} // verus!
