//! Whether operations can be applied to the file system.

use vstd::prelude::*;

use crate::engine::diff::{ApplyOperation, OperationView};

verus! {

/// What is at the absolute path of an operation.
#[derive(Debug)]
pub struct PathFacts {
    pub abs_path: String,
    pub is_dir: bool,
    /// The parent of the path, where it has one.
    pub parent: Option<String>,
    pub parent_is_file: bool,
}

/// Why operations cannot be applied.
#[derive(Debug)]
pub enum ApplyError {
    WriteDirectory { topic: String, path: String },
    ParentIsFile { topic: String, path: String, parent: String },
    DeleteDirectory { topic: String, path: String },
}

impl ApplyError {
    /// The text of the error.
    pub open spec fn text(&self) -> Seq<char> {
        match self {
            ApplyError::WriteDirectory { topic, path } => "Topic '"@ + topic@
                + "' cannot write file '"@ + path@ + "' because it is a directory"@,
            ApplyError::ParentIsFile { topic, path, parent } => "Topic '"@ + topic@
                + "' cannot create '"@ + path@ + "' because parent '"@ + parent@ + "' is a file"@,
            ApplyError::DeleteDirectory { topic, path } => "Topic '"@ + topic@
                + "' cannot delete '"@ + path@ + "' as a file because it is a directory"@,
        }
    }

    /// The text of the error.
    pub fn message(&self) -> (r: String)
        ensures
            r@ == self.text(),
    {
        match self {
            ApplyError::WriteDirectory { topic, path } => "Topic '".to_owned().concat(
                topic.as_str(),
            ).concat("' cannot write file '").concat(path.as_str()).concat(
                "' because it is a directory",
            ),
            ApplyError::ParentIsFile { topic, path, parent } => "Topic '".to_owned().concat(
                topic.as_str(),
            ).concat("' cannot create '").concat(path.as_str()).concat(
                "' because parent '",
            ).concat(parent.as_str()).concat("' is a file"),
            ApplyError::DeleteDirectory { topic, path } => "Topic '".to_owned().concat(
                topic.as_str(),
            ).concat("' cannot delete '").concat(path.as_str()).concat(
                "' as a file because it is a directory",
            ),
        }
    }
}

/// Whether an operation can be applied: it replaces and deletes no directory, and needs no
/// directory where there is a file.
pub open spec fn can_apply(operation: OperationView, facts: PathFacts) -> bool {
    !facts.is_dir && (operation is Upsert ==> facts.parent is None || !facts.parent_is_file)
}

/// Whether `error` is why an operation cannot be applied.
pub open spec fn is_error_of(
    error: ApplyError,
    topic: Seq<char>,
    operation: OperationView,
    facts: PathFacts,
) -> bool {
    match error {
        ApplyError::WriteDirectory { topic: t, path } => operation is Upsert && facts.is_dir && t@
            == topic && path@ == facts.abs_path@,
        ApplyError::ParentIsFile { topic: t, path, parent } => operation is Upsert && !facts.is_dir
            && facts.parent_is_file && t@ == topic && path@ == facts.abs_path@
            && facts.parent is Some && parent@ == facts.parent->Some_0@,
        ApplyError::DeleteDirectory { topic: t, path } => operation is Delete && facts.is_dir && t@
            == topic && path@ == facts.abs_path@,
    }
}

/// Whether the operation at `i` is the first that cannot be applied.
pub open spec fn is_first_refused(
    operations: Seq<ApplyOperation>,
    facts: Seq<PathFacts>,
    i: int,
) -> bool {
    &&& 0 <= i < operations.len()
    &&& !can_apply(operations[i]@, facts[i])
    &&& forall|k: int| 0 <= k < i ==> can_apply((#[trigger] operations[k])@, facts[k])
}

/// Validates that operations can be applied, by what is at the path of each. Nothing may be
/// written unless all of them can.
pub fn validate_operations(
    topic_name: &str,
    operations: &Vec<ApplyOperation>,
    facts: &Vec<PathFacts>,
) -> (r: Result<(), ApplyError>)
    requires
        operations@.len() == facts@.len(),
    ensures
        match r {
            Ok(()) => forall|i: int|
                0 <= i < operations@.len() ==> can_apply((#[trigger] operations@[i])@, facts@[i]),
            Err(error) => exists|i: int| #[trigger]
                is_first_refused(operations@, facts@, i) && is_error_of(
                    error,
                    topic_name@,
                    operations@[i]@,
                    facts@[i],
                ),
        },
        r is Ok <==> forall|i: int|
            0 <= i < operations@.len() ==> !facts@[i].is_dir && !(#[trigger] operations@[i] is Upsert
                && facts@[i].parent is Some && facts@[i].parent_is_file),
{
    for i in 0..operations.len()
        invariant
            operations@.len() == facts@.len(),
            forall|k: int|
                0 <= k < i ==> can_apply((#[trigger] operations@[k])@, facts@[k]),
    {
        let there = &facts[i];
        match &operations[i] {
            ApplyOperation::Upsert { relative_path: _, blob_oid: _ } => {
                if there.is_dir {
                    assert(is_first_refused(operations@, facts@, i as int));
                    return Err(
                        ApplyError::WriteDirectory {
                            topic: topic_name.to_owned(),
                            path: there.abs_path.clone(),
                        },
                    );
                }
                if let Some(parent) = &there.parent {
                    if there.parent_is_file {
                        assert(is_first_refused(operations@, facts@, i as int));
                        return Err(
                            ApplyError::ParentIsFile {
                                topic: topic_name.to_owned(),
                                path: there.abs_path.clone(),
                                parent: parent.clone(),
                            },
                        );
                    }
                }
            },
            ApplyOperation::Delete { relative_path: _ } => {
                if there.is_dir {
                    assert(is_first_refused(operations@, facts@, i as int));
                    return Err(
                        ApplyError::DeleteDirectory {
                            topic: topic_name.to_owned(),
                            path: there.abs_path.clone(),
                        },
                    );
                }
            },
        }
    }
    Ok(())
}

// ----------------------------------------------------------------------------
// Laws
// ----------------------------------------------------------------------------

/// No directory is overwritten or deleted, and no file is made where a directory would have to
/// take the place of a file; anything else can be applied.
pub proof fn law_directories_are_left_alone(operation: OperationView, facts: PathFacts)
    ensures
        facts.is_dir ==> !can_apply(operation, facts),
        operation is Upsert && facts.parent is Some && facts.parent_is_file ==> !can_apply(
            operation,
            facts,
        ),
        !facts.is_dir && !facts.parent_is_file ==> can_apply(operation, facts),
        !facts.is_dir && operation is Delete ==> can_apply(operation, facts),
{
}

/// Each refusal has its own error, which names the topic and the path.
pub proof fn law_refusals_say_why(
    error: ApplyError,
    topic: Seq<char>,
    operation: OperationView,
    facts: PathFacts,
)
    requires
        !can_apply(operation, facts),
        is_error_of(error, topic, operation, facts),
    ensures
        operation is Delete ==> error is DeleteDirectory,
        operation is Upsert && facts.is_dir ==> error is WriteDirectory,
        operation is Upsert && !facts.is_dir ==> error is ParentIsFile,
        match error {
            ApplyError::WriteDirectory { topic: t, path } => t@ == topic && path@
                == facts.abs_path@,
            ApplyError::ParentIsFile { topic: t, path, parent } => t@ == topic && path@
                == facts.abs_path@ && facts.parent is Some && parent@ == facts.parent->Some_0@,
            ApplyError::DeleteDirectory { topic: t, path } => t@ == topic && path@
                == facts.abs_path@,
        },
{
}

} // verus!
