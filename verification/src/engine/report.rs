//! What a synchronization reports.

use vstd::prelude::*;

use crate::engine::diff::ApplyOperation;
use crate::object::ObjectId;
use crate::text::{decimal, decimal_of, views};

verus! {

/// The line of a topic, before its status.
pub fn topic_line(name: &str) -> (r: String)
    ensures
        r@ == name@ + " — "@,
{
    name.to_owned().concat(" — ")
}

/// The line that tells which tree a topic would get.
pub fn repo_line(merged: ObjectId) -> (r: String)
    ensures
        r@ == "  repo: would update topic tree to "@ + merged.hex_text(),
{
    "  repo: would update topic tree to ".to_owned().concat(merged.hex().as_str())
}

/// The line that tells how many changes would be applied, and where.
pub fn system_line(count: usize, topic_base: &str) -> (r: String)
    ensures
        r@ == "  system: would apply "@ + decimal(count as nat) + " change(s) under "@ + topic_base@,
{
    "  system: would apply ".to_owned().concat(decimal_of(count).as_str()).concat(
        " change(s) under ",
    ).concat(topic_base)
}

/// The lines of the changes that would be applied.
pub open spec fn operation_texts(operations: Seq<ApplyOperation>) -> Seq<Seq<char>> {
    Seq::new(operations.len(), |i: int| "    "@ + operations[i].line())
}

/// The lines of the changes that would be applied.
pub fn operation_lines(operations: &Vec<ApplyOperation>) -> (r: Vec<String>)
    ensures
        views(r@) == operation_texts(operations@),
{
    let mut lines: Vec<String> = Vec::new();
    for i in 0..operations.len()
        invariant
            views(lines@) == operation_texts(operations@).take(i as int),
    {
        let ghost before = lines@;
        let line = "    ".to_owned().concat(operations[i].text().as_str());
        lines.push(line);
        assert(views(lines@) =~= views(before).push(line@));
        assert(operation_texts(operations@).take(i + 1) =~= operation_texts(operations@).take(
            i as int,
        ).push(line@));
    }
    assert(operation_texts(operations@).take(operations@.len() as int) =~= operation_texts(
        operations@,
    ));
    lines
}

/// The line that tells of conflicts between heads.
pub fn reconcile_conflict_line(name: &str) -> (r: String)
    ensures
        r@ == "Conflicts while reconciling "@ + name@,
{
    "Conflicts while reconciling ".to_owned().concat(name)
}

/// The line that tells how to go on after conflicts in a dry run.
pub fn conflict_hint() -> (r: &'static str)
    ensures
        r@ == "  run `porchetta sync` to resolve interactively"@,
{
    "  run `porchetta sync` to resolve interactively"
}

/// The line of a remote to which was published.
pub fn published_line(remote: &str) -> (r: String)
    ensures
        r@ == "Published synchronized refs to '"@ + remote@ + "'"@,
{
    "Published synchronized refs to '".to_owned().concat(remote).concat("'")
}

/// The line of a remote to which could not be published.
pub fn publish_failure_line(remote: &str, error: &str) -> (r: String)
    ensures
        r@ == "Failed to publish to '"@ + remote@ + "': "@ + error@,
{
    "Failed to publish to '".to_owned().concat(remote).concat("': ").concat(error)
}

} // verus!
